//! What holds over whole runs of a `MultiCameraTracker`.

use vstd::prelude::*;

use crate::multicam::{
    are_pair_matches, are_pair_scores, is_frame, law_frame_keeps_identities,
    law_one_camera_keeps_ids, lemma_all_merged, lemma_all_shown, lemma_matches_fit, lemma_track_total,
    track_total,
    Identities,
};
use crate::sort::Track;

verus! {

/// A call of `MultiCameraTracker::update` with the tracks of all cameras. A call with
/// another number of cameras changes nothing and is left out.
pub ghost struct FusedFrame {
    pub tracks: Seq<Vec<Track>>,
    pub scores: Seq<Vec<Vec<Vec<i64>>>>,
    /// The identities after the call, whose global ids it returns.
    pub after: Identities,
}

/// The identities after the first `k` frames of a run.
pub open spec fn identities_at(cameras: nat, frames: Seq<FusedFrame>, k: int) -> Identities {
    if k <= 0 {
        Identities::start(cameras)
    } else {
        frames[k - 1].after
    }
}

/// How many tracks the first `k` frames of a run have.
pub open spec fn tracks_until(frames: Seq<FusedFrame>, k: int) -> int
    decreases k,
{
    if k <= 0 {
        0
    } else {
        tracks_until(frames, k - 1) + track_total(
            frames[k - 1].tracks,
            frames[k - 1].tracks.len() as int,
        )
    }
}

/// Frame `k` of a run goes on from the frames before it.
pub open spec fn fuses_on(
    cameras: nat,
    threshold: int,
    frames: Seq<FusedFrame>,
    k: int,
) -> bool {
    &&& frames[k].tracks.len() == cameras
    &&& are_pair_scores(frames[k].scores, frames[k].tracks)
    &&& is_frame(
        identities_at(cameras, frames, k),
        frames[k].tracks,
        frames[k].scores,
        threshold,
        frames[k].after,
    )
}

/// The frames of a global tracker, from its creation on. Their tracks can be counted in
/// an `i64`.
pub open spec fn is_fusion(cameras: nat, threshold: int, frames: Seq<FusedFrame>) -> bool {
    &&& forall|k: int|
        0 <= k < frames.len() ==> #[trigger] fuses_on(cameras, threshold, frames, k)
    &&& 1 + tracks_until(frames, frames.len() as int) <= i64::MAX
}

/// One of the first `n` tracks has the local id.
pub open spec fn shows(tracks: Seq<Track>, n: int, id: i64) -> bool {
    exists|t: int| 0 <= t < n && (#[trigger] tracks[t]).id == id
}

/// Frame `m` shows the local id in camera `s`.
pub open spec fn frame_shows(frames: Seq<FusedFrame>, s: int, id: i64, m: int) -> bool {
    shows(frames[m].tracks[s]@, frames[m].tracks[s]@.len() as int, id)
}

/// One of the first `k` frames shows the local id in camera `s`.
pub open spec fn was_shown(frames: Seq<FusedFrame>, s: int, id: i64, k: int) -> bool {
    exists|m: int| 0 <= m < k && #[trigger] frame_shows(frames, s, id, m)
}

/// How many local ids the first `n` cameras have together.
pub open spec fn key_total(ids: Seq<Map<i64, i64>>, n: int) -> int
    decreases n,
{
    if n <= 0 {
        0
    } else {
        key_total(ids, n - 1) + ids[n - 1].dom().len()
    }
}

/// As many global ids have been given as there are local ids.
spec fn tallies(st: Identities) -> bool {
    &&& forall|s: int| 0 <= s < st.ids.len() ==> (#[trigger] st.ids[s]).dom().finite()
    &&& st.next == 1 + key_total(st.ids, st.ids.len() as int)
}

proof fn lemma_key_total_update(ids: Seq<Map<i64, i64>>, s: int, m: Map<i64, i64>, n: int)
    requires
        0 <= s < ids.len(),
        0 <= n <= ids.len(),
    ensures
        key_total(ids.update(s, m), n) == key_total(ids, n) + if s < n {
            m.dom().len() - ids[s].dom().len()
        } else {
            0
        },
    decreases n,
{
    if n > 0 {
        lemma_key_total_update(ids, s, m, n - 1);
    }
}

proof fn lemma_key_total_same(a: Seq<Map<i64, i64>>, b: Seq<Map<i64, i64>>, n: int)
    requires
        forall|s: int| 0 <= s < n ==> (#[trigger] a[s]).dom() == b[s].dom(),
    ensures
        key_total(a, n) == key_total(b, n),
    decreases n,
{
    if n > 0 {
        lemma_key_total_same(a, b, n - 1);
    }
}

proof fn lemma_camera_tallies(st: Identities, s: int, tracks: Seq<Track>, k: int)
    requires
        tallies(st),
        0 <= s < st.ids.len(),
        0 <= k <= tracks.len(),
    ensures
        tallies(st.camera_shown(s, tracks, k)),
        st.camera_shown(s, tracks, k).ids.len() == st.ids.len(),
        forall|r: int, id: i64|
            0 <= r < st.ids.len() ==> (#[trigger] st.camera_shown(s, tracks, k).ids[r].contains_key(
                id,
            ) <==> st.ids[r].contains_key(id) || r == s && shows(tracks, k, id)),
    decreases k,
{
    if k > 0 {
        lemma_camera_tallies(st, s, tracks, k - 1);
        let mid = st.camera_shown(s, tracks, k - 1);
        let after = st.camera_shown(s, tracks, k);
        let id = tracks[k - 1].id;
        if !mid.ids[s].contains_key(id) {
            let grown = mid.ids[s].insert(id, mid.next as i64);
            assert(grown.dom() =~= mid.ids[s].dom().insert(id));
            lemma_key_total_update(mid.ids, s, grown, mid.ids.len() as int);
        }
        assert forall|r: int, x: i64| 0 <= r < st.ids.len() implies (
        #[trigger] after.ids[r].contains_key(x) <==> st.ids[r].contains_key(x) || r == s && shows(
            tracks,
            k,
            x,
        )) by {
            assert(mid.ids[r].contains_key(x) <==> st.ids[r].contains_key(x) || r == s && shows(
                tracks,
                k - 1,
                x,
            ));
            if shows(tracks, k - 1, x) {
                let t = choose|t: int| 0 <= t < k - 1 && (#[trigger] tracks[t]).id == x;
                assert(0 <= t < k && tracks[t].id == x);
            }
            if x == id {
                assert(0 <= k - 1 < k && tracks[k - 1].id == x);
            }
        }
    }
}

proof fn lemma_all_tallies(st: Identities, tracks: Seq<Vec<Track>>, k: int)
    requires
        tallies(st),
        st.ids.len() == tracks.len(),
        0 <= k <= tracks.len(),
    ensures
        tallies(st.all_shown(tracks, k)),
        st.all_shown(tracks, k).ids.len() == st.ids.len(),
        forall|r: int, id: i64|
            0 <= r < st.ids.len() ==> (#[trigger] st.all_shown(tracks, k).ids[r].contains_key(id)
                <==> st.ids[r].contains_key(id) || r < k && shows(
                tracks[r]@,
                tracks[r]@.len() as int,
                id,
            )),
    decreases k,
{
    if k > 0 {
        lemma_all_tallies(st, tracks, k - 1);
        let mid = st.all_shown(tracks, k - 1);
        let after = st.all_shown(tracks, k);
        lemma_camera_tallies(mid, k - 1, tracks[k - 1]@, tracks[k - 1]@.len() as int);
        assert forall|r: int, id: i64| 0 <= r < st.ids.len() implies (
        #[trigger] after.ids[r].contains_key(id) <==> st.ids[r].contains_key(id) || r < k && shows(
            tracks[r]@,
            tracks[r]@.len() as int,
            id,
        )) by {
            assert(mid.ids[r].contains_key(id) <==> st.ids[r].contains_key(id) || r < k - 1 && shows(
                tracks[r]@,
                tracks[r]@.len() as int,
                id,
            ));
        }
    }
}

proof fn lemma_pair_keeps_rest(
    st: Identities,
    i: int,
    j: int,
    tracks_i: Seq<Track>,
    tracks_j: Seq<Track>,
    matches: Seq<(usize, usize)>,
    k: int,
)
    ensures
        st.pair_merged(i, j, tracks_i, tracks_j, matches, k).next == st.next,
        st.pair_merged(i, j, tracks_i, tracks_j, matches, k).ages == st.ages,
    decreases k,
{
    if k > 0 {
        lemma_pair_keeps_rest(st, i, j, tracks_i, tracks_j, matches, k - 1);
    }
}

proof fn lemma_row_keeps_rest(
    st: Identities,
    tracks: Seq<Vec<Track>>,
    matches: Seq<Seq<Seq<(usize, usize)>>>,
    i: int,
    j: int,
)
    ensures
        st.row_merged(tracks, matches, i, j).next == st.next,
        st.row_merged(tracks, matches, i, j).ages == st.ages,
    decreases j,
{
    if j > i + 1 && j > 0 {
        lemma_row_keeps_rest(st, tracks, matches, i, j - 1);
        let m = matches[i][j - 1];
        lemma_pair_keeps_rest(
            st.row_merged(tracks, matches, i, j - 1),
            i,
            j - 1,
            tracks[i]@,
            tracks[j - 1]@,
            m,
            m.len() as int,
        );
    }
}

/// Merging identities takes no ids and changes no ages.
pub(crate) proof fn lemma_merging_keeps_rest(
    st: Identities,
    tracks: Seq<Vec<Track>>,
    matches: Seq<Seq<Seq<(usize, usize)>>>,
    k: int,
)
    ensures
        st.all_merged(tracks, matches, k).next == st.next,
        st.all_merged(tracks, matches, k).ages == st.ages,
    decreases k,
{
    if k > 0 {
        lemma_merging_keeps_rest(st, tracks, matches, k - 1);
        lemma_row_keeps_rest(
            st.all_merged(tracks, matches, k - 1),
            tracks,
            matches,
            k - 1,
            tracks.len() as int,
        );
    }
}

/// What a frame does to the local ids and to the room that is left.
proof fn lemma_frame_tallies(
    before: Identities,
    frame: FusedFrame,
    threshold: int,
    more: int,
)
    requires
        before.wf(),
        tallies(before),
        before.ids.len() == frame.tracks.len(),
        0 <= more,
        before.has_room(track_total(frame.tracks, frame.tracks.len() as int) + more),
        before.has_room(track_total(frame.tracks, frame.tracks.len() as int)),
        are_pair_scores(frame.scores, frame.tracks),
        is_frame(before, frame.tracks, frame.scores, threshold, frame.after),
    ensures
        frame.after.wf(),
        tallies(frame.after),
        frame.after.ids.len() == before.ids.len(),
        frame.after.has_room(more),
        forall|r: int, id: i64|
            0 <= r < before.ids.len() ==> (#[trigger] frame.after.ids[r].contains_key(id)
                <==> before.ids[r].contains_key(id) || shows(
                frame.tracks[r]@,
                frame.tracks[r]@.len() as int,
                id,
            )),
{
    let tracks = frame.tracks;
    let n = tracks.len() as int;
    let shown = before.all_shown(tracks, n);
    let after = frame.after;
    let matches = choose|matches: Seq<Seq<Seq<(usize, usize)>>>| #[trigger]
        are_pair_matches(frame.scores, tracks, threshold, matches) && after == shown.all_merged(
            tracks,
            matches,
            n,
        );
    lemma_all_shown(before, tracks, n);
    lemma_all_tallies(before, tracks, n);
    lemma_matches_fit(frame.scores, tracks, threshold, matches);
    assert(shown.knows(tracks));
    lemma_all_merged(shown, tracks, matches, n);
    lemma_merging_keeps_rest(shown, tracks, matches, n);
    assert(shown.has_room(more));
    assert forall|s: int| 0 <= s < n implies (#[trigger] after.ids[s]).dom()
        == shown.ids[s].dom() by {
        assert forall|id: i64| after.ids[s].dom().contains(id) <==> shown.ids[s].dom().contains(
            id,
        ) by {
            assert(after.ids[s].contains_key(id) <==> shown.ids[s].contains_key(id));
        }
        assert(after.ids[s].dom() =~= shown.ids[s].dom());
    }
    lemma_key_total_same(after.ids, shown.ids, n);
    assert forall|r: int, id: i64| 0 <= r < before.ids.len() implies (
    #[trigger] after.ids[r].contains_key(id) <==> before.ids[r].contains_key(id) || shows(
        tracks[r]@,
        tracks[r]@.len() as int,
        id,
    )) by {
        assert(after.ids[r].contains_key(id) <==> shown.ids[r].contains_key(id));
    }
}

proof fn lemma_tracks_grow(frames: Seq<FusedFrame>, k: int, n: int)
    requires
        0 <= k <= n,
    ensures
        0 <= tracks_until(frames, k) <= tracks_until(frames, n),
    decreases n,
{
    if k < n {
        lemma_tracks_grow(frames, k, n - 1);
        lemma_track_total(frames[n - 1].tracks, 0, frames[n - 1].tracks.len() as int);
    } else if k > 0 {
        lemma_tracks_grow(frames, k - 1, k - 1);
        lemma_track_total(frames[k - 1].tracks, 0, frames[k - 1].tracks.len() as int);
    }
}

/// How many more tracks a run has after its first `k` frames.
spec fn room_at(frames: Seq<FusedFrame>, k: int) -> int {
    tracks_until(frames, frames.len() as int) - tracks_until(frames, k)
}

/// What is true of the identities all along a run.
proof fn lemma_run(cameras: nat, threshold: int, frames: Seq<FusedFrame>, k: int)
    requires
        is_fusion(cameras, threshold, frames),
        0 <= k <= frames.len(),
    ensures
        identities_at(cameras, frames, k).wf(),
        tallies(identities_at(cameras, frames, k)),
        identities_at(cameras, frames, k).ids.len() == cameras,
        identities_at(cameras, frames, k).has_room(room_at(frames, k)),
        forall|s: int, id: i64|
            0 <= s < cameras ==> (#[trigger] identities_at(cameras, frames, k).ids[s].contains_key(
                id,
            ) <==> was_shown(frames, s, id, k)),
    decreases k,
{
    lemma_tracks_grow(frames, k, frames.len() as int);
    if k > 0 {
        lemma_run(cameras, threshold, frames, k - 1);
        let before = identities_at(cameras, frames, k - 1);
        let frame = frames[k - 1];
        lemma_room(cameras, threshold, frames, k - 1);
        lemma_frame_tallies(before, frame, threshold, room_at(frames, k));
        assert forall|s: int, id: i64| 0 <= s < cameras implies (
        #[trigger] frame.after.ids[s].contains_key(id) <==> was_shown(frames, s, id, k)) by {
            assert(before.ids[s].contains_key(id) <==> was_shown(frames, s, id, k - 1));
            if was_shown(frames, s, id, k - 1) {
                let m = choose|m: int| 0 <= m < k - 1 && #[trigger] frame_shows(frames, s, id, m);
                assert(0 <= m < k && frame_shows(frames, s, id, m));
            }
            if frame_shows(frames, s, id, k - 1) {
                assert(0 <= k - 1 < k && frame_shows(frames, s, id, k - 1));
            }
        }
    } else {
        lemma_no_keys(cameras, cameras as int);
    }
}

proof fn lemma_no_keys(cameras: nat, n: int)
    requires
        n <= cameras,
    ensures
        key_total(Identities::start(cameras).ids, n) == 0,
    decreases n,
{
    if n > 0 {
        lemma_no_keys(cameras, n - 1);
        assert(Identities::start(cameras).ids[n - 1].dom() =~= Set::empty());
    }
}

/// Where there is room for the rest of a run, there is room for its next frame.
proof fn lemma_room(cameras: nat, threshold: int, frames: Seq<FusedFrame>, k: int)
    requires
        is_fusion(cameras, threshold, frames),
        0 <= k < frames.len(),
        identities_at(cameras, frames, k).has_room(room_at(frames, k)),
    ensures
        fuses_on(cameras, threshold, frames, k),
        0 <= room_at(frames, k + 1),
        identities_at(cameras, frames, k).has_room(
            track_total(frames[k].tracks, frames[k].tracks.len() as int),
        ),
        identities_at(cameras, frames, k).has_room(
            track_total(frames[k].tracks, frames[k].tracks.len() as int) + room_at(frames, k + 1),
        ),
{
    assert(fuses_on(cameras, threshold, frames, k));
    lemma_tracks_grow(frames, k + 1, frames.len() as int);
    lemma_track_total(frames[k].tracks, 0, frames[k].tracks.len() as int);
}

/// The global ids of a camera are kept for exactly the local ids that it has shown in
/// any frame so far. They are positive and not above the number of local ids of all
/// cameras.
pub proof fn law_ids_are_those_shown(
    cameras: nat,
    threshold: int,
    frames: Seq<FusedFrame>,
    k: int,
    s: int,
    id: i64,
)
    requires
        is_fusion(cameras, threshold, frames),
        0 <= k <= frames.len(),
        0 <= s < cameras,
    ensures
        identities_at(cameras, frames, k).ids.len() == cameras,
        identities_at(cameras, frames, k).ids[s].contains_key(id) <==> was_shown(
            frames,
            s,
            id,
            k,
        ),
        was_shown(frames, s, id, k) ==> 1 <= identities_at(cameras, frames, k).ids[s][id]
            <= key_total(identities_at(cameras, frames, k).ids, cameras as int),
{
    lemma_run(cameras, threshold, frames, k);
    let now = identities_at(cameras, frames, k);
    assert(now.ids[s].contains_key(id) <==> was_shown(frames, s, id, k));
}

/// Local ids that share a global id share one forever: identities are merged and never
/// split.
pub proof fn law_identities_are_never_split(
    cameras: nat,
    threshold: int,
    frames: Seq<FusedFrame>,
    p: int,
    q: int,
    i: int,
    a: i64,
    j: int,
    b: i64,
)
    requires
        is_fusion(cameras, threshold, frames),
        0 <= p <= q <= frames.len(),
        0 <= i < cameras,
        0 <= j < cameras,
        identities_at(cameras, frames, p).ids[i].contains_key(a),
        identities_at(cameras, frames, p).ids[j].contains_key(b),
        identities_at(cameras, frames, p).ids[i][a] == identities_at(cameras, frames, p).ids[j][b],
    ensures
        identities_at(cameras, frames, q).ids[i].contains_key(a),
        identities_at(cameras, frames, q).ids[j].contains_key(b),
        identities_at(cameras, frames, q).ids[i][a] == identities_at(cameras, frames, q).ids[j][b],
    decreases q,
{
    if p < q {
        law_identities_are_never_split(cameras, threshold, frames, p, q - 1, i, a, j, b);
        lemma_run(cameras, threshold, frames, q - 1);
        lemma_room(cameras, threshold, frames, q - 1);
        let before = identities_at(cameras, frames, q - 1);
        let frame = frames[q - 1];
        law_frame_keeps_identities(before, frame.tracks, frame.scores, threshold, frame.after);
    }
}

/// Some local ids, and after them those among the first `n` tracks that are not there
/// yet.
pub open spec fn with_appeared(known: Seq<i64>, tracks: Seq<Track>, n: int) -> Seq<i64>
    decreases n,
{
    if n <= 0 {
        known
    } else {
        let before = with_appeared(known, tracks, n - 1);
        if before.contains(tracks[n - 1].id) {
            before
        } else {
            before.push(tracks[n - 1].id)
        }
    }
}

/// The local ids that the first camera has shown in the first `k` frames, in the order
/// in which they appeared.
pub open spec fn appeared(frames: Seq<FusedFrame>, k: int) -> Seq<i64>
    decreases k,
{
    if k <= 0 {
        Seq::empty()
    } else {
        with_appeared(
            appeared(frames, k - 1),
            frames[k - 1].tracks[0]@,
            frames[k - 1].tracks[0]@.len() as int,
        )
    }
}

/// The local ids of the first camera are numbered in the given order.
spec fn is_numbered(st: Identities, order: Seq<i64>) -> bool {
    &&& st.ids.len() == 1
    &&& st.next == order.len() + 1
    &&& forall|id: i64| #[trigger] st.ids[0].contains_key(id) <==> order.contains(id)
    &&& forall|i: int| 0 <= i < order.len() ==> st.ids[0][#[trigger] order[i]] == i + 1
}

proof fn lemma_numbered(st: Identities, order: Seq<i64>, tracks: Seq<Track>, n: int)
    requires
        is_numbered(st, order),
        0 <= n <= tracks.len(),
        st.next + n <= i64::MAX,
    ensures
        is_numbered(st.camera_shown(0, tracks, n), with_appeared(order, tracks, n)),
        with_appeared(order, tracks, n).len() <= order.len() + n,
    decreases n,
{
    if n > 0 {
        lemma_numbered(st, order, tracks, n - 1);
        let mid = st.camera_shown(0, tracks, n - 1);
        let after = st.camera_shown(0, tracks, n);
        let known = with_appeared(order, tracks, n - 1);
        let now = with_appeared(order, tracks, n);
        let id = tracks[n - 1].id;
        assert(mid.ids[0].contains_key(id) <==> known.contains(id));
        if !known.contains(id) {
            assert(after.ids[0] == mid.ids[0].insert(id, mid.next as i64));
            assert forall|x: i64| #[trigger] after.ids[0].contains_key(x) <==> now.contains(x) by {
                assert(mid.ids[0].contains_key(x) <==> known.contains(x));
                if known.contains(x) {
                    let i = choose|i: int| 0 <= i < known.len() && known[i] == x;
                    assert(now[i] == x);
                }
                if x == id {
                    assert(now[known.len() as int] == x);
                }
                if now.contains(x) && x != id {
                    let i = choose|i: int| 0 <= i < now.len() && now[i] == x;
                    assert(known[i] == x);
                }
            }
            assert forall|i: int| 0 <= i < now.len() implies after.ids[0][#[trigger] now[i]] == i
                + 1 by {
                if i < known.len() {
                    assert(known[i] == now[i]);
                    assert(known.contains(known[i]));
                }
            }
        }
    }
}

/// With one camera the local id that appears as the first has the global id 1, the next
/// the global id 2, and so on, and no global id ever changes.
pub proof fn law_one_camera_numbers_ids(threshold: int, frames: Seq<FusedFrame>, k: int)
    requires
        is_fusion(1, threshold, frames),
        0 <= k <= frames.len(),
    ensures
        forall|id: i64| #[trigger]
            identities_at(1, frames, k).ids[0].contains_key(id) <==> appeared(frames, k).contains(
                id,
            ),
        forall|i: int|
            0 <= i < appeared(frames, k).len() ==> identities_at(1, frames, k).ids[0][#[trigger] appeared(
                frames,
                k,
            )[i]] == i + 1,
{
    lemma_one_camera(threshold, frames, k);
}

proof fn lemma_one_camera(threshold: int, frames: Seq<FusedFrame>, k: int)
    requires
        is_fusion(1, threshold, frames),
        0 <= k <= frames.len(),
    ensures
        is_numbered(identities_at(1, frames, k), appeared(frames, k)),
    decreases k,
{
    if k > 0 {
        lemma_one_camera(threshold, frames, k - 1);
        lemma_run(1, threshold, frames, k - 1);
        lemma_room(1, threshold, frames, k - 1);
        let before = identities_at(1, frames, k - 1);
        let frame = frames[k - 1];
        let tracks = frame.tracks[0]@;
        assert(track_total(frame.tracks, 1) == tracks.len()) by {
            reveal_with_fuel(track_total, 2);
        }
        law_one_camera_keeps_ids(before, frame.tracks, frame.scores, threshold, frame.after);
        assert(before.all_shown(frame.tracks, 0) == before);
        lemma_numbered(before, appeared(frames, k - 1), tracks, tracks.len() as int);
    }
}

} // verus!
