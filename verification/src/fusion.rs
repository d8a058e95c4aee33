//! What a frame does to the identities of a `MultiCameraTracker`: which local ids become
//! one object, which stay apart, and which global ids they have.

use std::collections::HashMap;

use vstd::prelude::*;

use crate::association::{
    are_matches, is_association, is_matching, law_association_accounts_for_all,
    lemma_matches_in_range, lemma_same_matches, score_entries,
};
use crate::multicam::{
    all_in_range, are_pair_matches, are_pair_scores, contents, in_range, is_frame,
    law_associated_tracks_share_identity, law_frame_keeps_identities,
    lemma_all_merged, lemma_all_shown, lemma_camera_shown, lemma_matches_fit, lemma_merged,
    lemma_pair_merged, lemma_row_merged, lemma_shown, lemma_track_total, track_total, Identities,
};
use crate::multicam_run::lemma_merging_keeps_rest;
use crate::sort::Track;

verus! {

/// Local ids that share a global id are in the same group.
spec fn grouped(st: Identities, group: spec_fn(int, i64) -> int) -> bool {
    forall|r: int, x: i64, s: int, y: i64|
        0 <= r < st.ids.len() && 0 <= s < st.ids.len() && #[trigger] st.ids[r].contains_key(x)
            && #[trigger] st.ids[s].contains_key(y) && st.ids[r][x] == st.ids[s][y] ==> group(r, x)
            == group(s, y)
}

/// The local ids with the global id `g` are those of group 1.
spec fn marked(st: Identities, g: i64, group: spec_fn(int, i64) -> int) -> bool {
    forall|r: int, x: i64|
        0 <= r < st.ids.len() && #[trigger] st.ids[r].contains_key(x) ==> (st.ids[r][x] == g
            <==> group(r, x) == 1)
}

/// Matches join local ids of the same group.
spec fn joins_groups(
    group: spec_fn(int, i64) -> int,
    i: int,
    j: int,
    tracks_i: Seq<Track>,
    tracks_j: Seq<Track>,
    matches: Seq<(usize, usize)>,
) -> bool {
    forall|x: int|
        0 <= x < matches.len() ==> group(i, tracks_i[(#[trigger] matches[x]).0 as int].id) == group(
            j,
            tracks_j[matches[x].1 as int].id,
        )
}

spec fn all_join_groups(
    group: spec_fn(int, i64) -> int,
    tracks: Seq<Vec<Track>>,
    matches: Seq<Seq<Seq<(usize, usize)>>>,
) -> bool {
    forall|i: int, j: int|
        0 <= i < j < tracks.len() ==> joins_groups(
            group,
            i,
            j,
            tracks[i]@,
            tracks[j]@,
            #[trigger] matches[i][j],
        )
}

proof fn lemma_shown_groups(
    st: Identities,
    s: int,
    id: i64,
    g: i64,
    group: spec_fn(int, i64) -> int,
)
    requires
        st.wf(),
        0 <= s < st.ids.len(),
        st.has_room(1),
        grouped(st, group),
        marked(st, g, group),
        g < st.next,
        st.ids[s].contains_key(id) || group(s, id) != 1,
    ensures
        grouped(st.shown(s, id), group),
        marked(st.shown(s, id), g, group),
        st.next <= st.shown(s, id).next,
{
    let after = st.shown(s, id);
    assert forall|r: int, x: i64, q: int, y: i64|
        0 <= r < after.ids.len() && 0 <= q < after.ids.len() && #[trigger] after.ids[r].contains_key(
            x,
        ) && #[trigger] after.ids[q].contains_key(y) && after.ids[r][x]
            == after.ids[q][y] implies group(r, x) == group(q, y) by {
        let known = st.ids[r].contains_key(x) && st.ids[q].contains_key(y);
        if !known {
            assert(st.ids[r].contains_key(x) || (r == s && x == id));
            assert(st.ids[q].contains_key(y) || (q == s && y == id));
        }
    }
    assert forall|r: int, x: i64|
        0 <= r < after.ids.len() && #[trigger] after.ids[r].contains_key(x) implies (
    after.ids[r][x] == g <==> group(r, x) == 1) by {
        assert(st.ids[r].contains_key(x) || (r == s && x == id));
    }
}

proof fn lemma_camera_groups(
    st: Identities,
    s: int,
    tracks: Seq<Track>,
    k: int,
    g: i64,
    group: spec_fn(int, i64) -> int,
)
    requires
        st.wf(),
        0 <= s < st.ids.len(),
        0 <= k <= tracks.len(),
        st.has_room(k),
        grouped(st, group),
        marked(st, g, group),
        g < st.next,
        forall|t: int|
            0 <= t < k ==> st.ids[s].contains_key((#[trigger] tracks[t]).id) || group(
                s,
                tracks[t].id,
            ) != 1,
    ensures
        grouped(st.camera_shown(s, tracks, k), group),
        marked(st.camera_shown(s, tracks, k), g, group),
        st.next <= st.camera_shown(s, tracks, k).next,
    decreases k,
{
    if k > 0 {
        assert(st.has_room(k - 1));
        lemma_camera_groups(st, s, tracks, k - 1, g, group);
        lemma_camera_shown(st, s, tracks, k - 1);
        let mid = st.camera_shown(s, tracks, k - 1);
        assert(st.has_room((k - 1) + 1));
        assert(mid.has_room(1));
        let id = tracks[k - 1].id;
        if st.ids[s].contains_key(id) {
            assert(mid.ids[s].contains_key(id));
        }
        lemma_shown_groups(mid, s, id, g, group);
    }
}

proof fn lemma_all_groups(
    st: Identities,
    tracks: Seq<Vec<Track>>,
    k: int,
    g: i64,
    group: spec_fn(int, i64) -> int,
)
    requires
        st.wf(),
        st.ids.len() == tracks.len(),
        0 <= k <= tracks.len(),
        st.has_room(track_total(tracks, k)),
        grouped(st, group),
        marked(st, g, group),
        g < st.next,
        forall|s: int, t: int|
            0 <= s < k && 0 <= t < tracks[s]@.len() ==> st.ids[s].contains_key(
                (#[trigger] tracks[s]@[t]).id,
            ) || group(s, tracks[s]@[t].id) != 1,
    ensures
        grouped(st.all_shown(tracks, k), group),
        marked(st.all_shown(tracks, k), g, group),
        st.next <= st.all_shown(tracks, k).next,
    decreases k,
{
    if k > 0 {
        let len = tracks[k - 1]@.len() as int;
        lemma_track_total(tracks, k - 1, k);
        lemma_track_total(tracks, 0, k - 1);
        assert(st.has_room(track_total(tracks, k - 1)));
        lemma_all_groups(st, tracks, k - 1, g, group);
        lemma_all_shown(st, tracks, k - 1);
        let mid = st.all_shown(tracks, k - 1);
        assert(st.has_room(track_total(tracks, k - 1) + len));
        assert(mid.has_room(len));
        assert forall|t: int| 0 <= t < len implies mid.ids[k - 1].contains_key(
            (#[trigger] tracks[k - 1]@[t]).id,
        ) || group(k - 1, tracks[k - 1]@[t].id) != 1 by {
            if st.ids[k - 1].contains_key(tracks[k - 1]@[t].id) {
                assert(mid.ids[k - 1].contains_key(tracks[k - 1]@[t].id));
            }
        }
        lemma_camera_groups(mid, k - 1, tracks[k - 1]@, len, g, group);
    }
}

proof fn lemma_merged_groups(
    st: Identities,
    i: int,
    a: i64,
    j: int,
    b: i64,
    g: i64,
    group: spec_fn(int, i64) -> int,
)
    requires
        st.wf(),
        0 <= i < st.ids.len(),
        0 <= j < st.ids.len(),
        st.ids[i].contains_key(a),
        st.ids[j].contains_key(b),
        grouped(st, group),
        marked(st, g, group),
        group(i, a) == group(j, b),
    ensures
        grouped(st.merged(i, a, j, b), group),
        marked(st.merged(i, a, j, b), g, group),
{
    let after = st.merged(i, a, j, b);
    let (ga, gb) = (st.ids[i][a], st.ids[j][b]);
    lemma_merged(st, i, a, j, b);
    assert forall|r: int, x: i64|
        0 <= r < after.ids.len() && #[trigger] after.ids[r].contains_key(x) implies {
        &&& st.ids[r].contains_key(x)
        &&& after.ids[r][x] == st.ids[r][x] || (after.ids[r][x] == ga || after.ids[r][x] == gb) && (
        st.ids[r][x] == ga || st.ids[r][x] == gb)
        &&& st.ids[r][x] == ga || st.ids[r][x] == gb ==> group(r, x) == group(i, a)
        &&& st.ids[r][x] == ga || st.ids[r][x] == gb <==> after.ids[r][x] == ga || after.ids[r][x]
            == gb
    } by {
        assert(st.ids[r].contains_key(x));
        assert(st.ids[i].contains_key(a) && st.ids[j].contains_key(b));
    }
    assert forall|r: int, x: i64, s: int, y: i64|
        0 <= r < after.ids.len() && 0 <= s < after.ids.len() && #[trigger] after.ids[r].contains_key(
            x,
        ) && #[trigger] after.ids[s].contains_key(y) && after.ids[r][x]
            == after.ids[s][y] implies group(r, x) == group(s, y) by {
        assert(st.ids[r].contains_key(x) && st.ids[s].contains_key(y));
    }
}

proof fn lemma_pair_groups(
    st: Identities,
    tracks: Seq<Vec<Track>>,
    i: int,
    j: int,
    matches: Seq<(usize, usize)>,
    k: int,
    g: i64,
    group: spec_fn(int, i64) -> int,
)
    requires
        st.wf(),
        st.ids.len() == tracks.len(),
        st.knows(tracks),
        0 <= i < tracks.len(),
        0 <= j < tracks.len(),
        0 <= k <= matches.len(),
        in_range(matches, tracks[i]@.len() as int, tracks[j]@.len() as int),
        grouped(st, group),
        marked(st, g, group),
        joins_groups(group, i, j, tracks[i]@, tracks[j]@, matches),
    ensures
        grouped(st.pair_merged(i, j, tracks[i]@, tracks[j]@, matches, k), group),
        marked(st.pair_merged(i, j, tracks[i]@, tracks[j]@, matches, k), g, group),
    decreases k,
{
    if k > 0 {
        lemma_pair_groups(st, tracks, i, j, matches, k - 1, g, group);
        lemma_pair_merged(st, tracks, i, j, matches, k - 1);
        let mid = st.pair_merged(i, j, tracks[i]@, tracks[j]@, matches, k - 1);
        let pair = matches[k - 1];
        let a = tracks[i]@[pair.0 as int].id;
        let b = tracks[j]@[pair.1 as int].id;
        assert(mid.ids[i].contains_key(tracks[i]@[pair.0 as int].id));
        assert(mid.ids[j].contains_key(tracks[j]@[pair.1 as int].id));
        lemma_merged_groups(mid, i, a, j, b, g, group);
    }
}

proof fn lemma_row_groups(
    st: Identities,
    tracks: Seq<Vec<Track>>,
    matches: Seq<Seq<Seq<(usize, usize)>>>,
    i: int,
    j: int,
    g: i64,
    group: spec_fn(int, i64) -> int,
)
    requires
        st.wf(),
        st.ids.len() == tracks.len(),
        st.knows(tracks),
        all_in_range(tracks, matches),
        0 <= i < j <= tracks.len(),
        grouped(st, group),
        marked(st, g, group),
        all_join_groups(group, tracks, matches),
    ensures
        grouped(st.row_merged(tracks, matches, i, j), group),
        marked(st.row_merged(tracks, matches, i, j), g, group),
    decreases j,
{
    if j > i + 1 {
        lemma_row_groups(st, tracks, matches, i, j - 1, g, group);
        lemma_row_merged(st, tracks, matches, i, j - 1);
        let mid = st.row_merged(tracks, matches, i, j - 1);
        let last = matches[i][j - 1];
        lemma_pair_groups(mid, tracks, i, j - 1, last, last.len() as int, g, group);
    }
}

proof fn lemma_merging_groups(
    st: Identities,
    tracks: Seq<Vec<Track>>,
    matches: Seq<Seq<Seq<(usize, usize)>>>,
    k: int,
    g: i64,
    group: spec_fn(int, i64) -> int,
)
    requires
        st.wf(),
        st.ids.len() == tracks.len(),
        st.knows(tracks),
        all_in_range(tracks, matches),
        0 <= k <= tracks.len(),
        grouped(st, group),
        marked(st, g, group),
        all_join_groups(group, tracks, matches),
    ensures
        grouped(st.all_merged(tracks, matches, k), group),
        marked(st.all_merged(tracks, matches, k), g, group),
    decreases k,
{
    if k > 0 {
        lemma_merging_groups(st, tracks, matches, k - 1, g, group);
        lemma_all_merged(st, tracks, matches, k - 1);
        let mid = st.all_merged(tracks, matches, k - 1);
        lemma_row_groups(mid, tracks, matches, k - 1, tracks.len() as int, g, group);
    }
}

/// A frame keeps local ids of different groups apart, and the local ids of group 1 keep
/// their global id.
proof fn lemma_frame_groups(
    before: Identities,
    tracks: Seq<Vec<Track>>,
    scores: Seq<Vec<Vec<Vec<i64>>>>,
    threshold: int,
    after: Identities,
    g: i64,
    group: spec_fn(int, i64) -> int,
)
    requires
        before.wf(),
        before.ids.len() == tracks.len(),
        before.has_room(track_total(tracks, tracks.len() as int)),
        are_pair_scores(scores, tracks),
        is_frame(before, tracks, scores, threshold, after),
        grouped(before, group),
        marked(before, g, group),
        g < before.next,
        forall|s: int, t: int|
            0 <= s < tracks.len() && 0 <= t < tracks[s]@.len() ==> before.ids[s].contains_key(
                (#[trigger] tracks[s]@[t]).id,
            ) || group(s, tracks[s]@[t].id) != 1,
        forall|i: int, j: int, found: Seq<(usize, usize)>|
            0 <= i < j < tracks.len() && #[trigger] are_matches(
                score_entries(scores[i]@[j]@),
                tracks[j]@.len() as int,
                threshold,
                found,
            ) ==> joins_groups(group, i, j, tracks[i]@, tracks[j]@, found),
    ensures
        grouped(after, group),
        marked(after, g, group),
{
    let n = tracks.len() as int;
    let shown = before.all_shown(tracks, n);
    let matches = choose|matches: Seq<Seq<Seq<(usize, usize)>>>| #[trigger]
        are_pair_matches(scores, tracks, threshold, matches) && after == shown.all_merged(
            tracks,
            matches,
            n,
        );
    lemma_all_shown(before, tracks, n);
    lemma_matches_fit(scores, tracks, threshold, matches);
    assert(shown.knows(tracks));
    lemma_all_groups(before, tracks, n, g, group);
    assert forall|i: int, j: int| 0 <= i < j < tracks.len() implies joins_groups(
        group,
        i,
        j,
        tracks[i]@,
        tracks[j]@,
        #[trigger] matches[i][j],
    ) by {
        assert(are_matches(
            score_entries(scores[i]@[j]@),
            tracks[j]@.len() as int,
            threshold,
            matches[i][j],
        ));
    }
    lemma_merging_groups(shown, tracks, matches, n, g, group);
}

/// Identities are merged by matches and by nothing else. However local ids are put into
/// groups: if those that were one object before the frame are in one group, and those of
/// tracks that the frame matches are too, then those that are one object after the frame
/// are in one group. So two local ids share a global id only if they did before or are
/// connected through matches.
pub proof fn law_only_matches_merge(
    before: Identities,
    tracks: Seq<Vec<Track>>,
    scores: Seq<Vec<Vec<Vec<i64>>>>,
    threshold: int,
    after: Identities,
    group: spec_fn(int, i64) -> int,
)
    requires
        before.wf(),
        before.ids.len() == tracks.len(),
        before.has_room(track_total(tracks, tracks.len() as int)),
        are_pair_scores(scores, tracks),
        is_frame(before, tracks, scores, threshold, after),
        forall|r: int, x: i64, s: int, y: i64|
            0 <= r < before.ids.len() && 0 <= s < before.ids.len()
                && #[trigger] before.ids[r].contains_key(x) && #[trigger] before.ids[s].contains_key(y)
                && before.ids[r][x] == before.ids[s][y] ==> group(r, x) == group(s, y),
        forall|i: int, j: int, found: Seq<(usize, usize)>, x: int|
            0 <= i < j < tracks.len() && #[trigger] are_matches(
                score_entries(scores[i]@[j]@),
                tracks[j]@.len() as int,
                threshold,
                found,
            ) && 0 <= x < found.len() ==> group(i, tracks[i]@[(#[trigger] found[x]).0 as int].id)
                == group(j, tracks[j]@[found[x].1 as int].id),
    ensures
        forall|r: int, x: i64, s: int, y: i64|
            0 <= r < after.ids.len() && 0 <= s < after.ids.len()
                && #[trigger] after.ids[r].contains_key(x) && #[trigger] after.ids[s].contains_key(y)
                && after.ids[r][x] == after.ids[s][y] ==> group(r, x) == group(s, y),
{
    // No local id has the global id 0, so no group needs the mark.
    let shift = |r: int, x: i64|
        if group(r, x) >= 1 {
            group(r, x) + 1
        } else {
            group(r, x)
        };
    assert forall|i: int, j: int, found: Seq<(usize, usize)>|
        0 <= i < j < tracks.len() && #[trigger] are_matches(
            score_entries(scores[i]@[j]@),
            tracks[j]@.len() as int,
            threshold,
            found,
        ) implies joins_groups(shift, i, j, tracks[i]@, tracks[j]@, found) by {
        assert forall|x: int| 0 <= x < found.len() implies shift(
            i,
            tracks[i]@[(#[trigger] found[x]).0 as int].id,
        ) == shift(j, tracks[j]@[found[x].1 as int].id) by {
            assert(group(i, tracks[i]@[found[x].0 as int].id) == group(
                j,
                tracks[j]@[found[x].1 as int].id,
            ));
        }
    }
    lemma_frame_groups(before, tracks, scores, threshold, after, 0, shift);
    assert forall|r: int, x: i64, s: int, y: i64|
        0 <= r < after.ids.len() && 0 <= s < after.ids.len() && #[trigger] after.ids[r].contains_key(
            x,
        ) && #[trigger] after.ids[s].contains_key(y) && after.ids[r][x]
            == after.ids[s][y] implies group(r, x) == group(s, y) by {
        assert(shift(r, x) == shift(s, y));
    }
}

/// What is matched scores at least the threshold.
proof fn lemma_matches_score(
    scores: Seq<Vec<Vec<Vec<i64>>>>,
    tracks: Seq<Vec<Track>>,
    threshold: int,
    i: int,
    j: int,
    found: Seq<(usize, usize)>,
    x: int,
)
    requires
        are_pair_scores(scores, tracks),
        0 <= i < j < tracks.len(),
        are_matches(score_entries(scores[i]@[j]@), tracks[j]@.len() as int, threshold, found),
        0 <= x < found.len(),
    ensures
        found[x].0 < tracks[i]@.len(),
        found[x].1 < tracks[j]@.len(),
        scores[i]@[j]@[found[x].0 as int]@[found[x].1 as int] >= threshold,
{
    let e = score_entries(scores[i]@[j]@);
    let cols = tracks[j]@.len() as int;
    assert(scores[i]@[j]@.len() == tracks[i]@.len());
    assert(tracks[i].len() == tracks[i]@.len());
    assert(tracks[j].len() == tracks[j]@.len());
    lemma_matches_in_range(e, cols, threshold, found);
    let d = choose|d: Seq<usize>| #[trigger] is_matching(e, cols, threshold, found, d);
    let t = choose|t: Seq<usize>| #[trigger] is_association(e, cols, threshold, found, d, t);
    law_association_accounts_for_all(e, cols, threshold, found, d, t);
    assert(e[found[x].0 as int][found[x].1 as int] >= threshold);
    assert(scores[i]@[j]@[found[x].0 as int]@.len() == cols);
}

/// A local id that appears for the first time, and none of whose tracks scores the
/// threshold against a track of another camera, has a global id of its own: no other
/// local id of any camera has it.
pub proof fn law_unmatched_newcomer_is_alone(
    before: Identities,
    tracks: Seq<Vec<Track>>,
    scores: Seq<Vec<Vec<Vec<i64>>>>,
    threshold: int,
    after: Identities,
    s: int,
    id: i64,
    r: int,
    other: i64,
)
    requires
        before.wf(),
        before.ids.len() == tracks.len(),
        before.has_room(track_total(tracks, tracks.len() as int)),
        are_pair_scores(scores, tracks),
        is_frame(before, tracks, scores, threshold, after),
        0 <= s < tracks.len(),
        !before.ids[s].contains_key(id),
        forall|j: int, a: int, b: int|
            s < j < tracks.len() && 0 <= a < tracks[s]@.len() && tracks[s]@[a].id == id && 0 <= b
                < tracks[j]@.len() ==> #[trigger] scores[s]@[j]@[a]@[b] < threshold,
        forall|i: int, a: int, b: int|
            0 <= i < s && 0 <= a < tracks[i]@.len() && 0 <= b < tracks[s]@.len()
                && tracks[s]@[b].id == id ==> #[trigger] scores[i]@[s]@[a]@[b] < threshold,
        0 <= r < tracks.len(),
        after.ids[s].contains_key(id),
        after.ids[r].contains_key(other),
        r != s || other != id,
    ensures
        after.ids[r][other] != after.ids[s][id],
{
    let group = |q: int, x: i64|
        if q == s && x == id {
            1int
        } else {
            0
        };
    law_frame_keeps_identities(before, tracks, scores, threshold, after);
    assert forall|i: int, j: int, found: Seq<(usize, usize)>, x: int|
        0 <= i < j < tracks.len() && #[trigger] are_matches(
            score_entries(scores[i]@[j]@),
            tracks[j]@.len() as int,
            threshold,
            found,
        ) && 0 <= x < found.len() implies group(i, tracks[i]@[(#[trigger] found[x]).0 as int].id)
        == group(j, tracks[j]@[found[x].1 as int].id) by {
        lemma_matches_score(scores, tracks, threshold, i, j, found, x);
        let v = scores[i]@[j]@[found[x].0 as int]@[found[x].1 as int];
    }
    lemma_after_len(before, tracks, scores, threshold, after);
    law_only_matches_merge(before, tracks, scores, threshold, after, group);
    assert(group(s, id) == 1 && group(r, other) == 0);
}

proof fn lemma_after_len(
    before: Identities,
    tracks: Seq<Vec<Track>>,
    scores: Seq<Vec<Vec<Vec<i64>>>>,
    threshold: int,
    after: Identities,
)
    requires
        before.wf(),
        before.ids.len() == tracks.len(),
        before.has_room(track_total(tracks, tracks.len() as int)),
        are_pair_scores(scores, tracks),
        is_frame(before, tracks, scores, threshold, after),
    ensures
        after.ids.len() == before.ids.len(),
{
    let n = tracks.len() as int;
    let shown = before.all_shown(tracks, n);
    let matches = choose|matches: Seq<Seq<Seq<(usize, usize)>>>| #[trigger]
        are_pair_matches(scores, tracks, threshold, matches) && after == shown.all_merged(
            tracks,
            matches,
            n,
        );
    lemma_all_shown(before, tracks, n);
    lemma_matches_fit(scores, tracks, threshold, matches);
    assert(shown.knows(tracks));
    lemma_all_merged(shown, tracks, matches, n);
}

/// An object that is matched with no other keeps its global id, and nobody else takes it.
pub proof fn law_unmatched_identity_keeps_its_id(
    before: Identities,
    tracks: Seq<Vec<Track>>,
    scores: Seq<Vec<Vec<Vec<i64>>>>,
    threshold: int,
    after: Identities,
    g: i64,
    r: int,
    x: i64,
)
    requires
        before.wf(),
        before.ids.len() == tracks.len(),
        before.has_room(track_total(tracks, tracks.len() as int)),
        are_pair_scores(scores, tracks),
        is_frame(before, tracks, scores, threshold, after),
        1 <= g < before.next,
        forall|i: int, j: int, found: Seq<(usize, usize)>, y: int|
            0 <= i < j < tracks.len() && #[trigger] are_matches(
                score_entries(scores[i]@[j]@),
                tracks[j]@.len() as int,
                threshold,
                found,
            ) && 0 <= y < found.len() ==> {
                let (a, b) = (
                    tracks[i]@[(#[trigger] found[y]).0 as int].id,
                    tracks[j]@[found[y].1 as int].id,
                );
                (before.ids[i].contains_key(a) && before.ids[i][a] == g) == (
                before.ids[j].contains_key(b) && before.ids[j][b] == g)
            },
        0 <= r < tracks.len(),
        after.ids[r].contains_key(x),
    ensures
        after.ids[r][x] == g <==> before.ids[r].contains_key(x) && before.ids[r][x] == g,
{
    let mark = |q: int, y: i64|
        if before.ids[q].contains_key(y) && before.ids[q][y] == g {
            1int
        } else {
            0
        };
    lemma_after_len(before, tracks, scores, threshold, after);
    assert forall|i: int, j: int, found: Seq<(usize, usize)>|
        0 <= i < j < tracks.len() && #[trigger] are_matches(
            score_entries(scores[i]@[j]@),
            tracks[j]@.len() as int,
            threshold,
            found,
        ) implies joins_groups(mark, i, j, tracks[i]@, tracks[j]@, found) by {
        assert forall|y: int| 0 <= y < found.len() implies mark(
            i,
            tracks[i]@[(#[trigger] found[y]).0 as int].id,
        ) == mark(j, tracks[j]@[found[y].1 as int].id) by {
            let f = found[y];
        }
    }
    lemma_frame_groups(before, tracks, scores, threshold, after, g, mark);
    assert(after.ids[r][x] == g <==> mark(r, x) == 1);
}

/// How often a camera has shown a local id.
spec fn showings(st: Identities, s: int, id: i64) -> int {
    if st.ages[s].contains_key(id) {
        st.ages[s][id] as int
    } else {
        0
    }
}

proof fn lemma_camera_showings(st: Identities, s: int, tracks: Seq<Track>, k: int, r: int, id: i64)
    requires
        st.wf(),
        0 <= s < st.ids.len(),
        0 <= r < st.ids.len(),
        0 <= k <= tracks.len(),
        st.has_room(k),
    ensures
        showings(st.camera_shown(s, tracks, k), r, id) == showings(st, r, id) + (if r == s {
            tracks.take(k).filter(|t: Track| t.id == id).len() as int
        } else {
            0
        }),
    decreases k,
{
    let has = |t: Track| t.id == id;
    reveal(Seq::filter);
    if k > 0 {
        assert(st.has_room(k - 1));
        lemma_camera_showings(st, s, tracks, k - 1, r, id);
        lemma_camera_shown(st, s, tracks, k - 1);
        let mid = st.camera_shown(s, tracks, k - 1);
        assert(st.has_room((k - 1) + 1));
        assert(mid.has_room(1));
        assert(tracks.take(k).drop_last() =~= tracks.take(k - 1));
        if mid.ages[s].contains_key(tracks[k - 1].id) {
            assert(mid.ages[s][tracks[k - 1].id] + 1 <= i64::MAX);
        }
    }
}

proof fn lemma_all_showings(st: Identities, tracks: Seq<Vec<Track>>, k: int, r: int, id: i64)
    requires
        st.wf(),
        st.ids.len() == tracks.len(),
        0 <= k <= tracks.len(),
        0 <= r < tracks.len(),
        st.has_room(track_total(tracks, k)),
    ensures
        showings(st.all_shown(tracks, k), r, id) == showings(st, r, id) + (if r < k {
            tracks[r]@.filter(|t: Track| t.id == id).len() as int
        } else {
            0
        }),
    decreases k,
{
    if k > 0 {
        let len = tracks[k - 1]@.len() as int;
        lemma_track_total(tracks, k - 1, k);
        lemma_track_total(tracks, 0, k - 1);
        assert(st.has_room(track_total(tracks, k - 1)));
        lemma_all_showings(st, tracks, k - 1, r, id);
        lemma_all_shown(st, tracks, k - 1);
        let mid = st.all_shown(tracks, k - 1);
        assert(st.has_room(track_total(tracks, k - 1) + len));
        assert(mid.has_room(len));
        lemma_camera_showings(mid, k - 1, tracks[k - 1]@, len, r, id);
        assert(tracks[k - 1]@.take(len) =~= tracks[k - 1]@);
    }
}

/// The age of a local id counts its tracks: a frame adds as many as show it, and merging
/// changes none.
pub proof fn law_age_counts_tracks(
    before: Identities,
    tracks: Seq<Vec<Track>>,
    scores: Seq<Vec<Vec<Vec<i64>>>>,
    threshold: int,
    after: Identities,
    s: int,
    id: i64,
)
    requires
        before.wf(),
        before.ids.len() == tracks.len(),
        before.has_room(track_total(tracks, tracks.len() as int)),
        are_pair_scores(scores, tracks),
        is_frame(before, tracks, scores, threshold, after),
        0 <= s < tracks.len(),
        after.ids[s].contains_key(id),
    ensures
        after.ages[s].contains_key(id),
        after.ages[s][id] == tracks[s]@.filter(|t: Track| t.id == id).len() + (
        if before.ids[s].contains_key(id) {
            before.ages[s][id] as int
        } else {
            0
        }),
{
    let n = tracks.len() as int;
    let shown = before.all_shown(tracks, n);
    let matches = choose|matches: Seq<Seq<Seq<(usize, usize)>>>| #[trigger]
        are_pair_matches(scores, tracks, threshold, matches) && after == shown.all_merged(
            tracks,
            matches,
            n,
        );
    lemma_after_len(before, tracks, scores, threshold, after);
    law_frame_keeps_identities(before, tracks, scores, threshold, after);
    lemma_all_showings(before, tracks, n, s, id);
    lemma_merging_keeps_rest(shown, tracks, matches, n);
    assert(after.ids[s].contains_key(id) <==> after.ages[s].contains_key(id));
    assert(before.ids[s].contains_key(id) <==> before.ages[s].contains_key(id));
}

/// Every local id of `after` that is not one of `before` has a global id from the next one
/// of `before` on.
spec fn adds_above(before: Identities, after: Identities) -> bool {
    &&& before.next <= after.next
    &&& forall|r: int, x: i64|
        0 <= r < after.ids.len() && #[trigger] after.ids[r].contains_key(x)
            && !before.ids[r].contains_key(x) ==> after.ids[r][x] >= before.next
    &&& forall|r: int, x: i64|
        0 <= r < before.ids.len() && #[trigger] before.ids[r].contains_key(x)
            ==> after.ids[r].contains_key(x) && after.ids[r][x] == before.ids[r][x]
    &&& after.ids.len() == before.ids.len()
}

proof fn lemma_adds_above_transitive(a: Identities, b: Identities, c: Identities)
    requires
        adds_above(a, b),
        adds_above(b, c),
    ensures
        adds_above(a, c),
{
    assert forall|r: int, x: i64|
        0 <= r < c.ids.len() && #[trigger] c.ids[r].contains_key(x) && !a.ids[r].contains_key(
            x,
        ) implies c.ids[r][x] >= a.next by {
        if b.ids[r].contains_key(x) {
            assert(c.ids[r][x] == b.ids[r][x]);
        }
    }
    assert forall|r: int, x: i64|
        0 <= r < a.ids.len() && #[trigger] a.ids[r].contains_key(x) implies c.ids[r].contains_key(x)
        && c.ids[r][x] == a.ids[r][x] by {
        assert(b.ids[r].contains_key(x));
    }
}

/// Showing more tracks of a camera adds ids above those before.
proof fn lemma_camera_adds(st: Identities, s: int, tracks: Seq<Track>, t: int, k: int)
    requires
        st.wf(),
        0 <= s < st.ids.len(),
        0 <= t <= k <= tracks.len(),
        st.has_room(k),
    ensures
        adds_above(st.camera_shown(s, tracks, t), st.camera_shown(s, tracks, k)),
    decreases k,
{
    if t < k {
        assert(st.has_room(k - 1));
        lemma_camera_adds(st, s, tracks, t, k - 1);
        lemma_camera_shown(st, s, tracks, k - 1);
        let mid = st.camera_shown(s, tracks, k - 1);
        let after = st.camera_shown(s, tracks, k);
        assert(st.has_room((k - 1) + 1));
        assert(mid.has_room(1));
        let id = tracks[k - 1].id;
        lemma_shown(mid, s, id);
        assert(adds_above(mid, after)) by {
            assert forall|r: int, x: i64|
                0 <= r < after.ids.len() && #[trigger] after.ids[r].contains_key(x)
                    && !mid.ids[r].contains_key(x) implies after.ids[r][x] >= mid.next by {
                assert(r == s && x == id);
            }
        }
        lemma_adds_above_transitive(st.camera_shown(s, tracks, t), mid, after);
    }
}

/// Showing the tracks of more cameras adds ids above those before.
proof fn lemma_all_adds(st: Identities, tracks: Seq<Vec<Track>>, k: int, n: int)
    requires
        st.wf(),
        st.ids.len() == tracks.len(),
        0 <= k <= n <= tracks.len(),
        st.has_room(track_total(tracks, n)),
    ensures
        adds_above(st.all_shown(tracks, k), st.all_shown(tracks, n)),
    decreases n,
{
    if k < n {
        let len = tracks[n - 1]@.len() as int;
        lemma_track_total(tracks, n - 1, n);
        lemma_track_total(tracks, 0, n - 1);
        assert(st.has_room(track_total(tracks, n - 1)));
        lemma_all_adds(st, tracks, k, n - 1);
        lemma_all_shown(st, tracks, n - 1);
        let mid = st.all_shown(tracks, n - 1);
        assert(st.has_room(track_total(tracks, n - 1) + len));
        assert(mid.has_room(len));
        lemma_camera_adds(mid, n - 1, tracks[n - 1]@, 0, len);
        lemma_adds_above_transitive(st.all_shown(tracks, k), mid, st.all_shown(tracks, n));
    }
}

/// After a camera has shown its first `t` tracks of the frame, and the cameras before it
/// all of theirs.
spec fn partly_shown(st: Identities, tracks: Seq<Vec<Track>>, s: int, t: int) -> Identities {
    st.all_shown(tracks, s).camera_shown(s, tracks[s]@, t)
}

proof fn lemma_part_adds(st: Identities, tracks: Seq<Vec<Track>>, s: int, t: int)
    requires
        st.wf(),
        st.ids.len() == tracks.len(),
        0 <= s < tracks.len(),
        0 <= t <= tracks[s]@.len(),
        st.has_room(track_total(tracks, tracks.len() as int)),
    ensures
        partly_shown(st, tracks, s, t).wf(),
        adds_above(
            partly_shown(st, tracks, s, t),
            st.all_shown(tracks, tracks.len() as int),
        ),
        forall|a: int|
            0 <= a < t ==> partly_shown(st, tracks, s, t).ids[s].contains_key(
                (#[trigger] tracks[s]@[a]).id,
            ),
        forall|r: int, x: i64|
            0 <= r < tracks.len() && (#[trigger] partly_shown(st, tracks, s, t).ids[r].contains_key(
                x,
            )) && !st.ids[r].contains_key(x) ==> (r < s || r == s) && exists|a: int|
                0 <= a < tracks[r]@.len() && (r == s ==> a < t) && (
                #[trigger] tracks[r]@[a]).id == x,
{
    let n = tracks.len() as int;
    let len = tracks[s]@.len() as int;
    lemma_track_total(tracks, s + 1, n);
    lemma_track_total(tracks, s, s + 1);
    lemma_track_total(tracks, 0, s);
    assert(st.has_room(track_total(tracks, s)));
    assert(st.has_room(track_total(tracks, s) + len));
    lemma_all_shown(st, tracks, s);
    let mid = st.all_shown(tracks, s);
    assert(mid.has_room(len));
    assert(mid.has_room(t));
    lemma_camera_shown(mid, s, tracks[s]@, t);
    lemma_camera_adds(mid, s, tracks[s]@, t, len);
    lemma_all_adds(st, tracks, s + 1, n);
    lemma_adds_above_transitive(
        partly_shown(st, tracks, s, t),
        st.all_shown(tracks, s + 1),
        st.all_shown(tracks, n),
    );
    assert forall|r: int, x: i64|
        0 <= r < tracks.len() && (#[trigger] partly_shown(st, tracks, s, t).ids[r].contains_key(x))
            && !st.ids[r].contains_key(x) implies (r < s || r == s) && exists|a: int|
        0 <= a < tracks[r]@.len() && (r == s ==> a < t) && (#[trigger] tracks[r]@[a]).id == x by {
        lemma_camera_origin(mid, s, tracks[s]@, t, r, x);
        if !(exists|a: int| 0 <= a < t && r == s && (#[trigger] tracks[s]@[a]).id == x) {
            lemma_all_origin(st, tracks, s, r, x);
        }
    }
}

/// Where a local id of a camera comes from.
proof fn lemma_camera_origin(st: Identities, s: int, tracks: Seq<Track>, k: int, r: int, x: i64)
    requires
        0 <= s < st.ids.len(),
        0 <= r < st.ids.len(),
        0 <= k <= tracks.len(),
        st.camera_shown(s, tracks, k).ids[r].contains_key(x),
    ensures
        st.camera_shown(s, tracks, k).ids.len() == st.ids.len(),
        st.ids[r].contains_key(x) || (exists|a: int|
            0 <= a < k && r == s && (#[trigger] tracks[a]).id == x),
    decreases k,
{
    lemma_camera_len(st, s, tracks, k);
    if k > 0 {
        lemma_camera_len(st, s, tracks, k - 1);
        let mid = st.camera_shown(s, tracks, k - 1);
        if mid.ids[r].contains_key(x) {
            lemma_camera_origin(st, s, tracks, k - 1, r, x);
        } else {
            assert(tracks[k - 1].id == x);
        }
    }
}

proof fn lemma_camera_len(st: Identities, s: int, tracks: Seq<Track>, k: int)
    requires
        0 <= s < st.ids.len(),
    ensures
        st.camera_shown(s, tracks, k).ids.len() == st.ids.len(),
    decreases k,
{
    if k > 0 {
        lemma_camera_len(st, s, tracks, k - 1);
    }
}

proof fn lemma_all_origin(st: Identities, tracks: Seq<Vec<Track>>, k: int, r: int, x: i64)
    requires
        st.ids.len() == tracks.len(),
        0 <= k <= tracks.len(),
        0 <= r < tracks.len(),
        st.all_shown(tracks, k).ids[r].contains_key(x),
    ensures
        st.all_shown(tracks, k).ids.len() == st.ids.len(),
        st.ids[r].contains_key(x) || r < k && (exists|a: int|
            0 <= a < tracks[r]@.len() && (#[trigger] tracks[r]@[a]).id == x),
    decreases k,
{
    if k > 0 {
        let mid = st.all_shown(tracks, k - 1);
        lemma_all_len(st, tracks, k - 1);
        let len = tracks[k - 1]@.len() as int;
        lemma_camera_origin(mid, k - 1, tracks[k - 1]@, len, r, x);
        if mid.ids[r].contains_key(x) {
            lemma_all_origin(st, tracks, k - 1, r, x);
        }
    }
}

proof fn lemma_all_len(st: Identities, tracks: Seq<Vec<Track>>, k: int)
    requires
        k <= st.ids.len(),
    ensures
        st.all_shown(tracks, k).ids.len() == st.ids.len(),
    decreases k,
{
    if k > 0 {
        lemma_all_len(st, tracks, k - 1);
        lemma_camera_len(
            st.all_shown(tracks, k - 1),
            k - 1,
            tracks[k - 1]@,
            tracks[k - 1]@.len() as int,
        );
    }
}

/// Without any match a frame merges nothing.
proof fn lemma_no_merging(
    st: Identities,
    tracks: Seq<Vec<Track>>,
    matches: Seq<Seq<Seq<(usize, usize)>>>,
    k: int,
)
    requires
        0 <= k <= tracks.len(),
        forall|i: int, j: int|
            0 <= i < j < tracks.len() ==> (#[trigger] matches[i][j]).len() == 0,
    ensures
        st.all_merged(tracks, matches, k) == st,
    decreases k,
{
    if k > 0 {
        lemma_no_merging(st, tracks, matches, k - 1);
        lemma_no_row_merging(st, tracks, matches, k - 1, tracks.len() as int);
    }
}

proof fn lemma_no_row_merging(
    st: Identities,
    tracks: Seq<Vec<Track>>,
    matches: Seq<Seq<Seq<(usize, usize)>>>,
    i: int,
    j: int,
)
    requires
        0 <= i < j <= tracks.len(),
        forall|b: int| i < b < j ==> (#[trigger] matches[i][b]).len() == 0,
    ensures
        st.row_merged(tracks, matches, i, j) == st,
    decreases j,
{
    if j > i + 1 {
        lemma_no_row_merging(st, tracks, matches, i, j - 1);
        assert(matches[i][j - 1].len() == 0);
    }
}

/// Where no tracks of two cameras score the threshold, every local id keeps its global id.
/// Those that appear for the first time take ids from the next one on, in the order in
/// which they appear: camera after camera, track after track.
pub proof fn law_newcomers_are_numbered_in_order(
    before: Identities,
    tracks: Seq<Vec<Track>>,
    scores: Seq<Vec<Vec<Vec<i64>>>>,
    threshold: int,
    after: Identities,
    s: int,
    t: int,
    r: int,
    x: i64,
)
    requires
        before.wf(),
        before.ids.len() == tracks.len(),
        before.has_room(track_total(tracks, tracks.len() as int)),
        are_pair_scores(scores, tracks),
        is_frame(before, tracks, scores, threshold, after),
        forall|i: int, j: int, a: int, b: int|
            0 <= i < j < tracks.len() && 0 <= a < tracks[i]@.len() && 0 <= b < tracks[j]@.len()
                ==> #[trigger] scores[i]@[j]@[a]@[b] < threshold,
        0 <= s < tracks.len(),
        0 <= t < tracks[s]@.len(),
        0 <= r < tracks.len(),
        after.ids[r].contains_key(x),
    ensures
        before.ids[r].contains_key(x) ==> after.ids[r][x] == before.ids[r][x],
        !before.ids[r].contains_key(x) ==> after.ids[r][x] >= before.next,
        !before.ids[r].contains_key(x) && (r > s || r == s && (forall|a: int|
            0 <= a <= t ==> (#[trigger] tracks[s]@[a]).id != x)) ==> after.ids[s][tracks[s]@[t].id]
            < after.ids[r][x],
{
    let n = tracks.len() as int;
    let shown = before.all_shown(tracks, n);
    let matches = choose|matches: Seq<Seq<Seq<(usize, usize)>>>| #[trigger]
        are_pair_matches(scores, tracks, threshold, matches) && after == shown.all_merged(
            tracks,
            matches,
            n,
        );
    assert forall|i: int, j: int| 0 <= i < j < tracks.len() implies (
    #[trigger] matches[i][j]).len() == 0 by {
        if matches[i][j].len() > 0 {
            lemma_matches_score(scores, tracks, threshold, i, j, matches[i][j], 0);
            let f = matches[i][j][0];
            assert(scores[i]@[j]@[f.0 as int]@[f.1 as int] < threshold);
        }
    }
    lemma_no_merging(shown, tracks, matches, n);
    lemma_track_total(tracks, 0, n);
    lemma_all_adds(before, tracks, 0, n);
    assert(before.all_shown(tracks, 0) == before);
    lemma_part_adds(before, tracks, s, t + 1);
    let part = partly_shown(before, tracks, s, t + 1);
    let id = tracks[s]@[t].id;
    assert(part.ids[s].contains_key(id));
    if !before.ids[r].contains_key(x) && (r > s || r == s && (forall|a: int|
        0 <= a <= t ==> (#[trigger] tracks[s]@[a]).id != x)) {
        if part.ids[r].contains_key(x) {
            let a = choose|a: int|
                0 <= a < tracks[r]@.len() && (r == s ==> a < t + 1) && (
                #[trigger] tracks[r]@[a]).id == x;
            assert(false);
        }
    }
}

/// Tracks that a frame matches have one global id after it.
pub proof fn law_matched_tracks_are_one_object(
    before: Identities,
    tracks: Seq<Vec<Track>>,
    scores: Seq<Vec<Vec<Vec<i64>>>>,
    threshold: int,
    after: Identities,
    i: int,
    j: int,
    found: Seq<(usize, usize)>,
    x: int,
)
    requires
        before.wf(),
        before.ids.len() == tracks.len(),
        before.has_room(track_total(tracks, tracks.len() as int)),
        are_pair_scores(scores, tracks),
        is_frame(before, tracks, scores, threshold, after),
        0 <= i < j < tracks.len(),
        are_matches(score_entries(scores[i]@[j]@), tracks[j]@.len() as int, threshold, found),
        0 <= x < found.len(),
    ensures
        after.ids[i].contains_key(tracks[i]@[found[x].0 as int].id),
        after.ids[j].contains_key(tracks[j]@[found[x].1 as int].id),
        after.ids[i][tracks[i]@[found[x].0 as int].id]
            == after.ids[j][tracks[j]@[found[x].1 as int].id],
{
    lemma_matches_score(scores, tracks, threshold, i, j, found, x);
    law_frame_keeps_identities(before, tracks, scores, threshold, after);
    law_associated_tracks_share_identity(
        before,
        tracks,
        scores,
        threshold,
        after,
        i,
        j,
        found,
    );
    let f = found[x];
    assert(after.ids[i].contains_key(tracks[i]@[f.0 as int].id));
    assert(after.ids[j].contains_key(tracks[j]@[f.1 as int].id));
}

/// The contents of maps are those of each, in their order.
pub proof fn law_contents_are_those_of_the_maps(maps: Seq<HashMap<i64, i64>>, s: int)
    requires
        0 <= s < maps.len(),
    ensures
        contents(maps).len() == maps.len(),
        contents(maps)[s] == maps[s]@,
{
}

/// A local id has one of two global ids.
spec fn has_either(st: Identities, r: int, z: i64, g: i64, h: i64) -> bool {
    st.ids[r][z] == g || st.ids[r][z] == h
}

/// The two objects with the global ids `g` and `h` are as they were in `shown`.
spec fn waits(shown: Identities, st: Identities, g: i64, h: i64) -> bool {
    &&& st.ages == shown.ages
    &&& forall|r: int, z: i64|
        0 <= r < shown.ids.len() && #[trigger] shown.ids[r].contains_key(z) ==> (st.ids[r][z] == g
            <==> shown.ids[r][z] == g) && (st.ids[r][z] == h <==> shown.ids[r][z] == h)
}

/// The two objects with the global ids `g` and `h` are one, with the global id `keep`.
spec fn is_joined(shown: Identities, st: Identities, g: i64, h: i64, keep: i64) -> bool {
    forall|r: int, z: i64|
        0 <= r < shown.ids.len() && #[trigger] shown.ids[r].contains_key(z) ==> (has_either(
            shown,
            r,
            z,
            g,
            h,
        ) <==> st.ids[r][z] == keep) && (has_either(shown, r, z, g, h) <==> has_either(
            st,
            r,
            z,
            g,
            h,
        ))
}

/// A match of other objects changes nothing for the two.
proof fn lemma_other_match(
    shown: Identities,
    st: Identities,
    c: int,
    a: i64,
    d: int,
    b: i64,
    g: i64,
    h: i64,
    keep: i64,
)
    requires
        st.wf(),
        st.same_domain(shown),
        0 <= c < st.ids.len(),
        0 <= d < st.ids.len(),
        st.ids[c].contains_key(a),
        st.ids[d].contains_key(b),
        !has_either(shown, c, a, g, h),
        !has_either(shown, d, b, g, h),
        keep == g || keep == h,
    ensures
        waits(shown, st, g, h) ==> waits(shown, st.merged(c, a, d, b), g, h),
        is_joined(shown, st, g, h, keep) ==> is_joined(
            shown,
            st.merged(c, a, d, b),
            g,
            h,
            keep,
        ),
{
    let after = st.merged(c, a, d, b);
    lemma_merged(st, c, a, d, b);
    assert(shown.ids[c].contains_key(a) && shown.ids[d].contains_key(b));
    assert forall|r: int, z: i64|
        0 <= r < shown.ids.len() && #[trigger] shown.ids[r].contains_key(z) implies {
        &&& st.ids[r].contains_key(z)
        &&& after.ids[r][z] == st.ids[r][z] || (st.ids[r][z] == st.ids[c][a] || st.ids[r][z]
            == st.ids[d][b]) && (after.ids[r][z] == st.ids[c][a] || after.ids[r][z]
            == st.ids[d][b])
    } by {
        assert(st.ids[r].contains_key(z) <==> shown.ids[r].contains_key(z));
    }
}

/// The match of the two makes them one.
proof fn lemma_own_match(
    shown: Identities,
    st: Identities,
    i: int,
    x: i64,
    j: int,
    y: i64,
    keep: i64,
)
    requires
        st.wf(),
        st.same_domain(shown),
        0 <= i < st.ids.len(),
        0 <= j < st.ids.len(),
        st.ids[i].contains_key(x),
        st.ids[j].contains_key(y),
        waits(shown, st, shown.ids[i][x], shown.ids[j][y]),
        keep == if shown.ages[i][x] >= shown.ages[j][y] {
            shown.ids[i][x]
        } else {
            shown.ids[j][y]
        },
    ensures
        is_joined(
            shown,
            st.merged(i, x, j, y),
            shown.ids[i][x],
            shown.ids[j][y],
            keep,
        ),
{
    let after = st.merged(i, x, j, y);
    lemma_merged(st, i, x, j, y);
    assert(shown.ids[i].contains_key(x) && shown.ids[j].contains_key(y));
    assert(st.ids[i][x] == shown.ids[i][x] && st.ids[j][y] == shown.ids[j][y]);
    assert forall|r: int, z: i64|
        0 <= r < shown.ids.len() && #[trigger] shown.ids[r].contains_key(
            z,
        ) implies st.ids[r].contains_key(z) by {
        assert(st.ids[r].contains_key(z) <==> shown.ids[r].contains_key(z));
    }
}

/// Match number `o` of cameras `c` and `d` is of other objects than the two.
spec fn is_of_others(
    shown: Identities,
    tracks: Seq<Vec<Track>>,
    matches: Seq<Seq<Seq<(usize, usize)>>>,
    c: int,
    d: int,
    o: int,
    g: i64,
    h: i64,
) -> bool {
    &&& !has_either(shown, c, tracks[c]@[matches[c][d][o].0 as int].id, g, h)
    &&& !has_either(shown, d, tracks[d]@[matches[c][d][o].1 as int].id, g, h)
}

/// What the two objects are while the matches of a frame are gone through: as they were until
/// `done`, and one from then on.
spec fn follows(shown: Identities, st: Identities, g: i64, h: i64, keep: i64, done: bool) -> bool {
    if done {
        is_joined(shown, st, g, h, keep)
    } else {
        waits(shown, st, g, h)
    }
}

/// The facts about the match in question that do not change while a frame is fused.
spec fn is_lone_match(
    shown: Identities,
    tracks: Seq<Vec<Track>>,
    matches: Seq<Seq<Seq<(usize, usize)>>>,
    i: int,
    j: int,
    e: int,
    g: i64,
    h: i64,
    keep: i64,
) -> bool {
    let x = tracks[i]@[matches[i][j][e].0 as int].id;
    let y = tracks[j]@[matches[i][j][e].1 as int].id;
    &&& shown.wf()
    &&& shown.ids.len() == tracks.len()
    &&& shown.knows(tracks)
    &&& all_in_range(tracks, matches)
    &&& 0 <= i < j < tracks.len()
    &&& 0 <= e < matches[i][j].len()
    &&& g == shown.ids[i][x]
    &&& h == shown.ids[j][y]
    &&& keep == if shown.ages[i][x] >= shown.ages[j][y] {
        g
    } else {
        h
    }
    &&& forall|c: int, d: int, o: int|
        0 <= c < d < tracks.len() && 0 <= o < matches[c][d].len() && (c != i || d != j || o != e)
            ==> #[trigger] is_of_others(shown, tracks, matches, c, d, o, g, h)
}

proof fn lemma_pair_follows(
    shown: Identities,
    st: Identities,
    tracks: Seq<Vec<Track>>,
    matches: Seq<Seq<Seq<(usize, usize)>>>,
    i: int,
    j: int,
    e: int,
    g: i64,
    h: i64,
    keep: i64,
    c: int,
    d: int,
    k: int,
    done: bool,
)
    requires
        is_lone_match(shown, tracks, matches, i, j, e, g, h, keep),
        0 <= c < d < tracks.len(),
        0 <= k <= matches[c][d].len(),
        st.wf(),
        st.same_domain(shown),
        st.knows(tracks),
        follows(shown, st, g, h, keep, done),
        c == i && d == j ==> !done,
    ensures
        follows(
            shown,
            st.pair_merged(c, d, tracks[c]@, tracks[d]@, matches[c][d], k),
            g,
            h,
            keep,
            done || c == i && d == j && e < k,
        ),
    decreases k,
{
    if k > 0 {
        lemma_pair_follows(shown, st, tracks, matches, i, j, e, g, h, keep, c, d, k - 1, done);
        let m = matches[c][d];
        assert(in_range(m, tracks[c]@.len() as int, tracks[d]@.len() as int));
        lemma_pair_merged(st, tracks, c, d, m, k - 1);
        let mid = st.pair_merged(c, d, tracks[c]@, tracks[d]@, m, k - 1);
        let a = tracks[c]@[m[k - 1].0 as int].id;
        let b = tracks[d]@[m[k - 1].1 as int].id;
        assert(mid.ids[c].contains_key(tracks[c]@[m[k - 1].0 as int].id));
        assert(mid.ids[d].contains_key(tracks[d]@[m[k - 1].1 as int].id));
        lemma_domain_transitive(mid, st, shown);
        if c == i && d == j && k - 1 == e {
            lemma_own_match(shown, mid, i, a, j, b, keep);
        } else {
            assert(is_of_others(shown, tracks, matches, c, d, k - 1, g, h));
            lemma_other_match(shown, mid, c, a, d, b, g, h, keep);
        }
    }
}

proof fn lemma_domain_transitive(a: Identities, b: Identities, c: Identities)
    requires
        a.same_domain(b),
        b.same_domain(c),
    ensures
        a.same_domain(c),
{
    assert forall|s: int, id: i64| 0 <= s < a.ids.len() implies (#[trigger] a.ids[s].contains_key(
        id,
    ) <==> c.ids[s].contains_key(id)) by {
        assert(b.ids[s].contains_key(id) <==> c.ids[s].contains_key(id));
    }
}

proof fn lemma_row_follows(
    shown: Identities,
    st: Identities,
    tracks: Seq<Vec<Track>>,
    matches: Seq<Seq<Seq<(usize, usize)>>>,
    i: int,
    j: int,
    e: int,
    g: i64,
    h: i64,
    keep: i64,
    c: int,
    d: int,
    done: bool,
)
    requires
        is_lone_match(shown, tracks, matches, i, j, e, g, h, keep),
        0 <= c < d <= tracks.len(),
        st.wf(),
        st.same_domain(shown),
        st.knows(tracks),
        follows(shown, st, g, h, keep, done),
        c == i ==> !done,
    ensures
        follows(
            shown,
            st.row_merged(tracks, matches, c, d),
            g,
            h,
            keep,
            done || c == i && j < d,
        ),
    decreases d,
{
    if d > c + 1 {
        lemma_row_follows(shown, st, tracks, matches, i, j, e, g, h, keep, c, d - 1, done);
        lemma_row_merged(st, tracks, matches, c, d - 1);
        let mid = st.row_merged(tracks, matches, c, d - 1);
        lemma_domain_transitive(mid, st, shown);
        lemma_pair_follows(
            shown,
            mid,
            tracks,
            matches,
            i,
            j,
            e,
            g,
            h,
            keep,
            c,
            d - 1,
            matches[c][d - 1].len() as int,
            done || c == i && j < d - 1,
        );
    }
}

proof fn lemma_frame_follows(
    shown: Identities,
    tracks: Seq<Vec<Track>>,
    matches: Seq<Seq<Seq<(usize, usize)>>>,
    i: int,
    j: int,
    e: int,
    g: i64,
    h: i64,
    keep: i64,
    k: int,
)
    requires
        is_lone_match(shown, tracks, matches, i, j, e, g, h, keep),
        0 <= k <= tracks.len(),
    ensures
        follows(shown, shown.all_merged(tracks, matches, k), g, h, keep, i < k),
    decreases k,
{
    if k > 0 {
        lemma_frame_follows(shown, tracks, matches, i, j, e, g, h, keep, k - 1);
        lemma_all_merged(shown, tracks, matches, k - 1);
        let mid = shown.all_merged(tracks, matches, k - 1);
        lemma_row_follows(
            shown,
            mid,
            tracks,
            matches,
            i,
            j,
            e,
            g,
            h,
            keep,
            k - 1,
            tracks.len() as int,
            i < k - 1,
        );
    }
}

/// A local id is the given one, or was one object with it before the frame.
pub open spec fn was_one_with(before: Identities, r: int, z: i64, i: int, x: i64) -> bool {
    ||| r == i && z == x
    ||| before.ids[r].contains_key(z) && before.ids[i].contains_key(x) && before.ids[r][z]
        == before.ids[i][x]
}

/// Local ids that a frame shows have the same global id before any merging only if they are one
/// or were one object before the frame.
proof fn lemma_shown_apart(
    before: Identities,
    tracks: Seq<Vec<Track>>,
    i: int,
    x: i64,
    r: int,
    z: i64,
)
    requires
        before.wf(),
        before.ids.len() == tracks.len(),
        before.has_room(track_total(tracks, tracks.len() as int)),
        0 <= i < tracks.len(),
        0 <= r < tracks.len(),
        before.all_shown(tracks, tracks.len() as int).ids[i].contains_key(x),
        before.all_shown(tracks, tracks.len() as int).ids[r].contains_key(z),
    ensures
        before.all_shown(tracks, tracks.len() as int).ids[r][z] == before.all_shown(
            tracks,
            tracks.len() as int,
        ).ids[i][x] <==> was_one_with(before, r, z, i, x),
{
    let n = tracks.len() as int;
    let shown = before.all_shown(tracks, n);
    let group = |q: int, y: i64|
        if was_one_with(before, q, y, i, x) {
            2int
        } else {
            0
        };
    lemma_all_shown(before, tracks, n);
    lemma_all_len(before, tracks, n);
    lemma_all_groups(before, tracks, n, 0, group);
    if shown.ids[r][z] == shown.ids[i][x] {
        assert(group(r, z) == group(i, x));
    }
    if was_one_with(before, r, z, i, x) && !(r == i && z == x) {
        assert(shown.ids[r][z] == before.ids[r][z]);
        assert(shown.ids[i][x] == before.ids[i][x]);
    }
}

/// Each match of a frame goes by the ages of its own two tracks, whatever else the frame
/// matches: if no other match has to do with their objects, both have the global id that the
/// local id shown more often had before, and at equal age that of the camera that comes first.
/// Whoever was one object with either of them has it too, and nobody else.
pub proof fn law_every_match_takes_the_older_id(
    before: Identities,
    tracks: Seq<Vec<Track>>,
    scores: Seq<Vec<Vec<Vec<i64>>>>,
    threshold: int,
    after: Identities,
    i: int,
    j: int,
    found: Seq<(usize, usize)>,
    e: int,
    r: int,
    z: i64,
)
    requires
        before.wf(),
        before.ids.len() == tracks.len(),
        before.has_room(track_total(tracks, tracks.len() as int)),
        are_pair_scores(scores, tracks),
        is_frame(before, tracks, scores, threshold, after),
        0 <= i < j < tracks.len(),
        are_matches(score_entries(scores[i]@[j]@), tracks[j]@.len() as int, threshold, found),
        0 <= e < found.len(),
        forall|c: int, d: int, others: Seq<(usize, usize)>, o: int|
            0 <= c < d < tracks.len() && #[trigger] are_matches(
                score_entries(scores[c]@[d]@),
                tracks[d]@.len() as int,
                threshold,
                others,
            ) && 0 <= o < others.len() && (c != i || d != j || o != e) ==> {
                let (x, y) = (tracks[i]@[found[e].0 as int].id, tracks[j]@[found[e].1 as int].id);
                let a = tracks[c]@[(#[trigger] others[o]).0 as int].id;
                let b = tracks[d]@[others[o].1 as int].id;
                &&& !was_one_with(before, c, a, i, x)
                &&& !was_one_with(before, c, a, j, y)
                &&& !was_one_with(before, d, b, i, x)
                &&& !was_one_with(before, d, b, j, y)
            },
        0 <= r < tracks.len(),
        after.ids[r].contains_key(z),
    ensures
        ({
            let (x, y) = (tracks[i]@[found[e].0 as int].id, tracks[j]@[found[e].1 as int].id);
            &&& after.ids[i][x] == after.ids[j][y]
            &&& after.ages[i][x] >= after.ages[j][y] && before.ids[i].contains_key(x)
                ==> after.ids[i][x] == before.ids[i][x]
            &&& after.ages[i][x] < after.ages[j][y] && before.ids[j].contains_key(y)
                ==> after.ids[j][y] == before.ids[j][y]
            &&& after.ids[r][z] == after.ids[i][x] <==> was_one_with(before, r, z, i, x)
                || was_one_with(before, r, z, j, y)
        }),
{
    let n = tracks.len() as int;
    let shown = before.all_shown(tracks, n);
    let matches = choose|matches: Seq<Seq<Seq<(usize, usize)>>>| #[trigger]
        are_pair_matches(scores, tracks, threshold, matches) && after == shown.all_merged(
            tracks,
            matches,
            n,
        );
    let (x, y) = (tracks[i]@[found[e].0 as int].id, tracks[j]@[found[e].1 as int].id);
    lemma_all_shown(before, tracks, n);
    lemma_all_len(before, tracks, n);
    lemma_matches_fit(scores, tracks, threshold, matches);
    assert(shown.knows(tracks));
    lemma_all_merged(shown, tracks, matches, n);
    lemma_merging_keeps_rest(shown, tracks, matches, n);
    lemma_same_matches(
        score_entries(scores[i]@[j]@),
        tracks[j]@.len() as int,
        threshold,
        matches[i][j],
        found,
    );
    assert(in_range(matches[i][j], tracks[i]@.len() as int, tracks[j]@.len() as int));
    let f = found[e];
    assert(shown.ids[i].contains_key(tracks[i]@[f.0 as int].id));
    assert(shown.ids[j].contains_key(tracks[j]@[f.1 as int].id));
    let (g, h) = (shown.ids[i][x], shown.ids[j][y]);
    let keep = if shown.ages[i][x] >= shown.ages[j][y] {
        g
    } else {
        h
    };
    assert forall|c: int, d: int, o: int|
        0 <= c < d < tracks.len() && 0 <= o < matches[c][d].len() && (c != i || d != j || o
            != e) implies #[trigger] is_of_others(shown, tracks, matches, c, d, o, g, h) by {
        let m = matches[c][d];
        assert(are_matches(
            score_entries(scores[c]@[d]@),
            tracks[d]@.len() as int,
            threshold,
            m,
        ));
        assert(in_range(m, tracks[c]@.len() as int, tracks[d]@.len() as int));
        let p = m[o];
        let (a, b) = (tracks[c]@[p.0 as int].id, tracks[d]@[p.1 as int].id);
        assert(shown.ids[c].contains_key(tracks[c]@[p.0 as int].id));
        assert(shown.ids[d].contains_key(tracks[d]@[p.1 as int].id));
        lemma_shown_apart(before, tracks, i, x, c, a);
        lemma_shown_apart(before, tracks, j, y, c, a);
        lemma_shown_apart(before, tracks, i, x, d, b);
        lemma_shown_apart(before, tracks, j, y, d, b);
    }
    assert(is_lone_match(shown, tracks, matches, i, j, e, g, h, keep));
    lemma_frame_follows(shown, tracks, matches, i, j, e, g, h, keep, n);
    assert(is_joined(shown, after, g, h, keep));
    assert(after.ids[r].contains_key(z) <==> shown.ids[r].contains_key(z));
    lemma_shown_apart(before, tracks, i, x, r, z);
    lemma_shown_apart(before, tracks, j, y, r, z);
    if before.ids[i].contains_key(x) {
        assert(shown.ids[i][x] == before.ids[i][x]);
    }
    if before.ids[j].contains_key(y) {
        assert(shown.ids[j][y] == before.ids[j][y]);
    }
}

} // verus!
