//! Fuses per-camera SORT tracks into global identities: tracks of different
//! cameras that overlap in a common reference plane are one object.

use vstd::prelude::*;

use std::collections::HashMap;

use crate::association::associate_detections_to_trackers;
use crate::sort::Track;

verus! {

broadcast use vstd::std_specs::hash::group_hash_axioms;

/// What a global tracker knows: for each camera the global id and the age, in
/// frames, of every local id seen so far, and the next global id.
#[verifier::ext_equal]
pub struct Identities {
    pub ids: Seq<Map<i64, i64>>,
    pub ages: Seq<Map<i64, i64>>,
    pub next: int,
}

/// The age of a local id: 0 if it was not seen before.
pub open spec fn age_of(ages: Map<i64, i64>, id: i64) -> int {
    if ages.contains_key(id) {
        ages[id] as int
    } else {
        0
    }
}

/// Every global id that is `replace` becomes `keep`.
pub open spec fn renamed(ids: Map<i64, i64>, replace: i64, keep: i64) -> Map<i64, i64> {
    ids.map_values(
        |g: i64|
            if g == replace {
                keep
            } else {
                g
            },
    )
}

impl Identities {
    /// The identities of `cameras` cameras that have shown nothing yet.
    pub open spec fn start(cameras: nat) -> Self {
        Identities {
            ids: Seq::new(cameras, |i: int| Map::<i64, i64>::empty()),
            ages: Seq::new(cameras, |i: int| Map::<i64, i64>::empty()),
            next: 1,
        }
    }

    /// Ages are kept for exactly the local ids that have a global id, and global
    /// ids are positive and below the next one.
    pub open spec fn wf(self) -> bool {
        &&& self.ages.len() == self.ids.len()
        &&& 1 <= self.next <= i64::MAX
        &&& forall|s: int, id: i64|
            0 <= s < self.ids.len() ==> (#[trigger] self.ids[s].contains_key(id)
                <==> self.ages[s].contains_key(id))
        &&& forall|s: int, id: i64|
            0 <= s < self.ids.len() && #[trigger] self.ids[s].contains_key(id) ==> 1
                <= self.ids[s][id] < self.next
    }

    /// `n` more tracks can be seen before an id or an age leaves its range.
    pub open spec fn has_room(self, n: int) -> bool {
        &&& self.next + n <= i64::MAX
        &&& forall|s: int, id: i64|
            0 <= s < self.ages.len() && #[trigger] self.ages[s].contains_key(id)
                ==> self.ages[s][id] + n <= i64::MAX
    }

    /// After camera `s` shows local id `id`: it has a global id, the next one if
    /// it had none, and is a frame older.
    pub open spec fn shown(self, s: int, id: i64) -> Self {
        let known = self.ids[s].contains_key(id);
        Identities {
            ids: if known {
                self.ids
            } else {
                self.ids.update(s, self.ids[s].insert(id, self.next as i64))
            },
            ages: self.ages.update(
                s,
                self.ages[s].insert(id, (age_of(self.ages[s], id) + 1) as i64),
            ),
            next: if known {
                self.next
            } else {
                self.next + 1
            },
        }
    }

    /// After camera `s` shows the first `k` of some tracks.
    pub open spec fn camera_shown(self, s: int, tracks: Seq<Track>, k: int) -> Self
        decreases k,
    {
        if k <= 0 {
            self
        } else {
            self.camera_shown(s, tracks, k - 1).shown(s, tracks[k - 1].id)
        }
    }

    /// After the first `k` cameras show their tracks.
    pub open spec fn all_shown(self, tracks: Seq<Vec<Track>>, k: int) -> Self
        decreases k,
    {
        if k <= 0 {
            self
        } else {
            self.all_shown(tracks, k - 1).camera_shown(
                k - 1,
                tracks[k - 1]@,
                tracks[k - 1]@.len() as int,
            )
        }
    }

    /// After local id `a` of camera `i` and local id `b` of camera `j` are found
    /// to be one object: whoever has the global id of the younger of the two has
    /// the global id of the older.
    pub open spec fn merged(self, i: int, a: i64, j: int, b: i64) -> Self {
        let global_a = self.ids[i][a];
        let global_b = self.ids[j][b];
        if global_a == global_b {
            self
        } else if self.ages[i][a] >= self.ages[j][b] {
            self.with_renamed(global_b, global_a)
        } else {
            self.with_renamed(global_a, global_b)
        }
    }

    /// After the global id `replace` is given up for `keep`.
    pub open spec fn with_renamed(self, replace: i64, keep: i64) -> Self {
        Identities {
            ids: self.ids.map_values(|m: Map<i64, i64>| renamed(m, replace, keep)),
            ..self
        }
    }

    /// After the first `k` matches between the tracks of cameras `i` and `j`.
    pub open spec fn pair_merged(
        self,
        i: int,
        j: int,
        tracks_i: Seq<Track>,
        tracks_j: Seq<Track>,
        matches: Seq<(usize, usize)>,
        k: int,
    ) -> Self
        decreases k,
    {
        if k <= 0 {
            self
        } else {
            self.pair_merged(i, j, tracks_i, tracks_j, matches, k - 1).merged(
                i,
                tracks_i[matches[k - 1].0 as int].id,
                j,
                tracks_j[matches[k - 1].1 as int].id,
            )
        }
    }
}

impl Identities {
    /// After camera `i` is merged with the cameras after it, below camera `j`;
    /// `matches[i][j]` are the matches between the tracks of `i` and `j`.
    pub open spec fn row_merged(
        self,
        tracks: Seq<Vec<Track>>,
        matches: Seq<Seq<Seq<(usize, usize)>>>,
        i: int,
        j: int,
    ) -> Self
        decreases j,
    {
        if j <= i + 1 || j <= 0 {
            self
        } else {
            self.row_merged(tracks, matches, i, j - 1).pair_merged(
                i,
                j - 1,
                tracks[i]@,
                tracks[j - 1]@,
                matches[i][j - 1],
                matches[i][j - 1].len() as int,
            )
        }
    }

    /// After the first `k` cameras are merged with the cameras after them.
    pub open spec fn all_merged(
        self,
        tracks: Seq<Vec<Track>>,
        matches: Seq<Seq<Seq<(usize, usize)>>>,
        k: int,
    ) -> Self
        decreases k,
    {
        if k <= 0 {
            self
        } else {
            self.all_merged(tracks, matches, k - 1).row_merged(
                tracks,
                matches,
                k - 1,
                tracks.len() as int,
            )
        }
    }

    /// Every track of `tracks` has a global id.
    pub open spec fn knows(self, tracks: Seq<Vec<Track>>) -> bool {
        forall|s: int, t: int|
            0 <= s < tracks.len() && 0 <= t < tracks[s]@.len() ==> #[trigger] self.ids[s].contains_key(
                tracks[s]@[t].id,
            )
    }

    /// The same local ids have global ids.
    pub open spec fn same_domain(self, other: Self) -> bool {
        &&& self.ids.len() == other.ids.len()
        &&& forall|s: int, id: i64|
            0 <= s < self.ids.len() ==> (#[trigger] self.ids[s].contains_key(id)
                <==> other.ids[s].contains_key(id))
    }
}

/// `scores[i][j]`, for `i < j`, holds the scores of the tracks of camera `i`
/// against those of camera `j`.
pub open spec fn are_pair_scores(scores: Seq<Vec<Vec<Vec<i64>>>>, tracks: Seq<Vec<Track>>) -> bool {
    &&& scores.len() == tracks.len()
    &&& forall|i: int, j: int|
        0 <= i < j < tracks.len() ==> {
            &&& scores[i]@.len() == tracks.len()
            &&& (#[trigger] scores[i]@[j])@.len() == tracks[i]@.len()
            &&& crate::association::is_score_matrix(scores[i]@[j]@, tracks[j]@.len() as int)
        }
}

/// `matches[i][j]`, for `i < j`, are matches of an association between the
/// tracks of cameras `i` and `j`.
pub open spec fn are_pair_matches(
    scores: Seq<Vec<Vec<Vec<i64>>>>,
    tracks: Seq<Vec<Track>>,
    threshold: int,
    matches: Seq<Seq<Seq<(usize, usize)>>>,
) -> bool {
    &&& matches.len() == tracks.len()
    &&& forall|i: int, j: int|
        0 <= i < j < tracks.len() ==> crate::association::are_matches(
            crate::association::score_entries(scores[i]@[j]@),
            tracks[j]@.len() as int,
            threshold,
            #[trigger] matches[i][j],
        )
}

/// How many tracks the first `k` cameras show.
pub open spec fn track_total(tracks: Seq<Vec<Track>>, k: int) -> int
    decreases k,
{
    if k <= 0 {
        0
    } else {
        track_total(tracks, k - 1) + tracks[k - 1]@.len()
    }
}

/// Global tracker over multiple camera sources.
pub struct MultiCameraTracker {
    iou_thres: i64,
    next_id: i64,
    ids: Vec<HashMap<i64, i64>>,
    age: Vec<HashMap<i64, i64>>,
}

/// The contents of some maps.
pub open spec fn contents(maps: Seq<HashMap<i64, i64>>) -> Seq<Map<i64, i64>> {
    maps.map_values(|m: HashMap<i64, i64>| m@)
}

impl View for MultiCameraTracker {
    type V = Identities;

    closed spec fn view(&self) -> Identities {
        Identities {
            ids: contents(self.ids@),
            ages: contents(self.age@),
            next: self.next_id as int,
        }
    }
}

/// A map with every value that is `replace` changed to `keep`.
fn rename(m: &HashMap<i64, i64>, replace: i64, keep: i64) -> (out: HashMap<i64, i64>)
    ensures
        out@ == renamed(m@, replace, keep),
{
    let mut out: HashMap<i64, i64> = HashMap::new();
    for pair in it: m.iter()
        invariant
            it.seq() == vstd::std_specs::iter::IteratorSpec::remaining(
                &vstd::std_specs::hash::spec_hash_map_iter(m),
            ),
            forall|x: int| 0 <= x < it.index() ==> out@.contains_key(*(#[trigger] it.seq()[x]).0),
            forall|id: i64| #[trigger]
                out@.contains_key(id) ==> m@.contains_key(id) && out@[id] == (if m@[id] == replace {
                    keep
                } else {
                    m@[id]
                }),
    {
        let id: i64 = *pair.0;
        let g: i64 = *pair.1;
        out.insert(
            id,
            if g == replace {
                keep
            } else {
                g
            },
        );
    }
    proof {
        let s = vstd::std_specs::iter::IteratorSpec::remaining(
                &vstd::std_specs::hash::spec_hash_map_iter(m),
            );
        assert forall|id: i64| #[trigger] m@.contains_key(id) implies out@.contains_key(id) by {
            assert(s.contains((&id, &m@[id])));
            let x = choose|x: int| 0 <= x < s.len() && s[x] == (&id, &m@[id]);
            assert(out@.contains_key(*s[x].0));
        }
        assert(out@ =~= renamed(m@, replace, keep));
    }
    out
}

pub(crate) proof fn lemma_shown(st: Identities, s: int, id: i64)
    requires
        st.wf(),
        0 <= s < st.ids.len(),
        st.has_room(1),
    ensures
        st.shown(s, id).wf(),
        st.shown(s, id).ids.len() == st.ids.len(),
        st.shown(s, id).ids[s].contains_key(id),
        forall|r: int, other: i64|
            0 <= r < st.ids.len() && #[trigger] st.ids[r].contains_key(other) ==> st.shown(
                s,
                id,
            ).ids[r].contains_key(other) && st.shown(s, id).ids[r][other] == st.ids[r][other],
        forall|n: int| 0 <= n && #[trigger] st.has_room(n + 1) ==> st.shown(s, id).has_room(n),
{
    let after = st.shown(s, id);
    assert forall|r: int, other: i64| 0 <= r < after.ids.len() implies (
    #[trigger] after.ids[r].contains_key(other) <==> after.ages[r].contains_key(other)) && (
    after.ids[r].contains_key(other) ==> 1 <= after.ids[r][other] < after.next) by {
        assert(st.ids[r].contains_key(other) <==> st.ages[r].contains_key(other));
    }
    assert forall|n: int| 0 <= n && #[trigger] st.has_room(n + 1) implies after.has_room(n) by {
        assert forall|r: int, other: i64|
            0 <= r < after.ages.len() && #[trigger] after.ages[r].contains_key(
                other,
            ) implies after.ages[r][other] + n <= i64::MAX by {
            if r == s && other == id {
                assert(st.ids[r].contains_key(other) <==> st.ages[r].contains_key(other));
            } else {
                assert(st.ages[r].contains_key(other));
            }
        }
    }
}

pub(crate) proof fn lemma_merged(st: Identities, i: int, a: i64, j: int, b: i64)
    requires
        st.wf(),
        0 <= i < st.ids.len(),
        0 <= j < st.ids.len(),
        st.ids[i].contains_key(a),
        st.ids[j].contains_key(b),
    ensures
        st.merged(i, a, j, b).wf(),
        st.merged(i, a, j, b).same_domain(st),
        st.merged(i, a, j, b).ages == st.ages,
        st.merged(i, a, j, b).next == st.next,
        st.merged(i, a, j, b).ids[i][a] == st.merged(i, a, j, b).ids[j][b],
        forall|r: int, x: i64, s: int, y: i64|
            0 <= r < st.ids.len() && 0 <= s < st.ids.len() && #[trigger] st.ids[r].contains_key(x)
                && #[trigger] st.ids[s].contains_key(y) && st.ids[r][x] == st.ids[s][y]
                ==> st.merged(i, a, j, b).ids[r][x] == st.merged(i, a, j, b).ids[s][y],
{
    let after = st.merged(i, a, j, b);
    assert forall|r: int, x: i64| 0 <= r < after.ids.len() implies (
    #[trigger] after.ids[r].contains_key(x) <==> st.ids[r].contains_key(x)) && (
    after.ids[r].contains_key(x) ==> 1 <= after.ids[r][x] < after.next) by {
        assert(st.ids[r].contains_key(x) <==> st.ages[r].contains_key(x));
    }
}

impl MultiCameraTracker {
    /// The score below which two tracks are not one object.
    pub closed spec fn iou_thres(&self) -> int {
        self.iou_thres as int
    }

    /// A global tracker of `cameras` cameras.
    pub fn new(cameras: usize, iou_thres: i64) -> (tracker: Self)
        ensures
            tracker@ == Identities::start(cameras as nat),
            tracker@.wf(),
            tracker.iou_thres() == iou_thres,
    {
        let mut ids: Vec<HashMap<i64, i64>> = Vec::new();
        let mut age: Vec<HashMap<i64, i64>> = Vec::new();
        let mut i: usize = 0;
        while i < cameras
            invariant
                0 <= i <= cameras,
                ids@.len() == i,
                age@.len() == i,
                forall|s: int| 0 <= s < i ==> (#[trigger] ids@[s])@ == Map::<i64, i64>::empty(),
                forall|s: int| 0 <= s < i ==> (#[trigger] age@[s])@ == Map::<i64, i64>::empty(),
            decreases cameras - i,
        {
            ids.push(HashMap::new());
            age.push(HashMap::new());
            i = i + 1;
        }
        let tracker = MultiCameraTracker { iou_thres, next_id: 1, ids, age };
        assert(tracker@ =~= Identities::start(cameras as nat));
        tracker
    }

    /// Counts a frame of local id `id` of camera `s`, with a global id.
    fn show(&mut self, s: usize, id: i64)
        requires
            old(self)@.wf(),
            s < old(self)@.ids.len(),
            old(self)@.has_room(1),
        ensures
            final(self)@ == old(self)@.shown(s as int, id),
            final(self)@.wf(),
            final(self).iou_thres() == old(self).iou_thres(),
    {
        proof {
            lemma_shown(self@, s as int, id);
            assert(self@.ids[s as int].contains_key(id) <==> self@.ages[s as int].contains_key(id));
        }
        let ghost before = self@;
        if !self.ids[s].contains_key(&id) {
            let g: i64 = self.next_id;
            self.ids[s].insert(id, g);
            self.next_id = g + 1;
        }
        let frames: i64 = match self.age[s].get(&id) {
            Some(n) => *n,
            None => 0,
        };
        assert(frames == age_of(before.ages[s as int], id));
        self.age[s].insert(id, frames + 1);
        assert(self@ =~= before.shown(s as int, id));
    }
}

/// Every track of the first `k` cameras has a global id, and every track of
/// camera `k` before number `t`.
pub(crate) open spec fn knows_up_to(st: Identities, tracks: Seq<Vec<Track>>, k: int, t: int) -> bool {
    &&& forall|s: int, x: int|
        0 <= s < k && 0 <= x < tracks[s]@.len() ==> #[trigger] st.ids[s].contains_key(
            tracks[s]@[x].id,
        )
    &&& forall|x: int| 0 <= x < t ==> #[trigger] st.ids[k].contains_key(tracks[k]@[x].id)
}

/// More cameras show no fewer tracks.
pub(crate) proof fn lemma_track_total(tracks: Seq<Vec<Track>>, i: int, k: int)
    requires
        0 <= i <= k,
    ensures
        0 <= track_total(tracks, i) <= track_total(tracks, k),
    decreases k,
{
    if i < k {
        lemma_track_total(tracks, i, k - 1);
    } else if k > 0 {
        lemma_track_total(tracks, k - 1, k - 1);
    }
}

impl MultiCameraTracker {
    /// Gives every visible local track a global id, and counts its frame.
    fn show_all(&mut self, tracks: &[Vec<Track>])
        requires
            old(self)@.wf(),
            tracks@.len() == old(self)@.ids.len(),
            old(self)@.has_room(track_total(tracks@, tracks@.len() as int)),
        ensures
            final(self)@ == old(self)@.all_shown(tracks@, tracks@.len() as int),
            final(self)@.wf(),
            final(self)@.ids.len() == old(self)@.ids.len(),
            final(self)@.knows(tracks@),
            final(self).iou_thres() == old(self).iou_thres(),
            forall|more: int|
                0 <= more && #[trigger] old(self)@.has_room(
                    track_total(tracks@, tracks@.len() as int) + more,
                ) ==> final(self)@.has_room(more),
    {
        let ghost start = self@;
        let ghost total = track_total(tracks@, tracks@.len() as int);
        let n: usize = tracks.len();
        let mut s: usize = 0;
        proof {
            lemma_track_total(tracks@, 0, n as int);
        }
        while s < n
            invariant
                0 <= s <= n,
                n == tracks@.len(),
                self@.ids.len() == n,
                self@.wf(),
                total == track_total(tracks@, n as int),
                self@ == start.all_shown(tracks@, s as int),
                knows_up_to(self@, tracks@, s as int, 0),
                self.iou_thres() == old(self).iou_thres(),
                start.has_room(total),
                forall|more: int|
                    0 <= more && #[trigger] start.has_room(total + more) ==> self@.has_room(
                        total - track_total(tracks@, s as int) + more,
                    ),
            decreases n - s,
        {
            let ghost mid = self@;
            let len: usize = tracks[s].len();
            proof {
                lemma_track_total(tracks@, s + 1, n as int);
            }
            let mut t: usize = 0;
            while t < len
                invariant
                    0 <= t <= len,
                    0 <= s < n,
                    n == tracks@.len(),
                    len == tracks@[s as int]@.len(),
                    self@.ids.len() == n,
                    self@.wf(),
                    total == track_total(tracks@, n as int),
                    track_total(tracks@, s + 1) <= total,
                    self@ == mid.camera_shown(s as int, tracks@[s as int]@, t as int),
                    knows_up_to(self@, tracks@, s as int, t as int),
                    self.iou_thres() == old(self).iou_thres(),
                    start.has_room(total),
                    forall|more: int|
                        0 <= more && #[trigger] start.has_room(total + more) ==> self@.has_room(
                            total - track_total(tracks@, s as int) - t + more,
                        ),
                decreases len - t,
            {
                let ghost before = self@;
                proof {
                    assert(start.has_room(total + 0));
                    let left = total - track_total(tracks@, s as int) - t;
                    assert(before.has_room(left));
                    assert(before.has_room((left - 1) + 1));
                    assert(before.has_room(1));
                    lemma_shown(before, s as int, tracks@[s as int]@[t as int].id);
                }
                self.show(s, tracks[s][t].id);
                proof {
                    assert forall|more: int| 0 <= more && #[trigger] start.has_room(
                        total + more,
                    ) implies self@.has_room(
                        total - track_total(tracks@, s as int) - (t + 1) + more,
                    ) by {
                        let left = total - track_total(tracks@, s as int) - t;
                        assert(before.has_room(left + more));
                        assert(before.has_room((left - 1 + more) + 1));
                    }
                }
                t = t + 1;
            }
            s = s + 1;
        }
    }

    /// Makes local id `a` of camera `i` and local id `b` of camera `j` one
    /// object.
    fn merge(&mut self, i: usize, a: i64, j: usize, b: i64)
        requires
            old(self)@.wf(),
            i < old(self)@.ids.len(),
            j < old(self)@.ids.len(),
            old(self)@.ids[i as int].contains_key(a),
            old(self)@.ids[j as int].contains_key(b),
        ensures
            final(self)@ == old(self)@.merged(i as int, a, j as int, b),
            final(self)@.wf(),
            final(self)@.same_domain(old(self)@),
            final(self)@.ages == old(self)@.ages,
            final(self)@.next == old(self)@.next,
            final(self).iou_thres() == old(self).iou_thres(),
    {
        let ghost before = self@;
        proof {
            lemma_merged(before, i as int, a, j as int, b);
            assert(before.ages[i as int].contains_key(a));
            assert(before.ages[j as int].contains_key(b));
        }
        let global_a: i64 = *self.ids[i].get(&a).unwrap();
        let global_b: i64 = *self.ids[j].get(&b).unwrap();
        if global_a != global_b {
            let age_a: i64 = *self.age[i].get(&a).unwrap();
            let age_b: i64 = *self.age[j].get(&b).unwrap();
            let keep: i64 = if age_a >= age_b {
                global_a
            } else {
                global_b
            };
            let replace: i64 = if keep == global_a {
                global_b
            } else {
                global_a
            };
            let n: usize = self.ids.len();
            let mut s: usize = 0;
            while s < n
                invariant
                    0 <= s <= n,
                    n == before.ids.len(),
                    self.ids@.len() == n,
                    contents(self.age@) == before.ages,
                    self.next_id == before.next,
                    self.iou_thres == old(self).iou_thres,
                    forall|r: int|
                        0 <= r < n ==> (#[trigger] self.ids@[r])@ == if r < s {
                            renamed(before.ids[r], replace, keep)
                        } else {
                            before.ids[r]
                        },
                decreases n - s,
            {
                let changed: HashMap<i64, i64> = rename(&self.ids[s], replace, keep);
                self.ids.set(s, changed);
                s = s + 1;
            }
            assert(self@ =~= before.with_renamed(replace, keep));
        }
    }
}

proof fn lemma_row_merged_frame(
    st: Identities,
    tracks: Seq<Vec<Track>>,
    m1: Seq<Seq<Seq<(usize, usize)>>>,
    m2: Seq<Seq<Seq<(usize, usize)>>>,
    i: int,
    j: int,
)
    requires
        forall|l: int| i < l < j ==> #[trigger] m1[i][l] == m2[i][l],
    ensures
        st.row_merged(tracks, m1, i, j) == st.row_merged(tracks, m2, i, j),
    decreases j,
{
    if !(j <= i + 1 || j <= 0) {
        lemma_row_merged_frame(st, tracks, m1, m2, i, j - 1);
        assert(m1[i][j - 1] == m2[i][j - 1]);
    }
}

proof fn lemma_all_merged_frame(
    st: Identities,
    tracks: Seq<Vec<Track>>,
    m1: Seq<Seq<Seq<(usize, usize)>>>,
    m2: Seq<Seq<Seq<(usize, usize)>>>,
    k: int,
)
    requires
        forall|i: int| 0 <= i < k ==> #[trigger] m1[i] == m2[i],
    ensures
        st.all_merged(tracks, m1, k) == st.all_merged(tracks, m2, k),
    decreases k,
{
    if k > 0 {
        lemma_all_merged_frame(st, tracks, m1, m2, k - 1);
        assert(m1[k - 1] == m2[k - 1]);
        lemma_row_merged_frame(
            st.all_merged(tracks, m1, k - 1),
            tracks,
            m1,
            m2,
            k - 1,
            tracks.len() as int,
        );
    }
}

/// A copy of the contents of some maps.
pub(crate) fn copy_maps(maps: &[HashMap<i64, i64>]) -> (copy: Vec<HashMap<i64, i64>>)
    ensures
        copy@.len() == maps@.len(),
        contents(copy@) == contents(maps@),
{
    let mut copy: Vec<HashMap<i64, i64>> = Vec::new();
    let mut i: usize = 0;
    while i < maps.len()
        invariant
            0 <= i <= maps@.len(),
            copy@.len() == i,
            forall|s: int| 0 <= s < i ==> (#[trigger] copy@[s])@ == maps@[s]@,
        decreases maps@.len() - i,
    {
        copy.push(maps[i].clone());
        i = i + 1;
    }
    assert(contents(copy@) =~= contents(maps@));
    copy
}

impl MultiCameraTracker {
    /// Makes every match between the tracks of cameras `i` and `j` one object.
    fn merge_matches(
        &mut self,
        i: usize,
        j: usize,
        tracks: &[Vec<Track>],
        matches: &[(usize, usize)],
    )
        requires
            old(self)@.wf(),
            old(self)@.ids.len() == tracks@.len(),
            i < tracks@.len(),
            j < tracks@.len(),
            old(self)@.knows(tracks@),
            forall|x: int|
                0 <= x < matches@.len() ==> (#[trigger] matches@[x]).0 < tracks@[i as int]@.len()
                    && matches@[x].1 < tracks@[j as int]@.len(),
        ensures
            final(self)@ == old(self)@.pair_merged(
                i as int,
                j as int,
                tracks@[i as int]@,
                tracks@[j as int]@,
                matches@,
                matches@.len() as int,
            ),
            final(self)@.wf(),
            final(self)@.same_domain(old(self)@),
            final(self)@.ages == old(self)@.ages,
            final(self)@.next == old(self)@.next,
            final(self).iou_thres() == old(self).iou_thres(),
    {
        let ghost start = self@;
        let mut k: usize = 0;
        while k < matches.len()
            invariant
                0 <= k <= matches@.len(),
                start.knows(tracks@),
                start.ids.len() == tracks@.len(),
                i < tracks@.len(),
                j < tracks@.len(),
                forall|x: int|
                    0 <= x < matches@.len() ==> (#[trigger] matches@[x]).0
                        < tracks@[i as int]@.len() && matches@[x].1 < tracks@[j as int]@.len(),
                self@ == start.pair_merged(
                    i as int,
                    j as int,
                    tracks@[i as int]@,
                    tracks@[j as int]@,
                    matches@,
                    k as int,
                ),
                self@.wf(),
                self@.same_domain(start),
                self@.ages == start.ages,
                self@.next == start.next,
                self.iou_thres() == old(self).iou_thres(),
            decreases matches@.len() - k,
        {
            let pair: (usize, usize) = matches[k];
            let a: i64 = tracks[i][pair.0].id;
            let b: i64 = tracks[j][pair.1].id;
            assert(start.ids[i as int].contains_key(tracks@[i as int]@[pair.0 as int].id));
            assert(start.ids[j as int].contains_key(tracks@[j as int]@[pair.1 as int].id));
            assert(self@.ids[i as int].contains_key(a));
            assert(self@.ids[j as int].contains_key(b));
            self.merge(i, a, j, b);
            k = k + 1;
        }
    }

    /// Consumes one frame of per-camera tracks (each `Track::id` is the local
    /// SORT id) and returns, per camera, a mapping from local id to global id.
    /// `scores[i][j]`, for `i < j`, holds the scores of the tracks of camera `i`
    /// against those of camera `j` in the common reference plane.
    pub fn update(
        &mut self,
        tracks: &[Vec<Track>],
        scores: &[Vec<Vec<Vec<i64>>>],
    ) -> (ids: Vec<HashMap<i64, i64>>)
        requires
            old(self)@.wf(),
            tracks@.len() == old(self)@.ids.len() ==> {
                &&& old(self)@.has_room(track_total(tracks@, tracks@.len() as int))
                &&& are_pair_scores(scores@, tracks@)
                &&& forall|s: int|
                    0 <= s < tracks@.len() ==> (#[trigger] tracks@[s])@.len() < usize::MAX
            },
        ensures
            final(self).iou_thres() == old(self).iou_thres(),
            final(self)@.wf(),
            final(self)@.ids.len() == old(self)@.ids.len(),
            tracks@.len() != old(self)@.ids.len() ==> {
                &&& final(self)@ == old(self)@
                &&& contents(ids@) == Identities::start(old(self)@.ids.len()).ids
            },
            tracks@.len() == old(self)@.ids.len() ==> {
                &&& contents(ids@) == final(self)@.ids
                &&& is_frame(
                    old(self)@,
                    tracks@,
                    scores@,
                    old(self).iou_thres(),
                    final(self)@,
                )
                &&& forall|more: int|
                    0 <= more && #[trigger] old(self)@.has_room(
                        track_total(tracks@, tracks@.len() as int) + more,
                    ) ==> final(self)@.has_room(more)
            },
    {
        let n: usize = self.ids.len();
        if tracks.len() != n {
            let mut none: Vec<HashMap<i64, i64>> = Vec::new();
            let mut i: usize = 0;
            while i < n
                invariant
                    0 <= i <= n,
                    none@.len() == i,
                    forall|s: int| 0 <= s < i ==> (#[trigger] none@[s])@ == Map::<i64, i64>::empty(),
                decreases n - i,
            {
                none.push(HashMap::new());
                i = i + 1;
            }
            assert(contents(none@) =~= Identities::start(self@.ids.len()).ids);
            return none;
        }
        self.show_all(tracks);
        let ghost shown = self@;
        let ghost mut found: Seq<Seq<Seq<(usize, usize)>>> = Seq::empty();
        let mut i: usize = 0;
        while i < n
            invariant
                0 <= i <= n,
                n == tracks@.len(),
                shown.ids.len() == n,
                shown.knows(tracks@),
                are_pair_scores(scores@, tracks@),
                forall|s: int|
                    0 <= s < tracks@.len() ==> (#[trigger] tracks@[s])@.len() < usize::MAX,
                self@.wf(),
                self@.same_domain(shown),
                self@.ages == shown.ages,
                self@.next == shown.next,
                self.iou_thres() == old(self).iou_thres(),
                found.len() == i,
                self@ == shown.all_merged(tracks@, found, i as int),
                forall|a: int, b: int|
                    0 <= a < i && a < b < n ==> crate::association::are_matches(
                        crate::association::score_entries(scores@[a]@[b]@),
                        tracks@[b]@.len() as int,
                        old(self).iou_thres(),
                        #[trigger] found[a][b],
                    ),
            decreases n - i,
        {
            let ghost mid = self@;
            let ghost mut row: Seq<Seq<(usize, usize)>> = Seq::new(
                (i + 1) as nat,
                |l: int| Seq::<(usize, usize)>::empty(),
            );
            let mut j: usize = i + 1;
            while j < n
                invariant
                    0 <= i < j <= n,
                    n == tracks@.len(),
                    shown.ids.len() == n,
                    shown.knows(tracks@),
                    are_pair_scores(scores@, tracks@),
                    forall|s: int|
                        0 <= s < tracks@.len() ==> (#[trigger] tracks@[s])@.len() < usize::MAX,
                    self@.wf(),
                    self@.same_domain(shown),
                    self@.ages == shown.ages,
                    self@.next == shown.next,
                    self.iou_thres() == old(self).iou_thres(),
                    found.len() == i,
                    row.len() == j,
                    self@ == mid.row_merged(tracks@, found.push(row), i as int, j as int),
                    forall|b: int|
                        i < b < j ==> crate::association::are_matches(
                            crate::association::score_entries(scores@[i as int]@[b]@),
                            tracks@[b]@.len() as int,
                            old(self).iou_thres(),
                            #[trigger] row[b],
                        ),
                decreases n - j,
            {
                let width: usize = tracks[j].len();
                assert(scores@[i as int]@[j as int]@.len() == tracks@[i as int]@.len());
                assert(tracks@[i as int]@.len() < usize::MAX);
                let associated = associate_detections_to_trackers(
                    &scores[i][j],
                    width,
                    self.iou_thres,
                );
                let matches: Vec<(usize, usize)> = associated.0;
                proof {
                    let entries = crate::association::score_entries(scores@[i as int]@[j as int]@);
                    let threshold = old(self).iou_thres();
                    assert(crate::association::is_association(
                        entries,
                        width as int,
                        threshold,
                        matches@,
                        associated.1@,
                        associated.2@,
                    ));
                    assert(crate::association::is_matching(
                        entries,
                        width as int,
                        threshold,
                        matches@,
                        associated.1@,
                    ));
                    assert(crate::association::are_matches(
                        entries,
                        width as int,
                        threshold,
                        matches@,
                    ));
                    crate::association::lemma_matches_in_range(
                        entries,
                        width as int,
                        threshold,
                        matches@,
                    );
                    assert(self@.knows(tracks@)) by {
                        assert forall|s: int, t: int|
                            0 <= s < tracks@.len() && 0 <= t < tracks@[s]@.len() implies
                            #[trigger] self@.ids[s].contains_key(tracks@[s]@[t].id) by {
                            assert(shown.ids[s].contains_key(tracks@[s]@[t].id));
                        }
                    }
                }
                let ghost before = self@;
                self.merge_matches(i, j, tracks, &matches);
                proof {
                    let longer = row.push(matches@);
                    let m1 = found.push(row);
                    let m2 = found.push(longer);
                    assert forall|l: int| i < l < j implies #[trigger] m1[i as int][l]
                        == m2[i as int][l] by {
                        assert(longer[l] == row[l]);
                    }
                    lemma_row_merged_frame(mid, tracks@, m1, m2, i as int, j as int);
                    assert(m2[i as int][j as int] == matches@);
                    assert forall|b: int| i < b < j + 1 implies crate::association::are_matches(
                        crate::association::score_entries(scores@[i as int]@[b]@),
                        tracks@[b]@.len() as int,
                        old(self).iou_thres(),
                        #[trigger] longer[b],
                    ) by {
                        if b < j {
                            assert(longer[b] == row[b]);
                        }
                    }
                    row = longer;
                }
                j = j + 1;
            }
            proof {
                let more = found.push(row);
                lemma_all_merged_frame(shown, tracks@, found, more, i as int);
                assert forall|a: int, b: int|
                    0 <= a < i + 1 && a < b < n implies crate::association::are_matches(
                    crate::association::score_entries(scores@[a]@[b]@),
                    tracks@[b]@.len() as int,
                    old(self).iou_thres(),
                    #[trigger] more[a][b],
                ) by {
                    if a < i {
                        assert(more[a] == found[a]);
                        assert(crate::association::are_matches(
                            crate::association::score_entries(scores@[a]@[b]@),
                            tracks@[b]@.len() as int,
                            old(self).iou_thres(),
                            found[a][b],
                        ));
                    } else {
                        assert(more[a][b] == row[b]);
                    }
                }
                found = more;
            }
            i = i + 1;
        }
        proof {
            assert(are_pair_matches(scores@, tracks@, old(self).iou_thres(), found));
            assert(is_frame(old(self)@, tracks@, scores@, old(self).iou_thres(), self@));
        }
        copy_maps(&self.ids)
    }
}

/// `after` is `before` with one more frame: the tracks are shown, and then the
/// matches of an association between every two cameras are merged.
pub open spec fn is_frame(
    before: Identities,
    tracks: Seq<Vec<Track>>,
    scores: Seq<Vec<Vec<Vec<i64>>>>,
    threshold: int,
    after: Identities,
) -> bool {
    exists|matches: Seq<Seq<Seq<(usize, usize)>>>| #[trigger]
        are_pair_matches(scores, tracks, threshold, matches) && after == before.all_shown(
            tracks,
            tracks.len() as int,
        ).all_merged(tracks, matches, tracks.len() as int)
}

/// The same local ids have global ids in `after` as in `before`, and what was
/// one object is one object.
pub open spec fn coarsens(before: Identities, after: Identities) -> bool {
    &&& after.same_domain(before)
    &&& forall|r: int, x: i64, s: int, y: i64|
        0 <= r < before.ids.len() && 0 <= s < before.ids.len() && #[trigger] before.ids[r].contains_key(
            x,
        ) && #[trigger] before.ids[s].contains_key(y) && before.ids[r][x] == before.ids[s][y]
            ==> after.ids[r][x] == after.ids[s][y]
}

/// The two tracks of each of the first `k` matches have one global id.
pub open spec fn matches_share(
    st: Identities,
    i: int,
    j: int,
    tracks_i: Seq<Track>,
    tracks_j: Seq<Track>,
    matches: Seq<(usize, usize)>,
    k: int,
) -> bool {
    forall|x: int|
        0 <= x < k ==> st.ids[i][tracks_i[(#[trigger] matches[x]).0 as int].id]
            == st.ids[j][tracks_j[matches[x].1 as int].id]
}

proof fn lemma_coarsens_transitive(a: Identities, b: Identities, c: Identities)
    requires
        coarsens(a, b),
        coarsens(b, c),
    ensures
        coarsens(a, c),
{
    assert forall|r: int, x: i64, s: int, y: i64|
        0 <= r < a.ids.len() && 0 <= s < a.ids.len() && #[trigger] a.ids[r].contains_key(x)
            && #[trigger] a.ids[s].contains_key(y) && a.ids[r][x]
            == a.ids[s][y] implies c.ids[r][x] == c.ids[s][y] by {
        assert(b.ids[r].contains_key(x) && b.ids[s].contains_key(y));
    }
    assert forall|s: int, id: i64| 0 <= s < c.ids.len() implies (#[trigger] c.ids[s].contains_key(id)
        <==> a.ids[s].contains_key(id)) by {
        assert(b.ids[s].contains_key(id) <==> a.ids[s].contains_key(id));
    }
}

/// The matches between the tracks of two cameras are in range.
pub(crate) open spec fn in_range(matches: Seq<(usize, usize)>, rows: int, cols: int) -> bool {
    forall|x: int|
        0 <= x < matches.len() ==> (#[trigger] matches[x]).0 < rows && matches[x].1 < cols
}

pub(crate) proof fn lemma_pair_merged(
    st: Identities,
    tracks: Seq<Vec<Track>>,
    i: int,
    j: int,
    matches: Seq<(usize, usize)>,
    k: int,
)
    requires
        st.wf(),
        st.ids.len() == tracks.len(),
        st.knows(tracks),
        0 <= i < tracks.len(),
        0 <= j < tracks.len(),
        0 <= k <= matches.len(),
        in_range(matches, tracks[i]@.len() as int, tracks[j]@.len() as int),
    ensures
        ({
            let after = st.pair_merged(i, j, tracks[i]@, tracks[j]@, matches, k);
            &&& after.wf()
            &&& coarsens(st, after)
            &&& after.knows(tracks)
            &&& matches_share(after, i, j, tracks[i]@, tracks[j]@, matches, k)
        }),
    decreases k,
{
    if k > 0 {
        lemma_pair_merged(st, tracks, i, j, matches, k - 1);
        let mid = st.pair_merged(i, j, tracks[i]@, tracks[j]@, matches, k - 1);
        let after = st.pair_merged(i, j, tracks[i]@, tracks[j]@, matches, k);
        let pair = matches[k - 1];
        let a = tracks[i]@[pair.0 as int].id;
        let b = tracks[j]@[pair.1 as int].id;
        assert(mid.ids[i].contains_key(tracks[i]@[pair.0 as int].id));
        assert(mid.ids[j].contains_key(tracks[j]@[pair.1 as int].id));
        lemma_merged(mid, i, a, j, b);
        assert(coarsens(mid, after));
        lemma_coarsens_transitive(st, mid, after);
        lemma_still_knows(mid, after, tracks);
        assert forall|x: int| 0 <= x < k implies after.ids[i][tracks[i]@[(#[trigger] matches[x]).0 as int].id]
            == after.ids[j][tracks[j]@[matches[x].1 as int].id] by {
            if x < k - 1 {
                assert(mid.ids[i].contains_key(tracks[i]@[matches[x].0 as int].id));
                assert(mid.ids[j].contains_key(tracks[j]@[matches[x].1 as int].id));
            }
        }
    }
}

proof fn lemma_still_knows(before: Identities, after: Identities, tracks: Seq<Vec<Track>>)
    requires
        before.knows(tracks),
        after.same_domain(before),
        before.ids.len() == tracks.len(),
    ensures
        after.knows(tracks),
{
    assert forall|s: int, t: int|
        0 <= s < tracks.len() && 0 <= t < tracks[s]@.len() implies #[trigger] after.ids[s].contains_key(
        tracks[s]@[t].id,
    ) by {
        assert(before.ids[s].contains_key(tracks[s]@[t].id));
    }
}

proof fn lemma_still_share(
    before: Identities,
    after: Identities,
    tracks: Seq<Vec<Track>>,
    i: int,
    j: int,
    matches: Seq<(usize, usize)>,
)
    requires
        before.knows(tracks),
        coarsens(before, after),
        before.ids.len() == tracks.len(),
        0 <= i < tracks.len(),
        0 <= j < tracks.len(),
        in_range(matches, tracks[i]@.len() as int, tracks[j]@.len() as int),
        matches_share(
            before,
            i,
            j,
            tracks[i]@,
            tracks[j]@,
            matches,
            matches.len() as int,
        ),
    ensures
        matches_share(after, i, j, tracks[i]@, tracks[j]@, matches, matches.len() as int),
{
    assert forall|x: int| 0 <= x < matches.len() implies after.ids[i][tracks[i]@[(
    #[trigger] matches[x]).0 as int].id] == after.ids[j][tracks[j]@[matches[x].1 as int].id] by {
        assert(before.ids[i].contains_key(tracks[i]@[matches[x].0 as int].id));
        assert(before.ids[j].contains_key(tracks[j]@[matches[x].1 as int].id));
    }
}

/// Every list of matches is in range.
pub(crate) open spec fn all_in_range(tracks: Seq<Vec<Track>>, matches: Seq<Seq<Seq<(usize, usize)>>>) -> bool {
    forall|i: int, j: int|
        0 <= i < j < tracks.len() ==> in_range(
            #[trigger] matches[i][j],
            tracks[i]@.len() as int,
            tracks[j]@.len() as int,
        )
}

pub(crate) proof fn lemma_row_merged(
    st: Identities,
    tracks: Seq<Vec<Track>>,
    matches: Seq<Seq<Seq<(usize, usize)>>>,
    i: int,
    j: int,
)
    requires
        st.wf(),
        st.ids.len() == tracks.len(),
        st.knows(tracks),
        all_in_range(tracks, matches),
        0 <= i < j <= tracks.len(),
    ensures
        ({
            let after = st.row_merged(tracks, matches, i, j);
            &&& after.wf()
            &&& coarsens(st, after)
            &&& after.knows(tracks)
            &&& forall|b: int|
                i < b < j ==> matches_share(
                    after,
                    i,
                    b,
                    tracks[i]@,
                    tracks[b]@,
                    #[trigger] matches[i][b],
                    matches[i][b].len() as int,
                )
        }),
    decreases j,
{
    if j > i + 1 {
        lemma_row_merged(st, tracks, matches, i, j - 1);
        let mid = st.row_merged(tracks, matches, i, j - 1);
        let after = st.row_merged(tracks, matches, i, j);
        let last = matches[i][j - 1];
        lemma_pair_merged(mid, tracks, i, j - 1, last, last.len() as int);
        lemma_coarsens_transitive(st, mid, after);
        assert forall|b: int| i < b < j implies matches_share(
            after,
            i,
            b,
            tracks[i]@,
            tracks[b]@,
            #[trigger] matches[i][b],
            matches[i][b].len() as int,
        ) by {
            if b < j - 1 {
                lemma_still_share(mid, after, tracks, i, b, matches[i][b]);
            }
        }
    }
}

pub(crate) proof fn lemma_all_merged(
    st: Identities,
    tracks: Seq<Vec<Track>>,
    matches: Seq<Seq<Seq<(usize, usize)>>>,
    k: int,
)
    requires
        st.wf(),
        st.ids.len() == tracks.len(),
        st.knows(tracks),
        all_in_range(tracks, matches),
        0 <= k <= tracks.len(),
    ensures
        ({
            let after = st.all_merged(tracks, matches, k);
            &&& after.wf()
            &&& coarsens(st, after)
            &&& after.knows(tracks)
            &&& forall|a: int, b: int|
                0 <= a < k && a < b < tracks.len() ==> matches_share(
                    after,
                    a,
                    b,
                    tracks[a]@,
                    tracks[b]@,
                    #[trigger] matches[a][b],
                    matches[a][b].len() as int,
                )
        }),
    decreases k,
{
    if k > 0 {
        lemma_all_merged(st, tracks, matches, k - 1);
        let mid = st.all_merged(tracks, matches, k - 1);
        let after = st.all_merged(tracks, matches, k);
        lemma_row_merged(mid, tracks, matches, k - 1, tracks.len() as int);
        lemma_coarsens_transitive(st, mid, after);
        assert forall|a: int, b: int| 0 <= a < k && a < b < tracks.len() implies matches_share(
            after,
            a,
            b,
            tracks[a]@,
            tracks[b]@,
            #[trigger] matches[a][b],
            matches[a][b].len() as int,
        ) by {
            if a < k - 1 {
                lemma_still_share(mid, after, tracks, a, b, matches[a][b]);
            }
        }
    }
}

/// Global ids given before are kept.
pub open spec fn keeps_ids(before: Identities, after: Identities) -> bool {
    &&& after.ids.len() == before.ids.len()
    &&& forall|s: int, id: i64|
        0 <= s < before.ids.len() && #[trigger] before.ids[s].contains_key(id)
            ==> after.ids[s].contains_key(id) && after.ids[s][id] == before.ids[s][id]
}

pub(crate) proof fn lemma_camera_shown(st: Identities, s: int, tracks: Seq<Track>, k: int)
    requires
        st.wf(),
        0 <= s < st.ids.len(),
        0 <= k <= tracks.len(),
        st.has_room(k),
    ensures
        ({
            let after = st.camera_shown(s, tracks, k);
            &&& after.wf()
            &&& keeps_ids(st, after)
            &&& forall|t: int| 0 <= t < k ==> #[trigger] after.ids[s].contains_key(tracks[t].id)
            &&& forall|n: int| 0 <= n && #[trigger] st.has_room(k + n) ==> after.has_room(n)
        }),
    decreases k,
{
    if k > 0 {
        assert(st.has_room(k - 1));
        lemma_camera_shown(st, s, tracks, k - 1);
        let mid = st.camera_shown(s, tracks, k - 1);
        let after = st.camera_shown(s, tracks, k);
        assert(st.has_room((k - 1) + 1));
        assert(mid.has_room(1));
        lemma_shown(mid, s, tracks[k - 1].id);
        assert forall|t: int| 0 <= t < k implies #[trigger] after.ids[s].contains_key(
            tracks[t].id,
        ) by {
            if t < k - 1 {
                assert(mid.ids[s].contains_key(tracks[t].id));
            }
        }
        assert forall|r: int, id: i64|
            0 <= r < st.ids.len() && #[trigger] st.ids[r].contains_key(
                id,
            ) implies after.ids[r].contains_key(id) && after.ids[r][id] == st.ids[r][id] by {
            assert(mid.ids[r].contains_key(id));
        }
        assert forall|n: int| 0 <= n && #[trigger] st.has_room(k + n) implies after.has_room(n) by {
            assert(st.has_room((k - 1) + (n + 1)));
            assert(mid.has_room(n + 1));
        }
    } else {
        assert forall|n: int| 0 <= n && #[trigger] st.has_room(k + n) implies st.has_room(n) by {}
    }
}

pub(crate) proof fn lemma_all_shown(st: Identities, tracks: Seq<Vec<Track>>, k: int)
    requires
        st.wf(),
        st.ids.len() == tracks.len(),
        0 <= k <= tracks.len(),
        st.has_room(track_total(tracks, k)),
    ensures
        ({
            let after = st.all_shown(tracks, k);
            &&& after.wf()
            &&& keeps_ids(st, after)
            &&& knows_up_to(after, tracks, k, 0)
            &&& forall|n: int|
                0 <= n && #[trigger] st.has_room(track_total(tracks, k) + n) ==> after.has_room(n)
        }),
    decreases k,
{
    if k > 0 {
        let len = tracks[k - 1]@.len() as int;
        lemma_track_total(tracks, k - 1, k);
        assert(st.has_room(track_total(tracks, k - 1)));
        lemma_all_shown(st, tracks, k - 1);
        let mid = st.all_shown(tracks, k - 1);
        let after = st.all_shown(tracks, k);
        assert(st.has_room(track_total(tracks, k - 1) + len));
        lemma_camera_shown(mid, k - 1, tracks[k - 1]@, len);
        assert forall|s: int, x: int|
            0 <= s < k && 0 <= x < tracks[s]@.len() implies #[trigger] after.ids[s].contains_key(
            tracks[s]@[x].id,
        ) by {
            if s < k - 1 {
                assert(mid.ids[s].contains_key(tracks[s]@[x].id));
            }
        }
        assert forall|r: int, id: i64|
            0 <= r < st.ids.len() && #[trigger] st.ids[r].contains_key(
                id,
            ) implies after.ids[r].contains_key(id) && after.ids[r][id] == st.ids[r][id] by {
            assert(mid.ids[r].contains_key(id));
        }
        assert forall|n: int|
            0 <= n && #[trigger] st.has_room(track_total(tracks, k) + n) implies after.has_room(
            n,
        ) by {
            assert(st.has_room(track_total(tracks, k - 1) + (len + n)));
            assert(mid.has_room(len + n));
        }
    } else {
        assert forall|n: int|
            0 <= n && #[trigger] st.has_room(track_total(tracks, k) + n) implies st.has_room(n) by {}
    }
}

pub(crate) proof fn lemma_matches_fit(
    scores: Seq<Vec<Vec<Vec<i64>>>>,
    tracks: Seq<Vec<Track>>,
    threshold: int,
    matches: Seq<Seq<Seq<(usize, usize)>>>,
)
    requires
        are_pair_scores(scores, tracks),
        are_pair_matches(scores, tracks, threshold, matches),
    ensures
        all_in_range(tracks, matches),
{
    assert forall|i: int, j: int| 0 <= i < j < tracks.len() implies in_range(
        #[trigger] matches[i][j],
        tracks[i]@.len() as int,
        tracks[j]@.len() as int,
    ) by {
        let entries = crate::association::score_entries(scores[i]@[j]@);
        assert(scores[i]@[j]@.len() == tracks[i]@.len());
        assert(tracks[i].len() == tracks[i]@.len());
        assert(tracks[j].len() == tracks[j]@.len());
        crate::association::lemma_matches_in_range(
            entries,
            tracks[j]@.len() as int,
            threshold,
            matches[i][j],
        );
    }
}

/// After a frame every visible track has a global id, no local id has lost its
/// own, and local ids that were one object still are.
pub proof fn law_frame_keeps_identities(
    before: Identities,
    tracks: Seq<Vec<Track>>,
    scores: Seq<Vec<Vec<Vec<i64>>>>,
    threshold: int,
    after: Identities,
)
    requires
        before.wf(),
        before.ids.len() == tracks.len(),
        before.has_room(track_total(tracks, tracks.len() as int)),
        are_pair_scores(scores, tracks),
        is_frame(before, tracks, scores, threshold, after),
    ensures
        after.wf(),
        after.knows(tracks),
        forall|s: int, id: i64|
            0 <= s < before.ids.len() && #[trigger] before.ids[s].contains_key(id)
                ==> after.ids[s].contains_key(id),
        forall|r: int, x: i64, s: int, y: i64|
            0 <= r < before.ids.len() && 0 <= s < before.ids.len()
                && #[trigger] before.ids[r].contains_key(x) && #[trigger] before.ids[s].contains_key(y)
                && before.ids[r][x] == before.ids[s][y] ==> after.ids[r][x] == after.ids[s][y],
{
    let n = tracks.len() as int;
    let shown = before.all_shown(tracks, n);
    let matches = choose|matches: Seq<Seq<Seq<(usize, usize)>>>| #[trigger]
        are_pair_matches(scores, tracks, threshold, matches) && after == shown.all_merged(
            tracks,
            matches,
            n,
        );
    lemma_all_shown(before, tracks, n);
    lemma_matches_fit(scores, tracks, threshold, matches);
    assert(shown.knows(tracks));
    lemma_all_merged(shown, tracks, matches, n);
    assert forall|s: int, id: i64|
        0 <= s < before.ids.len() && #[trigger] before.ids[s].contains_key(
            id,
        ) implies after.ids[s].contains_key(id) by {
        assert(shown.ids[s].contains_key(id));
    }
    assert forall|r: int, x: i64, s: int, y: i64|
        0 <= r < before.ids.len() && 0 <= s < before.ids.len()
            && #[trigger] before.ids[r].contains_key(x) && #[trigger] before.ids[s].contains_key(y)
            && before.ids[r][x] == before.ids[s][y] implies after.ids[r][x] == after.ids[s][y] by {
        assert(shown.ids[r].contains_key(x) && shown.ids[s].contains_key(y));
    }
}

/// Two tracks of different cameras that are matched in a frame have one global
/// id at its end, so that a third or fourth camera can join an identity already
/// established by an earlier pair.
pub proof fn law_matches_share_identity(
    before: Identities,
    tracks: Seq<Vec<Track>>,
    scores: Seq<Vec<Vec<Vec<i64>>>>,
    threshold: int,
    matches: Seq<Seq<Seq<(usize, usize)>>>,
    i: int,
    j: int,
)
    requires
        before.wf(),
        before.ids.len() == tracks.len(),
        before.has_room(track_total(tracks, tracks.len() as int)),
        are_pair_scores(scores, tracks),
        are_pair_matches(scores, tracks, threshold, matches),
        0 <= i < j < tracks.len(),
    ensures
        matches_share(
            before.all_shown(tracks, tracks.len() as int).all_merged(
                tracks,
                matches,
                tracks.len() as int,
            ),
            i,
            j,
            tracks[i]@,
            tracks[j]@,
            matches[i][j],
            matches[i][j].len() as int,
        ),
{
    let n = tracks.len() as int;
    let shown = before.all_shown(tracks, n);
    lemma_all_shown(before, tracks, n);
    lemma_matches_fit(scores, tracks, threshold, matches);
    assert(shown.knows(tracks));
    lemma_all_merged(shown, tracks, matches, n);
    let m = matches[i][j];
}

/// What an association of the tracks of two cameras matches, in whatever call, has one
/// global id at the end of the frame.
pub proof fn law_associated_tracks_share_identity(
    before: Identities,
    tracks: Seq<Vec<Track>>,
    scores: Seq<Vec<Vec<Vec<i64>>>>,
    threshold: int,
    after: Identities,
    i: int,
    j: int,
    found: Seq<(usize, usize)>,
)
    requires
        before.wf(),
        before.ids.len() == tracks.len(),
        before.has_room(track_total(tracks, tracks.len() as int)),
        are_pair_scores(scores, tracks),
        is_frame(before, tracks, scores, threshold, after),
        0 <= i < j < tracks.len(),
        crate::association::are_matches(
            crate::association::score_entries(scores[i]@[j]@),
            tracks[j]@.len() as int,
            threshold,
            found,
        ),
    ensures
        matches_share(after, i, j, tracks[i]@, tracks[j]@, found, found.len() as int),
{
    let n = tracks.len() as int;
    let matches = choose|matches: Seq<Seq<Seq<(usize, usize)>>>| #[trigger]
        are_pair_matches(scores, tracks, threshold, matches) && after == before.all_shown(
            tracks,
            n,
        ).all_merged(tracks, matches, n);
    law_matches_share_identity(before, tracks, scores, threshold, matches, i, j);
    crate::association::lemma_same_matches(
        crate::association::score_entries(scores[i]@[j]@),
        tracks[j]@.len() as int,
        threshold,
        matches[i][j],
        found,
    );
}

/// With one camera no identities are merged: a local id keeps its global id for
/// good.
pub proof fn law_one_camera_keeps_ids(
    before: Identities,
    tracks: Seq<Vec<Track>>,
    scores: Seq<Vec<Vec<Vec<i64>>>>,
    threshold: int,
    after: Identities,
)
    requires
        before.wf(),
        before.ids.len() == tracks.len() == 1,
        before.has_room(track_total(tracks, 1)),
        is_frame(before, tracks, scores, threshold, after),
    ensures
        after == before.all_shown(tracks, 1),
        keeps_ids(before, after),
{
    let matches = choose|matches: Seq<Seq<Seq<(usize, usize)>>>| #[trigger]
        are_pair_matches(scores, tracks, threshold, matches) && after == before.all_shown(
            tracks,
            1,
        ).all_merged(tracks, matches, 1);
    let shown = before.all_shown(tracks, 1);
    assert(shown.all_merged(tracks, matches, 0) == shown);
    lemma_all_shown(before, tracks, 1);
}

/// Of two matched tracks with different global ids, the one seen for longer
/// keeps its global id, and the other takes it; at equal age the first keeps.
pub proof fn law_older_identity_survives(st: Identities, i: int, a: i64, j: int, b: i64)
    requires
        st.wf(),
        0 <= i < st.ids.len(),
        0 <= j < st.ids.len(),
        st.ids[i].contains_key(a),
        st.ids[j].contains_key(b),
    ensures
        st.ages[i][a] >= st.ages[j][b] ==> st.merged(i, a, j, b).ids[i][a] == st.ids[i][a],
        st.ages[i][a] < st.ages[j][b] ==> st.merged(i, a, j, b).ids[j][b] == st.ids[j][b],
        st.merged(i, a, j, b).ids[i][a] == st.merged(i, a, j, b).ids[j][b],
{
    lemma_merged(st, i, a, j, b);
}

} // verus!
