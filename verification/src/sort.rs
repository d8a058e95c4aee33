//! SORT: Simple Online and Realtime Tracking.
//!
//! The library keeps the life of every tracker: when it starts, which
//! detection it takes, when it is reported and when it ends. What a tracker
//! knows of the motion of its box is a value of the type `F`, which the library
//! carries along with the tracker.

use vstd::prelude::*;

use crate::association::associate_detections_to_trackers;

verus! {

/// A single SORT output track: integer-valued box, local tracker id (1-based)
/// and detection label (class index).
#[derive(Debug, Clone, Copy, PartialEq, Eq, Structural)]
pub struct Track {
    pub x1: i64,
    pub y1: i64,
    pub x2: i64,
    pub y2: i64,
    pub id: i64,
    pub label: i64,
}

/// The box of a tracker: left, top, right and bottom edge.
#[derive(Debug, Clone, Copy, PartialEq, Eq, Structural)]
pub struct BBox {
    pub x1: i64,
    pub y1: i64,
    pub x2: i64,
    pub y2: i64,
}

/// The counter from which trackers take their ids. All `Sort` instances that
/// take from one counter have different ids.
pub struct SharedId {
    next: i64,
}

impl View for SharedId {
    type V = int;

    /// The id that the next tracker takes.
    closed spec fn view(&self) -> int {
        self.next as int
    }
}

/// A counter from which no id was taken yet.
pub fn shared_id() -> (count: SharedId)
    ensures
        count@ == 0,
{
    SharedId { next: 0 }
}

impl SharedId {
    /// How many ids have been taken.
    pub fn taken(&self) -> (n: i64)
        ensures
            n == self@,
    {
        self.next
    }

    /// Takes an id.
    fn take(&mut self) -> (id: i64)
        requires
            old(self)@ < i64::MAX,
        ensures
            id == old(self)@,
            final(self)@ == old(self)@ + 1,
    {
        let id: i64 = self.next;
        self.next = id + 1;
        id
    }
}

/// A tracked object.
pub struct KalmanBoxTracker<F> {
    pub filter: F,
    pub time_since_update: i64,
    pub id: i64,
    pub hits: i64,
    pub hit_streak: i64,
    pub age: i64,
    pub label: i64,
}

impl<F> KalmanBoxTracker<F> {
    /// A tracker that starts with the given filter, label and id.
    pub open spec fn started(filter: F, label: i64, id: int) -> Self {
        KalmanBoxTracker {
            filter,
            time_since_update: 0,
            id: id as i64,
            hits: 0,
            hit_streak: 0,
            age: 0,
            label,
        }
    }

    /// The tracker one frame on: older, and without a streak if the frame
    /// before brought no detection.
    pub open spec fn predicted(self) -> Self {
        KalmanBoxTracker {
            age: (self.age + 1) as i64,
            hit_streak: if self.time_since_update > 0 {
                0
            } else {
                self.hit_streak
            },
            time_since_update: (self.time_since_update + 1) as i64,
            ..self
        }
    }

    /// The tracker with a detection of this frame.
    pub open spec fn updated(self) -> Self {
        KalmanBoxTracker {
            time_since_update: 0,
            hits: (self.hits + 1) as i64,
            hit_streak: (self.hit_streak + 1) as i64,
            ..self
        }
    }

    /// The tracker with another filter.
    pub open spec fn with_filter(self, filter: F) -> Self {
        KalmanBoxTracker { filter, ..self }
    }

    /// The counters are consistent, for a tracker of at most `frames` frames.
    pub open spec fn wf(self, frames: int) -> bool {
        &&& 0 <= self.hit_streak <= self.hits <= self.age <= frames
        &&& 0 <= self.time_since_update <= self.age
        &&& 0 <= self.id < i64::MAX
    }

    /// The tracker has taken no detection since it was last predicted.
    pub open spec fn is_ready(self) -> bool {
        self.hits < self.age
    }

    /// The tracker is reported in frame number `frame`.
    pub open spec fn is_confirmed(self, frame: int, min_hits: int) -> bool {
        self.time_since_update < 1 && (self.hit_streak >= min_hits || frame <= min_hits)
    }

    /// The tracker has gone without a detection for too long.
    pub open spec fn is_dead(self, max_age: int) -> bool {
        self.time_since_update > max_age
    }

    /// What is reported of the tracker while its box is `bbox`; reported ids
    /// start at 1.
    pub open spec fn reported(self, bbox: BBox) -> Track {
        Track {
            x1: bbox.x1,
            y1: bbox.y1,
            x2: bbox.x2,
            y2: bbox.y2,
            id: (self.id + 1) as i64,
            label: self.label,
        }
    }

    /// Starts a tracker, with the next id of the counter.
    pub fn new(filter: F, label: i64, count: &mut SharedId) -> (tracker: Self)
        requires
            old(count)@ < i64::MAX,
        ensures
            tracker == Self::started(filter, label, old(count)@),
            final(count)@ == old(count)@ + 1,
    {
        let id: i64 = count.take();
        KalmanBoxTracker {
            filter,
            time_since_update: 0,
            id,
            hits: 0,
            hit_streak: 0,
            age: 0,
            label,
        }
    }

    /// Counts a frame.
    pub fn predict(&mut self)
        requires
            old(self).age < i64::MAX,
            old(self).time_since_update < i64::MAX,
        ensures
            *final(self) == old(self).predicted(),
    {
        self.age = self.age + 1;
        if self.time_since_update > 0 {
            self.hit_streak = 0;
        }
        self.time_since_update = self.time_since_update + 1;
    }

    /// Counts a detection.
    pub fn update(&mut self)
        requires
            old(self).hits < i64::MAX,
            old(self).hit_streak < i64::MAX,
        ensures
            *final(self) == old(self).updated(),
    {
        self.time_since_update = 0;
        self.hits = self.hits + 1;
        self.hit_streak = self.hit_streak + 1;
    }
}

/// SORT tracker: one tracker per object, associated with the detections of each
/// frame by overlap. A frame takes three calls: `predict`, `update` and
/// `report`.
pub struct Sort<F> {
    max_age: i64,
    min_hits: i64,
    iou_threshold: i64,
    trackers: Vec<KalmanBoxTracker<F>>,
    frame_count: i64,
}

/// The trackers that are not lost, in order.
pub open spec fn without_lost<F>(
    trackers: Seq<KalmanBoxTracker<F>>,
    lost: Seq<bool>,
) -> Seq<KalmanBoxTracker<F>>
    decreases trackers.len(),
{
    if trackers.len() == 0 {
        Seq::empty()
    } else {
        let rest = without_lost(trackers.drop_last(), lost);
        if lost[trackers.len() - 1] {
            rest
        } else {
            rest.push(trackers.last())
        }
    }
}

/// The trackers one frame on.
pub open spec fn all_predicted<F>(trackers: Seq<KalmanBoxTracker<F>>) -> Seq<
    KalmanBoxTracker<F>,
> {
    trackers.map_values(|t: KalmanBoxTracker<F>| t.predicted())
}

/// Some match pairs tracker `t`.
pub open spec fn is_matched(matches: Seq<(usize, usize)>, t: int) -> bool {
    exists|x: int| 0 <= x < matches.len() && (#[trigger] matches[x]).1 == t
}

/// The trackers after the matched ones took their detections.
pub open spec fn with_matches<F>(
    trackers: Seq<KalmanBoxTracker<F>>,
    matches: Seq<(usize, usize)>,
) -> Seq<KalmanBoxTracker<F>> {
    Seq::new(
        trackers.len(),
        |t: int|
            if is_matched(matches, t) {
                trackers[t].updated()
            } else {
                trackers[t]
            },
    )
}

/// The label of detection `d`: 0 where none is given.
pub open spec fn label_of(labels: Seq<i64>, d: int) -> i64 {
    if 0 <= d < labels.len() {
        labels[d]
    } else {
        0
    }
}

/// The trackers that start for the detections `dets`, with ids from `first` up.
pub open spec fn newcomers<F>(
    fresh: Seq<F>,
    labels: Seq<i64>,
    dets: Seq<usize>,
    first: int,
) -> Seq<KalmanBoxTracker<F>> {
    Seq::new(
        dets.len(),
        |k: int|
            KalmanBoxTracker::started(
                fresh[dets[k] as int],
                label_of(labels, dets[k] as int),
                first + k,
            ),
    )
}

/// The reports of the trackers from number `k` up, the last tracker first.
pub open spec fn reports_from<F>(
    trackers: Seq<KalmanBoxTracker<F>>,
    boxes: Seq<BBox>,
    frame: int,
    min_hits: int,
    k: int,
) -> Seq<Track>
    decreases trackers.len() - k,
{
    if k >= trackers.len() {
        Seq::empty()
    } else {
        let later = reports_from(trackers, boxes, frame, min_hits, k + 1);
        if trackers[k].is_confirmed(frame, min_hits) {
            later.push(trackers[k].reported(boxes[k]))
        } else {
            later
        }
    }
}

/// The trackers that have not gone without a detection for too long.
pub open spec fn alive<F>(trackers: Seq<KalmanBoxTracker<F>>, max_age: int) -> Seq<
    KalmanBoxTracker<F>,
> {
    trackers.filter(|t: KalmanBoxTracker<F>| !t.is_dead(max_age))
}

impl<F> Sort<F> {
    /// The trackers, oldest first.
    pub closed spec fn trackers(&self) -> Seq<KalmanBoxTracker<F>> {
        self.trackers@
    }

    pub closed spec fn max_age(&self) -> int {
        self.max_age as int
    }

    pub closed spec fn min_hits(&self) -> int {
        self.min_hits as int
    }

    /// The score below which a match is dropped.
    pub closed spec fn iou_threshold(&self) -> int {
        self.iou_threshold as int
    }

    /// The number of frames so far.
    pub closed spec fn frame_count(&self) -> int {
        self.frame_count as int
    }

    /// The counters are consistent, and the ids ascend.
    pub open spec fn wf(&self) -> bool {
        &&& 0 <= self.frame_count() <= i64::MAX
        &&& forall|t: int|
            0 <= t < self.trackers().len() ==> (#[trigger] self.trackers()[t]).wf(
                self.frame_count(),
            )
        &&& forall|t: int, u: int|
            0 <= t < u < self.trackers().len() ==> (#[trigger] self.trackers()[t]).id < (
            #[trigger] self.trackers()[u]).id
    }

    /// No tracker has taken a detection since it was last predicted.
    pub open spec fn is_ready(&self) -> bool {
        forall|t: int|
            0 <= t < self.trackers().len() ==> (#[trigger] self.trackers()[t]).is_ready()
    }

    /// Every id is below `next`.
    pub open spec fn ids_below(&self, next: int) -> bool {
        forall|t: int| 0 <= t < self.trackers().len() ==> (#[trigger] self.trackers()[t]).id < next
    }

    /// The settings are those of `other`.
    pub open spec fn same_settings(&self, other: &Self) -> bool {
        &&& self.max_age() == other.max_age()
        &&& self.min_hits() == other.min_hits()
        &&& self.iou_threshold() == other.iou_threshold()
    }

    /// A tracker of objects that has seen no frame.
    pub fn new(max_age: i64, min_hits: i64, iou_threshold: i64) -> (sort: Self)
        ensures
            sort.wf(),
            sort.trackers() == Seq::<KalmanBoxTracker<F>>::empty(),
            sort.frame_count() == 0,
            sort.max_age() == max_age,
            sort.min_hits() == min_hits,
            sort.iou_threshold() == iou_threshold,
    {
        Sort { max_age, min_hits, iou_threshold, trackers: Vec::new(), frame_count: 0 }
    }

    /// How many objects are tracked.
    pub fn len(&self) -> (n: usize)
        ensures
            n == self.trackers().len(),
    {
        self.trackers.len()
    }

    /// The filter of tracker `t`.
    pub fn filter(&self, t: usize) -> (filter: &F)
        requires
            t < self.trackers().len(),
        ensures
            *filter == self.trackers()[t as int].filter,
    {
        &self.trackers[t].filter
    }

    /// The filter of tracker `t`, to be changed.
    pub fn filter_mut(&mut self, t: usize) -> (filter: &mut F)
        requires
            t < old(self).trackers().len(),
        ensures
            *filter == old(self).trackers()[t as int].filter,
            final(self).trackers() == old(self).trackers().update(
                t as int,
                old(self).trackers()[t as int].with_filter(*final(filter)),
            ),
            final(self).same_settings(old(self)),
            final(self).frame_count() == old(self).frame_count(),
    {
        &mut self.trackers[t].filter
    }

    /// Starts a frame: every tracker is one frame older, and those whose
    /// prediction is lost go.
    pub fn predict(&mut self, lost: &[bool])
        requires
            old(self).wf(),
            old(self).frame_count() < i64::MAX,
            lost@.len() == old(self).trackers().len(),
        ensures
            final(self).wf(),
            final(self).is_ready(),
            final(self).trackers() == without_lost(all_predicted(old(self).trackers()), lost@),
            final(self).frame_count() == old(self).frame_count() + 1,
            final(self).same_settings(old(self)),
            forall|next: int| #[trigger]
                old(self).ids_below(next) ==> final(self).ids_below(next),
    {
        let ghost before = self.trackers@;
        let n: usize = self.trackers.len();
        self.frame_count = self.frame_count + 1;
        let mut i: usize = 0;
        while i < n
            invariant
                n == before.len(),
                0 <= i <= n,
                self.trackers@.len() == n,
                before == old(self).trackers@,
                old(self).wf(),
                old(self).frame_count() < i64::MAX,
                self.frame_count == old(self).frame_count + 1,
                self.same_settings(old(self)),
                forall|t: int|
                    0 <= t < n ==> #[trigger] self.trackers@[t] == if t < i {
                        before[t].predicted()
                    } else {
                        before[t]
                    },
            decreases n - i,
        {
            assert(old(self).trackers()[i as int].wf(old(self).frame_count()));
            self.trackers[i].predict();
            i = i + 1;
        }
        let ghost aged = self.trackers@;
        proof {
            assert(aged =~= all_predicted(before));
            assert forall|t: int| 0 <= t < n implies {
                &&& (#[trigger] aged[t]).wf(self.frame_count())
                &&& aged[t].is_ready()
                &&& aged[t].id == before[t].id
            } by {
                assert(old(self).trackers()[t].wf(old(self).frame_count()));
            }
            assert forall|t: int, u: int| 0 <= t < u < n implies (#[trigger] aged[t]).id < (
            #[trigger] aged[u]).id by {
                let a = old(self).trackers()[t];
                let b = old(self).trackers()[u];
            }
            assert(aged.skip(n as int) =~= Seq::empty());
            assert(aged.take(n as int) + without_lost_from(aged, lost@, n as int) =~= aged);
        }
        let mut k: usize = n;
        while k > 0
            invariant
                0 <= k <= n,
                n == aged.len(),
                lost@.len() == n,
                self.trackers@ == aged.take(k as int) + without_lost_from(aged, lost@, k as int),
                self.frame_count == old(self).frame_count + 1,
                self.same_settings(old(self)),
            decreases k,
        {
            k = k - 1;
            if lost[k] {
                self.trackers.remove(k);
            }
            assert(self.trackers@ =~= aged.take(k as int) + without_lost_from(
                aged,
                lost@,
                k as int,
            ));
        }
        proof {
            lemma_without_lost_split(aged, lost@, 0);
            lemma_without_lost_keeps(aged, lost@);
            let kept = without_lost(aged, lost@);
            assert(self.trackers@ =~= kept);
            assert forall|t: int| 0 <= t < kept.len() implies (#[trigger] kept[t]).wf(
                self.frame_count(),
            ) && kept[t].is_ready() by {
                assert(kept_from(aged, kept, t));
            }
            assert forall|t: int, u: int| 0 <= t < u < kept.len() implies (#[trigger] kept[t]).id < (
            #[trigger] kept[u]).id by {
                assert(kept_from(aged, kept, t));
            }
            assert forall|next: int| #[trigger] old(self).ids_below(next) implies self.ids_below(
                next,
            ) by {
                assert forall|t: int| 0 <= t < kept.len() implies (#[trigger] kept[t]).id < next by {
                    assert(kept_from(aged, kept, t));
                    let s = choose|s: int| 0 <= s < aged.len() && #[trigger] aged[s] == kept[t];
                    assert(old(self).trackers()[s].id < next);
                }
            }
        }
    }
}

impl<F> Sort<F> {
    /// Takes the detections of the frame: row `d` of `scores` holds the scores
    /// of detection `d` against the trackers, `labels` its label and `fresh`
    /// the filter with which a tracker for it starts. Matched trackers count a
    /// detection, the other detections start trackers. Returns the matches as
    /// (detection, tracker) and the detections that started trackers.
    pub fn update(
        &mut self,
        scores: &[Vec<i64>],
        labels: &[i64],
        fresh: Vec<F>,
        count: &mut SharedId,
    ) -> (r: (Vec<(usize, usize)>, Vec<usize>))
        requires
            old(self).wf(),
            old(self).is_ready(),
            crate::association::is_score_matrix(scores@, old(self).trackers().len() as int),
            scores@.len() < usize::MAX,
            old(self).trackers().len() < usize::MAX,
            fresh@.len() == scores@.len(),
            old(self).ids_below(old(count)@),
            0 <= old(count)@,
            old(count)@ + scores@.len() <= i64::MAX,
        ensures
            final(self).wf(),
            final(self).same_settings(old(self)),
            final(self).frame_count() == old(self).frame_count(),
            crate::association::is_matching(
                crate::association::score_entries(scores@),
                old(self).trackers().len() as int,
                old(self).iou_threshold(),
                r.0@,
                r.1@,
            ),
            final(self).trackers() == with_matches(old(self).trackers(), r.0@) + newcomers(
                fresh@,
                labels@,
                r.1@,
                old(count)@,
            ),
            final(count)@ == old(count)@ + r.1@.len(),
            final(count)@ <= i64::MAX,
            final(self).ids_below(final(count)@),
    {
        let ghost before = self.trackers@;
        let ghost first = count@;
        let n: usize = self.trackers.len();
        let (matches, starts, others) = associate_detections_to_trackers(
            scores,
            n,
            self.iou_threshold,
        );
        proof {
            assert(crate::association::is_association(
                crate::association::score_entries(scores@),
                old(self).trackers().len() as int,
                old(self).iou_threshold(),
                matches@,
                starts@,
                others@,
            ));
            assert(crate::association::is_matching(
                crate::association::score_entries(scores@),
                old(self).trackers().len() as int,
                old(self).iou_threshold(),
                matches@,
                starts@,
            ));
            crate::association::law_association_accounts_for_all(
                crate::association::score_entries(scores@),
                n as int,
                self.iou_threshold as int,
                matches@,
                starts@,
                others@,
            );
            crate::association::lemma_accounted(matches@, starts@, others@, scores@.len() as int, n as int);
        }
        let mut k: usize = 0;
        while k < matches.len()
            invariant
                0 <= k <= matches@.len(),
                n == before.len(),
                before == old(self).trackers@,
                old(self).wf(),
                old(self).is_ready(),
                self.trackers@.len() == n,
                self.same_settings(old(self)),
                self.frame_count == old(self).frame_count,
                forall|x: int| 0 <= x < matches@.len() ==> (#[trigger] matches@[x]).1 < n,
                forall|x: int, y: int|
                    0 <= x < y < matches@.len() ==> (#[trigger] matches@[x]).1 != (
                    #[trigger] matches@[y]).1,
                forall|t: int|
                    0 <= t < n ==> #[trigger] self.trackers@[t] == if is_matched(
                        matches@.take(k as int),
                        t,
                    ) {
                        before[t].updated()
                    } else {
                        before[t]
                    },
            decreases matches@.len() - k,
        {
            let t: usize = matches[k].1;
            let ghost now = self.trackers@;
            proof {
                assert(old(self).trackers()[t as int].wf(old(self).frame_count()));
                assert(old(self).trackers()[t as int].is_ready());
                assert(!is_matched(matches@.take(k as int), t as int));
            }
            self.trackers[t].update();
            proof {
                assert forall|u: int| 0 <= u < n implies #[trigger] self.trackers@[u] == if is_matched(
                    matches@.take(k + 1),
                    u,
                ) {
                    before[u].updated()
                } else {
                    before[u]
                } by {
                    assert(now[u] == if is_matched(matches@.take(k as int), u) {
                        before[u].updated()
                    } else {
                        before[u]
                    });
                    if is_matched(matches@.take(k as int), u) {
                        let x = choose|x: int|
                            0 <= x < k && (#[trigger] matches@.take(k as int)[x]).1 == u;
                        assert(matches@.take(k + 1)[x].1 == u);
                    }
                    assert(matches@.take(k + 1)[k as int].1 == t);
                    if is_matched(matches@.take(k + 1), u) && u != t {
                        let x = choose|x: int|
                            0 <= x < k + 1 && (#[trigger] matches@.take(k + 1)[x]).1 == u;
                        assert(matches@.take(k as int)[x].1 == u);
                    }
                }
            }
            k = k + 1;
        }
        proof {
            assert(matches@.take(matches@.len() as int) =~= matches@);
            assert(self.trackers@ =~= with_matches(before, matches@));
        }
        let ghost touched = self.trackers@;
        let mut slots: Vec<Option<F>> = Vec::new();
        for f in it: fresh
            invariant
                slots@.len() == it.index(),
                forall|x: int| 0 <= x < it.index() ==> #[trigger] slots@[x] == Some(it.seq()[x]),
        {
            slots.push(Some(f));
        }
        let mut j: usize = 0;
        while j < starts.len()
            invariant
                0 <= j <= starts@.len(),
                slots@.len() == fresh@.len() == scores@.len(),
                self.same_settings(old(self)),
                self.frame_count == old(self).frame_count,
                0 <= first,
                first + scores@.len() <= i64::MAX,
                starts@.len() <= scores@.len(),
                count@ == first + j,
                forall|x: int| 0 <= x < starts@.len() ==> #[trigger] starts@[x] < scores@.len(),
                starts@.no_duplicates(),
                forall|x: int|
                    j <= x < starts@.len() ==> slots@[#[trigger] starts@[x] as int] == Some(
                        fresh@[starts@[x] as int],
                    ),
                self.trackers@ == touched + newcomers(
                    fresh@,
                    labels@,
                    starts@,
                    first,
                ).take(j as int),
            decreases starts@.len() - j,
        {
            let d: usize = starts[j];
            let label: i64 = if d < labels.len() {
                labels[d]
            } else {
                0
            };
            let slot: Option<F> = slots[d].take();
            if let Some(filter) = slot {
                let tracker: KalmanBoxTracker<F> = KalmanBoxTracker::new(filter, label, count);
                self.trackers.push(tracker);
            }
            proof {
                let all = newcomers(fresh@, labels@, starts@, first);
                assert(all.take(j + 1) =~= all.take(j as int).push(all[j as int]));
                assert(self.trackers@ =~= touched + all.take(j + 1));
            }
            j = j + 1;
        }
        proof {
            let all = newcomers(fresh@, labels@, starts@, first);
            assert(all.take(starts@.len() as int) =~= all);
            let now = self.trackers@;
            assert forall|t: int| 0 <= t < now.len() implies {
                &&& (#[trigger] now[t]).wf(self.frame_count())
                &&& now[t].id < count@
                &&& t >= n ==> now[t].id == first + (t - n)
                &&& t < n ==> now[t].id == before[t].id
            } by {
                if t < n {
                    assert(now[t] == touched[t]);
                    assert(old(self).trackers()[t].wf(old(self).frame_count()));
                    assert(old(self).trackers()[t].is_ready());
                    assert(old(self).trackers()[t].id < first);
                } else {
                    assert(now[t] == all[t - n]);
                }
            }
            assert forall|t: int, u: int| 0 <= t < u < now.len() implies (#[trigger] now[t]).id < (
            #[trigger] now[u]).id by {
                if u < n {
                    assert(old(self).trackers()[t].id < old(self).trackers()[u].id);
                } else if t < n {
                    assert(old(self).trackers()[t].id < first);
                }
            }
        }
        (matches, starts)
    }
}

impl<F> Sort<F> {
    /// Ends a frame: returns the confirmed tracks, the last tracker first, and
    /// removes the trackers that have gone without a detection for too long.
    /// `boxes` holds the box of each tracker.
    pub fn report(&mut self, boxes: &[BBox]) -> (tracks: Vec<Track>)
        requires
            old(self).wf(),
            boxes@.len() == old(self).trackers().len(),
        ensures
            final(self).wf(),
            tracks@ == reports_from(
                old(self).trackers(),
                boxes@,
                old(self).frame_count(),
                old(self).min_hits(),
                0,
            ),
            final(self).trackers() == alive(old(self).trackers(), old(self).max_age()),
            final(self).frame_count() == old(self).frame_count(),
            final(self).same_settings(old(self)),
            forall|next: int| #[trigger]
                old(self).ids_below(next) ==> final(self).ids_below(next),
    {
        let ghost before = self.trackers@;
        let ghost max_age = self.max_age as int;
        let n: usize = self.trackers.len();
        let mut tracks: Vec<Track> = Vec::new();
        let mut k: usize = n;
        proof {
            assert(before.skip(n as int) =~= Seq::empty());
            reveal(Seq::filter);
            assert(self.trackers@ =~= before.take(n as int) + alive(before.skip(n as int), max_age));
        }
        while k > 0
            invariant
                0 <= k <= n,
                n == before.len(),
                boxes@.len() == n,
                before == old(self).trackers@,
                old(self).wf(),
                max_age == self.max_age,
                self.same_settings(old(self)),
                self.frame_count == old(self).frame_count,
                self.trackers@ == before.take(k as int) + alive(before.skip(k as int), max_age),
                tracks@ == reports_from(
                    before,
                    boxes@,
                    old(self).frame_count(),
                    old(self).min_hits(),
                    k as int,
                ),
            decreases k,
        {
            k = k - 1;
            assert(self.trackers@[k as int] == before[k as int]);
            assert(old(self).trackers()[k as int].wf(old(self).frame_count()));
            let since: i64 = self.trackers[k].time_since_update;
            if since < 1 && (self.trackers[k].hit_streak >= self.min_hits || self.frame_count
                <= self.min_hits) {
                let d: BBox = boxes[k];
                tracks.push(
                    Track {
                        x1: d.x1,
                        y1: d.y1,
                        x2: d.x2,
                        y2: d.y2,
                        id: self.trackers[k].id + 1,
                        label: self.trackers[k].label,
                    },
                );
            }
            if since > self.max_age {
                self.trackers.remove(k);
            }
            proof {
                lemma_alive_step(before, k as int, max_age);
                assert(self.trackers@ =~= before.take(k as int) + alive(
                    before.skip(k as int),
                    max_age,
                ));
            }
        }
        proof {
            assert(before.skip(0) =~= before);
            let kept = alive(before, max_age);
            assert(self.trackers@ =~= kept);
            lemma_alive_keeps(before, max_age);
            assert forall|t: int| 0 <= t < kept.len() implies (#[trigger] kept[t]).wf(
                self.frame_count(),
            ) by {
                assert(kept_from(before, kept, t));
                let s = choose|s: int| 0 <= s < before.len() && #[trigger] before[s] == kept[t];
                assert(old(self).trackers()[s].wf(old(self).frame_count()));
            }
            assert forall|t: int, u: int| 0 <= t < u < kept.len() implies (#[trigger] kept[t]).id < (
            #[trigger] kept[u]).id by {
                assert(forall|a: int, b: int|
                    0 <= a < b < old(self).trackers().len() ==> (#[trigger] old(
                        self,
                    ).trackers()[a]).id < (#[trigger] old(self).trackers()[b]).id);
            }
            assert forall|next: int| #[trigger] old(self).ids_below(next) implies self.ids_below(
                next,
            ) by {
                assert forall|t: int| 0 <= t < kept.len() implies (#[trigger] kept[t]).id < next by {
                    assert(kept_from(before, kept, t));
                    let s = choose|s: int| 0 <= s < before.len() && #[trigger] before[s] == kept[t];
                    assert(old(self).trackers()[s].id < next);
                }
            }
        }
        tracks
    }
}

proof fn lemma_alive_step<F>(trackers: Seq<KalmanBoxTracker<F>>, k: int, max_age: int)
    requires
        0 <= k < trackers.len(),
    ensures
        alive(trackers.skip(k), max_age) == (if trackers[k].is_dead(max_age) {
            Seq::empty()
        } else {
            seq![trackers[k]]
        }) + alive(trackers.skip(k + 1), max_age),
{
    let one = seq![trackers[k]];
    let pred = |t: KalmanBoxTracker<F>| !t.is_dead(max_age);
    assert(trackers.skip(k) =~= one + trackers.skip(k + 1));
    Seq::filter_distributes_over_add(one, trackers.skip(k + 1), pred);
    assert(one.filter(pred) =~= if trackers[k].is_dead(max_age) {
        Seq::empty()
    } else {
        one
    }) by {
        reveal_with_fuel(Seq::filter, 2);
        assert(one.drop_last() =~= Seq::empty());
        assert(pred(one.last()) == !trackers[k].is_dead(max_age));
    }
}

/// The trackers that stay were there before, in the same order.
pub(crate) proof fn lemma_alive_keeps<F>(trackers: Seq<KalmanBoxTracker<F>>, max_age: int)
    ensures
        forall|t: int|
            0 <= t < alive(trackers, max_age).len() ==> kept_from(
                trackers,
                alive(trackers, max_age),
                t,
            ),
        (forall|t: int, u: int|
            0 <= t < u < trackers.len() ==> (#[trigger] trackers[t]).id < (
            #[trigger] trackers[u]).id) ==> (forall|t: int, u: int|
            0 <= t < u < alive(trackers, max_age).len() ==> (#[trigger] alive(
                trackers,
                max_age,
            )[t]).id < (#[trigger] alive(trackers, max_age)[u]).id),
    decreases trackers.len(),
{
    reveal(Seq::filter);
    if trackers.len() > 0 {
        let front = trackers.drop_last();
        lemma_alive_keeps(front, max_age);
        let rest = alive(front, max_age);
        let kept = alive(trackers, max_age);
        assert forall|t: int| 0 <= t < kept.len() implies kept_from(trackers, kept, t) by {
            if t < rest.len() {
                assert(kept_from(front, rest, t));
                let s = choose|s: int| 0 <= s < front.len() && #[trigger] front[s] == rest[t];
                assert(trackers[s] == kept[t]);
            } else {
                assert(trackers[trackers.len() - 1] == kept[t]);
            }
        }
        if forall|t: int, u: int|
            0 <= t < u < trackers.len() ==> (#[trigger] trackers[t]).id < (
            #[trigger] trackers[u]).id {
            assert forall|t: int, u: int| 0 <= t < u < kept.len() implies (#[trigger] kept[t]).id < (
            #[trigger] kept[u]).id by {
                assert(forall|a: int, b: int|
                    0 <= a < b < front.len() ==> (#[trigger] front[a]).id < (
                    #[trigger] front[b]).id);
                if u < rest.len() {
                    assert(rest[t].id < rest[u].id);
                } else {
                    assert(kept_from(front, rest, t));
                    let s = choose|s: int| 0 <= s < front.len() && #[trigger] front[s] == rest[t];
                    assert(trackers[s].id < trackers[trackers.len() - 1].id);
                }
            }
        }
    }
}

/// Tracker `t` of `kept` is one of `all`.
pub(crate) open spec fn kept_from<F>(
    all: Seq<KalmanBoxTracker<F>>,
    kept: Seq<KalmanBoxTracker<F>>,
    t: int,
) -> bool {
    exists|s: int| 0 <= s < all.len() && #[trigger] all[s] == kept[t]
}

/// The trackers from number `k` up that are not lost, in order.
spec fn without_lost_from<F>(
    trackers: Seq<KalmanBoxTracker<F>>,
    lost: Seq<bool>,
    k: int,
) -> Seq<KalmanBoxTracker<F>>
    decreases trackers.len() - k,
{
    if k >= trackers.len() {
        Seq::empty()
    } else if lost[k] {
        without_lost_from(trackers, lost, k + 1)
    } else {
        seq![trackers[k]] + without_lost_from(trackers, lost, k + 1)
    }
}

proof fn lemma_without_lost_split<F>(trackers: Seq<KalmanBoxTracker<F>>, lost: Seq<bool>, k: int)
    requires
        0 <= k <= trackers.len(),
    ensures
        without_lost(trackers, lost) == without_lost(trackers.take(k), lost) + without_lost_from(
            trackers,
            lost,
            k,
        ),
    decreases trackers.len() - k,
{
    if k == trackers.len() {
        assert(trackers.take(k) =~= trackers);
        assert(without_lost_from(trackers, lost, k) =~= Seq::empty());
    } else {
        lemma_without_lost_split(trackers, lost, k + 1);
        assert(trackers.take(k + 1).drop_last() =~= trackers.take(k));
        assert(without_lost(trackers.take(k + 1), lost) + without_lost_from(trackers, lost, k + 1)
            =~= without_lost(trackers.take(k), lost) + without_lost_from(trackers, lost, k));
    }
}

/// What is left without the lost trackers was there before, in the same order.
pub(crate) proof fn lemma_without_lost_keeps<F>(trackers: Seq<KalmanBoxTracker<F>>, lost: Seq<bool>)
    ensures
        without_lost(trackers, lost).len() <= trackers.len(),
        forall|t: int|
            0 <= t < without_lost(trackers, lost).len() ==> kept_from(
                trackers,
                without_lost(trackers, lost),
                t,
            ),
        (forall|t: int, u: int|
            0 <= t < u < trackers.len() ==> (#[trigger] trackers[t]).id < (
            #[trigger] trackers[u]).id) ==> (forall|t: int, u: int|
            0 <= t < u < without_lost(trackers, lost).len() ==> (#[trigger] without_lost(
                trackers,
                lost,
            )[t]).id < (#[trigger] without_lost(trackers, lost)[u]).id),
    decreases trackers.len(),
{
    if trackers.len() > 0 {
        let front = trackers.drop_last();
        lemma_without_lost_keeps(front, lost);
        let rest = without_lost(front, lost);
        let kept = without_lost(trackers, lost);
        assert forall|t: int| 0 <= t < kept.len() implies kept_from(trackers, kept, t) by {
            if t < rest.len() {
                assert(kept_from(front, rest, t));
                let s = choose|s: int| 0 <= s < front.len() && #[trigger] front[s] == rest[t];
                assert(trackers[s] == kept[t]);
            } else {
                assert(trackers[trackers.len() - 1] == kept[t]);
            }
        }
        if forall|t: int, u: int|
            0 <= t < u < trackers.len() ==> (#[trigger] trackers[t]).id < (
            #[trigger] trackers[u]).id {
            assert forall|t: int, u: int| 0 <= t < u < kept.len() implies (#[trigger] kept[t]).id < (
            #[trigger] kept[u]).id by {
                assert(forall|a: int, b: int|
                    0 <= a < b < front.len() ==> (#[trigger] front[a]).id < (
                    #[trigger] front[b]).id);
                if u < rest.len() {
                    assert(rest[t].id < rest[u].id);
                } else {
                    assert(kept_from(front, rest, t));
                    let s = choose|s: int| 0 <= s < front.len() && #[trigger] front[s] == rest[t];
                    assert(trackers[s].id < trackers[trackers.len() - 1].id);
                }
            }
        }
    }
}

/// No tracker of `a` has the id of a tracker of `b`.
pub open spec fn ids_apart<F>(
    a: Seq<KalmanBoxTracker<F>>,
    b: Seq<KalmanBoxTracker<F>>,
) -> bool {
    forall|t: int, u: int|
        0 <= t < a.len() && 0 <= u < b.len() ==> (#[trigger] a[t]).id != (#[trigger] b[u]).id
}

/// Tracker ids are unique across all instances that take from one counter: an
/// update gives no tracker an id that another instance has.
pub proof fn law_ids_stay_apart<F>(
    mine: Seq<KalmanBoxTracker<F>>,
    theirs: Seq<KalmanBoxTracker<F>>,
    matches: Seq<(usize, usize)>,
    fresh: Seq<F>,
    labels: Seq<i64>,
    starts: Seq<usize>,
    next: int,
)
    requires
        ids_apart(mine, theirs),
        forall|u: int| 0 <= u < theirs.len() ==> (#[trigger] theirs[u]).id < next,
        0 <= next,
        next + starts.len() <= i64::MAX,
    ensures
        ids_apart(
            with_matches(mine, matches) + newcomers(fresh, labels, starts, next),
            theirs,
        ),
{
    let now = with_matches(mine, matches) + newcomers(fresh, labels, starts, next);
    assert forall|t: int, u: int| 0 <= t < now.len() && 0 <= u < theirs.len() implies (
    #[trigger] now[t]).id != (#[trigger] theirs[u]).id by {
        if t < mine.len() {
            assert(now[t].id == mine[t].id);
        } else {
            assert(now[t] == newcomers(fresh, labels, starts, next)[t - mine.len()]);
        }
    }
}

/// The start of a frame gives no tracker an id that another instance has.
pub proof fn law_ids_stay_apart_when_predicted<F>(
    mine: Seq<KalmanBoxTracker<F>>,
    theirs: Seq<KalmanBoxTracker<F>>,
    lost: Seq<bool>,
)
    requires
        ids_apart(mine, theirs),
    ensures
        ids_apart(without_lost(all_predicted(mine), lost), theirs),
{
    let aged = all_predicted(mine);
    let now = without_lost(aged, lost);
    lemma_without_lost_keeps(aged, lost);
    assert forall|t: int, u: int| 0 <= t < now.len() && 0 <= u < theirs.len() implies (
    #[trigger] now[t]).id != (#[trigger] theirs[u]).id by {
        assert(kept_from(aged, now, t));
        let s = choose|s: int| 0 <= s < aged.len() && #[trigger] aged[s] == now[t];
        assert(mine[s].id != theirs[u].id);
    }
}

/// The end of a frame gives no tracker an id that another instance has.
pub proof fn law_ids_stay_apart_when_reported<F>(
    mine: Seq<KalmanBoxTracker<F>>,
    theirs: Seq<KalmanBoxTracker<F>>,
    max_age: int,
)
    requires
        ids_apart(mine, theirs),
    ensures
        ids_apart(alive(mine, max_age), theirs),
{
    let now = alive(mine, max_age);
    lemma_alive_keeps(mine, max_age);
    assert forall|t: int, u: int| 0 <= t < now.len() && 0 <= u < theirs.len() implies (
    #[trigger] now[t]).id != (#[trigger] theirs[u]).id by {
        assert(kept_from(mine, now, t));
        let s = choose|s: int| 0 <= s < mine.len() && #[trigger] mine[s] == now[t];
        assert(mine[s].id != theirs[u].id);
    }
}

/// The tracker after `k` frames without a detection.
pub open spec fn unseen<F>(tracker: KalmanBoxTracker<F>, k: int) -> KalmanBoxTracker<F>
    decreases k,
{
    if k <= 0 {
        tracker
    } else {
        unseen(tracker, k - 1).predicted()
    }
}

/// A tracker that takes no detection keeps its id, label and filter, is never
/// reported, and is removed in the first frame in which the frames without a
/// detection exceed the maximum age.
pub proof fn law_unseen_tracker_ages<F>(tracker: KalmanBoxTracker<F>, k: int, max_age: int)
    requires
        0 <= k,
        0 <= tracker.time_since_update,
        tracker.time_since_update + k <= i64::MAX,
        0 <= tracker.age,
        tracker.age + k <= i64::MAX,
    ensures
        unseen(tracker, k).time_since_update == tracker.time_since_update + k,
        unseen(tracker, k).age == tracker.age + k,
        unseen(tracker, k).id == tracker.id,
        unseen(tracker, k).label == tracker.label,
        unseen(tracker, k).filter == tracker.filter,
        unseen(tracker, k).hits == tracker.hits,
        unseen(tracker, k).is_dead(max_age) <==> tracker.time_since_update + k > max_age,
        k > 0 ==> forall|frame: int, min_hits: int|
            !#[trigger] unseen(tracker, k).is_confirmed(frame, min_hits),
        k > 1 ==> unseen(tracker, k).hit_streak == 0,
    decreases k,
{
    if k > 0 {
        law_unseen_tracker_ages(tracker, k - 1, max_age);
    }
}

/// The tracker after `k` frames with a detection each.
pub open spec fn seen<F>(tracker: KalmanBoxTracker<F>, k: int) -> KalmanBoxTracker<F>
    decreases k,
{
    if k <= 0 {
        tracker
    } else {
        seen(tracker, k - 1).predicted().updated()
    }
}

/// A tracker that takes a detection in every frame is reported from the frame
/// on in which its streak reaches the minimum number of hits.
pub proof fn law_seen_tracker_is_confirmed<F>(tracker: KalmanBoxTracker<F>, k: int)
    requires
        0 <= k,
        tracker.time_since_update == 0,
        0 <= tracker.hit_streak,
        tracker.hit_streak + k <= i64::MAX,
    ensures
        seen(tracker, k).hit_streak == tracker.hit_streak + k,
        seen(tracker, k).time_since_update == 0,
        seen(tracker, k).id == tracker.id,
        forall|frame: int, min_hits: int|
            #[trigger] seen(tracker, k).is_confirmed(frame, min_hits) <==> tracker.hit_streak + k
                >= min_hits || frame <= min_hits,
    decreases k,
{
    if k > 0 {
        law_seen_tracker_is_confirmed(tracker, k - 1);
    }
}

/// Reported ids are positive and no two are equal.
pub proof fn law_reported_ids_are_distinct<F>(
    trackers: Seq<KalmanBoxTracker<F>>,
    boxes: Seq<BBox>,
    frame: int,
    min_hits: int,
    k: int,
)
    requires
        0 <= k <= trackers.len(),
        forall|t: int| 0 <= t < trackers.len() ==> 0 <= (#[trigger] trackers[t]).id < i64::MAX,
        forall|t: int, u: int|
            0 <= t < u < trackers.len() ==> (#[trigger] trackers[t]).id < (
            #[trigger] trackers[u]).id,
    ensures
        forall|x: int|
            0 <= x < reports_from(trackers, boxes, frame, min_hits, k).len() ==> 1 <= (
            #[trigger] reports_from(trackers, boxes, frame, min_hits, k)[x]).id,
        forall|x: int|
            0 <= x < reports_from(trackers, boxes, frame, min_hits, k).len() && k < trackers.len()
                ==> (#[trigger] reports_from(trackers, boxes, frame, min_hits, k)[x]).id
                > trackers[k].id,
        forall|x: int, y: int|
            0 <= x < y < reports_from(trackers, boxes, frame, min_hits, k).len() ==> (
            #[trigger] reports_from(trackers, boxes, frame, min_hits, k)[x]).id > (
            #[trigger] reports_from(trackers, boxes, frame, min_hits, k)[y]).id,
    decreases trackers.len() - k,
{
    if k < trackers.len() {
        law_reported_ids_are_distinct(trackers, boxes, frame, min_hits, k + 1);
        let later = reports_from(trackers, boxes, frame, min_hits, k + 1);
        let all = reports_from(trackers, boxes, frame, min_hits, k);
        if k + 1 < trackers.len() {
            assert(trackers[k].id < trackers[k + 1].id);
        } else {
            assert(later.len() == 0);
        }
        assert forall|x: int| 0 <= x < all.len() implies (#[trigger] all[x]).id > trackers[k].id by {
            if x < later.len() {
                assert(all[x] == later[x]);
            }
        }
        assert forall|x: int, y: int| 0 <= x < y < all.len() implies (#[trigger] all[x]).id > (
        #[trigger] all[y]).id by {
            assert(all[x] == later[x]);
            if y < later.len() {
                assert(all[y] == later[y]);
            } else {
                assert(later[x].id > trackers[k + 1].id);
            }
        }
    }
}

/// Instances that take from one counter report different ids. Each may be in a frame
/// of its own and have settings of its own.
pub proof fn law_reported_ids_stay_apart<F>(
    mine: Seq<KalmanBoxTracker<F>>,
    my_boxes: Seq<BBox>,
    my_frame: int,
    my_min_hits: int,
    theirs: Seq<KalmanBoxTracker<F>>,
    their_boxes: Seq<BBox>,
    their_frame: int,
    their_min_hits: int,
    x: int,
    y: int,
)
    requires
        ids_apart(mine, theirs),
        forall|t: int| 0 <= t < mine.len() ==> 0 <= (#[trigger] mine[t]).id < i64::MAX,
        forall|t: int| 0 <= t < theirs.len() ==> 0 <= (#[trigger] theirs[t]).id < i64::MAX,
        0 <= x < reports_from(mine, my_boxes, my_frame, my_min_hits, 0).len(),
        0 <= y < reports_from(theirs, their_boxes, their_frame, their_min_hits, 0).len(),
    ensures
        reports_from(mine, my_boxes, my_frame, my_min_hits, 0)[x].id != reports_from(
            theirs,
            their_boxes,
            their_frame,
            their_min_hits,
            0,
        )[y].id,
{
    let t = lemma_reported(mine, my_boxes, my_frame, my_min_hits, 0, x);
    let u = lemma_reported(theirs, their_boxes, their_frame, their_min_hits, 0, y);
    assert(mine[t].id != theirs[u].id);
}

/// The tracker that a report is about, which is confirmed.
pub(crate) proof fn lemma_reported<F>(
    trackers: Seq<KalmanBoxTracker<F>>,
    boxes: Seq<BBox>,
    frame: int,
    min_hits: int,
    k: int,
    x: int,
) -> (t: int)
    requires
        0 <= k,
        0 <= x < reports_from(trackers, boxes, frame, min_hits, k).len(),
    ensures
        k <= t < trackers.len(),
        trackers[t].is_confirmed(frame, min_hits),
        reports_from(trackers, boxes, frame, min_hits, k)[x] == trackers[t].reported(boxes[t]),
    decreases trackers.len() - k,
{
    let later = reports_from(trackers, boxes, frame, min_hits, k + 1);
    if x < later.len() {
        lemma_reported(trackers, boxes, frame, min_hits, k + 1, x)
    } else {
        k
    }
}

/// A frame makes every tracker a frame older and counts a frame without a detection. A
/// streak ends once a frame has gone by without a detection. Nothing else changes.
pub proof fn law_prediction_counts_a_frame<F>(trackers: Seq<KalmanBoxTracker<F>>, t: int)
    requires
        0 <= t < trackers.len(),
        trackers[t].age < i64::MAX,
        trackers[t].time_since_update < i64::MAX,
    ensures
        all_predicted(trackers).len() == trackers.len(),
        all_predicted(trackers)[t].age == trackers[t].age + 1,
        all_predicted(trackers)[t].time_since_update == trackers[t].time_since_update + 1,
        all_predicted(trackers)[t].hit_streak == (if trackers[t].time_since_update > 0 {
            0
        } else {
            trackers[t].hit_streak as int
        }),
        all_predicted(trackers)[t].hits == trackers[t].hits,
        all_predicted(trackers)[t].id == trackers[t].id,
        all_predicted(trackers)[t].label == trackers[t].label,
        all_predicted(trackers)[t].filter == trackers[t].filter,
{
}

/// Trackers whose prediction is lost go and the others stay, all of them and in order.
pub proof fn law_only_lost_trackers_go<F>(trackers: Seq<KalmanBoxTracker<F>>, lost: Seq<bool>)
    requires
        lost.len() == trackers.len(),
    ensures
        without_lost(trackers, lost).len() == lost.filter(|gone: bool| !gone).len(),
        forall|t: int|
            0 <= t < trackers.len() && !#[trigger] lost[t] ==> without_lost(
                trackers,
                lost,
            )[lost.take(t).filter(|gone: bool| !gone).len() as int] == trackers[t],
    decreases trackers.len(),
{
    let stays = |gone: bool| !gone;
    reveal(Seq::filter);
    if trackers.len() > 0 {
        let (front, flags) = (trackers.drop_last(), lost.drop_last());
        lemma_without_lost_local(front, lost, flags);
        law_only_lost_trackers_go(front, flags);
        let n = trackers.len() - 1;
        assert forall|t: int| 0 <= t < trackers.len() && !#[trigger] lost[t] implies without_lost(
            trackers,
            lost,
        )[lost.take(t).filter(stays).len() as int] == trackers[t] by {
            if t < n {
                assert(flags[t] == lost[t]);
                assert(flags.take(t) =~= lost.take(t));
                lemma_filter_prefix(flags, stays, t);
            } else {
                assert(lost.take(t) =~= flags);
            }
        }
    }
}

/// What is left without the lost trackers depends on the flags of these alone.
proof fn lemma_without_lost_local<F>(
    trackers: Seq<KalmanBoxTracker<F>>,
    lost: Seq<bool>,
    flags: Seq<bool>,
)
    requires
        forall|t: int| 0 <= t < trackers.len() ==> #[trigger] lost[t] == flags[t],
    ensures
        without_lost(trackers, lost) == without_lost(trackers, flags),
    decreases trackers.len(),
{
    if trackers.len() > 0 {
        lemma_without_lost_local(trackers.drop_last(), lost, flags);
        let b = lost[trackers.len() - 1];
    }
}

/// Fewer flags are found before one that counts than in all.
proof fn lemma_filter_prefix(flags: Seq<bool>, p: spec_fn(bool) -> bool, t: int)
    requires
        0 <= t < flags.len(),
        p(flags[t]),
    ensures
        flags.take(t).filter(p).len() < flags.filter(p).len(),
    decreases flags.len(),
{
    reveal(Seq::filter);
    let front = flags.drop_last();
    if t < front.len() {
        assert(front.take(t) =~= flags.take(t));
        lemma_filter_prefix(front, p, t);
    } else {
        assert(flags.take(t) =~= front);
    }
}

/// A tracker that takes a detection has gone no frame without one, however long it had
/// before, and its streak is one longer. A tracker that takes none stays as it was.
pub proof fn law_detection_is_counted<F>(
    trackers: Seq<KalmanBoxTracker<F>>,
    matches: Seq<(usize, usize)>,
    t: int,
)
    requires
        0 <= t < trackers.len(),
        trackers[t].hits < i64::MAX,
        trackers[t].hit_streak < i64::MAX,
    ensures
        with_matches(trackers, matches).len() == trackers.len(),
        (exists|x: int| 0 <= x < matches.len() && (#[trigger] matches[x]).1 == t) ==> {
            let now = with_matches(trackers, matches)[t];
            &&& now.time_since_update == 0
            &&& now.hit_streak == trackers[t].hit_streak + 1
            &&& now.hits == trackers[t].hits + 1
            &&& now.age == trackers[t].age
            &&& now.id == trackers[t].id
            &&& now.label == trackers[t].label
            &&& now.filter == trackers[t].filter
        },
        (forall|x: int| 0 <= x < matches.len() ==> (#[trigger] matches[x]).1 != t)
            ==> with_matches(trackers, matches)[t] == trackers[t],
{
}

/// A tracker that is seen again after `k` frames without a detection has gone no frame
/// without one, begins a new streak and stays for any maximum age. It is reported
/// whenever one hit is enough.
pub proof fn law_tracker_recovers<F>(tracker: KalmanBoxTracker<F>, k: int, max_age: int)
    requires
        1 <= k,
        0 <= tracker.time_since_update,
        tracker.time_since_update + k < i64::MAX,
        0 <= tracker.age,
        tracker.age + k < i64::MAX,
        tracker.hits < i64::MAX,
        0 <= max_age,
    ensures
        ({
            let again = unseen(tracker, k).predicted().updated();
            &&& again.time_since_update == 0
            &&& again.hit_streak == 1
            &&& again.hits == tracker.hits + 1
            &&& again.age == tracker.age + k + 1
            &&& again.id == tracker.id
            &&& again.label == tracker.label
            &&& alive(seq![again], max_age) == seq![again]
            &&& forall|boxes: Seq<BBox>, frame: int, min_hits: int|
                min_hits <= 1 && boxes.len() == 1 ==> (#[trigger] reports_from(
                    seq![again],
                    boxes,
                    frame,
                    min_hits,
                    0,
                )).len() == 1
        }),
{
    law_unseen_tracker_ages(tracker, k, max_age);
    let again = unseen(tracker, k).predicted().updated();
    law_only_old_trackers_go(seq![again], max_age);
    assert(alive(seq![again], max_age) =~= seq![again]) by {
        reveal_with_fuel(Seq::filter, 2);
        assert(seq![again].drop_last() =~= Seq::<KalmanBoxTracker<F>>::empty());
        assert(seq![again].last() == again);
    }
    reveal_with_fuel(reports_from, 2);
}

/// Every detection without a match starts a tracker, with the next id of the counter,
/// its own label and its own filter, and with nothing counted yet.
pub proof fn law_newcomers_are_fresh<F>(
    fresh: Seq<F>,
    labels: Seq<i64>,
    dets: Seq<usize>,
    first: int,
    k: int,
)
    requires
        0 <= k < dets.len(),
        0 <= first,
        first + dets.len() <= i64::MAX,
    ensures
        newcomers(fresh, labels, dets, first).len() == dets.len(),
        newcomers(fresh, labels, dets, first)[k].id == first + k,
        newcomers(fresh, labels, dets, first)[k].filter == fresh[dets[k] as int],
        newcomers(fresh, labels, dets, first)[k].label == (if dets[k] < labels.len() {
            labels[dets[k] as int]
        } else {
            0
        }),
        newcomers(fresh, labels, dets, first)[k].time_since_update == 0,
        newcomers(fresh, labels, dets, first)[k].hits == 0,
        newcomers(fresh, labels, dets, first)[k].hit_streak == 0,
        newcomers(fresh, labels, dets, first)[k].age == 0,
{
}

/// A tracker is reported in a frame exactly if it took a detection in the frame, and its
/// streak is long enough or the run is that young, whatever other trackers do. The
/// report has its box, its label and its id, counted from 1.
pub proof fn law_confirmed_trackers_are_reported<F>(
    trackers: Seq<KalmanBoxTracker<F>>,
    boxes: Seq<BBox>,
    frame: int,
    min_hits: int,
)
    requires
        boxes.len() == trackers.len(),
        forall|t: int| 0 <= t < trackers.len() ==> 0 <= (#[trigger] trackers[t]).id < i64::MAX,
    ensures
        reports_from(trackers, boxes, frame, min_hits, 0).len() == trackers.filter(
            |t: KalmanBoxTracker<F>|
                t.time_since_update < 1 && (t.hit_streak >= min_hits || frame <= min_hits),
        ).len(),
        forall|t: int|
            0 <= t < trackers.len() && (#[trigger] trackers[t]).time_since_update < 1 && (
            trackers[t].hit_streak >= min_hits || frame <= min_hits) ==> exists|x: int|
                0 <= x < reports_from(trackers, boxes, frame, min_hits, 0).len() && ({
                    let r = #[trigger] reports_from(trackers, boxes, frame, min_hits, 0)[x];
                    &&& r.id == trackers[t].id + 1
                    &&& r.label == trackers[t].label
                    &&& r.x1 == boxes[t].x1
                    &&& r.y1 == boxes[t].y1
                    &&& r.x2 == boxes[t].x2
                    &&& r.y2 == boxes[t].y2
                }),
{
    lemma_report_count(trackers, boxes, frame, min_hits, 0);
    assert(trackers.skip(0) =~= trackers);
    let all = reports_from(trackers, boxes, frame, min_hits, 0);
    assert forall|t: int|
        0 <= t < trackers.len() && (#[trigger] trackers[t]).time_since_update < 1 && (
        trackers[t].hit_streak >= min_hits || frame <= min_hits) implies exists|x: int|
        0 <= x < all.len() && ({
            let r = #[trigger] all[x];
            &&& r.id == trackers[t].id + 1
            &&& r.label == trackers[t].label
            &&& r.x1 == boxes[t].x1
            &&& r.y1 == boxes[t].y1
            &&& r.x2 == boxes[t].x2
            &&& r.y2 == boxes[t].y2
        }) by {
        let x = lemma_report_of(trackers, boxes, frame, min_hits, 0, t);
        assert(all[x] == trackers[t].reported(boxes[t]));
    }
}

/// Every report is about a tracker that took a detection in the frame and whose streak is
/// long enough, unless the run is that young.
pub proof fn law_reports_are_of_confirmed_trackers<F>(
    trackers: Seq<KalmanBoxTracker<F>>,
    boxes: Seq<BBox>,
    frame: int,
    min_hits: int,
    x: int,
)
    requires
        forall|t: int| 0 <= t < trackers.len() ==> 0 <= (#[trigger] trackers[t]).id < i64::MAX,
        0 <= x < reports_from(trackers, boxes, frame, min_hits, 0).len(),
    ensures
        exists|t: int|
            0 <= t < trackers.len() && (#[trigger] trackers[t]).time_since_update < 1 && (
            trackers[t].hit_streak >= min_hits || frame <= min_hits) && trackers[t].id + 1
                == reports_from(trackers, boxes, frame, min_hits, 0)[x].id,
{
    let t = lemma_reported(trackers, boxes, frame, min_hits, 0, x);
    assert(trackers[t].time_since_update < 1);
}

/// Where the report of a confirmed tracker stands.
proof fn lemma_report_of<F>(
    trackers: Seq<KalmanBoxTracker<F>>,
    boxes: Seq<BBox>,
    frame: int,
    min_hits: int,
    k: int,
    t: int,
) -> (x: int)
    requires
        0 <= k <= t < trackers.len(),
        trackers[t].is_confirmed(frame, min_hits),
    ensures
        0 <= x < reports_from(trackers, boxes, frame, min_hits, k).len(),
        reports_from(trackers, boxes, frame, min_hits, k)[x] == trackers[t].reported(boxes[t]),
    decreases trackers.len() - k,
{
    let later = reports_from(trackers, boxes, frame, min_hits, k + 1);
    if k < t {
        lemma_report_of(trackers, boxes, frame, min_hits, k + 1, t)
    } else {
        later.len() as int
    }
}

proof fn lemma_report_count<F>(
    trackers: Seq<KalmanBoxTracker<F>>,
    boxes: Seq<BBox>,
    frame: int,
    min_hits: int,
    k: int,
)
    requires
        0 <= k <= trackers.len(),
    ensures
        reports_from(trackers, boxes, frame, min_hits, k).len() == trackers.skip(k).filter(
            |t: KalmanBoxTracker<F>|
                t.time_since_update < 1 && (t.hit_streak >= min_hits || frame <= min_hits),
        ).len(),
    decreases trackers.len() - k,
{
    let counts = |t: KalmanBoxTracker<F>|
        t.time_since_update < 1 && (t.hit_streak >= min_hits || frame <= min_hits);
    if k < trackers.len() {
        lemma_report_count(trackers, boxes, frame, min_hits, k + 1);
        let one = seq![trackers[k]];
        assert(trackers.skip(k) =~= one + trackers.skip(k + 1));
        Seq::filter_distributes_over_add(one, trackers.skip(k + 1), counts);
        assert(one.filter(counts).len() == if counts(trackers[k]) {
            1int
        } else {
            0
        }) by {
            reveal_with_fuel(Seq::filter, 2);
            assert(one.drop_last() =~= Seq::<KalmanBoxTracker<F>>::empty());
            assert(one.last() == trackers[k]);
        }
    } else {
        assert(trackers.skip(k) =~= Seq::<KalmanBoxTracker<F>>::empty());
        reveal(Seq::filter);
    }
}

/// At the end of a frame exactly the trackers go that have gone without a detection for
/// more frames than the maximum age.
pub proof fn law_only_old_trackers_go<F>(trackers: Seq<KalmanBoxTracker<F>>, max_age: int)
    ensures
        forall|t: int|
            0 <= t < trackers.len() && (#[trigger] trackers[t]).time_since_update <= max_age
                ==> alive(trackers, max_age).contains(trackers[t]),
        forall|u: int|
            0 <= u < alive(trackers, max_age).len() ==> trackers.contains(
                #[trigger] alive(trackers, max_age)[u],
            ) && alive(trackers, max_age)[u].time_since_update <= max_age,
        alive(trackers, max_age).len() == trackers.filter(
            |t: KalmanBoxTracker<F>| t.time_since_update <= max_age,
        ).len(),
{
    let stays = |t: KalmanBoxTracker<F>| !t.is_dead(max_age);
    let young = |t: KalmanBoxTracker<F>| t.time_since_update <= max_age;
    broadcast use Seq::lemma_filter_contains, Seq::lemma_filter_pred;

    lemma_alive_keeps(trackers, max_age);
    lemma_filters_agree(trackers, stays, young);
    assert forall|t: int|
        0 <= t < trackers.len() && (#[trigger] trackers[t]).time_since_update
            <= max_age implies alive(trackers, max_age).contains(trackers[t]) by {
        assert(stays(trackers[t]));
    }
    assert forall|u: int| 0 <= u < alive(trackers, max_age).len() implies trackers.contains(
        #[trigger] alive(trackers, max_age)[u],
    ) && alive(trackers, max_age)[u].time_since_update <= max_age by {
        assert(kept_from(trackers, alive(trackers, max_age), u));
        assert(stays(trackers.filter(stays)[u]));
    }
}

proof fn lemma_filters_agree<F>(
    trackers: Seq<KalmanBoxTracker<F>>,
    p: spec_fn(KalmanBoxTracker<F>) -> bool,
    q: spec_fn(KalmanBoxTracker<F>) -> bool,
)
    requires
        forall|t: KalmanBoxTracker<F>| #[trigger] p(t) == q(t),
    ensures
        trackers.filter(p) == trackers.filter(q),
    decreases trackers.len(),
{
    reveal(Seq::filter);
    if trackers.len() > 0 {
        lemma_filters_agree(trackers.drop_last(), p, q);
        let b = p(trackers.last());
    }
}

} // verus!
