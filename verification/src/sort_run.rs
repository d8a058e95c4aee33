//! What holds over whole runs of instances of `Sort` that take their ids from one
//! counter.

use vstd::prelude::*;

use crate::association::{
    is_association, is_matching, law_association_accounts_for_all, pair_detections,
};
use crate::sort::{
    alive, all_predicted, kept_from, lemma_alive_keeps, lemma_reported, lemma_without_lost_keeps,
    newcomers, reports_from, with_matches, without_lost, BBox, KalmanBoxTracker, Track,
};

verus! {

/// One frame of an instance: a call each of `Sort::predict`, `Sort::update` and
/// `Sort::report`. Between the calls the caller may change the filters.
pub ghost struct SortFrame<F> {
    /// The instance.
    pub who: int,
    /// The trackers that `predict` meets.
    pub started: Seq<KalmanBoxTracker<F>>,
    pub lost: Seq<bool>,
    /// The trackers that `update` meets.
    pub ready: Seq<KalmanBoxTracker<F>>,
    pub scores: Seq<Seq<int>>,
    pub threshold: int,
    pub labels: Seq<i64>,
    pub fresh: Seq<F>,
    pub matches: Seq<(usize, usize)>,
    pub starts: Seq<usize>,
    /// The trackers that `report` meets.
    pub seen: Seq<KalmanBoxTracker<F>>,
    pub boxes: Seq<BBox>,
    /// The number of the frame among those of the instance, from 1 up.
    pub number: int,
    pub min_hits: int,
    pub max_age: int,
}

/// The same trackers, but for their filters.
pub open spec fn same_but_filters<F>(
    a: Seq<KalmanBoxTracker<F>>,
    b: Seq<KalmanBoxTracker<F>>,
) -> bool {
    &&& a.len() == b.len()
    &&& forall|t: int|
        0 <= t < a.len() ==> #[trigger] b[t] == a[t].with_filter(b[t].filter)
}

impl<F> SortFrame<F> {
    /// The frame is one that an instance can have whose trackers were `before`, while
    /// the counter was at `next`.
    pub open spec fn follows(self, before: Seq<KalmanBoxTracker<F>>, next: int) -> bool {
        &&& same_but_filters(before, self.started)
        &&& self.lost.len() == self.started.len()
        &&& same_but_filters(without_lost(all_predicted(self.started), self.lost), self.ready)
        &&& self.scores.len() <= usize::MAX
        &&& self.ready.len() <= usize::MAX
        &&& self.fresh.len() == self.scores.len()
        &&& is_matching(
            self.scores,
            self.ready.len() as int,
            self.threshold,
            self.matches,
            self.starts,
        )
        &&& next + self.starts.len() <= i64::MAX
        &&& same_but_filters(
            with_matches(self.ready, self.matches) + newcomers(
                self.fresh,
                self.labels,
                self.starts,
                next,
            ),
            self.seen,
        )
        &&& self.boxes.len() == self.seen.len()
    }

    /// What `report` returns.
    pub open spec fn reports(self) -> Seq<Track> {
        reports_from(self.seen, self.boxes, self.number, self.min_hits, 0)
    }

    /// The trackers that `report` leaves.
    pub open spec fn left(self) -> Seq<KalmanBoxTracker<F>> {
        alive(self.seen, self.max_age)
    }
}

/// The trackers of an instance after the first `k` frames of a run.
pub open spec fn trackers_at<F>(frames: Seq<SortFrame<F>>, who: int, k: int) -> Seq<
    KalmanBoxTracker<F>,
>
    decreases k,
{
    if k <= 0 {
        Seq::empty()
    } else if frames[k - 1].who == who {
        frames[k - 1].left()
    } else {
        trackers_at(frames, who, k - 1)
    }
}

/// The counter after the first `k` frames of a run.
pub open spec fn counter_at<F>(frames: Seq<SortFrame<F>>, k: int) -> int
    decreases k,
{
    if k <= 0 {
        0
    } else {
        counter_at(frames, k - 1) + frames[k - 1].starts.len()
    }
}

/// How many of the first `k` frames of a run are frames of an instance.
pub open spec fn frames_of<F>(frames: Seq<SortFrame<F>>, who: int, k: int) -> int
    decreases k,
{
    if k <= 0 {
        0
    } else if frames[k - 1].who == who {
        frames_of(frames, who, k - 1) + 1
    } else {
        frames_of(frames, who, k - 1)
    }
}

/// Frame `k` of a run goes on from the frames before it.
pub open spec fn goes_on<F>(frames: Seq<SortFrame<F>>, k: int) -> bool {
    &&& frames[k].follows(trackers_at(frames, frames[k].who, k), counter_at(frames, k))
    &&& frames[k].number == frames_of(frames, frames[k].who, k) + 1
    &&& frames[k].number <= i64::MAX
}

/// The frames of any number of instances, in the order in which they took place.
/// The instances are new at the beginning, and so is the counter.
pub open spec fn is_run<F>(frames: Seq<SortFrame<F>>) -> bool {
    forall|k: int| 0 <= k < frames.len() ==> #[trigger] goes_on(frames, k)
}

/// A tracker has the id.
spec fn has_id<F>(trackers: Seq<KalmanBoxTracker<F>>, id: i64) -> bool {
    exists|t: int| 0 <= t < trackers.len() && (#[trigger] trackers[t]).id == id
}

/// The id was taken in one of the first `k` frames, by the instance.
spec fn is_taken_by<F>(frames: Seq<SortFrame<F>>, who: int, id: i64, k: int) -> bool {
    exists|m: int| #[trigger] is_taken_in(frames, who, id, m) && m < k
}

/// The id was taken in frame `m`, which is a frame of the instance.
spec fn is_taken_in<F>(frames: Seq<SortFrame<F>>, who: int, id: i64, m: int) -> bool {
    &&& 0 <= m < frames.len()
    &&& frames[m].who == who
    &&& counter_at(frames, m) <= id < counter_at(frames, m + 1)
}

/// All counters of the trackers are consistent.
spec fn all_wf<F>(trackers: Seq<KalmanBoxTracker<F>>, n: int) -> bool {
    forall|t: int| 0 <= t < trackers.len() ==> (#[trigger] trackers[t]).wf(n)
}

/// The trackers that take the detections of a frame: all were there before, and have
/// gone at least a frame without a detection.
proof fn lemma_ready<F>(frame: SortFrame<F>, before: Seq<KalmanBoxTracker<F>>, next: int, n: int)
    requires
        frame.follows(before, next),
        all_wf(before, n),
        n < i64::MAX,
    ensures
        forall|t: int|
            0 <= t < frame.ready.len() ==> {
                &&& (#[trigger] frame.ready[t]).wf(n + 1)
                &&& frame.ready[t].is_ready()
                &&& frame.ready[t].time_since_update >= 1
                &&& has_id(before, frame.ready[t].id)
            },
{
    let aged = all_predicted(frame.started);
    let kept = without_lost(aged, frame.lost);
    lemma_without_lost_keeps(aged, frame.lost);
    assert forall|t: int| 0 <= t < frame.ready.len() implies {
        &&& (#[trigger] frame.ready[t]).wf(n + 1)
        &&& frame.ready[t].is_ready()
        &&& frame.ready[t].time_since_update >= 1
        &&& has_id(before, frame.ready[t].id)
    } by {
        assert(frame.ready[t] == kept[t].with_filter(frame.ready[t].filter));
        assert(kept_from(aged, kept, t));
        let s = choose|s: int| 0 <= s < aged.len() && #[trigger] aged[s] == kept[t];
        assert(aged[s] == frame.started[s].predicted());
        assert(frame.started[s] == before[s].with_filter(frame.started[s].filter));
        assert(before[s].wf(n));
    }
}

/// The trackers that are reported on: each was there before or started in the frame.
proof fn lemma_seen<F>(frame: SortFrame<F>, before: Seq<KalmanBoxTracker<F>>, next: int, n: int)
    requires
        frame.follows(before, next),
        all_wf(before, n),
        0 <= n < i64::MAX,
        0 <= next,
    ensures
        forall|t: int|
            0 <= t < frame.seen.len() ==> {
                &&& (#[trigger] frame.seen[t]).wf(n + 1)
                &&& has_id(before, frame.seen[t].id) || {
                    &&& next <= frame.seen[t].id < next + frame.starts.len()
                    &&& frame.seen[t].hit_streak == 0
                }
            },
{
    let taken = with_matches(frame.ready, frame.matches);
    let fresh = newcomers(frame.fresh, frame.labels, frame.starts, next);
    lemma_ready(frame, before, next, n);
    assert forall|t: int| 0 <= t < frame.seen.len() implies {
        &&& (#[trigger] frame.seen[t]).wf(n + 1)
        &&& has_id(before, frame.seen[t].id) || {
            &&& next <= frame.seen[t].id < next + frame.starts.len()
            &&& frame.seen[t].hit_streak == 0
        }
    } by {
        assert(frame.seen[t] == (taken + fresh)[t].with_filter(frame.seen[t].filter));
        if t < taken.len() {
            assert(frame.ready[t].wf(n + 1));
            assert(has_id(before, frame.ready[t].id));
            assert((taken + fresh)[t] == taken[t]);
        } else {
            assert((taken + fresh)[t] == fresh[t - taken.len()]);
        }
    }
}

proof fn lemma_frames_of<F>(frames: Seq<SortFrame<F>>, who: int, k: int)
    requires
        is_run(frames),
        0 <= k <= frames.len(),
    ensures
        0 <= frames_of(frames, who, k) <= i64::MAX,
    decreases k,
{
    if k > 0 {
        lemma_frames_of(frames, who, k - 1);
        assert(goes_on(frames, k - 1));
    }
}

/// The counter never goes back.
proof fn lemma_counter<F>(frames: Seq<SortFrame<F>>, m: int, k: int)
    requires
        0 <= m <= k,
    ensures
        0 <= counter_at(frames, m) <= counter_at(frames, k),
    decreases k,
{
    if m < k {
        lemma_counter(frames, m, k - 1);
    } else if m > 0 {
        lemma_counter(frames, m - 1, m - 1);
    }
}

/// In a run every tracker has an id that its instance has taken.
proof fn lemma_run<F>(frames: Seq<SortFrame<F>>, who: int, k: int)
    requires
        is_run(frames),
        0 <= k <= frames.len(),
    ensures
        all_wf(trackers_at(frames, who, k), frames_of(frames, who, k)),
        forall|t: int|
            0 <= t < trackers_at(frames, who, k).len() ==> is_taken_by(
                frames,
                who,
                (#[trigger] trackers_at(frames, who, k)[t]).id,
                k,
            ),
    decreases k, 0int,
{
    if k > 0 {
        lemma_run(frames, who, k - 1);
        let now = trackers_at(frames, who, k);
        let frame = frames[k - 1];
        if frame.who == who {
            assert(goes_on(frames, k - 1));
            lemma_run_frame(frames, k - 1);
            lemma_alive_keeps(frame.seen, frame.max_age);
            assert forall|t: int| 0 <= t < now.len() implies (#[trigger] now[t]).wf(
                frames_of(frames, who, k),
            ) && is_taken_by(frames, who, now[t].id, k) by {
                assert(kept_from(frame.seen, now, t));
                let s = choose|s: int| 0 <= s < frame.seen.len() && #[trigger] frame.seen[s] == now[t];
                assert(frame.seen[s].wf(frame.number));
                assert(is_taken_by(frames, who, frame.seen[s].id, k));
            }
        } else {
            assert forall|t: int| 0 <= t < now.len() implies is_taken_by(
                frames,
                who,
                (#[trigger] now[t]).id,
                k,
            ) by {
                assert(is_taken_by(frames, who, now[t].id, k - 1));
                let m = choose|m: int| #[trigger]
                    is_taken_in(frames, who, now[t].id, m) && m < k - 1;
                assert(is_taken_in(frames, who, now[t].id, m) && m < k);
            }
        }
    }
}

/// The trackers that frame `k` of a run reports on.
proof fn lemma_run_frame<F>(frames: Seq<SortFrame<F>>, k: int)
    requires
        is_run(frames),
        0 <= k < frames.len(),
    ensures
        forall|t: int|
            0 <= t < frames[k].seen.len() ==> (#[trigger] frames[k].seen[t]).wf(frames[k].number)
                && is_taken_by(frames, frames[k].who, frames[k].seen[t].id, k + 1),
    decreases k, 1int,
{
    let frame = frames[k];
    let who = frame.who;
    let before = trackers_at(frames, who, k);
    let next = counter_at(frames, k);
    assert(goes_on(frames, k));
    lemma_run(frames, who, k);
    lemma_frames_of(frames, who, k);
    lemma_counter(frames, 0, k);
    lemma_seen(frame, before, next, frames_of(frames, who, k));
    assert forall|t: int| 0 <= t < frame.seen.len() implies (#[trigger] frame.seen[t]).wf(
        frame.number,
    ) && is_taken_by(frames, who, frame.seen[t].id, k + 1) by {
        let id = frame.seen[t].id;
        if has_id(before, id) {
            let s = choose|s: int| 0 <= s < before.len() && (#[trigger] before[s]).id == id;
            assert(is_taken_by(frames, who, before[s].id, k));
            let m = choose|m: int| #[trigger] is_taken_in(frames, who, id, m) && m < k;
            assert(is_taken_in(frames, who, id, m) && m < k + 1);
        } else {
            assert(is_taken_in(frames, who, id, k) && k < k + 1);
        }
    }
}

/// Tracker ids are unique across all instances and for all time: no id that one
/// instance reports in any frame is reported by another in any frame.
pub proof fn law_ids_are_never_shared<F>(
    frames: Seq<SortFrame<F>>,
    p: int,
    q: int,
    x: int,
    y: int,
)
    requires
        is_run(frames),
        0 <= p < frames.len(),
        0 <= q < frames.len(),
        frames[p].who != frames[q].who,
        0 <= x < frames[p].reports().len(),
        0 <= y < frames[q].reports().len(),
    ensures
        frames[p].reports()[x].id != frames[q].reports()[y].id,
{
    let (f, g) = (frames[p], frames[q]);
    let t = lemma_reported(f.seen, f.boxes, f.number, f.min_hits, 0, x);
    let u = lemma_reported(g.seen, g.boxes, g.number, g.min_hits, 0, y);
    lemma_run_frame(frames, p);
    lemma_run_frame(frames, q);
    let (a, b) = (f.seen[t].id, g.seen[u].id);
    assert(f.seen[t].wf(f.number) && g.seen[u].wf(g.number));
    assert(is_taken_by(frames, f.who, a, p + 1) && is_taken_by(frames, g.who, b, q + 1));
    let m = choose|m: int| #[trigger] is_taken_in(frames, f.who, a, m) && m < p + 1;
    let o = choose|o: int| #[trigger] is_taken_in(frames, g.who, b, o) && o < q + 1;
    if m < o {
        lemma_counter(frames, m + 1, o);
    } else if o < m {
        lemma_counter(frames, o + 1, m);
    }
}

/// No id is used again: the trackers that start in a frame have ids above all that
/// were reported in earlier frames, by whatever instance.
pub proof fn law_started_ids_are_new<F>(frames: Seq<SortFrame<F>>, p: int, x: int, k: int, j: int)
    requires
        is_run(frames),
        0 <= p < k < frames.len(),
        0 <= x < frames[p].reports().len(),
        0 <= j < frames[k].starts.len(),
    ensures
        frames[p].reports()[x].id < newcomers(
            frames[k].fresh,
            frames[k].labels,
            frames[k].starts,
            counter_at(frames, k),
        )[j].reported(frames[k].boxes[frames[k].ready.len() + j]).id,
{
    let f = frames[p];
    let t = lemma_reported(f.seen, f.boxes, f.number, f.min_hits, 0, x);
    lemma_run_frame(frames, p);
    assert(f.seen[t].wf(f.number));
    assert(is_taken_by(frames, f.who, f.seen[t].id, p + 1));
    let m = choose|m: int| #[trigger] is_taken_in(frames, f.who, f.seen[t].id, m) && m < p + 1;
    lemma_counter(frames, m + 1, k);
    lemma_counter(frames, 0, k);
    assert(goes_on(frames, k));
}

/// A frame without detections reports nothing and takes no id.
pub proof fn law_no_detections_report_nothing<F>(frames: Seq<SortFrame<F>>, k: int)
    requires
        is_run(frames),
        0 <= k < frames.len(),
        frames[k].scores.len() == 0,
    ensures
        frames[k].reports().len() == 0,
        counter_at(frames, k + 1) == counter_at(frames, k),
{
    let f = frames[k];
    let before = trackers_at(frames, f.who, k);
    let next = counter_at(frames, k);
    let cols = f.ready.len() as int;
    assert(goes_on(frames, k));
    let others = choose|others: Seq<usize>| #[trigger]
        is_association(f.scores, cols, f.threshold, f.matches, f.starts, others);
    law_association_accounts_for_all(f.scores, cols, f.threshold, f.matches, f.starts, others);
    if f.starts.len() > 0 || f.matches.len() > 0 {
        let all = pair_detections(f.matches) + f.starts;
        assert(all.contains(all[0]));
    }
    lemma_run(frames, f.who, k);
    lemma_frames_of(frames, f.who, k);
    lemma_ready(f, before, next, frames_of(frames, f.who, k));
    let taken = with_matches(f.ready, f.matches);
    let fresh = newcomers(f.fresh, f.labels, f.starts, next);
    assert forall|t: int| 0 <= t < f.seen.len() implies !(#[trigger] f.seen[t]).is_confirmed(
        f.number,
        f.min_hits,
    ) by {
        assert(f.seen[t] == (taken + fresh)[t].with_filter(f.seen[t].filter));
        assert((taken + fresh)[t] == f.ready[t]);
        assert(f.ready[t].time_since_update >= 1);
    }
    lemma_none_confirmed(f.seen, f.boxes, f.number, f.min_hits, 0);
}

proof fn lemma_none_confirmed<F>(
    trackers: Seq<KalmanBoxTracker<F>>,
    boxes: Seq<BBox>,
    frame: int,
    min_hits: int,
    k: int,
)
    requires
        0 <= k,
        forall|t: int|
            0 <= t < trackers.len() ==> !(#[trigger] trackers[t]).is_confirmed(frame, min_hits),
    ensures
        reports_from(trackers, boxes, frame, min_hits, k).len() == 0,
    decreases trackers.len() - k,
{
    if k < trackers.len() {
        lemma_none_confirmed(trackers, boxes, frame, min_hits, k + 1);
    }
}

/// Once an instance has had as many frames as a tracker needs hits, a tracker is not
/// reported in the frame in which it starts: every reported id had been taken before
/// the frame.
pub proof fn law_new_trackers_wait<F>(frames: Seq<SortFrame<F>>, k: int, x: int)
    requires
        is_run(frames),
        0 <= k < frames.len(),
        1 <= frames[k].min_hits <= frames_of(frames, frames[k].who, k),
        0 <= x < frames[k].reports().len(),
    ensures
        frames[k].reports()[x].id <= counter_at(frames, k),
{
    let f = frames[k];
    let before = trackers_at(frames, f.who, k);
    let next = counter_at(frames, k);
    assert(goes_on(frames, k));
    lemma_run(frames, f.who, k);
    lemma_frames_of(frames, f.who, k);
    lemma_counter(frames, 0, k);
    lemma_seen(f, before, next, frames_of(frames, f.who, k));
    let t = lemma_reported(f.seen, f.boxes, f.number, f.min_hits, 0, x);
    assert(f.seen[t].wf(f.number));
    assert(has_id(before, f.seen[t].id));
    let s = choose|s: int| 0 <= s < before.len() && (#[trigger] before[s]).id == f.seen[t].id;
    assert(is_taken_by(frames, f.who, before[s].id, k));
    let m = choose|m: int| #[trigger] is_taken_in(frames, f.who, before[s].id, m) && m < k;
    lemma_counter(frames, m + 1, k);
}

} // verus!
