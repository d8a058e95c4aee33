//! Which matches of SIFT keypoints a homography is estimated from.

use vstd::prelude::*;
use vstd::string::StringExecFns;

use crate::text::{decimal, to_decimal};

verus! {

/// How many points a homography needs.
pub const MIN_POINTS: usize = 4;

/// Why no homography can be estimated.
#[derive(Debug, Clone, Copy, PartialEq, Eq, Structural)]
pub enum CalibrationError {
    /// An image has too few keypoints.
    Keypoints,
    /// Too few keypoints match.
    Matches(usize),
    /// No homography fits the matches.
    Estimation,
}

impl CalibrationError {
    /// The text for the user.
    pub open spec fn text(self) -> Seq<char> {
        match self {
            CalibrationError::Keypoints => "not enough SIFT keypoints"@,
            CalibrationError::Matches(n) => "not enough good SIFT matches: "@ + decimal(n as nat),
            CalibrationError::Estimation => "RANSAC homography estimation failed"@,
        }
    }

    /// The text for the user.
    pub fn message(&self) -> (s: String)
        ensures
            s@ == self.text(),
    {
        match self {
            CalibrationError::Keypoints => "not enough SIFT keypoints".to_owned(),
            CalibrationError::Matches(n) => {
                "not enough good SIFT matches: ".to_owned().concat(to_decimal(*n as u64).as_str())
            },
            CalibrationError::Estimation => "RANSAC homography estimation failed".to_owned(),
        }
    }
}

/// A candidate for the match of a keypoint of the first image with one of the
/// second. The numbers `distance` and `limit` order candidates as the distance
/// of their descriptors and as three quarters of that distance do.
#[derive(Debug, Clone, Copy, PartialEq, Eq, Structural)]
pub struct Candidate {
    pub first: usize,
    pub second: usize,
    pub distance: i64,
    pub limit: i64,
}

/// Whether both images have enough keypoints.
pub fn check_keypoints(first: usize, second: usize) -> (r: Result<(), CalibrationError>)
    ensures
        r == if first < MIN_POINTS || second < MIN_POINTS {
            Err::<(), CalibrationError>(CalibrationError::Keypoints)
        } else {
            Ok(())
        },
{
    if first < MIN_POINTS || second < MIN_POINTS {
        Err(CalibrationError::Keypoints)
    } else {
        Ok(())
    }
}

/// The candidates of a keypoint, the nearest first, give a good match if there are
/// two and the first is clearly nearer than the second.
pub open spec fn is_good(candidates: Seq<Candidate>) -> bool {
    candidates.len() >= 2 && candidates[0].distance < candidates[1].limit
}

/// The good matches among the first `n` keypoints, in order.
pub open spec fn good_matches_of(knn: Seq<Vec<Candidate>>, n: int) -> Seq<(usize, usize)>
    decreases n,
{
    if n <= 0 {
        Seq::empty()
    } else {
        let before = good_matches_of(knn, n - 1);
        let candidates = knn[n - 1]@;
        if is_good(candidates) {
            before.push((candidates[0].first, candidates[0].second))
        } else {
            before
        }
    }
}

/// The good matches, as keypoints of the first image and of the second.
pub fn good_matches(knn: &[Vec<Candidate>]) -> (r: Result<Vec<(usize, usize)>, CalibrationError>)
    ensures
        ({
            let matches = good_matches_of(knn@, knn@.len() as int);
            if matches.len() < MIN_POINTS {
                r matches Err(CalibrationError::Matches(n)) && n == matches.len()
            } else {
                r matches Ok(found) && found@ == matches
            }
        }),
{
    let mut matches: Vec<(usize, usize)> = Vec::new();
    let mut i: usize = 0;
    while i < knn.len()
        invariant
            i <= knn@.len(),
            matches@ == good_matches_of(knn@, i as int),
        decreases knn@.len() - i,
    {
        let candidates: &Vec<Candidate> = &knn[i];
        if candidates.len() >= 2 {
            let a: Candidate = candidates[0];
            let b: Candidate = candidates[1];
            if a.distance < b.limit {
                matches.push((a.first, a.second));
            }
        }
        i = i + 1;
    }
    if matches.len() < MIN_POINTS {
        return Err(CalibrationError::Matches(matches.len()));
    }
    Ok(matches)
}

/// A keypoint gives a match exactly if it has at least two candidates and the first is
/// nearer than three quarters of the distance of the second. Each such keypoint gives
/// one, with its first candidate, in the order of the keypoints.
pub proof fn law_every_clear_match_is_used(knn: Seq<Vec<Candidate>>)
    ensures
        good_matches_of(knn, knn.len() as int) == knn.filter(
            |c: Vec<Candidate>| c@.len() >= 2 && c@[0].distance < c@[1].limit,
        ).map_values(|c: Vec<Candidate>| (c@[0].first, c@[0].second)),
{
    lemma_clear_matches(knn, knn.len() as int);
    assert(knn.take(knn.len() as int) =~= knn);
}

proof fn lemma_clear_matches(knn: Seq<Vec<Candidate>>, n: int)
    requires
        0 <= n <= knn.len(),
    ensures
        good_matches_of(knn, n) == knn.take(n).filter(
            |c: Vec<Candidate>| c@.len() >= 2 && c@[0].distance < c@[1].limit,
        ).map_values(|c: Vec<Candidate>| (c@[0].first, c@[0].second)),
    decreases n,
{
    let clear = |c: Vec<Candidate>| c@.len() >= 2 && c@[0].distance < c@[1].limit;
    let pair = |c: Vec<Candidate>| (c@[0].first, c@[0].second);
    reveal(Seq::filter);
    if n > 0 {
        lemma_clear_matches(knn, n - 1);
        let before = knn.take(n - 1).filter(clear);
        assert(knn.take(n).drop_last() =~= knn.take(n - 1));
        assert(before.push(knn[n - 1]).map_values(pair) =~= before.map_values(pair).push(
            pair(knn[n - 1]),
        ));
        assert(good_matches_of(knn, n) =~= knn.take(n).filter(clear).map_values(pair));
    } else {
        assert(good_matches_of(knn, n) =~= knn.take(n).filter(clear).map_values(pair));
    }
}

/// A keypoint with a clear match has that match among those found, and every match found
/// is that of a keypoint with a clear match.
pub proof fn law_matches_are_the_clear_ones(knn: Seq<Vec<Candidate>>, i: int, x: int)
    requires
        0 <= i < knn.len(),
        0 <= x < good_matches_of(knn, knn.len() as int).len(),
    ensures
        knn[i]@.len() >= 2 && knn[i]@[0].distance < knn[i]@[1].limit ==> good_matches_of(
            knn,
            knn.len() as int,
        ).contains((knn[i]@[0].first, knn[i]@[0].second)),
        exists|k: int|
            0 <= k < knn.len() && (#[trigger] knn[k])@.len() >= 2 && knn[k]@[0].distance
                < knn[k]@[1].limit && good_matches_of(knn, knn.len() as int)[x] == (
                knn[k]@[0].first,
                knn[k]@[0].second,
            ),
{
    let clear = |c: Vec<Candidate>| c@.len() >= 2 && c@[0].distance < c@[1].limit;
    let found = knn.filter(clear);
    let all = good_matches_of(knn, knn.len() as int);
    broadcast use Seq::lemma_filter_contains, Seq::lemma_filter_pred;

    law_every_clear_match_is_used(knn);
    if clear(knn[i]) {
        assert(found.contains(knn[i]));
        let y = choose|y: int| 0 <= y < found.len() && found[y] == knn[i];
        assert(all[y] == (knn[i]@[0].first, knn[i]@[0].second));
    }
    assert(clear(found[x]));
    assert(found.contains(found[x]));
    knn.lemma_filter_contains_rev(clear, found[x]);
    let k = choose|k: int| 0 <= k < knn.len() && knn[k] == found[x];
    assert(knn[k]@.len() >= 2);
}

} // verus!
