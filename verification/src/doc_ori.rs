use vstd::prelude::*;

use crate::preprocessing::Rotation;

verus! {

/// The four orientations the document classifier scores, in the order they
/// are compared: upright, a quarter turn, a half turn, three quarters.
pub open spec fn candidate_rotation(k: int) -> Rotation {
    if k == 0 {
        Rotation::Deg0
    } else if k == 1 {
        Rotation::Deg90
    } else if k == 2 {
        Rotation::Deg180
    } else {
        Rotation::Deg270
    }
}

/// The score of candidate `k`, read from the classifier's outputs, which come
/// in the order 0°, 270°, 180°, 90°.
pub open spec fn candidate_score(scores: [i64; 4], k: int) -> i64 {
    if k == 0 {
        scores[0]
    } else if k == 1 {
        scores[3]
    } else if k == 2 {
        scores[2]
    } else {
        scores[1]
    }
}

/// Candidate `k` has the greatest score, and no later candidate ties it: the
/// last of the best-scored candidates wins.
pub open spec fn is_best_candidate(scores: [i64; 4], k: int) -> bool {
    &&& 0 <= k < 4
    &&& forall|j: int| 0 <= j < 4 ==> candidate_score(scores, j) <= candidate_score(scores, k)
    &&& forall|j: int| k < j < 4 ==> candidate_score(scores, j) < candidate_score(scores, k)
}

/// The page orientation the document classifier picks: the candidate with the
/// greatest score (scores are order keys of the class probabilities, in the
/// classifier's output order 0°, 270°, 180°, 90°); of equal scores the last
/// candidate in the order 0°, 90°, 180°, 270° wins.
pub fn best_document_rotation(scores: [i64; 4]) -> (r: Rotation)
    ensures
        exists|k: int| is_best_candidate(scores, k) && r == candidate_rotation(k),
{
    let ordered: [i64; 4] = [scores[0], scores[3], scores[2], scores[1]];
    let mut best: usize = 0;
    let mut i: usize = 1;
    while i < 4
        invariant
            1 <= i <= 4,
            0 <= best < i,
            forall|k: int| 0 <= k < 4 ==> ordered@[k] == candidate_score(scores, k),
            forall|j: int| 0 <= j < i ==> candidate_score(scores, j) <= candidate_score(scores, best as int),
            forall|j: int| best < j < i ==> candidate_score(scores, j) < candidate_score(scores, best as int),
        decreases 4 - i,
    {
        if ordered[i] >= ordered[best] {
            best = i;
        }
        i += 1;
    }
    let r = if best == 0 {
        Rotation::Deg0
    } else if best == 1 {
        Rotation::Deg90
    } else if best == 2 {
        Rotation::Deg180
    } else {
        Rotation::Deg270
    };
    assert(is_best_candidate(scores, best as int) && r == candidate_rotation(best as int));
    r
}

/// Exactly one candidate is the best, so the pick is determined by the scores.
pub proof fn law_best_candidate_is_unique(scores: [i64; 4], a: int, b: int)
    requires
        is_best_candidate(scores, a),
        is_best_candidate(scores, b),
    ensures
        a == b,
{
    let sa = candidate_score(scores, a);
    let sb = candidate_score(scores, b);
    assert(sa <= sb && sb <= sa);
}

} // verus!
