//! Slicing labels by row indices and scoring predicted labels.
use vstd::prelude::*;

verus! {

/// Number of positions at which `a` and `b` agree.
pub open spec fn agreements(a: Seq<u8>, b: Seq<u8>) -> nat
    decreases a.len(),
{
    if a.len() == 0 || b.len() == 0 {
        0
    } else {
        agreements(a.drop_last(), b.drop_last()) + if a.last() == b.last() { 1nat } else { 0nat }
    }
}

proof fn lemma_agreements_bound(a: Seq<u8>, b: Seq<u8>)
    ensures
        agreements(a, b) <= a.len(),
    decreases a.len(),
{
    if a.len() > 0 && b.len() > 0 {
        lemma_agreements_bound(a.drop_last(), b.drop_last());
    }
}

/// Correct predictions out of a number of rows.
pub struct Score {
    pub correct: usize,
    pub total: usize,
}

impl Score {
    /// A score of some rows, never more correct than scored.
    pub open spec fn wf(&self) -> bool {
        0 < self.total && self.correct <= self.total
    }

    /// Scores predicted labels against the expected ones.
    pub fn of(expected: &Vec<u8>, predicted: &Vec<u8>) -> (r: Score)
        requires
            expected.len() == predicted.len(),
            expected.len() > 0,
        ensures
            r.wf(),
            r.correct == agreements(expected@, predicted@),
            r.total == expected.len(),
    {
        let mut correct: usize = 0;
        let mut i: usize = 0;
        while i < expected.len()
            invariant
                i <= expected.len() == predicted.len(),
                correct == agreements(expected@.take(i as int), predicted@.take(i as int)),
            decreases expected.len() - i,
        {
            proof {
                let a = expected@.take(i as int + 1);
                let b = predicted@.take(i as int + 1);
                assert(a.drop_last() =~= expected@.take(i as int));
                assert(b.drop_last() =~= predicted@.take(i as int));
                lemma_agreements_bound(expected@.take(i as int), predicted@.take(i as int));
            }
            if expected[i] == predicted[i] {
                correct = correct + 1;
            }
            i = i + 1;
        }
        assert(expected@.take(i as int) =~= expected@);
        assert(predicted@.take(i as int) =~= predicted@);
        proof { lemma_agreements_bound(expected@, predicted@); }
        Score { correct, total: expected.len() }
    }
}

/// The labels at the given rows, in the order given.
pub fn select_labels(labels: &Vec<u8>, rows: &Vec<usize>) -> (r: Vec<u8>)
    requires
        forall|i: int| 0 <= i < rows.len() ==> rows[i] < labels.len(),
    ensures
        r.len() == rows.len(),
        forall|i: int| 0 <= i < rows.len() ==> r[i] == labels[rows[i] as int],
{
    let mut r: Vec<u8> = Vec::new();
    let mut i: usize = 0;
    while i < rows.len()
        invariant
            i <= rows.len(),
            forall|j: int| 0 <= j < rows.len() ==> rows[j] < labels.len(),
            r.len() == i,
            forall|j: int| 0 <= j < i ==> r[j] == labels[rows[j] as int],
        decreases rows.len() - i,
    {
        r.push(labels[rows[i]]);
        i = i + 1;
    }
    r
}

} // verus!
