//! The saturation guard: how much of a newly activated set of memories was
//! activated the time before.
//!
//! Saturation is the share of the current identifiers that also occur in the
//! recent set, as a fixed-point number between 0.0 and 1.0. The guard compares
//! with one step back only: the recent set is replaced, not accumulated.

use crate::fixed::ONE;
use vstd::prelude::*;

verus! {

/// How many of the first `upto` identifiers of `current` occur in `recent`.
pub open spec fn overlap_upto(current: Seq<i64>, recent: Seq<i64>, upto: nat) -> nat
    decreases upto,
{
    if upto == 0 {
        0
    } else {
        overlap_upto(current, recent, (upto - 1) as nat) + if recent.contains(current[upto - 1]) {
            1nat
        } else {
            0nat
        }
    }
}

/// How many identifiers of `current` occur in `recent`.
pub open spec fn overlap(current: Seq<i64>, recent: Seq<i64>) -> nat {
    overlap_upto(current, recent, current.len())
}

/// The saturation of `current` against `recent`: `overlap / |current|`,
/// rounded down; 0.0 for an empty `current`.
pub open spec fn saturation_of(current: Seq<i64>, recent: Seq<i64>) -> int {
    if current.len() == 0 {
        0
    } else {
        (overlap(current, recent) as int * 0x4000_0000) / (current.len() as int)
    }
}

/// The overlap of a prefix is at most its length.
pub proof fn lemma_overlap_bound(current: Seq<i64>, recent: Seq<i64>, upto: nat)
    ensures
        overlap_upto(current, recent, upto) <= upto,
    decreases upto,
{
    if upto > 0 {
        lemma_overlap_bound(current, recent, (upto - 1) as nat);
    }
}

/// Saturation lies between 0.0 and 1.0.
pub proof fn lemma_saturation_range(current: Seq<i64>, recent: Seq<i64>)
    ensures
        0 <= saturation_of(current, recent) <= ONE,
{
    if current.len() > 0 {
        lemma_overlap_bound(current, recent, current.len());
        let c = overlap(current, recent) as int;
        let n = current.len() as int;
        assert(0 <= (c * 0x4000_0000) / n <= 0x4000_0000) by (nonlinear_arith)
            requires
                0 <= c <= n,
                n > 0,
        ;
    }
}

/// The saturation of an empty set is 0.0, whatever was activated before.
pub proof fn lemma_saturation_empty(recent: Seq<i64>)
    ensures
        saturation_of(Seq::<i64>::empty(), recent) == 0,
{
}

/// Where every one of the first `upto` identifiers occurs in `recent`, the
/// overlap is `upto`.
pub proof fn lemma_overlap_all(current: Seq<i64>, recent: Seq<i64>, upto: nat)
    requires
        upto <= current.len(),
        forall|i: int| 0 <= i < upto ==> recent.contains(#[trigger] current[i]),
    ensures
        overlap_upto(current, recent, upto) == upto,
    decreases upto,
{
    if upto > 0 {
        lemma_overlap_all(current, recent, (upto - 1) as nat);
    }
}

/// Where none of the first `upto` identifiers occurs in `recent`, the overlap
/// is 0.
pub proof fn lemma_overlap_none(current: Seq<i64>, recent: Seq<i64>, upto: nat)
    requires
        upto <= current.len(),
        forall|i: int| 0 <= i < upto ==> !recent.contains(#[trigger] current[i]),
    ensures
        overlap_upto(current, recent, upto) == 0,
    decreases upto,
{
    if upto > 0 {
        lemma_overlap_none(current, recent, (upto - 1) as nat);
    }
}

/// A non-empty set that is exactly the recent set has the saturation 1.0.
pub proof fn lemma_saturation_same(ids: Seq<i64>)
    requires
        ids.len() > 0,
    ensures
        saturation_of(ids, ids) == ONE,
{
    assert forall|i: int| 0 <= i < ids.len() implies ids.contains(#[trigger] ids[i]) by {}
    lemma_overlap_all(ids, ids, ids.len());
    let n = ids.len() as int;
    assert((n * 0x4000_0000) / n == 0x4000_0000) by (nonlinear_arith)
        requires
            n > 0,
    ;
}

/// A set that shares no identifier with the recent set has the saturation
/// 0.0.
pub proof fn lemma_saturation_disjoint(current: Seq<i64>, recent: Seq<i64>)
    requires
        forall|i: int| 0 <= i < current.len() ==> !recent.contains(#[trigger] current[i]),
    ensures
        saturation_of(current, recent) == 0,
{
    lemma_overlap_none(current, recent, current.len());
}

/// Whether `ids` holds `id`.
pub fn holds(ids: &Vec<i64>, id: i64) -> (found: bool)
    ensures
        found == ids@.contains(id),
{
    let mut i: usize = 0;
    while i < ids.len()
        invariant
            i <= ids@.len(),
            forall|j: int| 0 <= j < i ==> ids@[j] != id,
        decreases ids@.len() - i,
    {
        if ids[i] == id {
            return true;
        }
        i = i + 1;
    }
    false
}

/// The set of identifiers that were activated the time before.
pub struct SaturationGuard {
    recent: Vec<i64>,
}

impl SaturationGuard {
    /// The recent identifiers, in their order.
    pub closed spec fn recent(&self) -> Seq<i64> {
        self.recent@
    }

    /// A guard with an empty recent set.
    pub fn new() -> (guard: Self)
        ensures
            guard.recent() == Seq::<i64>::empty(),
    {
        SaturationGuard { recent: Vec::new() }
    }

    /// The recent identifiers.
    pub fn recent_ids(&self) -> (ids: &Vec<i64>)
        ensures
            ids@ == self.recent(),
    {
        &self.recent
    }

    /// The saturation of `current_ids` against the recent set.
    pub fn saturation(&self, current_ids: &Vec<i64>) -> (share: u32)
        ensures
            share == saturation_of(current_ids@, self.recent()),
            share <= ONE,
    {
        let n = current_ids.len();
        if n == 0 {
            return 0;
        }
        let mut count: usize = 0;
        let mut i: usize = 0;
        while i < n
            invariant
                n == current_ids@.len(),
                i <= n,
                count == overlap_upto(current_ids@, self.recent@, i as nat),
                count <= i,
            decreases n - i,
        {
            if holds(&self.recent, current_ids[i]) {
                count = count + 1;
            }
            i = i + 1;
        }
        proof {
            lemma_saturation_range(current_ids@, self.recent@);
            let c = count as int;
            assert(0 <= c * 0x4000_0000 <= n * 0x4000_0000) by (nonlinear_arith)
                requires
                    0 <= c <= n,
            ;
        }
        ((count as u128 * 0x4000_0000) / (n as u128)) as u32
    }

    /// Replaces the recent set.
    pub fn replace(&mut self, ids: Vec<i64>)
        ensures
            final(self).recent() == ids@,
    {
        self.recent = ids;
    }
}

} // verus!
