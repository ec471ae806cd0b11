//! Temporal smoothing of the embedding stream.
//!
//! Each new embedding is blended with the one emitted before it, as an
//! exponential moving average, and brought back to unit length.

use crate::fixed::{clamp_to_unit, clamp_unit, floor_div, ONE};
use crate::vector::{l2_normalize, normalized};
use vstd::prelude::*;

verus! {

/// The weight that a new smoother gives to the current embedding: 0.3.
pub const DEFAULT_ALPHA: u32 = 322_122_547;

/// `alpha * current + (1 - alpha) * previous`, rounded down.
pub open spec fn blended(current: int, previous: int, alpha: int) -> int {
    (alpha * current + (0x4000_0000 - alpha) * previous) / 0x4000_0000
}

/// The component-wise blend of two embeddings. Where `previous` is shorter
/// than `current`, the components beyond its end are taken from `current`.
pub open spec fn blend(current: Seq<i32>, previous: Seq<i32>, alpha: u32) -> Seq<i32> {
    Seq::new(
        current.len(),
        |i: int|
            if i < previous.len() {
                blended(current[i] as int, previous[i] as int, alpha as int) as i32
            } else {
                current[i]
            },
    )
}

/// What the smoother emits for `current` after `previous`: `current` itself
/// where nothing came before, else the blend brought to unit length.
pub open spec fn smoothed(previous: Option<Seq<i32>>, current: Seq<i32>, alpha: u32) -> Seq<i32> {
    match previous {
        None => current,
        Some(p) => normalized(blend(current, p, alpha)),
    }
}

/// A blend lies between the two values that it blends.
pub proof fn lemma_blended_range(current: int, previous: int, alpha: int)
    requires
        0 <= alpha <= 0x4000_0000,
    ensures
        current <= previous ==> current <= blended(current, previous, alpha) <= previous,
        previous <= current ==> previous <= blended(current, previous, alpha) <= current,
{
    let beta = 0x4000_0000 - alpha;
    let x = alpha * current + beta * previous;
    if current <= previous {
        assert(0x4000_0000 * current <= x <= 0x4000_0000 * previous) by (nonlinear_arith)
            requires
                x == alpha * current + beta * previous,
                alpha + beta == 0x4000_0000,
                alpha >= 0,
                beta >= 0,
                current <= previous,
        ;
        assert(current <= x / 0x4000_0000 <= previous) by (nonlinear_arith)
            requires
                0x4000_0000 * current <= x <= 0x4000_0000 * previous,
        ;
    }
    if previous <= current {
        assert(0x4000_0000 * previous <= x <= 0x4000_0000 * current) by (nonlinear_arith)
            requires
                x == alpha * current + beta * previous,
                alpha + beta == 0x4000_0000,
                alpha >= 0,
                beta >= 0,
                previous <= current,
        ;
        assert(previous <= x / 0x4000_0000 <= current) by (nonlinear_arith)
            requires
                0x4000_0000 * previous <= x <= 0x4000_0000 * current,
        ;
    }
}

/// Blends one component.
fn blend_component(current: i32, previous: i32, alpha: u32) -> (mixed: i32)
    requires
        alpha <= ONE,
    ensures
        mixed == blended(current as int, previous as int, alpha as int),
{
    let a = alpha as i64;
    let b = ONE as i64 - a;
    proof {
        lemma_blended_range(current as int, previous as int, alpha as int);
        let c = current as int;
        let p = previous as int;
        assert(-0x2000_0000_0000_0000 <= a * c <= 0x2000_0000_0000_0000) by (nonlinear_arith)
            requires
                0 <= a <= 0x4000_0000,
                -0x8000_0000 <= c <= 0x8000_0000,
        ;
        assert(-0x2000_0000_0000_0000 <= b * p <= 0x2000_0000_0000_0000) by (nonlinear_arith)
            requires
                0 <= b <= 0x4000_0000,
                -0x8000_0000 <= p <= 0x8000_0000,
        ;
    }
    let x: i64 = a * (current as i64) + b * (previous as i64);
    floor_div(x as i128, ONE as i128) as i32
}

/// An exponential moving average over a stream of embeddings.
pub struct TemporalSmoother {
    previous: Option<Vec<i32>>,
    alpha: u32,
}

impl TemporalSmoother {
    /// The embedding emitted last, if any.
    pub closed spec fn previous(&self) -> Option<Seq<i32>> {
        match self.previous {
            None => None,
            Some(v) => Some(v@),
        }
    }

    /// The weight of the current embedding in a blend.
    pub closed spec fn alpha(&self) -> u32 {
        self.alpha
    }

    /// The invariant of a smoother: its weight lies between 0.0 and 1.0.
    pub open spec fn wf(&self) -> bool {
        self.alpha() <= ONE
    }

    /// A smoother with the default weight and no previous embedding.
    pub fn new() -> (smoother: Self)
        ensures
            smoother.wf(),
            smoother.previous() is None,
            smoother.alpha() == DEFAULT_ALPHA,
    {
        TemporalSmoother { previous: None, alpha: DEFAULT_ALPHA }
    }

    /// Sets the weight of the current embedding, limited to the range from 0.0
    /// to 1.0.
    pub fn set_alpha(&mut self, alpha: i64)
        ensures
            final(self).wf(),
            final(self).alpha() == clamp_unit(alpha as int),
            final(self).previous() == old(self).previous(),
    {
        self.alpha = clamp_to_unit(alpha);
    }

    /// The weight of the current embedding.
    pub fn current_alpha(&self) -> (alpha: u32)
        ensures
            alpha == self.alpha(),
    {
        self.alpha
    }

    /// Whether an embedding has been emitted since the last reset.
    pub fn has_previous(&self) -> (has: bool)
        ensures
            has == self.previous() is Some,
    {
        self.previous.is_some()
    }

    /// Smooths `current` against the embedding emitted before, remembers the
    /// result for the next call and returns it. The first embedding after a
    /// reset is emitted as it is.
    pub fn smooth(&mut self, current: Vec<i32>) -> (emitted: Vec<i32>)
        requires
            old(self).wf(),
        ensures
            final(self).wf(),
            final(self).alpha() == old(self).alpha(),
            emitted@ == smoothed(old(self).previous(), current@, old(self).alpha()),
            final(self).previous() == Some(emitted@),
    {
        let mut emitted = current;
        match &self.previous {
            None => {},
            Some(previous) => {
                let n = emitted.len();
                let m = previous.len();
                let mut i: usize = 0;
                while i < n && i < m
                    invariant
                        n == emitted@.len(),
                        n == current@.len(),
                        m == previous@.len(),
                        i <= n,
                        i <= m,
                        self.alpha <= ONE,
                        forall|j: int|
                            0 <= j < i ==> emitted@[j] == blended(
                                current@[j] as int,
                                previous@[j] as int,
                                self.alpha as int,
                            ) as i32,
                        forall|j: int| i <= j < n ==> emitted@[j] == current@[j],
                    decreases n - i,
                {
                    let mixed = blend_component(emitted[i], previous[i], self.alpha);
                    emitted.set(i, mixed);
                    i = i + 1;
                }
                proof {
                    assert(emitted@ =~= blend(current@, previous@, self.alpha));
                }
                l2_normalize(&mut emitted);
            },
        }
        self.previous = Some(emitted.clone());
        emitted
    }

    /// Forgets the previous embedding, so that the next one is emitted as it
    /// is.
    pub fn reset(&mut self)
        ensures
            final(self).wf() == old(self).wf(),
            final(self).alpha() == old(self).alpha(),
            final(self).previous() is None,
    {
        self.previous = None;
    }
}

} // verus!
