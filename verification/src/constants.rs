//! The tolerance, the iteration budget and the partition width of the root
//! search, with their reference values.

use vstd::prelude::*;
use crate::fixed::Fixed;

verus! {

/// Reference tolerance, in raw units: the representable number nearest to one
/// ten-thousandth. A number strictly between `-EPSILON` and `EPSILON` is
/// considered zero.
pub const EPSILON: i64 = 429_497;

/// Reference number of refinement steps of the false position method.
pub const ITERATIONS: u32 = 20;

/// Reference width of a partition cell, in raw units: the representable
/// number nearest to one hundredth. Of two roots in one cell only one is
/// found.
pub const PARTITION_SIZE: i64 = 42_949_673;

/// The three parameters of a root search. The tolerance and the partition
/// width of every value of this type are positive.
pub struct Settings {
    epsilon: Fixed,
    iterations: u32,
    partition_size: Fixed,
}

impl Settings {
    #[verifier::type_invariant]
    spec fn positive(self) -> bool {
        self.epsilon@ > 0 && self.partition_size@ > 0
    }

    /// Raw value of the tolerance.
    pub closed spec fn tolerance(self) -> int {
        self.epsilon@
    }

    /// Number of refinement steps per bracket.
    pub closed spec fn budget(self) -> nat {
        self.iterations as nat
    }

    /// Raw value of the partition width.
    pub closed spec fn width(self) -> int {
        self.partition_size@
    }

    /// The tolerance and the partition width are raw values of numbers.
    pub proof fn lemma_parameters_are_raw(self)
        ensures
            i64::MIN <= self.tolerance() <= i64::MAX,
            i64::MIN <= self.width() <= i64::MAX,
    {
    }

    /// The reference settings.
    pub closed spec fn reference_settings() -> Settings {
        Settings {
            epsilon: Fixed { raw: EPSILON },
            iterations: ITERATIONS,
            partition_size: Fixed { raw: PARTITION_SIZE },
        }
    }

    /// The reference settings hold the three reference values.
    pub proof fn lemma_reference_settings()
        ensures
            Settings::reference_settings().tolerance() == EPSILON,
            Settings::reference_settings().budget() == ITERATIONS,
            Settings::reference_settings().width() == PARTITION_SIZE,
    {
    }

    /// Settings with the given parameters, or `None` unless the tolerance and
    /// the partition width are both positive.
    pub fn new(epsilon: Fixed, iterations: u32, partition_size: Fixed) -> (r: Option<Settings>)
        ensures
            r is Some <==> epsilon@ > 0 && partition_size@ > 0,
            r matches Some(s) ==> s.tolerance() == epsilon@ && s.budget() == iterations
                && s.width() == partition_size@,
    {
        if epsilon.raw > 0 && partition_size.raw > 0 {
            Some(Settings { epsilon, iterations, partition_size })
        } else {
            None
        }
    }

    /// The reference settings.
    pub fn reference() -> (r: Settings)
        ensures
            r == Settings::reference_settings(),
            r.tolerance() == EPSILON,
            r.budget() == ITERATIONS,
            r.width() == PARTITION_SIZE,
    {
        Settings {
            epsilon: Fixed { raw: EPSILON },
            iterations: ITERATIONS,
            partition_size: Fixed { raw: PARTITION_SIZE },
        }
    }

    /// The tolerance.
    pub fn epsilon(&self) -> (r: Fixed)
        ensures
            r@ == self.tolerance(),
            r@ > 0,
    {
        proof {
            use_type_invariant(self);
        }
        self.epsilon
    }

    /// The number of refinement steps per bracket.
    pub fn iterations(&self) -> (r: u32)
        ensures
            r == self.budget(),
    {
        self.iterations
    }

    /// The partition width.
    pub fn partition_size(&self) -> (r: Fixed)
        ensures
            r@ == self.width(),
            r@ > 0,
    {
        proof {
            use_type_invariant(self);
        }
        self.partition_size
    }
}

} // verus!
