//! When the insertion of elements is reported.
use vstd::prelude::*;

verus! {

/// How often progress is reported while a layer is filled.
pub struct Progress {
    /// How many elements one report stands for.
    pub step_size: usize,
}

impl Progress {
    /// About a hundred reports for all of `num_elements`, each for ten of them at least.
    pub fn new(num_elements: usize) -> (r: Self)
        ensures
            r.step_size == (if num_elements / 100 > 10 {
                num_elements / 100
            } else {
                10
            }),
    {
        let step_size: usize = if num_elements / 100 > 10 {
            num_elements / 100
        } else {
            10
        };
        Progress { step_size }
    }

    /// What has been reported of elements that were inserted before: whole steps.
    pub fn start(&self, already_inserted: usize) -> (r: usize)
        requires
            self.step_size > 0,
        ensures
            r <= already_inserted < r + self.step_size,
            r as int % self.step_size as int == 0,
    {
        let steps: usize = already_inserted / self.step_size;
        proof {
            vstd::arithmetic::div_mod::lemma_fundamental_div_mod(
                already_inserted as int,
                self.step_size as int,
            );
            vstd::arithmetic::div_mod::lemma_mod_multiples_basic(
                steps as int,
                self.step_size as int,
            );
            vstd::arithmetic::mul::lemma_mul_is_commutative(steps as int, self.step_size as int);
        }
        self.step_size * steps
    }

    /// Whether a step is reported once element `idx` is inserted.
    pub fn reports(&self, idx: usize) -> (r: bool)
        requires
            self.step_size > 0,
        ensures
            r == (idx as int % self.step_size as int == 0),
    {
        idx % self.step_size == 0
    }
}

} // verus!
