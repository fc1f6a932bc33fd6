pub mod greedy;
pub mod planner;
pub mod sampler;
pub mod world;

use vstd::prelude::*;

verus! {

/// Planning-run parameters: pool size, committee size, grid height and
/// width, and the turn budget.
#[derive(Clone, Copy, PartialEq, Eq, Structural, Debug)]
pub struct Config {
    pub n: usize,
    pub k: usize,
    pub h: usize,
    pub w: usize,
    pub t: usize,
}

impl Config {
    /// Parameters under which every component's arithmetic stays in range:
    /// a nonempty grid, a committee no larger than the pool, and score sums
    /// that fit in an `i32`.
    pub open spec fn valid(self) -> bool {
        &&& 0 < self.h
        &&& 0 < self.w
        &&& self.k <= self.n
        &&& self.h * self.w <= 0x7fff_ffff
        &&& self.k * (self.h * self.w) <= 0x7fff_ffff
    }

    /// Runtime check that the parameters are acceptable.
    pub fn check_valid(&self) -> (r: bool)
        ensures
            r == self.valid(),
    {
        if self.h == 0 || self.w == 0 || self.k > self.n {
            return false;
        }
        if self.h > 0x7fff_ffff || self.w > 0x7fff_ffff || self.k > 0x7fff_ffff {
            proof {
                lemma_big_factor_big_product(self.h as int, self.w as int, self.k as int);
            }
            return false;
        }
        proof {
            lemma_product_of_bounded(self.h as int, self.w as int, 0x7fff_ffff);
        }
        let hw: u64 = (self.h as u64) * (self.w as u64);
        if hw > 0x7fff_ffff {
            return false;
        }
        proof {
            lemma_product_of_bounded(self.k as int, hw as int, 0x7fff_ffff);
        }
        let khw: u64 = (self.k as u64) * hw;
        khw <= 0x7fff_ffff
    }
}

proof fn lemma_product_of_bounded(a: int, b: int, m: int)
    requires
        0 <= a <= m,
        0 <= b <= m,
        0 <= m,
    ensures
        a * b <= m * m,
{
    assert(a * b <= m * m) by (nonlinear_arith)
        requires
            0 <= a <= m,
            0 <= b <= m,
    ;
}

proof fn lemma_big_factor_big_product(h: int, w: int, k: int)
    requires
        0 < h,
        0 < w,
    ensures
        h > 0x7fff_ffff || w > 0x7fff_ffff ==> h * w > 0x7fff_ffff,
        k > 0x7fff_ffff ==> k * (h * w) > 0x7fff_ffff,
{
    assert(h > 0x7fff_ffff || w > 0x7fff_ffff ==> h * w > 0x7fff_ffff) by (nonlinear_arith)
        requires
            0 < h,
            0 < w,
    ;
    assert(k > 0x7fff_ffff ==> k * (h * w) > 0x7fff_ffff) by (nonlinear_arith)
        requires
            0 < h,
            0 < w,
    ;
}

} // verus!
