//! Per-layer scheduling: which layers are composed and at what target size.
//! Layer 1 is full resolution; each later layer halves the target, and layer
//! 0 doubles it. Rounding is to the nearest integer, halves away from zero.
//! A toggle skips every layer with index above 1.

use vstd::arithmetic::power2::{
    lemma2_to64, lemma2_to64_rest, lemma_pow2_pos, lemma_pow2_strictly_increases, pow2,
};
use vstd::arithmetic::div_mod::{lemma_fundamental_div_mod, lemma_fundamental_div_mod_converse};
use vstd::prelude::*;

use crate::manifest::DziFile;

verus! {

/// The exact target dimension of layer `index` for a pyramid dimension
/// `dim`: `dim * 0.5^(index - 1)` rounded to the nearest integer, halves
/// rounded up. Layer 0 doubles, layer 1 is `dim` itself, layer `i` beyond
/// that halves `i - 1` times.
pub open spec fn spec_target(dim: u32, index: nat) -> int {
    if index == 0 {
        2 * dim
    } else {
        (2 * dim + pow2((index - 1) as nat)) as int / (2 * pow2((index - 1) as nat)) as int
    }
}

/// `spec_target` clamped to `u32`, as the composer receives it.
pub open spec fn sat_target(dim: u32, index: nat) -> u32 {
    if spec_target(dim, index) > u32::MAX {
        u32::MAX
    } else {
        spec_target(dim, index) as u32
    }
}

/// The target dimension of layer `index`, clamped to `u32`: exactly
/// `sat_target`.
pub fn layer_target(dim: u32, index: usize) -> (r: u32)
    ensures
        r == sat_target(dim, index as nat),
{
    if index == 0 {
        if dim >= 0x8000_0000u32 {
            u32::MAX
        } else {
            2 * dim
        }
    } else {
        let k = index - 1;
        if k > 32 {
            proof {
                lemma2_to64();
                lemma2_to64_rest();
                if k > 33 {
                    lemma_pow2_strictly_increases(33, k as nat);
                }
                let d = pow2(k as nat) as int;
                assert(2 * dim + d < 2 * d);
                lemma_fundamental_div_mod_converse(2 * dim + d, 2 * d, 0, 2 * dim + d);
            }
            0
        } else {
            let mut d: u64 = 1;
            let mut j: usize = 0;
            proof {
                lemma2_to64();
            }
            while j < k
                invariant
                    0 <= j <= k <= 32,
                    d == pow2(j as nat),
                    d <= 0x1_0000_0000u64,
                decreases k - j,
            {
                proof {
                    lemma2_to64();
                    if j + 1 < 32 {
                        lemma_pow2_strictly_increases((j + 1) as nat, 32);
                    }
                }
                d = d * 2;
                j = j + 1;
            }
            let num: u64 = 2 * (dim as u64) + d;
            let den: u64 = 2 * d;
            let q: u64 = num / den;
            proof {
                lemma_pow2_pos(k as nat);
                lemma_fundamental_div_mod(num as int, den as int);
                vstd::arithmetic::div_mod::lemma_mod_bound(num as int, den as int);
                let qq = num as int / den as int;
                let rr = num as int % den as int;
                assert(qq <= dim) by (nonlinear_arith)
                    requires
                        den as int == 2 * d,
                        d >= 1,
                        num as int == 2 * dim + d,
                        num as int == den as int * qq + rr,
                        0 <= rr < den as int,
                        dim >= 0,
                ;
            }
            q as u32
        }
    }
}

/// The scale anchor sits at index 1, not 0: layer 1 is composed at full
/// resolution and layer 0 at double resolution, for every dimension.
pub proof fn lemma_scale_anchor(dim: u32)
    ensures
        spec_target(dim, 1) == dim,
        spec_target(dim, 0) == 2 * dim,
{
    lemma2_to64();
    lemma_fundamental_div_mod_converse(2 * dim + 1, 2, dim as int, 1);
}

/// Whether layer `index` is composed at all: layers 0 and 1 always, later
/// layers only when the lower-layers toggle is on.
pub fn should_compose(index: usize, enable_lower: bool) -> (r: bool)
    ensures
        r == (index <= 1 || enable_lower),
{
    index <= 1 || enable_lower
}

/// One unit of composition work: a layer index and its target dimensions.
#[derive(Clone, Copy, Debug, PartialEq, Eq, Structural)]
pub struct LayerJob {
    pub index: usize,
    pub target_w: u32,
    pub target_h: u32,
}

/// The job for layer `index` of a `w` by `h` pyramid.
pub open spec fn spec_job(w: u32, h: u32, index: nat) -> LayerJob {
    LayerJob { index: index as usize, target_w: sat_target(w, index), target_h: sat_target(h, index) }
}

/// The jobs for the first `n` layers, in ascending index order, keeping
/// exactly the layers that `should_compose` keeps.
pub open spec fn spec_jobs(w: u32, h: u32, n: nat, enable_lower: bool) -> Seq<LayerJob>
    decreases n,
{
    if n == 0 {
        Seq::empty()
    } else {
        spec_jobs(w, h, (n - 1) as nat, enable_lower) + (if n - 1 <= 1 || enable_lower {
            seq![spec_job(w, h, (n - 1) as nat)]
        } else {
            Seq::empty()
        })
    }
}

/// With the lower-layers toggle off, only layers 0 and 1 are ever composed:
/// the job list of a pyramid with any number of layers beyond two equals the
/// job list of its first two.
pub proof fn lemma_jobs_lower_disabled(w: u32, h: u32, n: nat)
    requires
        n >= 2,
    ensures
        spec_jobs(w, h, n, false) == spec_jobs(w, h, 2, false),
        spec_jobs(w, h, n, false) == seq![spec_job(w, h, 0), spec_job(w, h, 1)],
    decreases n,
{
    if n == 2 {
        assert(spec_jobs(w, h, 0, false) =~= Seq::<LayerJob>::empty());
        assert(spec_jobs(w, h, 1, false) =~= seq![spec_job(w, h, 0)]);
        assert(spec_jobs(w, h, 2, false) =~= seq![spec_job(w, h, 0), spec_job(w, h, 1)]);
    } else {
        lemma_jobs_lower_disabled(w, h, (n - 1) as nat);
        assert(spec_jobs(w, h, n, false) =~= spec_jobs(w, h, (n - 1) as nat, false));
    }
}

/// The composition jobs for a parsed manifest: one per layer that the
/// toggle keeps, in ascending index order, with the halving targets.
pub fn layer_jobs(file: &DziFile, enable_lower: bool) -> (r: Vec<LayerJob>)
    ensures
        r@ == spec_jobs(file.width, file.height, file.layers@.len() as nat, enable_lower),
{
    let mut r: Vec<LayerJob> = Vec::new();
    let mut i: usize = 0;
    let n = file.layers.len();
    proof {
        assert(r@ =~= spec_jobs(file.width, file.height, 0, enable_lower));
    }
    while i < n
        invariant
            0 <= i <= n,
            n == file.layers@.len(),
            r@ == spec_jobs(file.width, file.height, i as nat, enable_lower),
        decreases n - i,
    {
        if should_compose(i, enable_lower) {
            let tw = layer_target(file.width, i);
            let th = layer_target(file.height, i);
            let ghost old_r = r@;
            r.push(LayerJob { index: i, target_w: tw, target_h: th });
            proof {
                assert(r@ =~= old_r + seq![spec_job(file.width, file.height, i as nat)]);
            }
        } else {
            proof {
                assert(r@ =~= spec_jobs(file.width, file.height, (i + 1) as nat, enable_lower));
            }
        }
        i = i + 1;
    }
    r
}

} // verus!
