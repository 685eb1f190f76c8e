//! Sizes in the policy's convolution stack: four convolutions with padding 1
//! (kernel 5 stride 3, then three of kernel 3 stride 2) ending in 512
//! channels.
use vstd::prelude::*;

verus! {

/// The length along one axis after a convolution with padding 1, kernel `k`
/// and stride `s` over length `n`.
pub open spec fn conv_len(n: int, k: int, s: int) -> int {
    (n + 2 - k) / s + 1
}

/// The length along one axis after the whole stack.
pub open spec fn stack_len(n: int) -> int {
    conv_len(conv_len(conv_len(conv_len(n, 5, 3), 3, 2), 3, 2), 3, 2)
}

fn axis_len(n: usize) -> (r: usize)
    requires
        n >= 3,
    ensures
        r == stack_len(n as int),
        1 <= r <= n,
{
    let a: usize = (n - 3) / 3 + 1;
    let b: usize = (a + 2 - 3) / 2 + 1;
    let c: usize = (b + 2 - 3) / 2 + 1;
    let d: usize = (c + 2 - 3) / 2 + 1;
    d
}

/// The number of features the stack yields for a `h` by `w` screen: 512
/// channels times the final height times the final width. The screen must
/// be at least 3 by 3, as the first convolution needs.
pub fn flat_size(h: usize, w: usize) -> (n: usize)
    requires
        h >= 3,
        w >= 3,
        512 * stack_len(h as int) * stack_len(w as int) <= usize::MAX,
    ensures
        n == 512 * stack_len(h as int) * stack_len(w as int),
{
    let hh: usize = axis_len(h);
    let ww: usize = axis_len(w);
    proof {
        assert(512 * hh <= 512 * hh * ww) by (nonlinear_arith)
            requires
                ww >= 1,
        ;
    }
    512 * hh * ww
}

} // verus!
