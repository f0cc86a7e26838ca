//! Enumeration of the peaks of a structure from its node count alone.

use vstd::prelude::*;

verus! {

/// Two to the power `n`.
pub open spec fn exp2(n: nat) -> nat
    decreases n,
{
    if n == 0 {
        1
    } else {
        2 * exp2((n - 1) as nat)
    }
}

pub proof fn lemma_exp2_pos(n: nat)
    ensures
        exp2(n) >= 1,
    decreases n,
{
    if n > 0 {
        lemma_exp2_pos((n - 1) as nat);
    }
}

pub proof fn lemma_exp2_mono(a: nat, b: nat)
    requires
        a <= b,
    ensures
        exp2(a) <= exp2(b),
    decreases b - a,
{
    if a < b {
        lemma_exp2_mono(a, (b - 1) as nat);
        lemma_exp2_pos((b - 1) as nat);
    }
}

pub proof fn lemma_exp2_64()
    ensures
        exp2(64) == 0x1_0000_0000_0000_0000,
{
    reveal_with_fuel(exp2, 65);
}

/// The peaks, left to right, of the perfect trees of heights `h`, `h - 1`, ..., `0` that are taken
/// greedily, each where it fits, from `remaining` nodes numbered from `base` on. A perfect tree of
/// height `h` has `2^(h+1) - 1` nodes and its peak is its last position.
pub open spec fn peaks_from(base: int, remaining: int, h: int) -> Seq<(u64, u32)>
    decreases h + 1,
{
    if h < 0 {
        Seq::empty()
    } else {
        let t = exp2((h + 1) as nat) - 1;
        if t <= remaining {
            seq![((base + t - 1) as u64, h as u32)] + peaks_from(base + t, remaining - t, h - 1)
        } else {
            peaks_from(base, remaining, h - 1)
        }
    }
}

/// The `(position, height)` of each peak of a structure of `size` nodes, left to right.
pub open spec fn peaks_of(size: u64) -> Seq<(u64, u32)> {
    peaks_from(0, size as int, 63)
}

/// Position of the leftmost node of the perfect tree whose peak is at `pos` with height `h`.
pub open spec fn leftmost_of(pos: u64, h: u32) -> int {
    pos + 2 - 2 * exp2(h as nat)
}

/// A peak of a structure of `size` nodes: its whole tree lies within the positions below `size`.
pub open spec fn peak_fits(p: (u64, u32), size: u64) -> bool {
    &&& p.1 < 64
    &&& p.0 < size
    &&& leftmost_of(p.0, p.1) >= 0
}

/// The peaks of a structure of `size` nodes, left to right, each as `(position, height)`.
pub fn peaks(size: u64) -> (r: Vec<(u64, u32)>)
    ensures
        r@ == peaks_of(size),
        forall|i: int| 0 <= i < r@.len() ==> peak_fits(#[trigger] r@[i], size),
{
    let mut out: Vec<(u64, u32)> = Vec::new();
    let mut base: u64 = 0;
    let mut remaining: u64 = size;
    // `t` is the node count of a perfect tree of height `k - 1`
    let mut t: u64 = u64::MAX;
    let mut k: u32 = 64;
    proof {
        lemma_exp2_64();
        assert(out@ + peaks_from(0, size as int, 63) =~= peaks_of(size));
    }
    while k > 0
        invariant
            k <= 64,
            t == exp2(k as nat) - 1,
            base + remaining == size,
            out@ + peaks_from(base as int, remaining as int, k - 1) == peaks_of(size),
            forall|i: int| 0 <= i < out@.len() ==> peak_fits(#[trigger] out@[i], size),
        decreases k,
    {
        let ghost old_out = out@;
        proof {
            assert(exp2(k as nat) == 2 * exp2((k - 1) as nat));
            lemma_exp2_pos((k - 1) as nat);
        }
        if t <= remaining {
            let p = (base + t - 1, k - 1);
            out.push(p);
            assert(peak_fits(p, size));
            proof {
                assert(out@ + peaks_from(base + t, remaining - t, k - 2) =~= old_out + peaks_from(
                    base as int,
                    remaining as int,
                    k - 1,
                ));
            }
            base = base + t;
            remaining = remaining - t;
        }
        t = t / 2;
        k = k - 1;
    }
    assert(out@ + peaks_from(base as int, remaining as int, -1) =~= out@);
    out
}

} // verus!
