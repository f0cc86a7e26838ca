//! An in-memory accumulator that appends elements, reports its root and builds proofs.

use crate::hashing::{leaf_digest, leaf_hash, node_digest, node_hash, root_digest};
use crate::completeness::{
    covered_leaves, elements_at, formed, formed_tree, lemma_inclusion_proof_verifies,
    lemma_range_proof_verifies, lemma_reach_bounds, leaf_in_peak, reaches_leaf,
};
use crate::verification::verifies;
use crate::peaks::{
    exp2, leftmost_of, lemma_exp2_64, lemma_exp2_mono, lemma_exp2_pos, peak_fits, peaks, peaks_from,
    peaks_of,
};
use crate::verification::{exp2_u64, is_pow2, views, Proof};
use vstd::prelude::*;

verus! {

/// A Merkle Mountain Range held in memory: the digest of every node, by position, and the stack of
/// its current peaks as `(position, height)`, left to right.
pub struct Mmr {
    nodes: Vec<Vec<u8>>,
    peak_stack: Vec<(u64, u64)>,
    appended: Ghost<Seq<(u64, Seq<u8>)>>,
}

/// The sibling digests that a verifier takes, in the order it takes them, to rebuild the node at
/// `pos` with `two_h` leaves below it for the range `lo..=hi`.
pub open spec fn siblings(nodes: Seq<Seq<u8>>, pos: u64, two_h: nat, lo: u64, hi: u64) -> Seq<
    Seq<u8>,
>
    decreases two_h,
{
    if two_h <= 1 {
        Seq::empty()
    } else {
        let left_pos = (pos - two_h) as u64;
        let right_pos = (pos - 1) as u64;
        let l = if left_pos >= lo {
            siblings(nodes, left_pos, two_h / 2, lo, hi)
        } else {
            seq![nodes[left_pos as int]]
        };
        let r = if left_pos < hi {
            siblings(nodes, right_pos, two_h / 2, lo, hi)
        } else {
            seq![nodes[right_pos as int]]
        };
        l + r
    }
}

/// Over the first `k` peaks of `ps`: the digests of the peaks that lie outside `lo..=hi`, and the
/// sibling digests needed for the others, in the order a verifier takes them.
pub open spec fn proof_parts(nodes: Seq<Seq<u8>>, ps: Seq<(u64, u32)>, k: nat, lo: u64, hi: u64) -> (
    Seq<Seq<u8>>,
    Seq<Seq<u8>>,
)
    decreases k,
{
    if k == 0 {
        (Seq::empty(), Seq::empty())
    } else {
        let prev = proof_parts(nodes, ps, (k - 1) as nat, lo, hi);
        let p = ps[k - 1];
        if p.0 >= lo && leftmost_of(p.0, p.1) <= hi {
            (prev.0, prev.1 + siblings(nodes, p.0, exp2(p.1 as nat), lo, hi))
        } else {
            (prev.0.push(nodes[p.0 as int]), prev.1)
        }
    }
}

/// The hashes of the proof for `lo..=hi` in a structure with the given node digests: the outside
/// peaks first, then the siblings with the first one taken last.
pub open spec fn proof_hashes(nodes: Seq<Seq<u8>>, lo: u64, hi: u64) -> Seq<Seq<u8>> {
    let ps = peaks_of(nodes.len() as u64);
    let parts = proof_parts(nodes, ps, ps.len(), lo, hi);
    parts.0 + Seq::new(parts.1.len(), |i: int| parts.1[parts.1.len() - 1 - i])
}

/// The digests of the peaks of a structure with the given node digests, left to right.
pub open spec fn peak_digests(nodes: Seq<Seq<u8>>) -> Seq<Seq<u8>> {
    peaks_of(nodes.len() as u64).map_values(|p: (u64, u32)| nodes[p.0 as int])
}

/// Position of the leftmost node of the tree that a stack entry `(position, height)` tops.
pub open spec fn start_of(e: (u64, u64)) -> int {
    e.0 + 2 - 2 * exp2(e.1 as nat)
}

/// The trees of the stack lie side by side from position 0 up to the last of `len` nodes.
pub open spec fn side_by_side(s: Seq<(u64, u64)>, len: int) -> bool {
    &&& s.len() == 0 ==> len == 0
    &&& s.len() > 0 ==> start_of(s[0]) == 0 && s[s.len() - 1].0 == len - 1
    &&& forall|i: int| 0 <= i < s.len() ==> start_of(#[trigger] s[i]) >= 0
    &&& forall|i: int| 0 <= i && i + 1 < s.len() ==> start_of(#[trigger] s[i + 1]) == s[i].0 + 1
}

/// The heights on the stack fall strictly from left to right.
pub open spec fn descending(s: Seq<(u64, u64)>) -> bool {
    forall|i: int| 0 <= i && i + 1 < s.len() ==> (#[trigger] s[i]).1 > s[i + 1].1
}

/// The heights fall strictly but for the last, which is at most the one before it.
pub open spec fn descending_but_last(s: Seq<(u64, u64)>) -> bool {
    &&& forall|i: int| 0 <= i && i + 2 < s.len() ==> (#[trigger] s[i]).1 > s[i + 1].1
    &&& s.len() >= 2 ==> s[s.len() - 1].1 <= s[s.len() - 2].1
}

/// Whether `q` is a leaf of one of the trees on the stack.
pub open spec fn under_stack(s: Seq<(u64, u64)>, q: u64) -> bool {
    exists|k: int| 0 <= k < s.len() && #[trigger] reaches_leaf(s[k].0, exp2(s[k].1 as nat), q)
}

/// Every appended element stands, as a leaf digest, at its position under one of the trees.
pub open spec fn leaves_kept(nodes: Seq<Seq<u8>>, s: Seq<(u64, u64)>, appended: Seq<(u64, Seq<u8>)>) -> bool {
    forall|i: int|
        0 <= i < appended.len() ==> {
            &&& nodes[(#[trigger] appended[i]).0 as int] == leaf_digest(appended[i].0, appended[i].1)
            &&& appended[i].0 < nodes.len()
            &&& under_stack(s, appended[i].0)
        }
}

/// Every tree on the stack is formed.
pub open spec fn trees_formed(nodes: Seq<Seq<u8>>, s: Seq<(u64, u64)>) -> bool {
    forall|i: int| 0 <= i < s.len() ==> formed_tree(nodes, (#[trigger] s[i]).0, exp2(s[i].1 as nat))
}

proof fn lemma_formed_tree_extend(nodes: Seq<Seq<u8>>, x: Seq<u8>, pos: u64, h: nat)
    requires
        formed_tree(nodes, pos, exp2(h)),
        pos < nodes.len(),
        pos + 2 >= 2 * exp2(h),
    ensures
        formed_tree(nodes.push(x), pos, exp2(h)),
    decreases h,
{
    if h > 0 {
        assert(exp2(h) == 2 * exp2((h - 1) as nat));
        lemma_exp2_pos((h - 1) as nat);
        assert(exp2(h) / 2 == exp2((h - 1) as nat));
        let left_pos = (pos - exp2(h)) as u64;
        let right_pos = (pos - 1) as u64;
        lemma_formed_tree_extend(nodes, x, left_pos, (h - 1) as nat);
        lemma_formed_tree_extend(nodes, x, right_pos, (h - 1) as nat);
        assert(nodes.push(x)[pos as int] == nodes[pos as int]);
        assert(nodes.push(x)[left_pos as int] == nodes[left_pos as int]);
        assert(nodes.push(x)[right_pos as int] == nodes[right_pos as int]);
    }
}

proof fn lemma_trees_formed_extend(nodes: Seq<Seq<u8>>, x: Seq<u8>, s: Seq<(u64, u64)>)
    requires
        trees_formed(nodes, s),
        side_by_side(s, nodes.len() as int),
    ensures
        trees_formed(nodes.push(x), s),
{
    assert forall|i: int| 0 <= i < s.len() implies formed_tree(
        nodes.push(x),
        (#[trigger] s[i]).0,
        exp2(s[i].1 as nat),
    ) by {
        lemma_stack_positions(s, nodes.len() as int, i);
        lemma_formed_tree_extend(nodes, x, s[i].0, s[i].1 as nat);
    }
}

/// Each tree of the stack ends before the last node.
proof fn lemma_stack_positions(s: Seq<(u64, u64)>, len: int, i: int)
    requires
        side_by_side(s, len),
        0 <= i < s.len(),
    ensures
        s[i].0 < len,
    decreases s.len() - i,
{
    assert(start_of(s[i]) >= 0);
    lemma_exp2_pos(s[i].1 as nat);
    if i + 1 < s.len() {
        lemma_exp2_pos(s[i + 1].1 as nat);
        lemma_stack_positions(s, len, i + 1);
        assert(start_of(s[i + 1]) == s[i].0 + 1);
        assert(start_of(s[i + 1]) <= s[i + 1].0);
    }
}

/// The trees of a stack that starts at `base` span at most `2^(h+2) - 2` nodes, `h` being the
/// height of the first.
proof fn lemma_span(s: Seq<(u64, u64)>, base: int, len: int)
    requires
        s.len() > 0,
        start_of(s[0]) == base,
        s[s.len() - 1].0 == len - 1,
        forall|i: int| 0 <= i && i + 1 < s.len() ==> start_of(#[trigger] s[i + 1]) == s[i].0 + 1,
        descending(s),
    ensures
        len - base <= 2 * exp2(s[0].1 as nat + 1) - 2,
    decreases s.len(),
{
    let h0 = s[0].1 as nat;
    assert(exp2(h0 + 1) == 2 * exp2(h0));
    assert(exp2(h0 + 2) == 2 * exp2(h0 + 1));
    lemma_exp2_pos(h0);
    if s.len() > 1 {
        let rest = s.drop_first();
        assert(rest[0] == s[1]);
        assert(rest[rest.len() - 1] == s[s.len() - 1]);
        assert forall|i: int| 0 <= i && i + 1 < rest.len() implies start_of(#[trigger] rest[i + 1])
            == rest[i].0 + 1 by {
            assert(rest[i + 1] == s[i + 2]);
            assert(rest[i] == s[i + 1]);
        }
        assert forall|i: int| 0 <= i && i + 1 < rest.len() implies (#[trigger] rest[i]).1 > rest[i
            + 1].1 by {
            assert(rest[i + 1] == s[i + 2]);
            assert(rest[i] == s[i + 1]);
        }
        lemma_span(rest, s[0].0 + 1, len);
        assert(s[0].1 > s[1].1);
        lemma_exp2_mono(s[1].1 as nat + 1, h0);
    }
}

proof fn lemma_descending_first(s: Seq<(u64, u64)>, k: int)
    requires
        descending(s),
        0 < k < s.len(),
    ensures
        s[0].1 > s[k].1,
    decreases k,
{
    if k > 1 {
        lemma_descending_first(s, k - 1);
    }
    assert(s[k - 1].1 > s[k].1);
}

/// A stack of trees side by side from `base`, with heights falling from at most `h`, is what the
/// greedy enumeration takes from `base` on.
proof fn lemma_stack_is_peaks(s: Seq<(u64, u64)>, base: int, len: int, h: int)
    requires
        0 <= base <= len <= u64::MAX,
        h <= 63,
        s.len() == 0 ==> base == len,
        s.len() > 0 ==> start_of(s[0]) == base && s[s.len() - 1].0 == len - 1 && s[0].1 <= h,
        forall|i: int| 0 <= i && i + 1 < s.len() ==> start_of(#[trigger] s[i + 1]) == s[i].0 + 1,
        forall|i: int| 0 <= i < s.len() ==> (#[trigger] s[i]).0 < len,
        descending(s),
    ensures
        peaks_from(base, len - base, h) == s.map_values(|e: (u64, u64)| (e.0, e.1 as u32)),
    decreases h + 1,
{
    let m = s.map_values(|e: (u64, u64)| (e.0, e.1 as u32));
    if h < 0 {
        assert(s.len() == 0);
        assert(m =~= Seq::empty());
    } else {
        let t = exp2((h + 1) as nat) - 1;
        assert(exp2((h + 1) as nat) == 2 * exp2(h as nat));
        lemma_exp2_pos(h as nat);
        if s.len() > 0 && s[0].1 == h {
            let rest = s.drop_first();
            if rest.len() > 0 {
                assert(rest[0] == s[1]);
                assert(s[0].1 > s[1].1);
                assert(rest[rest.len() - 1] == s[s.len() - 1]);
            }
            assert(s[0].0 < len);
            assert forall|i: int| 0 <= i < rest.len() implies (#[trigger] rest[i]).0 < len by {
                assert(rest[i] == s[i + 1]);
            }
            assert forall|i: int| 0 <= i && i + 1 < rest.len() implies start_of(
                #[trigger] rest[i + 1],
            ) == rest[i].0 + 1 by {
                assert(rest[i + 1] == s[i + 2]);
                assert(rest[i] == s[i + 1]);
            }
            assert forall|i: int| 0 <= i && i + 1 < rest.len() implies (#[trigger] rest[i]).1
                > rest[i + 1].1 by {
                assert(rest[i + 1] == s[i + 2]);
                assert(rest[i] == s[i + 1]);
            }
            if rest.len() == 0 {
                assert(s.len() == 1);
            }
            lemma_stack_is_peaks(rest, base + t, len, h - 1);
            assert(m =~= seq![((base + t - 1) as u64, h as u32)] + rest.map_values(
                |e: (u64, u64)| (e.0, e.1 as u32),
            ));
        } else {
            if s.len() > 0 {
                lemma_span(s, base, len);
                lemma_exp2_mono(s[0].1 as nat + 1, h as nat);
            }
            lemma_stack_is_peaks(s, base, len, h - 1);
        }
    }
}

proof fn lemma_adjacent(s: Seq<(u64, u64)>, len: int, i: int)
    requires
        side_by_side(s, len),
        0 <= i,
        i + 1 < s.len(),
    ensures
        start_of(s[i + 1]) == s[i].0 + 1,
{
}

/// The number of one bits of `n`.
pub open spec fn popcount(n: nat) -> nat
    decreases n,
{
    if n == 0 {
        0
    } else {
        n % 2 + popcount(n / 2)
    }
}

/// The number of nodes of a structure of `n` leaves: each leaf and each merge adds one node, and
/// the `popcount(n)` peaks are what is left unmerged.
pub open spec fn mmr_size(n: nat) -> nat {
    (2 * n - popcount(n)) as nat
}

/// The number of leaves below the trees of the stack.
pub open spec fn stack_leaves(s: Seq<(u64, u64)>) -> nat
    decreases s.len(),
{
    if s.len() == 0 {
        0
    } else {
        stack_leaves(s.drop_last()) + exp2(s.last().1 as nat)
    }
}

/// The stack with every height one lower.
spec fn lowered(s: Seq<(u64, u64)>) -> Seq<(u64, u64)> {
    s.map_values(|e: (u64, u64)| (e.0, (e.1 - 1) as u64))
}

proof fn lemma_lowered_leaves(s: Seq<(u64, u64)>)
    requires
        forall|i: int| 0 <= i < s.len() ==> (#[trigger] s[i]).1 >= 1,
    ensures
        stack_leaves(s) == 2 * stack_leaves(lowered(s)),
    decreases s.len(),
{
    if s.len() > 0 {
        let d = s.drop_last();
        assert forall|i: int| 0 <= i < d.len() implies (#[trigger] d[i]).1 >= 1 by {
            assert(d[i] == s[i]);
        }
        lemma_lowered_leaves(d);
        assert(lowered(s).drop_last() =~= lowered(d));
        let h = s.last().1 as nat;
        assert(exp2(h) == 2 * exp2((h - 1) as nat));
        assert(lowered(s).last().1 == (h - 1) as u64);
    }
}

/// A stack whose heights fall strictly holds as many trees as its leaf count has one bits.
proof fn lemma_stack_popcount(s: Seq<(u64, u64)>)
    requires
        descending(s),
    ensures
        popcount(stack_leaves(s)) == s.len(),
    decreases stack_leaves(s),
{
    if s.len() > 0 {
        let n = s.len() as int;
        lemma_exp2_pos(s[n - 1].1 as nat);
        if s[n - 1].1 == 0 {
            let d = s.drop_last();
            assert forall|i: int| 0 <= i < d.len() implies (#[trigger] d[i]).1 >= 1 by {
                assert(s[i].1 > s[i + 1].1);
            }
            lemma_lowered_leaves(d);
            assert(stack_leaves(s) == stack_leaves(d) + 1);
            assert(descending(lowered(d)));
            let a = stack_leaves(lowered(d));
            assert((2 * a + 1) % 2 == 1 && (2 * a + 1) / 2 == a);
            lemma_stack_popcount(lowered(d));
        } else {
            assert forall|i: int| 0 <= i < s.len() implies (#[trigger] s[i]).1 >= 1 by {
                if i < n - 1 {
                    assert(s[i].1 > s[i + 1].1);
                }
            }
            lemma_lowered_leaves(s);
            assert(descending(lowered(s)));
            let a = stack_leaves(lowered(s));
            assert(stack_leaves(s) >= exp2(s[n - 1].1 as nat)) by {
                assert(s.drop_last().len() < s.len());
            }
            assert((2 * a) % 2 == 0 && (2 * a) / 2 == a);
            lemma_stack_popcount(lowered(s));
        }
    }
}

proof fn lemma_merge_leaf_count(s0: Seq<(u64, u64)>, pos: u64)
    requires
        s0.len() >= 2,
        s0[s0.len() - 1].1 == s0[s0.len() - 2].1,
        s0[s0.len() - 2].1 < u64::MAX,
    ensures
        stack_leaves(s0.take(s0.len() - 2).push((pos, (s0[s0.len() - 2].1 + 1) as u64)))
            == stack_leaves(s0),
{
    let n = s0.len() as int;
    let h = s0[n - 2].1 as nat;
    let s = s0.take(n - 2).push((pos, (h + 1) as u64));
    assert(s.drop_last() =~= s0.take(n - 2));
    assert(s0.drop_last().drop_last() =~= s0.take(n - 2));
    assert(s0.drop_last().last() == s0[n - 2]);
    assert(exp2(h + 1) == 2 * exp2(h));
    assert(s.last().1 as nat == h + 1);
    assert(stack_leaves(s) == stack_leaves(s0.take(n - 2)) + exp2(h + 1));
    assert(stack_leaves(s0.drop_last()) == stack_leaves(s0.take(n - 2)) + exp2(h));
    assert(stack_leaves(s0) == stack_leaves(s0.drop_last()) + exp2(h));
}

/// Merging the two last trees of the stack, of equal height, under a new node keeps the stack's
/// layout.
#[verifier::rlimit(40)]
proof fn lemma_merge_layout(len: int, s0: Seq<(u64, u64)>)
    requires
        s0.len() >= 2,
        s0[s0.len() - 1].1 == s0[s0.len() - 2].1,
        len < u64::MAX,
        side_by_side(s0, len),
        descending_but_last(s0),
        forall|i: int| 0 <= i < s0.len() ==> (#[trigger] s0[i]).1 < len,
    ensures
        ({
            let n = s0.len();
            let s = s0.take(n - 2).push((len as u64, (s0[n - 2].1 + 1) as u64));
            &&& side_by_side(s, len + 1)
            &&& descending_but_last(s)
            &&& forall|i: int| 0 <= i < s.len() ==> (#[trigger] s[i]).1 < len + 1
        }),
{
    let n = s0.len() as int;
    let left = s0[n - 2];
    let right = s0[n - 1];
    let rest = s0.take(n - 2);
    let top = (len as u64, (left.1 + 1) as u64);
    let s = rest.push(top);
    let h = left.1 as nat;
    lemma_adjacent(s0, len, n - 2);
    assert(exp2(h + 1) == 2 * exp2(h));
    assert(start_of(top) == start_of(left));
    assert(s[n - 2] == top);
    assert forall|i: int| 0 <= i && i + 1 < s.len() implies start_of(#[trigger] s[i + 1]) == s[i].0
        + 1 by {
        assert(s[i] == s0[i]);
        lemma_adjacent(s0, len, i);
        if i + 1 < rest.len() {
            assert(s[i + 1] == s0[i + 1]);
        }
    }
    assert forall|i: int| 0 <= i < s.len() implies start_of(#[trigger] s[i]) >= 0 by {
        if i < rest.len() {
            assert(s[i] == s0[i]);
        }
    }
    assert forall|i: int| 0 <= i && i + 2 < s.len() implies (#[trigger] s[i]).1 > s[i + 1].1 by {
        assert(s[i] == s0[i]);
        assert(s[i + 1] == s0[i + 1]);
    }
    if s.len() >= 2 {
        assert(s0[n - 3].1 > s0[n - 2].1);
        assert(s[s.len() - 2] == s0[n - 3]);
    }
    assert forall|i: int| 0 <= i < s.len() implies (#[trigger] s[i]).1 < len + 1 by {
        if i < rest.len() {
            assert(s[i] == s0[i]);
        }
    }
}

/// Merging the two last trees of the stack, of equal height, under a new node whose digest is
/// theirs combined keeps every tree of the stack formed.
#[verifier::rlimit(40)]
proof fn lemma_merge_formed(nodes: Seq<Seq<u8>>, s0: Seq<(u64, u64)>, d: Seq<u8>)
    requires
        s0.len() >= 2,
        s0[s0.len() - 1].1 == s0[s0.len() - 2].1,
        nodes.len() < u64::MAX,
        side_by_side(s0, nodes.len() as int),
        trees_formed(nodes, s0),
        forall|i: int| 0 <= i < s0.len() ==> (#[trigger] s0[i]).1 < nodes.len(),
        d == node_digest(
            nodes.len() as u64,
            nodes[s0[s0.len() - 2].0 as int],
            nodes[s0[s0.len() - 1].0 as int],
        ),
    ensures
        ({
            let n = s0.len();
            let s = s0.take(n - 2).push((nodes.len() as u64, (s0[n - 2].1 + 1) as u64));
            trees_formed(nodes.push(d), s)
        }),
{
    let n = s0.len() as int;
    let new_pos = nodes.len() as u64;
    let left = s0[n - 2];
    let right = s0[n - 1];
    let rest = s0.take(n - 2);
    let top = (new_pos, (left.1 + 1) as u64);
    let s = rest.push(top);
    let h = left.1 as nat;
    let nodes2 = nodes.push(d);
    assert(left.1 < nodes.len());
    lemma_adjacent(s0, nodes.len() as int, n - 2);
    lemma_stack_positions(s0, nodes.len() as int, n - 2);
    lemma_stack_positions(s0, nodes.len() as int, n - 1);
    assert(exp2(h + 1) == 2 * exp2(h));
    lemma_exp2_pos(h);
    lemma_trees_formed_extend(nodes, d, s0);
    assert(formed_tree(nodes2, left.0, exp2(h)));
    assert(formed_tree(nodes2, right.0, exp2(h)));
    assert(exp2(h + 1) / 2 == exp2(h));
    assert(nodes2[new_pos as int] == node_digest(new_pos, nodes2[left.0 as int], nodes2[right.0 as int]));
    assert(formed_tree(nodes2, new_pos, exp2(h + 1)));
    assert forall|i: int| 0 <= i < s.len() implies formed_tree(
        nodes2,
        (#[trigger] s[i]).0,
        exp2(s[i].1 as nat),
    ) by {
        if i < rest.len() {
            assert(s[i] == s0[i]);
        } else {
            assert(s[i] == top);
            assert((left.1 + 1) as u64 as nat == h + 1);
        }
    }
}

/// Merging the two last trees of the stack, of equal height, under a new node keeps every
/// appended leaf under the stack.
#[verifier::rlimit(40)]
proof fn lemma_merge_leaves(
    nodes: Seq<Seq<u8>>,
    s0: Seq<(u64, u64)>,
    ap: Seq<(u64, Seq<u8>)>,
    d: Seq<u8>,
)
    requires
        s0.len() >= 2,
        s0[s0.len() - 1].1 == s0[s0.len() - 2].1,
        nodes.len() < u64::MAX,
        side_by_side(s0, nodes.len() as int),
        leaves_kept(nodes, s0, ap),
        forall|i: int| 0 <= i < s0.len() ==> (#[trigger] s0[i]).1 < nodes.len(),
    ensures
        ({
            let n = s0.len();
            let top = (nodes.len() as u64, (s0[n - 2].1 + 1) as u64);
            let s = s0.take(n - 2).push(top);
            let nodes2 = nodes.push(d);
            leaves_kept(nodes2, s, ap)
        }),
{
    let n = s0.len() as int;
    let new_pos = nodes.len() as u64;
    let left = s0[n - 2];
    let right = s0[n - 1];
    let rest = s0.take(n - 2);
    lemma_stack_positions(s0, new_pos as int, n - 2);
    lemma_adjacent(s0, new_pos as int, n - 2);
    let h = left.1 as nat;
    assert(exp2(h + 1) == 2 * exp2(h));
    lemma_exp2_pos(h);
    let nodes2 = nodes.push(d);
    let top = (new_pos, (left.1 + 1) as u64);
    let s = rest.push(top);
    assert(exp2(h + 1) / 2 == exp2(h));
    assert(s[n - 2] == top);
    assert forall|i: int| 0 <= i < ap.len() implies {
        &&& nodes2[(#[trigger] ap[i]).0 as int] == leaf_digest(ap[i].0, ap[i].1)
        &&& ap[i].0 < nodes2.len()
        &&& under_stack(s, ap[i].0)
    } by {
        let q = ap[i].0;
        assert(under_stack(s0, q));
        let k = choose|k: int|
            0 <= k < s0.len() && #[trigger] reaches_leaf(
                s0[k].0,
                exp2(s0[k].1 as nat),
                q,
            );
        if k < n - 2 {
            assert(s[k] == s0[k]);
            assert(reaches_leaf(s[k].0, exp2(s[k].1 as nat), q));
        } else {
            assert(start_of(s0[k]) >= 0);
            lemma_reach_bounds(s0[k].0, s0[k].1 as nat, q);
            assert(((new_pos - exp2(h + 1)) as u64) == left.0);
            assert(reaches_leaf(top.0, exp2(h + 1), q));
            assert(reaches_leaf(s[n - 2].0, exp2(s[n - 2].1 as nat), q));
        }
    }
}

impl Mmr {
    /// The digest of every node, by position.
    pub closed spec fn node_digests(&self) -> Seq<Seq<u8>> {
        views(self.nodes@)
    }

    /// The peak stack holds, left to right, trees that lie side by side over every node, with
    /// heights that fall strictly, each of them formed.
    pub closed spec fn wf(&self) -> bool {
        &&& self.nodes@.len() <= u64::MAX
        &&& self.peak_stack@.len() <= self.nodes@.len()
        &&& forall|i: int|
            0 <= i < self.peak_stack@.len() ==> (#[trigger] self.peak_stack@[i]).1
                < self.nodes@.len()
        &&& side_by_side(self.peak_stack@, self.nodes@.len() as int)
        &&& descending(self.peak_stack@)
        &&& trees_formed(self.node_digests(), self.peak_stack@)
        &&& leaves_kept(self.node_digests(), self.peak_stack@, self.appended@)
        &&& stack_leaves(self.peak_stack@) == self.appended@.len()
        &&& self.nodes@.len() + self.peak_stack@.len() == 2 * self.appended@.len()
    }

    /// A well-formed accumulator of `n` appended elements has `mmr_size(n)` nodes.
    pub proof fn lemma_size(&self)
        requires
            self.wf(),
        ensures
            self.node_digests().len() == mmr_size(self.appended().len()),
    {
        lemma_stack_popcount(self.peak_stack@);
    }

    /// Each element appended so far, with the position `add` returned for it, oldest first.
    pub closed spec fn appended(&self) -> Seq<(u64, Seq<u8>)> {
        self.appended@
    }

    proof fn lemma_wf_peaks(&self)
        requires
            self.wf(),
        ensures
            peaks_of(self.nodes@.len() as u64) == self.peak_stack@.map_values(
                |e: (u64, u64)| (e.0, e.1 as u32),
            ),
            forall|k: int| 0 <= k < self.peak_stack@.len() ==> (#[trigger] self.peak_stack@[k]).1 < 64,
    {
        let s = self.peak_stack@;
        let len = self.nodes@.len() as int;
        if s.len() > 0 {
            lemma_stack_positions(s, len, 0);
            if s[0].1 >= 64 {
                lemma_exp2_mono(64, s[0].1 as nat);
                lemma_exp2_64();
            }
        }
        assert forall|i: int| 0 <= i < s.len() implies (#[trigger] s[i]).0 < len by {
            lemma_stack_positions(s, len, i);
        }
        assert forall|k: int| 0 <= k < s.len() implies (#[trigger] s[k]).1 < 64 by {
            if k > 0 {
                lemma_descending_first(s, k);
            }
        }
        lemma_stack_is_peaks(s, 0, len, 63);
    }

    /// The proof built for any range verifies against the current root with the elements of the
    /// leaves that the range covers.
    pub proof fn lemma_range_proof_verifies_here(&self, lo: u64, hi: u64, elems: Seq<Seq<u8>>)
        requires
            self.wf(),
            elements_at(
                self.node_digests(),
                covered_leaves(self.node_digests().len() as u64, lo, hi),
                elems,
            ),
        ensures
            verifies(
                self.node_digests().len() as u64,
                proof_hashes(self.node_digests(), lo, hi),
                elems,
                lo,
                hi,
                root_digest(self.node_digests().len() as u64, peak_digests(self.node_digests())),
            ),
    {
        self.lemma_wf_formed();
        lemma_range_proof_verifies(self.node_digests(), lo, hi, elems);
    }

    /// Every element appended to the accumulator is proven by the proof built for its position:
    /// that proof verifies, with the element, against the current root.
    pub proof fn lemma_added_element_verifies(&self, i: int)
        requires
            self.wf(),
            0 <= i < self.appended().len(),
        ensures
            verifies(
                self.node_digests().len() as u64,
                proof_hashes(self.node_digests(), self.appended()[i].0, self.appended()[i].0),
                seq![self.appended()[i].1],
                self.appended()[i].0,
                self.appended()[i].0,
                root_digest(self.node_digests().len() as u64, peak_digests(self.node_digests())),
            ),
    {
        self.lemma_wf_formed();
        self.lemma_wf_peaks();
        let s = self.peak_stack@;
        let q = self.appended@[i].0;
        let size = self.nodes@.len() as u64;
        let k = choose|k: int| 0 <= k < s.len() && #[trigger] reaches_leaf(s[k].0, exp2(s[k].1 as nat), q);
        let ps = peaks_of(size);
        assert(ps[k] == (s[k].0, s[k].1 as u32));
        assert(leaf_in_peak(size, q, k));
        lemma_inclusion_proof_verifies(self.node_digests(), q, self.appended@[i].1);
    }

    /// The node digests of a well-formed accumulator form a structure.
    pub proof fn lemma_wf_formed(&self)
        requires
            self.wf(),
        ensures
            formed(self.node_digests()),
    {
        let s = self.peak_stack@;
        let len = self.nodes@.len() as int;
        if s.len() > 0 {
            lemma_stack_positions(s, len, 0);
            if s[0].1 >= 64 {
                lemma_exp2_mono(64, s[0].1 as nat);
                lemma_exp2_64();
            }
        }
        assert forall|i: int| 0 <= i < s.len() implies (#[trigger] s[i]).0 < len by {
            lemma_stack_positions(s, len, i);
        }
        lemma_stack_is_peaks(s, 0, len, 63);
        let ps = peaks_of(len as u64);
        assert(ps == s.map_values(|e: (u64, u64)| (e.0, e.1 as u32)));
        assert forall|k: int| 0 <= k < ps.len() implies formed_tree(
            self.node_digests(),
            (#[trigger] ps[k]).0,
            exp2(ps[k].1 as nat),
        ) by {
            assert(ps[k] == (s[k].0, s[k].1 as u32));
            if s[k].1 >= 64 {
                if k > 0 {
                    assert(s[0].1 > s[k].1) by {
                        lemma_descending_first(s, k);
                    }
                }
            }
        }
    }

    /// An empty structure.
    pub fn new() -> (r: Mmr)
        ensures
            r.wf(),
            r.node_digests().len() == 0,
            r.appended().len() == 0,
            r.node_digests().len() == mmr_size(r.appended().len()),
    {
        let r = Mmr { nodes: Vec::new(), peak_stack: Vec::new(), appended: Ghost(Seq::empty()) };
        assert(r.node_digests() =~= Seq::empty());
        r
    }

    /// The number of nodes, leaves and internal nodes together.
    pub fn size(&self) -> (r: u64)
        requires
            self.wf(),
        ensures
            r == self.node_digests().len(),
    {
        self.nodes.len() as u64
    }

    /// Appends `element` as a new leaf, merges the peaks it completes, and returns the leaf's
    /// position: the size before the call. Earlier nodes keep their digests.
    #[verifier::rlimit(60)]
    pub fn add(&mut self, element: &Vec<u8>) -> (r: u64)
        requires
            old(self).wf(),
            old(self).appended().len() < u64::MAX / 4,
        ensures
            final(self).wf(),
            r == old(self).node_digests().len(),
            r == mmr_size(old(self).appended().len()),
            final(self).node_digests().len() > r,
            final(self).node_digests().subrange(0, r as int) == old(self).node_digests(),
            final(self).node_digests()[r as int] == leaf_digest(r, element@),
            final(self).appended() == old(self).appended().push((r, element@)),
            final(self).node_digests().len() == mmr_size(final(self).appended().len()),
    {
        let ghost old_nodes = self.node_digests();
        let ghost old_stack = self.peak_stack@;
        let ghost old_appended = self.appended@;
        proof {
            self.lemma_size();
        }
        let ghost total = self.nodes@.len() + self.peak_stack@.len() + 2;
        let pos = self.nodes.len() as u64;
        let leaf = leaf_hash(pos, element);
        proof {
            lemma_trees_formed_extend(old_nodes, leaf@, old_stack);
        }
        self.nodes.push(leaf);
        self.peak_stack.push((pos, 0));
        self.appended = Ghost(self.appended@.push((pos, element@)));
        proof {
            assert(self.node_digests() =~= old_nodes.push(leaf@));
            let s = self.peak_stack@;
            assert(s.drop_last() =~= old_stack);
            assert(exp2(0) == 1);
            assert(s[s.len() - 1] == (pos, 0u64));
            assert(start_of((pos, 0u64)) == pos);
            assert forall|i: int| 0 <= i && i + 1 < s.len() implies start_of(#[trigger] s[i + 1])
                == s[i].0 + 1 by {
                if i + 1 < old_stack.len() {
                    assert(s[i + 1] == old_stack[i + 1]);
                }
            }
            assert forall|i: int| 0 <= i < s.len() implies formed_tree(
                self.node_digests(),
                (#[trigger] s[i]).0,
                exp2(s[i].1 as nat),
            ) by {
                if i < old_stack.len() {
                    assert(s[i] == old_stack[i]);
                }
            }
            assert forall|i: int| 0 <= i && i + 2 < s.len() implies (#[trigger] s[i]).1 > s[i
                + 1].1 by {
                assert(s[i] == old_stack[i]);
                assert(s[i + 1] == old_stack[i + 1]);
            }
            let ap = self.appended@;
            assert(reaches_leaf(s[s.len() - 1].0, exp2(s[s.len() - 1].1 as nat), pos));
            assert forall|i: int| 0 <= i < ap.len() implies {
                &&& self.node_digests()[(#[trigger] ap[i]).0 as int] == leaf_digest(ap[i].0, ap[i].1)
                &&& ap[i].0 < self.node_digests().len()
                &&& under_stack(s, ap[i].0)
            } by {
                if i < old_appended.len() {
                    assert(ap[i] == old_appended[i]);
                    let q = ap[i].0;
                    assert(under_stack(old_stack, q));
                    let k = choose|k: int|
                        0 <= k < old_stack.len() && #[trigger] reaches_leaf(
                            old_stack[k].0,
                            exp2(old_stack[k].1 as nat),
                            q,
                        );
                    assert(s[k] == old_stack[k]);
                    assert(reaches_leaf(s[k].0, exp2(s[k].1 as nat), q));
                }
            }
        }
        assert(self.node_digests().subrange(0, pos as int) =~= old_nodes);
        loop
            invariant
                self.nodes@.len() <= u64::MAX,
                self.peak_stack@.len() <= self.nodes@.len(),
                forall|i: int|
                    0 <= i < self.peak_stack@.len() ==> (#[trigger] self.peak_stack@[i]).1
                        < self.nodes@.len(),
                side_by_side(self.peak_stack@, self.nodes@.len() as int),
                descending_but_last(self.peak_stack@),
                trees_formed(self.node_digests(), self.peak_stack@),
                self.nodes@.len() + self.peak_stack@.len() == total,
                total == 2 * self.appended@.len(),
                self.appended@.len() < u64::MAX / 4 + 1,
                stack_leaves(self.peak_stack@) == self.appended@.len(),
                self.nodes@.len() > pos,
                pos == old_nodes.len(),
                self.node_digests().subrange(0, pos as int) == old_nodes,
                self.node_digests()[pos as int] == leaf_digest(pos, element@),
                leaves_kept(self.node_digests(), self.peak_stack@, self.appended@),
                self.appended@ == old_appended.push((pos, element@)),
            ensures
                descending(self.peak_stack@),
            decreases self.peak_stack@.len(),
        {
            let n = self.peak_stack.len();
            if n < 2 || self.peak_stack[n - 1].1 != self.peak_stack[n - 2].1 {
                proof {
                    let s = self.peak_stack@;
                    assert forall|i: int| 0 <= i && i + 1 < s.len() implies (#[trigger] s[i]).1
                        > s[i + 1].1 by {
                        if i + 2 >= s.len() {
                            assert(i == n - 2);
                        }
                    }
                }
                break;
            }
            let ghost before = self.node_digests();
            let ghost s0 = self.peak_stack@;
            let right = self.peak_stack.pop().unwrap();
            let left = self.peak_stack.pop().unwrap();
            let ghost rest = self.peak_stack@;
            assert(right == s0[n - 1]);
            assert(left == s0[n - 2]);
            assert(rest =~= s0.take(n - 2));
            let new_pos = self.nodes.len() as u64;
            proof {
                lemma_stack_positions(s0, new_pos as int, n - 2);
            }
            let d = node_hash(new_pos, &self.nodes[left.0 as usize], &self.nodes[right.0 as usize]);
            proof {
                lemma_merge_layout(before.len() as int, s0);
                lemma_merge_formed(before, s0, d@);
                lemma_merge_leaf_count(s0, new_pos);
                lemma_merge_leaves(before, s0, self.appended@, d@);
            }
            self.nodes.push(d);
            self.peak_stack.push((new_pos, left.1 + 1));
            assert(self.node_digests() =~= before.push(d@));
            assert(self.peak_stack@ =~= s0.take(n - 2).push((new_pos, (left.1 + 1) as u64)));

            assert(self.node_digests().subrange(0, pos as int) =~= before.subrange(0, pos as int));
        }
        proof {
            lemma_stack_popcount(self.peak_stack@);
        }
        pos
    }

    /// The root digest: the size bound to the digests of the peaks, left to right.
    pub fn root_hash(&self) -> (r: Vec<u8>)
        requires
            self.wf(),
        ensures
            r@ == root_digest(
                self.node_digests().len() as u64,
                peak_digests(self.node_digests()),
            ),
    {
        let size = self.nodes.len() as u64;
        let ps = peaks(size);
        let mut digests: Vec<Vec<u8>> = Vec::new();
        let mut k: usize = 0;
        while k < ps.len()
            invariant
                k <= ps@.len(),
                size == self.nodes@.len(),
                ps@ == peaks_of(size),
                forall|i: int| 0 <= i < ps@.len() ==> peak_fits(#[trigger] ps@[i], size),
                views(digests@) =~= peaks_of(size).take(k as int).map_values(
                    |p: (u64, u32)| self.node_digests()[p.0 as int],
                ),
            decreases ps@.len() - k,
        {
            assert(peak_fits(ps@[k as int], size));
            let len = self.nodes.len();
            assert(ps@[k as int].0 < len);
            let d = self.nodes[ps[k].0 as usize].clone();
            assert(d@ =~= self.nodes@[ps@[k as int].0 as int]@);
            let ghost prev = views(digests@);
            digests.push(d);
            assert(views(digests@) =~= prev.push(d@));
            assert(peaks_of(size).take(k + 1) =~= peaks_of(size).take(k as int).push(ps@[k as int]));
            k = k + 1;
        }
        assert(peaks_of(size).take(ps@.len() as int) =~= peaks_of(size));
        crate::hashing::root_hash(size, &digests)
    }

    fn push_siblings(&self, pos: u64, two_h: u64, lo: u64, hi: u64, out: &mut Vec<Vec<u8>>)
        requires
            self.wf(),
            is_pow2(two_h as nat),
            pos + 2 >= 2 * two_h,
            pos < self.nodes@.len(),
        ensures
            views(final(out)@) == views(old(out)@) + siblings(
                self.node_digests(),
                pos,
                two_h as nat,
                lo,
                hi,
            ),
        decreases two_h,
    {
        let ghost start = views(out@);
        let len = self.nodes.len();
        assert(pos < len);
        if two_h <= 1 {
            assert(views(out@) =~= start + Seq::empty());
            return;
        }
        let left_pos = pos - two_h;
        let right_pos = pos - 1;
        let half = two_h / 2;
        if left_pos >= lo {
            self.push_siblings(left_pos, half, lo, hi, out);
        } else {
            let d = self.nodes[left_pos as usize].clone();
            assert(d@ =~= self.nodes@[left_pos as int]@);
            out.push(d);
            assert(views(out@) =~= start + seq![self.node_digests()[left_pos as int]]);
        }
        let ghost mid = views(out@);
        if left_pos < hi {
            self.push_siblings(right_pos, half, lo, hi, out);
        } else {
            let d = self.nodes[right_pos as usize].clone();
            assert(d@ =~= self.nodes@[right_pos as int]@);
            out.push(d);
            assert(views(out@) =~= mid + seq![self.node_digests()[right_pos as int]]);
        }
        assert(views(out@) =~= start + siblings(self.node_digests(), pos, two_h as nat, lo, hi));
    }

    /// The proof that the leaves at positions `start_element_pos` through `end_element_pos` stand
    /// in this structure.
    pub fn range_proof(&self, start_element_pos: u64, end_element_pos: u64) -> (r: Proof)
        requires
            self.wf(),
        ensures
            r.size == self.node_digests().len(),
            views(r.hashes@) == proof_hashes(self.node_digests(), start_element_pos, end_element_pos),
    {
        let size = self.nodes.len() as u64;
        let ps = peaks(size);
        let mut front: Vec<Vec<u8>> = Vec::new();
        let mut sibs: Vec<Vec<u8>> = Vec::new();
        let mut k: usize = 0;
        while k < ps.len()
            invariant
                k <= ps@.len(),
                self.wf(),
                size == self.nodes@.len(),
                ps@ == peaks_of(size),
                forall|i: int| 0 <= i < ps@.len() ==> peak_fits(#[trigger] ps@[i], size),
                proof_parts(self.node_digests(), ps@, k as nat, start_element_pos, end_element_pos)
                    == (views(front@), views(sibs@)),
            decreases ps@.len() - k,
        {
            let (peak_pos, height) = ps[k];
            assert(peak_fits(ps@[k as int], size));
            let two_h = exp2_u64(height);
            let leftmost = peak_pos - (two_h - 1) - (two_h - 1);
            let ghost f0 = views(front@);
            if peak_pos >= start_element_pos && leftmost <= end_element_pos {
                self.push_siblings(peak_pos, two_h, start_element_pos, end_element_pos, &mut sibs);
            } else {
                let len = self.nodes.len();
                assert(peak_pos < len);
                let d = self.nodes[peak_pos as usize].clone();
                assert(d@ =~= self.nodes@[peak_pos as int]@);
                front.push(d);
                assert(views(front@) =~= f0.push(self.node_digests()[peak_pos as int]));
            }
            k = k + 1;
        }
        let ghost sv = views(sibs@);
        let mut hashes = front;
        let mut j: usize = sibs.len();
        let ghost fv = views(hashes@);
        while j > 0
            invariant
                j <= sibs@.len(),
                sv == views(sibs@),
                views(hashes@) =~= fv + Seq::new(
                    (sibs@.len() - j) as nat,
                    |i: int| sv[sv.len() - 1 - i],
                ),
            decreases j,
        {
            j = j - 1;
            let ghost prev = views(hashes@);
            let d = sibs[j].clone();
            assert(d@ =~= sibs@[j as int]@);
            hashes.push(d);
            assert(views(hashes@) =~= prev.push(sv[j as int]));
        }
        Proof { size, hashes }
    }

    /// The proof that the leaf at `element_pos` stands in this structure.
    pub fn inclusion_proof(&self, element_pos: u64) -> (r: Proof)
        requires
            self.wf(),
        ensures
            r.size == self.node_digests().len(),
            views(r.hashes@) == proof_hashes(self.node_digests(), element_pos, element_pos),
    {
        self.range_proof(element_pos, element_pos)
    }
}

} // verus!
