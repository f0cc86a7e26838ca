//! Proofs built from a well-formed structure verify against its root.

use crate::hashing::{leaf_digest, node_digest, root_digest};
use crate::mem::{peak_digests, proof_hashes, proof_parts, siblings};
use crate::peaks::{exp2, leftmost_of, lemma_exp2_pos, peaks_from, peaks_of};
use crate::verification::{
    final_scan, lemma_inserted_hash_rejected, lemma_removed_hash_rejected, rebuild, scan,
    takes_one_front, verifies,
};
use vstd::prelude::*;

verus! {

/// Whether every internal node of the perfect tree at `pos` with `two_h` leaves holds the digest
/// of its position and its two children.
pub open spec fn formed_tree(nodes: Seq<Seq<u8>>, pos: u64, two_h: nat) -> bool
    decreases two_h,
{
    two_h <= 1 || {
        let left_pos = (pos - two_h) as u64;
        let right_pos = (pos - 1) as u64;
        &&& nodes[pos as int] == node_digest(pos, nodes[left_pos as int], nodes[right_pos as int])
        &&& formed_tree(nodes, left_pos, two_h / 2)
        &&& formed_tree(nodes, right_pos, two_h / 2)
    }
}

/// Whether the node digests form a structure: every peak's tree is formed.
pub open spec fn formed(nodes: Seq<Seq<u8>>) -> bool {
    let ps = peaks_of(nodes.len() as u64);
    forall|k: int|
        0 <= k < ps.len() ==> formed_tree(nodes, (#[trigger] ps[k]).0, exp2(ps[k].1 as nat))
}

/// Whether `q` is a leaf of the perfect tree at `pos` with `two_h` leaves.
pub open spec fn reaches_leaf(pos: u64, two_h: nat, q: u64) -> bool
    decreases two_h,
{
    if two_h <= 1 {
        pos == q
    } else {
        let left_pos = (pos - two_h) as u64;
        if q <= left_pos {
            reaches_leaf(left_pos, two_h / 2, q)
        } else if q < pos {
            reaches_leaf((pos - 1) as u64, two_h / 2, q)
        } else {
            false
        }
    }
}

/// Whether `q` is a leaf under the peak of index `k` of a structure of `size` nodes.
pub open spec fn leaf_in_peak(size: u64, q: u64, k: int) -> bool {
    let ps = peaks_of(size);
    0 <= k < ps.len() && reaches_leaf(ps[k].0, exp2(ps[k].1 as nat), q)
}

pub(crate) proof fn lemma_reach_bounds(pos: u64, h: nat, q: u64)
    requires
        reaches_leaf(pos, exp2(h), q),
        pos + 2 >= 2 * exp2(h),
    ensures
        pos + 2 - 2 * exp2(h) <= q <= pos,
    decreases h,
{
    if h > 0 {
        let two_h = exp2(h);
        assert(two_h == 2 * exp2((h - 1) as nat));
        lemma_exp2_pos((h - 1) as nat);
        let left_pos = (pos - two_h) as u64;
        assert(two_h / 2 == exp2((h - 1) as nat));
        if q <= left_pos {
            lemma_reach_bounds(left_pos, (h - 1) as nat, q);
        } else {
            lemma_reach_bounds((pos - 1) as u64, (h - 1) as nat, q);
        }
    }
}

/// The peaks taken from `base` on lie in order, each tree starting after the previous peak.
proof fn lemma_peaks_layout(base: int, remaining: int, h: int)
    requires
        0 <= base,
        0 <= remaining,
        base + remaining <= u64::MAX,
        h <= 63,
    ensures
        ({
            let ps = peaks_from(base, remaining, h);
            &&& forall|i: int|
                0 <= i < ps.len() ==> {
                    &&& base <= leftmost_of((#[trigger] ps[i]).0, ps[i].1)
                    &&& ps[i].0 < base + remaining
                    &&& ps[i].1 <= 63
                }
            &&& forall|i: int, j: int|
                0 <= i < j < ps.len() ==> (#[trigger] ps[i]).0 < leftmost_of(
                    (#[trigger] ps[j]).0,
                    ps[j].1,
                )
        }),
    decreases h + 1,
{
    if h >= 0 {
        let t = exp2((h + 1) as nat) - 1;
        assert(exp2((h + 1) as nat) == 2 * exp2(h as nat));
        lemma_exp2_pos(h as nat);
        if t <= remaining {
            lemma_peaks_layout(base + t, remaining - t, h - 1);
            let rest = peaks_from(base + t, remaining - t, h - 1);
            let first = ((base + t - 1) as u64, h as u32);
            let ps = peaks_from(base, remaining, h);
            assert(ps == seq![first] + rest);
            assert(leftmost_of(first.0, first.1) == base);
            assert forall|i: int| 0 <= i < ps.len() implies {
                &&& base <= leftmost_of((#[trigger] ps[i]).0, ps[i].1)
                &&& ps[i].0 < base + remaining
                &&& ps[i].1 <= 63
            } by {
                if i > 0 {
                    assert(ps[i] == rest[i - 1]);
                }
            }
            assert forall|i: int, j: int| 0 <= i < j < ps.len() implies (#[trigger] ps[i]).0
                < leftmost_of((#[trigger] ps[j]).0, ps[j].1) by {
                assert(ps[j] == rest[j - 1]);
                if i > 0 {
                    assert(ps[i] == rest[i - 1]);
                }
            }
        } else {
            lemma_peaks_layout(base, remaining, h - 1);
            assert(peaks_from(base, remaining, h) == peaks_from(base, remaining, h - 1));
        }
    } else {
        assert(peaks_from(base, remaining, h) =~= Seq::empty());
    }
}

proof fn lemma_parts_prefix(
    nodes: Seq<Seq<u8>>,
    ps: Seq<(u64, u32)>,
    k: nat,
    m: nat,
    lo: u64,
    hi: u64,
)
    requires
        k <= m,
    ensures
        proof_parts(nodes, ps, m, lo, hi).0.take(proof_parts(nodes, ps, k, lo, hi).0.len() as int)
            == proof_parts(nodes, ps, k, lo, hi).0,
        proof_parts(nodes, ps, m, lo, hi).1.take(proof_parts(nodes, ps, k, lo, hi).1.len() as int)
            == proof_parts(nodes, ps, k, lo, hi).1,
        proof_parts(nodes, ps, k, lo, hi).0.len() <= proof_parts(nodes, ps, m, lo, hi).0.len(),
        proof_parts(nodes, ps, k, lo, hi).1.len() <= proof_parts(nodes, ps, m, lo, hi).1.len(),
    decreases m - k,
{
    if k < m {
        lemma_parts_prefix(nodes, ps, k, (m - 1) as nat, lo, hi);
        let a = proof_parts(nodes, ps, k, lo, hi);
        let b = proof_parts(nodes, ps, (m - 1) as nat, lo, hi);
        let c = proof_parts(nodes, ps, m, lo, hi);
        assert(c.0.take(a.0.len() as int) =~= b.0.take(a.0.len() as int));
        assert(c.1.take(a.1.len() as int) =~= b.1.take(a.1.len() as int));
    }
}

/// Rebuilding the tree that holds leaf `q` from its element and the siblings a builder gives gets
/// back the digest that the tree's peak holds.
proof fn lemma_rebuild_single(
    nodes: Seq<Seq<u8>>,
    pos: u64,
    h: nat,
    q: u64,
    x: Seq<u8>,
    hashes: Seq<Seq<u8>>,
    b: nat,
)
    requires
        formed_tree(nodes, pos, exp2(h)),
        reaches_leaf(pos, exp2(h), q),
        nodes[q as int] == leaf_digest(q, x),
        b + siblings(nodes, pos, exp2(h), q, q).len() <= hashes.len(),
        forall|j: int|
            0 <= j < siblings(nodes, pos, exp2(h), q, q).len() ==> hashes[hashes.len() - 1 - (b
                + j)] == #[trigger] siblings(nodes, pos, exp2(h), q, q)[j],
    ensures
        rebuild(pos, exp2(h), q, q, seq![x], 0, hashes, b) == Some(
            (nodes[pos as int], 1nat, b + siblings(nodes, pos, exp2(h), q, q).len()),
        ),
    decreases h,
{
    let two_h = exp2(h);
    let sibs = siblings(nodes, pos, two_h, q, q);
    if h == 0 {
        assert(two_h == 1);
    } else {
        assert(two_h == 2 * exp2((h - 1) as nat));
        lemma_exp2_pos((h - 1) as nat);
        assert(two_h / 2 == exp2((h - 1) as nat));
        let hm = (h - 1) as nat;
        let left_pos = (pos - two_h) as u64;
        let right_pos = (pos - 1) as u64;
        if q <= left_pos {
            let ls = siblings(nodes, left_pos, exp2(hm), q, q);
            assert(sibs == ls + seq![nodes[right_pos as int]]);
            assert forall|j: int| 0 <= j < ls.len() implies hashes[hashes.len() - 1 - (b + j)]
                == #[trigger] ls[j] by {
                assert(sibs[j] == ls[j]);
            }
            lemma_rebuild_single(nodes, left_pos, hm, q, x, hashes, b);
            assert(sibs[ls.len() as int] == nodes[right_pos as int]);
        } else {
            let rs = siblings(nodes, right_pos, exp2(hm), q, q);
            assert(sibs == seq![nodes[left_pos as int]] + rs);
            assert(sibs[0] == nodes[left_pos as int]);
            assert forall|j: int| 0 <= j < rs.len() implies hashes[hashes.len() - 1 - (b + 1 + j)]
                == #[trigger] rs[j] by {
                assert(sibs[j + 1] == rs[j]);
            }
            lemma_rebuild_single(nodes, right_pos, hm, q, x, hashes, b + 1);
        }
    }
}

proof fn lemma_scan_single(nodes: Seq<Seq<u8>>, q: u64, x: Seq<u8>, kq: int, k: nat)
    requires
        nodes.len() <= u64::MAX,
        formed(nodes),
        leaf_in_peak(nodes.len() as u64, q, kq),
        nodes[q as int] == leaf_digest(q, x),
        k <= peaks_of(nodes.len() as u64).len(),
    ensures
        scan(peaks_of(nodes.len() as u64), k, q, q, seq![x], proof_hashes(nodes, q, q)) == Some(
            (
                peak_digests(nodes).take(k as int),
                if k > kq {
                    1nat
                } else {
                    0nat
                },
                proof_parts(nodes, peaks_of(nodes.len() as u64), k, q, q).0.len(),
                proof_parts(nodes, peaks_of(nodes.len() as u64), k, q, q).1.len(),
            ),
        ),
    decreases k,
{
    let size = nodes.len() as u64;
    let ps = peaks_of(size);
    if k == 0 {
        assert(peak_digests(nodes).take(0) =~= Seq::empty());
    } else {
        let km = (k - 1) as nat;
        lemma_scan_single(nodes, q, x, kq, km);
        let big_k = ps.len();
        lemma_peaks_layout(0, size as int, 63);
        lemma_parts_prefix(nodes, ps, k, big_k, q, q);
        let hashes = proof_hashes(nodes, q, q);
        let whole = proof_parts(nodes, ps, big_k, q, q);
        let front = whole.0;
        let sl = whole.1;
        assert(hashes == front + Seq::new(sl.len(), |i: int| sl[sl.len() - 1 - i]));
        let before = proof_parts(nodes, ps, km, q, q);
        let now = proof_parts(nodes, ps, k, q, q);
        let p = ps[km as int];
        let pk = ps[kq];
        assert(leftmost_of(pk.0, pk.1) >= 0);
        lemma_reach_bounds(pk.0, pk.1 as nat, q);
        assert(leftmost_of(p.0, p.1) >= 0);
        if km == kq {
            let sib = siblings(nodes, p.0, exp2(p.1 as nat), q, q);
            let b = before.1.len();
            assert(now.1 == before.1 + sib);
            assert forall|j: int| 0 <= j < sib.len() implies hashes[hashes.len() - 1 - (b + j)]
                == #[trigger] sib[j] by {
                assert(now.1[b + j] == sib[j]);
                assert(sl.take(now.1.len() as int)[b + j] == sl[b + j]);
            }
            assert(formed_tree(nodes, ps[km as int].0, exp2(ps[km as int].1 as nat)));
            lemma_rebuild_single(nodes, p.0, p.1 as nat, q, x, hashes, b);
        } else {
            if (km as int) < kq {
                assert(ps[km as int].0 < leftmost_of(ps[kq].0, ps[kq].1));
            } else {
                assert(ps[kq].0 < leftmost_of(ps[km as int].0, ps[km as int].1));
            }
            let f = before.0.len();
            assert(now.0 == before.0.push(nodes[p.0 as int]));
            assert(front.take(now.0.len() as int)[f as int] == front[f as int]);
        }
        assert(peak_digests(nodes).take(k as int) =~= peak_digests(nodes).take(km as int).push(
            nodes[p.0 as int],
        ));
    }
}

/// A proof that the builder makes for a single leaf of a well-formed structure verifies, with
/// that leaf's element, against the structure's root.
pub proof fn lemma_inclusion_proof_verifies(nodes: Seq<Seq<u8>>, q: u64, x: Seq<u8>)
    requires
        nodes.len() <= u64::MAX,
        formed(nodes),
        exists|k: int| #[trigger] leaf_in_peak(nodes.len() as u64, q, k),
        nodes[q as int] == leaf_digest(q, x),
    ensures
        verifies(
            nodes.len() as u64,
            proof_hashes(nodes, q, q),
            seq![x],
            q,
            q,
            root_digest(nodes.len() as u64, peak_digests(nodes)),
        ),
{
    let size = nodes.len() as u64;
    let ps = peaks_of(size);
    let kq = choose|k: int| leaf_in_peak(size, q, k);
    lemma_scan_single(nodes, q, x, kq, ps.len());
    assert(peak_digests(nodes).take(ps.len() as int) =~= peak_digests(nodes));
    assert(final_scan(size, proof_hashes(nodes, q, q), seq![x], q, q) == scan(
        ps,
        ps.len(),
        q,
        q,
        seq![x],
        proof_hashes(nodes, q, q),
    ));
}

/// The leaves, left to right, that rebuilding the tree at `pos` with `two_h` leaves for the range
/// `lo..=hi` reaches.
pub open spec fn covered_in_tree(pos: u64, two_h: nat, lo: u64, hi: u64) -> Seq<u64>
    decreases two_h,
{
    if two_h <= 1 {
        seq![pos]
    } else {
        let left_pos = (pos - two_h) as u64;
        let right_pos = (pos - 1) as u64;
        let l = if left_pos >= lo {
            covered_in_tree(left_pos, two_h / 2, lo, hi)
        } else {
            Seq::empty()
        };
        let r = if left_pos < hi {
            covered_in_tree(right_pos, two_h / 2, lo, hi)
        } else {
            Seq::empty()
        };
        l + r
    }
}

/// The leaves, left to right, that the range `lo..=hi` covers in the first `k` peaks of `ps`.
pub open spec fn covered_upto(ps: Seq<(u64, u32)>, k: nat, lo: u64, hi: u64) -> Seq<u64>
    decreases k,
{
    if k == 0 {
        Seq::empty()
    } else {
        let prev = covered_upto(ps, (k - 1) as nat, lo, hi);
        let p = ps[k - 1];
        if p.0 >= lo && leftmost_of(p.0, p.1) <= hi {
            prev + covered_in_tree(p.0, exp2(p.1 as nat), lo, hi)
        } else {
            prev
        }
    }
}

/// The leaves, left to right, that the range `lo..=hi` covers in a structure of `size` nodes.
pub open spec fn covered_leaves(size: u64, lo: u64, hi: u64) -> Seq<u64> {
    covered_upto(peaks_of(size), peaks_of(size).len(), lo, hi)
}

/// Whether `elems`, one for one, are the elements whose leaf digests the `leaves` hold.
pub open spec fn elements_at(nodes: Seq<Seq<u8>>, leaves: Seq<u64>, elems: Seq<Seq<u8>>) -> bool {
    &&& elems.len() == leaves.len()
    &&& forall|j: int|
        0 <= j < leaves.len() ==> nodes[leaves[j] as int] == #[trigger] leaf_digest(
            leaves[j],
            elems[j],
        )
}

proof fn lemma_rebuild_range(
    nodes: Seq<Seq<u8>>,
    pos: u64,
    h: nat,
    lo: u64,
    hi: u64,
    elems: Seq<Seq<u8>>,
    e: nat,
    hashes: Seq<Seq<u8>>,
    b: nat,
)
    requires
        formed_tree(nodes, pos, exp2(h)),
        e + covered_in_tree(pos, exp2(h), lo, hi).len() <= elems.len(),
        forall|j: int|
            0 <= j < covered_in_tree(pos, exp2(h), lo, hi).len() ==> nodes[covered_in_tree(
                pos,
                exp2(h),
                lo,
                hi,
            )[j] as int] == leaf_digest(
                #[trigger] covered_in_tree(pos, exp2(h), lo, hi)[j],
                elems[e + j],
            ),
        b + siblings(nodes, pos, exp2(h), lo, hi).len() <= hashes.len(),
        forall|j: int|
            0 <= j < siblings(nodes, pos, exp2(h), lo, hi).len() ==> hashes[hashes.len() - 1 - (b
                + j)] == #[trigger] siblings(nodes, pos, exp2(h), lo, hi)[j],
    ensures
        rebuild(pos, exp2(h), lo, hi, elems, e, hashes, b) == Some(
            (
                nodes[pos as int],
                e + covered_in_tree(pos, exp2(h), lo, hi).len(),
                b + siblings(nodes, pos, exp2(h), lo, hi).len(),
            ),
        ),
    decreases h,
{
    let two_h = exp2(h);
    let sibs = siblings(nodes, pos, two_h, lo, hi);
    let cov = covered_in_tree(pos, two_h, lo, hi);
    if h == 0 {
        assert(two_h == 1);
        assert(cov[0] == pos);
    } else {
        assert(two_h == 2 * exp2((h - 1) as nat));
        lemma_exp2_pos((h - 1) as nat);
        assert(two_h / 2 == exp2((h - 1) as nat));
        let hm = (h - 1) as nat;
        let half = exp2(hm);
        let left_pos = (pos - two_h) as u64;
        let right_pos = (pos - 1) as u64;
        let lcov = if left_pos >= lo {
            covered_in_tree(left_pos, half, lo, hi)
        } else {
            Seq::empty()
        };
        let rcov = if left_pos < hi {
            covered_in_tree(right_pos, half, lo, hi)
        } else {
            Seq::empty()
        };
        let lsib = if left_pos >= lo {
            siblings(nodes, left_pos, half, lo, hi)
        } else {
            seq![nodes[left_pos as int]]
        };
        let rsib = if left_pos < hi {
            siblings(nodes, right_pos, half, lo, hi)
        } else {
            seq![nodes[right_pos as int]]
        };
        assert(cov == lcov + rcov);
        assert(sibs == lsib + rsib);
        if left_pos >= lo {
            assert forall|j: int| 0 <= j < lcov.len() implies nodes[lcov[j] as int] == leaf_digest(
                #[trigger] lcov[j],
                elems[e + j],
            ) by {
                assert(cov[j] == lcov[j]);
            }
            assert forall|j: int| 0 <= j < lsib.len() implies hashes[hashes.len() - 1 - (b + j)]
                == #[trigger] lsib[j] by {
                assert(sibs[j] == lsib[j]);
            }
            lemma_rebuild_range(nodes, left_pos, hm, lo, hi, elems, e, hashes, b);
        } else {
            assert(sibs[0] == lsib[0]);
        }
        let e1 = e + lcov.len();
        let b1 = b + lsib.len();
        if left_pos < hi {
            assert forall|j: int| 0 <= j < rcov.len() implies nodes[rcov[j] as int] == leaf_digest(
                #[trigger] rcov[j],
                elems[e1 + j],
            ) by {
                assert(cov[lcov.len() + j] == rcov[j]);
            }
            assert forall|j: int| 0 <= j < rsib.len() implies hashes[hashes.len() - 1 - (b1 + j)]
                == #[trigger] rsib[j] by {
                assert(sibs[lsib.len() + j] == rsib[j]);
            }
            lemma_rebuild_range(nodes, right_pos, hm, lo, hi, elems, e1, hashes, b1);
        } else {
            assert(sibs[lsib.len() as int] == rsib[0]);
        }
    }
}

proof fn lemma_scan_range(nodes: Seq<Seq<u8>>, lo: u64, hi: u64, elems: Seq<Seq<u8>>, k: nat)
    requires
        nodes.len() <= u64::MAX,
        formed(nodes),
        elements_at(nodes, covered_leaves(nodes.len() as u64, lo, hi), elems),
        k <= peaks_of(nodes.len() as u64).len(),
    ensures
        scan(peaks_of(nodes.len() as u64), k, lo, hi, elems, proof_hashes(nodes, lo, hi)) == Some(
            (
                peak_digests(nodes).take(k as int),
                covered_upto(peaks_of(nodes.len() as u64), k, lo, hi).len(),
                proof_parts(nodes, peaks_of(nodes.len() as u64), k, lo, hi).0.len(),
                proof_parts(nodes, peaks_of(nodes.len() as u64), k, lo, hi).1.len(),
            ),
        ),
        covered_upto(peaks_of(nodes.len() as u64), k, lo, hi).len() <= elems.len(),
        forall|j: int|
            0 <= j < covered_upto(peaks_of(nodes.len() as u64), k, lo, hi).len() ==> covered_leaves(
                nodes.len() as u64,
                lo,
                hi,
            )[j] == #[trigger] covered_upto(peaks_of(nodes.len() as u64), k, lo, hi)[j],
    decreases k,
{
    let size = nodes.len() as u64;
    let ps = peaks_of(size);
    let big_k = ps.len();
    lemma_covered_prefix(ps, k, big_k, lo, hi);
    if k == 0 {
        assert(peak_digests(nodes).take(0) =~= Seq::empty());
    } else {
        let km = (k - 1) as nat;
        lemma_scan_range(nodes, lo, hi, elems, km);
        lemma_parts_prefix(nodes, ps, k, big_k, lo, hi);
        let hashes = proof_hashes(nodes, lo, hi);
        let whole = proof_parts(nodes, ps, big_k, lo, hi);
        let front = whole.0;
        let sl = whole.1;
        assert(hashes == front + Seq::new(sl.len(), |i: int| sl[sl.len() - 1 - i]));
        let before = proof_parts(nodes, ps, km, lo, hi);
        let now = proof_parts(nodes, ps, k, lo, hi);
        let p = ps[km as int];
        let all = covered_leaves(size, lo, hi);
        let cprev = covered_upto(ps, km, lo, hi);
        let cnow = covered_upto(ps, k, lo, hi);
        if p.0 >= lo && leftmost_of(p.0, p.1) <= hi {
            let sib = siblings(nodes, p.0, exp2(p.1 as nat), lo, hi);
            let cov = covered_in_tree(p.0, exp2(p.1 as nat), lo, hi);
            let b = before.1.len();
            let e = cprev.len();
            assert(now.1 == before.1 + sib);
            assert(cnow == cprev + cov);
            assert forall|j: int| 0 <= j < sib.len() implies hashes[hashes.len() - 1 - (b + j)]
                == #[trigger] sib[j] by {
                assert(now.1[b + j] == sib[j]);
                assert(sl.take(now.1.len() as int)[b + j] == sl[b + j]);
            }
            assert forall|j: int| 0 <= j < cov.len() implies nodes[cov[j] as int] == leaf_digest(
                #[trigger] cov[j],
                elems[e + j],
            ) by {
                assert(cnow[e + j] == cov[j]);
                assert(all[e + j] == cnow[e + j]);
                assert(nodes[all[e + j] as int] == leaf_digest(all[e + j], elems[e + j]));
            }
            assert(formed_tree(nodes, ps[km as int].0, exp2(ps[km as int].1 as nat)));
            lemma_rebuild_range(nodes, p.0, p.1 as nat, lo, hi, elems, e, hashes, b);
        } else {
            let f = before.0.len();
            assert(now.0 == before.0.push(nodes[p.0 as int]));
            assert(front.take(now.0.len() as int)[f as int] == front[f as int]);
        }
        assert(peak_digests(nodes).take(k as int) =~= peak_digests(nodes).take(km as int).push(
            nodes[p.0 as int],
        ));
    }
}

proof fn lemma_covered_prefix(ps: Seq<(u64, u32)>, k: nat, m: nat, lo: u64, hi: u64)
    requires
        k <= m,
    ensures
        covered_upto(ps, k, lo, hi).len() <= covered_upto(ps, m, lo, hi).len(),
        forall|j: int|
            0 <= j < covered_upto(ps, k, lo, hi).len() ==> covered_upto(ps, m, lo, hi)[j]
                == #[trigger] covered_upto(ps, k, lo, hi)[j],
    decreases m - k,
{
    if k < m {
        lemma_covered_prefix(ps, k, (m - 1) as nat, lo, hi);
        let a = covered_upto(ps, k, lo, hi);
        let b = covered_upto(ps, (m - 1) as nat, lo, hi);
        let c = covered_upto(ps, m, lo, hi);
        assert forall|j: int| 0 <= j < a.len() implies c[j] == #[trigger] a[j] by {
            assert(c[j] == b[j]);
        }
    }
}

/// A proof that the builder makes for the range `lo..=hi` of a well-formed structure verifies,
/// with the elements of the leaves that the range covers, against the structure's root.
pub proof fn lemma_range_proof_verifies(nodes: Seq<Seq<u8>>, lo: u64, hi: u64, elems: Seq<Seq<u8>>)
    requires
        nodes.len() <= u64::MAX,
        formed(nodes),
        elements_at(nodes, covered_leaves(nodes.len() as u64, lo, hi), elems),
    ensures
        verifies(
            nodes.len() as u64,
            proof_hashes(nodes, lo, hi),
            elems,
            lo,
            hi,
            root_digest(nodes.len() as u64, peak_digests(nodes)),
        ),
{
    let size = nodes.len() as u64;
    let ps = peaks_of(size);
    lemma_scan_range(nodes, lo, hi, elems, ps.len());
    assert(peak_digests(nodes).take(ps.len() as int) =~= peak_digests(nodes));
}

/// A proof built for the range `lo..=hi` of a well-formed structure no longer verifies, with the
/// covered elements against the structure's root, once any hash is inserted anywhere into it.
pub proof fn lemma_built_proof_rejects_inserted_hash(
    nodes: Seq<Seq<u8>>,
    lo: u64,
    hi: u64,
    elems: Seq<Seq<u8>>,
    i: int,
    extra: Seq<u8>,
)
    requires
        nodes.len() <= u64::MAX,
        formed(nodes),
        elements_at(nodes, covered_leaves(nodes.len() as u64, lo, hi), elems),
        0 <= i <= proof_hashes(nodes, lo, hi).len(),
    ensures
        !verifies(
            nodes.len() as u64,
            proof_hashes(nodes, lo, hi).insert(i, extra),
            elems,
            lo,
            hi,
            root_digest(nodes.len() as u64, peak_digests(nodes)),
        ),
{
    let size = nodes.len() as u64;
    lemma_range_proof_verifies(nodes, lo, hi, elems);
    lemma_scan_range(nodes, lo, hi, elems, peaks_of(size).len());
    assert(!takes_one_front(size, proof_hashes(nodes, lo, hi), elems, lo, hi, 0));
    lemma_inserted_hash_rejected(
        size,
        proof_hashes(nodes, lo, hi),
        elems,
        lo,
        hi,
        root_digest(size, peak_digests(nodes)),
        i,
        extra,
    );
}

/// A proof built for the range `lo..=hi` of a well-formed structure no longer verifies, with the
/// covered elements against the structure's root, once any one hash is removed from it, unless
/// exactly one peak lies outside the range.
pub proof fn lemma_built_proof_rejects_removed_hash(
    nodes: Seq<Seq<u8>>,
    lo: u64,
    hi: u64,
    elems: Seq<Seq<u8>>,
    i: int,
)
    requires
        nodes.len() <= u64::MAX,
        formed(nodes),
        elements_at(nodes, covered_leaves(nodes.len() as u64, lo, hi), elems),
        0 <= i < proof_hashes(nodes, lo, hi).len(),
        proof_parts(
            nodes,
            peaks_of(nodes.len() as u64),
            peaks_of(nodes.len() as u64).len(),
            lo,
            hi,
        ).0.len() != 1,
    ensures
        !verifies(
            nodes.len() as u64,
            proof_hashes(nodes, lo, hi).remove(i),
            elems,
            lo,
            hi,
            root_digest(nodes.len() as u64, peak_digests(nodes)),
        ),
{
    let size = nodes.len() as u64;
    lemma_range_proof_verifies(nodes, lo, hi, elems);
    lemma_scan_range(nodes, lo, hi, elems, peaks_of(size).len());
    assert(!takes_one_front(size, proof_hashes(nodes, lo, hi), elems, lo, hi, 1));
    lemma_removed_hash_rejected(
        size,
        proof_hashes(nodes, lo, hi),
        elems,
        lo,
        hi,
        root_digest(size, peak_digests(nodes)),
        i,
    );
}

} // verus!
