//! Inclusion and range proofs, and their verification against a root digest.

use crate::hashing::{bytes_eq, leaf_digest, leaf_hash, node_digest, node_hash, root_digest};
use crate::peaks::{exp2, leftmost_of, peak_fits, peaks, peaks_of};
use vstd::prelude::*;

verus! {

/// What proves that an element, or a run of elements, stands at given positions of a structure.
/// `hashes` holds first the digests of the peaks that hold none of the proven elements, then, read
/// from the back, the sibling digests needed to rebuild the other peaks.
#[derive(Clone, Debug, PartialEq, Eq)]
pub struct Proof {
    /// Total number of nodes of the structure proven against.
    pub size: u64,
    pub hashes: Vec<Vec<u8>>,
}

/// The byte strings held by a sequence of vectors.
pub open spec fn views(s: Seq<Vec<u8>>) -> Seq<Seq<u8>> {
    s.map_values(|v: Vec<u8>| v@)
}

/// A power of two, written without its exponent.
pub open spec fn is_pow2(x: nat) -> bool
    decreases x,
{
    x == 1 || (x >= 2 && x % 2 == 0 && is_pow2(x / 2))
}

/// The sibling digest at back index `b` of `hashes`, with the cursors after taking it.
pub open spec fn take_sibling(hashes: Seq<Seq<u8>>, e: nat, b: nat) -> Option<(Seq<u8>, nat, nat)> {
    if b < hashes.len() {
        Some((hashes[hashes.len() - 1 - b], e, b + 1))
    } else {
        None
    }
}

/// Rebuilds the digest of the node at `pos`, whose tree has `two_h` leaves, for the proven range
/// `lo..=hi`: it takes elements from index `e` on and sibling digests from back index `b` on.
/// The result holds the digest and both cursors after the rebuild, or nothing where the elements
/// or the sibling digests run out.
pub open spec fn rebuild(
    pos: u64,
    two_h: nat,
    lo: u64,
    hi: u64,
    elems: Seq<Seq<u8>>,
    e: nat,
    hashes: Seq<Seq<u8>>,
    b: nat,
) -> Option<(Seq<u8>, nat, nat)>
    decreases two_h,
{
    if two_h <= 1 {
        if e < elems.len() {
            Some((leaf_digest(pos, elems[e as int]), e + 1, b))
        } else {
            None
        }
    } else {
        let left_pos = (pos - two_h) as u64;
        let right_pos = (pos - 1) as u64;
        let left = if left_pos >= lo {
            rebuild(left_pos, two_h / 2, lo, hi, elems, e, hashes, b)
        } else {
            take_sibling(hashes, e, b)
        };
        match left {
            None => None,
            Some(l) => {
                let right = if left_pos < hi {
                    rebuild(right_pos, two_h / 2, lo, hi, elems, l.1, hashes, l.2)
                } else {
                    take_sibling(hashes, l.1, l.2)
                };
                match right {
                    None => None,
                    Some(r) => Some((node_digest(pos, l.0, r.0), r.1, r.2)),
                }
            },
        }
    }
}

/// The state of a verification after the first `k` peaks of `ps`: the peak digests so far, the
/// element cursor, the number of hashes taken from the front and the number taken from the back.
pub open spec fn scan(
    ps: Seq<(u64, u32)>,
    k: nat,
    lo: u64,
    hi: u64,
    elems: Seq<Seq<u8>>,
    hashes: Seq<Seq<u8>>,
) -> Option<(Seq<Seq<u8>>, nat, nat, nat)>
    decreases k,
{
    if k == 0 {
        Some((Seq::empty(), 0, 0, 0))
    } else {
        match scan(ps, (k - 1) as nat, lo, hi, elems, hashes) {
            None => None,
            Some(st) => {
                let p = ps[k - 1];
                if p.0 >= lo && leftmost_of(p.0, p.1) <= hi {
                    match rebuild(p.0, exp2(p.1 as nat), lo, hi, elems, st.1, hashes, st.3) {
                        None => None,
                        Some(r) => Some((st.0.push(r.0), r.1, st.2, r.2)),
                    }
                } else if st.2 < hashes.len() {
                    Some((st.0.push(hashes[st.2 as int]), st.1, st.2 + 1, st.3))
                } else {
                    None
                }
            },
        }
    }
}

/// The state of a verification once every peak of a structure of `size` nodes is processed.
pub open spec fn final_scan(
    size: u64,
    hashes: Seq<Seq<u8>>,
    elems: Seq<Seq<u8>>,
    lo: u64,
    hi: u64,
) -> Option<(Seq<Seq<u8>>, nat, nat, nat)> {
    scan(peaks_of(size), peaks_of(size).len(), lo, hi, elems, hashes)
}

/// Whether the proof of `size` and `hashes` shows that `elems` stand at positions `lo..=hi` of the
/// structure with root digest `root`: every peak is rebuilt or taken, every element is used, the
/// front and back cursors over `hashes` leave no hash between them, and the root matches.
pub open spec fn verifies(
    size: u64,
    hashes: Seq<Seq<u8>>,
    elems: Seq<Seq<u8>>,
    lo: u64,
    hi: u64,
    root: Seq<u8>,
) -> bool {
    match final_scan(size, hashes, elems, lo, hi) {
        None => false,
        Some(st) => {
            &&& st.1 == elems.len()
            &&& (st.3 == hashes.len() || st.2 + st.3 == hashes.len())
            &&& root == root_digest(size, st.0)
        },
    }
}

proof fn lemma_scan_none(
    ps: Seq<(u64, u32)>,
    k: nat,
    m: nat,
    lo: u64,
    hi: u64,
    elems: Seq<Seq<u8>>,
    hashes: Seq<Seq<u8>>,
)
    requires
        k <= m,
        scan(ps, k, lo, hi, elems, hashes) is None,
    ensures
        scan(ps, m, lo, hi, elems, hashes) is None,
    decreases m - k,
{
    if k < m {
        lemma_scan_none(ps, k + 1, m, lo, hi, elems, hashes);
    }
}

/// How far each cursor of a rebuild moves depends on how many hashes there are, not on what they
/// hold: the same rebuild over any `h2` long enough for it takes the same elements and siblings.
proof fn lemma_rebuild_counts(
    pos: u64,
    two_h: nat,
    lo: u64,
    hi: u64,
    elems: Seq<Seq<u8>>,
    e: nat,
    h1: Seq<Seq<u8>>,
    h2: Seq<Seq<u8>>,
    b: nat,
)
    requires
        b <= h1.len(),
        rebuild(pos, two_h, lo, hi, elems, e, h1, b) is Some,
    ensures
        ({
            let r1 = rebuild(pos, two_h, lo, hi, elems, e, h1, b)->0;
            &&& b <= r1.2 <= h1.len()
            &&& h2.len() >= r1.2 ==> {
                let r2 = rebuild(pos, two_h, lo, hi, elems, e, h2, b);
                let t2 = r2->0;
                &&& r2 is Some
                &&& t2.1 == r1.1
                &&& t2.2 == r1.2
            }
        }),
    decreases two_h,
{
    if two_h > 1 {
        let left_pos = (pos - two_h) as u64;
        let right_pos = (pos - 1) as u64;
        if left_pos >= lo {
            lemma_rebuild_counts(left_pos, two_h / 2, lo, hi, elems, e, h1, h2, b);
        }
        let l = if left_pos >= lo {
            rebuild(left_pos, two_h / 2, lo, hi, elems, e, h1, b)
        } else {
            take_sibling(h1, e, b)
        };
        if left_pos < hi {
            let lt = l->0;
            lemma_rebuild_counts(right_pos, two_h / 2, lo, hi, elems, lt.1, h1, h2, lt.2);
        }
    }
}

/// The cursor counts of a verification scan depend on how many hashes there are, not on what
/// they hold.
proof fn lemma_scan_counts(
    ps: Seq<(u64, u32)>,
    k: nat,
    lo: u64,
    hi: u64,
    elems: Seq<Seq<u8>>,
    h1: Seq<Seq<u8>>,
    h2: Seq<Seq<u8>>,
)
    requires
        k <= ps.len(),
        scan(ps, k, lo, hi, elems, h1) is Some,
    ensures
        ({
            let s1 = scan(ps, k, lo, hi, elems, h1)->0;
            &&& s1.2 <= h1.len()
            &&& s1.3 <= h1.len()
            &&& h2.len() >= s1.2 && h2.len() >= s1.3 ==> {
                let s2 = scan(ps, k, lo, hi, elems, h2);
                let t2 = s2->0;
                &&& s2 is Some
                &&& t2.1 == s1.1
                &&& t2.2 == s1.2
                &&& t2.3 == s1.3
            }
        }),
    decreases k,
{
    if k > 0 {
        let km = (k - 1) as nat;
        lemma_scan_counts(ps, km, lo, hi, elems, h1, h2);
        let st = scan(ps, km, lo, hi, elems, h1)->0;
        let p = ps[k - 1];
        if p.0 >= lo && leftmost_of(p.0, p.1) <= hi {
            lemma_rebuild_counts(p.0, exp2(p.1 as nat), lo, hi, elems, st.1, h1, h2, st.3);
        }
    }
}

/// Whether a successful verification of `hashes` took one hash from the front while its back
/// cursor stopped `short` hashes before the front: the one shape in which a shorter or a longer
/// list could still pass the checks on how the hashes were used.
pub open spec fn takes_one_front(
    size: u64,
    hashes: Seq<Seq<u8>>,
    elems: Seq<Seq<u8>>,
    lo: u64,
    hi: u64,
    short: nat,
) -> bool {
    match final_scan(size, hashes, elems, lo, hi) {
        None => false,
        Some(st) => st.2 == 1 && st.3 + short == hashes.len(),
    }
}

/// A proof that verifies no longer does once any hash is inserted anywhere into its list, the
/// unused hash being caught by the cursors, unless its back cursor ran through every hash while
/// its front cursor took exactly one.
pub proof fn lemma_inserted_hash_rejected(
    size: u64,
    hashes: Seq<Seq<u8>>,
    elems: Seq<Seq<u8>>,
    lo: u64,
    hi: u64,
    root: Seq<u8>,
    i: int,
    extra: Seq<u8>,
)
    requires
        0 <= i <= hashes.len(),
        verifies(size, hashes, elems, lo, hi, root),
        !takes_one_front(size, hashes, elems, lo, hi, 0),
    ensures
        !verifies(size, hashes.insert(i, extra), elems, lo, hi, root),
{
    let ps = peaks_of(size);
    let h2 = hashes.insert(i, extra);
    lemma_scan_counts(ps, ps.len(), lo, hi, elems, hashes, h2);
}

/// A proof that verifies no longer does once any one hash is removed from its list, the cursors
/// running short, unless its front cursor took exactly one hash and its back cursor all the rest.
pub proof fn lemma_removed_hash_rejected(
    size: u64,
    hashes: Seq<Seq<u8>>,
    elems: Seq<Seq<u8>>,
    lo: u64,
    hi: u64,
    root: Seq<u8>,
    i: int,
)
    requires
        0 <= i < hashes.len(),
        verifies(size, hashes, elems, lo, hi, root),
        !takes_one_front(size, hashes, elems, lo, hi, 1),
    ensures
        !verifies(size, hashes.remove(i), elems, lo, hi, root),
{
    let ps = peaks_of(size);
    let h2 = hashes.remove(i);
    lemma_scan_counts(ps, ps.len(), lo, hi, elems, hashes, h2);
    if final_scan(size, h2, elems, lo, hi) is Some {
        lemma_scan_counts(ps, ps.len(), lo, hi, elems, h2, hashes);
    }
}

fn take_sibling_exec(hashes: &Vec<Vec<u8>>, used_back: &mut usize) -> (r: Option<Vec<u8>>)
    requires
        *old(used_back) <= hashes@.len(),
    ensures
        *final(used_back) <= hashes@.len(),
        match take_sibling(views(hashes@), 0, *old(used_back) as nat) {
            None => r is None && *final(used_back) == *old(used_back),
            Some(t) => r is Some && r->0@ == t.0 && *final(used_back) == t.2,
        },
{
    if *used_back < hashes.len() {
        let d = hashes[hashes.len() - 1 - *used_back].clone();
        assert(d@ =~= hashes@[hashes@.len() - 1 - *used_back]@);
        *used_back = *used_back + 1;
        Some(d)
    } else {
        None
    }
}

fn peak_hash_from_range(
    node_pos: u64,
    two_h: u64,
    lo: u64,
    hi: u64,
    elements: &[Vec<u8>],
    next_elem: &mut usize,
    hashes: &Vec<Vec<u8>>,
    used_back: &mut usize,
) -> (r: Option<Vec<u8>>)
    requires
        is_pow2(two_h as nat),
        node_pos + 2 >= 2 * two_h,
        *old(next_elem) <= elements@.len(),
        *old(used_back) <= hashes@.len(),
    ensures
        *final(next_elem) <= elements@.len(),
        *final(used_back) <= hashes@.len(),
        match rebuild(
            node_pos,
            two_h as nat,
            lo,
            hi,
            views(elements@),
            *old(next_elem) as nat,
            views(hashes@),
            *old(used_back) as nat,
        ) {
            None => r is None,
            Some(t) => r is Some && r->0@ == t.0 && *final(next_elem) == t.1 && *final(used_back)
                == t.2,
        },
    decreases two_h,
{
    if two_h <= 1 {
        if *next_elem < elements.len() {
            let d = leaf_hash(node_pos, &elements[*next_elem]);
            *next_elem = *next_elem + 1;
            return Some(d);
        }
        return None;
    }
    let left_pos = node_pos - two_h;
    let right_pos = node_pos - 1;
    let half = two_h / 2;
    let left = if left_pos >= lo {
        peak_hash_from_range(left_pos, half, lo, hi, elements, next_elem, hashes, used_back)
    } else {
        take_sibling_exec(hashes, used_back)
    };
    let left_hash = match left {
        Some(d) => d,
        None => return None,
    };
    let right = if left_pos < hi {
        peak_hash_from_range(right_pos, half, lo, hi, elements, next_elem, hashes, used_back)
    } else {
        take_sibling_exec(hashes, used_back)
    };
    let right_hash = match right {
        Some(d) => d,
        None => return None,
    };
    Some(node_hash(node_pos, &left_hash, &right_hash))
}

pub(crate) fn exp2_u64(h: u32) -> (r: u64)
    requires
        h < 64,
    ensures
        r == exp2(h as nat),
        is_pow2(r as nat),
{
    let mut r: u64 = 1;
    let mut i: u32 = 0;
    while i < h
        invariant
            i <= h < 64,
            r == exp2(i as nat),
            is_pow2(r as nat),
        decreases h - i,
    {
        proof {
            assert(exp2((i + 1) as nat) == 2 * exp2(i as nat));
            crate::peaks::lemma_exp2_64();
            crate::peaks::lemma_exp2_mono(i as nat + 1, 63);
            assert(exp2(64) == 2 * exp2(63));
            assert((2 * r) / 2 == r);
        }
        r = 2 * r;
        i = i + 1;
    }
    r
}

impl Proof {
    /// Whether this proof shows that the `elements` stand one after another at the positions
    /// `start_element_pos` through `end_element_pos` of the structure whose root digest is
    /// `root_hash`.
    pub fn verify_range_inclusion(
        &self,
        elements: &[Vec<u8>],
        start_element_pos: u64,
        end_element_pos: u64,
        root_hash: &Vec<u8>,
    ) -> (r: bool)
        ensures
            r == verifies(
                self.size,
                views(self.hashes@),
                views(elements@),
                start_element_pos,
                end_element_pos,
                root_hash@,
            ),
    {
        let ghost hs = views(self.hashes@);
        let ghost es = views(elements@);
        let ps = peaks(self.size);
        let mut peak_hashes: Vec<Vec<u8>> = Vec::new();
        let mut next_elem: usize = 0;
        let mut used_front: usize = 0;
        let mut used_back: usize = 0;
        let mut k: usize = 0;
        while k < ps.len()
            invariant
                k <= ps@.len(),
                ps@ == peaks_of(self.size),
                forall|i: int| 0 <= i < ps@.len() ==> peak_fits(#[trigger] ps@[i], self.size),
                hs == views(self.hashes@),
                es == views(elements@),
                next_elem <= elements@.len(),
                used_front <= self.hashes@.len(),
                used_back <= self.hashes@.len(),
                scan(ps@, k as nat, start_element_pos, end_element_pos, es, hs) == Some(
                    (views(peak_hashes@), next_elem as nat, used_front as nat, used_back as nat),
                ),
            decreases ps@.len() - k,
        {
            let (peak_pos, height) = ps[k];
            assert(peak_fits(ps@[k as int], self.size));
            let two_h = exp2_u64(height);
            let leftmost = peak_pos - (two_h - 1) - (two_h - 1);
            let ghost before = peak_hashes@;
            if peak_pos >= start_element_pos && leftmost <= end_element_pos {
                match peak_hash_from_range(
                    peak_pos,
                    two_h,
                    start_element_pos,
                    end_element_pos,
                    elements,
                    &mut next_elem,
                    &self.hashes,
                    &mut used_back,
                ) {
                    Some(d) => {
                        peak_hashes.push(d);
                    },
                    None => {
                        proof {
                            lemma_scan_none(
                                ps@,
                                (k + 1) as nat,
                                ps@.len(),
                                start_element_pos,
                                end_element_pos,
                                es,
                                hs,
                            );
                        }
                        return false;
                    },
                }
            } else if used_front < self.hashes.len() {
                let d = self.hashes[used_front].clone();
                assert(d@ =~= self.hashes@[used_front as int]@);
                peak_hashes.push(d);
                used_front = used_front + 1;
            } else {
                proof {
                    lemma_scan_none(
                        ps@,
                        (k + 1) as nat,
                        ps@.len(),
                        start_element_pos,
                        end_element_pos,
                        es,
                        hs,
                    );
                }
                return false;
            }
            assert(views(peak_hashes@) =~= views(before).push(peak_hashes@.last()@));
            k = k + 1;
        }
        if next_elem < elements.len() {
            // some elements were not used
            return false;
        }
        let n = self.hashes.len();
        if used_back < n && used_front != n - used_back {
            // the two cursors do not meet: some hash was never used, so the proof is malleable
            return false;
        }
        let computed = crate::hashing::root_hash(self.size, &peak_hashes);
        bytes_eq(root_hash, &computed)
    }

    /// Whether this proof shows that `element` stands at position `element_pos` of the structure
    /// whose root digest is `root_hash`.
    pub fn verify_element_inclusion(&self, element: &Vec<u8>, element_pos: u64, root_hash: &Vec<u8>) -> (r:
        bool)
        ensures
            r == verifies(
                self.size,
                views(self.hashes@),
                seq![element@],
                element_pos,
                element_pos,
                root_hash@,
            ),
    {
        let single = element.clone();
        assert(single@ =~= element@);
        let elements: Vec<Vec<u8>> = vec![single];
        assert(views(elements@) =~= seq![element@]);
        self.verify_range_inclusion(elements.as_slice(), element_pos, element_pos, root_hash)
    }
}

} // verus!
