//! Nine-bit sets. A candidate mask holds digit `d` in bit `d - 1`; the same
//! representation serves for sets of positions `0..9` inside a unit.

use vstd::prelude::*;

verus! {

/// The mask with all nine members.
pub const FULL: u16 = 0x1FF;

/// Bit `k` of `mask` is set.
pub open spec fn bit(mask: u16, k: u16) -> bool {
    (mask >> k) & 1 == 1
}

/// Digit `d` (1..=9) is a member of the digit set `mask`.
pub open spec fn has_digit(mask: u16, d: int) -> bool {
    1 <= d <= 9 && bit(mask, (d - 1) as u16)
}

/// 1 if bit `k` is set, else 0.
pub open spec fn ind(mask: u16, k: u16) -> int {
    if bit(mask, k) {
        1
    } else {
        0
    }
}

/// The number of members among the nine low bits.
pub open spec fn popcount(mask: u16) -> int {
    ind(mask, 0) + ind(mask, 1) + ind(mask, 2) + ind(mask, 3) + ind(mask, 4) + ind(mask, 5) + ind(
        mask,
        6,
    ) + ind(mask, 7) + ind(mask, 8)
}

/// The mask whose only member is bit `k`.
pub open spec fn single(k: u16) -> u16 {
    1u16 << k
}

/// `mask` with bit `k` removed.
pub open spec fn without(mask: u16, k: u16) -> u16 {
    mask & !(1u16 << k)
}

/// The least set bit below nine, or nine when there is none.
pub open spec fn lowest_bit(mask: u16) -> u16 {
    if bit(mask, 0) {
        0
    } else if bit(mask, 1) {
        1
    } else if bit(mask, 2) {
        2
    } else if bit(mask, 3) {
        3
    } else if bit(mask, 4) {
        4
    } else if bit(mask, 5) {
        5
    } else if bit(mask, 6) {
        6
    } else if bit(mask, 7) {
        7
    } else if bit(mask, 8) {
        8
    } else {
        9
    }
}

/// The members of `a & b` are the common members of `a` and `b`.
pub proof fn lemma_bits_and(a: u16, b: u16)
    by (bit_vector)
    ensures
        forall|k: u16| k < 16 ==> (#[trigger] bit(a & b, k) == (bit(a, k) && bit(b, k))),
        a <= 0x1FF || b <= 0x1FF ==> a & b <= 0x1FF,
{
}

/// The members of `a | b` are the members of `a` and those of `b`.
pub proof fn lemma_bits_or(a: u16, b: u16)
    by (bit_vector)
    ensures
        forall|k: u16| k < 16 ==> (#[trigger] bit(a | b, k) == (bit(a, k) || bit(b, k))),
        a <= 0x1FF && b <= 0x1FF ==> a | b <= 0x1FF,
{
}

/// The members of `without(a, j)` are the members of `a` but `j`.
pub proof fn lemma_bits_without(a: u16, j: u16)
    by (bit_vector)
    requires
        j < 16,
    ensures
        forall|k: u16| k < 16 ==> (#[trigger] bit(without(a, j), k) == (bit(a, k) && k != j)),
        without(a, j) <= a,
{
}

/// The only member of `single(j)` is `j`.
pub proof fn lemma_bits_single(j: u16)
    by (bit_vector)
    requires
        j < 9,
    ensures
        forall|k: u16| k < 16 ==> (#[trigger] bit(single(j), k) == (k == j)),
        single(j) <= 0x1FF,
{
}

/// The full mask has the members 0 to 8, and the mask 0 has none.
pub proof fn lemma_bits_const()
    by (bit_vector)
    ensures
        forall|k: u16| k < 16 ==> (#[trigger] bit(0x1FF, k) == (k < 9)),
        forall|k: u16| k < 16 ==> !(#[trigger] bit(0, k)),
{
}

/// Two masks below 512 with the same nine low bits are equal.
pub proof fn lemma_bits_ext(a: u16, b: u16)
    by (bit_vector)
    requires
        a <= 0x1FF,
        b <= 0x1FF,
        bit(a, 0) == bit(b, 0),
        bit(a, 1) == bit(b, 1),
        bit(a, 2) == bit(b, 2),
        bit(a, 3) == bit(b, 3),
        bit(a, 4) == bit(b, 4),
        bit(a, 5) == bit(b, 5),
        bit(a, 6) == bit(b, 6),
        bit(a, 7) == bit(b, 7),
        bit(a, 8) == bit(b, 8),
    ensures
        a == b,
{
}

/// A mask below 512 is zero exactly when it has no member.
pub proof fn lemma_zero_iff_empty(a: u16)
    requires
        a <= FULL,
    ensures
        a == 0 <==> popcount(a) == 0,
        a == 0 <==> (forall|k: u16| k < 9 ==> !bit(a, k)),
{
    lemma_bits_const();
    if popcount(a) == 0 {
        lemma_bits_ext(a, 0);
    }
    if forall|k: u16| k < 9 ==> !bit(a, k) {
        assert(!bit(a, 0) && !bit(a, 1) && !bit(a, 2) && !bit(a, 3) && !bit(a, 4) && !bit(a, 5)
            && !bit(a, 6) && !bit(a, 7) && !bit(a, 8));
        lemma_bits_ext(a, 0);
    }
}

/// Removing a member lowers the count by one.
pub proof fn lemma_popcount_without(a: u16, j: u16)
    requires
        j < 9,
    ensures
        popcount(without(a, j)) == popcount(a) - ind(a, j),
{
    lemma_bits_without(a, j);
}

/// A non-empty mask has its lowest member; nothing below it is a member.
pub proof fn lemma_lowest_bit(a: u16)
    ensures
        popcount(a) > 0 <==> lowest_bit(a) < 9,
        lowest_bit(a) < 9 ==> bit(a, lowest_bit(a)),
        forall|k: u16| k < lowest_bit(a) ==> !bit(a, k),
        popcount(a) == 1 ==> (forall|k: u16| k < 9 && bit(a, k) ==> k == lowest_bit(a)),
{
}

/// A mask with a member counts at least one.
pub proof fn lemma_one_member(m: u16, x: u16)
    requires
        x < 9,
        bit(m, x),
    ensures
        popcount(m) >= 1,
{
    lemma_popcount_without(m, x);
}

/// A mask with two distinct members counts at least two.
pub proof fn lemma_two_members(m: u16, x: u16, y: u16)
    requires
        x < 9,
        y < 9,
        x != y,
        bit(m, x),
        bit(m, y),
    ensures
        popcount(m) >= 2,
{
    lemma_popcount_without(m, x);
    lemma_bits_without(m, x);
    lemma_one_member(without(m, x), y);
}

/// A mask with three distinct members counts at least three.
pub proof fn lemma_three_members(m: u16, x: u16, y: u16, z: u16)
    requires
        x < 9,
        y < 9,
        z < 9,
        x != y,
        x != z,
        y != z,
        bit(m, x),
        bit(m, y),
        bit(m, z),
    ensures
        popcount(m) >= 3,
{
    lemma_popcount_without(m, x);
    lemma_bits_without(m, x);
    lemma_two_members(without(m, x), y, z);
}

/// A mask of two members has its lowest member and the lowest of the rest,
/// and no other.
pub proof fn lemma_pair_members(m: u16)
    requires
        popcount(m) == 2,
    ensures
        lowest_bit(m) < 9,
        lowest_bit(without(m, lowest_bit(m))) < 9,
        lowest_bit(m) < lowest_bit(without(m, lowest_bit(m))),
        forall|k: u16|
            k < 9 ==> (#[trigger] bit(m, k) <==> k == lowest_bit(m) || k == lowest_bit(
                without(m, lowest_bit(m)),
            )),
{
    let a = lowest_bit(m);
    lemma_lowest_bit(m);
    lemma_popcount_without(m, a);
    lemma_bits_without(m, a);
    lemma_lowest_bit(without(m, a));
}

/// Pigeonhole over masks: an injection from the members of `sel` into the
/// members of `v` shows that `v` has at least as many members.
pub proof fn lemma_injection_popcount(sel: u16, v: u16, f: spec_fn(u16) -> u16)
    requires
        forall|p: u16| p < 9 && bit(sel, p) ==> #[trigger] f(p) < 9 && bit(v, f(p)),
        forall|p: u16, q: u16|
            p < 9 && q < 9 && bit(sel, p) && bit(sel, q) && p != q ==> #[trigger] f(p)
                != #[trigger] f(q),
    ensures
        popcount(sel) <= popcount(v),
    decreases popcount(sel),
{
    if popcount(sel) > 0 {
        lemma_lowest_bit(sel);
        let p = lowest_bit(sel);
        lemma_popcount_without(sel, p);
        lemma_popcount_without(v, f(p));
        lemma_bits_without(sel, p);
        lemma_bits_without(v, f(p));
        lemma_injection_popcount(without(sel, p), without(v, f(p)), f);
    }
}

/// Whether digit `d` is in `mask`.
pub fn contains(mask: u16, d: u8) -> (r: bool)
    requires
        1 <= d <= 9,
    ensures
        r == has_digit(mask, d as int),
{
    (mask >> (d - 1)) & 1 == 1
}

/// Whether position `k` is in `mask`.
pub fn bit_at(mask: u16, k: usize) -> (r: bool)
    requires
        k < 9,
    ensures
        r == bit(mask, k as u16),
{
    (mask >> (k as u16)) & 1 == 1
}

/// `mask` without digit `d`.
pub fn remove(mask: u16, d: u8) -> (r: u16)
    requires
        1 <= d <= 9,
    ensures
        r == without(mask, (d - 1) as u16),
        r <= mask,
        forall|e: int| has_digit(r, e) <==> has_digit(mask, e) && e != d,
{
    proof {
        lemma_bits_without(mask, (d - 1) as u16);
    }
    mask & !(1u16 << (d - 1))
}

/// The members of both masks.
pub fn intersect(a: u16, b: u16) -> (r: u16)
    ensures
        r == a & b,
        a <= FULL || b <= FULL ==> r <= FULL,
        forall|k: u16| k < 16 ==> (#[trigger] bit(r, k) == (bit(a, k) && bit(b, k))),
        forall|e: int| has_digit(r, e) <==> has_digit(a, e) && has_digit(b, e),
{
    proof {
        lemma_bits_and(a, b);
    }
    a & b
}

/// The number of members among the nine low bits.
pub fn count(mask: u16) -> (r: u32)
    ensures
        r == popcount(mask),
        r <= 9,
{
    let mut n: u32 = 0;
    let mut k: usize = 0;
    while k < 9
        invariant
            k <= 9,
            n <= k,
            n == (if k > 0 { ind(mask, 0) } else { 0 }) + (if k > 1 { ind(mask, 1) } else { 0 }) + (if k > 2 {
                ind(mask, 2)
            } else {
                0
            }) + (if k > 3 { ind(mask, 3) } else { 0 }) + (if k > 4 { ind(mask, 4) } else { 0 }) + (if k
                > 5 { ind(mask, 5) } else { 0 }) + (if k > 6 { ind(mask, 6) } else { 0 }) + (if k > 7 {
                ind(mask, 7)
            } else {
                0
            }) + (if k > 8 { ind(mask, 8) } else { 0 }),
        decreases 9 - k,
    {
        if bit_at(mask, k) {
            n = n + 1;
        }
        k = k + 1;
    }
    n
}

/// The least digit in `mask`, or 10 when the mask holds none.
pub fn lowest_digit(mask: u16) -> (d: u8)
    ensures
        d == lowest_bit(mask) + 1,
        1 <= d <= 10,
        d <= 9 ==> has_digit(mask, d as int),
        forall|e: int| 1 <= e < d ==> !has_digit(mask, e),
{
    proof {
        lemma_lowest_bit(mask);
    }
    let mut k: usize = 0;
    while k < 9
        invariant
            k <= 9,
            forall|j: u16| j < k ==> !bit(mask, j),
        decreases 9 - k,
    {
        if bit_at(mask, k) {
            return (k + 1) as u8;
        }
        k = k + 1;
    }
    10
}

} // verus!
