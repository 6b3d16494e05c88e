//! Arbitrary-width two's-complement bit patterns stored as little-endian
//! `u64` limbs. Every operation takes the pattern's width as external
//! context and returns exactly `limb_count(width)` limbs, masked to the
//! width (bits at or above `width` are zero).

use vstd::prelude::*;
use vstd::assert_by_contradiction;
use vstd::arithmetic::power2::{lemma2_to64, lemma2_to64_rest, lemma_pow2_adds, lemma_pow2_pos, lemma_pow2_strictly_increases, lemma_pow2_unfold, pow2};

use crate::text::{decimal, digit_char, digit_str};

verus! {

/// Limbs needed for `width` bits (at least one).
pub open spec fn spec_limb_count(width: u32) -> nat {
    if width == 0 { 1 } else { ((width as nat + 63) / 64) as nat }
}

/// Bit `b` of a limb.
pub open spec fn bit64(x: u64, b: u64) -> bool {
    ((x >> b) & 1u64) == 1u64
}

/// A zero limb has no bit set.
pub proof fn lemma_zero_limb_bit(b: u64)
    ensures
        !bit64(0u64, b),
{
    assert(((0u64 >> b) & 1u64) != 1u64) by (bit_vector);
}

/// Bit `i` of limb vector `s` (bits past the end read as 0).
pub open spec fn limb_bit(s: Seq<u64>, i: int) -> bool {
    0 <= i && i / 64 < s.len() && bit64(s[i / 64], (i % 64) as u64)
}

/// Whether every bit of `s` at position `width` or above is zero.
pub open spec fn masked_to(s: Seq<u64>, width: u32) -> bool {
    forall|i: int| i >= width ==> !#[trigger] limb_bit(s, i)
}

/// Three-way comparison result.
#[derive(Clone, Copy, Debug, PartialEq, Eq, Structural)]
pub enum Cmp {
    /// Left is smaller.
    Less,
    /// Both are equal.
    Equal,
    /// Left is larger.
    Greater,
}

/// Number of limbs for `width` bits: `ceil(width / 64)`, at least one.
pub fn limb_count(width: u32) -> (n: usize)
    ensures
        n == spec_limb_count(width),
        n >= 1,
        n <= 67108864,
{
    if width == 0 {
        1
    } else {
        ((width as u64 + 63) / 64) as usize
    }
}

/// A zero pattern of `limb_count(width)` limbs.
pub fn zeros(width: u32) -> (v: Vec<u64>)
    ensures
        v@.len() == spec_limb_count(width),
        forall|i: int| 0 <= i < v@.len() ==> v@[i] == 0,
{
    let n = limb_count(width);
    let mut v: Vec<u64> = Vec::new();
    let mut i: usize = 0;
    while i < n
        invariant
            i <= n,
            v@.len() == i,
            forall|j: int| 0 <= j < v@.len() ==> v@[j] == 0,
        decreases n - i,
    {
        v.push(0);
        i += 1;
    }
    v
}

/// The low `k` bits of a limb set, the rest clear (`k <= 64`).
fn low_mask(k: u64) -> (m: u64)
    requires
        k <= 64,
    ensures
        forall|b: u64| b < 64 ==> (#[trigger] bit64(m, b) <==> b < k),
{
    if k >= 64 {
        let m: u64 = 0xffff_ffff_ffff_ffff;
        assert forall|b: u64| b < 64 implies (#[trigger] bit64(m, b) <==> b < k) by {
            assert(((m >> b) & 1u64) == 1u64) by (bit_vector)
                requires m == 0xffff_ffff_ffff_ffffu64, b < 64;
        }
        m
    } else {
        assert((1u64 << k) >= 1u64) by (bit_vector)
            requires k < 64;
        let m: u64 = (1u64 << k) - 1;
        assert forall|b: u64| b < 64 implies (#[trigger] bit64(m, b) <==> b < k) by {
            assert((((m >> b) & 1u64) == 1u64) <==> b < k) by (bit_vector)
                requires k < 64, m == ((1u64 << k) - 1) as u64, b < 64;
        }
        m
    }
}

/// Clear every bit at or above `width`; the length is unchanged.
pub fn mask_to_width(limbs: &mut Vec<u64>, width: u32)
    ensures
        final(limbs)@.len() == old(limbs)@.len(),
        masked_to(final(limbs)@, width),
        forall|i: int| 0 <= i < width ==> #[trigger] limb_bit(final(limbs)@, i) == limb_bit(old(limbs)@, i),
        pattern_value(final(limbs)@, width) == pattern_value(old(limbs)@, width),
{
    let n = limbs.len();
    let mut j: usize = 0;
    while j < n
        invariant
            j <= n,
            n == limbs@.len(),
            n == old(limbs)@.len(),
            forall|k: int| j <= k < n ==> limbs@[k] == old(limbs)@[k],
            forall|i: int| 0 <= i < (j as int) * 64 ==>
                (#[trigger] limb_bit(limbs@, i) <==> (limb_bit(old(limbs)@, i) && i < width)),
        decreases n - j,
    {
        let lo: u128 = (j as u128) * 64;
        let keep: u64 = if (width as u128) <= lo {
            0
        } else if (width as u128) - lo >= 64 {
            64
        } else {
            ((width as u128) - lo) as u64
        };
        let m = low_mask(keep);
        let old_limb = limbs[j];
        let new_limb = old_limb & m;
        assert forall|b: u64| b < 64 implies (#[trigger] bit64(new_limb, b) <==> (bit64(old_limb, b) && bit64(m, b))) by {
            assert((((new_limb >> b) & 1u64) == 1u64) <==> ((((old_limb >> b) & 1u64) == 1u64) && (((m >> b) & 1u64) == 1u64))) by (bit_vector)
                requires new_limb == old_limb & m, b < 64;
        }
        let ghost prev = limbs@;
        limbs.set(j, new_limb);
        proof {
            assert forall|i: int| 0 <= i < ((j + 1) as int) * 64 implies
                (#[trigger] limb_bit(limbs@, i) <==> (limb_bit(old(limbs)@, i) && i < width)) by {
                if i < (j as int) * 64 {
                    assert(i / 64 < j as int);
                    assert(limbs@[i / 64] == prev[i / 64]);
                    assert(limb_bit(limbs@, i) == limb_bit(prev, i));
                } else {
                    assert(i / 64 == j as int);
                    let b = (i % 64) as u64;
                    assert(b < 64);
                    assert(bit64(m, b) <==> b < keep);
                    assert(limbs@[i / 64] == new_limb);
                    assert(old(limbs)@[i / 64] == old_limb);
                    assert((b < keep) <==> (i < width));
                }
            }
        }
        j += 1;
    }
    proof {
        assert forall|i: int| i >= width implies !#[trigger] limb_bit(limbs@, i) by {
            if 0 <= i && i < (n as int) * 64 {
            }
        }
        lemma_value_mod_bits(limbs@, old(limbs)@, width as nat);
    }
}

/// Bit `i` of `limbs` (false past the end).
pub fn bit_at(limbs: &[u64], i: u32) -> (b: bool)
    ensures
        b == limb_bit(limbs@, i as int),
{
    let li = (i / 64) as usize;
    if li >= limbs.len() {
        false
    } else {
        let sh = (i % 64) as u64;
        (limbs[li] >> sh) & 1 == 1
    }
}

/// `v` as a pattern of `width` bits.
pub fn from_u128(v: u128, width: u32) -> (out: Vec<u64>)
    ensures
        out@.len() == spec_limb_count(width),
        masked_to(out@, width),
        pattern_value(out@, width) == (v as nat) % pow2(width as nat),
{
    let mut out = zeros(width);
    let lo = v as u64;
    let hi = (v >> 64) as u64;
    out.set(0, lo);
    if out.len() > 1 {
        out.set(1, hi);
    }
    proof {
        let n = out@.len() as int;
        assert(v == lo as u128 + (hi as u128) * 0x1_0000_0000_0000_0000u128
            && lo as u128 == v % 0x1_0000_0000_0000_0000u128) by (bit_vector)
            requires lo == v as u64, hi == (v >> 64) as u64;
        lemma_value_split(out@, 1);
        assert(out@.subrange(0, 1) =~= seq![lo]);
        lemma_value_one(lo);
        lemma2_to64();
        if n > 1 {
            let rest = out@.subrange(1, n);
            lemma_value_split(rest, 1);
            assert(rest.subrange(0, 1) =~= seq![hi]);
            lemma_value_one(hi);
            lemma_value_zero(rest.subrange(1, rest.len() as int));
            assert(limbs_value(out@) == v);
        } else {
            assert(out@.subrange(1, n).len() == 0);
            assert(limbs_value(out@) == (v as nat) % limb_base());
            assert(width <= 64);
            lemma2_to64_rest();
            lemma_pow2_adds(width as nat, (64 - width) as nat);
            lemma_pow2_pos(width as nat);
            lemma_pow2_pos((64 - width) as nat);
            vstd::arithmetic::div_mod::lemma_mod_mod(v as int, pow2(width as nat) as int, pow2((64 - width) as nat) as int);
        }
    }
    mask_to_width(&mut out, width);
    out
}

/// Limb `i` of `s`, or 0 past the end.
fn limb_or_zero(s: &[u64], i: usize) -> (r: u64)
    ensures
        i < s@.len() ==> r == s@[i as int],
        i >= s@.len() ==> r == 0,
{
    if i < s.len() { s[i] } else { 0 }
}

/// `limbs` (a pattern of `from_w` bits) re-expressed at `to_w` bits:
/// zero-extended, or sign-extended when `signed` and bit `from_w - 1` is
/// set; truncated when `to_w < from_w`.
pub fn extend(limbs: &[u64], from_w: u32, to_w: u32, signed: bool) -> (out: Vec<u64>)
    ensures
        out@.len() == spec_limb_count(to_w),
        masked_to(out@, to_w),
        forall|i: int| 0 <= i < to_w ==> #[trigger] limb_bit(out@, i) == (if i < from_w {
            limb_bit(limbs@, i)
        } else {
            signed && from_w >= 1 && limb_bit(limbs@, from_w - 1)
        }),
{
    let mut out = zeros(to_w);
    let n = out.len();
    let mut i: usize = 0;
    while i < n
        invariant
            i <= n,
            out@.len() == n,
            forall|j: int| 0 <= j < i ==> #[trigger] out@[j] == (if j < limbs@.len() { limbs@[j] } else { 0u64 }),
        decreases n - i,
    {
        out.set(i, limb_or_zero(limbs, i));
        i += 1;
    }
    proof {
        assert forall|k: int| 0 <= k < (n as int) * 64 implies #[trigger] limb_bit(out@, k) == limb_bit(limbs@, k) by {
            assert(k / 64 < n);
            if k / 64 >= limbs@.len() {
                lemma_zero_limb_bit((k % 64) as u64);
            }
        }
    }
    mask_to_width(&mut out, from_w);
    let negative = signed && from_w >= 1 && bit_at(limbs, from_w - 1);
    if negative && to_w > from_w {
        let mut j: usize = 0;
        while j < n
            invariant
                j <= n,
                out@.len() == n,
                n <= 67108864,
                forall|k: int| 0 <= k < (j as int) * 64 ==> #[trigger] limb_bit(out@, k)
                    == (if k < from_w { limb_bit(limbs@, k) } else { true }),
                forall|k: int| (j as int) * 64 <= k < (n as int) * 64 ==> #[trigger] limb_bit(out@, k)
                    == (k < from_w && limb_bit(limbs@, k)),
            decreases n - j,
        {
            let lo: u128 = (j as u128) * 64;
            let keep: u64 = if (from_w as u128) <= lo {
                0
            } else if (from_w as u128) - lo >= 64 {
                64
            } else {
                ((from_w as u128) - lo) as u64
            };
            let m = low_mask(keep);
            let cur = out[j];
            let nv = cur | !m;
            assert forall|b: u64| b < 64 implies (#[trigger] bit64(nv, b) <==> (bit64(cur, b) || !bit64(m, b))) by {
                assert((((nv >> b) & 1u64) == 1u64) <==> ((((cur >> b) & 1u64) == 1u64) || !(((m >> b) & 1u64) == 1u64))) by (bit_vector)
                    requires nv == cur | !m, b < 64;
            }
            let ghost prev = out@;
            out.set(j, nv);
            proof {
                assert forall|k: int| 0 <= k < ((j + 1) as int) * 64 implies #[trigger] limb_bit(out@, k)
                    == (if k < from_w { limb_bit(limbs@, k) } else { true }) by {
                    if k < (j as int) * 64 {
                        assert(k / 64 < j as int);
                        assert(out@[k / 64] == prev[k / 64]);
                        assert(limb_bit(out@, k) == limb_bit(prev, k));
                    } else {
                        assert(k / 64 == j as int);
                        let b = (k % 64) as u64;
                        assert(bit64(m, b) <==> b < keep);
                        assert((b < keep) <==> (k < from_w));
                        assert(limb_bit(prev, k) == (k < from_w && limb_bit(limbs@, k)));
                        assert(prev[k / 64] == cur);
                    }
                }
                assert forall|k: int| ((j + 1) as int) * 64 <= k < (n as int) * 64 implies #[trigger] limb_bit(out@, k)
                    == (k < from_w && limb_bit(limbs@, k)) by {
                    assert(k / 64 > j as int);
                    assert(out@[k / 64] == prev[k / 64]);
                    assert(limb_bit(out@, k) == limb_bit(prev, k));
                }
            }
            j += 1;
        }
    }
    let ghost before_mask = out@;
    proof {
        assert forall|k: int| 0 <= k < to_w implies #[trigger] limb_bit(before_mask, k) == (if k < from_w {
            limb_bit(limbs@, k)
        } else {
            signed && from_w >= 1 && limb_bit(limbs@, from_w - 1)
        }) by {
            assert(k < (n as int) * 64);
            if !(negative && to_w > from_w) {
                if k >= from_w {
                    assert(!limb_bit(before_mask, k));
                }
            }
        }
    }
    mask_to_width(&mut out, to_w);
    out
}

/// `a + b` at `w` bits (wrapping).
pub fn add_at(a: &[u64], b: &[u64], w: u32) -> (out: Vec<u64>)
    ensures
        out@.len() == spec_limb_count(w),
        masked_to(out@, w),
        pattern_value(out@, w) == (limbs_value(a@) + limbs_value(b@)) % pow2(w as nat),
{
    let mut out = zeros(w);
    let n = out.len();
    let ghost pa = padded(a@, n as nat);
    let ghost pb = padded(b@, n as nat);
    let mut carry: u64 = 0;
    let mut i: usize = 0;
    proof {
        assert(out@.subrange(0, 0) =~= Seq::<u64>::empty());
        assert(pa.subrange(0, 0) =~= Seq::<u64>::empty());
        assert(pb.subrange(0, 0) =~= Seq::<u64>::empty());
        lemma2_to64();
    }
    while i < n
        invariant
            i <= n,
            out@.len() == n,
            carry <= 1,
            pa == padded(a@, n as nat),
            pb == padded(b@, n as nat),
            limbs_value(out@.subrange(0, i as int)) + carry * pow2((64 * i) as nat)
                == limbs_value(pa.subrange(0, i as int)) + limbs_value(pb.subrange(0, i as int)),
        decreases n - i,
    {
        let x = limb_or_zero(a, i);
        let y = limb_or_zero(b, i);
        let s: u128 = (x as u128) + (y as u128) + (carry as u128);
        let ghost prev = out@;
        out.set(i, s as u64);
        let c2 = (s >> 64) as u64;
        assert((s >> 64) <= 1) by (bit_vector)
            requires s <= 0x1_ffff_ffff_ffff_fffdu128 + 2;
        proof {
            let lo = (s as u64);
            assert(s == lo as u128 + (c2 as u128) * 0x1_0000_0000_0000_0000u128) by (bit_vector)
                requires lo == s as u64, c2 == (s >> 64) as u64;
            assert(out@.subrange(0, i as int) =~= prev.subrange(0, i as int));
            lemma_value_push(out@, i as int);
            lemma_value_push(pa, i as int);
            lemma_value_push(pb, i as int);
            lemma_pow2_limb_step(i as nat);
            let p = pow2((64 * i) as nat);
            assert(pow2((64 * (i + 1)) as nat) == limb_base() * p);
            assert(pa[i as int] == x && pb[i as int] == y);
            assert(out@[i as int] == lo);
            assert(c2 * (limb_base() * p) + p * lo == p * (lo + limb_base() * c2)) by (nonlinear_arith);
            assert(p * (x + y + carry) == p * x + p * y + carry * p) by (nonlinear_arith);
        }
        carry = c2;
        i += 1;
    }
    proof {
        assert(out@.subrange(0, n as int) =~= out@);
        assert(pa.subrange(0, n as int) =~= pa);
        assert(pb.subrange(0, n as int) =~= pb);
        lemma_padded_value(a@, n as nat);
        lemma_padded_value(b@, n as nat);
        let m = pow2((64 * n) as nat);
        let pw = pow2(w as nat);
        lemma_pow2_divides(w as nat, n as nat);
        let q = pow2((64 * n - w) as nat);
        lemma_pow2_pos(w as nat);
        lemma_pow2_pos((64 * n - w) as nat);
        lemma_pow2_pos((64 * n) as nat);
        let va = limbs_value(a@) as int;
        let vb = limbs_value(b@) as int;
        vstd::arithmetic::div_mod::lemma_fundamental_div_mod(va, m as int);
        vstd::arithmetic::div_mod::lemma_fundamental_div_mod(vb, m as int);
        let qa = va / (m as int);
        let qb = vb / (m as int);
        let k = (carry as int + qa + qb) * (q as int);
        assert(pw * k == (m as int) * (carry as int + qa + qb)) by (nonlinear_arith)
            requires m == pw * q, k == (carry as int + qa + qb) * (q as int);
        assert((m as int) * (carry as int + qa + qb) == carry * m + (m as int) * qa + (m as int) * qb) by (nonlinear_arith);
        assert(va + vb == limbs_value(out@) + pw * k);
        lemma_mod_shift(va + vb, limbs_value(out@) as int, pw as int, k);
    }
    mask_to_width(&mut out, w);
    out
}

/// `a - b` at `w` bits (wrapping).
pub fn sub_at(a: &[u64], b: &[u64], w: u32) -> (out: Vec<u64>)
    ensures
        out@.len() == spec_limb_count(w),
        masked_to(out@, w),
        pattern_value(out@, w) == (limbs_value(a@) - limbs_value(b@)) % (pow2(w as nat) as int),
{
    let mut out = zeros(w);
    let n = out.len();
    let ghost pa = padded(a@, n as nat);
    let ghost pb = padded(b@, n as nat);
    let mut borrow: u64 = 0;
    let mut i: usize = 0;
    proof {
        assert(out@.subrange(0, 0) =~= Seq::<u64>::empty());
        assert(pa.subrange(0, 0) =~= Seq::<u64>::empty());
        assert(pb.subrange(0, 0) =~= Seq::<u64>::empty());
        lemma2_to64();
    }
    while i < n
        invariant
            i <= n,
            out@.len() == n,
            borrow <= 1,
            pa == padded(a@, n as nat),
            pb == padded(b@, n as nat),
            limbs_value(out@.subrange(0, i as int)) - borrow * pow2((64 * i) as nat)
                == limbs_value(pa.subrange(0, i as int)) - limbs_value(pb.subrange(0, i as int)),
        decreases n - i,
    {
        let x = limb_or_zero(a, i) as u128;
        let y = (limb_or_zero(b, i) as u128) + (borrow as u128);
        let ghost prev = out@;
        let ghost b0 = borrow;
        if x >= y {
            out.set(i, (x - y) as u64);
            borrow = 0;
        } else {
            out.set(i, ((x + 0x1_0000_0000_0000_0000u128) - y) as u64);
            borrow = 1;
        }
        proof {
            assert(out@[i as int] as int == x - y + borrow * limb_base());
            assert(out@.subrange(0, i as int) =~= prev.subrange(0, i as int));
            lemma_value_push(out@, i as int);
            lemma_value_push(pa, i as int);
            lemma_value_push(pb, i as int);
            lemma_pow2_limb_step(i as nat);
            let p = pow2((64 * i) as nat);
            assert(pow2((64 * (i + 1)) as nat) == limb_base() * p);
            assert(pa[i as int] == x && pb[i as int] + b0 == y);
            let o = out@[i as int] as int;
            assert(p * o - borrow * (limb_base() * p) == p * (o - borrow * limb_base())) by (nonlinear_arith);
            assert(p * (x - y) == p * x - p * pb[i as int] - b0 * p) by (nonlinear_arith)
                requires y == pb[i as int] + b0;
        }
        i += 1;
    }
    proof {
        assert(out@.subrange(0, n as int) =~= out@);
        assert(pa.subrange(0, n as int) =~= pa);
        assert(pb.subrange(0, n as int) =~= pb);
        lemma_padded_value(a@, n as nat);
        lemma_padded_value(b@, n as nat);
        let m = pow2((64 * n) as nat);
        let pw = pow2(w as nat);
        lemma_pow2_divides(w as nat, n as nat);
        let q = pow2((64 * n - w) as nat);
        lemma_pow2_pos(w as nat);
        lemma_pow2_pos((64 * n - w) as nat);
        lemma_pow2_pos((64 * n) as nat);
        let va = limbs_value(a@) as int;
        let vb = limbs_value(b@) as int;
        vstd::arithmetic::div_mod::lemma_fundamental_div_mod(va, m as int);
        vstd::arithmetic::div_mod::lemma_fundamental_div_mod(vb, m as int);
        let qa = va / (m as int);
        let qb = vb / (m as int);
        let k = (qa - qb - borrow as int) * (q as int);
        assert(pw * k == (m as int) * (qa - qb - borrow as int)) by (nonlinear_arith)
            requires m == pw * q, k == (qa - qb - borrow as int) * (q as int);
        assert((m as int) * (qa - qb - borrow as int) == (m as int) * qa - (m as int) * qb - borrow * m) by (nonlinear_arith);
        assert(va - vb == limbs_value(out@) + pw * k);
        lemma_mod_shift(va - vb, limbs_value(out@) as int, pw as int, k);
    }
    mask_to_width(&mut out, w);
    out
}

/// Replacing limb `p` changes the number by the difference at weight
/// `2^(64 p)`.
proof fn lemma_value_update(s: Seq<u64>, p: int, v: u64)
    requires
        0 <= p < s.len(),
    ensures
        limbs_value(s.update(p, v)) == limbs_value(s) + pow2((64 * p) as nat) * (v - s[p]),
{
    let t = s.update(p, v);
    lemma_value_split(s, p);
    lemma_value_split(t, p);
    assert(t.subrange(0, p) =~= s.subrange(0, p));
    let rs = s.subrange(p, s.len() as int);
    let rt = t.subrange(p, t.len() as int);
    assert(rs.drop_first() =~= rt.drop_first());
    assert(limbs_value(rs) == s[p] + limb_base() * limbs_value(rs.drop_first()));
    assert(limbs_value(rt) == v + limb_base() * limbs_value(rs.drop_first()));
    let pp = pow2((64 * p) as nat);
    assert(pp * limbs_value(rt) - pp * limbs_value(rs) == pp * (v - s[p])) by (nonlinear_arith)
        requires limbs_value(rt) - limbs_value(rs) == v - s[p];
}

/// `a * b` at `w` bits (wrapping), schoolbook.
#[verifier::rlimit(60)]
pub fn mul_at(a: &[u64], b: &[u64], w: u32) -> (out: Vec<u64>)
    ensures
        out@.len() == spec_limb_count(w),
        masked_to(out@, w),
        pattern_value(out@, w) == (limbs_value(a@) * limbs_value(b@)) % pow2(w as nat),
{
    let mut out = zeros(w);
    let n = out.len();
    let ghost pa = padded(a@, n as nat);
    let ghost pb = padded(b@, n as nat);
    let ghost m = pow2((64 * n) as nat);
    let ghost vbn = limbs_value(pb) as int;
    let ghost mut kk: int = 0;
    let mut i: usize = 0;
    proof {
        lemma_value_zero(out@);
        assert(pa.subrange(0, 0) =~= Seq::<u64>::empty());
        assert(limbs_value(pa.subrange(0, 0)) == 0);
        assert(0 * vbn == 0);
        assert(m * 0 == 0);
        lemma2_to64();
    }
    while i < n
        invariant
            i <= n,
            out@.len() == n,
            pa == padded(a@, n as nat),
            pb == padded(b@, n as nat),
            m == pow2((64 * n) as nat),
            vbn == limbs_value(pb) as int,
            limbs_value(out@) == limbs_value(pa.subrange(0, i as int)) * vbn - m * kk,
        decreases n - i,
    {
        let ai = limb_or_zero(a, i) as u128;
        let ghost v0 = limbs_value(out@) as int;
        let ghost pi = pow2((64 * i) as nat);
        proof {
            lemma_value_push(pa, i as int);
            assert(pa[i as int] == ai);
        }
        if ai != 0 {
            let mut carry: u128 = 0;
            let mut j: usize = 0;
            proof {
                assert(pb.subrange(0, 0) =~= Seq::<u64>::empty());
                assert(limbs_value(pb.subrange(0, 0)) == 0);
                lemma2_to64();
                assert(pow2((64 * (i + 0)) as nat) == pi);
                assert(ai * pi * 0 == 0) by (nonlinear_arith);
                assert(0 * pi == 0);
            }
            while i + j < n
                invariant
                    i < n,
                    i + j <= n,
                    out@.len() == n,
                    ai < 0x1_0000_0000_0000_0000u128,
                    carry < 0x1_0000_0000_0000_0000u128,
                    pb == padded(b@, n as nat),
                    pi == pow2((64 * i) as nat),
                    limbs_value(out@) + carry * pow2((64 * (i + j)) as nat)
                        == v0 + ai * pi * limbs_value(pb.subrange(0, j as int)),
                decreases n - (i + j),
            {
                let bj = limb_or_zero(b, j) as u128;
                let cur = out[i + j] as u128;
                assert(ai * bj <= 0xffff_ffff_ffff_fffe_0000_0000_0000_0001u128) by (nonlinear_arith)
                    requires ai < 0x1_0000_0000_0000_0000u128, bj < 0x1_0000_0000_0000_0000u128;
                let t: u128 = ai * bj + cur + carry;
                let ghost prev = out@;
                out.set(i + j, t as u64);
                let c2 = t >> 64;
                let ghost lo = t as u64;
                assert((t >> 64) < 0x1_0000_0000_0000_0000u128 && t == lo as u128 + c2 * 0x1_0000_0000_0000_0000u128) by (bit_vector)
                    requires lo == t as u64, c2 == t >> 64;
                proof {
                    assert(out@ == prev.update(i + j, lo));
                    lemma_value_update(prev, (i + j) as int, lo);
                    lemma_value_push(pb, j as int);
                    assert(pb[j as int] == bj);
                    let pj = pow2((64 * j) as nat);
                    let p = pow2((64 * (i + j)) as nat);
                    lemma_pow2_adds((64 * i) as nat, (64 * j) as nat);
                    assert(p == pi * pj);
                    lemma_pow2_limb_step((i + j) as nat);
                    assert(pow2((64 * (i + j + 1)) as nat) == limb_base() * p);
                    let vj = limbs_value(pb.subrange(0, j as int));
                    assert(c2 * (limb_base() * p) + p * (lo - cur) == p * (ai * bj + carry)) by (nonlinear_arith)
                        requires t == lo + c2 * limb_base(), t == ai * bj + cur + carry;
                    assert(ai * pi * (vj + pj * bj) == ai * pi * vj + p * (ai * bj)) by (nonlinear_arith)
                        requires p == pi * pj;
                    assert(p * (ai * bj + carry) == p * (ai * bj) + carry * p) by (nonlinear_arith);
                }
                carry = c2;
                j += 1;
            }
            proof {
                let jn = (n - i) as int;
                assert(j == jn);
                lemma_value_split(pb, jn);
                assert(pb.subrange(0, jn) == pb.subrange(0, j as int));
                let rest = limbs_value(pb.subrange(jn, n as int)) as int;
                lemma_pow2_adds((64 * i) as nat, (64 * jn) as nat);
                assert(pow2((64 * (i + j)) as nat) == m);
                let vj = limbs_value(pb.subrange(0, jn)) as int;
                assert(vbn == vj + pow2((64 * jn) as nat) * rest);
                assert(ai * pi * vbn == ai * pi * vj + m * (ai * rest)) by (nonlinear_arith)
                    requires vbn == vj + pow2((64 * jn) as nat) * rest, m == pi * pow2((64 * jn) as nat);
                let va_i = limbs_value(pa.subrange(0, i as int)) as int;
                assert((va_i + pi * ai) * vbn == va_i * vbn + ai * pi * vbn) by (nonlinear_arith);
                let kk0 = kk;
                assert(m * (kk0 + carry + ai * rest) == m * kk0 + carry * m + m * (ai * rest)) by (nonlinear_arith);
                assert(limbs_value(out@) + carry * m == v0 + ai * pi * vj);
                kk = kk + carry + ai * rest;
                assert(limbs_value(out@) == limbs_value(pa.subrange(0, i + 1)) * vbn - m * kk);
            }
        } else {
            proof {
                assert(pi * ai == 0);
                assert(limbs_value(pa.subrange(0, i + 1)) == limbs_value(pa.subrange(0, i as int)));
            }
        }
        i += 1;
    }
    proof {
        assert(pa.subrange(0, n as int) =~= pa);
        lemma_padded_value(a@, n as nat);
        lemma_padded_value(b@, n as nat);
        let pw = pow2(w as nat);
        lemma_pow2_divides(w as nat, n as nat);
        let q = pow2((64 * n - w) as nat);
        lemma_pow2_pos(w as nat);
        lemma_pow2_pos((64 * n - w) as nat);
        lemma_pow2_pos((64 * n) as nat);
        let va = limbs_value(a@) as int;
        let vb = limbs_value(b@) as int;
        vstd::arithmetic::div_mod::lemma_fundamental_div_mod(va, m as int);
        vstd::arithmetic::div_mod::lemma_fundamental_div_mod(vb, m as int);
        let qa = va / (m as int);
        let qb = vb / (m as int);
        let ra = va % (m as int);
        let rb = vb % (m as int);
        assert(va * vb == ra * rb + (m as int) * (qa * rb + ra * qb + (m as int) * qa * qb)) by (nonlinear_arith)
            requires va == (m as int) * qa + ra, vb == (m as int) * qb + rb;
        let k2 = (kk + qa * rb + ra * qb + (m as int) * qa * qb) * (q as int);
        assert(pw * k2 == (m as int) * (kk + qa * rb + ra * qb + (m as int) * qa * qb)) by (nonlinear_arith)
            requires m == pw * q, k2 == (kk + qa * rb + ra * qb + (m as int) * qa * qb) * (q as int);
        assert(va * vb == limbs_value(out@) + pw * k2) by (nonlinear_arith)
            requires
                va * vb == ra * rb + (m as int) * (qa * rb + ra * qb + (m as int) * qa * qb),
                limbs_value(out@) == ra * rb - m * kk,
                pw * k2 == (m as int) * (kk + qa * rb + ra * qb + (m as int) * qa * qb);
        lemma_mod_shift(va * vb, limbs_value(out@) as int, pw as int, k2);
    }
    mask_to_width(&mut out, w);
    out
}

/// OR-ing in a limb shifted left by `bs` sets bit `b` from bit `b - bs`.
proof fn lemma_or_shl(c: u64, x: u64, bs: u64)
    requires
        bs < 64,
    ensures
        forall|b: u64| b < 64 ==> #[trigger] bit64(c | (x << bs), b)
            == (bit64(c, b) || (b >= bs && bit64(x, (b - bs) as u64))),
{
    assert forall|b: u64| b < 64 implies #[trigger] bit64(c | (x << bs), b)
        == (bit64(c, b) || (b >= bs && bit64(x, (b - bs) as u64))) by {
        assert((b >= bs ==> (((((c | (x << bs)) >> b) & 1u64) == 1u64) == ((((c >> b) & 1u64) == 1u64) || (((x >> ((b - bs) as u64)) & 1u64) == 1u64))))
            && (b < bs ==> (((((c | (x << bs)) >> b) & 1u64) == 1u64) == (((c >> b) & 1u64) == 1u64)))) by (bit_vector)
            requires bs < 64, b < 64;
    }
}

/// OR-ing in a limb's top `bs` bits sets bit `b < bs` from bit
/// `b + 64 - bs`.
proof fn lemma_or_shr_top(c: u64, x: u64, bs: u64)
    requires
        0 < bs < 64,
    ensures
        forall|b: u64| b < 64 ==> #[trigger] bit64(c | (x >> ((64 - bs) as u64)), b)
            == (bit64(c, b) || (b < bs && bit64(x, (b + 64 - bs) as u64))),
{
    assert forall|b: u64| b < 64 implies #[trigger] bit64(c | (x >> ((64 - bs) as u64)), b)
        == (bit64(c, b) || (b < bs && bit64(x, (b + 64 - bs) as u64))) by {
        assert((b < bs ==> (((((c | (x >> ((64 - bs) as u64))) >> b) & 1u64) == 1u64) == ((((c >> b) & 1u64) == 1u64) || (((x >> ((b + 64 - bs) as u64)) & 1u64) == 1u64))))
            && (b >= bs ==> (((((c | (x >> ((64 - bs) as u64))) >> b) & 1u64) == 1u64) == (((c >> b) & 1u64) == 1u64)))) by (bit_vector)
            requires 0 < bs < 64, b < 64;
    }
}

/// Bit `k` of `a << amount` counting the first `i` limbs of `a` only.
pub open spec fn shl_bit(a: Seq<u64>, amount: int, i: int, k: int) -> bool {
    k >= amount && k - amount < 64 * i && limb_bit(a, k - amount)
}

/// `a << amount` at `w` bits.
#[verifier::rlimit(80)]
pub fn shl(a: &[u64], amount: u32, w: u32) -> (out: Vec<u64>)
    ensures
        out@.len() == spec_limb_count(w),
        masked_to(out@, w),
        forall|k: int| 0 <= k < w ==> #[trigger] limb_bit(out@, k) == (k >= amount && limb_bit(a@, k - amount)),
{
    let mut out = zeros(w);
    let n = out.len();
    let ls = (amount / 64) as usize;
    let bs = (amount % 64) as u64;
    let mut i: usize = 0;
    proof {
        assert forall|k: int| 0 <= k < (n as int) * 64 implies #[trigger] limb_bit(out@, k) == shl_bit(a@, amount as int, 0, k) by {
            lemma_zero_limb_bit((k % 64) as u64);
        }
    }
    while i < a.len()
        invariant
            i <= a@.len(),
            out@.len() == n,
            n <= 67108864,
            bs < 64,
            ls as int * 64 + bs == amount,
            forall|k: int| 0 <= k < (n as int) * 64 ==> #[trigger] limb_bit(out@, k) == shl_bit(a@, amount as int, i as int, k),
        decreases a@.len() - i,
    {
        let ghost prev = out@;
        let x = a[i];
        if ls <= n && i < n - ls {
            let dst = i + ls;
            let cur = out[dst];
            proof { lemma_or_shl(cur, x, bs); }
            out.set(dst, cur | (x << bs));
            let ghost mid = out@;
            if bs > 0 && dst + 1 < n {
                let nxt = out[dst + 1];
                proof { lemma_or_shr_top(nxt, x, bs); }
                out.set(dst + 1, nxt | (x >> ((64 - bs) as u64)));
            }
            proof {
                assert forall|k: int| 0 <= k < (n as int) * 64 implies #[trigger] limb_bit(out@, k) == shl_bit(a@, amount as int, i + 1, k) by {
                    let l = k / 64;
                    let b = (k % 64) as u64;
                    assert(limb_bit(prev, k) == shl_bit(a@, amount as int, i as int, k));
                    if l == dst as int {
                        assert(k - amount == 64 * (i as int) + b - bs);
                        if b >= bs {
                            assert((k - amount) / 64 == i as int && (k - amount) % 64 == b - bs);
                        }
                        if bs > 0 && dst + 1 < n {
                            assert(out@[l] == mid[l]);
                        }
                    } else if l == dst as int + 1 && bs > 0 && dst + 1 < n {
                        assert(k - amount == 64 * (i as int) + 64 + b - bs);
                        if b < bs {
                            assert((k - amount) / 64 == i as int && (k - amount) % 64 == b + 64 - bs);
                        }
                    } else {
                        assert(out@[l] == prev[l]);
                        assert(limb_bit(out@, k) == limb_bit(prev, k));
                        if k >= amount && 64 * (i as int) <= k - amount && k - amount < 64 * (i as int) + 64 {
                            let r = k - amount - 64 * (i as int);
                            assert(k == 64 * (dst as int) + bs + r);
                            assert(false);
                        }
                    }
                }
            }
        } else {
            proof {
                assert forall|k: int| 0 <= k < (n as int) * 64 implies #[trigger] limb_bit(out@, k) == shl_bit(a@, amount as int, i + 1, k) by {
                    assert(limb_bit(prev, k) == shl_bit(a@, amount as int, i as int, k));
                }
            }
        }
        i += 1;
    }
    let ghost before_mask = out@;
    proof {
        assert forall|k: int| 0 <= k < w implies #[trigger] limb_bit(before_mask, k) == (k >= amount && limb_bit(a@, k - amount)) by {
            assert(k < (n as int) * 64);
            assert(limb_bit(before_mask, k) == shl_bit(a@, amount as int, a@.len() as int, k));
        }
    }
    mask_to_width(&mut out, w);
    out
}

/// Logical `a >> amount`; the length is unchanged.
/// One limb of a right shift by `bs` bits: bit `b` comes from bit `b + bs`
/// of `x`, or of the next limb `y` past the top.
proof fn lemma_shr_limb(x: u64, y: u64, bs: u64, v: u64)
    requires
        bs < 64,
        v == (if bs == 0 { x } else { (x >> bs) | (y << ((64 - bs) as u64)) }),
    ensures
        forall|b: u64| b < 64 ==> #[trigger] bit64(v, b)
            == (if b + bs < 64 { bit64(x, (b + bs) as u64) } else { bit64(y, (b + bs - 64) as u64) }),
{
    assert forall|b: u64| b < 64 implies #[trigger] bit64(v, b)
        == (if b + bs < 64 { bit64(x, (b + bs) as u64) } else { bit64(y, (b + bs - 64) as u64) }) by {
        if bs > 0 {
            assert((b + bs < 64 ==> ((((x >> bs) | (y << ((64 - bs) as u64))) >> b) & 1u64) == ((x >> ((b + bs) as u64)) & 1u64))
                && (b + bs >= 64 ==> ((((x >> bs) | (y << ((64 - bs) as u64))) >> b) & 1u64) == ((y >> ((b + bs - 64) as u64)) & 1u64))) by (bit_vector)
                requires 0 < bs < 64, b < 64;
        }
    }
}

/// Pushing the next limb of a right shift keeps every bit below it equal
/// to the shifted source bit.
proof fn lemma_shr_push(prev: Seq<u64>, v: u64, a: Seq<u64>, i: int, ls: int, bs: u64, amount: int, x: u64, y: u64)
    requires
        prev.len() == i,
        0 <= i < a.len(),
        0 <= ls,
        bs < 64,
        ls * 64 + bs == amount,
        forall|k: int| 0 <= k < i * 64 ==> #[trigger] limb_bit(prev, k) == limb_bit(a, k + amount),
        x == (if i + ls < a.len() { a[i + ls] } else { 0u64 }),
        y == (if bs > 0 && i + ls + 1 < a.len() { a[i + ls + 1] } else { 0u64 }),
        forall|b: u64| b < 64 ==> #[trigger] bit64(v, b)
            == (if b + bs < 64 { bit64(x, (b + bs) as u64) } else { bit64(y, (b + bs - 64) as u64) }),
    ensures
        forall|k: int| 0 <= k < (i + 1) * 64 ==> #[trigger] limb_bit(prev.push(v), k) == limb_bit(a, k + amount),
{
    let out = prev.push(v);
    assert forall|k: int| 0 <= k < (i + 1) * 64 implies #[trigger] limb_bit(out, k) == limb_bit(a, k + amount) by {
        if k < i * 64 {
            assert(out[k / 64] == prev[k / 64]);
            assert(limb_bit(out, k) == limb_bit(prev, k));
        } else {
            assert(k / 64 == i);
            let b = (k % 64) as u64;
            let src = i + ls;
            assert(out[i] == v);
            assert(k + amount == 64 * src + b + bs);
            if b + bs < 64 {
                assert((k + amount) / 64 == src && (k + amount) % 64 == b + bs);
                if !(src < a.len()) {
                    lemma_zero_limb_bit((b + bs) as u64);
                }
            } else {
                assert((k + amount) / 64 == src + 1 && (k + amount) % 64 == b + bs - 64);
                if !(bs > 0 && src + 1 < a.len()) {
                    lemma_zero_limb_bit((b + bs - 64) as u64);
                }
            }
        }
    }
}

#[verifier::rlimit(100)]
pub fn shr(a: &[u64], amount: u32) -> (out: Vec<u64>)
    ensures
        out@.len() == a@.len(),
        forall|k: int| 0 <= k ==> #[trigger] limb_bit(out@, k) == limb_bit(a@, k + amount),
{
    let n = a.len();
    let ls = (amount / 64) as usize;
    let bs = (amount % 64) as u64;
    let mut out: Vec<u64> = Vec::new();
    let mut i: usize = 0;
    while i < n
        invariant
            i <= n,
            n == a@.len(),
            out@.len() == i,
            bs < 64,
            ls as int * 64 + bs == amount,
            forall|k: int| 0 <= k < (i as int) * 64 ==> #[trigger] limb_bit(out@, k) == limb_bit(a@, k + amount),
        decreases n - i,
    {
        let mut v: u64 = 0;
        let ghost x: u64 = 0;
        let ghost y: u64 = 0;
        if ls < n && i < n - ls {
            let src = i + ls;
            proof { x = a@[src as int]; }
            v = a[src] >> bs;
            if bs > 0 && src + 1 < n {
                proof { y = a@[src as int + 1]; }
                v = v | (a[src + 1] << ((64 - bs) as u64));
            }
        }
        proof {
            assert(((x >> 0u64) == x) && (bs < 64 ==> (x >> bs) | (0u64 << ((64 - bs) as u64)) == x >> bs)
                && (bs < 64 ==> (0u64 >> bs) | (0u64 << ((64 - bs) as u64)) == 0u64) && (0u64 >> 0u64) == 0u64) by (bit_vector);
            if !(ls < n && i < n - ls) {
                assert(v == 0u64 && x == 0u64);
            }
            lemma_shr_limb(x, y, bs, v);
        }
        let ghost prev = out@;
        out.push(v);
        proof {
            lemma_shr_push(prev, v, a@, i as int, ls as int, bs, amount as int, x, y);
            assert(out@ == prev.push(v));
        }
        i += 1;
    }
    proof {
        assert forall|k: int| 0 <= k implies #[trigger] limb_bit(out@, k) == limb_bit(a@, k + amount) by {
            if k >= (n as int) * 64 {
                assert(k / 64 >= n);
                assert((k + amount) / 64 >= n);
            }
        }
    }
    out
}

/// Which bitwise operation `bitwise` applies.
#[derive(Clone, Copy, Debug, PartialEq, Eq, Structural)]
pub enum BitOp {
    And,
    Or,
    Xor,
}

/// What `op` makes of two bits.
pub open spec fn bit_op(op: BitOp, x: bool, y: bool) -> bool {
    match op {
        BitOp::And => x && y,
        BitOp::Or => x || y,
        BitOp::Xor => x != y,
    }
}

fn bitwise(a: &[u64], b: &[u64], op: BitOp) -> (out: Vec<u64>)
    ensures
        out@.len() == if a@.len() >= b@.len() { a@.len() } else { b@.len() },
        forall|k: int| 0 <= k ==> #[trigger] limb_bit(out@, k) == bit_op(op, limb_bit(a@, k), limb_bit(b@, k)),
{
    let n = if a.len() >= b.len() { a.len() } else { b.len() };
    let mut out: Vec<u64> = Vec::new();
    let mut i: usize = 0;
    while i < n
        invariant
            i <= n,
            n == if a@.len() >= b@.len() { a@.len() } else { b@.len() },
            out@.len() == i,
            forall|k: int| 0 <= k < (i as int) * 64 ==> #[trigger] limb_bit(out@, k) == bit_op(op, limb_bit(a@, k), limb_bit(b@, k)),
        decreases n - i,
    {
        let x = limb_or_zero(a, i);
        let y = limb_or_zero(b, i);
        let v = match op {
            BitOp::And => x & y,
            BitOp::Or => x | y,
            BitOp::Xor => x ^ y,
        };
        proof {
            assert forall|bb: u64| bb < 64 implies #[trigger] bit64(v, bb) == bit_op(op, bit64(x, bb), bit64(y, bb)) by {
                assert(((((x & y) >> bb) & 1u64 == 1u64) == ((((x >> bb) & 1u64) == 1u64) && (((y >> bb) & 1u64) == 1u64)))
                    && ((((x | y) >> bb) & 1u64 == 1u64) == ((((x >> bb) & 1u64) == 1u64) || (((y >> bb) & 1u64) == 1u64)))
                    && ((((x ^ y) >> bb) & 1u64 == 1u64) == ((((x >> bb) & 1u64) == 1u64) != (((y >> bb) & 1u64) == 1u64)))) by (bit_vector)
                    requires bb < 64;
            }
        }
        let ghost prev = out@;
        out.push(v);
        proof {
            assert forall|k: int| 0 <= k < ((i + 1) as int) * 64 implies #[trigger] limb_bit(out@, k) == bit_op(op, limb_bit(a@, k), limb_bit(b@, k)) by {
                if k < (i as int) * 64 {
                    assert(out@[k / 64] == prev[k / 64]);
                    assert(limb_bit(out@, k) == limb_bit(prev, k));
                } else {
                    assert(k / 64 == i as int);
                    let bb = (k % 64) as u64;
                    if k / 64 >= a@.len() { lemma_zero_limb_bit(bb); }
                    if k / 64 >= b@.len() { lemma_zero_limb_bit(bb); }
                }
            }
        }
        i += 1;
    }
    proof {
        assert forall|k: int| 0 <= k implies #[trigger] limb_bit(out@, k) == bit_op(op, limb_bit(a@, k), limb_bit(b@, k)) by {
            if k >= (n as int) * 64 {
                assert(k / 64 >= n);
            }
        }
    }
    out
}

/// Limb-wise `a & b`.
pub fn bitand(a: &[u64], b: &[u64]) -> (out: Vec<u64>)
    ensures
        out@.len() == if a@.len() >= b@.len() { a@.len() } else { b@.len() },
        forall|k: int| 0 <= k ==> #[trigger] limb_bit(out@, k) == bit_op(BitOp::And, limb_bit(a@, k), limb_bit(b@, k)),
{
    bitwise(a, b, BitOp::And)
}

/// Limb-wise `a | b`.
pub fn bitor(a: &[u64], b: &[u64]) -> (out: Vec<u64>)
    ensures
        out@.len() == if a@.len() >= b@.len() { a@.len() } else { b@.len() },
        forall|k: int| 0 <= k ==> #[trigger] limb_bit(out@, k) == bit_op(BitOp::Or, limb_bit(a@, k), limb_bit(b@, k)),
{
    bitwise(a, b, BitOp::Or)
}

/// Limb-wise `a ^ b`.
pub fn bitxor(a: &[u64], b: &[u64]) -> (out: Vec<u64>)
    ensures
        out@.len() == if a@.len() >= b@.len() { a@.len() } else { b@.len() },
        forall|k: int| 0 <= k ==> #[trigger] limb_bit(out@, k) == bit_op(BitOp::Xor, limb_bit(a@, k), limb_bit(b@, k)),
{
    bitwise(a, b, BitOp::Xor)
}

/// A limb with no bit set at or above position `k` shifts down by `k` to 0.
proof fn lemma_no_bits_shift(z: u64, k: u64)
    requires
        k < 64,
        forall|b: u64| b < 64 ==> !#[trigger] bit64(z, b),
    ensures
        z >> k == 0,
    decreases 64 - k,
{
    assert(!bit64(z, k));
    assert(((z >> k) & 1u64) <= 1u64
        && (k == 63 ==> (z >> 63u64) == ((z >> 63u64) & 1u64))
        && (k < 63 ==> (z >> k) == (((z >> ((k + 1) as u64)) << 1u64) | ((z >> k) & 1u64)))
        && (0u64 << 1u64) | 0u64 == 0u64) by (bit_vector)
        requires k < 64;
    if k < 63 {
        lemma_no_bits_shift(z, (k + 1) as u64);
    }
}

/// Two limbs that agree on every bit are equal.
proof fn lemma_limb_eq_bits(x: u64, y: u64)
    requires
        forall|b: u64| b < 64 ==> #[trigger] bit64(x, b) == bit64(y, b),
    ensures
        x == y,
{
    let z = x ^ y;
    assert forall|b: u64| b < 64 implies !#[trigger] bit64(z, b) by {
        assert(bit64(x, b) == bit64(y, b));
        assert((((x >> b) & 1u64) == 1u64) == (((y >> b) & 1u64) == 1u64) ==> (((x ^ y) >> b) & 1u64) != 1u64) by (bit_vector)
            requires b < 64;
    }
    lemma_no_bits_shift(z, 0);
    assert((x ^ y) >> 0u64 == 0u64 ==> x == y) by (bit_vector);
}

/// Two masked copies that differ in some limb differ in some bit below
/// `w`, and so do the patterns they copy.
proof fn lemma_limbs_differ(ma: Seq<u64>, mb: Seq<u64>, a: Seq<u64>, b: Seq<u64>, w: u32, i: usize)
    requires
        i < ma.len(),
        ma.len() == mb.len(),
        ma[i as int] != mb[i as int],
        masked_to(ma, w),
        masked_to(mb, w),
        forall|k: int| 0 <= k < w ==> #[trigger] limb_bit(ma, k) == limb_bit(a, k),
        forall|k: int| 0 <= k < w ==> #[trigger] limb_bit(mb, k) == limb_bit(b, k),
    ensures
        exists|k: int| 0 <= k < w && #[trigger] limb_bit(a, k) != limb_bit(b, k),
{
    let x = ma[i as int];
    let y = mb[i as int];
    assert_by_contradiction!(exists|bb: u64| bb < 64 && #[trigger] bit64(x, bb) != bit64(y, bb), {
        lemma_limb_eq_bits(x, y);
    });
    let bb = choose|bb: u64| bb < 64 && #[trigger] bit64(x, bb) != bit64(y, bb);
    let p = (i as int) * 64 + bb as int;
    assert(p / 64 == i as int && p % 64 == bb as int);
    assert(limb_bit(ma, p) != limb_bit(mb, p));
    if p >= w {
        assert(!limb_bit(ma, p));
        assert(!limb_bit(mb, p));
    }
    assert(limb_bit(a, p) != limb_bit(b, p));
}

/// Masked copies equal limb for limb agree on every bit below `w`, and so
/// do the patterns they copy.
proof fn lemma_limbs_agree(ma: Seq<u64>, mb: Seq<u64>, a: Seq<u64>, b: Seq<u64>, w: u32)
    requires
        ma.len() == mb.len(),
        forall|q: int| 0 <= q < ma.len() ==> #[trigger] ma[q] == mb[q],
        forall|k: int| 0 <= k < w ==> #[trigger] limb_bit(ma, k) == limb_bit(a, k),
        forall|k: int| 0 <= k < w ==> #[trigger] limb_bit(mb, k) == limb_bit(b, k),
    ensures
        forall|k: int| 0 <= k < w ==> #[trigger] limb_bit(a, k) == limb_bit(b, k),
{
    assert(ma =~= mb);
    assert forall|k: int| 0 <= k < w implies #[trigger] limb_bit(a, k) == limb_bit(b, k) by {
        assert(limb_bit(ma, k) == limb_bit(mb, k));
    }
}

/// Compare two `w`-bit two's-complement patterns as signed values.
#[verifier::loop_isolation(false)]
pub fn cmp_signed(a: &[u64], b: &[u64], w: u32) -> (c: Cmp)
    ensures
        w >= 1 && limb_bit(a@, w - 1) && !limb_bit(b@, w - 1) ==> c == Cmp::Less,
        w >= 1 && !limb_bit(a@, w - 1) && limb_bit(b@, w - 1) ==> c == Cmp::Greater,
        c == Cmp::Equal <==> forall|i: int| 0 <= i < w ==> #[trigger] limb_bit(a@, i) == limb_bit(b@, i),
        w >= 1 && limb_bit(a@, w - 1) == limb_bit(b@, w - 1) ==> (c == Cmp::Less <==> width_sum(a@, w) < width_sum(b@, w)),
        w >= 1 && limb_bit(a@, w - 1) == limb_bit(b@, w - 1) ==> (c == Cmp::Greater <==> width_sum(a@, w) > width_sum(b@, w)),
{
    if w >= 1 {
        let sa = bit_at(a, w - 1);
        let sb = bit_at(b, w - 1);
        if sa && !sb {
            return Cmp::Less;
        }
        if !sa && sb {
            return Cmp::Greater;
        }
    }
    let mut ma = extend(a, w, w, false);
    let mut mb = extend(b, w, w, false);
    let n = ma.len();
    proof {
        lemma_masked_pair(ma@, mb@, a@, b@, w);
    }
    let mut i: usize = n;
    while i > 0
        invariant
            i <= n,
            n == ma@.len(),
            n == mb@.len(),
            forall|q: int| i <= q < n ==> #[trigger] ma@[q] == mb@[q],
        decreases i,
    {
        i -= 1;
        if ma[i] != mb[i] {
            proof { lemma_limbs_differ(ma@, mb@, a@, b@, w, i); }
            if ma[i] < mb[i] {
                proof { lemma_first_diff_at(ma@, mb@, i); }
                return Cmp::Less;
            }
            proof { lemma_first_diff_at(mb@, ma@, i); }
            return Cmp::Greater;
        }
    }
    proof {
        lemma_limbs_agree(ma@, mb@, a@, b@, w);
        lemma_width_sum_agree(a@, b@, w);
    }
    Cmp::Equal
}

/// Whether every limb is zero.
fn all_zero(v: &Vec<u64>) -> (r: bool)
    ensures
        r == (forall|i: int| 0 <= i < v@.len() ==> v@[i] == 0),
{
    let mut i: usize = 0;
    while i < v.len()
        invariant
            i <= v@.len(),
            forall|j: int| 0 <= j < i ==> v@[j] == 0,
        decreases v@.len() - i,
    {
        if v[i] != 0 {
            return false;
        }
        i += 1;
    }
    true
}

/// One limb's worth: 2^64.
pub open spec fn limb_base() -> nat {
    0x1_0000_0000_0000_0000
}

/// The number that little-endian limbs spell.
pub open spec fn limbs_value(s: Seq<u64>) -> nat
    decreases s.len(),
{
    if s.len() == 0 { 0 } else { s[0] as nat + limb_base() * limbs_value(s.drop_first()) }
}

/// The value a `width`-bit pattern spells: its limbs' number, cut to
/// `width` bits.
pub open spec fn pattern_value(s: Seq<u64>, width: u32) -> nat {
    limbs_value(s) % pow2(width as nat)
}

/// A `width`-bit pattern read per `signed`: as two's complement when
/// `signed` (the top bit then weighs `-2^(width-1)`), else unsigned.
pub open spec fn read_signed(u: nat, width: u32, signed: bool) -> int {
    if signed && width >= 1 && u >= pow2((width - 1) as nat) { u - pow2(width as nat) } else { u as int }
}

/// `2^(64 (k + 1)) = 2^64 * 2^(64 k)`.
proof fn lemma_pow2_limb_step(k: nat)
    ensures
        pow2(64 * (k + 1)) == limb_base() * pow2(64 * k),
{
    lemma_pow2_adds(64, 64 * k);
    lemma2_to64();
    assert(64 * (k + 1) == 64 + 64 * k);
}

/// A single limb spells itself.
proof fn lemma_value_one(x: u64)
    ensures
        limbs_value(seq![x]) == x,
{
    assert(seq![x].drop_first() =~= Seq::<u64>::empty());
    assert(limbs_value(seq![x].drop_first()) == 0);
}

/// Limbs all zero spell 0.
pub proof fn lemma_value_zero(s: Seq<u64>)
    requires
        forall|i: int| 0 <= i < s.len() ==> s[i] == 0,
    ensures
        limbs_value(s) == 0,
    decreases s.len(),
{
    if s.len() > 0 {
        lemma_value_zero(s.drop_first());
    }
}

/// `k` limbs spell less than `2^(64 k)`.
proof fn lemma_value_bound(s: Seq<u64>)
    ensures
        limbs_value(s) < pow2((64 * s.len()) as nat),
    decreases s.len(),
{
    if s.len() == 0 {
        lemma2_to64();
    } else {
        let t = s.drop_first();
        lemma_value_bound(t);
        lemma_pow2_limb_step(t.len());
        assert(64 * s.len() == 64 * (t.len() + 1));
        let p = pow2((64 * t.len()) as nat);
        let v = limbs_value(t);
        let x = s[0] as nat;
        assert(x + limb_base() * v < limb_base() * p) by (nonlinear_arith)
            requires
                v < p,
                x < limb_base(),
        ;
    }
}

/// The number splits at any limb boundary `k` into the low `k` limbs and
/// the rest scaled by `2^(64 k)`.
proof fn lemma_value_split(s: Seq<u64>, k: int)
    requires
        0 <= k <= s.len(),
    ensures
        limbs_value(s) == limbs_value(s.subrange(0, k))
            + pow2((64 * k) as nat) * limbs_value(s.subrange(k, s.len() as int)),
    decreases k,
{
    if k == 0 {
        lemma2_to64();
        assert(s.subrange(0, 0) =~= Seq::<u64>::empty());
        assert(limbs_value(s.subrange(0, 0)) == 0);
        assert(s.subrange(0, s.len() as int) =~= s);
        assert(pow2((64 * k) as nat) == 1);
        assert(1 * limbs_value(s) == limbs_value(s));
    } else {
        let t = s.drop_first();
        lemma_value_split(t, k - 1);
        assert(s.subrange(0, k).drop_first() =~= t.subrange(0, k - 1));
        assert(t.subrange(k - 1, t.len() as int) =~= s.subrange(k, s.len() as int));
        lemma_pow2_limb_step((k - 1) as nat);
        assert(64 * k == 64 * ((k - 1) + 1));
        let x = limbs_value(t.subrange(0, k - 1));
        let p = pow2((64 * (k - 1)) as nat);
        let y = limbs_value(s.subrange(k, s.len() as int));
        assert(limbs_value(s) == s[0] as nat + limb_base() * limbs_value(t));
        assert(s.subrange(0, k).len() > 0 && s.subrange(0, k)[0] == s[0]);
        assert(limbs_value(s.subrange(0, k)) == s[0] as nat + limb_base() * x);
        assert(limbs_value(t) == x + p * y);
        assert(limb_base() * (x + p * y) == limb_base() * x + (limb_base() * p) * y) by (nonlinear_arith);
        assert(pow2((64 * k) as nat) == limb_base() * p);
        assert(limbs_value(s) == limbs_value(s.subrange(0, k)) + (limb_base() * p) * y);
    }
}

/// Two limbs that agree on their low `w` bits agree modulo `2^w`.
proof fn lemma_low_bits_mod(x: u64, y: u64, w: nat)
    requires
        w <= 64,
        forall|b: u64| b < w ==> #[trigger] bit64(x, b) == bit64(y, b),
    ensures
        (x as nat) % pow2(w) == (y as nat) % pow2(w),
{
    if w == 64 {
        lemma_limb_eq_bits(x, y);
    } else {
        let k = w as u64;
        vstd::bits::lemma_u64_pow2_no_overflow(w);
        vstd::bits::lemma_u64_shl_is_mul(1u64, k);
        vstd::bits::lemma_u64_low_bits_mask_is_mod(x, w);
        vstd::bits::lemma_u64_low_bits_mask_is_mod(y, w);
        let m: u64 = ((1u64 << k) - 1) as u64;
        assert(m == vstd::bits::low_bits_mask(w) as u64);
        let xm = x & m;
        let ym = y & m;
        assert forall|b: u64| b < 64 implies #[trigger] bit64(xm, b) == bit64(ym, b) by {
            assert(((((x & m) >> b) & 1u64 == 1u64) == ((((x >> b) & 1u64) == 1u64) && b < k))
                && ((((y & m) >> b) & 1u64 == 1u64) == ((((y >> b) & 1u64) == 1u64) && b < k))) by (bit_vector)
                requires m == ((1u64 << k) - 1) as u64, k < 64, b < 64;
            if b < k {
                assert(bit64(x, b) == bit64(y, b));
            }
        }
        lemma_limb_eq_bits(xm, ym);
    }
}

/// Limb vectors of one length that agree on their low `w` bits spell
/// numbers that agree modulo `2^w`.
proof fn lemma_value_mod_bits(s: Seq<u64>, t: Seq<u64>, w: nat)
    requires
        s.len() == t.len(),
        forall|k: int| 0 <= k < w ==> #[trigger] limb_bit(s, k) == limb_bit(t, k),
    ensures
        limbs_value(s) % pow2(w) == limbs_value(t) % pow2(w),
    decreases s.len(),
{
    lemma_pow2_pos(w);
    if s.len() == 0 {
    } else {
        let x = s[0];
        let y = t[0];
        if w <= 64 {
            assert forall|b: u64| b < w implies #[trigger] bit64(x, b) == bit64(y, b) by {
                assert(limb_bit(s, b as int) == limb_bit(t, b as int));
                assert((b as int) / 64 == 0 && (b as int) % 64 == b as int);
            }
            lemma_low_bits_mod(x, y, w);
            lemma_pow2_adds(w, (64 - w) as nat);
            lemma_pow2_pos((64 - w) as nat);
            lemma2_to64_rest();
            let p = pow2(w) as int;
            let q = pow2((64 - w) as nat) as int;
            assert(limb_base() == p * q);
            vstd::arithmetic::div_mod::lemma_mod_breakdown(limbs_value(s) as int, p, q);
            vstd::arithmetic::div_mod::lemma_mod_breakdown(limbs_value(t) as int, p, q);
            // value = x + B * rest, and B is a multiple of 2^w
            vstd::arithmetic::div_mod::lemma_mod_multiples_vanish(q * limbs_value(s.drop_first()) as int, x as int, p);
            vstd::arithmetic::div_mod::lemma_mod_multiples_vanish(q * limbs_value(t.drop_first()) as int, y as int, p);
            assert(limbs_value(s) == x + p * (q * limbs_value(s.drop_first()))) by (nonlinear_arith)
                requires limbs_value(s) == x + limb_base() * limbs_value(s.drop_first()), limb_base() == p * q;
            assert(limbs_value(t) == y + p * (q * limbs_value(t.drop_first()))) by (nonlinear_arith)
                requires limbs_value(t) == y + limb_base() * limbs_value(t.drop_first()), limb_base() == p * q;
        } else {
            let rs = s.drop_first();
            let rt = t.drop_first();
            assert forall|k: int| 0 <= k < (w - 64) as nat implies #[trigger] limb_bit(rs, k) == limb_bit(rt, k) by {
                assert(limb_bit(s, k + 64) == limb_bit(t, k + 64));
                assert((k + 64) / 64 == k / 64 + 1 && (k + 64) % 64 == k % 64);
            }
            lemma_value_mod_bits(rs, rt, (w - 64) as nat);
            assert forall|b: u64| b < 64 implies #[trigger] bit64(x, b) == bit64(y, b) by {
                assert(limb_bit(s, b as int) == limb_bit(t, b as int));
                assert((b as int) / 64 == 0 && (b as int) % 64 == b as int);
            }
            lemma_limb_eq_bits(x, y);
            lemma2_to64_rest();
            lemma_pow2_adds(64, (w - 64) as nat);
            let pr = pow2((w - 64) as nat) as int;
            lemma_pow2_pos((w - 64) as nat);
            vstd::arithmetic::div_mod::lemma_mod_breakdown(limbs_value(s) as int, limb_base() as int, pr);
            vstd::arithmetic::div_mod::lemma_mod_breakdown(limbs_value(t) as int, limb_base() as int, pr);
            vstd::arithmetic::div_mod::lemma_fundamental_div_mod_converse(limbs_value(s) as int, limb_base() as int, limbs_value(rs) as int, x as int);
            vstd::arithmetic::div_mod::lemma_fundamental_div_mod_converse(limbs_value(t) as int, limb_base() as int, limbs_value(rt) as int, y as int);
            assert(limbs_value(s) == limb_base() * limbs_value(rs) + x);
            assert(limbs_value(t) == limb_base() * limbs_value(rt) + y);
        }
    }
}

/// `a`'s first `n` limbs, zeros past its end.
pub open spec fn padded(a: Seq<u64>, n: nat) -> Seq<u64> {
    Seq::new(n, |j: int| if j < a.len() { a[j] } else { 0u64 })
}

/// `x == y + p * k` makes `x` and `y` agree modulo `p`.
proof fn lemma_mod_shift(x: int, y: int, p: int, k: int)
    requires
        0 < p,
        x == y + p * k,
    ensures
        x % p == y % p,
{
    vstd::arithmetic::div_mod::lemma_mod_multiples_vanish(k, y, p);
    assert(p * k + y == x);
}

/// `n` limbs of `a` (zero-padded) spell `a`'s number modulo `2^(64 n)`.
proof fn lemma_padded_value(a: Seq<u64>, n: nat)
    ensures
        limbs_value(padded(a, n)) == limbs_value(a) % pow2(64 * n),
{
    let v = padded(a, n);
    let nn = n as int;
    lemma_pow2_pos((64 * nn) as nat);
    if a.len() >= nn {
        assert(v =~= a.subrange(0, nn));
        lemma_value_split(a, nn);
        lemma_value_bound(v);
        vstd::arithmetic::div_mod::lemma_fundamental_div_mod_converse(
            limbs_value(a) as int,
            pow2((64 * nn) as nat) as int,
            limbs_value(a.subrange(nn, a.len() as int)) as int,
            limbs_value(v) as int,
        );
    } else {
        let l = a.len() as int;
        lemma_value_split(v, l);
        assert(v.subrange(0, l) =~= a);
        lemma_value_zero(v.subrange(l, nn));
        lemma_value_bound(a);
        if l < nn {
            lemma_pow2_strictly_increases((64 * l) as nat, (64 * nn) as nat);
        }
        vstd::arithmetic::div_mod::lemma_small_mod(limbs_value(a), pow2((64 * nn) as nat));
    }
}

/// Appending limb `i` adds it at weight `2^(64 i)`.
proof fn lemma_value_push(x: Seq<u64>, i: int)
    requires
        0 <= i < x.len(),
    ensures
        limbs_value(x.subrange(0, i + 1)) == limbs_value(x.subrange(0, i)) + pow2((64 * i) as nat) * x[i],
{
    let y = x.subrange(0, i + 1);
    lemma_value_split(y, i);
    assert(y.subrange(0, i) =~= x.subrange(0, i));
    assert(y.subrange(i, i + 1) =~= seq![x[i]]);
    lemma_value_one(x[i]);
}

/// A multiple of `2^(64 n)` is one of `2^w` when `w` is at most `64 n`.
proof fn lemma_pow2_divides(w: nat, n: nat)
    requires
        w <= 64 * n,
    ensures
        pow2(64 * n) == pow2(w) * pow2((64 * n - w) as nat),
{
    lemma_pow2_adds(w, (64 * n - w) as nat);
}

/// The first `limb_count(width)` limbs of `limbs` (zeros past its end),
/// with every bit at or above `width` cleared: the pattern's value at
/// `width` bits.
fn masked_copy(limbs: &[u64], width: u32) -> (v: Vec<u64>)
    ensures
        v@.len() == spec_limb_count(width),
        limbs_value(v@) == pattern_value(limbs@, width),
{
    let n = limb_count(width);
    let mut v: Vec<u64> = Vec::new();
    let mut i: usize = 0;
    while i < n
        invariant
            i <= n,
            v@.len() == i,
            forall|j: int| 0 <= j < i ==> #[trigger] v@[j] == (if j < limbs@.len() { limbs@[j] } else { 0u64 }),
        decreases n - i,
    {
        v.push(limb_or_zero(limbs, i));
        i += 1;
    }
    let ghost nn = n as int;
    proof {
        lemma_pow2_pos((64 * nn) as nat);
        if limbs@.len() >= nn {
            assert(v@ =~= limbs@.subrange(0, nn));
            lemma_value_split(limbs@, nn);
            lemma_value_bound(v@);
            vstd::arithmetic::div_mod::lemma_fundamental_div_mod_converse(
                limbs_value(limbs@) as int,
                pow2((64 * nn) as nat) as int,
                limbs_value(limbs@.subrange(nn, limbs@.len() as int)) as int,
                limbs_value(v@) as int,
            );
        } else {
            let l = limbs@.len() as int;
            lemma_value_split(v@, l);
            assert(v@.subrange(0, l) =~= limbs@);
            lemma_value_zero(v@.subrange(l, nn));
            lemma_value_bound(limbs@);
            if l < nn {
                lemma_pow2_strictly_increases((64 * l) as nat, (64 * nn) as nat);
            }
            vstd::arithmetic::div_mod::lemma_small_mod(limbs_value(limbs@), pow2((64 * nn) as nat));
        }
        assert(limbs_value(v@) == limbs_value(limbs@) % pow2((64 * nn) as nat));
    }
    let top = n - 1;
    let k: u64 = (width as u64) - 64 * (top as u64);
    let ghost before = v@;
    let ghost low = limbs_value(before.subrange(0, top as int));
    let ghost pt = pow2((64 * top) as nat);
    proof {
        assert(k <= 64);
        lemma_value_split(before, top as int);
        assert(before.subrange(top as int, nn) =~= seq![before[top as int]]);
        lemma_value_one(before[top as int]);
        lemma_value_bound(before.subrange(0, top as int));
        lemma_pow2_pos((64 * top) as nat);
        lemma_pow2_adds((64 * top) as nat, k as nat);
        assert(64 * top + k == width);
        assert(before.subrange(0, top as int).len() == top);
        assert(low < pt);
        assert(limbs_value(before) == low + pt * before[top as int]);
        assert(pt * before[top as int] == before[top as int] * pt) by (nonlinear_arith);
        vstd::arithmetic::div_mod::lemma_fundamental_div_mod_converse(
            limbs_value(before) as int, pt as int, before[top as int] as int, low as int);
        lemma_pow2_pos(k as nat);
        vstd::arithmetic::div_mod::lemma_mod_breakdown(limbs_value(before) as int, pt as int, pow2(k as nat) as int);
    }
    if k < 64 {
        proof {
            vstd::bits::lemma_u64_pow2_no_overflow(k as nat);
            vstd::bits::lemma_u64_shl_is_mul(1u64, k);
        }
        let m: u64 = (1u64 << k) - 1;
        let x = v[top];
        proof {
            assert(m == vstd::bits::low_bits_mask(k as nat) as u64);
            vstd::bits::lemma_u64_low_bits_mask_is_mod(x, k as nat);
        }
        v.set(top, x & m);
        proof {
            assert(v@.subrange(0, top as int) =~= before.subrange(0, top as int));
            lemma_value_split(v@, top as int);
            assert(v@.subrange(top as int, nn) =~= seq![v@[top as int]]);
            lemma_value_one(v@[top as int]);
        }
    } else {
        proof {
            lemma2_to64_rest();
            vstd::arithmetic::div_mod::lemma_small_mod(before[top as int] as nat, pow2(64));
        }
    }
    proof {
        let w = width as nat;
        lemma_pow2_pos(w);
        lemma_pow2_adds(w, (64 * nn - w) as nat);
        assert(w + (64 * nn - w) == 64 * nn);
        lemma_pow2_pos((64 * nn - w) as nat);
        vstd::arithmetic::div_mod::lemma_mod_mod(limbs_value(limbs@) as int, pow2(w) as int, pow2((64 * nn - w) as nat) as int);
    }
    v
}

/// Divide `v` in place by 10, returning the remainder.
fn div10(v: &mut Vec<u64>) -> (r: u64)
    ensures
        final(v)@.len() == old(v)@.len(),
        r < 10,
        limbs_value(old(v)@) == 10 * limbs_value(final(v)@) + r,
{
    let ghost orig = v@;
    let ghost len = v@.len() as int;
    let mut rem: u128 = 0;
    let mut i: usize = v.len();
    proof {
        assert(orig.subrange(len, len) =~= Seq::<u64>::empty());
    }
    while i > 0
        invariant
            i <= v@.len(),
            v@.len() == len,
            len == orig.len(),
            rem < 10,
            forall|j: int| 0 <= j < i ==> v@[j] == orig[j],
            limbs_value(orig.subrange(i as int, len)) == 10 * limbs_value(v@.subrange(i as int, len)) + rem,
        decreases i,
    {
        i -= 1;
        let limb: u64 = v[i];
        let cur: u128 = (rem << 64) | (limb as u128);
        assert(cur == rem * 0x1_0000_0000_0000_0000u128 + (limb as u128)) by (bit_vector)
            requires rem < 10, cur == (rem << 64) | (limb as u128);
        assert(cur < 10 * 0x1_0000_0000_0000_0000u128) by (bit_vector)
            requires rem < 10, cur == (rem << 64) | (limb as u128);
        let q = cur / 10;
        assert(q < 0x1_0000_0000_0000_0000u128) by (nonlinear_arith)
            requires q == cur / 10, cur < 10 * 0x1_0000_0000_0000_0000u128;
        let ghost prev = v@;
        let ghost prev_rem = rem;
        v.set(i, q as u64);
        rem = cur % 10;
        proof {
            let so = orig.subrange(i as int, len);
            let sn = v@.subrange(i as int, len);
            assert(so.drop_first() =~= orig.subrange(i + 1, len));
            assert(sn.drop_first() =~= v@.subrange(i + 1, len));
            assert(v@.subrange(i + 1, len) =~= prev.subrange(i + 1, len));
            assert(so[0] == limb);
            assert(sn[0] == q as u64);
            let hi_o = limbs_value(orig.subrange(i + 1, len));
            let hi_n = limbs_value(v@.subrange(i + 1, len));
            assert(hi_o == 10 * hi_n + prev_rem);
            assert(cur == 10 * q + rem);
            assert(limb as nat + limb_base() * hi_o == 10 * ((q as nat) + limb_base() * hi_n) + rem) by (nonlinear_arith)
                requires
                    hi_o == 10 * hi_n + prev_rem,
                    cur == prev_rem * limb_base() + limb as nat,
                    cur == 10 * q + rem,
            ;
        }
    }
    proof {
        assert(orig.subrange(0, len) =~= orig);
        assert(v@.subrange(0, len) =~= v@);
    }
    rem as u64
}

/// Two's complement negation of `v` at its full `64 * len` bits.
fn negate(v: &Vec<u64>) -> (out: Vec<u64>)
    ensures
        out@.len() == v@.len(),
        limbs_value(v@) > 0 ==> limbs_value(out@) == pow2((64 * v@.len()) as nat) - limbs_value(v@),
{
    let n = v.len();
    let mut out: Vec<u64> = Vec::new();
    let mut borrow: u64 = 0;
    let mut i: usize = 0;
    proof {
        lemma2_to64();
        assert(out@ =~= v@.subrange(0, 0));
    }
    while i < n
        invariant
            i <= n,
            n == v@.len(),
            out@.len() == i,
            borrow <= 1,
            limbs_value(out@) + limbs_value(v@.subrange(0, i as int)) == borrow * pow2((64 * i) as nat),
            borrow == 0 ==> limbs_value(v@.subrange(0, i as int)) == 0,
        decreases n - i,
    {
        let x = v[i] as u128;
        let y = x + (borrow as u128);
        let limb: u64 = if y == 0 { 0 } else { (0x1_0000_0000_0000_0000u128 - y) as u64 };
        let ghost old_out = out@;
        let ghost old_borrow = borrow;
        out.push(limb);
        borrow = if y == 0 { 0 } else { 1 };
        proof {
            lemma_value_split(out@, i as int);
            assert(out@.subrange(0, i as int) =~= old_out);
            assert(out@.subrange(i as int, i + 1) =~= seq![limb]);
            lemma_value_one(limb);
            let vi = v@.subrange(0, i + 1);
            lemma_value_split(vi, i as int);
            assert(vi.subrange(0, i as int) =~= v@.subrange(0, i as int));
            assert(vi.subrange(i as int, i + 1) =~= seq![v@[i as int]]);
            lemma_value_one(v@[i as int]);
            lemma_pow2_limb_step(i as nat);
            assert(limb as int + x == borrow * limb_base() - old_borrow);
            let p = pow2((64 * i) as nat);
            assert(limbs_value(out@) + limbs_value(vi) == borrow * pow2((64 * (i + 1)) as nat)) by (nonlinear_arith)
                requires
                    limbs_value(out@) == limbs_value(old_out) + p * limb,
                    limbs_value(vi) == limbs_value(v@.subrange(0, i as int)) + p * x,
                    limbs_value(old_out) + limbs_value(v@.subrange(0, i as int)) == old_borrow * p,
                    limb as int + x == borrow * limb_base() - old_borrow,
                    pow2((64 * (i + 1)) as nat) == limb_base() * p,
            ;
            if borrow == 0 {
                assert(old_borrow == 0 && x == 0);
            }
        }
        i += 1;
    }
    proof {
        assert(v@.subrange(0, n as int) =~= v@);
        lemma_pow2_pos((64 * n) as nat);
    }
    out
}

/// The digits `ds` (least significant first) as text, most significant
/// first.
pub open spec fn digits_text(ds: Seq<u64>) -> Seq<char>
    decreases ds.len(),
{
    if ds.len() == 0 { Seq::empty() } else { digits_text(ds.drop_first()) + seq![digit_char(ds[0] as nat)] }
}

/// A digit added at the top of `ds` comes first in its text.
proof fn lemma_digits_text_push(ds: Seq<u64>, d: u64)
    ensures
        digits_text(ds.push(d)) == seq![digit_char(d as nat)] + digits_text(ds),
    decreases ds.len(),
{
    if ds.len() == 0 {
        assert(ds.push(d).drop_first() =~= Seq::<u64>::empty());
        assert(digits_text(ds.push(d).drop_first()) == Seq::<char>::empty());
        assert(digits_text(ds.push(d)) =~= seq![digit_char(d as nat)] + digits_text(ds));
    } else {
        assert(ds.push(d).drop_first() =~= ds.drop_first().push(d));
        lemma_digits_text_push(ds.drop_first(), d);
        assert(digits_text(ds.push(d)) =~= seq![digit_char(d as nat)] + digits_text(ds));
    }
}

/// An integer in decimal: a `-` before the digits when negative.
pub open spec fn int_decimal(v: int) -> Seq<char> {
    if v < 0 { seq!['-'] + decimal((-v) as nat) } else { decimal(v as nat) }
}

/// Render a `width`-bit pattern (interpreted per `signed`) as decimal.
pub fn to_decimal_string(limbs: &[u64], width: u32, signed: bool) -> (r: String)
    ensures
        r@ == int_decimal(read_signed(pattern_value(limbs@, width), width, signed)),
{
    let mut v = masked_copy(limbs, width);
    let ghost u = limbs_value(v@);
    let ghost n = v@.len() as int;
    let negative = signed && width >= 1 && bit_at(&v, width - 1);
    proof {
        lemma_value_bound(v@);
        lemma_pow2_pos(width as nat);
        vstd::arithmetic::div_mod::lemma_mod_pos_bound(limbs_value(limbs@) as int, pow2(width as nat) as int);
        if width >= 1 {
            lemma_top_bit(v@, width);
        }
    }
    let ghost mag: nat = if negative { (pow2(width as nat) - u) as nat } else { u };
    if negative {
        let full = negate(&v);
        proof {
            lemma_pow2_pos((width - 1) as nat);
        }
        v = masked_copy(full.as_slice(), width);
        proof {
            let w = width as nat;
            let m = pow2(w) as int;
            lemma_pow2_adds(w, (64 * n - w) as nat);
            assert(w + (64 * n - w) == 64 * n);
            vstd::arithmetic::div_mod::lemma_mod_multiples_vanish(pow2((64 * n - w) as nat) as int, -(u as int), m);
            vstd::arithmetic::div_mod::lemma_fundamental_div_mod_converse(-(u as int), m, -1, m - u);
        }
    }
    let ghost big = mag;
    let mut digits: Vec<u64> = Vec::new();
    loop
        invariant_except_break
            decimal(big) == decimal(limbs_value(v@)) + digits_text(digits@),
        invariant
            forall|j: int| 0 <= j < digits@.len() ==> #[trigger] digits@[j] < 10,
        ensures
            decimal(big) == digits_text(digits@),
            forall|j: int| 0 <= j < digits@.len() ==> #[trigger] digits@[j] < 10,
        decreases limbs_value(v@),
    {
        let ghost before = limbs_value(v@);
        let d = div10(&mut v);
        let ghost old_digits = digits@;
        digits.push(d);
        proof {
            lemma_digits_text_push(old_digits, d);
        }
        if all_zero(&v) {
            proof {
                lemma_value_zero(v@);
                assert(before == d);
                assert(decimal(before) =~= seq![digit_char(d as nat)]);
            }
            break;
        }
        proof {
            if limbs_value(v@) == 0 {
                let j = choose|j: int| 0 <= j < v@.len() && v@[j] != 0;
                lemma_value_nonzero(v@, j);
            }
            assert(before / 10 == limbs_value(v@) && before % 10 == d);
            assert(decimal(before) =~= decimal(limbs_value(v@)).push(digit_char(d as nat)));
        }
    }
    let mut s = String::new();
    if negative {
        proof {
            reveal_strlit("-");
        }
        s.append("-");
    }
    let ghost prefix = s@;
    let mut k: usize = digits.len();
    proof {
        assert(digits@.subrange(k as int, digits@.len() as int) =~= Seq::<u64>::empty());
    }
    while k > 0
        invariant
            k <= digits@.len(),
            s@ == prefix + digits_text(digits@.subrange(k as int, digits@.len() as int)),
            forall|j: int| 0 <= j < digits@.len() ==> #[trigger] digits@[j] < 10,
        decreases k,
    {
        k -= 1;
        s.append(digit_str(digits[k] as u128));
        proof {
            let sub = digits@.subrange(k as int, digits@.len() as int);
            assert(sub.drop_first() =~= digits@.subrange(k + 1, digits@.len() as int));
        }
    }
    proof {
        assert(digits@.subrange(0, digits@.len() as int) =~= digits@);
        if negative {
            assert(read_signed(pattern_value(limbs@, width), width, signed) == u - pow2(width as nat));
        }
    }
    s
}

/// Limbs with one nonzero limb spell a positive number.
proof fn lemma_value_nonzero(s: Seq<u64>, j: int)
    requires
        0 <= j < s.len(),
        s[j] != 0,
    ensures
        limbs_value(s) > 0,
    decreases j,
{
    if j > 0 {
        lemma_value_nonzero(s.drop_first(), j - 1);
        assert(limb_base() * limbs_value(s.drop_first()) > 0) by (nonlinear_arith)
            requires limbs_value(s.drop_first()) > 0;
    }
}

/// In a `width`-bit pattern of `limb_count(width)` limbs spelling less
/// than `2^width`, the top bit is set exactly when the value reaches
/// `2^(width - 1)`.
proof fn lemma_top_bit(v: Seq<u64>, width: u32)
    requires
        width >= 1,
        v.len() == spec_limb_count(width),
        limbs_value(v) < pow2(width as nat),
    ensures
        limb_bit(v, width - 1) <==> limbs_value(v) >= pow2((width - 1) as nat),
{
    let n = v.len() as int;
    let top = n - 1;
    let k = width - 64 * top;
    assert(1 <= k <= 64);
    assert((width - 1) / 64 == top);
    assert((width - 1) % 64 == k - 1);
    let x = v[top];
    lemma_value_split(v, top);
    assert(v.subrange(top, n) =~= seq![x]);
    lemma_value_one(x);
    let low = limbs_value(v.subrange(0, top));
    lemma_value_bound(v.subrange(0, top));
    let p = pow2((64 * top) as nat);
    lemma_pow2_adds((64 * top) as nat, k as nat);
    lemma_pow2_adds((64 * top) as nat, (k - 1) as nat);
    lemma_pow2_unfold(k as nat);
    lemma_pow2_pos(p as nat);
    lemma_pow2_pos((64 * top) as nat);
    let h = pow2((k - 1) as nat);
    lemma_pow2_pos((k - 1) as nat);
    assert(x < 2 * h) by (nonlinear_arith)
        requires
            low + p * x < p * (2 * h),
            0 <= low,
            p > 0,
    ;
    vstd::bits::lemma_u64_pow2_no_overflow((k - 1) as nat);
    vstd::bits::lemma_u64_shr_is_div(x, (k - 1) as u64);
    let q = x >> ((k - 1) as u64);
    assert(q as nat == x as nat / h);
    assert(q <= 1) by (nonlinear_arith)
        requires q as nat == x as nat / h, x < 2 * h, h > 0;
    assert((q & 1u64 == 1u64) <==> q == 1u64) by (bit_vector)
        requires q <= 1u64;
    assert(q == 1 <==> x >= h) by (nonlinear_arith)
        requires q as nat == x as nat / h, x < 2 * h, h > 0, x >= 0;
    assert(low + p * x >= p * h <==> x >= h) by (nonlinear_arith)
        requires 0 <= low < p, p > 0, x >= 0;
}


/// The number the low `n` bits of `s` spell, bit by bit.
pub open spec fn bit_sum(s: Seq<u64>, n: nat) -> nat
    decreases n,
{
    if n == 0 {
        0
    } else {
        bit_sum(s, (n - 1) as nat) + if limb_bit(s, n - 1) { pow2((n - 1) as nat) } else { 0 }
    }
}

/// Bit `b` of a limb is the `b`-th binary digit of its number.
proof fn lemma_bit64_digit(x: u64, b: u64)
    requires
        b < 64,
    ensures
        bit64(x, b) == ((x as nat / pow2(b as nat)) % 2 == 1),
{
    vstd::bits::lemma_u64_shr_is_div(x, b);
    let y = x >> b;
    assert((y & 1u64 == 1u64) == (y % 2 == 1)) by (bit_vector);
}

/// Bit `k` of a limb vector is the `k`-th binary digit of its number.
pub proof fn lemma_limb_bit_digit(s: Seq<u64>, k: nat)
    ensures
        limb_bit(s, k as int) == ((limbs_value(s) / pow2(k)) % 2 == 1),
    decreases s.len(),
{
    lemma_pow2_pos(k);
    if s.len() == 0 {
        assert(limbs_value(s) == 0);
        assert(0nat / pow2(k) == 0) by (nonlinear_arith)
            requires pow2(k) > 0;
    } else {
        let x = s[0];
        let t = s.drop_first();
        let rest = limbs_value(t);
        lemma2_to64_rest();
        assert(limbs_value(s) == x as nat + limb_base() * rest);
        if k < 64 {
            lemma_bit64_digit(x, k as u64);
            assert((k as int) / 64 == 0 && (k as int) % 64 == k as int);
            lemma_pow2_adds(k, (64 - k) as nat);
            lemma_pow2_pos((64 - k) as nat);
            let p = pow2(k) as int;
            let q = pow2((64 - k) as nat) as int;
            assert(limb_base() == p * q);
            lemma_pow2_adds(1, (63 - k) as nat);
            lemma2_to64();
            let h = pow2((63 - k) as nat) as int;
            assert(q == 2 * h);
            assert(limbs_value(s) == x as int + (q * rest) * p) by (nonlinear_arith)
                requires limbs_value(s) == x as nat + limb_base() * rest, limb_base() == p * q;
            vstd::arithmetic::div_mod::lemma_hoist_over_denominator(x as int, q * rest, p as nat);
            assert(limbs_value(s) / pow2(k) == (x as int) / p + q * rest);
            assert(q * rest == 2 * (h * rest)) by (nonlinear_arith)
                requires q == 2 * h;
            vstd::arithmetic::div_mod::lemma_mod_multiples_vanish(h * rest, (x as int) / p, 2);
        } else {
            lemma_limb_bit_digit(t, (k - 64) as nat);
            assert((k as int) / 64 == ((k - 64) as int) / 64 + 1 && (k as int) % 64 == ((k - 64) as int) % 64);
            assert(limb_bit(s, k as int) == limb_bit(t, (k - 64) as int));
            lemma_pow2_adds(64, (k - 64) as nat);
            lemma_pow2_pos((k - 64) as nat);
            vstd::arithmetic::div_mod::lemma_div_denominator(limbs_value(s) as int, limb_base() as int, pow2((k - 64) as nat) as int);
            vstd::arithmetic::div_mod::lemma_fundamental_div_mod_converse(limbs_value(s) as int, limb_base() as int, rest as int, x as int);
        }
    }
}

/// A limb vector's number modulo `2^n` is the sum of its low `n` bits.
pub proof fn lemma_value_bit_sum(s: Seq<u64>, n: nat)
    ensures
        limbs_value(s) % pow2(n) == bit_sum(s, n),
    decreases n,
{
    if n == 0 {
        lemma2_to64();
    } else {
        let m = (n - 1) as nat;
        lemma_value_bit_sum(s, m);
        lemma_limb_bit_digit(s, m);
        lemma_pow2_pos(m);
        lemma_pow2_adds(m, 1);
        lemma2_to64();
        vstd::arithmetic::div_mod::lemma_mod_breakdown(limbs_value(s) as int, pow2(m) as int, 2);
        let d = (limbs_value(s) / pow2(m)) % 2;
        assert(d == 0 || d == 1);
    }
}


/// Patterns that agree on their low `n` bits spell the same number there.
pub proof fn lemma_bit_sum_agree(s: Seq<u64>, t: Seq<u64>, n: nat)
    requires
        forall|i: int| 0 <= i < n ==> #[trigger] limb_bit(s, i) == limb_bit(t, i),
    ensures
        bit_sum(s, n) == bit_sum(t, n),
    decreases n,
{
    if n > 0 {
        lemma_bit_sum_agree(s, t, (n - 1) as nat);
        assert(limb_bit(s, n - 1) == limb_bit(t, n - 1));
    }
}

/// Zero bits from `w` up add nothing.
proof fn lemma_bit_sum_zero_tail(s: Seq<u64>, w: nat, m: nat)
    requires
        m >= w,
        forall|i: int| i >= w ==> !#[trigger] limb_bit(s, i),
    ensures
        bit_sum(s, m) == bit_sum(s, w),
    decreases m,
{
    if m > w {
        lemma_bit_sum_zero_tail(s, w, (m - 1) as nat);
        assert(!limb_bit(s, m - 1));
    }
}

/// A pattern masked to `w` bits, in `limb_count(w)` limbs, spells the
/// sum of its low `w` bits.
proof fn lemma_masked_value(s: Seq<u64>, w: u32)
    requires
        s.len() == spec_limb_count(w),
        masked_to(s, w),
    ensures
        limbs_value(s) == bit_sum(s, w as nat),
{
    let n = s.len();
    lemma_value_bound(s);
    lemma_value_bit_sum(s, 64 * n);
    vstd::arithmetic::div_mod::lemma_small_mod(limbs_value(s), pow2(64 * n));
    lemma_bit_sum_zero_tail(s, w as nat, 64 * n);
}

/// Limbs equal above `i` and smaller at `i` spell a smaller number.
proof fn lemma_first_diff(a: Seq<u64>, b: Seq<u64>, i: int)
    requires
        a.len() == b.len(),
        0 <= i < a.len(),
        a[i] < b[i],
        forall|q: int| i < q < a.len() ==> #[trigger] a[q] == b[q],
    ensures
        limbs_value(a) < limbs_value(b),
{
    let n = a.len() as int;
    lemma_value_split(a, i + 1);
    lemma_value_split(b, i + 1);
    assert(a.subrange(i + 1, n) =~= b.subrange(i + 1, n));
    lemma_value_push(a, i);
    lemma_value_push(b, i);
    lemma_value_bound(a.subrange(0, i));
    let p = pow2((64 * i) as nat) as int;
    let la = limbs_value(a.subrange(0, i)) as int;
    let lb = limbs_value(b.subrange(0, i)) as int;
    assert(a.subrange(0, i).len() == i);
    assert(la + p * a[i] < lb + p * b[i]) by (nonlinear_arith)
        requires 0 <= la < p, 0 <= lb, a[i] < b[i], p > 0;
}


/// The number the low `w` bits of `s` spell.
pub open spec fn width_sum(s: Seq<u64>, w: u32) -> nat {
    bit_sum(s, w as nat)
}

/// Masked copies of `a` and `b` at `w` bits spell their low-bit sums.
proof fn lemma_masked_pair(ma: Seq<u64>, mb: Seq<u64>, a: Seq<u64>, b: Seq<u64>, w: u32)
    requires
        ma.len() == spec_limb_count(w),
        mb.len() == spec_limb_count(w),
        masked_to(ma, w),
        masked_to(mb, w),
        forall|i: int| 0 <= i < w ==> #[trigger] limb_bit(ma, i) == limb_bit(a, i),
        forall|i: int| 0 <= i < w ==> #[trigger] limb_bit(mb, i) == limb_bit(b, i),
    ensures
        limbs_value(ma) == width_sum(a, w),
        limbs_value(mb) == width_sum(b, w),
{
    lemma_masked_value(ma, w);
    lemma_masked_value(mb, w);
    lemma_bit_sum_agree(ma, a, w as nat);
    lemma_bit_sum_agree(mb, b, w as nat);
}

/// `lemma_first_diff` at a `usize` position.
proof fn lemma_first_diff_at(a: Seq<u64>, b: Seq<u64>, i: usize)
    requires
        a.len() == b.len(),
        i < a.len(),
        a[i as int] < b[i as int],
        forall|q: int| i < q < a.len() ==> #[trigger] a[q] == b[q],
    ensures
        limbs_value(a) < limbs_value(b),
{
    lemma_first_diff(a, b, i as int);
}

/// Patterns agreeing below `w` spell the same low-bit sum.
proof fn lemma_width_sum_agree(a: Seq<u64>, b: Seq<u64>, w: u32)
    requires
        forall|i: int| 0 <= i < w ==> #[trigger] limb_bit(a, i) == limb_bit(b, i),
    ensures
        width_sum(a, w) == width_sum(b, w),
{
    lemma_bit_sum_agree(a, b, w as nat);
}

} // verus!
