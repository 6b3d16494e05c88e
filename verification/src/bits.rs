//! A value's raw bit pattern: `Small` for width <= 128 (a plain `u128`),
//! `Wide` for anything larger (little-endian `u64` limbs, exactly
//! `limb_count(width)` of them). `Bits` never carries its own width —
//! callers pass it alongside.

use vstd::prelude::*;
use vstd::arithmetic::power2::pow2;

use crate::wide::{self, bit64, limb_bit, masked_to, spec_limb_count};

verus! {

/// Bit `b` of a `u128`.
pub open spec fn bit128(x: u128, b: u128) -> bool {
    ((x >> b) & 1u128) == 1u128
}

/// Bit `i` of a pattern (bits past a `Small`'s 128 read as 0).
pub open spec fn bits_bit(bits: Bits, i: int) -> bool {
    match bits {
        Bits::Small(x) => 0 <= i < 128 && bit128(x, i as u128),
        Bits::Wide(v) => limb_bit(v@, i),
    }
}

/// A `u128` with no bit set at or above `k` shifts down by `k` to 0.
proof fn lemma_no_bits_shift128(z: u128, k: u128)
    requires
        k < 128,
        forall|b: u128| b < 128 ==> !#[trigger] bit128(z, b),
    ensures
        z >> k == 0,
    decreases 128 - k,
{
    assert(!bit128(z, k));
    assert(((z >> k) & 1u128) <= 1u128
        && (k == 127 ==> (z >> 127u128) == ((z >> 127u128) & 1u128))
        && (k < 127 ==> (z >> k) == (((z >> ((k + 1) as u128)) << 1u128) | ((z >> k) & 1u128)))
        && (0u128 << 1u128) | 0u128 == 0u128) by (bit_vector)
        requires k < 128;
    if k < 127 {
        lemma_no_bits_shift128(z, (k + 1) as u128);
    }
}

/// Two `u128`s that agree on every bit are equal.
pub proof fn lemma_u128_eq_bits(x: u128, y: u128)
    requires
        forall|b: u128| b < 128 ==> #[trigger] bit128(x, b) == bit128(y, b),
    ensures
        x == y,
{
    let z = x ^ y;
    assert forall|b: u128| b < 128 implies !#[trigger] bit128(z, b) by {
        assert(bit128(x, b) == bit128(y, b));
        assert((((x >> b) & 1u128) == 1u128) == (((y >> b) & 1u128) == 1u128) ==> (((x ^ y) >> b) & 1u128) != 1u128) by (bit_vector)
            requires b < 128;
    }
    lemma_no_bits_shift128(z, 0);
    assert((x ^ y) >> 0u128 == 0u128 ==> x == y) by (bit_vector);
}

/// Low-`w`-bits mask (`w >= 128` ⇒ all ones).
pub fn mask(w: u32) -> (m: u128)
    ensures
        forall|b: u128| b < 128 ==> (#[trigger] bit128(m, b) <==> b < w),
        w >= 128 ==> m == u128::MAX,
{
    if w >= 128 {
        let m = u128::MAX;
        assert forall|b: u128| b < 128 implies (#[trigger] bit128(m, b) <==> b < w) by {
            assert(((m >> b) & 1u128) == 1u128) by (bit_vector)
                requires m == 0xffff_ffff_ffff_ffff_ffff_ffff_ffff_ffffu128, b < 128;
        }
        m
    } else {
        let w128 = w as u128;
        assert((1u128 << w128) >= 1u128) by (bit_vector)
            requires w128 < 128;
        let m: u128 = (1u128 << w128) - 1;
        assert forall|b: u128| b < 128 implies (#[trigger] bit128(m, b) <==> b < w) by {
            assert((((m >> b) & 1u128) == 1u128) <==> b < w128) by (bit_vector)
                requires w128 < 128, m == ((1u128 << w128) - 1) as u128, b < 128;
        }
        m
    }
}

/// A value's raw bit pattern. Whoever builds a `Wide` value guarantees
/// `width > 128`; a value that fits in 128 bits is always `Small`.
#[derive(Debug)]
pub enum Bits {
    /// Width <= 128: the pattern as a plain `u128`.
    Small(u128),
    /// Width > 128: little-endian `u64` limbs.
    Wide(Vec<u64>),
}

impl PartialEq for Bits {
    fn eq(&self, other: &Bits) -> (r: bool) {
        match (self, other) {
            (Bits::Small(a), Bits::Small(b)) => *a == *b,
            (Bits::Wide(a), Bits::Wide(b)) => limbs_equal(a, b),
            _ => false,
        }
    }
}

impl Eq for Bits {}

impl vstd::std_specs::cmp::PartialEqSpecImpl for Bits {
    open spec fn obeys_eq_spec() -> bool {
        true
    }

    open spec fn eq_spec(&self, other: &Bits) -> bool {
        match (*self, *other) {
            (Bits::Small(a), Bits::Small(b)) => a == b,
            (Bits::Wide(a), Bits::Wide(b)) => a@ == b@,
            _ => false,
        }
    }
}

impl From<u128> for Bits {
    fn from(v: u128) -> (b: Bits) {
        Bits::Small(v)
    }
}

impl vstd::std_specs::convert::FromSpecImpl<u128> for Bits {
    open spec fn obeys_from_spec() -> bool {
        true
    }

    open spec fn from_spec(v: u128) -> Bits {
        Bits::Small(v)
    }
}

/// Whether two limb vectors hold the same limbs.
fn limbs_equal(a: &Vec<u64>, b: &Vec<u64>) -> (r: bool)
    ensures
        r == (a@ == b@),
{
    if a.len() != b.len() {
        return false;
    }
    let mut i: usize = 0;
    while i < a.len()
        invariant
            a@.len() == b@.len(),
            i <= a@.len(),
            forall|j: int| 0 <= j < i ==> a@[j] == b@[j],
        decreases a@.len() - i,
    {
        if a[i] != b[i] {
            return false;
        }
        i += 1;
    }
    proof {
        assert(a@ =~= b@);
    }
    true
}

/// An exact copy of a limb vector.
pub fn copy_limbs(v: &Vec<u64>) -> (r: Vec<u64>)
    ensures
        r@ == v@,
{
    let mut r: Vec<u64> = Vec::new();
    let mut i: usize = 0;
    while i < v.len()
        invariant
            i <= v@.len(),
            r@ == v@.subrange(0, i as int),
        decreases v@.len() - i,
    {
        r.push(v[i]);
        proof {
            assert(r@ =~= v@.subrange(0, i + 1));
        }
        i += 1;
    }
    proof {
        assert(r@ =~= v@);
    }
    r
}

/// Whether two patterns hold the same variant and contents.
pub open spec fn same_bits(a: Bits, b: Bits) -> bool {
    match (a, b) {
        (Bits::Small(x), Bits::Small(y)) => x == y,
        (Bits::Wide(x), Bits::Wide(y)) => x@ == y@,
        _ => false,
    }
}

/// An exact copy of a pattern.
pub fn copy_bits(b: &Bits) -> (r: Bits)
    ensures
        same_bits(r, *b),
{
    match b {
        Bits::Small(x) => Bits::Small(*x),
        Bits::Wide(v) => Bits::Wide(copy_limbs(v)),
    }
}

/// Whether the limbs of a `Small` value `x` promoted to `n` limbs are `r`.
pub open spec fn promoted(x: u128, r: Seq<u64>, n: nat) -> bool {
    &&& r.len() == n
    &&& r[0] == x as u64
    &&& n > 1 ==> r[1] == (x >> 64u128) as u64
    &&& forall|j: int| 2 <= j < n ==> r[j] == 0
}

/// `bits`'s limbs at `width`, promoting a `Small` value to
/// `limb_count(width)` limbs on the fly.
pub fn to_limbs(bits: &Bits, width: u32) -> (r: Vec<u64>)
    ensures
        match *bits {
            Bits::Wide(v) => r@ == v@,
            Bits::Small(x) => promoted(x, r@, spec_limb_count(width)),
        },
        forall|i: int| 0 <= i < width ==> #[trigger] limb_bit(r@, i) == bits_bit(*bits, i),
{
    match bits {
        Bits::Wide(v) => copy_limbs(v),
        Bits::Small(b) => {
            let mut out = wide::zeros(width);
            out.set(0, *b as u64);
            if out.len() > 1 {
                out.set(1, (*b >> 64) as u64);
            }
            proof {
                let x = *b;
                let n = spec_limb_count(width);
                assert forall|i: int| 0 <= i < width implies #[trigger] limb_bit(out@, i) == bits_bit(*bits, i) by {
                    assert(i < 64 * n);
                    if i < 64 {
                        let bb = i as u64;
                        let c = i as u128;
                        assert((((x as u64) >> bb) & 1u64 == 1u64) == ((x >> c) & 1u128 == 1u128)) by (bit_vector)
                            requires bb < 64, c == bb as u128;
                        assert(i / 64 == 0 && i % 64 == i);
                    } else if i < 128 {
                        let bb = (i - 64) as u64;
                        let c = i as u128;
                        assert(((((x >> 64u128) as u64) >> bb) & 1u64 == 1u64) == ((x >> c) & 1u128 == 1u128)) by (bit_vector)
                            requires bb < 64, c == bb as u128 + 64;
                        assert(i / 64 == 1 && i % 64 == i - 64);
                    } else {
                        assert(i / 64 >= 2);
                        wide::lemma_zero_limb_bit((i % 64) as u64);
                    }
                }
            }
            out
        }
    }
}

/// `limbs` cut or zero-padded to exactly `n` limbs.
fn fit_len(limbs: &Vec<u64>, n: usize) -> (r: Vec<u64>)
    ensures
        r@.len() == n,
        forall|j: int| 0 <= j < n ==> r@[j] == if j < limbs@.len() { limbs@[j] } else { 0u64 },
{
    let mut r: Vec<u64> = Vec::new();
    let mut j: usize = 0;
    while j < n
        invariant
            j <= n,
            r@.len() == j,
            forall|k: int| 0 <= k < j ==> r@[k] == if k < limbs@.len() { limbs@[k] } else { 0u64 },
        decreases n - j,
    {
        let v = if j < limbs.len() { limbs[j] } else { 0 };
        r.push(v);
        j += 1;
    }
    r
}

/// Build a `Bits` from a limb vector at `width`: resized to exactly
/// `limb_count(width)` limbs, masked to `width`, and narrowed to `Small`
/// when `width <= 128`.
pub fn from_limbs(limbs: Vec<u64>, width: u32) -> (r: Bits)
    ensures
        (r is Small) == (width <= 128),
        forall|i: int| 0 <= i < width ==> #[trigger] bits_bit(r, i) == limb_bit(limbs@, i),
        forall|i: int| i >= width ==> !#[trigger] bits_bit(r, i),
        match r {
            Bits::Wide(v) => v@.len() == spec_limb_count(width) && masked_to(v@, width),
            Bits::Small(_) => true,
        },
{
    let n = wide::limb_count(width);
    let mut fitted = fit_len(&limbs, n);
    let ghost before = fitted@;
    proof {
        assert forall|i: int| 0 <= i < width implies #[trigger] limb_bit(before, i) == limb_bit(limbs@, i) by {
            assert(i / 64 < n) by {
                assert(i < width);
            }
            if i / 64 < limbs@.len() {
                assert(before[i / 64] == limbs@[i / 64]);
            } else {
                assert(before[i / 64] == 0u64);
                wide::lemma_zero_limb_bit((i % 64) as u64);
            }
        }
    }
    wide::mask_to_width(&mut fitted, width);
    if width <= 128 {
        let lo: u64 = fitted[0];
        let hi: u64 = if fitted.len() > 1 { fitted[1] } else { 0 };
        let x: u128 = (lo as u128) | ((hi as u128) << 64);
        proof {
            assert forall|b: u128| b < 128 implies (#[trigger] bit128(x, b) <==>
                (if b < 64 { bit64(lo, b as u64) } else { bit64(hi, (b - 64) as u64) })) by {
                if b < 64 {
                    let b64 = b as u64;
                    assert((((x >> b) & 1u128) == 1u128) <==> (((lo >> b64) & 1u64) == 1u64)) by (bit_vector)
                        requires x == (lo as u128) | ((hi as u128) << 64), b < 64, b64 == b as u64;
                } else {
                    let b64 = (b - 64) as u64;
                    assert((((x >> b) & 1u128) == 1u128) <==> (((hi >> b64) & 1u64) == 1u64)) by (bit_vector)
                        requires x == (lo as u128) | ((hi as u128) << 64), 64 <= b < 128, b64 == (b - 64) as u64;
                }
            }
            assert forall|i: int| 0 <= i < 128 implies #[trigger] bits_bit(Bits::Small(x), i) == limb_bit(fitted@, i) by {
                let b = i as u128;
                assert(bit128(x, b) <==> (if b < 64 { bit64(lo, b as u64) } else { bit64(hi, (b - 64) as u64) }));
                if i < 64 {
                    assert(i / 64 == 0);
                    assert(i % 64 == i);
                } else {
                    assert(i / 64 == 1);
                    assert(i % 64 == i - 64);
                    if fitted@.len() <= 1 {
                        wide::lemma_zero_limb_bit((i - 64) as u64);
                    }
                }
            }
            assert forall|i: int| 0 <= i < width implies #[trigger] bits_bit(Bits::Small(x), i) == limb_bit(limbs@, i) by {
                assert(limb_bit(fitted@, i) == limb_bit(before, i));
            }
            assert forall|i: int| i >= width implies !#[trigger] bits_bit(Bits::Small(x), i) by {
                if 0 <= i < 128 {
                    assert(!limb_bit(fitted@, i));
                }
            }
        }
        Bits::Small(x)
    } else {
        proof {
            assert forall|i: int| 0 <= i < width implies #[trigger] bits_bit(Bits::Wide(fitted), i) == limb_bit(limbs@, i) by {
                assert(limb_bit(fitted@, i) == limb_bit(before, i));
            }
        }
        Bits::Wide(fitted)
    }
}

/// Bit `b` of `x`, computed.
fn bit_of(x: u128, b: u32) -> (r: bool)
    requires
        b < 128,
    ensures
        r == bit128(x, b as u128),
{
    let bb = b as u128;
    (x >> bb) & 1 == 1
}

/// A zero `u128` has no bit set.
pub proof fn lemma_zero_bit128(b: u128)
    ensures
        !bit128(0u128, b),
{
    assert(((0u128 >> b) & 1u128) != 1u128) by (bit_vector);
}

/// Minimal width (>= 1) that holds `bits` as an unsigned magnitude: the
/// position of the highest set bit plus one, or 1 for zero.
#[verifier::loop_isolation(false)]
pub fn natural_width(bits: &Bits) -> (w: u32)
    requires
        bits is Wide ==> bits->Wide_0@.len() < 67108864,
    ensures
        w >= 1,
        forall|i: int| i >= w ==> !#[trigger] bits_bit(*bits, i),
        w > 1 ==> bits_bit(*bits, w - 1),
        bits is Small ==> w <= 128,
        bits is Wide ==> w <= 64 * bits->Wide_0@.len() || w == 1,
{
    match bits {
        Bits::Small(x) => {
            let mut b: u32 = 128;
            while b > 0
                invariant
                    b <= 128,
                    forall|i: int| b <= i < 128 ==> !#[trigger] bit128(*x, i as u128),
                decreases b,
            {
                if bit_of(*x, b - 1) {
                    return b;
                }
                b -= 1;
            }
            1
        }
        Bits::Wide(limbs) => {
            let n = limbs.len();
            let mut li: usize = n;
            while li > 0
                invariant
                    li <= n,
                    n == limbs@.len(),
                    n < 67108864,
                    forall|i: int| (li as int) * 64 <= i ==> !#[trigger] limb_bit(limbs@, i),
                decreases li,
            {
                let limb = limbs[li - 1];
                let mut b: u64 = 64;
                while b > 0
                    invariant
                        b <= 64,
                        li >= 1,
                        li <= n,
                        limb == limbs@[li - 1],
                        forall|i: int| ((li - 1) as int) * 64 + (b as int) <= i < (li as int) * 64 ==> !#[trigger] limb_bit(limbs@, i),
                    decreases b,
                {
                    let bit = (limb >> (b - 1)) & 1 == 1;
                    if bit {
                        let w = ((li - 1) as u32) * 64 + (b as u32);
                        proof {
                            let i = w - 1;
                            assert(i / 64 == li - 1);
                            assert(i % 64 == b - 1);
                        }
                        return w;
                    }
                    proof {
                        let i = ((li - 1) as int) * 64 + (b as int) - 1;
                        assert(i / 64 == li - 1);
                        assert(i % 64 == b - 1);
                    }
                    b -= 1;
                }
                li -= 1;
            }
            1
        }
    }
}

/// Whether bit `width - 1` (the top bit at this width) is set.
pub fn top_bit_set(bits: &Bits, width: u32) -> (r: bool)
    ensures
        r == (width >= 1 && bits_bit(*bits, width - 1)),
{
    if width == 0 {
        return false;
    }
    match bits {
        Bits::Small(b) => {
            if width - 1 >= 128 {
                false
            } else {
                bit_of(*b, width - 1)
            }
        }
        Bits::Wide(limbs) => wide::bit_at(limbs.as_slice(), width - 1),
    }
}

/// Re-pack `bits` for a new `width`: a `Wide` value holds exactly
/// `limb_count(width)` limbs afterwards, and a value at width <= 128 is
/// `Small`.
pub fn retag(bits: &Bits, width: u32) -> (r: Bits)
    ensures
        (r is Small) == (width <= 128),
        forall|i: int| i >= width ==> !#[trigger] bits_bit(r, i),
        match r {
            Bits::Wide(v) => v@.len() == spec_limb_count(width),
            Bits::Small(_) => true,
        },
{
    from_limbs(to_limbs(bits, width), width)
}

/// Number of consecutive `1` bits from bit `width - 1` downward.
pub fn leading_ones(bits: &Bits, width: u32) -> (n: u32)
    ensures
        n <= width,
        forall|k: int| 0 <= k < n ==> #[trigger] bits_bit(*bits, width - 1 - k),
        n < width ==> !bits_bit(*bits, width - 1 - n),
{
    let mut n: u32 = 0;
    while n < width
        invariant
            n <= width,
            forall|k: int| 0 <= k < n ==> #[trigger] bits_bit(*bits, width - 1 - k),
        decreases width - n,
    {
        let i = width - 1 - n;
        let set = match bits {
            Bits::Small(b) => if i >= 128 { false } else { bit_of(*b, i) },
            Bits::Wide(limbs) => wide::bit_at(limbs.as_slice(), i),
        };
        if !set {
            return n;
        }
        n += 1;
    }
    n
}

/// Trim a two's-complement value at `width` bits to its minimal width,
/// preserving its numeric value. Returns `(bits, width, is_negative)`;
/// zero always comes back `(Small(0), 1, false)`.
pub fn shrink(bits: &Bits, width: u32, signed: bool) -> (r: (Bits, u32, bool))
    requires
        bits is Wide ==> bits->Wide_0@.len() < 67108864,
    ensures
        r.2 == (signed && width >= 1 && bits_bit(*bits, width - 1)),
        r.1 >= 1,
        (r.0 is Small) == (r.1 <= 128),
        forall|i: int| i >= r.1 ==> !#[trigger] bits_bit(r.0, i),
        !r.2 && same_bits(*bits, Bits::Small(0)) ==> r == (Bits::Small(0), 1u32, false),
        r.2 ==> r.1 <= width,
        width >= 1 && (forall|i: int| i >= width ==> !#[trigger] bits_bit(*bits, i)) ==> r.1 <= width,
        match r.0 {
            Bits::Wide(v) => v@.len() == spec_limb_count(r.1),
            Bits::Small(_) => true,
        },
        !r.2 ==> forall|i: int| 0 <= i ==> #[trigger] bits_bit(r.0, i) == bits_bit(*bits, i),
        !r.2 ==> r.1 == 1 || bits_bit(*bits, r.1 - 1),
        r.2 ==> forall|i: int| 0 <= i < r.1 ==> #[trigger] bits_bit(r.0, i) == bits_bit(*bits, i),
        r.2 ==> forall|i: int| r.1 - 1 <= i < width ==> #[trigger] bits_bit(*bits, i),
        r.2 && r.1 >= 2 ==> !bits_bit(*bits, r.1 - 2),
{
    if signed && top_bit_set(bits, width) {
        let ones = leading_ones(bits, width);
        let mut w = width - ones + 1;
        if w > width {
            w = width;
        }
        if w < 1 {
            w = 1;
        }
        let limbs = to_limbs(bits, width);
        proof {
            assert forall|i: int| w - 1 <= i < width implies #[trigger] bits_bit(*bits, i) by {
                assert(bits_bit(*bits, width - 1 - (width - 1 - i)));
            }
            if w >= 2 {
                assert(w - 2 == width - 1 - ones);
            }
        }
        (from_limbs(limbs, w), w, true)
    } else {
        if let Bits::Small(0) = bits {
            proof {
                assert forall|i: int| i >= 1 implies !#[trigger] bits_bit(Bits::Small(0), i) by {
                    lemma_zero_bit128(i as u128);
                }
            }
            return (Bits::Small(0), 1, false);
        }
        let w = natural_width(bits);
        proof {
            if width >= 1 && (forall|i: int| i >= width ==> !#[trigger] bits_bit(*bits, i)) {
                if w > 1 {
                    assert(bits_bit(*bits, w - 1));
                }
            }
        }
        let cw = if width >= w { width } else { w };
        let limbs = to_limbs(bits, cw);
        let r = from_limbs(limbs, w);
        proof {
            assert forall|i: int| 0 <= i implies #[trigger] bits_bit(r, i) == bits_bit(*bits, i) by {
                if i < w {
                    assert(limb_bit(limbs@, i) == bits_bit(*bits, i));
                }
            }
        }
        (r, w, false)
    }
}

/// The value `bits` spells at `width` bits (bits at or above `width`
/// ignored), unsigned.
pub open spec fn bits_value(bits: Bits, width: u32) -> nat {
    match bits {
        Bits::Small(x) => (x as nat) % pow2(width as nat),
        Bits::Wide(v) => wide::pattern_value(v@, width),
    }
}

/// Render `bits` (masked to `width`, interpreted per `signed`) as a
/// decimal string.
pub fn bits_to_decimal_string(bits: &Bits, width: u32, signed: bool) -> (r: String)
    ensures
        r@ == wide::int_decimal(wide::read_signed(bits_value(*bits, width), width, signed)),
{
    match bits {
        Bits::Small(b) => {
            let lo = *b as u64;
            let hi = (*b >> 64) as u64;
            assert(*b == (lo as u128) + (hi as u128) * 0x1_0000_0000_0000_0000u128) by (bit_vector)
                requires lo == *b as u64, hi == (*b >> 64) as u64;
            let limbs: [u64; 2] = [lo, hi];
            proof {
                assert(limbs@.drop_first() =~= seq![hi]);
                assert(limbs@.drop_first().drop_first() =~= Seq::<u64>::empty());
                assert(wide::limbs_value(limbs@.drop_first().drop_first()) == 0);
                assert(wide::limbs_value(limbs@.drop_first()) == hi);
                assert(wide::limbs_value(limbs@) == *b as nat);
            }
            wide::to_decimal_string(&limbs, width, signed)
        }
        Bits::Wide(limbs) => wide::to_decimal_string(limbs.as_slice(), width, signed),
    }
}

} // verus!
