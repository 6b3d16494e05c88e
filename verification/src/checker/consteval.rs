//! Compile-time constant evaluation.
//!
//! [`eval`] folds an expression to a [`ConstVal`] — an arbitrary-width
//! two's-complement integer bounded by [`MAX_WIDTH`] bits; overflow past
//! that ceiling is an error (E0202), never a silent wrap. What does not
//! const-evaluate is E0201: signal names, wrapping operators, `match`,
//! concat/index/slice, runtime builtins.

use vstd::prelude::*;
use vstd::arithmetic::power2::{lemma2_to64, lemma_pow2_pos, lemma_pow2_strictly_increases, lemma_pow2_unfold, pow2};

use crate::ast::{BinOp, Builtin, Expr, ExprKind, TopItem, UnOp};
use super::{lemma_grew_trans, Checker};
use super::names::flagged;
use crate::bits::{self, bit128, bits_bit, lemma_zero_bit128, same_bits, Bits};
use crate::diag::Diag;
use crate::text::{cat, owned};
use crate::wide::{self, spec_limb_count, Cmp};

verus! {

/// The widest value any signal or constant may have.
pub const MAX_WIDTH: u32 = 1_000_000;

/// A compile-time integer at its own minimal width: `signed: false` means
/// `bits` is an unsigned magnitude; `signed: true` means `bits` is a
/// negative two's-complement value.
#[derive(Debug)]
pub struct ConstVal {
    /// The bit pattern.
    pub bits: Bits,
    /// The pattern's width.
    pub width: u32,
    /// Whether the value is negative.
    pub signed: bool,
}

/// Whether two constants hold the same pattern, width, and sign.
pub open spec fn same_val(a: ConstVal, b: ConstVal) -> bool {
    &&& same_bits(a.bits, b.bits)
    &&& a.width == b.width
    &&& a.signed == b.signed
}

/// Whether `v` is a canonical constant: width at least one, `Small`
/// exactly when the width fits 128 bits and `Wide` with exactly the limbs
/// its width needs, nothing set at or above the width, `signed` exactly
/// for a negative value (its sign bit set), and the width minimal.
pub open spec fn canonical(v: ConstVal) -> bool {
    &&& 1 <= v.width
    &&& (v.bits is Small) == (v.width <= 128)
    &&& v.bits is Wide ==> v.bits->Wide_0@.len() == spec_limb_count(v.width)
    &&& forall|i: int| i >= v.width ==> !#[trigger] bits_bit(v.bits, i)
    &&& v.signed ==> bits_bit(v.bits, v.width - 1)
    &&& canonical_width(v)
}

/// Whether `v` is a constant the evaluator can produce: canonical, and no
/// wider than `MAX_WIDTH`.
pub open spec fn wf_val(v: ConstVal) -> bool {
    &&& canonical(v)
    &&& v.width <= MAX_WIDTH
}

/// The width is the least that holds the value: a non-negative value's
/// top bit is set (or the width is one); a negative value's bit below
/// its sign bit is clear (or the width is one).
pub open spec fn canonical_width(v: ConstVal) -> bool {
    &&& !v.signed ==> (v.width == 1 || bits_bit(v.bits, v.width - 1))
    &&& v.signed ==> (v.width == 1 || !bits_bit(v.bits, v.width - 2))
}

/// The constant `0`.
pub open spec fn spec_zero() -> ConstVal {
    ConstVal { bits: Bits::Small(0), width: 1, signed: false }
}

/// The one-bit constant for `b`.
pub open spec fn spec_from_bool(b: bool) -> ConstVal {
    ConstVal { bits: Bits::Small(if b { 1 } else { 0 }), width: 1, signed: false }
}

/// Whether a constant is zero.
pub open spec fn spec_is_zero(v: ConstVal) -> bool {
    v.bits == Bits::Small(0)
}

/// Well-formedness depends only on what a value holds.
proof fn lemma_same_val_wf(a: ConstVal, b: ConstVal)
    requires
        same_val(a, b),
        wf_val(b),
    ensures
        wf_val(a),
{
    assert forall|i: int| i >= a.width implies !#[trigger] bits_bit(a.bits, i) by {
        assert(bits_bit(a.bits, i) == bits_bit(b.bits, i));
    }
}

/// The one-bit constants are well formed.
proof fn lemma_truth_values_wf()
    ensures
        wf_val(spec_zero()),
        wf_val(spec_from_bool(true)),
        wf_val(spec_from_bool(false)),
        wf_val(ConstVal { bits: Bits::Small(1), width: 1, signed: true }),
{
    assert forall|i: int| i >= 1 implies !#[trigger] bits_bit(Bits::Small(1), i) by {
        if i < 128 {
            let b = i as u128;
            assert(((1u128 >> b) & 1u128) != 1u128 && ((1u128 >> 0u128) & 1u128) == 1u128) by (bit_vector)
                requires
                    1 <= b < 128,
            ;
        }
    }
    let one: u128 = 1;
    assert(((one >> 0u128) & 1u128) == 1u128) by (bit_vector)
        requires one == 1u128;
    assert(bits_bit(Bits::Small(1), 0));
    assert forall|i: int| i >= 1 implies !#[trigger] bits_bit(Bits::Small(0), i) by {
        if i < 128 {
            lemma_zero_bit128(i as u128);
        }
    }
}

impl ConstVal {
    /// The constant `0`.
    pub fn zero() -> (v: ConstVal)
        ensures
            v == spec_zero(),
            wf_val(v),
    {
        proof {
            lemma_truth_values_wf();
        }
        ConstVal { bits: Bits::Small(0), width: 1, signed: false }
    }

    /// `1` for `true`, `0` for `false`.
    pub fn from_bool(b: bool) -> (v: ConstVal)
        ensures
            v == spec_from_bool(b),
            wf_val(v),
    {
        proof {
            lemma_truth_values_wf();
        }
        ConstVal { bits: Bits::Small(if b { 1 } else { 0 }), width: 1, signed: false }
    }

    /// The constant for a plain `i128`, at its minimal width.
    pub fn from_i128(v: i128) -> (c: ConstVal)
        ensures
            v >= 0 ==> c.bits == Bits::Small(v as u128) && !c.signed && c.width <= 128 && c.width >= 1,
            v < 0 ==> c.signed && 1 <= c.width <= 128,
            wf_val(c),
            forall|i: int| 0 <= i < 128 ==> #[trigger] ext_bit(c, i) == bit128(v as u128, i as u128),
            v >= 0 ==> c.width == 1 || bits_bit(c.bits, c.width - 1),
            v < 0 && c.width >= 2 ==> !bits_bit(c.bits, c.width - 2),
            const_value(c) == v,
    {
        if v >= 0 {
            let b = Bits::Small(v as u128);
            let w = bits::natural_width(&b);
            let c = ConstVal { bits: b, width: w, signed: false };
            proof {
                assert forall|i: int| 0 <= i < 128 implies #[trigger] ext_bit(c, i) == bit128(v as u128, i as u128) by {
                    if i >= w {
                        assert(!bits_bit(b, i));
                    }
                }
                lemma_small_value(c);
            }
            c
        } else {
            let u = v as u128;
            assert(((u >> 127u128) & 1u128) == 1u128) by (bit_vector)
                requires u == v as u128, v < 0;
            let (shrunk, w, neg) = bits::shrink(&Bits::Small(u), 128, true);
            let c = ConstVal { bits: shrunk, width: w, signed: true };
            proof {
                assert(bits_bit(Bits::Small(u), 127));
                assert(bits_bit(Bits::Small(u), w - 1));
                assert(bits_bit(shrunk, w - 1));
                assert forall|i: int| 0 <= i < 128 implies #[trigger] ext_bit(c, i) == bit128(u, i as u128) by {
                    if i < w {
                        assert(bits_bit(shrunk, i) == bits_bit(Bits::Small(u), i));
                    } else {
                        assert(bits_bit(Bits::Small(u), i));
                    }
                }
                assert(ext_bit(c, 127));
                lemma_i128_value(c, v);
            }
            c
        }
    }

    /// Whether the value is negative.
    pub fn is_negative(&self) -> (b: bool)
        ensures
            b == self.signed,
    {
        self.signed
    }

    /// Whether the value is zero.
    pub fn is_zero(&self) -> (b: bool)
        ensures
            b == spec_is_zero(*self),
    {
        match &self.bits {
            Bits::Small(x) => *x == 0,
            Bits::Wide(_) => false,
        }
    }

    /// True for the value `1` (width 1, unsigned).
    pub fn is_one(&self) -> (b: bool)
        ensures
            b == (!self.signed && self.width == 1 && self.bits == Bits::Small(1)),
    {
        if self.signed || self.width != 1 {
            return false;
        }
        match &self.bits {
            Bits::Small(x) => *x == 1,
            Bits::Wide(_) => false,
        }
    }

    /// This value's limbs at its own width.
    fn limbs(&self) -> (r: Vec<u64>)
        ensures
            match self.bits {
                Bits::Wide(v) => r@ == v@,
                Bits::Small(x) => crate::bits::promoted(x, r@, spec_limb_count(self.width)),
            },
            forall|i: int| 0 <= i < self.width ==> #[trigger] wide::limb_bit(r@, i) == bits_bit(self.bits, i),
    {
        bits::to_limbs(&self.bits, self.width)
    }

    /// This value as an `i128`, saturating to `i128::MAX`/`i128::MIN` when
    /// it does not fit.
    pub fn to_i128_saturating(&self) -> (r: i128)
        ensures
            self.width > 128 ==> r == if self.signed { i128::MIN } else { i128::MAX },
            self.width <= 128 && !self.signed && (self.bits is Small) ==>
                r == (if self.bits->Small_0 <= i128::MAX as u128 { self.bits->Small_0 as i128 } else { i128::MAX }),
            wf_val(*self) && self.signed && self.width <= 128 ==> forall|i: int| 0 <= i < 128 ==> #[trigger] bit128(r as u128, i as u128) == ext_bit(*self, i),
            wf_val(*self) ==> r == saturate_i128(const_value(*self)),
    {
        if self.width > 128 {
            proof {
                if wf_val(*self) {
                    lemma_value_range(*self);
                    lemma_pow2_128();
                    lemma_pow2_unfold(128);
                    lemma_pow2_le(128, (self.width - 1) as nat);
                    lemma_pow2_le(127, (self.width - 2) as nat);
                }
            }
            return if self.signed { i128::MIN } else { i128::MAX };
        }
        let lo: u128 = match &self.bits {
            Bits::Small(x) => *x,
            Bits::Wide(v) => {
                let l0: u128 = if v.len() > 0 { v[0] as u128 } else { 0 };
                let l1: u128 = if v.len() > 1 { v[1] as u128 } else { 0 };
                l0 | (l1 << 64)
            }
        };
        if self.signed {
            let m = bits::mask(self.width);
            let b = lo & m;
            let ghost w = self.width;
            proof {
                assert forall|i: u128| i < 128 implies #[trigger] bit128(b, i) == (bit128(lo, i) && bit128(m, i)) by {
                    assert((((lo & m) >> i) & 1u128 == 1u128) == ((((lo >> i) & 1u128) == 1u128) && (((m >> i) & 1u128) == 1u128))) by (bit_vector)
                        requires i < 128;
                }
            }
            if self.width >= 1 && (b >> ((self.width - 1) as u128)) & 1 == 1 {
                let y = b | !m;
                proof {
                    assert forall|i: u128| i < 128 implies #[trigger] bit128(((y as i128) as u128), i) == (bit128(b, i) || !bit128(m, i)) by {
                        assert(((((b | !m) as i128) as u128 >> i) & 1u128 == 1u128) == ((((b >> i) & 1u128) == 1u128) || !(((m >> i) & 1u128) == 1u128))) by (bit_vector)
                            requires i < 128;
                    }
                    if wf_val(*self) {
                        assert(bit128(b, (w - 1) as u128));
                        assert forall|i: int| 0 <= i < 128 implies #[trigger] bit128(((y as i128) as u128), i as u128) == ext_bit(*self, i) by {
                            assert(bit128(((y as i128) as u128), i as u128) == (bit128(b, i as u128) || !bit128(m, i as u128)));
                        }
                        assert(ext_bit(*self, 127));
                        lemma_i128_value(*self, y as i128);
                    }
                }
                y as i128
            } else {
                proof {
                    assert forall|i: u128| i < 128 implies #[trigger] bit128(((b as i128) as u128), i) == bit128(b, i) by {
                        assert((((b as i128) as u128 >> i) & 1u128 == 1u128) == (((b >> i) & 1u128) == 1u128)) by (bit_vector)
                            requires i < 128;
                    }
                    if wf_val(*self) && w >= 1 {
                        assert(!bit128(b, (w - 1) as u128));
                    }
                }
                b as i128
            }
        } else {
            proof {
                if wf_val(*self) {
                    lemma_small_value(*self);
                }
            }
            if lo <= i128::MAX as u128 {
                lo as i128
            } else {
                i128::MAX
            }
        }
    }
}

/// `x` clamped into the `i128` range.
pub open spec fn saturate_i128(x: int) -> int {
    if x > i128::MAX { i128::MAX as int } else if x < i128::MIN { i128::MIN as int } else { x }
}

/// Every `i128` survives the trip into a constant and back: a constant
/// that stands for `v`, read back saturating, gives `v`.
pub proof fn lemma_i128_round_trip(v: i128, c: ConstVal, r: i128)
    requires
        wf_val(c),
        const_value(c) == v as int,
        r as int == saturate_i128(const_value(c)),
    ensures
        r == v,
{
}

/// An exact copy of a constant.
pub fn copy_val(v: &ConstVal) -> (r: ConstVal)
    ensures
        same_val(r, *v),
{
    ConstVal { bits: bits::copy_bits(&v.bits), width: v.width, signed: v.signed }
}

/// Environment for one evaluation: name -> value, looked up by the first
/// entry with a matching name.
pub type Env = Vec<(String, ConstVal)>;

/// The value bound to `name` in `env` (first matching entry).
pub open spec fn env_lookup(env: Seq<(String, ConstVal)>, name: Seq<char>) -> Option<ConstVal>
    decreases env.len(),
{
    if env.len() == 0 {
        None
    } else if env[0].0@ == name {
        Some(env[0].1)
    } else {
        env_lookup(env.drop_first(), name)
    }
}

/// Index of the first entry of `env` named `name`.
pub open spec fn env_index(env: Seq<(String, ConstVal)>, name: Seq<char>) -> Option<int>
    decreases env.len(),
{
    if env.len() == 0 {
        None
    } else if env[0].0@ == name {
        Some(0)
    } else {
        match env_index(env.drop_first(), name) {
            Some(i) => Some(i + 1),
            None => None,
        }
    }
}

proof fn lemma_env_index(env: Seq<(String, ConstVal)>, name: Seq<char>)
    ensures
        match env_index(env, name) {
            Some(i) => 0 <= i < env.len() && env[i].0@ == name && env_lookup(env, name) == Some(env[i].1)
                && forall|j: int| 0 <= j < i ==> env[j].0@ != name,
            None => env_lookup(env, name).is_none() && forall|j: int| 0 <= j < env.len() ==> env[j].0@ != name,
        },
    decreases env.len(),
{
    if env.len() > 0 {
        lemma_env_index(env.drop_first(), name);
        if env[0].0@ != name {
            match env_index(env.drop_first(), name) {
                Some(i) => {
                    assert forall|j: int| 0 <= j < i + 1 implies env[j].0@ != name by {
                        if j > 0 {
                            assert(env[j] == env.drop_first()[j - 1]);
                        }
                    }
                }
                None => {
                    assert forall|j: int| 0 <= j < env.len() implies env[j].0@ != name by {
                        if j > 0 {
                            assert(env[j] == env.drop_first()[j - 1]);
                        }
                    }
                }
            }
        }
    }
}

/// Whether some entry of `env` carries the name `x`.
pub open spec fn entry_named(env: Seq<(String, ConstVal)>, x: Seq<char>) -> bool {
    exists|j: int| 0 <= j < env.len() && #[trigger] env[j].0@ == x
}

/// Lookups of `x` agree in two tables that agree on which entries are
/// named `x` and on those entries' values.
proof fn lemma_lookup_frame(s: Seq<(String, ConstVal)>, t: Seq<(String, ConstVal)>, x: Seq<char>)
    requires
        s.len() == t.len(),
        forall|j: int| 0 <= j < s.len() ==> (#[trigger] s[j].0@ == x) == (t[j].0@ == x),
        forall|j: int| 0 <= j < s.len() && #[trigger] s[j].0@ == x ==> s[j].1 == t[j].1,
    ensures
        env_lookup(s, x) == env_lookup(t, x),
    decreases s.len(),
{
    if s.len() > 0 {
        assert(s[0].0@ == x <==> t[0].0@ == x);
        lemma_lookup_frame(s.drop_first(), t.drop_first(), x);
    }
}

/// An entry for another name pushed at the end leaves the lookup of `x`.
proof fn lemma_lookup_push(s: Seq<(String, ConstVal)>, p: (String, ConstVal), x: Seq<char>)
    requires
        p.0@ != x,
    ensures
        env_lookup(s.push(p), x) == env_lookup(s, x),
    decreases s.len(),
{
    if s.len() == 0 {
        let t = s.push(p);
        assert(t[0] == p);
        assert(t[0].0@ != x);
        assert(t.drop_first() =~= Seq::<(String, ConstVal)>::empty());
        assert(env_lookup(t.drop_first(), x) is None);
        assert(env_lookup(t, x) == env_lookup(t.drop_first(), x));
    } else {
        let t = s.push(p);
        assert(t[0] == s[0]);
        assert(t.drop_first() =~= s.drop_first().push(p));
        lemma_lookup_push(s.drop_first(), p, x);
        if s[0].0@ != x {
            assert(env_lookup(t, x) == env_lookup(t.drop_first(), x));
            assert(env_lookup(s, x) == env_lookup(s.drop_first(), x));
        }
    }
}

/// Removing an entry for another name leaves the lookup of `x`.
proof fn lemma_lookup_remove(s: Seq<(String, ConstVal)>, i: int, x: Seq<char>)
    requires
        0 <= i < s.len(),
        s[i].0@ != x,
    ensures
        env_lookup(s.remove(i), x) == env_lookup(s, x),
    decreases s.len(),
{
    if i == 0 {
        assert(s.remove(0) =~= s.drop_first());
    } else {
        assert(s.remove(i).drop_first() =~= s.drop_first().remove(i - 1));
        assert(s.remove(i)[0] == s[0]);
        lemma_lookup_remove(s.drop_first(), i - 1, x);
    }
}

/// A binding shadowed and then restored leaves every lookup as it was.
pub proof fn lemma_scoped_values(
    e0: Seq<(String, ConstVal)>,
    e1: Seq<(String, ConstVal)>,
    e2: Seq<(String, ConstVal)>,
    e3: Seq<(String, ConstVal)>,
    k: Seq<char>,
    prev: Option<ConstVal>,
)
    requires
        prev == env_lookup(e0, k),
        forall|x: Seq<char>| x != k ==> #[trigger] env_lookup(e1, x) == env_lookup(e0, x),
        forall|x: Seq<char>| #[trigger] env_lookup(e2, x) == env_lookup(e1, x),
        env_lookup(e3, k) == prev,
        forall|x: Seq<char>| x != k ==> #[trigger] env_lookup(e3, x) == env_lookup(e2, x),
    ensures
        forall|x: Seq<char>| #[trigger] env_lookup(e3, x) == env_lookup(e0, x),
{
    assert forall|x: Seq<char>| #[trigger] env_lookup(e3, x) == env_lookup(e0, x) by {
        if x != k {
            assert(env_lookup(e2, x) == env_lookup(e1, x));
        }
    }
}

/// Whether `env` binds `name`.
pub open spec fn env_has(env: Seq<(String, ConstVal)>, name: Seq<char>) -> bool {
    env_lookup(env, name) is Some
}

/// `env` binds `name` exactly when some entry carries that name.
pub proof fn lemma_env_has(env: Seq<(String, ConstVal)>, name: Seq<char>)
    ensures
        env_has(env, name) <==> exists|j: int| 0 <= j < env.len() && #[trigger] env[j].0@ == name,
{
    lemma_env_index(env, name);
}

/// Two environments whose entries carry the same names bind the same
/// names.
pub proof fn lemma_env_same_names(a: Seq<(String, ConstVal)>, b: Seq<(String, ConstVal)>)
    requires
        a.len() == b.len(),
        forall|i: int| 0 <= i < a.len() ==> #[trigger] a[i].0@ == b[i].0@,
    ensures
        forall|x: Seq<char>| #[trigger] env_has(a, x) == env_has(b, x),
{
    assert forall|x: Seq<char>| #[trigger] env_has(a, x) == env_has(b, x) by {
        lemma_env_has(a, x);
        lemma_env_has(b, x);
        if env_has(a, x) {
            let j = choose|j: int| 0 <= j < a.len() && #[trigger] a[j].0@ == x;
            assert(b[j].0@ == x);
        }
        if env_has(b, x) {
            let j = choose|j: int| 0 <= j < b.len() && #[trigger] b[j].0@ == x;
            assert(a[j].0@ == x);
        }
    }
}

/// Binding `k` afresh, working in that scope without changing which
/// names are bound, then restoring `k`'s old binding leaves the same
/// names bound as before.
pub proof fn lemma_scoped_binding(
    e0: Seq<(String, ConstVal)>,
    e1: Seq<(String, ConstVal)>,
    e2: Seq<(String, ConstVal)>,
    e3: Seq<(String, ConstVal)>,
    k: Seq<char>,
    prev: Option<ConstVal>,
)
    requires
        prev == env_lookup(e0, k),
        forall|x: Seq<char>| x != k ==> (#[trigger] env_has(e1, x) == env_has(e0, x)),
        forall|x: Seq<char>| #[trigger] env_has(e2, x) == env_has(e1, x),
        env_lookup(e3, k) == prev,
        forall|x: Seq<char>| x != k ==> (#[trigger] env_has(e3, x) == env_has(e2, x)),
    ensures
        forall|x: Seq<char>| #[trigger] env_has(e3, x) == env_has(e0, x),
{
    assert forall|x: Seq<char>| #[trigger] env_has(e3, x) == env_has(e0, x) by {
        if x != k {
            assert(env_has(e3, x) == env_has(e2, x));
            assert(env_has(e2, x) == env_has(e1, x));
            assert(env_has(e1, x) == env_has(e0, x));
        }
    }
}

/// Position of `name` in `env`, if bound.
fn env_find(env: &Env, name: &String) -> (r: Option<usize>)
    ensures
        match r {
            Some(i) => Some(i as int) == env_index(env@, name@),
            None => env_index(env@, name@).is_none(),
        },
{
    proof {
        lemma_env_index(env@, name@);
    }
    let mut i: usize = 0;
    while i < env.len()
        invariant
            i <= env@.len(),
            forall|j: int| 0 <= j < i ==> env@[j].0@ != name@,
            match env_index(env@, name@) {
                Some(k) => 0 <= k < env@.len() && env@[k].0@ == name@ && forall|j: int| 0 <= j < k ==> env@[j].0@ != name@,
                None => forall|j: int| 0 <= j < env@.len() ==> env@[j].0@ != name@,
            },
        decreases env@.len() - i,
    {
        if env[i].0 == *name {
            return Some(i);
        }
        i += 1;
    }
    None
}

/// Whether `name` is bound in `env`.
pub fn env_contains(env: &Env, name: &String) -> (b: bool)
    ensures
        b == env_lookup(env@, name@).is_some(),
{
    proof {
        lemma_env_index(env@, name@);
    }
    env_find(env, name).is_some()
}

/// A copy of the value bound to `name` in `env`.
pub fn env_get(env: &Env, name: &String) -> (r: Option<ConstVal>)
    ensures
        match r {
            Some(v) => env_lookup(env@, name@) matches Some(w) && same_val(v, w),
            None => env_lookup(env@, name@).is_none(),
        },
{
    proof {
        lemma_env_index(env@, name@);
    }
    match env_find(env, name) {
        Some(i) => Some(copy_val(&env[i].1)),
        None => None,
    }
}

/// Bind `name` to `v`, replacing an existing binding; returns the value
/// it replaced.
pub fn env_insert(env: &mut Env, name: String, v: ConstVal) -> (prev: Option<ConstVal>)
    ensures
        env_lookup(final(env)@, name@) == Some(v),
        prev == env_lookup(old(env)@, name@),
        env_wf(old(env)@) && wf_val(v) ==> env_wf(final(env)@),
        env_wf(old(env)@) ==> (prev matches Some(p) ==> wf_val(p)),
        forall|x: Seq<char>| x != name@ ==> (#[trigger] env_has(final(env)@, x) == env_has(old(env)@, x)),
        forall|x: Seq<char>| x != name@ ==> #[trigger] env_lookup(final(env)@, x) == env_lookup(old(env)@, x),
{
    proof {
        lemma_env_index(env@, name@);
        if env_wf(env@) {
            lemma_env_lookup_wf(env@, name@);
        }
    }
    let ghost start = env@;
    let ghost nv = name@;
    let r = env_insert_at(env, name, v);
    proof {
        assert forall|x: Seq<char>| x != nv implies (#[trigger] env_has(env@, x) == env_has(start, x)) by {
            lemma_env_has(env@, x);
            lemma_env_has(start, x);
            if env_has(start, x) {
                let j = choose|j: int| 0 <= j < start.len() && #[trigger] start[j].0@ == x;
                assert(env@[j].0@ == x);
            }
            if env_has(env@, x) {
                let j = choose|j: int| 0 <= j < env@.len() && #[trigger] env@[j].0@ == x;
                assert(start[j].0@ == x);
            }
        }
    }
    r
}

/// `env_insert`'s work: the entry of `name` updated in place, or a new
/// entry at the end.
fn env_insert_at(env: &mut Env, name: String, v: ConstVal) -> (prev: Option<ConstVal>)
    ensures
        env_lookup(final(env)@, name@) == Some(v),
        prev == env_lookup(old(env)@, name@),
        env_wf(old(env)@) && wf_val(v) ==> env_wf(final(env)@),
        env_wf(old(env)@) ==> (prev matches Some(p) ==> wf_val(p)),
        final(env)@.len() == old(env)@.len() || final(env)@.len() == old(env)@.len() + 1,
        final(env)@.len() == old(env)@.len() + 1 ==> final(env)@.last().0@ == name@,
        forall|j: int| 0 <= j < old(env)@.len() ==> #[trigger] final(env)@[j].0@ == old(env)@[j].0@,
        forall|x: Seq<char>| x != name@ ==> #[trigger] env_lookup(final(env)@, x) == env_lookup(old(env)@, x),
{
    proof {
        lemma_env_index(env@, name@);
        if env_wf(env@) {
            lemma_env_lookup_wf(env@, name@);
        }
    }
    match env_find(env, &name) {
        Some(i) => {
            let ghost pre = env@;
            let (_, old_v) = env.remove(i);
            env.insert(i, (name, v));
            proof {
                assert(env@ =~= pre.update(i as int, (name, v)));
                assert forall|x: Seq<char>| x != name@ implies #[trigger] env_lookup(env@, x) == env_lookup(pre, x) by {
                    lemma_env_index(pre, name@);
                    lemma_lookup_frame(env@, pre, x);
                }
                lemma_env_index(env@, name@);
                assert forall|j: int| 0 <= j < i implies env@[j].0@ != name@ by {
                    assert(env@[j] == pre[j]);
                }
                assert(env_index(env@, name@) == Some(i as int)) by {
                    lemma_env_index(env@, name@);
                    match env_index(env@, name@) {
                        Some(k) => {
                            if k < i as int {
                                assert(env@[k].0@ != name@);
                            }
                            if k > i as int {
                                assert(env@[i as int].0@ == name@);
                            }
                        }
                        None => {
                            assert(env@[i as int].0@ == name@);
                        }
                    }
                }
            }
            Some(old_v)
        }
        None => {
            let ghost pre = env@;
            env.push((name, v));
            proof {
                assert forall|x: Seq<char>| x != name@ implies #[trigger] env_lookup(env@, x) == env_lookup(pre, x) by {
                    lemma_lookup_push(pre, env@.last(), x);
                    assert(env@ =~= pre.push(env@.last()));
                }
                lemma_env_index(env@, name@);
                assert forall|j: int| 0 <= j < pre.len() implies env@[j].0@ != name@ by {
                    assert(env@[j] == pre[j]);
                }
                match env_index(env@, name@) {
                    Some(k) => {
                        if k < pre.len() {
                            assert(env@[k].0@ != name@);
                        }
                    }
                    None => {
                        assert(env@[pre.len() as int].0@ == name@);
                    }
                }
            }
            None
        }
    }
}

/// Remove the binding of `name`, if any.
pub fn env_remove(env: &mut Env, name: &String)
    ensures
        env_lookup(final(env)@, name@).is_none(),
        env_wf(old(env)@) ==> env_wf(final(env)@),
        forall|x: Seq<char>| x != name@ ==> (#[trigger] env_has(final(env)@, x) == env_has(old(env)@, x)),
        forall|x: Seq<char>| x != name@ ==> #[trigger] env_lookup(final(env)@, x) == env_lookup(old(env)@, x),
{
    let ghost was_wf = env_wf(env@);
    let ghost start = env@;
    proof {
        lemma_env_index(env@, name@);
    }
    let mut i: usize = 0;
    while i < env.len()
        invariant
            i <= env@.len(),
            forall|j: int| 0 <= j < i ==> env@[j].0@ != name@,
            was_wf ==> env_wf(env@),
            forall|x: Seq<char>| x != name@ ==> (#[trigger] entry_named(env@, x) == entry_named(start, x)),
            forall|x: Seq<char>| x != name@ ==> #[trigger] env_lookup(env@, x) == env_lookup(start, x),
        decreases env@.len() - i,
    {
        if env[i].0 == *name {
            let ghost pre = env@;
            env.remove(i);
            proof {
                assert forall|x: Seq<char>| x != name@ implies #[trigger] env_lookup(env@, x) == env_lookup(start, x) by {
                    lemma_lookup_remove(pre, i as int, x);
                }
                assert forall|j: int| 0 <= j < i implies env@[j].0@ != name@ by {
                    assert(env@[j] == pre[j]);
                }
                assert forall|x: Seq<char>| x != name@ implies (#[trigger] entry_named(env@, x) == entry_named(pre, x)) by {
                    if entry_named(pre, x) {
                        let j = choose|j: int| 0 <= j < pre.len() && #[trigger] pre[j].0@ == x;
                        if j < i {
                            assert(env@[j] == pre[j]);
                        } else if j > i {
                            assert(env@[j - 1] == pre[j]);
                        }
                    }
                    if entry_named(env@, x) {
                        let j = choose|j: int| 0 <= j < env@.len() && #[trigger] env@[j].0@ == x;
                        if j < i {
                            assert(env@[j] == pre[j]);
                        } else {
                            assert(env@[j] == pre[j + 1]);
                        }
                    }
                }
                if was_wf {
                    assert forall|j: int| 0 <= j < env@.len() implies wf_val(#[trigger] env@[j].1) by {
                        if j < i {
                            assert(env@[j] == pre[j]);
                        } else {
                            assert(env@[j] == pre[j + 1]);
                        }
                    }
                }
            }
        } else {
            i += 1;
        }
    }
    proof {
        lemma_env_index(env@, name@);
        assert forall|x: Seq<char>| x != name@ implies (#[trigger] env_has(env@, x) == env_has(start, x)) by {
            lemma_env_has(env@, x);
            lemma_env_has(start, x);
            assert(entry_named(env@, x) == entry_named(start, x));
        }
    }
}

/// Restore `name`'s binding to what it was before a shadowing insert.
pub fn env_restore(env: &mut Env, name: String, prev: Option<ConstVal>)
    requires
        prev matches Some(v) ==> wf_val(v),
    ensures
        env_lookup(final(env)@, name@) == prev,
        env_wf(old(env)@) ==> env_wf(final(env)@),
        forall|x: Seq<char>| x != name@ ==> (#[trigger] env_has(final(env)@, x) == env_has(old(env)@, x)),
        forall|x: Seq<char>| x != name@ ==> #[trigger] env_lookup(final(env)@, x) == env_lookup(old(env)@, x),
{
    match prev {
        Some(v) => {
            env_insert(env, name, v);
        }
        None => {
            env_remove(env, &name);
        }
    }
}

/// A copy of a whole environment.
pub fn copy_env(env: &Env) -> (r: Env)
    ensures
        r@.len() == env@.len(),
        forall|i: int| 0 <= i < env@.len() ==> r@[i].0@ == env@[i].0@ && same_val(r@[i].1, env@[i].1),
        env_wf(env@) ==> env_wf(r@),
{
    let mut r: Env = Vec::new();
    let mut i: usize = 0;
    while i < env.len()
        invariant
            i <= env@.len(),
            r@.len() == i,
            forall|k: int| 0 <= k < i ==> r@[k].0@ == env@[k].0@ && same_val(r@[k].1, env@[k].1),
        decreases env@.len() - i,
    {
        let name = env[i].0.clone();
        let v = copy_val(&env[i].1);
        r.push((name, v));
        i += 1;
    }
    proof {
        if env_wf(env@) {
            assert forall|k: int| 0 <= k < r@.len() implies wf_val(#[trigger] r@[k].1) by {
                lemma_same_val_wf(r@[k].1, env@[k].1);
            }
        }
    }
    r
}

/// The clog2 law: the bits needed to address `n` items, floored at one —
/// the least `w >= 1` with `n <= 2^w`.
pub open spec fn is_clog2(n: u128, w: u32) -> bool {
    &&& w >= 1
    &&& n <= pow2(w as nat)
    &&& w > 1 ==> pow2((w - 1) as nat) < n
}

/// The clog2 law over integers: `w` is the least width of at least one
/// with `n <= 2^w`.
pub open spec fn clog2_law(n: int, w: int) -> bool {
    &&& w >= 1
    &&& n <= pow2(w as nat)
    &&& w > 1 ==> pow2((w - 1) as nat) < n
}

/// `2^127` and `2^128` as concrete numbers.
proof fn lemma_pow2_top()
    ensures
        pow2(127) == 0x8000_0000_0000_0000_0000_0000_0000_0000,
        pow2(128) == 0x1_0000_0000_0000_0000_0000_0000_0000_0000,
{
    vstd::arithmetic::power2::lemma2_to64();
    vstd::arithmetic::power2::lemma2_to64_rest();
    vstd::arithmetic::power2::lemma_pow2_adds(63, 64);
    vstd::arithmetic::power2::lemma_pow2_adds(64, 64);
}

/// Bits needed to address `n` items — `ceil(log2(n))`, floored at 1.
pub fn clog2_bits(n: u128) -> (w: u32)
    ensures
        is_clog2(n, w),
        w <= 128,
{
    let mut w: u32 = 1;
    let mut p: u128 = 2;
    proof {
        vstd::arithmetic::power2::lemma2_to64();
    }
    while w < 127
        invariant
            1 <= w <= 127,
            p as nat == pow2(w as nat),
            w > 1 ==> pow2((w - 1) as nat) < n,
        decreases 127 - w,
    {
        if n <= p {
            return w;
        }
        proof {
            lemma_pow2_unfold((w + 1) as nat);
            vstd::arithmetic::power2::lemma_pow2_strictly_increases(w as nat, 127);
            lemma_pow2_top();
        }
        p = p * 2;
        w += 1;
    }
    if n <= p {
        return w;
    }
    proof {
        lemma_pow2_top();
    }
    128
}

/// Diagnostic for a non-constant expression: `what` is not a
/// compile-time constant, with `why` as the help line.
fn not_const(e: &Expr, what: &str, why: &str) -> (d: Diag)
    ensures
        d.code == Some("E0201"),
        d.file.is_none(),
        d.help.is_some(),
        d.span == e.span,
        d.msg@ == what@ + " is not a compile-time constant"@,
{
    proof { reveal_with_fuel(crate::text::concat_views, 3); }
    Diag::new(e.span, cat(&[what, " is not a compile-time constant"]))
        .with_code("E0201")
        .with_help(owned(why))
}

/// Diagnostic for a constant past `MAX_WIDTH`.
fn overflow(e: &Expr) -> (d: Diag)
    ensures
        d.code == Some("E0202"),
        d.file.is_none(),
        d.help.is_some(),
        d.span == e.span,
{
    Diag::new(e.span, owned("constant is too large"))
        .with_code("E0202")
        .with_help(owned(
            "compile-time arithmetic works on values up to 1000000 bits — the same ceiling every signal width is checked against",
        ))
}

/// Whether every value bound in `env` is a well-formed constant.
pub open spec fn env_wf(env: Seq<(String, ConstVal)>) -> bool {
    forall|i: int| 0 <= i < env.len() ==> wf_val(#[trigger] env[i].1)
}

proof fn lemma_env_lookup_wf(env: Seq<(String, ConstVal)>, name: Seq<char>)
    requires
        env_wf(env),
    ensures
        env_lookup(env, name) matches Some(v) ==> wf_val(v),
{
    lemma_env_index(env, name);
}

/// Whether a constant is one of the two one-bit truth values.
pub open spec fn is_truth_value(v: ConstVal) -> bool {
    v == spec_from_bool(true) || v == spec_from_bool(false)
}

/// Whether `d` is an evaluation error: E0201 or E0202, with a help line
/// and no file yet (the caller stamps the file).
pub open spec fn eval_error(d: Diag) -> bool {
    &&& (d.code == Some("E0201") || d.code == Some("E0202"))
    &&& d.file.is_none()
    &&& d.help.is_some()
}

/// Whether an expression form never const-evaluates.
pub open spec fn never_const(k: ExprKind) -> bool {
    match k {
        ExprKind::Field { .. } | ExprKind::Match { .. } | ExprKind::Concat(_)
        | ExprKind::Replicate { .. } | ExprKind::Index { .. } | ExprKind::Slice { .. }
        | ExprKind::FnCall { .. } | ExprKind::BundleLit(_) | ExprKind::ArrayLit(_)
        | ExprKind::EnumConstruct { .. } => true,
        ExprKind::Call { func, .. } => func != Builtin::Clog2,
        ExprKind::Unary { op, .. } => op != UnOp::Neg && op != UnOp::LogicNot,
        ExprKind::Binary { op, .. } => op == BinOp::AddWrap || op == BinOp::SubWrap || op == BinOp::MulWrap,
        _ => false,
    }
}

/// Whether a binary operator yields a truth value.
pub open spec fn is_truth_op(op: BinOp) -> bool {
    match op {
        BinOp::Eq | BinOp::Ne | BinOp::Lt | BinOp::Le | BinOp::Gt | BinOp::Ge
        | BinOp::LogicAnd | BinOp::LogicOr => true,
        _ => false,
    }
}

/// Bit `i` of `v` sign-extended past its width (a negative value's
/// extension bits are its top bit).
pub open spec fn ext_bit(v: ConstVal, i: int) -> bool {
    if i < v.width { bits_bit(v.bits, i) } else { v.signed && v.width >= 1 && bits_bit(v.bits, v.width - 1) }
}

/// The number bits `0..n` of `v` spell, bits past its width read as its
/// sign.
pub open spec fn ext_sum(v: ConstVal, n: nat) -> nat
    decreases n,
{
    if n == 0 {
        0
    } else {
        ext_sum(v, (n - 1) as nat) + if ext_bit(v, n - 1) { pow2((n - 1) as nat) } else { 0 }
    }
}

/// The integer a constant stands for: its pattern read unsigned, less
/// `2^width` when it is negative.
pub open spec fn const_value(v: ConstVal) -> int {
    ext_sum(v, v.width as nat) - if v.signed { pow2(v.width as nat) as int } else { 0 }
}

/// A pattern that agrees with `v` on its low `n` bits spells the same
/// number there.
proof fn lemma_sums_agree(s: Seq<u64>, v: ConstVal, n: nat)
    requires
        forall|i: int| 0 <= i < n ==> #[trigger] wide::limb_bit(s, i) == ext_bit(v, i),
    ensures
        wide::bit_sum(s, n) == ext_sum(v, n),
    decreases n,
{
    if n > 0 {
        lemma_sums_agree(s, v, (n - 1) as nat);
        assert(wide::limb_bit(s, n - 1) == ext_bit(v, n - 1));
    }
}

/// `n` bits spell less than `2^n`; at least `2^(n-1)` exactly when the
/// top one is set.
proof fn lemma_ext_sum_bound(v: ConstVal, n: nat)
    ensures
        ext_sum(v, n) < pow2(n),
        n >= 1 && ext_bit(v, n - 1) ==> ext_sum(v, n) >= pow2((n - 1) as nat),
        n >= 1 && !ext_bit(v, n - 1) ==> ext_sum(v, n) < pow2((n - 1) as nat),
    decreases n,
{
    if n == 0 {
        lemma2_to64();
    } else {
        lemma_ext_sum_bound(v, (n - 1) as nat);
        lemma_pow2_unfold(n);
    }
}

/// Past its width a well-formed constant's bits are all its sign.
proof fn lemma_ext_sum_tail(v: ConstVal, n: nat)
    requires
        canonical(v),
        n >= v.width,
    ensures
        ext_sum(v, n) as int == ext_sum(v, v.width as nat) as int
            + if v.signed { pow2(n) as int - pow2(v.width as nat) as int } else { 0 },
    decreases n,
{
    if n > v.width {
        lemma_ext_sum_tail(v, (n - 1) as nat);
        lemma_pow2_unfold(n);
        assert(ext_bit(v, n - 1) == v.signed);
    }
}

/// The range a well-formed constant's value lies in, and the least
/// magnitude its minimal width forces.
proof fn lemma_value_range(v: ConstVal)
    requires
        canonical(v),
    ensures
        !v.signed ==> 0 <= const_value(v) < pow2(v.width as nat),
        v.signed ==> -(pow2((v.width - 1) as nat) as int) <= const_value(v) < 0,
        !v.signed && v.width >= 2 ==> const_value(v) >= pow2((v.width - 1) as nat),
        v.signed && v.width >= 2 ==> const_value(v) < -(pow2((v.width - 2) as nat) as int),
{
    let w = v.width as nat;
    lemma_ext_sum_bound(v, w);
    lemma_pow2_unfold(w);
    if v.signed {
        assert(ext_bit(v, w - 1));
        if w >= 2 {
            lemma_ext_sum_bound(v, (w - 1) as nat);
            lemma_pow2_unfold((w - 1) as nat);
            assert(!ext_bit(v, w - 2));
        }
    } else if w >= 2 {
        assert(ext_bit(v, w - 1));
    }
}

/// A pattern that agrees with `v` on its low `big_w` bits spells `v`'s
/// value modulo `2^big_w`.
proof fn lemma_pattern_mod(s: Seq<u64>, v: ConstVal, big_w: nat)
    requires
        canonical(v),
        big_w >= v.width,
        forall|i: int| 0 <= i < big_w ==> #[trigger] wide::limb_bit(s, i) == ext_bit(v, i),
    ensures
        (wide::limbs_value(s) as int) % (pow2(big_w) as int) == const_value(v) % (pow2(big_w) as int),
{
    wide::lemma_value_bit_sum(s, big_w);
    lemma_sums_agree(s, v, big_w);
    lemma_ext_sum_tail(v, big_w);
    lemma_ext_sum_bound(v, big_w);
    lemma_pow2_pos(big_w);
    let p = pow2(big_w) as int;
    let e = ext_sum(v, big_w) as int;
    vstd::arithmetic::div_mod::lemma_fundamental_div_mod_converse(const_value(v), p, if v.signed { -1int } else { 0int }, e);
    assert((wide::limbs_value(s) as int) % p == e);
}

/// Two values in `[-h, h)` that agree modulo `2h` are equal.
proof fn lemma_congruent_eq(a: int, b: int, h: int)
    requires
        h > 0,
        -h <= a < h,
        -h <= b < h,
        a % (2 * h) == b % (2 * h),
    ensures
        a == b,
{
    let p = 2 * h;
    vstd::arithmetic::div_mod::lemma_fundamental_div_mod(a, p);
    vstd::arithmetic::div_mod::lemma_fundamental_div_mod(b, p);
    let qa = a / p;
    let qb = b / p;
    assert(a - b == (qa - qb) * p) by (nonlinear_arith)
        requires a == p * qa + a % p, b == p * qb + b % p, a % p == b % p;
    if qa > qb {
        assert(a - b >= p) by (nonlinear_arith)
            requires a - b == (qa - qb) * p, qa - qb >= 1, p > 0;
    } else if qa < qb {
        assert(b - a >= p) by (nonlinear_arith)
            requires a - b == (qa - qb) * p, qb - qa >= 1, p > 0;
    } else {
        assert(a - b == 0) by (nonlinear_arith)
            requires a - b == (qa - qb) * p, qa == qb;
    }
}

/// A `big_w`-bit pattern that agrees with well-formed `c` below `big_w`,
/// whose top bit is `c`'s sign, and which spells `x` modulo `2^big_w`
/// for an `x` that `big_w` signed bits hold, makes `c` stand for `x`.
proof fn lemma_pattern_exact(s: Seq<u64>, c: ConstVal, big_w: nat, x: int)
    requires
        canonical(c),
        c.width <= big_w,
        big_w >= 2,
        c.signed == wide::limb_bit(s, big_w - 1),
        forall|i: int| 0 <= i < big_w ==> #[trigger] wide::limb_bit(s, i) == ext_bit(c, i),
        (wide::limbs_value(s) as int) % (pow2(big_w) as int) == x % (pow2(big_w) as int),
        -(pow2((big_w - 1) as nat) as int) <= x < pow2((big_w - 1) as nat),
    ensures
        const_value(c) == x,
{
    lemma_pattern_mod(s, c, big_w);
    lemma_value_range(c);
    lemma_pow2_unfold(big_w);
    let h = pow2((big_w - 1) as nat) as int;
    assert(ext_bit(c, big_w - 1) == wide::limb_bit(s, big_w - 1));
    if c.signed {
        if c.width < big_w {
            lemma_pow2_strictly_increases((c.width - 1) as nat, (big_w - 1) as nat);
        }
    } else {
        assert(c.width < big_w);
        if c.width < big_w - 1 {
            lemma_pow2_strictly_increases(c.width as nat, (big_w - 1) as nat);
        }
    }
    lemma_congruent_eq(const_value(c), x, h);
}

/// A `u128` as two little-endian limbs.
pub open spec fn u128_limbs(x: u128) -> Seq<u64> {
    seq![x as u64, (x >> 64u128) as u64]
}

/// The two limbs of a `u128` spell it, bit for bit.
proof fn lemma_u128_limbs(x: u128)
    ensures
        wide::limbs_value(u128_limbs(x)) == x,
        forall|i: int| 0 <= i < 128 ==> #[trigger] wide::limb_bit(u128_limbs(x), i) == bit128(x, i as u128),
{
    let l0 = x as u64;
    let l1 = (x >> 64u128) as u64;
    let s = u128_limbs(x);
    assert(x == (l0 as u128) + (l1 as u128) * 0x1_0000_0000_0000_0000u128) by (bit_vector)
        requires l0 == x as u64, l1 == (x >> 64u128) as u64;
    assert(s.drop_first() =~= seq![l1]);
    assert(seq![l1].drop_first() =~= Seq::<u64>::empty());
    assert(wide::limbs_value(Seq::<u64>::empty()) == 0);
    assert(wide::limbs_value(seq![l1]) == l1);
    assert forall|i: int| 0 <= i < 128 implies #[trigger] wide::limb_bit(s, i) == bit128(x, i as u128) by {
        let bb = (i % 64) as u64;
        assert((((l0 >> bb) & 1u64 == 1u64) == ((x >> (bb as u128)) & 1u128 == 1u128))
            && (((l1 >> bb) & 1u64 == 1u64) == ((x >> (bb as u128 + 64)) & 1u128 == 1u128))) by (bit_vector)
            requires bb < 64, l0 == x as u64, l1 == (x >> 64u128) as u64;
    }
}

/// `2^128`.
proof fn lemma_pow2_128()
    ensures
        pow2(128) == 0x1_0000_0000_0000_0000_0000_0000_0000_0000,
{
    vstd::arithmetic::power2::lemma2_to64_rest();
    vstd::arithmetic::power2::lemma_pow2_adds(64, 64);
}

/// An unsigned `Small` constant stands for its `u128`.
proof fn lemma_small_value(v: ConstVal)
    requires
        canonical(v),
        !v.signed,
        v.bits is Small,
    ensures
        const_value(v) == v.bits->Small_0 as int,
{
    let x = v.bits->Small_0;
    let s = u128_limbs(x);
    lemma_u128_limbs(x);
    assert forall|i: int| 0 <= i < 128 implies #[trigger] wide::limb_bit(s, i) == ext_bit(v, i) by {
        if i >= v.width {
            assert(!bits_bit(v.bits, i));
        }
    }
    lemma_pattern_mod(s, v, 128);
    lemma_value_range(v);
    lemma_pow2_128();
    if v.width < 128 {
        lemma_pow2_strictly_increases(v.width as nat, 128);
    }
    vstd::arithmetic::div_mod::lemma_small_mod(x as nat, pow2(128));
    vstd::arithmetic::div_mod::lemma_small_mod(const_value(v) as nat, pow2(128));
}

/// A constant of at most 128 bits whose sign-extended bits are those of
/// an `i128` stands for that `i128`.
proof fn lemma_i128_value(c: ConstVal, v: i128)
    requires
        wf_val(c),
        c.width <= 128,
        c.signed == ext_bit(c, 127),
        forall|i: int| 0 <= i < 128 ==> #[trigger] ext_bit(c, i) == bit128(v as u128, i as u128),
    ensures
        const_value(c) == v,
{
    let u = v as u128;
    let s = u128_limbs(u);
    lemma_u128_limbs(u);
    lemma_pow2_128();
    assert((u as int) == (if v < 0 { v as int + 0x1_0000_0000_0000_0000_0000_0000_0000_0000 } else { v as int })) by (bit_vector)
        requires u == v as u128;
    assert(((u >> 127u128) & 1u128 == 1u128) == (v < 0)) by (bit_vector)
        requires u == v as u128;
    if v < 0 {
        vstd::arithmetic::div_mod::lemma_mod_multiples_vanish(1, v as int, pow2(128) as int);
    }
    assert(ext_bit(c, 127) == bit128(u, 127));
    lemma_pow2_unfold(128);
    lemma_pattern_exact(s, c, 128, v as int);
}

/// A well-formed constant is the pattern `0` exactly when it stands for 0.
pub proof fn lemma_zero_value(v: ConstVal)
    requires
        canonical(v),
    ensures
        spec_is_zero(v) <==> const_value(v) == 0,
{
    lemma_value_range(v);
    if spec_is_zero(v) {
        assert(!bits_bit(v.bits, v.width - 1)) by {
            lemma_zero_bit128((v.width - 1) as u128);
        }
        lemma_small_value(v);
    }
    if const_value(v) == 0 {
        lemma_pow2_pos((v.width - 1) as nat);
        assert(!v.signed);
        assert(v.width == 1);
        assert(v.bits is Small);
        lemma_small_value(v);
    }
}

/// `2^a <= 2^b` for `a <= b`.
proof fn lemma_pow2_le(a: nat, b: nat)
    requires
        a <= b,
    ensures
        pow2(a) <= pow2(b),
{
    if a < b {
        lemma_pow2_strictly_increases(a, b);
    }
}

/// Constants whose bits agree everywhere spell the same low numbers.
proof fn lemma_ext_sum_same(a: ConstVal, b: ConstVal, n: nat)
    requires
        forall|i: int| 0 <= i ==> #[trigger] ext_bit(a, i) == ext_bit(b, i),
    ensures
        ext_sum(a, n) == ext_sum(b, n),
    decreases n,
{
    if n > 0 {
        lemma_ext_sum_same(a, b, (n - 1) as nat);
        assert(ext_bit(a, n - 1) == ext_bit(b, n - 1));
    }
}

/// Constants with the same pattern, width and sign stand for the same
/// integer.
proof fn lemma_same_val_value(a: ConstVal, b: ConstVal)
    requires
        same_val(a, b),
    ensures
        const_value(a) == const_value(b),
{
    assert forall|i: int| 0 <= i implies #[trigger] ext_bit(a, i) == ext_bit(b, i) by {
        assert(bits_bit(a.bits, i) == bits_bit(b.bits, i));
        assert(bits_bit(a.bits, a.width - 1) == bits_bit(b.bits, b.width - 1));
    }
    lemma_ext_sum_same(a, b, a.width as nat);
}

/// The range of a well-formed constant's value, loosened to `m` bits
/// for any `m` at least its width.
proof fn lemma_value_within(v: ConstVal, m: nat)
    requires
        canonical(v),
        v.width <= m,
    ensures
        -(pow2((m - 1) as nat) as int) <= const_value(v) < pow2(m),
        -(pow2(m) as int) < const_value(v),
{
    lemma_value_range(v);
    lemma_pow2_le(v.width as nat, m);
    lemma_pow2_le((v.width - 1) as nat, (m - 1) as nat);
    lemma_pow2_unfold(m);
    lemma_pow2_pos((m - 1) as nat);
}

/// The pattern a `+`, `-` or `*` of two constants leaves at `sw` bits
/// spells the exact sum, difference or product modulo `2^sw`.
proof fn lemma_arith_congruent(
    l: ConstVal,
    r: ConstVal,
    la: Seq<u64>,
    ra: Seq<u64>,
    res: Seq<u64>,
    sw: u32,
    x: int,
    op: BinOp,
)
    requires
        wf_val(l),
        wf_val(r),
        l.width <= sw,
        r.width <= sw,
        sw >= 2,
        forall|i: int| 0 <= i < sw ==> #[trigger] wide::limb_bit(la, i) == ext_bit(l, i),
        forall|i: int| 0 <= i < sw ==> #[trigger] wide::limb_bit(ra, i) == ext_bit(r, i),
        op == BinOp::Add ==> wide::pattern_value(res, sw) == (wide::limbs_value(la) + wide::limbs_value(ra)) % pow2(sw as nat),
        op == BinOp::Sub ==> wide::pattern_value(res, sw) == (wide::limbs_value(la) - wide::limbs_value(ra)) % (pow2(sw as nat) as int),
        op == BinOp::Mul ==> wide::pattern_value(res, sw) == (wide::limbs_value(la) * wide::limbs_value(ra)) % pow2(sw as nat),
        op == BinOp::Add || op == BinOp::Sub || op == BinOp::Mul,
        x == (if op == BinOp::Add { const_value(l) + const_value(r) } else if op == BinOp::Sub {
            const_value(l) - const_value(r)
        } else {
            const_value(l) * const_value(r)
        }),
    ensures
        (wide::limbs_value(res) as int) % (pow2(sw as nat) as int) == x % (pow2(sw as nat) as int),
{
    let w = sw as nat;
    lemma_pow2_pos(w);
    let p = pow2(w) as int;
    lemma_pattern_mod(la, l, w);
    lemma_pattern_mod(ra, r, w);
    let a = wide::limbs_value(la) as int;
    let b = wide::limbs_value(ra) as int;
    let cl = const_value(l);
    let cr = const_value(r);
    if op == BinOp::Add {
        vstd::arithmetic::div_mod::lemma_add_mod_noop(a, b, p);
        vstd::arithmetic::div_mod::lemma_add_mod_noop(cl, cr, p);
    } else if op == BinOp::Sub {
        vstd::arithmetic::div_mod::lemma_sub_mod_noop(a, b, p);
        vstd::arithmetic::div_mod::lemma_sub_mod_noop(cl, cr, p);
    } else {
        vstd::arithmetic::div_mod::lemma_mul_mod_noop(a, b, p);
        vstd::arithmetic::div_mod::lemma_mul_mod_noop(cl, cr, p);
    }
    assert((wide::limbs_value(res) as int) % p == x % p);
}

/// Patterns spelling the same low number agree bit by bit there.
proof fn lemma_ext_sum_inj(a: ConstVal, b: ConstVal, n: nat)
    requires
        ext_sum(a, n) == ext_sum(b, n),
    ensures
        forall|i: int| 0 <= i < n ==> #[trigger] ext_bit(a, i) == ext_bit(b, i),
    decreases n,
{
    if n > 0 {
        lemma_ext_sum_bound(a, n);
        lemma_ext_sum_bound(b, n);
        assert(ext_bit(a, n - 1) == ext_bit(b, n - 1));
        lemma_ext_sum_inj(a, b, (n - 1) as nat);
    }
}

/// Bounds a constant wider than `k` bits puts on its value.
proof fn lemma_wider_value(v: ConstVal, k: nat)
    requires
        canonical(v),
        1 <= k < v.width,
    ensures
        !v.signed ==> const_value(v) >= pow2(k),
        v.signed ==> const_value(v) < -(pow2((k - 1) as nat) as int),
{
    lemma_value_range(v);
    lemma_pow2_le(k, (v.width - 1) as nat);
    lemma_pow2_le((k - 1) as nat, (v.width - 2) as nat);
}

/// Each integer has one well-formed constant: two that stand for the
/// same value have the same width, sign and bits.
pub proof fn lemma_value_determines(a: ConstVal, b: ConstVal)
    requires
        canonical(a),
        canonical(b),
        const_value(a) == const_value(b),
    ensures
        a.width == b.width,
        a.signed == b.signed,
        forall|i: int| #[trigger] bits_bit(a.bits, i) == bits_bit(b.bits, i),
        a.width <= 128 ==> a.bits == b.bits,
{
    lemma_value_range(a);
    lemma_value_range(b);
    if a.width < b.width {
        lemma_wider_value(b, a.width as nat);
    }
    if b.width < a.width {
        lemma_wider_value(a, b.width as nat);
    }
    assert(a.width == b.width);
    lemma_ext_sum_inj(a, b, a.width as nat);
    assert forall|i: int| #[trigger] bits_bit(a.bits, i) == bits_bit(b.bits, i) by {
        if 0 <= i < a.width {
            assert(ext_bit(a, i) == ext_bit(b, i));
        }
    }
    if a.width <= 128 {
        let x = a.bits->Small_0;
        let y = b.bits->Small_0;
        assert forall|k: u128| k < 128 implies #[trigger] bit128(x, k) == bit128(y, k) by {
            assert(bits_bit(a.bits, k as int) == bits_bit(b.bits, k as int));
        }
        bits::lemma_u128_eq_bits(x, y);
    }
}

/// A pattern holding `v`'s bits moved up by `amt` spells `2^amt` times
/// `v`'s low number.
proof fn lemma_shifted_sum(s: Seq<u64>, v: ConstVal, amt: nat, n: nat)
    requires
        forall|k: int| 0 <= k < n ==> #[trigger] wide::limb_bit(s, k) == (k >= amt && ext_bit(v, k - amt)),
    ensures
        wide::bit_sum(s, n) == if n >= amt { pow2(amt) * ext_sum(v, (n - amt) as nat) } else { 0 },
    decreases n,
{
    assert(pow2(amt) * ext_sum(v, 0) == 0) by (nonlinear_arith)
        requires ext_sum(v, 0) == 0;
    if n > 0 {
        let m = (n - 1) as nat;
        lemma_shifted_sum(s, v, amt, m);
        assert(wide::limb_bit(s, m as int) == (m >= amt && ext_bit(v, m - amt)));
        if m >= amt {
            let j = (m - amt) as nat;
            vstd::arithmetic::power2::lemma_pow2_adds(amt, j);
            assert(amt + j == m);
            let t: nat = if ext_bit(v, j as int) { pow2(j) } else { 0 };
            assert(ext_sum(v, (n - amt) as nat) == ext_sum(v, j) + t);
            assert(pow2(amt) * (ext_sum(v, j) + t) == pow2(amt) * ext_sum(v, j) + pow2(amt) * t) by (nonlinear_arith);
            if ext_bit(v, j as int) {
                assert(pow2(amt) * t == pow2(m));
            } else {
                assert(pow2(amt) * t == 0) by (nonlinear_arith)
                    requires t == 0;
            }
        }
    }
}

/// A left shift by `amt` of `l`, built at `sw = l.width + amt + 1` bits
/// and shrunk into `c`, stands for `l`'s value times `2^amt`.
proof fn lemma_shl_value(l: ConstVal, res: Seq<u64>, amt: nat, sw: u32)
    requires
        wf_val(l),
        sw == l.width + amt + 1,
        forall|k: int| 0 <= k < sw ==> #[trigger] wide::limb_bit(res, k) == (k >= amt && ext_bit(l, k - amt)),
    ensures
        (wide::limbs_value(res) as int) % (pow2(sw as nat) as int) == (const_value(l) * pow2(amt)) % (pow2(sw as nat) as int),
        -(pow2((sw - 1) as nat) as int) <= const_value(l) * pow2(amt) < pow2((sw - 1) as nat),
        fits_width(const_value(l) * pow2(amt), sw - 1),
{
    let w = sw as nat;
    let x = const_value(l) * pow2(amt);
    lemma_shifted_sum(res, l, amt, w);
    wide::lemma_value_bit_sum(res, w);
    lemma_ext_sum_tail(l, (l.width + 1) as nat);
    vstd::arithmetic::power2::lemma_pow2_adds(amt, (l.width + 1) as nat);
    lemma_pow2_pos(w);
    lemma_pow2_pos(amt);
    let p = pow2(w) as int;
    let sg: int = if l.signed { 1 } else { 0 };
    let e = ext_sum(l, (l.width + 1) as nat) as int;
    assert(e == const_value(l) + sg * pow2((l.width + 1) as nat)) by {
        lemma_pow2_unfold((l.width + 1) as nat);
    }
    let bs = wide::bit_sum(res, w) as int;
    assert(bs == pow2(amt) * e);
    assert(bs == x + sg * p) by (nonlinear_arith)
        requires bs == pow2(amt) * e, e == const_value(l) + sg * pow2((l.width + 1) as nat),
            p == pow2(amt) * pow2((l.width + 1) as nat), x == const_value(l) * pow2(amt);
    vstd::arithmetic::div_mod::lemma_mod_multiples_vanish(-sg, bs, p);
    assert(x == p * (-sg) + bs) by (nonlinear_arith)
        requires bs == x + sg * p;
    vstd::arithmetic::div_mod::lemma_mod_pos_bound(wide::limbs_value(res) as int, p);
    vstd::arithmetic::div_mod::lemma_small_mod(bs as nat, p as nat);
    assert(x % p == bs);
    assert((wide::limbs_value(res) as int) % p == bs);
    lemma_value_within(l, l.width as nat);
    lemma_pow2_le((l.width - 1) as nat, l.width as nat);
    vstd::arithmetic::power2::lemma_pow2_adds(amt, l.width as nat);
    vstd::arithmetic::power2::lemma_pow2_adds(amt, (l.width - 1) as nat);
    let a = const_value(l);
    let pa = pow2(amt) as int;
    assert(-(pa * pow2((l.width - 1) as nat)) <= a * pa < pa * pow2(l.width as nat)) by (nonlinear_arith)
        requires -(pow2((l.width - 1) as nat) as int) <= a < pow2(l.width as nat), pa > 0;
    lemma_pow2_le((amt + l.width - 1) as nat, (sw - 1) as nat);
    assert(amt + l.width == sw - 1);
}

/// When `c`'s bits are `l`'s from `amt` up, `l`'s low number splits
/// into its low `amt` bits and `2^amt` times `c`'s.
proof fn lemma_split_sum(l: ConstVal, c: ConstVal, amt: nat, n: nat)
    requires
        forall|k: int| 0 <= k ==> #[trigger] ext_bit(c, k) == ext_bit(l, k + amt),
    ensures
        ext_sum(l, n + amt) == ext_sum(l, amt) + pow2(amt) * ext_sum(c, n),
    decreases n,
{
    if n == 0 {
        assert(pow2(amt) * ext_sum(c, 0) == 0) by (nonlinear_arith)
            requires ext_sum(c, 0) == 0;
    } else {
        let m = (n - 1) as nat;
        lemma_split_sum(l, c, amt, m);
        assert(ext_bit(c, m as int) == ext_bit(l, (m + amt) as int));
        vstd::arithmetic::power2::lemma_pow2_adds(amt, m);
        assert((n + amt - 1) as nat == m + amt);
        let t: nat = if ext_bit(c, m as int) { pow2(m) } else { 0 };
        assert(pow2(amt) * (ext_sum(c, m) + t) == pow2(amt) * ext_sum(c, m) + pow2(amt) * t) by (nonlinear_arith);
        if !ext_bit(c, m as int) {
            assert(pow2(amt) * t == 0) by (nonlinear_arith)
                requires t == 0;
        }
    }
}

/// A constant holding `l`'s bits from `amt` up, with `l`'s sign, stands
/// for `l`'s value divided by `2^amt`, rounded down.
proof fn lemma_shr_value(l: ConstVal, c: ConstVal, amt: nat)
    requires
        wf_val(l),
        wf_val(c),
        c.signed == l.signed,
        c.width <= l.width,
        forall|k: int| 0 <= k ==> #[trigger] ext_bit(c, k) == ext_bit(l, k + amt),
    ensures
        const_value(c) == const_value(l) / (pow2(amt) as int),
{
    let w = l.width as nat;
    lemma_split_sum(l, c, amt, w);
    lemma_ext_sum_tail(l, w + amt);
    lemma_ext_sum_tail(c, w);
    lemma_ext_sum_bound(l, amt);
    lemma_pow2_pos(amt);
    vstd::arithmetic::power2::lemma_pow2_adds(w, amt);
    let sg: int = if l.signed { 1 } else { 0 };
    let pa = pow2(amt) as int;
    let pw = pow2(w) as int;
    let el = ext_sum(l, (w + amt) as nat) as int;
    let lo = ext_sum(l, amt) as int;
    let ec = ext_sum(c, w) as int;
    assert(const_value(l) == el - sg * (pw * pa));
    assert(const_value(c) == ec - sg * pw);
    assert(el == lo + pa * ec);
    assert(const_value(l) == const_value(c) * pa + lo) by (nonlinear_arith)
        requires const_value(l) == el - sg * (pw * pa), const_value(c) == ec - sg * pw, el == lo + pa * ec;
    vstd::arithmetic::div_mod::lemma_fundamental_div_mod_converse(const_value(l), pa, const_value(c), lo);
}

/// Two constants agree bit for bit up to their comparison width exactly
/// when they stand for the same integer.
proof fn lemma_extension_value(l: ConstVal, r: ConstVal)
    requires
        wf_val(l),
        wf_val(r),
    ensures
        same_extension(l, r) <==> const_value(l) == const_value(r),
{
    let w = ((if l.width >= r.width { l.width } else { r.width }) + 1) as nat;
    if same_extension(l, r) {
        assert(ext_bit(l, w - 1) == ext_bit(r, w - 1));
        assert(ext_bit(l, w - 1) == l.signed);
        assert(ext_bit(r, w - 1) == r.signed);
        lemma_ext_sum_tail(l, w);
        lemma_ext_sum_tail(r, w);
        lemma_ext_sum_prefix(l, r, w);
    }
    if const_value(l) == const_value(r) {
        lemma_value_determines(l, r);
        assert forall|i: int| 0 <= i < w implies #[trigger] ext_bit(l, i) == ext_bit(r, i) by {
            assert(bits_bit(l.bits, i) == bits_bit(r.bits, i));
            assert(bits_bit(l.bits, l.width - 1) == bits_bit(r.bits, r.width - 1));
        }
    }
}

/// Constants whose bits agree below `n` spell the same number there.
proof fn lemma_ext_sum_prefix(a: ConstVal, b: ConstVal, n: nat)
    requires
        forall|i: int| 0 <= i < n ==> #[trigger] ext_bit(a, i) == ext_bit(b, i),
    ensures
        ext_sum(a, n) == ext_sum(b, n),
    decreases n,
{
    if n > 0 {
        lemma_ext_sum_prefix(a, b, (n - 1) as nat);
        assert(ext_bit(a, n - 1) == ext_bit(b, n - 1));
    }
}

/// At a width past both constants' own, their patterns' top bits are
/// their signs, and patterns of one sign order as the values do.
proof fn lemma_order_value(l: ConstVal, r: ConstVal, la: Seq<u64>, ra: Seq<u64>, w: u32)
    requires
        wf_val(l),
        wf_val(r),
        w == (if l.width >= r.width { l.width } else { r.width }) + 1,
        forall|i: int| 0 <= i < w ==> #[trigger] wide::limb_bit(la, i) == ext_bit(l, i),
        forall|i: int| 0 <= i < w ==> #[trigger] wide::limb_bit(ra, i) == ext_bit(r, i),
    ensures
        wide::limb_bit(la, w - 1) == l.signed,
        wide::limb_bit(ra, w - 1) == r.signed,
        l.signed && !r.signed ==> const_value(l) < const_value(r),
        !l.signed && r.signed ==> const_value(l) > const_value(r),
        l.signed == r.signed ==> (wide::width_sum(la, w) < wide::width_sum(ra, w) <==> const_value(l) < const_value(r)),
        l.signed == r.signed ==> (wide::width_sum(la, w) > wide::width_sum(ra, w) <==> const_value(l) > const_value(r)),
{
    assert(ext_bit(l, w - 1) == l.signed);
    assert(ext_bit(r, w - 1) == r.signed);
    lemma_value_range(l);
    lemma_value_range(r);
    lemma_sums_agree(la, l, w as nat);
    lemma_sums_agree(ra, r, w as nat);
    lemma_ext_sum_tail(l, w as nat);
    lemma_ext_sum_tail(r, w as nat);
}

/// Binary digit `i` of an integer (two's complement for negatives).
pub open spec fn int_bit(x: int, i: nat) -> bool {
    (x / (pow2(i) as int)) % 2 == 1
}

/// Past bit `i`, the low number's digit `i` stays bit `i`.
proof fn lemma_ext_sum_digit(v: ConstVal, i: nat, n: nat)
    requires
        n > i,
    ensures
        int_bit(ext_sum(v, n) as int, i) == ext_bit(v, i as int),
    decreases n,
{
    lemma_pow2_pos(i);
    let p = pow2(i) as int;
    if n == i + 1 {
        lemma_ext_sum_bound(v, i);
        let b: int = if ext_bit(v, i as int) { 1 } else { 0 };
        assert(ext_sum(v, n) as int == ext_sum(v, i) as int + b * p);
        vstd::arithmetic::div_mod::lemma_fundamental_div_mod_converse(ext_sum(v, n) as int, p, b, ext_sum(v, i) as int);
    } else {
        let m = (n - 1) as nat;
        lemma_ext_sum_digit(v, i, m);
        vstd::arithmetic::power2::lemma_pow2_adds(i, (m - i) as nat);
        lemma_pow2_unfold((m - i) as nat);
        let q = pow2((m - i - 1) as nat) as int;
        let b: int = if ext_bit(v, m as int) { 1 } else { 0 };
        let x = ext_sum(v, m) as int;
        assert(ext_sum(v, n) as int == x + (b * (2 * q)) * p) by (nonlinear_arith)
            requires ext_sum(v, n) as int == x + b * pow2(m) as int, pow2(m) as int == p * (2 * q);
        vstd::arithmetic::div_mod::lemma_hoist_over_denominator(x, b * (2 * q), p as nat);
        assert(b * (2 * q) == 2 * (b * q)) by (nonlinear_arith);
        vstd::arithmetic::div_mod::lemma_mod_multiples_vanish(b * q, x / p, 2);
    }
}

/// A well-formed constant's bits are the binary digits of its value.
pub proof fn lemma_bits_are_digits(v: ConstVal, i: nat)
    requires
        canonical(v),
    ensures
        int_bit(const_value(v), i) == ext_bit(v, i as int),
{
    let big_w = if i + 1 >= v.width { i + 2 } else { v.width as nat + 1 };
    lemma_ext_sum_tail(v, big_w);
    lemma_ext_sum_digit(v, i, big_w);
    lemma_pow2_pos(i);
    vstd::arithmetic::power2::lemma_pow2_adds(i, (big_w - i) as nat);
    vstd::arithmetic::power2::lemma_pow2_adds(v.width as nat, (big_w - v.width) as nat);
    lemma_pow2_unfold((big_w - i) as nat);
    let p = pow2(i) as int;
    let q = pow2((big_w - i - 1) as nat) as int;
    let sg: int = if v.signed { 1 } else { 0 };
    let e = ext_sum(v, big_w) as int;
    assert(const_value(v) == e - sg * pow2(big_w) as int);
    assert(const_value(v) == e + (-(sg * 2 * q)) * p) by (nonlinear_arith)
        requires const_value(v) == e - sg * pow2(big_w) as int, pow2(big_w) as int == p * (2 * q);
    vstd::arithmetic::div_mod::lemma_hoist_over_denominator(e, -(sg * 2 * q), p as nat);
    assert(-(sg * 2 * q) == 2 * (-(sg * q))) by (nonlinear_arith);
    vstd::arithmetic::div_mod::lemma_mod_multiples_vanish(-(sg * q), e / p, 2);
}

/// `v` re-expressed at `w` bits (sign-extended when negative).
fn extend_to(v: &ConstVal, w: u32) -> (r: Vec<u64>)
    ensures
        r@.len() == spec_limb_count(w),
        wf_val(*v) ==> forall|i: int| 0 <= i < w ==> #[trigger] wide::limb_bit(r@, i) == ext_bit(*v, i),
{
    let l = v.limbs();
    wide::extend(l.as_slice(), v.width, w, v.signed)
}

/// Shrink a raw `safe_width`-bit result to its minimal width, rejecting
/// `c` is a canonical constant whose bits are the `sw`-bit pattern `res`,
/// sign-extended from its top bit.
pub open spec fn grown_shape(c: ConstVal, res: Seq<u64>, sw: u32) -> bool {
    &&& canonical(c)
    &&& c.width <= sw
    &&& c.signed == wide::limb_bit(res, sw - 1)
    &&& forall|i: int| 0 <= i < sw ==> #[trigger] wide::limb_bit(res, i) == ext_bit(c, i)
}

/// Whether `k` two's-complement bits hold `x` (`k >= 1`).
pub open spec fn fits_width(x: int, k: int) -> bool {
    k >= 1 && -(pow2((k - 1) as nat) as int) <= x < pow2(k as nat)
}

/// What a grown result stands for: a `sw`-bit pattern spelling `x`
/// modulo `2^sw`, for an `x` that `sw` signed bits hold, comes back as
/// `x`, or is refused only when `MAX_WIDTH` bits cannot hold `x`.
proof fn lemma_grown_value(res: Seq<u64>, sw: u32, x: int, out: Result<ConstVal, Diag>)
    requires
        sw >= 2,
        (wide::limbs_value(res) as int) % (pow2(sw as nat) as int) == x % (pow2(sw as nat) as int),
        -(pow2((sw - 1) as nat) as int) <= x < pow2((sw - 1) as nat),
        out matches Ok(c) ==> grown_shape(c, res, sw),
        out is Err ==> exists|c: ConstVal| #[trigger] grown_shape(c, res, sw) && c.width > MAX_WIDTH,
    ensures
        out matches Ok(c) ==> const_value(c) == x,
        out is Err ==> !fits_max_width(x),
{
    if out is Ok {
        lemma_pattern_exact(res, out->Ok_0, sw as nat, x);
    } else {
        let c = choose|c: ConstVal| #[trigger] grown_shape(c, res, sw) && c.width > MAX_WIDTH;
        lemma_pattern_exact(res, c, sw as nat, x);
        lemma_wider_value(c, MAX_WIDTH as nat);
    }
}

/// it (E0202) past `MAX_WIDTH`.
fn grown_op(e: &Expr, result: Vec<u64>, safe_width: u32) -> (r: Result<ConstVal, Diag>)
    requires
        1 <= safe_width <= 2 * MAX_WIDTH + 2,
    ensures
        r matches Ok(v) ==> wf_val(v),
        r matches Ok(v) ==> v.width <= safe_width && v.signed == wide::limb_bit(result@, safe_width - 1),
        r matches Ok(v) ==> forall|i: int| 0 <= i < safe_width ==> #[trigger] wide::limb_bit(result@, i) == ext_bit(v, i),
        r matches Ok(v) ==> grown_shape(v, result@, safe_width),
        r matches Err(d) ==> eval_error(d) && d.code == Some("E0202"),
        r is Err ==> exists|c: ConstVal| #[trigger] grown_shape(c, result@, safe_width) && c.width > MAX_WIDTH,
{
    let ghost rv = result@;
    let result_bits = bits::from_limbs(result, safe_width);
    let negative = bits::top_bit_set(&result_bits, safe_width);
    let (shrunk, width, signed) = bits::shrink(&result_bits, safe_width, negative);
    let v = ConstVal { bits: shrunk, width, signed };
    proof {
        assert forall|i: int| 0 <= i < safe_width implies #[trigger] wide::limb_bit(rv, i) == ext_bit(v, i) by {
            assert(bits_bit(result_bits, i) == wide::limb_bit(rv, i));
            if !signed {
                assert(bits_bit(shrunk, i) == bits_bit(result_bits, i));
            } else if i < width {
                assert(bits_bit(shrunk, i) == bits_bit(result_bits, i));
            } else {
                assert(bits_bit(result_bits, i));
                assert(bits_bit(shrunk, width - 1) == bits_bit(result_bits, width - 1));
                assert(bits_bit(result_bits, width - 1));
            }
        }
        assert(bits_bit(result_bits, safe_width - 1) == wide::limb_bit(rv, safe_width - 1));
        assert(canonical(v));
        assert(grown_shape(v, rv, safe_width));
    }
    if width > MAX_WIDTH {
        return Err(overflow(e));
    }
    Ok(v)
}

/// Limb `i` of `l`, or 0 past its end.
pub open spec fn limb_at(l: Seq<u64>, i: int) -> nat {
    if 0 <= i < l.len() { l[i] as nat } else { 0 }
}

/// The low 128 bits of a constant as a plain number.
pub open spec fn spec_low_u128(v: ConstVal) -> nat {
    match v.bits {
        Bits::Small(x) => x as nat,
        Bits::Wide(l) => limb_at(l@, 0) + 0x1_0000_0000_0000_0000 * limb_at(l@, 1),
    }
}

/// The low 128 bits of a constant as a plain number.
fn low_u128(v: &ConstVal) -> (r: u128)
    ensures
        r == spec_low_u128(*v),
{
    match &v.bits {
        Bits::Small(x) => *x,
        Bits::Wide(l) => {
            let l0: u128 = if l.len() > 0 { l[0] as u128 } else { 0 };
            let l1: u128 = if l.len() > 1 { l[1] as u128 } else { 0 };
            assert(l0 | (l1 << 64) == l0 + l1 * 0x1_0000_0000_0000_0000u128) by (bit_vector)
                requires l0 < 0x1_0000_0000_0000_0000u128, l1 < 0x1_0000_0000_0000_0000u128;
            l0 | (l1 << 64)
        }
    }
}

/// A shift amount as a plain count; E0202 when negative or too large.
fn shift_amount(v: &ConstVal, e: &Expr) -> (r: Result<u32, Diag>)
    ensures
        r matches Err(d) ==> eval_error(d) && d.code == Some("E0202"),
        r is Ok <==> !v.signed && v.width <= 128 && spec_low_u128(*v) <= u32::MAX,
        r matches Ok(n) ==> n == spec_low_u128(*v),
{
    if v.is_negative() || v.width > 128 {
        return Err(overflow(e));
    }
    let lo = low_u128(v);
    if lo > u32::MAX as u128 {
        return Err(overflow(e));
    }
    Ok(lo as u32)
}

/// The width two constants are compared at: one more than the wider.
pub open spec fn cmp_width(l: ConstVal, r: ConstVal) -> int {
    (if l.width >= r.width { l.width } else { r.width }) + 1
}

/// Two constants sign-extended to their comparison width are the same
/// bit pattern.
pub open spec fn same_extension(l: ConstVal, r: ConstVal) -> bool {
    forall|i: int| 0 <= i < cmp_width(l, r) ==> #[trigger] ext_bit(l, i) == ext_bit(r, i)
}

/// Whether the comparison `op` holds between two constants, compared as
/// signed values at a width that holds both.
fn comparison_holds(op: BinOp, l: &ConstVal, r: &ConstVal) -> (holds: bool)
    requires
        wf_val(*l),
        wf_val(*r),
    ensures
        op == BinOp::Eq ==> (holds <==> same_extension(*l, *r)),
        op == BinOp::Ne ==> (holds <==> !same_extension(*l, *r)),
        (op == BinOp::Lt || op == BinOp::Le) && ext_bit(*l, cmp_width(*l, *r) - 1) && !ext_bit(*r, cmp_width(*l, *r) - 1) ==> holds,
        (op == BinOp::Lt || op == BinOp::Le) && !ext_bit(*l, cmp_width(*l, *r) - 1) && ext_bit(*r, cmp_width(*l, *r) - 1) ==> !holds,
        (op == BinOp::Gt || op == BinOp::Ge) && ext_bit(*l, cmp_width(*l, *r) - 1) && !ext_bit(*r, cmp_width(*l, *r) - 1) ==> !holds,
        (op == BinOp::Gt || op == BinOp::Ge) && !ext_bit(*l, cmp_width(*l, *r) - 1) && ext_bit(*r, cmp_width(*l, *r) - 1) ==> holds,
        op == BinOp::Lt ==> (holds ==> !same_extension(*l, *r)),
        op == BinOp::Gt ==> (holds ==> !same_extension(*l, *r)),
        op == BinOp::Le ==> (same_extension(*l, *r) ==> holds),
        op == BinOp::Ge ==> (same_extension(*l, *r) ==> holds),
        op == BinOp::Lt ==> (holds <==> const_value(*l) < const_value(*r)),
        op == BinOp::Le ==> (holds <==> const_value(*l) <= const_value(*r)),
        op == BinOp::Gt ==> (holds <==> const_value(*l) > const_value(*r)),
        op == BinOp::Ge ==> (holds <==> const_value(*l) >= const_value(*r)),
{
    let w = (if l.width >= r.width { l.width } else { r.width }) + 1;
    let la = extend_to(l, w);
    let ra = extend_to(r, w);
    let ord = wide::cmp_signed(la.as_slice(), ra.as_slice(), w);
    proof {
        lemma_order_value(*l, *r, la@, ra@, w);
        lemma_extension_value(*l, *r);
        assert((ord == Cmp::Equal) <==> same_extension(*l, *r)) by {
            if ord == Cmp::Equal {
                assert forall|i: int| 0 <= i < cmp_width(*l, *r) implies #[trigger] ext_bit(*l, i) == ext_bit(*r, i) by {
                    assert(wide::limb_bit(la@, i) == wide::limb_bit(ra@, i));
                }
            } else if same_extension(*l, *r) {
                assert forall|i: int| 0 <= i < w implies #[trigger] wide::limb_bit(la@, i) == wide::limb_bit(ra@, i) by {
                    assert(ext_bit(*l, i) == ext_bit(*r, i));
                }
                assert(false);
            }
        }
    }
    match op {
        BinOp::Eq => ord == Cmp::Equal,
        BinOp::Ne => ord != Cmp::Equal,
        BinOp::Lt => ord == Cmp::Less,
        BinOp::Le => ord != Cmp::Greater,
        BinOp::Gt => ord == Cmp::Greater,
        _ => ord != Cmp::Less,
    }
}

/// The integer a constant expression denotes, for the forms whose
/// meaning is plain arithmetic: literals, named constants (by `env`),
/// `+`, `-`, `*`, `<<`, `>>` (rounding down), negation, the logical
/// operators and comparisons (1 for true, 0 for false), and `if`/`else`
/// (a nonzero condition picks
/// the first branch). `None` for every other form, and for an unbound
/// name.
pub open spec fn const_sem(e: Expr, env: Seq<(String, ConstVal)>) -> Option<int>
    decreases e,
{
    match e.kind {
        ExprKind::Int { value, .. } => Some(value as int),
        ExprKind::Bool(b) => Some(if b { 1int } else { 0int }),
        ExprKind::Ident(name) => match env_lookup(env, name@) {
            Some(v) => Some(const_value(v)),
            None => None,
        },
        ExprKind::Unary { op, expr } => match const_sem(*expr, env) {
            Some(x) => if op == UnOp::Neg {
                Some(-x)
            } else if op == UnOp::LogicNot {
                Some(if x == 0 { 1int } else { 0int })
            } else {
                None
            },
            None => None,
        },
        ExprKind::Binary { op, lhs, rhs } => match (const_sem(*lhs, env), const_sem(*rhs, env)) {
            (Some(a), Some(b)) => if op == BinOp::Add {
                Some(a + b)
            } else if op == BinOp::Sub {
                Some(a - b)
            } else if op == BinOp::Mul {
                Some(a * b)
            } else if op == BinOp::Shl && b >= 0 {
                Some(a * pow2(b as nat))
            } else if op == BinOp::Shr && b >= 0 {
                Some(a / (pow2(b as nat) as int))
            } else if op == BinOp::LogicAnd {
                Some(if a != 0 && b != 0 { 1int } else { 0int })
            } else if op == BinOp::LogicOr {
                Some(if a != 0 || b != 0 { 1int } else { 0int })
            } else if op == BinOp::Eq {
                Some(if a == b { 1int } else { 0int })
            } else if op == BinOp::Ne {
                Some(if a != b { 1int } else { 0int })
            } else if op == BinOp::Lt {
                Some(if a < b { 1int } else { 0int })
            } else if op == BinOp::Le {
                Some(if a <= b { 1int } else { 0int })
            } else if op == BinOp::Gt {
                Some(if a > b { 1int } else { 0int })
            } else if op == BinOp::Ge {
                Some(if a >= b { 1int } else { 0int })
            } else {
                None
            },
            _ => None,
        },
        ExprKind::IfExpr { cond, then, els } => match const_sem(*cond, env) {
            Some(c) => if c != 0 { const_sem(*then, env) } else { const_sem(*els, env) },
            None => None,
        },
        _ => None,
    }
}

/// `l` shifted right by `amount`, sign-preserving: the value divided by
/// `2^amount`, rounded down.
fn shr_const(l: &ConstVal, amount: u32) -> (out: ConstVal)
    requires
        wf_val(*l),
    ensures
        wf_val(out),
        const_value(out) == const_value(*l) / (pow2(amount as nat) as int),
{
    proof {
        lemma_value_range(*l);
        lemma_pow2_pos(amount as nat);
    }
    if amount >= l.width {
        let out = if l.is_negative() {
            ConstVal { bits: Bits::Small(1), width: 1, signed: true }
        } else {
            ConstVal::zero()
        };
        proof {
            lemma_truth_values_wf();
            lemma_pow2_le(l.width as nat, amount as nat);
            lemma_pow2_le((l.width - 1) as nat, amount as nat);
            let pa = pow2(amount as nat) as int;
            if l.signed {
                lemma2_to64();
                assert(out == ConstVal { bits: Bits::Small(1), width: 1, signed: true });
                assert(ext_bit(out, 0));
                assert(ext_sum(out, 0) == 0);
                assert(ext_sum(out, 1) == 1);
                assert(const_value(out) == -1);
                vstd::arithmetic::div_mod::lemma_fundamental_div_mod_converse(const_value(*l), pa, -1, const_value(*l) + pa);
            } else {
                lemma_small_value(out);
                vstd::arithmetic::div_mod::lemma_fundamental_div_mod_converse(const_value(*l), pa, 0, const_value(*l));
            }
        }
        return out;
    }
    let extended_width = l.width + amount;
    let extended = extend_to(l, extended_width);
    let shifted = wide::shr(extended.as_slice(), amount);
    let ghost sh = shifted@;
    let result_bits = bits::from_limbs(shifted, l.width);
    let (shrunk, width, signed) = bits::shrink(&result_bits, l.width, l.is_negative());
    let out = ConstVal { bits: shrunk, width, signed };
    assert(width <= l.width);
    assert(wf_val(out));
    proof {
        assert(bits_bit(result_bits, l.width - 1) == ext_bit(*l, l.width - 1 + amount)) by {
            assert(wide::limb_bit(sh, l.width - 1) == wide::limb_bit(extended@, l.width - 1 + amount));
        }
        assert(signed == l.signed);
        assert forall|k: int| 0 <= k implies #[trigger] ext_bit(out, k) == ext_bit(*l, k + amount) by {
            if k < l.width {
                assert(bits_bit(result_bits, k) == wide::limb_bit(sh, k));
                assert(wide::limb_bit(sh, k) == wide::limb_bit(extended@, k + amount));
                assert(bits_bit(result_bits, k) == ext_bit(*l, k + amount));
                if signed && k >= width {
                    assert(bits_bit(result_bits, k));
                    assert(bits_bit(shrunk, width - 1) == bits_bit(result_bits, width - 1));
                    assert(bits_bit(result_bits, width - 1));
                } else if !signed {
                    assert(bits_bit(shrunk, k) == bits_bit(result_bits, k));
                } else {
                    assert(bits_bit(shrunk, k) == bits_bit(result_bits, k));
                }
            } else if signed {
                assert(bits_bit(shrunk, width - 1) == bits_bit(result_bits, width - 1));
                assert(bits_bit(result_bits, width - 1));
            }
        }
        lemma_shr_value(*l, out, amount as nat);
    }
    out
}

/// Whether `MAX_WIDTH` two's-complement bits hold `x`.
pub open spec fn fits_max_width(x: int) -> bool {
    -(pow2((MAX_WIDTH - 1) as nat) as int) <= x < pow2(MAX_WIDTH as nat)
}

/// Every well-formed constant's value fits in `MAX_WIDTH` bits.
proof fn lemma_within_max_width(v: ConstVal)
    requires
        wf_val(v),
    ensures
        fits_max_width(const_value(v)),
{
    lemma_value_within(v, MAX_WIDTH as nat);
}

/// Digit `i` of `a op b` for a bitwise operator: the operator applied to
/// the operands' digits `i`.
pub open spec fn bitwise_digit(op: BinOp, a: int, b: int, i: nat) -> bool {
    if op == BinOp::BitAnd {
        int_bit(a, i) && int_bit(b, i)
    } else if op == BinOp::BitOr {
        int_bit(a, i) || int_bit(b, i)
    } else {
        int_bit(a, i) != int_bit(b, i)
    }
}

/// A bitwise operation of two constants at `w` bits, shrunk into `c`,
/// acts on the binary digits of their values.
proof fn lemma_bitwise_value(
    l: ConstVal,
    r: ConstVal,
    la: Seq<u64>,
    ra: Seq<u64>,
    res: Seq<u64>,
    c: ConstVal,
    w: u32,
    bop: wide::BitOp,
    op: BinOp,
)
    requires
        wf_val(l),
        wf_val(r),
        wf_val(c),
        w == (if l.width >= r.width { l.width } else { r.width }) + 1,
        bop == (if op == BinOp::BitAnd { wide::BitOp::And } else if op == BinOp::BitOr { wide::BitOp::Or } else { wide::BitOp::Xor }),
        forall|i: int| 0 <= i < w ==> #[trigger] wide::limb_bit(la, i) == ext_bit(l, i),
        forall|i: int| 0 <= i < w ==> #[trigger] wide::limb_bit(ra, i) == ext_bit(r, i),
        forall|k: int| 0 <= k ==> #[trigger] wide::limb_bit(res, k) == wide::bit_op(bop, wide::limb_bit(la, k), wide::limb_bit(ra, k)),
        c.width <= w,
        c.signed == wide::limb_bit(res, w - 1),
        forall|i: int| 0 <= i < w ==> #[trigger] wide::limb_bit(res, i) == ext_bit(c, i),
    ensures
        forall|i: nat| #[trigger] int_bit(const_value(c), i) == bitwise_digit(op, const_value(l), const_value(r), i),
{
    assert forall|i: int| 0 <= i implies #[trigger] ext_bit(c, i) == wide::bit_op(bop, ext_bit(l, i), ext_bit(r, i)) by {
        if i < w {
            assert(wide::limb_bit(res, i) == ext_bit(c, i));
            assert(wide::limb_bit(la, i) == ext_bit(l, i));
            assert(wide::limb_bit(ra, i) == ext_bit(r, i));
        } else {
            assert(wide::limb_bit(res, w - 1) == ext_bit(c, w - 1));
            assert(wide::limb_bit(la, w - 1) == ext_bit(l, w - 1));
            assert(wide::limb_bit(ra, w - 1) == ext_bit(r, w - 1));
        }
    }
    assert forall|i: nat| #[trigger] int_bit(const_value(c), i) == bitwise_digit(op, const_value(l), const_value(r), i) by {
        lemma_bits_are_digits(c, i);
        lemma_bits_are_digits(l, i);
        lemma_bits_are_digits(r, i);
        assert(ext_bit(c, i as int) == wide::bit_op(bop, ext_bit(l, i as int), ext_bit(r, i as int)));
    }
}

/// A shift amount that is a plain `u32` passes `shift_amount`.
proof fn lemma_amount_ok(r: ConstVal)
    requires
        wf_val(r),
    ensures
        0 <= const_value(r) <= u32::MAX ==> !r.signed && r.width <= 128 && spec_low_u128(r) == const_value(r),
{
    if 0 <= const_value(r) <= u32::MAX {
        lemma_value_range(r);
        lemma_pow2_128();
        if r.width > 128 {
            lemma_wider_value(r, 128);
        }
        lemma_small_value(r);
    }
}

/// A canonical constant whose value `k` bits hold is at most `k` wide.
proof fn lemma_fits_width(v: ConstVal, k: int)
    requires
        canonical(v),
        fits_width(const_value(v), k),
    ensures
        v.width <= k,
{
    if v.width > k {
        lemma_wider_value(v, k as nat);
    }
}

/// What `k <= MAX_WIDTH` bits hold, `MAX_WIDTH` bits hold.
proof fn lemma_fits_le(x: int, k: int)
    requires
        fits_width(x, k),
        k <= MAX_WIDTH,
    ensures
        fits_max_width(x),
{
    lemma_pow2_le((k - 1) as nat, (MAX_WIDTH - 1) as nat);
    lemma_pow2_le(k as nat, MAX_WIDTH as nat);
}

/// Whether one operator step of a constant expression succeeds on
/// operand values `a` and `b`: sums, differences and products must fit
/// `MAX_WIDTH` bits; a shift amount must be a plain `u32`, and a left
/// shift's operand, widened by the amount plus one, must too; logical
/// operators and comparisons always succeed.
pub open spec fn const_step_ok(op: BinOp, a: int, b: int) -> bool {
    if op == BinOp::Add {
        fits_max_width(a + b)
    } else if op == BinOp::Sub {
        fits_max_width(a - b)
    } else if op == BinOp::Mul {
        fits_max_width(a * b)
    } else if op == BinOp::Shl {
        0 <= b <= u32::MAX && fits_width(a, MAX_WIDTH - 1 - b)
    } else if op == BinOp::Shr {
        0 <= b <= u32::MAX
    } else {
        is_truth_op(op)
    }
}

/// Whether evaluating `e` succeeds: it has an arithmetic meaning
/// (`const_sem`), every name is bound, every negation and operator step
/// succeeds, and so does the branch an `if` takes.
pub open spec fn const_ok(e: Expr, env: Seq<(String, ConstVal)>) -> bool
    decreases e,
{
    const_sem(e, env) is Some && match e.kind {
        ExprKind::Unary { op, expr } => const_ok(*expr, env)
            && (op == UnOp::Neg ==> fits_max_width(-const_sem(*expr, env)->Some_0)),
        ExprKind::Binary { op, lhs, rhs } => const_ok(*lhs, env) && const_ok(*rhs, env)
            && const_step_ok(op, const_sem(*lhs, env)->Some_0, const_sem(*rhs, env)->Some_0),
        ExprKind::IfExpr { cond, then, els } => const_ok(*cond, env)
            && if const_sem(*cond, env)->Some_0 != 0 { const_ok(*then, env) } else { const_ok(*els, env) },
        _ => true,
    }
}

/// A constant's meaning, and whether it evaluates, depend only on what
/// each name is bound to.
pub proof fn lemma_sem_env(e: Expr, a: Seq<(String, ConstVal)>, b: Seq<(String, ConstVal)>)
    requires
        forall|x: Seq<char>| #[trigger] env_lookup(a, x) == env_lookup(b, x),
    ensures
        const_sem(e, a) == const_sem(e, b),
        const_ok(e, a) == const_ok(e, b),
    decreases e,
{
    match e.kind {
        ExprKind::Ident(name) => {
            assert(env_lookup(a, name@) == env_lookup(b, name@));
        },
        ExprKind::Unary { expr, .. } => {
            lemma_sem_env(*expr, a, b);
        },
        ExprKind::Binary { lhs, rhs, .. } => {
            lemma_sem_env(*lhs, a, b);
            lemma_sem_env(*rhs, a, b);
        },
        ExprKind::IfExpr { cond, then, els } => {
            lemma_sem_env(*cond, a, b);
            lemma_sem_env(*then, a, b);
            lemma_sem_env(*els, a, b);
        },
        _ => {},
    }
}

/// Bits all clear below `n` spell 0.
proof fn lemma_ext_sum_zero(v: ConstVal, n: nat)
    requires
        forall|i: int| 0 <= i < n ==> !#[trigger] ext_bit(v, i),
    ensures
        ext_sum(v, n) == 0,
    decreases n,
{
    if n > 0 {
        lemma_ext_sum_zero(v, (n - 1) as nat);
        assert(!ext_bit(v, n - 1));
    }
}

/// A set bit `i` below `n` puts the low number at least at `2^i`.
proof fn lemma_ext_sum_ge(v: ConstVal, i: nat, n: nat)
    requires
        i < n,
        ext_bit(v, i as int),
    ensures
        ext_sum(v, n) >= pow2(i),
    decreases n,
{
    if n > i + 1 {
        lemma_ext_sum_ge(v, i, (n - 1) as nat);
    }
}

/// Whether every bit of `bits` below `k` is clear.
fn low_bits_clear(bits: &Bits, k: u32) -> (r: bool)
    ensures
        r == forall|i: int| 0 <= i < k ==> !#[trigger] bits_bit(*bits, i),
{
    let mut i: u32 = 0;
    while i < k
        invariant
            i <= k,
            forall|j: int| 0 <= j < i ==> !#[trigger] bits_bit(*bits, j),
        decreases k - i,
    {
        if bits::top_bit_set(bits, i + 1) {
            return false;
        }
        i += 1;
    }
    true
}

/// `clog2` of a positive constant: the bits needed to address that many
/// items, at least one.
fn clog2_const(n: &ConstVal) -> (out: ConstVal)
    requires
        wf_val(*n),
        const_value(*n) >= 1,
    ensures
        wf_val(out),
        !out.signed,
        clog2_law(const_value(*n), const_value(out)),
{
    proof {
        lemma_value_range(*n);
    }
    let cw: u32 = if n.width <= 128 {
        let n_u128 = low_u128(n);
        proof {
            lemma_small_value(*n);
        }
        clog2_bits(n_u128)
    } else {
        let top = n.width - 1;
        let low_clear = low_bits_clear(&n.bits, top);
        proof {
            let w = n.width as nat;
            assert(ext_bit(*n, w - 1));
            assert(ext_sum(*n, w) == ext_sum(*n, (w - 1) as nat) + pow2((w - 1) as nat));
            lemma_ext_sum_bound(*n, w);
            lemma_pow2_strictly_increases((w - 2) as nat, (w - 1) as nat);
            if low_clear {
                assert forall|i: int| 0 <= i < w - 1 implies !#[trigger] ext_bit(*n, i) by {
                    assert(!bits_bit(n.bits, i));
                }
                lemma_ext_sum_zero(*n, (w - 1) as nat);
            } else {
                let i = choose|i: int| 0 <= i < top && #[trigger] bits_bit(n.bits, i);
                assert(ext_bit(*n, i));
                lemma_ext_sum_ge(*n, i as nat, (w - 1) as nat);
                lemma_pow2_pos(i as nat);
            }
        }
        if low_clear { top } else { n.width }
    };
    let b = Bits::Small(cw as u128);
    let w = bits::natural_width(&b);
    let out = ConstVal { bits: b, width: w, signed: false };
    assert(wf_val(out));
    proof {
        lemma_small_value(out);
    }
    out
}

/// Evaluate `e` to a compile-time value, or explain why it is not one.
/// The diagnostic carries its code but no file — the caller stamps that.
#[verifier::rlimit(80)]
pub fn eval(e: &Expr, env: &Env) -> (r: Result<ConstVal, Diag>)
    requires
        env_wf(env@),
    ensures
        r matches Ok(v) ==> wf_val(v),
        r matches Err(d) ==> eval_error(d),
        never_const(e.kind) ==> r is Err,
        e.kind matches ExprKind::Bool(b) ==> r == Ok::<ConstVal, Diag>(spec_from_bool(b)),
        e.kind matches ExprKind::Int { value, .. } ==>
            (r matches Ok(v) && v.bits == Bits::Small(value) && !v.signed),
        e.kind matches ExprKind::Ident(name) ==> match env_lookup(env@, name@) {
            Some(w) => r matches Ok(v) && same_val(v, w),
            None => r matches Err(d) && d.code == Some("E0201")
                && d.msg@ == "`"@ + name@ + "`"@ + " is not a compile-time constant"@,
        },
        e.kind matches ExprKind::Unary { op, .. } && op == UnOp::LogicNot && r is Ok ==> is_truth_value(r->Ok_0),
        e.kind matches ExprKind::Binary { op, .. } && is_truth_op(op) && r is Ok ==> is_truth_value(r->Ok_0),
        r matches Ok(v) ==> (const_sem(*e, env@) is Some ==> const_value(v) == const_sem(*e, env@)->Some_0),
        r matches Ok(v) ==> (e.kind is Call && e.kind->Call_func == Builtin::Clog2 && e.kind->Call_args@.len() > 0
            && const_sem(e.kind->Call_args@[0], env@) is Some
            ==> clog2_law(const_sem(e.kind->Call_args@[0], env@)->Some_0, const_value(v))),
        e.kind is Call && e.kind->Call_func == Builtin::Clog2 && e.kind->Call_args@.len() > 0
            && const_ok(e.kind->Call_args@[0], env@) ==> if const_sem(e.kind->Call_args@[0], env@)->Some_0 <= 0 {
                r matches Err(d) && d.code == Some("E0202")
            } else {
                r is Ok
            },
        r matches Err(d) ==> (const_sem(*e, env@) is Some ==> d.code == Some("E0202")),
        r matches Ok(v) ==> (e.kind matches ExprKind::Binary { op, lhs, rhs } ==> (
            (op == BinOp::BitAnd || op == BinOp::BitOr || op == BinOp::BitXor)
            && const_sem(*lhs, env@) is Some && const_sem(*rhs, env@) is Some
            ==> forall|i: nat| #[trigger] int_bit(const_value(v), i)
                == bitwise_digit(op, const_sem(*lhs, env@)->Some_0, const_sem(*rhs, env@)->Some_0, i))),
        const_sem(*e, env@) is Some && !fits_max_width(const_sem(*e, env@)->Some_0) ==> r is Err,
        const_ok(*e, env@) ==> r is Ok,
    decreases e,
{
    let out = match &e.kind {
        ExprKind::Int { value, .. } => {
            let b = Bits::Small(*value);
            let w = bits::natural_width(&b);
            let v = ConstVal { bits: b, width: w, signed: false };
            assert(wf_val(v));
            proof {
                lemma_small_value(v);
            }
            Ok(v)
        }
        ExprKind::Bool(b) => {
            let v = ConstVal::from_bool(*b);
            proof {
                lemma_small_value(v);
            }
            Ok(v)
        }
        ExprKind::Ident(name) => {
            proof {
                lemma_env_lookup_wf(env@, name@);
            }
            match env_get(env, name) {
                Some(v) => {
                    proof {
                        lemma_same_val_wf(v, env_lookup(env@, name@)->Some_0);
                        lemma_same_val_value(v, env_lookup(env@, name@)->Some_0);
                    }
                    Ok(v)
                }
                None => {
                    let what = cat(&["`", name.as_str(), "`"]);
                    proof {
                        reveal_with_fuel(crate::text::concat_views, 4);
                        assert(what@ =~= "`"@ + name@ + "`"@);
                    }
                    Err(not_const(
                        e,
                        what.as_str(),
                        "only `const` values, literals, and `repeat` variables work here — consts are evaluated top to bottom, so a const can only use the ones declared above it",
                    ))
                }
            }
        }
        ExprKind::Unary { op, expr } => {
            let v = eval(expr, env)?;
            match op {
                UnOp::Neg => {
                    if v.is_zero() {
                        let z = ConstVal::zero();
                        proof {
                            lemma_zero_value(v);
                            lemma_small_value(z);
                            lemma_truth_values_wf();
                            lemma_within_max_width(z);
                        }
                        return Ok(z);
                    }
                    let safe_width = v.width + 1;
                    let limbs = extend_to(&v, safe_width);
                    let zero = wide::zeros(safe_width);
                    let result = wide::sub_at(zero.as_slice(), limbs.as_slice(), safe_width);
                    let ghost res = result@;
                    let out = grown_op(e, result, safe_width);
                    proof {
                        {
                            let z = spec_zero();
                            lemma_truth_values_wf();
                            lemma_small_value(z);
                            assert forall|i: int| 0 <= i < safe_width implies #[trigger] wide::limb_bit(zero@, i) == ext_bit(z, i) by {
                                if i / 64 < zero@.len() {
                                    wide::lemma_zero_limb_bit((i % 64) as u64);
                                }
                                if i < 1 {
                                    lemma_zero_bit128(i as u128);
                                }
                            }
                            wide::lemma_value_zero(zero@);
                            lemma_value_within(v, v.width as nat);
                            lemma_pow2_strictly_increases((v.width - 1) as nat, v.width as nat);
                            lemma_arith_congruent(z, v, zero@, limbs@, res, safe_width, 0 - const_value(v), BinOp::Sub);
                            lemma_grown_value(res, safe_width, 0 - const_value(v), out);
                        }
                    }
                    out
                }
                UnOp::LogicNot => {
                    let out = ConstVal::from_bool(v.is_zero());
                    proof {
                        lemma_zero_value(v);
                        lemma_small_value(out);
                    }
                    Ok(out)
                }
                _ => Err(not_const(
                    e,
                    "this operator",
                    "bitwise operators need a known bit width, which constants do not have — use arithmetic and comparisons instead",
                )),
            }
        }
        ExprKind::Binary { op, lhs, rhs } => {
            let l = eval(lhs, env)?;
            let r = eval(rhs, env)?;
            if *op == BinOp::AddWrap || *op == BinOp::SubWrap || *op == BinOp::MulWrap {
                return Err(not_const(
                    e,
                    "a wrapping operator",
                    "`+%`/`-%`/`*%` wrap at a bit width, and compile-time integers have no width — use plain `+`/`-`/`*` in constants",
                ));
            }
            match op {
                BinOp::Add | BinOp::Sub => {
                    let sw = (if l.width >= r.width { l.width } else { r.width }) + 2;
                    let la = extend_to(&l, sw);
                    let ra = extend_to(&r, sw);
                    let result = if *op == BinOp::Add {
                        wide::add_at(la.as_slice(), ra.as_slice(), sw)
                    } else {
                        wide::sub_at(la.as_slice(), ra.as_slice(), sw)
                    };
                    let ghost res = result@;
                    let out = grown_op(e, result, sw);
                    proof {
                        {
                            let m = (sw - 2) as nat;
                            lemma_value_within(l, m);
                            lemma_value_within(r, m);
                            lemma_pow2_unfold(m + 1);
                            lemma_pow2_le((m - 1) as nat, m);
                            let x = if *op == BinOp::Add { const_value(l) + const_value(r) } else { const_value(l) - const_value(r) };
                            lemma_arith_congruent(l, r, la@, ra@, res, sw, x, *op);
                            lemma_grown_value(res, sw, x, out);
                        }
                    }
                    out
                }
                BinOp::Mul => {
                    let sw = l.width + r.width + 1;
                    let la = extend_to(&l, sw);
                    let ra = extend_to(&r, sw);
                    let result = wide::mul_at(la.as_slice(), ra.as_slice(), sw);
                    let ghost res = result@;
                    let out = grown_op(e, result, sw);
                    proof {
                        {
                            lemma_value_within(l, l.width as nat);
                            lemma_value_within(r, r.width as nat);
                            let a = const_value(l);
                            let b = const_value(r);
                            let pa = pow2(l.width as nat) as int;
                            let pb = pow2(r.width as nat) as int;
                            assert(-(pa * pb) < a * b < pa * pb) by (nonlinear_arith)
                                requires -pa < a < pa, -pb < b < pb;
                            vstd::arithmetic::power2::lemma_pow2_adds(l.width as nat, r.width as nat);
                            lemma_arith_congruent(l, r, la@, ra@, res, sw, a * b, BinOp::Mul);
                            lemma_grown_value(res, sw, a * b, out);
                        }
                    }
                    out
                }
                BinOp::Shl => {
                    proof {
                        lemma_amount_ok(r);
                    }
                    let amount = shift_amount(&r, e)?;
                    proof {
                        lemma_small_value(r);
                        if fits_width(const_value(l), MAX_WIDTH - 1 - const_value(r)) {
                            lemma_fits_width(l, MAX_WIDTH - 1 - const_value(r));
                        }
                    }
                    let sw_u64 = (l.width as u64) + (amount as u64) + 1;
                    if sw_u64 > MAX_WIDTH as u64 {
                        return Err(overflow(e));
                    }
                    let sw = sw_u64 as u32;
                    let la = extend_to(&l, sw);
                    let result = wide::shl(la.as_slice(), amount, sw);
                    let ghost res = result@;
                    let out = grown_op(e, result, sw);
                    proof {
                        assert forall|k: int| 0 <= k < sw implies #[trigger] wide::limb_bit(res, k) == (k >= amount && ext_bit(l, k - amount)) by {
                            if k >= amount {
                                assert(wide::limb_bit(la@, k - amount) == ext_bit(l, k - amount));
                            }
                        }
                        lemma_shl_value(l, res, amount as nat, sw);
                        lemma_grown_value(res, sw, const_value(l) * pow2(amount as nat), out);
                        lemma_fits_le(const_value(l) * pow2(amount as nat), sw - 1);
                    }
                    out
                }
                BinOp::Shr => {
                    proof {
                        lemma_amount_ok(r);
                    }
                    let amount = shift_amount(&r, e)?;
                    proof {
                        lemma_small_value(r);
                    }
                    Ok(shr_const(&l, amount))
                }
                BinOp::BitAnd | BinOp::BitOr | BinOp::BitXor => {
                    let w = (if l.width >= r.width { l.width } else { r.width }) + 1;
                    let la = extend_to(&l, w);
                    let ra = extend_to(&r, w);
                    let ghost bop = if *op == BinOp::BitAnd {
                        wide::BitOp::And
                    } else if *op == BinOp::BitOr {
                        wide::BitOp::Or
                    } else {
                        wide::BitOp::Xor
                    };
                    let result = if *op == BinOp::BitAnd {
                        wide::bitand(la.as_slice(), ra.as_slice())
                    } else if *op == BinOp::BitOr {
                        wide::bitor(la.as_slice(), ra.as_slice())
                    } else {
                        wide::bitxor(la.as_slice(), ra.as_slice())
                    };
                    let ghost res = result@;
                    let out = grown_op(e, result, w);
                    proof {
                        if out is Ok {
                            lemma_bitwise_value(l, r, la@, ra@, res, out->Ok_0, w, bop, *op);
                        }
                    }
                    out
                }
                BinOp::LogicAnd | BinOp::LogicOr => {
                    let out = if *op == BinOp::LogicAnd {
                        ConstVal::from_bool(!l.is_zero() && !r.is_zero())
                    } else {
                        ConstVal::from_bool(!l.is_zero() || !r.is_zero())
                    };
                    proof {
                        lemma_zero_value(l);
                        lemma_zero_value(r);
                        lemma_small_value(out);
                    }
                    Ok(out)
                }
                _ => {
                    let result = comparison_holds(*op, &l, &r);
                    let out = ConstVal::from_bool(result);
                    proof {
                        lemma_small_value(out);
                        lemma_extension_value(l, r);
                    }
                    Ok(out)
                }
            }
        }
        ExprKind::IfExpr { cond, then, els } => {
            let c = eval(cond, env)?;
            proof {
                lemma_zero_value(c);
            }
            if !c.is_zero() {
                eval(then, env)
            } else {
                eval(els, env)
            }
        }
        ExprKind::Call { func, args } => {
            if *func != Builtin::Clog2 || args.len() == 0 {
                return Err(not_const(
                    e,
                    "this expression",
                    "compile-time constants support literals, named consts, arithmetic, comparisons, logic, and `if`/`else`",
                ));
            }
            let n = eval(&args[0], env)?;
            proof {
                lemma_value_range(n);
                lemma_zero_value(n);
            }
            if n.is_negative() || n.is_zero() {
                return Err(Diag::new(e.span, owned("clog2 needs a positive argument"))
                    .with_code("E0202")
                    .with_help(owned("clog2(n) is the number of bits to address n items, so n must be >= 1")));
            }
            Ok(clog2_const(&n))
        }
        ExprKind::Field { .. } => Err(not_const(
            e,
            "an enum variant or instance port",
            "constants are plain `int`/`bool` values",
        )),
        _ => Err(not_const(
            e,
            "this expression",
            "compile-time constants support literals, named consts, arithmetic, comparisons, logic, and `if`/`else`",
        )),
    };
    proof {
        if out is Ok {
            lemma_within_max_width(out->Ok_0);
        }
    }
    out
}

/// Whether a value lies in the signed 128-bit range.
pub open spec fn spec_fits_i128(v: ConstVal) -> bool {
    if v.signed { v.width <= 128 } else { v.width <= 127 }
}

/// Whether a value lies in the signed 128-bit range.
pub fn fits_i128(v: &ConstVal) -> (r: bool)
    ensures
        r == spec_fits_i128(*v),
{
    if v.signed { v.width <= 128 } else { v.width <= 127 }
}

/// Item `j` of file `f` is a file-level `const`.
pub open spec fn const_at(files: Seq<crate::ast::File>, f: int, j: int) -> bool {
    0 <= f < files.len() && 0 <= j < files[f].items@.len() && files[f].items@[j] is Const
}

/// The name of the `const` at item `j` of file `f`.
pub open spec fn const_name_at(files: Seq<crate::ast::File>, f: int, j: int) -> Seq<char> {
    files[f].items@[j]->Const_0.name.name@
}

/// Whether some file-level `const` among `items` is named `x`.
pub open spec fn top_const_named(items: Seq<TopItem>, x: Seq<char>) -> bool {
    exists|j: int| 0 <= j < items.len() && #[trigger] items[j] is Const && items[j]->Const_0.name.name@ == x
}

impl<'a> Checker<'a> {
    /// Evaluate every file-level `const`, in source order, into the file's
    /// const table. A repeated name is E0004; a const that uses a later
    /// one fails as E0201, since evaluation runs top to bottom. A file's
    /// table gains no name but those of its own consts.
    pub fn eval_consts(&mut self)
        requires
            old(self).inv(),
        ensures
            final(self).grew_from(&*old(self)),
            forall|f: int, x: Seq<char>| 0 <= f < old(self).files@.len() && #[trigger] env_has(final(self).file_consts@[f]@, x)
                ==> env_has(old(self).file_consts@[f]@, x) || top_const_named(old(self).files@[f].items@, x),
            forall|f: int, x: Seq<char>| 0 <= f < old(self).files@.len() && #[trigger] env_has(old(self).file_consts@[f]@, x)
                ==> env_has(final(self).file_consts@[f]@, x),
            forall|f: int, j: int| #[trigger] const_at(old(self).files@, f, j) && env_has(old(self).file_consts@[f]@, const_name_at(old(self).files@, f, j))
                ==> flagged(final(self).diags@, "E0004"@, old(self).files@[f].items@[j]->Const_0.name.span),
            forall|f: int, j: int| #[trigger] const_at(old(self).files@, f, j)
                ==> env_has(final(self).file_consts@[f]@, const_name_at(old(self).files@, f, j))
                    || final(self).diags@.len() > old(self).diags@.len(),
    {
        let ghost start = *self;
        let files = self.files;
        let mut file: usize = 0;
        while file < files.len()
            invariant
                self.grew_from(&start),
                self.files == files,
                file <= files@.len(),
                forall|f: int, x: Seq<char>| 0 <= f < file && #[trigger] env_has(self.file_consts@[f]@, x)
                    ==> env_has(start.file_consts@[f]@, x) || top_const_named(files@[f].items@, x),
                forall|f: int| file <= f < self.file_consts@.len() ==> #[trigger] self.file_consts@[f] == start.file_consts@[f],
                forall|f: int, x: Seq<char>| 0 <= f < file && #[trigger] env_has(start.file_consts@[f]@, x)
                    ==> env_has(self.file_consts@[f]@, x),
                forall|f: int, j: int| 0 <= f < file && #[trigger] const_at(files@, f, j) && env_has(start.file_consts@[f]@, const_name_at(files@, f, j))
                    ==> flagged(self.diags@, "E0004"@, files@[f].items@[j]->Const_0.name.span),
                forall|f: int, j: int| 0 <= f < file && #[trigger] const_at(files@, f, j)
                    ==> env_has(self.file_consts@[f]@, const_name_at(files@, f, j)) || self.diags@.len() > start.diags@.len(),
            decreases files@.len() - file,
        {
            let ghost fcs = self.file_consts;
            let ghost fstart = *self;
            let mut env = copy_env(&self.file_consts[file]);
            proof {
                lemma_env_same_names(env@, start.file_consts@[file as int]@);
            }
            let items = &files[file].items;
            let mut j: usize = 0;
            while j < items.len()
                invariant
                    self.grew_from(&start),
                    self.files == files,
                    self.file_consts == fcs,
                    file < files@.len(),
                    items == files@[file as int].items,
                    j <= items@.len(),
                    env_wf(env@),
                    forall|x: Seq<char>| #[trigger] env_has(env@, x)
                        ==> env_has(start.file_consts@[file as int]@, x) || top_const_named(items@, x),
                    self.grew_from(&fstart),
                    forall|x: Seq<char>| #[trigger] env_has(start.file_consts@[file as int]@, x) ==> env_has(env@, x),
                    forall|j2: int| 0 <= j2 < j && #[trigger] const_at(files@, file as int, j2)
                        && env_has(start.file_consts@[file as int]@, const_name_at(files@, file as int, j2))
                        ==> flagged(self.diags@, "E0004"@, files@[file as int].items@[j2]->Const_0.name.span),
                    forall|j2: int| 0 <= j2 < j && #[trigger] const_at(files@, file as int, j2)
                        ==> env_has(env@, const_name_at(files@, file as int, j2)) || self.diags@.len() > start.diags@.len(),
                decreases items@.len() - j,
            {
                let ghost pre = *self;
                let ghost pre_env = env@;
                if let TopItem::Const(c) = &items[j] {
                    if env_contains(&env, &c.name.name) {
                        self.err(
                            file,
                            c.name.span,
                            "E0004",
                            cat(&["const `", c.name.name.as_str(), "` is defined more than once in this file"]),
                            owned("rename one of them — consts are file-local, so the names only need to be unique within this file"),
                        );
                        proof { assert(self.diags@[self.diags@.len() - 1].span == c.name.span); }
                    } else {
                        match eval(&c.value, &env) {
                            Ok(v) => {
                                if fits_i128(&v) {
                                    env_insert(&mut env, c.name.name.clone(), v);
                                    proof {
                                        assert(items@[j as int] is Const && items@[j as int]->Const_0.name.name@ == c.name.name@);
                                    }
                                } else {
                                    self.err(
                                        file,
                                        c.name.span,
                                        "E0202",
                                        cat(&["const `", c.name.name.as_str(), "` does not fit in a signed 128-bit integer"]),
                                        owned("file-level constants are 128-bit signed integers — use a smaller value"),
                                    );
                                }
                            }
                            Err(d) => {
                                self.push_eval_error(file, d);
                            }
                        }
                    }
                }
                proof {
                    lemma_grew_trans(&fstart, &pre, self);
                    crate::checker::names::lemma_flag_kept(pre.diags@, self.diags@);
                    assert forall|x: Seq<char>| #[trigger] env_has(pre_env, x) implies env_has(env@, x) by {
                        if items@[j as int] is Const {
                            if x == items@[j as int]->Const_0.name.name@ {
                            }
                        }
                    }
                }
                j += 1;
            }
            let ghost before_set = *self;
            self.file_consts.set(file, env);
            proof {
                crate::checker::names::lemma_flag_kept(fstart.diags@, self.diags@);
                assert forall|f: int, j2: int| 0 <= f < file + 1 && #[trigger] const_at(files@, f, j2)
                    && env_has(start.file_consts@[f]@, const_name_at(files@, f, j2))
                    implies flagged(self.diags@, "E0004"@, files@[f].items@[j2]->Const_0.name.span) by {
                    if f == file {
                        assert(j2 < items@.len());
                    } else {
                        assert(flagged(fstart.diags@, "E0004"@, files@[f].items@[j2]->Const_0.name.span));
                    }
                }
                assert forall|f: int, j2: int| 0 <= f < file + 1 && #[trigger] const_at(files@, f, j2)
                    implies env_has(self.file_consts@[f]@, const_name_at(files@, f, j2)) || self.diags@.len() > start.diags@.len() by {
                    if f == file {
                        assert(j2 < items@.len());
                    } else {
                        assert(self.file_consts@[f] == before_set.file_consts@[f]);
                    }
                }
                assert forall|f: int, x: Seq<char>| 0 <= f < file + 1 && #[trigger] env_has(start.file_consts@[f]@, x)
                    implies env_has(self.file_consts@[f]@, x) by {
                    if f < file {
                        assert(self.file_consts@[f] == before_set.file_consts@[f]);
                    }
                }
            }
            file += 1;
        }
    }
}

} // verus!
