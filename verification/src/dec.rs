//! Fixed-point decimal amounts.
//!
//! A `Dec` holds the plain parts of a `rust_decimal::Decimal`: a signed
//! mantissa of at most 96 bits and a scale (number of fractional digits)
//! of at most 28.  Its mathematical value is `mantissa / 10^scale`; the
//! specifications work with `val()`, that value expressed in units of
//! `10^-28`, which is always an integer.  Arithmetic and comparison are
//! delegated to `rust_decimal`.

use vstd::prelude::*;

verus! {

/// `10^n`.
pub open spec fn pow10(n: nat) -> int
    decreases n,
{
    if n == 0 {
        1
    } else {
        10 * pow10((n - 1) as nat)
    }
}

/// Largest magnitude of a 96-bit mantissa, `2^96 - 1`.
pub open spec fn max_mantissa() -> int {
    79228162514264337593543950335
}

/// `10^28`, the number of value units in `1`.
pub open spec fn one_units() -> int {
    10000000000000000000000000000
}

/// Largest magnitude of a value (in units) that a decimal whose scale is
/// at most `s` can hold without rounding.
pub open spec fn bound_at(s: nat) -> int {
    max_mantissa() * pow10((28 - s) as nat)
}

pub proof fn lemma_pow10_pos(n: nat)
    ensures
        pow10(n) >= 1,
    decreases n,
{
    if n > 0 {
        lemma_pow10_pos((n - 1) as nat);
    }
}

pub proof fn lemma_pow10_mono(a: nat, b: nat)
    requires
        a <= b,
    ensures
        pow10(a) <= pow10(b),
    decreases b,
{
    if a < b {
        lemma_pow10_mono(a, (b - 1) as nat);
        lemma_pow10_pos((b - 1) as nat);
    }
}

pub proof fn lemma_bound_at_anti(s: nat, t: nat)
    requires
        s <= t,
        t <= 28,
    ensures
        bound_at(t) <= bound_at(s),
        bound_at(t) >= max_mantissa(),
{
    lemma_pow10_mono((28 - t) as nat, (28 - s) as nat);
    lemma_pow10_pos((28 - t) as nat);
}

pub proof fn lemma_pow10_28()
    ensures
        pow10(28) == one_units(),
{
    reveal_with_fuel(pow10, 29);
}

/// Outcome of comparing two values.
#[derive(Clone, Copy, Debug, PartialEq, Eq, Structural)]
pub enum Comparison {
    Less,
    Equal,
    Greater,
}

/// A decimal number: `mantissa / 10^scale`.
#[derive(Clone, Copy, Debug)]
pub struct Dec {
    mantissa: i128,
    scale: u32,
}

impl Dec {
    #[verifier::type_invariant]
    spec fn well_formed(self) -> bool {
        &&& self.scale <= 28
        &&& -max_mantissa() <= self.mantissa <= max_mantissa()
    }

    pub closed spec fn spec_mantissa(self) -> int {
        self.mantissa as int
    }

    pub closed spec fn spec_scale(self) -> nat {
        self.scale as nat
    }

    /// The value in units of `10^-28`.
    pub closed spec fn val(self) -> int {
        self.mantissa * pow10((28 - self.scale) as nat)
    }

    /// A decimal of the given parts; the parts must be those of a valid
    /// `rust_decimal::Decimal`.
    pub fn new(mantissa: i128, scale: u32) -> (d: Dec)
        requires
            scale <= 28,
            -max_mantissa() <= mantissa <= max_mantissa(),
        ensures
            d.spec_mantissa() == mantissa,
            d.spec_scale() == scale,
            d.val() == mantissa * pow10((28 - scale) as nat),
    {
        Dec { mantissa, scale }
    }

    /// The integer `n`.
    pub fn from_int(n: i64) -> (d: Dec)
        ensures
            d.val() == n * one_units(),
            d.spec_scale() == 0,
    {
        proof {
            lemma_pow10_28();
        }
        Dec { mantissa: n as i128, scale: 0 }
    }

    pub fn zero() -> (d: Dec)
        ensures
            d.val() == 0,
            d.spec_scale() == 0,
    {
        Dec::from_int(0)
    }

    /// The negation: same scale, opposite mantissa.
    pub fn neg(&self) -> (r: Dec)
        ensures
            r.val() == -self.val(),
            r.spec_scale() == self.spec_scale(),
            r.spec_mantissa() == -self.spec_mantissa(),
    {
        proof {
            use_type_invariant(self);
            let p = pow10((28 - self.scale) as nat);
            assert((-self.mantissa) * p == -(self.mantissa * p)) by (nonlinear_arith);
        }
        Dec { mantissa: -self.mantissa, scale: self.scale }
    }

    pub fn mantissa(&self) -> (m: i128)
        ensures
            m == self.spec_mantissa(),
    {
        self.mantissa
    }

    pub fn scale(&self) -> (s: u32)
        ensures
            s == self.spec_scale(),
    {
        self.scale
    }
}


/// `d` has scale at most `s` and a value that any decimal of scale at most
/// `s` could hold.
pub open spec fn fits_at(d: Dec, s: nat) -> bool {
    &&& s <= 28
    &&& d.spec_scale() <= s
    &&& -bound_at(s) <= d.val() <= bound_at(s)
}

pub open spec fn max_scale(a: Dec, b: Dec) -> nat {
    if a.spec_scale() >= b.spec_scale() {
        a.spec_scale()
    } else {
        b.spec_scale()
    }
}

/// The value `v` can be held exactly at the larger scale of `a` and `b`.
pub open spec fn representable(v: int, a: Dec, b: Dec) -> bool {
    -bound_at(max_scale(a, b)) <= v <= bound_at(max_scale(a, b))
}

/// The product of `a` and `b` can be held exactly at the sum of their scales.
pub open spec fn product_representable(a: Dec, b: Dec) -> bool {
    &&& a.spec_scale() + b.spec_scale() <= 28
    &&& -max_mantissa() <= a.spec_mantissa() * b.spec_mantissa() <= max_mantissa()
}

/// If both operands fit at scale `s` and so does their exact result, the
/// result is representable at the larger operand scale.
pub proof fn lemma_representable(v: int, a: Dec, b: Dec, s: nat)
    requires
        fits_at(a, s),
        fits_at(b, s),
        -bound_at(s) <= v <= bound_at(s),
    ensures
        representable(v, a, b),
{
    lemma_bound_at_anti(max_scale(a, b), s);
}

/// A result whose scale is no larger than its operands' and whose value is
/// bounded at `s` fits at `s` again.
pub proof fn lemma_fits_result(x: Dec, a: Dec, b: Dec, s: nat)
    requires
        fits_at(a, s),
        fits_at(b, s),
        x.spec_scale() <= max_scale(a, b),
        -bound_at(s) <= x.val() <= bound_at(s),
    ensures
        fits_at(x, s),
{
}

pub proof fn lemma_pow10_add(a: nat, b: nat)
    ensures
        pow10(a + b) == pow10(a) * pow10(b),
    decreases a,
{
    if a > 0 {
        lemma_pow10_add((a - 1) as nat, b);
        assert(pow10(a + b) == 10 * pow10((a - 1 + b) as nat));
        assert(10 * (pow10((a - 1) as nat) * pow10(b)) == (10 * pow10((a - 1) as nat)) * pow10(b))
            by (nonlinear_arith);
    }
}

/// A product whose value is small enough, of operands that fit at scales
/// adding up to at most 28, is representable.
pub proof fn lemma_product_representable(a: Dec, b: Dec, s1: nat, s2: nat)
    requires
        fits_at(a, s1),
        fits_at(b, s2),
        s1 + s2 <= 28,
        -(max_mantissa() * pow10((56 - s1 - s2) as nat)) <= a.val() * b.val() <= max_mantissa()
            * pow10((56 - s1 - s2) as nat),
    ensures
        product_representable(a, b),
{
    let ea = (28 - a.scale) as nat;
    let eb = (28 - b.scale) as nat;
    let f = (56 - s1 - s2) as nat;
    lemma_pow10_add(ea, eb);
    lemma_pow10_mono(f, ea + eb);
    lemma_pow10_pos(f);
    let pa = pow10(ea);
    let pb = pow10(eb);
    let p = pow10(ea + eb);
    let q = pow10(f);
    let ma = a.mantissa as int;
    let mb = b.mantissa as int;
    let m = max_mantissa();
    assert(a.val() == ma * pa);
    assert(b.val() == mb * pb);
    assert(a.val() * b.val() == (ma * mb) * p) by (nonlinear_arith)
        requires
            a.val() == ma * pa,
            b.val() == mb * pb,
            p == pa * pb,
    ;
    assert(-m <= ma * mb <= m) by (nonlinear_arith)
        requires
            (ma * mb) * p <= m * q,
            -(m * q) <= (ma * mb) * p,
            q <= p,
            1 <= q,
            m > 0,
    ;
}

/// Calls `rust_decimal::Decimal::checked_add`.  Claimed of it: when the
/// exact sum can be held at the larger of the two operand scales, the call
/// returns that exact sum, at a scale no larger than the operands'.  Nothing
/// is claimed otherwise (the crate then rounds, or reports overflow).
#[verifier::external_body]
pub(crate) fn dec_checked_add(a: Dec, b: Dec) -> (r: Option<Dec>)
    ensures
        representable(a.val() + b.val(), a, b) ==> r is Some,
        representable(a.val() + b.val(), a, b) ==> r->0.val() == a.val() + b.val(),
        representable(a.val() + b.val(), a, b) ==> r->0.spec_scale() <= max_scale(a, b),
{
    let x = rust_decimal::Decimal::from_i128_with_scale(a.mantissa, a.scale);
    let y = rust_decimal::Decimal::from_i128_with_scale(b.mantissa, b.scale);
    match x.checked_add(y) {
        Some(z) => Some(Dec { mantissa: z.mantissa(), scale: z.scale() }),
        None => None,
    }
}

/// Calls `rust_decimal::Decimal::checked_sub`.  Claimed of it: when the
/// exact difference can be held at the larger of the two operand scales,
/// the call returns it exactly, at a scale no larger than the operands'.
/// Nothing is claimed otherwise.
#[verifier::external_body]
pub(crate) fn dec_checked_sub(a: Dec, b: Dec) -> (r: Option<Dec>)
    ensures
        representable(a.val() - b.val(), a, b) ==> r is Some,
        representable(a.val() - b.val(), a, b) ==> r->0.val() == a.val() - b.val(),
        representable(a.val() - b.val(), a, b) ==> r->0.spec_scale() <= max_scale(a, b),
{
    let x = rust_decimal::Decimal::from_i128_with_scale(a.mantissa, a.scale);
    let y = rust_decimal::Decimal::from_i128_with_scale(b.mantissa, b.scale);
    match x.checked_sub(y) {
        Some(z) => Some(Dec { mantissa: z.mantissa(), scale: z.scale() }),
        None => None,
    }
}

/// Calls `rust_decimal::Decimal::checked_mul`.  Claimed of it: when the
/// product of the mantissas fits in 96 bits and the scales add up to at
/// most 28, the call returns the exact product, at a scale no larger than
/// the sum of the operand scales.  Nothing is claimed otherwise.
#[verifier::external_body]
pub(crate) fn dec_checked_mul(a: Dec, b: Dec) -> (r: Option<Dec>)
    ensures
        product_representable(a, b) ==> r is Some,
        product_representable(a, b) ==> r->0.val() * one_units() == a.val() * b.val(),
        product_representable(a, b) ==> r->0.spec_scale() <= a.spec_scale() + b.spec_scale(),
{
    let x = rust_decimal::Decimal::from_i128_with_scale(a.mantissa, a.scale);
    let y = rust_decimal::Decimal::from_i128_with_scale(b.mantissa, b.scale);
    match x.checked_mul(y) {
        Some(z) => Some(Dec { mantissa: z.mantissa(), scale: z.scale() }),
        None => None,
    }
}

/// Calls `Ord::cmp` of `rust_decimal::Decimal`.  Claimed of it: it orders
/// decimals by their numeric value, whatever their scales.
#[verifier::external_body]
pub(crate) fn dec_compare(a: &Dec, b: &Dec) -> (r: Comparison)
    ensures
        (r == Comparison::Less) == (a.val() < b.val()),
        (r == Comparison::Equal) == (a.val() == b.val()),
        (r == Comparison::Greater) == (a.val() > b.val()),
{
    let x = rust_decimal::Decimal::from_i128_with_scale(a.mantissa, a.scale);
    let y = rust_decimal::Decimal::from_i128_with_scale(b.mantissa, b.scale);
    match x.cmp(&y) {
        core::cmp::Ordering::Less => Comparison::Less,
        core::cmp::Ordering::Equal => Comparison::Equal,
        core::cmp::Ordering::Greater => Comparison::Greater,
    }
}

impl Dec {
    pub fn lt(&self, other: &Dec) -> (r: bool)
        ensures
            r == (self.val() < other.val()),
    {
        dec_compare(self, other) == Comparison::Less
    }

    pub fn le(&self, other: &Dec) -> (r: bool)
        ensures
            r == (self.val() <= other.val()),
    {
        dec_compare(self, other) != Comparison::Greater
    }

    pub fn same_value(&self, other: &Dec) -> (r: bool)
        ensures
            r == (self.val() == other.val()),
    {
        dec_compare(self, other) == Comparison::Equal
    }

    pub fn is_positive(&self) -> (r: bool)
        ensures
            r == (self.val() > 0),
    {
        let z = Dec::zero();
        dec_compare(self, &z) == Comparison::Greater
    }

    /// The smaller of the two (the first when they are equal in value).
    pub fn min_of(a: Dec, b: Dec) -> (r: Dec)
        ensures
            r == (if b.val() < a.val() { b } else { a }),
    {
        if b.lt(&a) {
            b
        } else {
            a
        }
    }
}

/// Exact addition of two amounts that fit at scale `s`, whose sum fits too.
pub(crate) fn add_at(a: Dec, b: Dec, Ghost(s): Ghost<nat>) -> (r: Dec)
    requires
        fits_at(a, s),
        fits_at(b, s),
        -bound_at(s) <= a.val() + b.val() <= bound_at(s),
    ensures
        r.val() == a.val() + b.val(),
        fits_at(r, s),
        r.spec_scale() <= max_scale(a, b),
{
    proof {
        lemma_representable(a.val() + b.val(), a, b, s);
    }
    match dec_checked_add(a, b) {
        Some(x) => {
            proof {
                lemma_fits_result(x, a, b, s);
            }
            x
        },
        None => {
            proof {
                assert(false);
            }
            a
        },
    }
}

/// Exact subtraction of two amounts that fit at scale `s`, whose difference
/// fits too.
pub(crate) fn sub_at(a: Dec, b: Dec, Ghost(s): Ghost<nat>) -> (r: Dec)
    requires
        fits_at(a, s),
        fits_at(b, s),
        -bound_at(s) <= a.val() - b.val() <= bound_at(s),
    ensures
        r.val() == a.val() - b.val(),
        fits_at(r, s),
        r.spec_scale() <= max_scale(a, b),
{
    proof {
        lemma_representable(a.val() - b.val(), a, b, s);
    }
    match dec_checked_sub(a, b) {
        Some(x) => {
            proof {
                lemma_fits_result(x, a, b, s);
            }
            x
        },
        None => {
            proof {
                assert(false);
            }
            a
        },
    }
}

/// Exact product of two amounts whose product is representable.
pub(crate) fn mul_exact(a: Dec, b: Dec) -> (r: Dec)
    requires
        product_representable(a, b),
    ensures
        r.val() * one_units() == a.val() * b.val(),
        r.spec_scale() <= a.spec_scale() + b.spec_scale(),
{
    match dec_checked_mul(a, b) {
        Some(x) => x,
        None => {
            proof {
                assert(false);
            }
            a
        },
    }
}

/// The value of a product of two amounts, in value units.
pub open spec fn product_value(a: int, b: int) -> int {
    a * b / one_units()
}

/// Exact product of amounts that fit at scales `sa` and `sb`, when the
/// scale `s` has room for both and for the product's value.
pub(crate) fn mul_at(a: Dec, b: Dec, Ghost(sa): Ghost<nat>, Ghost(sb): Ghost<nat>, Ghost(s): Ghost<nat>) -> (r: Dec)
    requires
        fits_at(a, sa),
        fits_at(b, sb),
        sa + sb <= s <= 28,
        -bound_at(s) <= product_value(a.val(), b.val()) <= bound_at(s),
    ensures
        r.val() == product_value(a.val(), b.val()),
        fits_at(r, s),
        r.spec_scale() <= a.spec_scale() + b.spec_scale(),
{
    proof {
        use_type_invariant(&a);
        use_type_invariant(&b);
        let ea = (28 - a.scale) as nat;
        let eb = (28 - b.scale) as nat;
        let ec = (28 - a.scale - b.scale) as nat;
        lemma_pow10_add(ea, eb);
        lemma_pow10_add(ec, 28);
        lemma_pow10_28();
        assert(ea + eb == ec + 28);
        let ma = a.mantissa as int;
        let mb = b.mantissa as int;
        let x = ma * mb * pow10(ec);
        assert(a.val() * b.val() == x * one_units()) by (nonlinear_arith)
            requires
                a.val() == ma * pow10(ea),
                b.val() == mb * pow10(eb),
                pow10(ea + eb) == pow10(ea) * pow10(eb),
                pow10(ea + eb) == pow10(ec) * one_units(),
                x == ma * mb * pow10(ec),
        ;
        assert(product_value(a.val(), b.val()) == x) by (nonlinear_arith)
            requires
                a.val() * b.val() == x * one_units(),
                one_units() > 0,
        ;
        let f = (56 - sa - sb) as nat;
        lemma_pow10_add((28 - s) as nat, 28);
        lemma_pow10_mono((56 - s) as nat, f);
        assert(bound_at(s) * one_units() == max_mantissa() * pow10((56 - s) as nat)) by (nonlinear_arith)
            requires
                bound_at(s) == max_mantissa() * pow10((28 - s) as nat),
                pow10(((28 - s) as nat + 28) as nat) == pow10((28 - s) as nat) * pow10(28),
                ((28 - s) as nat + 28) as nat == (56 - s) as nat,
                pow10(28) == one_units(),
        ;
        assert(-(max_mantissa() * pow10(f)) <= a.val() * b.val() <= max_mantissa() * pow10(f)) by (nonlinear_arith)
            requires
                a.val() * b.val() == x * one_units(),
                -bound_at(s) <= x <= bound_at(s),
                bound_at(s) * one_units() == max_mantissa() * pow10((56 - s) as nat),
                pow10((56 - s) as nat) <= pow10(f),
                one_units() > 0,
                max_mantissa() > 0,
        ;
        lemma_product_representable(a, b, sa, sb);
    }
    let r = mul_exact(a, b);
    proof {
        let x = product_value(a.val(), b.val());
        assert(r.val() == x) by (nonlinear_arith)
            requires
                r.val() * one_units() == a.val() * b.val(),
                a.val() * b.val() == x * one_units(),
                one_units() > 0,
        {
        }
    }
    r
}

impl PartialEq for Dec {
    fn eq(&self, other: &Dec) -> (r: bool) {
        self.same_value(other)
    }
}

impl vstd::std_specs::cmp::PartialEqSpecImpl for Dec {
    open spec fn obeys_eq_spec() -> bool {
        true
    }

    open spec fn eq_spec(&self, other: &Dec) -> bool {
        self.val() == other.val()
    }
}

} // verus!
