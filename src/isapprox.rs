use vstd::prelude::*;

verus! {

/// The sign bit of a binary64 bit pattern.
pub const SIGN_BIT: u64 = 0x8000_0000_0000_0000;

/// The bit pattern of positive infinity; a magnitude above it is a NaN.
pub const INFINITY_BITS: u64 = 0x7FF0_0000_0000_0000;

/// The bit pattern of `1e-8`, the default absolute tolerance.
pub const ATOL_DEFAULT_BITS: u64 = 0x3E45_798E_E230_8C3A;

/// The bit pattern of `2^-26`, the square root of the binary64 machine
/// epsilon `2^-52`, the default relative tolerance.
pub const RTOL_DEFAULT_BITS: u64 = 0x3E50_0000_0000_0000;

/// The bit pattern with the sign bit cleared: the absolute value.
pub open spec fn magnitude_spec(b: u64) -> u64 {
    if b >= SIGN_BIT { (b - SIGN_BIT) as u64 } else { b }
}

pub open spec fn is_nan_spec(b: u64) -> bool {
    magnitude_spec(b) > INFINITY_BITS
}

/// A number below zero: the sign bit set, and neither a zero nor a NaN.
pub open spec fn is_negative_spec(b: u64) -> bool {
    b >= SIGN_BIT && magnitude_spec(b) != 0 && !is_nan_spec(b)
}

/// Two non-NaN bit patterns that stand for the same number: equal patterns,
/// or the two zeros.
pub open spec fn same_value_spec(x: u64, y: u64) -> bool {
    x == y || (magnitude_spec(x) == 0 && magnitude_spec(y) == 0)
}

/// The key of the total order used for sorting: for non-NaN values it grows
/// with the number (both zeros share one key) and every NaN sorts above all
/// of them.
pub open spec fn order_key_spec(b: u64) -> u64 {
    if is_nan_spec(b) {
        u64::MAX
    } else if b >= SIGN_BIT {
        (SIGN_BIT - magnitude_spec(b)) as u64
    } else {
        (SIGN_BIT + b) as u64
    }
}

/// Clears the sign bit.
#[verifier::when_used_as_spec(magnitude_spec)]
pub fn magnitude(b: u64) -> (r: u64)
    ensures
        r == magnitude_spec(b),
{
    if b >= SIGN_BIT { b - SIGN_BIT } else { b }
}

/// Whether the bit pattern is a NaN (all exponent bits set and a nonzero
/// fraction).
#[verifier::when_used_as_spec(is_nan_spec)]
pub fn is_nan(b: u64) -> (r: bool)
    ensures
        r == is_nan_spec(b),
{
    magnitude(b) > INFINITY_BITS
}

/// Whether the bit pattern is a number below zero.
#[verifier::when_used_as_spec(is_negative_spec)]
pub fn is_negative(b: u64) -> (r: bool)
    ensures
        r == is_negative_spec(b),
{
    b >= SIGN_BIT && magnitude(b) != 0 && !is_nan(b)
}

/// Whether two non-NaN bit patterns stand for the same number.
#[verifier::when_used_as_spec(same_value_spec)]
pub fn same_value(x: u64, y: u64) -> (r: bool)
    ensures
        r == same_value_spec(x, y),
{
    x == y || (magnitude(x) == 0 && magnitude(y) == 0)
}

/// The sort key of a value; see `order_key_spec`.
#[verifier::when_used_as_spec(order_key_spec)]
pub fn order_key(b: u64) -> (r: u64)
    ensures
        r == order_key_spec(b),
{
    if is_nan(b) {
        u64::MAX
    } else if b >= SIGN_BIT {
        SIGN_BIT - magnitude(b)
    } else {
        SIGN_BIT + b
    }
}

/// How two NaN operands compare.
#[derive(Debug, Clone, Copy, PartialEq, Eq, Structural)]
pub enum NanComparison {
    Equal,
    NotEqual,
}

impl Default for NanComparison {
    fn default() -> (r: Self)
        ensures
            r == NanComparison::Equal,
    {
        NanComparison::Equal
    }
}

impl From<bool> for NanComparison {
    fn from(value: bool) -> (r: Self) {
        if value {
            NanComparison::Equal
        } else {
            NanComparison::NotEqual
        }
    }
}

impl vstd::std_specs::convert::FromSpecImpl<bool> for NanComparison {
    open spec fn obeys_from_spec() -> bool {
        true
    }

    open spec fn from_spec(value: bool) -> NanComparison {
        if value {
            NanComparison::Equal
        } else {
            NanComparison::NotEqual
        }
    }
}

impl From<NanComparison> for bool {
    fn from(value: NanComparison) -> (r: bool) {
        value == NanComparison::Equal
    }
}

impl vstd::std_specs::convert::FromSpecImpl<NanComparison> for bool {
    open spec fn obeys_from_spec() -> bool {
        true
    }

    open spec fn from_spec(value: NanComparison) -> bool {
        value == NanComparison::Equal
    }
}


/// Why a tolerance pair was refused: the offending bit pattern, a negative
/// number.
#[derive(Debug, Clone, Copy, PartialEq, Eq, Structural)]
pub enum TolsError {
    NegativeAtol(u64),
    NegativeRtol(u64),
}

impl TolsError {
    /// The message of the error, naming the tolerance that was refused; the
    /// offending value is the variant's field.
    pub fn message(&self) -> (r: String)
        ensures
            self matches TolsError::NegativeAtol(_) ==> r@ == "atol must be non-negative"@,
            self matches TolsError::NegativeRtol(_) ==> r@ == "rtol must be non-negative"@,
    {
        match self {
            TolsError::NegativeAtol(_) => String::from_str("atol must be non-negative"),
            TolsError::NegativeRtol(_) => String::from_str("rtol must be non-negative"),
        }
    }
}

/// An absolute and a relative tolerance, neither of them negative.
#[derive(Debug, Clone, Copy, PartialEq, Eq, Structural)]
pub struct Tols {
    pub atol: u64,
    pub rtol: u64,
}

impl Tols {
    pub open spec fn wf(self) -> bool {
        !is_negative_spec(self.atol) && !is_negative_spec(self.rtol)
    }

    /// Builds a tolerance pair, keeping both bit patterns as given. A
    /// negative tolerance is refused, the absolute one first; `-0.0` is not
    /// negative and is accepted, and so is every NaN, whatever its sign bit.
    pub fn new(atol: u64, rtol: u64) -> (r: Result<Tols, TolsError>)
        ensures
            is_negative_spec(atol) ==> r == Err::<Tols, TolsError>(TolsError::NegativeAtol(atol)),
            !is_negative_spec(atol) && is_negative_spec(rtol) ==> r == Err::<Tols, TolsError>(
                TolsError::NegativeRtol(rtol),
            ),
            !is_negative_spec(atol) && !is_negative_spec(rtol) ==> r == Ok::<Tols, TolsError>(
                (Tols { atol, rtol }),
            ),
            r matches Ok(t) ==> t.wf(),
    {
        if is_negative(atol) {
            Err(TolsError::NegativeAtol(atol))
        } else if is_negative(rtol) {
            Err(TolsError::NegativeRtol(rtol))
        } else {
            Ok(Tols { atol, rtol })
        }
    }
}

impl Default for Tols {
    /// `1e-8` absolute and `2^-26` (the square root of machine epsilon)
    /// relative.
    fn default() -> (r: Self)
        ensures
            r == (Tols { atol: ATOL_DEFAULT_BITS, rtol: RTOL_DEFAULT_BITS }),
            r.wf(),
    {
        Tols { atol: ATOL_DEFAULT_BITS, rtol: RTOL_DEFAULT_BITS }
    }
}

/// The envelope test may be called on any pair of values and tolerances.
pub open spec fn envelope_total<E: Fn(u64, u64, Tols) -> bool>(envelope: E) -> bool {
    forall|x: u64, y: u64, t: Tols| call_requires(envelope, (x, y, t))
}

/// `r` is a possible answer of `isapprox(x, y, tols, nan_cmp, envelope)`:
/// two NaNs compare as `nan_cmp` says, a NaN never equals a number, the same
/// number always equals itself, and two distinct numbers are equal exactly
/// when the envelope test said so.
pub open spec fn isapprox_outcome<E: Fn(u64, u64, Tols) -> bool>(
    x: u64,
    y: u64,
    tols: Tols,
    nan_cmp: NanComparison,
    envelope: E,
    r: bool,
) -> bool {
    if is_nan_spec(x) && is_nan_spec(y) {
        r == (nan_cmp == NanComparison::Equal)
    } else if is_nan_spec(x) || is_nan_spec(y) {
        !r
    } else if same_value_spec(x, y) {
        r
    } else {
        call_ensures(envelope, (x, y, tols), r)
    }
}

/// Whether `x` and `y` are equal within `tols`. The NaN rules and the exact
/// match are decided here; for two distinct numbers the answer is that of
/// `envelope`, the test `|x - y| <= max(atol, rtol * max(|x|, |y|))` in
/// floating-point arithmetic.
pub fn isapprox<E: Fn(u64, u64, Tols) -> bool>(
    x: u64,
    y: u64,
    tols: Tols,
    nan_cmp: NanComparison,
    envelope: &E,
) -> (r: bool)
    requires
        envelope_total(*envelope),
    ensures
        isapprox_outcome(x, y, tols, nan_cmp, *envelope, r),
{
    if is_nan(x) && is_nan(y) {
        return nan_cmp == NanComparison::Equal;
    }
    if is_nan(x) || is_nan(y) {
        return false;
    }
    if same_value(x, y) {
        return true;
    }
    envelope(x, y, tols)
}

/// The envelope test gives the same answer with its operands swapped, as
/// `|x - y| <= max(atol, rtol * max(|x|, |y|))` does.
pub open spec fn envelope_symmetric<E: Fn(u64, u64, Tols) -> bool>(envelope: E) -> bool {
    forall|x: u64, y: u64, t: Tols, r: bool|
        #[trigger] call_ensures(envelope, (x, y, t), r) ==> call_ensures(envelope, (y, x, t), r)
}

/// The envelope test answers each question one way only.
pub open spec fn envelope_deterministic<E: Fn(u64, u64, Tols) -> bool>(envelope: E) -> bool {
    forall|x: u64, y: u64, t: Tols, r1: bool, r2: bool|
        #[trigger] call_ensures(envelope, (x, y, t), r1) && #[trigger] call_ensures(
            envelope,
            (x, y, t),
            r2,
        ) ==> r1 == r2
}

/// Approximate equality is symmetric: an answer for `(x, y)` is also one for
/// `(y, x)`, given a symmetric envelope test.
pub proof fn lemma_isapprox_symmetric<E: Fn(u64, u64, Tols) -> bool>(
    x: u64,
    y: u64,
    tols: Tols,
    nan_cmp: NanComparison,
    envelope: E,
    r: bool,
)
    requires
        envelope_symmetric(envelope),
        isapprox_outcome(x, y, tols, nan_cmp, envelope, r),
    ensures
        isapprox_outcome(y, x, tols, nan_cmp, envelope, r),
{
    if !is_nan_spec(x) && !is_nan_spec(y) && !same_value_spec(x, y) {
        assert(call_ensures(envelope, (x, y, tols), r));
    }
}

/// Every number is approximately equal to itself, whatever the tolerances
/// and the NaN rule.
pub proof fn lemma_isapprox_reflexive<E: Fn(u64, u64, Tols) -> bool>(
    x: u64,
    tols: Tols,
    nan_cmp: NanComparison,
    envelope: E,
    r: bool,
)
    requires
        !is_nan_spec(x),
        isapprox_outcome(x, x, tols, nan_cmp, envelope, r),
    ensures
        r,
{
}

/// Two NaNs compare as the NaN rule says, and a NaN never equals a number.
pub proof fn lemma_isapprox_nan<E: Fn(u64, u64, Tols) -> bool>(
    x: u64,
    y: u64,
    tols: Tols,
    nan_cmp: NanComparison,
    envelope: E,
    r: bool,
)
    requires
        is_nan_spec(x),
        isapprox_outcome(x, y, tols, nan_cmp, envelope, r),
    ensures
        is_nan_spec(y) ==> (r <==> nan_cmp == NanComparison::Equal),
        !is_nan_spec(y) ==> !r,
{
}

} // verus!
