//! Scalar values, rows and column types.

use vstd::arithmetic::power2::*;
use vstd::prelude::*;

use crate::text::same_text;

verus! {

/// Resolution of a timestamp type.
#[derive(Clone, Copy, Debug, PartialEq, Eq, Structural)]
pub enum TimeUnit {
    Second,
    Millisecond,
    Microsecond,
    Nanosecond,
}

/// Type of a column or of a cast target.
#[derive(Debug, PartialEq, Eq)]
pub enum DataType {
    Null,
    Boolean,
    Int16,
    Int32,
    Int64,
    UInt64,
    Float32,
    Float64,
    Utf8,
    Binary,
    Date32,
    /// A timestamp with its unit and, where it has one, its time zone.
    Timestamp(TimeUnit, Option<String>),
    /// A decimal with its precision and scale.
    Decimal128(u8, i8),
    /// Any other type, by name.
    Other(String),
}

/// A typed value that may be null.
#[derive(Debug, PartialEq, Eq)]
pub enum ScalarValue {
    /// A null without a type.
    Null,
    Boolean(Option<bool>),
    Int64(Option<i64>),
    /// The bits of a double precision number.
    Float64(Option<u64>),
    Utf8(Option<String>),
    /// Milliseconds since the epoch and, where it has one, the time zone.
    TimestampMillisecond(Option<i64>, Option<String>),
    /// A value of a type that is only carried along: the type's name and the value's text.
    Other(String, Option<String>),
}

/// A row is one value per column.
pub type Row = Vec<ScalarValue>;

/// What a `ScalarValue` stands for, with text as a sequence of characters.
pub enum ScalarView {
    Null,
    Boolean(Option<bool>),
    Int64(Option<i64>),
    Float64(Option<u64>),
    Utf8(Option<Seq<char>>),
    TimestampMillisecond(Option<i64>, Option<Seq<char>>),
    Other(Seq<char>, Option<Seq<char>>),
}

/// An optional text as its characters.
pub open spec fn opt_text(text: Option<String>) -> Option<Seq<char>> {
    match text {
        Some(t) => Some(t@),
        None => None,
    }
}

/// An optional value as the value it stands for.
pub open spec fn opt_value(value: Option<ScalarValue>) -> Option<ScalarView> {
    match value {
        Some(v) => Some(v@),
        None => None,
    }
}

impl View for ScalarValue {
    type V = ScalarView;

    open spec fn view(&self) -> ScalarView {
        match *self {
            ScalarValue::Null => ScalarView::Null,
            ScalarValue::Boolean(v) => ScalarView::Boolean(v),
            ScalarValue::Int64(v) => ScalarView::Int64(v),
            ScalarValue::Float64(v) => ScalarView::Float64(v),
            ScalarValue::Utf8(v) => ScalarView::Utf8(opt_text(v)),
            ScalarValue::TimestampMillisecond(v, tz) => ScalarView::TimestampMillisecond(
                v,
                opt_text(tz),
            ),
            ScalarValue::Other(kind, v) => ScalarView::Other(kind@, opt_text(v)),
        }
    }
}

/// Whether two types are the same, with texts compared by their characters.
pub open spec fn same_type(a: DataType, b: DataType) -> bool {
    match (a, b) {
        (DataType::Timestamp(unit, zone), DataType::Timestamp(other, other_zone)) => unit == other
            && opt_text(zone) == opt_text(other_zone),
        (DataType::Other(name), DataType::Other(other)) => name@ == other@,
        _ => a == b,
    }
}

/// A row as the values it stands for.
pub open spec fn row_view(row: Seq<ScalarValue>) -> Seq<ScalarView> {
    Seq::new(row.len(), |i: int| row[i]@)
}

/// Whether a value is null, whatever its type.
pub open spec fn null_value(value: ScalarView) -> bool {
    match value {
        ScalarView::Null => true,
        ScalarView::Boolean(v) => v is None,
        ScalarView::Int64(v) => v is None,
        ScalarView::Float64(v) => v is None,
        ScalarView::Utf8(v) => v is None,
        ScalarView::TimestampMillisecond(v, _) => v is None,
        ScalarView::Other(_, v) => v is None,
    }
}

/// Whether two values are the same: same type and same content, whatever the time zone. Nulls of
/// one type are the same.
pub open spec fn same_value(a: ScalarView, b: ScalarView) -> bool {
    match (a, b) {
        (
            ScalarView::TimestampMillisecond(v, _),
            ScalarView::TimestampMillisecond(w, _),
        ) => v == w,
        _ => a == b,
    }
}

/// Whether two rows are the same, value by value.
pub open spec fn same_row(a: Seq<ScalarView>, b: Seq<ScalarView>) -> bool {
    a.len() == b.len() && forall|i: int| 0 <= i < a.len() ==> same_value(#[trigger] a[i], b[i])
}

fn clone_opt_text(text: &Option<String>) -> (copy: Option<String>)
    ensures
        copy == *text,
{
    match text {
        Some(t) => Some(t.clone()),
        None => None,
    }
}

fn same_opt_text(a: &Option<String>, b: &Option<String>) -> (same: bool)
    ensures
        same == (opt_text(*a) == opt_text(*b)),
{
    match (a, b) {
        (Some(x), Some(y)) => same_text(x.as_str(), y.as_str()),
        (None, None) => true,
        _ => false,
    }
}

impl Clone for ScalarValue {
    fn clone(&self) -> (copy: Self)
        ensures
            copy == *self,
    {
        match self {
            ScalarValue::Null => ScalarValue::Null,
            ScalarValue::Boolean(v) => ScalarValue::Boolean(*v),
            ScalarValue::Int64(v) => ScalarValue::Int64(*v),
            ScalarValue::Float64(v) => ScalarValue::Float64(*v),
            ScalarValue::Utf8(v) => ScalarValue::Utf8(clone_opt_text(v)),
            ScalarValue::TimestampMillisecond(v, tz) => ScalarValue::TimestampMillisecond(
                *v,
                clone_opt_text(tz),
            ),
            ScalarValue::Other(kind, v) => ScalarValue::Other(kind.clone(), clone_opt_text(v)),
        }
    }
}

impl Clone for DataType {
    fn clone(&self) -> (copy: Self)
        ensures
            copy == *self,
    {
        match self {
            DataType::Null => DataType::Null,
            DataType::Boolean => DataType::Boolean,
            DataType::Int16 => DataType::Int16,
            DataType::Int32 => DataType::Int32,
            DataType::Int64 => DataType::Int64,
            DataType::UInt64 => DataType::UInt64,
            DataType::Float32 => DataType::Float32,
            DataType::Float64 => DataType::Float64,
            DataType::Utf8 => DataType::Utf8,
            DataType::Binary => DataType::Binary,
            DataType::Date32 => DataType::Date32,
            DataType::Timestamp(unit, zone) => DataType::Timestamp(*unit, clone_opt_text(zone)),
            DataType::Decimal128(precision, scale) => DataType::Decimal128(*precision, *scale),
            DataType::Other(name) => DataType::Other(name.clone()),
        }
    }
}

impl DataType {
    /// Whether two types are the same.
    pub fn same(&self, other: &DataType) -> (same: bool)
        ensures
            same == same_type(*self, *other),
    {
        match (self, other) {
            (DataType::Null, DataType::Null) => true,
            (DataType::Boolean, DataType::Boolean) => true,
            (DataType::Int16, DataType::Int16) => true,
            (DataType::Int32, DataType::Int32) => true,
            (DataType::Int64, DataType::Int64) => true,
            (DataType::UInt64, DataType::UInt64) => true,
            (DataType::Float32, DataType::Float32) => true,
            (DataType::Float64, DataType::Float64) => true,
            (DataType::Utf8, DataType::Utf8) => true,
            (DataType::Binary, DataType::Binary) => true,
            (DataType::Date32, DataType::Date32) => true,
            (
                DataType::Timestamp(unit, zone),
                DataType::Timestamp(other_unit, other_zone),
            ) => *unit == *other_unit && same_opt_text(zone, other_zone),
            (
                DataType::Decimal128(precision, scale),
                DataType::Decimal128(other_precision, other_scale),
            ) => *precision == *other_precision && *scale == *other_scale,
            (DataType::Other(name), DataType::Other(other_name)) => same_text(
                name.as_str(),
                other_name.as_str(),
            ),
            _ => false,
        }
    }
}

impl ScalarValue {
    /// Whether the value is null, whatever its type.
    pub fn is_null(&self) -> (null: bool)
        ensures
            null == null_value(self@),
    {
        match self {
            ScalarValue::Null => true,
            ScalarValue::Boolean(v) => v.is_none(),
            ScalarValue::Int64(v) => v.is_none(),
            ScalarValue::Float64(v) => v.is_none(),
            ScalarValue::Utf8(v) => v.is_none(),
            ScalarValue::TimestampMillisecond(v, _) => v.is_none(),
            ScalarValue::Other(_, v) => v.is_none(),
        }
    }

    /// Whether two values are the same: same type and same content, whatever the time zone.
    pub fn same(&self, other: &ScalarValue) -> (same: bool)
        ensures
            same == same_value(self@, other@),
    {
        match (self, other) {
            (ScalarValue::Null, ScalarValue::Null) => true,
            (ScalarValue::Boolean(a), ScalarValue::Boolean(b)) => *a == *b,
            (ScalarValue::Int64(a), ScalarValue::Int64(b)) => *a == *b,
            (ScalarValue::Float64(a), ScalarValue::Float64(b)) => *a == *b,
            (ScalarValue::Utf8(a), ScalarValue::Utf8(b)) => same_opt_text(a, b),
            (
                ScalarValue::TimestampMillisecond(a, _),
                ScalarValue::TimestampMillisecond(b, _),
            ) => *a == *b,
            (ScalarValue::Other(k, a), ScalarValue::Other(l, b)) => same_text(
                k.as_str(),
                l.as_str(),
            ) && same_opt_text(a, b),
            _ => false,
        }
    }
}

/// The quotient rounded to the nearest integer, and to the even one of two that are as near.
pub open spec fn nearest_even(m: nat, d: nat) -> nat {
    let quotient = m / d;
    let rest = m % d;
    if 2 * rest > d || (2 * rest == d && quotient % 2 == 1) {
        quotient + 1
    } else {
        quotient
    }
}

/// The bits of the double that is `m` times two to the power of `exponent - 1075`, for a number
/// that needs no rounding.
pub open spec fn exact_bits(m: nat, exponent: nat) -> nat
    decreases exponent,
{
    if m == 0 || exponent == 0 {
        0
    } else if m >= 0x10_0000_0000_0000 {
        (exponent * 0x10_0000_0000_0000 + (m - 0x10_0000_0000_0000)) as nat
    } else {
        exact_bits(2 * m, (exponent - 1) as nat)
    }
}

/// The power of two by which a number from two to the power of fifty-three on is divided to fit
/// into fifty-three bits, and the exponent that goes with it.
pub open spec fn fitting_scale(m: nat) -> (nat, nat) {
    if m < 0x40_0000_0000_0000 {
        (2, 1076)
    } else if m < 0x80_0000_0000_0000 {
        (4, 1077)
    } else if m < 0x100_0000_0000_0000 {
        (8, 1078)
    } else if m < 0x200_0000_0000_0000 {
        (16, 1079)
    } else if m < 0x400_0000_0000_0000 {
        (32, 1080)
    } else if m < 0x800_0000_0000_0000 {
        (64, 1081)
    } else if m < 0x1000_0000_0000_0000 {
        (128, 1082)
    } else if m < 0x2000_0000_0000_0000 {
        (256, 1083)
    } else if m < 0x4000_0000_0000_0000 {
        (512, 1084)
    } else if m < 0x8000_0000_0000_0000 {
        (1024, 1085)
    } else {
        (2048, 1086)
    }
}

/// The bits of the double nearest to a number from two to the power of fifty-three on, with ties
/// to even.
pub open spec fn rounded_bits(m: nat) -> nat {
    let (divisor, exponent) = fitting_scale(m);
    (exponent * 0x10_0000_0000_0000 + (nearest_even(m, divisor) - 0x10_0000_0000_0000)) as nat
}

/// The bits of the double nearest to an integer, with ties to even.
pub open spec fn double_bits(v: int) -> nat {
    let m = if v < 0 {
        (-v) as nat
    } else {
        v as nat
    };
    let magnitude = if m < 0x20_0000_0000_0000 {
        exact_bits(m, 1075)
    } else {
        rounded_bits(m)
    };
    if v < 0 {
        0x8000_0000_0000_0000 + magnitude
    } else {
        magnitude
    }
}

/// The bits of the double that equals a number below two to the power of fifty-three.
fn exact_double(m: u64) -> (bits: u64)
    requires
        m < 0x20_0000_0000_0000,
    ensures
        bits == exact_bits(m as nat, 1075),
        bits < 0x8000_0000_0000_0000,
{
    if m == 0 {
        return 0;
    }
    let mut scaled: u64 = m;
    let mut exponent: u64 = 1075;
    proof {
        lemma2_to64();
        lemma2_to64_rest();
    }
    while scaled < 0x10_0000_0000_0000
        invariant
            pow2(0) <= scaled < 0x20_0000_0000_0000,
            pow2(52) == 0x10_0000_0000_0000,
            1075 - 53 <= exponent <= 1075,
            scaled >= pow2((1075 - exponent) as nat),
            exact_bits(m as nat, 1075) == exact_bits(scaled as nat, exponent as nat),
        decreases exponent,
    {
        proof {
            if 1075 - exponent > 52 {
                lemma_pow2_strictly_increases(52, (1075 - exponent) as nat);
            }
            lemma_pow2_unfold((1075 - exponent + 1) as nat);
            lemma_pow2_pos((1075 - exponent) as nat);
        }
        scaled = 2 * scaled;
        exponent = exponent - 1;
    }
    exponent * 0x10_0000_0000_0000 + (scaled - 0x10_0000_0000_0000)
}

/// The bits of the double nearest to a number from two to the power of fifty-three on.
fn rounded_double(m: u64) -> (bits: u64)
    requires
        m >= 0x20_0000_0000_0000,
        m <= 0x8000_0000_0000_0000,
    ensures
        bits == rounded_bits(m as nat),
        bits < 0x8000_0000_0000_0000,
{
    let (quotient, rest, divisor, exponent): (u64, u64, u64, u64) = if m < 0x40_0000_0000_0000 {
        (m / 2, m % 2, 2, 1076)
    } else if m < 0x80_0000_0000_0000 {
        (m / 4, m % 4, 4, 1077)
    } else if m < 0x100_0000_0000_0000 {
        (m / 8, m % 8, 8, 1078)
    } else if m < 0x200_0000_0000_0000 {
        (m / 16, m % 16, 16, 1079)
    } else if m < 0x400_0000_0000_0000 {
        (m / 32, m % 32, 32, 1080)
    } else if m < 0x800_0000_0000_0000 {
        (m / 64, m % 64, 64, 1081)
    } else if m < 0x1000_0000_0000_0000 {
        (m / 128, m % 128, 128, 1082)
    } else if m < 0x2000_0000_0000_0000 {
        (m / 256, m % 256, 256, 1083)
    } else if m < 0x4000_0000_0000_0000 {
        (m / 512, m % 512, 512, 1084)
    } else if m < 0x8000_0000_0000_0000 {
        (m / 1024, m % 1024, 1024, 1085)
    } else {
        (m / 2048, m % 2048, 2048, 1086)
    };
    let nearest: u64 = if 2 * rest > divisor || (2 * rest == divisor && quotient % 2 == 1) {
        quotient + 1
    } else {
        quotient
    };
    exponent * 0x10_0000_0000_0000 + (nearest - 0x10_0000_0000_0000)
}

/// The bits of the double nearest to an integer, with ties to even.
pub fn double_of(v: i64) -> (bits: u64)
    ensures
        bits == double_bits(v as int),
{
    let m: u64 = if v < 0 {
        if v == i64::MIN {
            0x8000_0000_0000_0000
        } else {
            (-v) as u64
        }
    } else {
        v as u64
    };
    let magnitude: u64 = if m < 0x20_0000_0000_0000 {
        exact_double(m)
    } else {
        rounded_double(m)
    };
    if v < 0 {
        0x8000_0000_0000_0000 + magnitude
    } else {
        magnitude
    }
}

/// Whether two rows are the same, value by value.
pub fn rows_same(a: &Row, b: &Row) -> (same: bool)
    ensures
        same == same_row(row_view(a@), row_view(b@)),
{
    if a.len() != b.len() {
        return false;
    }
    let mut i: usize = 0;
    while i < a.len()
        invariant
            i <= a@.len(),
            a@.len() == b@.len(),
            forall|j: int|
                0 <= j < i ==> same_value(#[trigger] row_view(a@)[j], row_view(b@)[j]),
        decreases a@.len() - i,
    {
        if !a[i].same(&b[i]) {
            assert(!same_value(row_view(a@)[i as int], row_view(b@)[i as int]));
            return false;
        }
        i = i + 1;
    }
    true
}

/// A copy of a row.
pub fn clone_row(row: &Row) -> (copy: Row)
    ensures
        copy@ == row@,
{
    let copy = row.clone();
    assert(copy@ =~= row@);
    copy
}

/// The values of one row followed by those of another.
pub fn concat_rows(left: &Row, right: &Row) -> (row: Row)
    ensures
        row@ == left@ + right@,
        row_view(row@) == row_view(left@) + row_view(right@),
{
    let mut row: Row = clone_row(left);
    let mut tail: Row = clone_row(right);
    row.append(&mut tail);
    assert(row_view(row@) =~= row_view(left@) + row_view(right@));
    row
}

/// A value stands for its content, of its type, and a row for its values in their order.
pub proof fn law_values_stand_for_themselves(
    b: Option<bool>,
    v: Option<i64>,
    bits: Option<u64>,
    shown: String,
    zone: String,
    row: Seq<ScalarValue>,
)
    ensures
        ScalarValue::Null@ == ScalarView::Null,
        ScalarValue::Boolean(b)@ == ScalarView::Boolean(b),
        ScalarValue::Int64(v)@ == ScalarView::Int64(v),
        ScalarValue::Float64(bits)@ == ScalarView::Float64(bits),
        ScalarValue::Utf8(Some(shown))@ == ScalarView::Utf8(Some(shown@)),
        ScalarValue::Utf8(None)@ == ScalarView::Utf8(None),
        ScalarValue::TimestampMillisecond(v, Some(zone))@ == ScalarView::TimestampMillisecond(
            v,
            Some(zone@),
        ),
        ScalarValue::TimestampMillisecond(v, None)@ == ScalarView::TimestampMillisecond(v, None),
        ScalarValue::Other(shown, Some(zone))@ == ScalarView::Other(shown@, Some(zone@)),
        row_view(row).len() == row.len(),
        forall|i: int| 0 <= i < row.len() ==> (#[trigger] row_view(row)[i]) == row[i]@,
{
}

/// Being the same value is an equivalence, and values that are the same are equal but for the time
/// zone of a moment.
pub proof fn law_same_values(a: ScalarView, b: ScalarView, c: ScalarView)
    ensures
        same_value(a, a),
        same_value(a, b) == same_value(b, a),
        same_value(a, b) && same_value(b, c) ==> same_value(a, c),
        !(a is TimestampMillisecond) ==> same_value(a, b) == (a == b),
        a matches ScalarView::TimestampMillisecond(x, _) ==> same_value(a, b) == (b
            matches ScalarView::TimestampMillisecond(y, _) && x == y),
{
}

/// Rows are the same where they have the same number of values, and the same value at each
/// position.
pub proof fn law_same_rows(a: Seq<ScalarView>, b: Seq<ScalarView>, i: int)
    requires
        0 <= i < a.len(),
    ensures
        same_row(a, a),
        same_row(a, b) ==> a.len() == b.len() && same_value(a[i], b[i]),
        a.len() == b.len() && !same_value(a[i], b[i]) ==> !same_row(a, b),
        a.len() != b.len() ==> !same_row(a, b),
{
    if same_row(a, b) {
        assert(same_value(a[i], b[i]));
    }
}

/// Types are the same where they are equal, texts in them by their characters.
pub proof fn law_same_types(a: DataType, b: DataType)
    ensures
        same_type(a, a),
        same_type(a, b) == same_type(b, a),
        same_type(a, b) && !(a is Timestamp) && !(a is Other) ==> a == b,
        a matches DataType::Timestamp(unit, zone) ==> same_type(a, b) == (b
            matches DataType::Timestamp(other, told) && other == unit && opt_text(zone) == opt_text(
            told,
        )),
{
}

/// The double of an integer of no more than fifty-three bits is the integer: its fraction, with the
/// one in front that is not written, is the integer times as many twos as its exponent is below
/// that of fifty-three bits. The bits of a negative integer are those of its opposite, with the
/// sign.
pub proof fn law_small_integers_are_exact_doubles(v: int)
    requires
        -0x20_0000_0000_0000 < v < 0x20_0000_0000_0000,
    ensures
        v == 0 ==> double_bits(v) == 0,
        v < 0 ==> double_bits(v) == 0x8000_0000_0000_0000 + double_bits(-v),
        v > 0 ==> {
            let exponent = double_bits(v) / 0x10_0000_0000_0000;
            let fraction = double_bits(v) % 0x10_0000_0000_0000;
            &&& 1023 <= exponent <= 1075
            &&& 0x10_0000_0000_0000 + fraction == v * pow2((1075 - exponent) as nat)
        },
{
    if v > 0 {
        lemma2_to64();
        lemma2_to64_rest();
        assert(v * pow2(52) >= 0x10_0000_0000_0000) by (nonlinear_arith)
            requires
                v >= 1,
                pow2(52) == 0x10_0000_0000_0000,
        ;
        lemma_exact_bits(v as nat, 1075, 52);
    }
}

proof fn lemma_exact_bits(m: nat, exponent: nat, room: nat)
    requires
        0 < m < 0x20_0000_0000_0000,
        room < exponent,
        m * pow2(room) >= 0x10_0000_0000_0000,
    ensures
        ({
            let bits = exact_bits(m, exponent);
            let e = bits / 0x10_0000_0000_0000;
            let f = bits % 0x10_0000_0000_0000;
            &&& exponent - room <= e <= exponent
            &&& 0x10_0000_0000_0000 + f == m * pow2((exponent - e) as nat)
        }),
    decreases exponent,
{
    lemma2_to64();
    if m >= 0x10_0000_0000_0000 {
        let bits = exact_bits(m, exponent);
        let f = (m - 0x10_0000_0000_0000) as int;
        assert(bits == exponent * 0x10_0000_0000_0000 + f);
        assert(bits / 0x10_0000_0000_0000 == exponent);
        assert(pow2(0) == 1);
    } else {
        if room == 0 {
            assert(m * pow2(0) == m) by (nonlinear_arith)
                requires
                    pow2(0) == 1,
            ;
        }
        lemma_pow2_unfold(room);
        assert(2 * m * pow2((room - 1) as nat) == m * pow2(room)) by (nonlinear_arith)
            requires
                pow2(room) == 2 * pow2((room - 1) as nat),
        ;
        lemma_exact_bits(2 * m, (exponent - 1) as nat, (room - 1) as nat);
        let e = exact_bits(m, exponent) / 0x10_0000_0000_0000;
        lemma_pow2_unfold((exponent - e) as nat);
        let low = pow2((exponent - 1 - e) as nat);
        assert(2 * m * low == m * (2 * low)) by (nonlinear_arith);
    }
}

/// The double of a larger integer is one that is nearest to it: a fraction of fifty-three bits
/// times a power of two that is no farther from the integer than half of that power, and of two
/// that are as near, the even one.
pub proof fn law_large_integers_are_nearest_doubles(v: int) -> (parts: (nat, nat))
    requires
        0x20_0000_0000_0000 <= v <= 0x8000_0000_0000_0000,
    ensures
        ({
            let (fraction, scale) = parts;
            let power = pow2(scale);
            &&& 0x10_0000_0000_0000 <= fraction <= 0x20_0000_0000_0000
            &&& double_bits(v) == (1075 + scale) * 0x10_0000_0000_0000 + (fraction
                - 0x10_0000_0000_0000)
            &&& -power <= 2 * (fraction * power - v) <= power
            &&& 2 * (fraction * power - v) == power || 2 * (fraction * power - v) == -power
                ==> fraction % 2 == 0
        }),
{
    lemma2_to64();
    let m = v as nat;
    let (divisor, exponent) = fitting_scale(m);
    let scale = (exponent - 1075) as nat;
    assert(divisor == pow2(scale));
    let fraction = nearest_even(m, divisor);
    let quotient = m / divisor;
    let rest = m % divisor;
    vstd::arithmetic::div_mod::lemma_fundamental_div_mod(m as int, divisor as int);
    vstd::arithmetic::div_mod::lemma_mod_bound(m as int, divisor as int);
    assert(quotient * divisor == divisor * quotient) by (nonlinear_arith);
    assert((quotient + 1) * divisor == divisor * quotient + divisor) by (nonlinear_arith);
    assert(0x10_0000_0000_0000 * divisor <= m < 0x20_0000_0000_0000 * divisor);
    assert(0x10_0000_0000_0000 <= quotient < 0x20_0000_0000_0000) by (nonlinear_arith)
        requires
            0x10_0000_0000_0000 * divisor <= m < 0x20_0000_0000_0000 * divisor,
            m == divisor * quotient + rest,
            0 <= rest < divisor,
    ;
    assert(fraction == quotient || fraction == quotient + 1);
    (fraction, scale)
}

} // verus!
