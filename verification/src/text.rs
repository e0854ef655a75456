//! Text handled character by character.

use vstd::prelude::*;
use vstd::utf8::*;

verus! {

/// Characters with the Unicode property White_Space.
pub open spec fn whitespace(c: char) -> bool {
    let code = c as u32;
    ||| 0x09 <= code <= 0x0D
    ||| code == 0x20
    ||| code == 0x85
    ||| code == 0xA0
    ||| code == 0x1680
    ||| 0x2000 <= code <= 0x200A
    ||| code == 0x2028
    ||| code == 0x2029
    ||| code == 0x202F
    ||| code == 0x205F
    ||| code == 0x3000
}

/// The ASCII digits.
pub open spec fn ascii_digit(c: char) -> bool {
    '0' <= c <= '9'
}

/// The ASCII letters from A to Z.
pub open spec fn ascii_upper(c: char) -> bool {
    'A' <= c <= 'Z'
}

/// A character with an ASCII capital replaced by the small letter.
pub open spec fn ascii_lower(c: char) -> char {
    if ascii_upper(c) {
        ((c as u32) + 32) as char
    } else {
        c
    }
}

/// A text with the ASCII capitals replaced by small letters.
pub open spec fn ascii_lowered(s: Seq<char>) -> Seq<char> {
    Seq::new(s.len(), |i: int| ascii_lower(s[i]))
}

/// A character with an ASCII small letter replaced by the capital.
pub open spec fn ascii_upper_case(c: char) -> char {
    if 'a' <= c <= 'z' {
        ((c as u32) - 32) as char
    } else {
        c
    }
}

/// A text with the ASCII small letters replaced by capitals.
pub open spec fn ascii_raised(s: Seq<char>) -> Seq<char> {
    Seq::new(s.len(), |i: int| ascii_upper_case(s[i]))
}

/// A text without the whitespace at its front.
pub open spec fn trimmed_start(s: Seq<char>) -> Seq<char>
    decreases s.len(),
{
    if s.len() > 0 && whitespace(s[0]) {
        trimmed_start(s.drop_first())
    } else {
        s
    }
}

/// A text without the whitespace at its end.
pub open spec fn trimmed_end(s: Seq<char>) -> Seq<char>
    decreases s.len(),
{
    if s.len() > 0 && whitespace(s.last()) {
        trimmed_end(s.drop_last())
    } else {
        s
    }
}

/// A text without the whitespace around it.
pub open spec fn trimmed(s: Seq<char>) -> Seq<char> {
    trimmed_end(trimmed_start(s))
}

/// The digit for a number below ten.
pub open spec fn digit_char(d: nat) -> char {
    (48 + d) as char
}

/// The decimal digits of a number, without leading zeros.
pub open spec fn decimal(n: nat) -> Seq<char>
    decreases n,
{
    if n < 10 {
        seq![digit_char(n)]
    } else {
        decimal(n / 10).push(digit_char(n % 10))
    }
}

/// The decimal form of a number with a sign in front of a negative one.
pub open spec fn signed_decimal(v: int) -> Seq<char> {
    if v < 0 {
        seq!['-'] + decimal((-v) as nat)
    } else {
        decimal(v as nat)
    }
}

/// The number that decimal digits stand for.
pub open spec fn digits_value(s: Seq<char>) -> nat
    decreases s.len(),
{
    if s.len() == 0 {
        0
    } else {
        (10 * digits_value(s.drop_last()) + (s.last() as u32 - 48)) as nat
    }
}

/// Every character is an ASCII digit.
pub open spec fn all_digits(s: Seq<char>) -> bool {
    forall|i: int| 0 <= i < s.len() ==> ascii_digit(#[trigger] s[i])
}

/// The integer that a text stands for: an optional sign and at least one digit.
pub open spec fn integer_text(s: Seq<char>) -> Option<int> {
    if s.len() == 0 {
        None
    } else if s[0] == '-' {
        if s.len() > 1 && all_digits(s.skip(1)) {
            Some(-(digits_value(s.skip(1)) as int))
        } else {
            None
        }
    } else if s[0] == '+' {
        if s.len() > 1 && all_digits(s.skip(1)) {
            Some(digits_value(s.skip(1)) as int)
        } else {
            None
        }
    } else if all_digits(s) {
        Some(digits_value(s) as int)
    } else {
        None
    }
}

/// The sixty-four bit signed integer that a text stands for.
pub open spec fn i64_text(s: Seq<char>) -> Option<i64> {
    match integer_text(s) {
        Some(v) => if i64::MIN <= v <= i64::MAX {
            Some(v as i64)
        } else {
            None
        },
        None => None,
    }
}

/// The text made of the given characters, by `String::from_iter`.
#[verifier::external_body]
pub(crate) fn string_of(chars: Vec<char>) -> (text: String)
    ensures
        text@ == chars@,
{
    String::from_iter(chars)
}

/// The characters of a text.
pub(crate) fn chars_of(text: &str) -> (chars: Vec<char>)
    ensures
        chars@ == text@,
{
    let mut chars: Vec<char> = Vec::new();
    for c in it: text.chars()
        invariant
            it.seq() == text@,
            chars@ == text@.take(it.index()),
    {
        chars.push(c);
        assert(chars@ =~= text@.take(it.index() + 1));
    }
    assert(text@.take(text@.len() as int) =~= text@);
    chars
}


/// Whether a character is whitespace.
pub fn is_whitespace(c: char) -> (found: bool)
    ensures
        found == whitespace(c),
{
    let code: u32 = c as u32;
    (code >= 0x09 && code <= 0x0D) || code == 0x20 || code == 0x85 || code == 0xA0 || code
        == 0x1680 || (code >= 0x2000 && code <= 0x200A) || code == 0x2028 || code == 0x2029
        || code == 0x202F || code == 0x205F || code == 0x3000
}

/// Whether two texts are the same.
pub fn same_text(a: &str, b: &str) -> (same: bool)
    ensures
        same == (a@ == b@),
{
    let x = a.as_bytes();
    let y = b.as_bytes();
    proof {
        encode_utf8_decode_utf8(a@);
        encode_utf8_decode_utf8(b@);
    }
    if x.len() != y.len() {
        return false;
    }
    let mut i: usize = 0;
    while i < x.len()
        invariant
            i <= x@.len(),
            x@ == encode_utf8(a@),
            y@ == encode_utf8(b@),
            x@.len() == y@.len(),
            forall|j: int| 0 <= j < i ==> x@[j] == y@[j],
        decreases x@.len() - i,
    {
        if x[i] != y[i] {
            assert(x@ != y@);
            return false;
        }
        i = i + 1;
    }
    assert(x@ =~= y@);
    true
}

/// Whether a text holds the given character.
pub fn contains_char(text: &str, wanted: char) -> (found: bool)
    ensures
        found == text@.contains(wanted),
{
    let chars = chars_of(text);
    let mut i: usize = 0;
    while i < chars.len()
        invariant
            i <= chars@.len(),
            chars@ == text@,
            forall|j: int| 0 <= j < i ==> chars@[j] != wanted,
        decreases chars@.len() - i,
    {
        if chars[i] == wanted {
            assert(text@[i as int] == wanted);
            return true;
        }
        i = i + 1;
    }
    false
}

/// Characters `from..to` of `chars`.
pub(crate) fn sub_chars(chars: &Vec<char>, from: usize, to: usize) -> (part: Vec<char>)
    requires
        from <= to <= chars@.len(),
    ensures
        part@ == chars@.subrange(from as int, to as int),
{
    let mut part: Vec<char> = Vec::new();
    let mut i: usize = from;
    while i < to
        invariant
            from <= i <= to <= chars@.len(),
            part@ == chars@.subrange(from as int, i as int),
        decreases to - i,
    {
        part.push(chars[i]);
        assert(part@ =~= chars@.subrange(from as int, i + 1));
        i = i + 1;
    }
    part
}

proof fn lemma_trimmed_start_subrange(s: Seq<char>, from: int)
    requires
        0 <= from <= s.len(),
        forall|i: int| 0 <= i < from ==> whitespace(#[trigger] s[i]),
        from < s.len() ==> !whitespace(s[from]),
    ensures
        trimmed_start(s) == s.skip(from),
    decreases s.len(),
{
    if from == 0 {
        assert(s.skip(0) =~= s);
    } else {
        let rest = s.drop_first();
        assert forall|i: int| 0 <= i < from - 1 implies whitespace(#[trigger] rest[i]) by {
            assert(rest[i] == s[i + 1]);
        }
        lemma_trimmed_start_subrange(rest, from - 1);
        assert(rest.skip(from - 1) =~= s.skip(from));
    }
}

proof fn lemma_trimmed_end_subrange(s: Seq<char>, to: int)
    requires
        0 <= to <= s.len(),
        forall|i: int| to <= i < s.len() ==> whitespace(#[trigger] s[i]),
        to > 0 ==> !whitespace(s[to - 1]),
    ensures
        trimmed_end(s) == s.take(to),
    decreases s.len(),
{
    if to == s.len() {
        assert(s.take(to) =~= s);
    } else {
        let front = s.drop_last();
        assert forall|i: int| to <= i < front.len() implies whitespace(#[trigger] front[i]) by {
            assert(front[i] == s[i]);
        }
        lemma_trimmed_end_subrange(front, to);
        assert(front.take(to) =~= s.take(to));
    }
}

/// A text without the whitespace around it.
pub fn trim(text: &str) -> (inner: String)
    ensures
        inner@ == trimmed(text@),
{
    let chars = chars_of(text);
    let mut from: usize = 0;
    while from < chars.len() && is_whitespace(chars[from])
        invariant
            from <= chars@.len(),
            forall|i: int| 0 <= i < from ==> whitespace(#[trigger] chars@[i]),
        decreases chars@.len() - from,
    {
        from = from + 1;
    }
    let mut to: usize = chars.len();
    while to > from && is_whitespace(chars[to - 1])
        invariant
            from <= to <= chars@.len(),
            forall|i: int| to <= i < chars@.len() ==> whitespace(#[trigger] chars@[i]),
        decreases to,
    {
        to = to - 1;
    }
    proof {
        lemma_trimmed_start_subrange(chars@, from as int);
        let rest = chars@.skip(from as int);
        assert forall|i: int| to - from <= i < rest.len() implies whitespace(
            #[trigger] rest[i],
        ) by {
            assert(rest[i] == chars@[i + from]);
        }
        lemma_trimmed_end_subrange(rest, to - from);
        assert(rest.take(to - from) =~= chars@.subrange(from as int, to as int));
    }
    string_of(sub_chars(&chars, from, to))
}

/// Appends the characters of `text`.
pub(crate) fn push_text(out: &mut Vec<char>, text: &str)
    ensures
        final(out)@ == old(out)@ + text@,
{
    let mut chars = chars_of(text);
    out.append(&mut chars);
}

/// Appends the decimal digits of `n`.
pub(crate) fn push_decimal(out: &mut Vec<char>, n: u64)
    ensures
        final(out)@ == old(out)@ + decimal(n as nat),
    decreases n,
{
    if n >= 10 {
        push_decimal(out, n / 10);
    }
    let digit: u8 = 48 + (n % 10) as u8;
    out.push(digit as char);
    assert(out@ =~= old(out)@ + decimal(n as nat));
}

/// Appends the decimal form of `v`.
pub(crate) fn push_signed_decimal(out: &mut Vec<char>, v: i64)
    ensures
        final(out)@ == old(out)@ + signed_decimal(v as int),
{
    if v < 0 {
        out.push('-');
        let magnitude: u64 = (-(v + 1)) as u64 + 1;
        push_decimal(out, magnitude);
        assert(out@ =~= old(out)@ + signed_decimal(v as int));
    } else {
        push_decimal(out, v as u64);
    }
}

proof fn lemma_digits_value_grows(s: Seq<char>, n: int)
    requires
        0 <= n <= s.len(),
        all_digits(s),
    ensures
        digits_value(s.take(n)) <= digits_value(s),
    decreases s.len() - n,
{
    if n == s.len() {
        assert(s.take(n) =~= s);
    } else {
        lemma_digits_value_grows(s, n + 1);
        assert(s.take(n + 1).drop_last() =~= s.take(n));
        assert(ascii_digit(s[n]));
    }
}

/// Reads the digits behind `from`, up to the largest magnitude of a sixty-four bit integer.
fn parse_magnitude(chars: &Vec<char>, from: usize) -> (magnitude: Option<u64>)
    requires
        from <= chars@.len(),
    ensures
        match magnitude {
            Some(m) => from < chars@.len() && all_digits(chars@.skip(from as int)) && m
                == digits_value(chars@.skip(from as int)) && m <= 0x8000_0000_0000_0000,
            None => from == chars@.len() || !all_digits(chars@.skip(from as int)) || digits_value(
                chars@.skip(from as int),
            ) > 0x8000_0000_0000_0000,
        },
{
    let ghost digits = chars@.skip(from as int);
    if from >= chars.len() {
        return None;
    }
    let mut value: u64 = 0;
    let mut i: usize = from;
    assert(digits.take(0) =~= Seq::<char>::empty());
    while i < chars.len()
        invariant
            from <= i <= chars@.len(),
            from < chars@.len(),
            digits == chars@.skip(from as int),
            forall|j: int| 0 <= j < i - from ==> ascii_digit(#[trigger] digits[j]),
            value == digits_value(digits.take(i - from)),
            value <= 0x8000_0000_0000_0000,
        decreases chars@.len() - i,
    {
        let c: char = chars[i];
        assert(c == digits[i - from]);
        if !(c >= '0' && c <= '9') {
            assert(!ascii_digit(digits[i - from]));
            return None;
        }
        let digit: u64 = (c as u32 - 48) as u64;
        assert(digits.take(i + 1 - from).drop_last() =~= digits.take(i - from));
        if value > (0x8000_0000_0000_0000 - digit) / 10 {
            proof {
                assert(10 * value + digit > 0x8000_0000_0000_0000);
                if all_digits(digits) {
                    lemma_digits_value_grows(digits, i + 1 - from);
                }
            }
            return None;
        }
        value = value * 10 + digit;
        i = i + 1;
    }
    assert(digits.take(i - from) =~= digits);
    Some(value)
}

/// The position behind the digits that stand at `from` on.
pub open spec fn digits_end(s: Seq<char>, from: int) -> int
    decreases s.len() - from,
{
    if 0 <= from < s.len() && ascii_digit(s[from]) {
        digits_end(s, from + 1)
    } else {
        from
    }
}

/// The position behind the digits that stand at `from` on.
pub(crate) fn end_of_digits(chars: &Vec<char>, from: usize) -> (end: usize)
    requires
        from <= chars@.len(),
    ensures
        end == digits_end(chars@, from as int),
        from <= end <= chars@.len(),
        all_digits(chars@.subrange(from as int, end as int)),
{
    let mut end: usize = from;
    while end < chars.len() && chars[end] >= '0' && chars[end] <= '9'
        invariant
            from <= end <= chars@.len(),
            digits_end(chars@, from as int) == digits_end(chars@, end as int),
            forall|j: int| from <= j < end ==> ascii_digit(#[trigger] chars@[j]),
        decreases chars@.len() - end,
    {
        end = end + 1;
    }
    end
}

/// The number that the digits `from..to` stand for, unless it is above `limit`.
pub(crate) fn number_in(chars: &Vec<char>, from: usize, to: usize, limit: u64) -> (number: Option<
    u64,
>)
    requires
        from <= to <= chars@.len(),
        all_digits(chars@.subrange(from as int, to as int)),
    ensures
        ({
            let value = digits_value(chars@.subrange(from as int, to as int));
            match number {
                Some(n) => n == value && value <= limit,
                None => value > limit,
            }
        }),
{
    let ghost digits = chars@.subrange(from as int, to as int);
    let mut value: u64 = 0;
    let mut i: usize = from;
    assert(digits.take(0) =~= Seq::<char>::empty());
    while i < to
        invariant
            from <= i <= to <= chars@.len(),
            digits == chars@.subrange(from as int, to as int),
            all_digits(digits),
            value == digits_value(digits.take(i - from)),
            value <= limit,
        decreases to - i,
    {
        let c: char = chars[i];
        assert(c == digits[i - from]);
        let digit: u64 = (c as u32 - 48) as u64;
        assert(digits.take(i + 1 - from).drop_last() =~= digits.take(i - from));
        if digit > limit || value > (limit - digit) / 10 {
            proof {
                assert(10 * value + digit > limit);
                lemma_digits_value_grows(digits, i + 1 - from);
            }
            return None;
        }
        value = value * 10 + digit;
        i = i + 1;
    }
    assert(digits.take(to - from) =~= digits);
    Some(value)
}

/// Reads a sixty-four bit signed integer: an optional sign and at least one digit.
pub fn parse_i64(text: &str) -> (value: Option<i64>)
    ensures
        value == i64_text(text@),
{
    let chars = chars_of(text);
    if chars.len() == 0 {
        return None;
    }
    let negative: bool = chars[0] == '-';
    let from: usize = if chars[0] == '-' || chars[0] == '+' {
        1
    } else {
        0
    };
    assert(from == 0 ==> chars@.skip(0) =~= chars@);
    match parse_magnitude(&chars, from) {
        None => None,
        Some(magnitude) => {
            if negative {
                if magnitude == 0x8000_0000_0000_0000 {
                    Some(i64::MIN)
                } else {
                    Some(-(magnitude as i64))
                }
            } else if magnitude == 0x8000_0000_0000_0000 {
                None
            } else {
                Some(magnitude as i64)
            }
        },
    }
}


/// The decimal form of a number is made of digits that stand for it.
pub proof fn lemma_decimal_digits(n: nat)
    ensures
        all_digits(decimal(n)),
        decimal(n).len() > 0,
        digits_value(decimal(n)) == n,
        !decimal(n).contains('/'),
    decreases n,
{
    if n < 10 {
        assert(decimal(n).drop_last() =~= Seq::empty());
        reveal_with_fuel(digits_value, 2);
    } else {
        lemma_decimal_digits(n / 10);
        assert(decimal(n).drop_last() =~= decimal(n / 10));
    }
}

/// The number one with `k` zeros behind it.
spec fn ten_to(k: nat) -> nat
    decreases k,
{
    if k == 0 {
        1
    } else {
        10 * ten_to((k - 1) as nat)
    }
}

proof fn lemma_decimal_within(n: nat, k: nat)
    requires
        k > 0,
        n < ten_to(k),
    ensures
        decimal(n).len() <= k,
    decreases n,
{
    if n >= 10 {
        reveal_with_fuel(ten_to, 2);
        lemma_decimal_within(n / 10, (k - 1) as nat);
    }
}

/// Numbers of sixty-four bits have at most twenty digits.
pub proof fn lemma_decimal_length(n: nat)
    requires
        n <= u64::MAX,
    ensures
        decimal(n).len() <= 20,
{
    reveal_with_fuel(ten_to, 21);
    lemma_decimal_within(n, 20);
}

/// Reading back the decimal form of an integer gives that integer.
pub proof fn law_decimal_round_trip(v: i64)
    ensures
        i64_text(signed_decimal(v as int)) == Some(v),
{
    if v < 0 {
        let magnitude = (-(v as int)) as nat;
        lemma_decimal_digits(magnitude);
        assert(signed_decimal(v as int).skip(1) =~= decimal(magnitude));
    } else {
        lemma_decimal_digits(v as nat);
        assert(ascii_digit(decimal(v as nat)[0]));
    }
}


/// How two texts compare.
#[derive(Clone, Copy, Debug, PartialEq, Eq, Structural)]
pub enum Order {
    Less,
    Equal,
    Greater,
}

/// The order of two byte strings by their first difference; a prefix comes first.
pub open spec fn byte_order_of(a: Seq<u8>, b: Seq<u8>) -> Order
    decreases a.len(),
{
    if a.len() == 0 && b.len() == 0 {
        Order::Equal
    } else if a.len() == 0 {
        Order::Less
    } else if b.len() == 0 {
        Order::Greater
    } else if a[0] < b[0] {
        Order::Less
    } else if a[0] > b[0] {
        Order::Greater
    } else {
        byte_order_of(a.drop_first(), b.drop_first())
    }
}

/// The order of two texts, that of their UTF-8 bytes.
pub open spec fn text_order(a: Seq<char>, b: Seq<char>) -> Order {
    byte_order_of(encode_utf8(a), encode_utf8(b))
}

/// How two texts compare.
pub fn order_texts(a: &str, b: &str) -> (order: Order)
    ensures
        order == text_order(a@, b@),
{
    let x = a.as_bytes();
    let y = b.as_bytes();
    let mut i: usize = 0;
    assert(x@.skip(0) =~= x@);
    assert(y@.skip(0) =~= y@);
    while i < x.len() && i < y.len()
        invariant
            i <= x@.len(),
            i <= y@.len(),
            x@ == encode_utf8(a@),
            y@ == encode_utf8(b@),
            byte_order_of(x@.skip(i as int), y@.skip(i as int)) == byte_order_of(x@, y@),
        ensures
            byte_order_of(x@.skip(i as int), y@.skip(i as int)) == byte_order_of(x@, y@),
            i <= x@.len(),
            i <= y@.len(),
            i == x@.len() || i == y@.len(),
        decreases x@.len() - i,
    {
        if x[i] < y[i] {
            return Order::Less;
        }
        if x[i] > y[i] {
            return Order::Greater;
        }
        assert(x@.skip(i as int).drop_first() =~= x@.skip(i + 1));
        assert(y@.skip(i as int).drop_first() =~= y@.skip(i + 1));
        i = i + 1;
    }
    if i < x.len() {
        Order::Greater
    } else if i < y.len() {
        Order::Less
    } else {
        Order::Equal
    }
}

/// Whether `part` stands at position `at` of `text`.
pub open spec fn occurs_at(text: Seq<char>, part: Seq<char>, at: int) -> bool {
    0 <= at && at + part.len() <= text.len() && text.subrange(at, at + part.len()) == part
}

/// The first position from `from` on where `part` stands in `text`.
pub open spec fn find_from(text: Seq<char>, part: Seq<char>, from: int) -> Option<int>
    decreases text.len() + 1 - from,
{
    if from < 0 || from + part.len() > text.len() {
        None
    } else if occurs_at(text, part, from) {
        Some(from)
    } else {
        find_from(text, part, from + 1)
    }
}

/// The pieces of `text` between the occurrences of `part`, found from the left.
pub open spec fn split_pieces(text: Seq<char>, part: Seq<char>, from: int) -> Seq<Seq<char>>
    decreases text.len() - from,
{
    if part.len() == 0 || from < 0 || from > text.len() {
        Seq::empty()
    } else {
        match find_from(text, part, from) {
            Some(at) => if from <= at && at + part.len() <= text.len() {
                seq![text.subrange(from, at)] + split_pieces(
                    text,
                    part,
                    at + part.len() as int,
                )
            } else {
                seq![text.skip(from)]
            },
            None => seq![text.skip(from)],
        }
    }
}

/// `text` from `from` on with each occurrence of `part` replaced.
pub open spec fn replaced_from(
    text: Seq<char>,
    part: Seq<char>,
    replacement: Seq<char>,
    from: int,
) -> Seq<char>
    decreases text.len() - from,
{
    if part.len() == 0 || from < 0 || from > text.len() {
        Seq::empty()
    } else {
        match find_from(text, part, from) {
            Some(at) => if from <= at && at + part.len() <= text.len() {
                text.subrange(from, at) + replacement + replaced_from(
                    text,
                    part,
                    replacement,
                    at + part.len() as int,
                )
            } else {
                text.skip(from)
            },
            None => text.skip(from),
        }
    }
}

/// A position found lies behind `from`, and the part stands there.
pub proof fn lemma_find_from(text: Seq<char>, part: Seq<char>, from: int)
    requires
        0 <= from,
    ensures
        find_from(text, part, from) matches Some(at) ==> from <= at && occurs_at(text, part, at),
    decreases text.len() + 1 - from,
{
    if from + part.len() <= text.len() && !occurs_at(text, part, from) {
        lemma_find_from(text, part, from + 1);
    }
}

/// Whether `part` stands at position `at` of `text`.
pub(crate) fn stands_at(text: &Vec<char>, part: &Vec<char>, at: usize) -> (found: bool)
    requires
        at + part.len() <= text.len(),
    ensures
        found == occurs_at(text@, part@, at as int),
{
    let mut i: usize = 0;
    while i < part.len()
        invariant
            i <= part@.len(),
            at + part.len() <= text.len(),
            forall|j: int| 0 <= j < i ==> text@[at + j] == part@[j],
        decreases part@.len() - i,
    {
        if text[at + i] != part[i] {
            assert(text@.subrange(at as int, at + part@.len())[i as int] == text@[at + i]);
            return false;
        }
        i = i + 1;
    }
    assert(text@.subrange(at as int, at + part@.len()) =~= part@);
    true
}

/// The first position from `from` on where `part` stands in `text`.
pub(crate) fn find_chars(text: &Vec<char>, part: &Vec<char>, from: usize) -> (found: Option<usize>)
    requires
        from <= text@.len(),
    ensures
        match found {
            Some(at) => find_from(text@, part@, from as int) == Some(at as int) && from <= at && at
                + part.len() <= text.len(),
            None => find_from(text@, part@, from as int) is None,
        },
{
    let mut at: usize = from;
    while part.len() <= text.len() - at
        invariant
            from <= at <= text@.len(),
            find_from(text@, part@, from as int) == find_from(text@, part@, at as int),
        decreases text@.len() - at,
    {
        if stands_at(text, part, at) {
            return Some(at);
        }
        assert(part@.len() == 0 ==> text@.subrange(at as int, at as int) =~= part@);
        at = at + 1;
    }
    None
}

/// The pieces of `text` between the occurrences of a non-empty `part`.
pub(crate) fn split_chars(text: &Vec<char>, part: &Vec<char>) -> (pieces: Vec<Vec<char>>)
    requires
        part@.len() > 0,
    ensures
        pieces@.len() == split_pieces(text@, part@, 0).len(),
        forall|i: int|
            0 <= i < pieces@.len() ==> (#[trigger] pieces@[i])@ == split_pieces(
                text@,
                part@,
                0,
            )[i],
{
    let mut pieces: Vec<Vec<char>> = Vec::new();
    let mut from: usize = 0;
    let ghost all = split_pieces(text@, part@, 0);
    loop
        invariant
            part@.len() > 0,
            from <= text@.len(),
            all == split_pieces(text@, part@, 0),
            all.len() == pieces@.len() + split_pieces(text@, part@, from as int).len(),
            all.skip(pieces@.len() as int) == split_pieces(text@, part@, from as int),
            forall|i: int| 0 <= i < pieces@.len() ==> (#[trigger] pieces@[i])@ == all[i],
        decreases text@.len() - from,
    {
        let ghost rest = split_pieces(text@, part@, from as int);
        let ghost done = pieces@.len() as int;
        assert(rest.len() > 0);
        assert(all[done] == all.skip(done)[0]);
        match find_chars(text, part, from) {
            Some(at) => {
                pieces.push(sub_chars(text, from, at));
                from = at + part.len();
                assert(all.skip(done + 1) =~= rest.skip(1));
                assert(rest.skip(1) =~= split_pieces(text@, part@, from as int));
            },
            None => {
                let last = sub_chars(text, from, text.len());
                assert(last@ =~= text@.skip(from as int));
                pieces.push(last);
                return pieces;
            },
        }
    }
}

/// `text` with each occurrence of a non-empty `part` replaced.
pub(crate) fn replace_chars(
    text: &Vec<char>,
    part: &Vec<char>,
    replacement: &Vec<char>,
) -> (out: Vec<char>)
    requires
        part@.len() > 0,
    ensures
        out@ == replaced_from(text@, part@, replacement@, 0),
{
    let mut out: Vec<char> = Vec::new();
    let mut from: usize = 0;
    let ghost all = replaced_from(text@, part@, replacement@, 0);
    loop
        invariant
            part@.len() > 0,
            from <= text@.len(),
            all == replaced_from(text@, part@, replacement@, 0),
            all == out@ + replaced_from(text@, part@, replacement@, from as int),
        decreases text@.len() - from,
    {
        match find_chars(text, part, from) {
            Some(at) => {
                let mut piece = sub_chars(text, from, at);
                let mut filler = sub_chars(replacement, 0, replacement.len());
                out.append(&mut piece);
                out.append(&mut filler);
                from = at + part.len();
                assert(all =~= out@ + replaced_from(text@, part@, replacement@, from as int));
            },
            None => {
                let mut last = sub_chars(text, from, text.len());
                out.append(&mut last);
                assert(out@ =~= all);
                return out;
            },
        }
    }
}

/// `text` with the ASCII capitals replaced by small letters.
pub fn to_ascii_lower(text: &str) -> (lowered: String)
    ensures
        lowered@ == ascii_lowered(text@),
{
    let chars = chars_of(text);
    let mut out: Vec<char> = Vec::new();
    let mut i: usize = 0;
    while i < chars.len()
        invariant
            i <= chars@.len(),
            chars@ == text@,
            out@ == ascii_lowered(text@).take(i as int),
        decreases chars@.len() - i,
    {
        let c: char = chars[i];
        if c >= 'A' && c <= 'Z' {
            out.push((c as u8 + 32) as char);
        } else {
            out.push(c);
        }
        assert(out@ =~= ascii_lowered(text@).take(i + 1));
        i = i + 1;
    }
    assert(out@ =~= ascii_lowered(text@));
    string_of(out)
}

/// Blanks, tabs and line ends are whitespace; digits, letters and what else is printed of ASCII is
/// not.
pub proof fn law_whitespace(c: char)
    ensures
        c == ' ' || c == '\t' || c == '\n' || c == '\r' ==> whitespace(c),
        0x21 <= c as u32 <= 0x7E ==> !whitespace(c),
{
}

/// Trimming a text takes whitespace off both of its ends and nothing else: the text is what was
/// left with whitespace before and behind it, and what was left neither begins nor ends with
/// whitespace.
pub proof fn law_trimming_takes_whitespace_off_the_ends(s: Seq<char>)
    ensures
        exists|front: Seq<char>, back: Seq<char>|
            {
                &&& s == #[trigger] (front + trimmed(s) + back)
                &&& forall|i: int| 0 <= i < front.len() ==> whitespace(#[trigger] front[i])
                &&& forall|i: int| 0 <= i < back.len() ==> whitespace(#[trigger] back[i])
            },
        trimmed(s).len() > 0 ==> !whitespace(trimmed(s)[0]) && !whitespace(trimmed(s).last()),
{
    let front = lemma_trimmed_front(s);
    let rest = trimmed_start(s);
    let back = lemma_trimmed_back(rest);
    assert(s =~= front + trimmed(s) + back);
    if trimmed(s).len() > 0 {
        assert(trimmed(s)[0] == rest[0]);
    }
}

proof fn lemma_trimmed_front(s: Seq<char>) -> (front: Seq<char>)
    ensures
        s == front + trimmed_start(s),
        forall|i: int| 0 <= i < front.len() ==> whitespace(#[trigger] front[i]),
        trimmed_start(s).len() > 0 ==> !whitespace(trimmed_start(s)[0]),
    decreases s.len(),
{
    if s.len() > 0 && whitespace(s[0]) {
        let inner = lemma_trimmed_front(s.drop_first());
        let front = seq![s[0]] + inner;
        let rest = s.drop_first();
        assert(s =~= seq![s[0]] + rest);
        assert(seq![s[0]] + (inner + trimmed_start(rest)) =~= front + trimmed_start(rest));
        front
    } else {
        assert(s =~= Seq::empty() + s);
        Seq::empty()
    }
}

proof fn lemma_trimmed_back(s: Seq<char>) -> (back: Seq<char>)
    ensures
        s == trimmed_end(s) + back,
        forall|i: int| 0 <= i < back.len() ==> whitespace(#[trigger] back[i]),
        trimmed_end(s).len() > 0 ==> !whitespace(trimmed_end(s).last()),
    decreases s.len(),
{
    if s.len() > 0 && whitespace(s.last()) {
        let inner = lemma_trimmed_back(s.drop_last());
        let back = inner.push(s.last());
        let rest = s.drop_last();
        assert(s =~= rest.push(s.last()));
        assert((trimmed_end(rest) + inner).push(s.last()) =~= trimmed_end(rest) + back);
        back
    } else {
        assert(s =~= s + Seq::empty());
        Seq::empty()
    }
}

/// A text without whitespace at its ends is left as it is by trimming.
pub proof fn law_trimmed_text_stays(s: Seq<char>)
    requires
        s.len() > 0 ==> !whitespace(s[0]) && !whitespace(s.last()),
    ensures
        trimmed(s) == s,
{
}

/// The decimal form of an integer has no whitespace at its ends.
pub proof fn lemma_decimal_is_trimmed(v: int)
    ensures
        trimmed(signed_decimal(v)) == signed_decimal(v),
{
    let s = signed_decimal(v);
    let n = if v < 0 {
        (-v) as nat
    } else {
        v as nat
    };
    lemma_decimal_digits(n);
    let d = decimal(n);
    assert(ascii_digit(d[0]));
    assert(ascii_digit(d[d.len() - 1]));
    assert(s.last() == d.last());
    law_trimmed_text_stays(s);
}

/// A sign in front of digits: a plus changes nothing, a minus turns the integer round. Digits
/// behind digits count ten times more for each digit that follows.
pub proof fn law_signs_and_digits(digits: Seq<char>, last: char)
    requires
        digits.len() > 0,
        all_digits(digits),
        ascii_digit(last),
    ensures
        integer_text(digits) is Some,
        integer_text(digits)->0 >= 0,
        integer_text(seq!['+'] + digits) == integer_text(digits),
        integer_text(seq!['-'] + digits) == Some(-integer_text(digits)->0),
        integer_text(digits.push(last)) == Some(
            10 * integer_text(digits)->0 + (last as int - '0' as int),
        ),
        integer_text(seq![last]) == Some(last as int - '0' as int),
{
    assert((seq!['+'] + digits).skip(1) =~= digits);
    assert((seq!['-'] + digits).skip(1) =~= digits);
    assert(ascii_digit(digits[0]));
    let longer = digits.push(last);
    assert(longer.drop_last() =~= digits);
    assert forall|i: int| 0 <= i < longer.len() implies ascii_digit(#[trigger] longer[i]) by {
        if i < digits.len() {
            assert(ascii_digit(digits[i]));
        }
    }
    let one = seq![last];
    assert(one.drop_last() =~= Seq::empty());
    reveal_with_fuel(digits_value, 2);
    assert(all_digits(one));
}

/// A text with anything but digits behind its sign stands for no integer, and an integer beyond
/// sixty-four bits for none of that size.
pub proof fn law_integers_are_digits(s: Seq<char>, at: int)
    requires
        0 <= at < s.len(),
        !ascii_digit(s[at]),
        at > 0 || (s[0] != '+' && s[0] != '-') || s.len() == 1,
    ensures
        integer_text(s) is None,
        i64_text(s) is None,
{
    if s[0] == '+' || s[0] == '-' {
        if s.len() > 1 {
            assert(s.skip(1)[at - 1] == s[at]);
        }
    }
}

/// Sixty-four bits hold an integer, if it is in their range, as it is.
pub proof fn law_integer_range(s: Seq<char>)
    ensures
        i64_text(s) matches Some(v) ==> integer_text(s) == Some(v as int),
        integer_text(s) matches Some(v) ==> (i64_text(s) is Some <==> -0x8000_0000_0000_0000 <= v
            < 0x8000_0000_0000_0000),
        integer_text(s) is None ==> i64_text(s) is None,
{
}

/// Small and capital letters: a capital becomes the small letter of the same place in the alphabet
/// and back, and whatever is no letter of ASCII stays.
pub proof fn law_letter_case(c: char)
    ensures
        'A' <= c <= 'Z' ==> ascii_lower(c) as int - 'a' as int == c as int - 'A' as int,
        'a' <= c <= 'z' ==> ascii_upper_case(c) as int - 'A' as int == c as int - 'a' as int,
        !('A' <= c <= 'Z') ==> ascii_lower(c) == c,
        !('a' <= c <= 'z') ==> ascii_upper_case(c) == c,
        ascii_lower(ascii_upper_case(c)) == ascii_lower(c),
        ascii_upper_case(ascii_lower(c)) == ascii_upper_case(c),
{
}

/// Texts are lowered and raised character by character.
pub proof fn law_texts_in_one_case(s: Seq<char>)
    ensures
        ascii_lowered(s).len() == s.len(),
        ascii_raised(s).len() == s.len(),
        forall|i: int| 0 <= i < s.len() ==> (#[trigger] ascii_lowered(s)[i]) == ascii_lower(s[i]),
        forall|i: int|
            0 <= i < s.len() ==> (#[trigger] ascii_raised(s)[i]) == ascii_upper_case(s[i]),
        ascii_lowered(ascii_lowered(s)) == ascii_lowered(s),
        ascii_lowered(ascii_raised(s)) == ascii_lowered(s),
{
    assert forall|i: int| 0 <= i < s.len() implies ascii_lowered(ascii_raised(s))[i]
        == ascii_lowered(s)[i] by {
        law_letter_case(s[i]);
    }
    assert(ascii_lowered(ascii_lowered(s)) =~= ascii_lowered(s));
    assert(ascii_lowered(ascii_raised(s)) =~= ascii_lowered(s));
}

/// What comes first in the order of byte strings: the one with the smaller byte where they first
/// differ, or the shorter one where they do not differ up to its end.
pub proof fn law_byte_order(a: Seq<u8>, b: Seq<u8>, at: int)
    requires
        0 <= at <= a.len(),
        at <= b.len(),
        a.take(at) == b.take(at),
    ensures
        at < a.len() && at < b.len() && a[at] < b[at] ==> byte_order_of(a, b) == Order::Less
            && byte_order_of(b, a) == Order::Greater,
        at == a.len() && at < b.len() ==> byte_order_of(a, b) == Order::Less && byte_order_of(b, a)
            == Order::Greater,
        at == a.len() && at == b.len() ==> byte_order_of(a, b) == Order::Equal,
    decreases at,
{
    if at > 0 {
        assert(a.take(at)[0] == a[0]);
        assert(b.take(at)[0] == b[0]);
        let x = a.drop_first();
        let y = b.drop_first();
        assert(x.take(at - 1) =~= y.take(at - 1)) by {
            assert forall|i: int| 0 <= i < at - 1 implies x[i] == y[i] by {
                assert(x[i] == a[i + 1] && y[i] == b[i + 1]);
                assert(a.take(at)[i + 1] == b.take(at)[i + 1]);
                assert(a.take(at)[i + 1] == a[i + 1]);
            }
        }
        law_byte_order(x, y, at - 1);
    }
}

/// What is found is the first occurrence from a position on; where nothing is found, there is none.
pub proof fn law_first_occurrence_is_found(text: Seq<char>, part: Seq<char>, from: int)
    requires
        0 <= from,
    ensures
        match find_from(text, part, from) {
            Some(at) => {
                &&& from <= at
                &&& at + part.len() <= text.len()
                &&& text.subrange(at, at + part.len()) == part
                &&& forall|i: int|
                    from <= i < at ==> #[trigger] text.subrange(i, i + part.len()) != part
            },
            None => forall|i: int|
                from <= i && i + part.len() <= text.len() ==> #[trigger] text.subrange(
                    i,
                    i + part.len(),
                ) != part,
        },
    decreases text.len() + 1 - from,
{
    if from + part.len() <= text.len() && !occurs_at(text, part, from) {
        law_first_occurrence_is_found(text, part, from + 1);
    }
}

/// Pieces with a text between each two of them.
pub open spec fn joined(pieces: Seq<Seq<char>>, part: Seq<char>) -> Seq<char>
    decreases pieces.len(),
{
    if pieces.len() == 0 {
        Seq::empty()
    } else if pieces.len() == 1 {
        pieces[0]
    } else {
        pieces[0] + part + joined(pieces.drop_first(), part)
    }
}

/// The pieces of a text, joined by what was between them, are the text again.
pub proof fn law_split_pieces_join_again(text: Seq<char>, part: Seq<char>, from: int)
    requires
        part.len() > 0,
        0 <= from <= text.len(),
    ensures
        split_pieces(text, part, from).len() > 0,
        joined(split_pieces(text, part, from), part) == text.skip(from),
    decreases text.len() - from,
{
    law_first_occurrence_is_found(text, part, from);
    match find_from(text, part, from) {
        Some(at) => {
            let next = at + part.len() as int;
            law_split_pieces_join_again(text, part, next);
            let pieces = split_pieces(text, part, from);
            let rest = split_pieces(text, part, next);
            assert(pieces.drop_first() =~= rest);
            assert(pieces[0] == text.subrange(from, at));
            assert(text.skip(from) =~= text.subrange(from, at) + part + text.skip(next)) by {
                assert forall|i: int| at <= i < next implies text[i] == part[i - at] by {
                    assert(text.subrange(at, next)[i - at] == part[i - at]);
                }
            }
        },
        None => {},
    }
}

/// Replacing a text is joining the pieces around it by what stands for it.
pub proof fn law_replacing_joins_the_pieces(
    text: Seq<char>,
    part: Seq<char>,
    replacement: Seq<char>,
    from: int,
)
    requires
        part.len() > 0,
        0 <= from <= text.len(),
    ensures
        replaced_from(text, part, replacement, from) == joined(
            split_pieces(text, part, from),
            replacement,
        ),
    decreases text.len() - from,
{
    law_first_occurrence_is_found(text, part, from);
    match find_from(text, part, from) {
        Some(at) => {
            let next = at + part.len() as int;
            law_replacing_joins_the_pieces(text, part, replacement, next);
            law_split_pieces_join_again(text, part, next);
            assert(split_pieces(text, part, from).drop_first() =~= split_pieces(text, part, next));
        },
        None => {},
    }
}

/// The digits from a position on end where the first other character stands, or at the end.
pub proof fn law_digits_end_at_the_first_other(s: Seq<char>, from: int)
    requires
        0 <= from <= s.len(),
    ensures
        from <= digits_end(s, from) <= s.len(),
        forall|i: int| from <= i < digits_end(s, from) ==> '0' <= #[trigger] s[i] <= '9',
        digits_end(s, from) < s.len() ==> !('0' <= s[digits_end(s, from)] <= '9'),
    decreases s.len() - from,
{
    if from < s.len() && ascii_digit(s[from]) {
        law_digits_end_at_the_first_other(s, from + 1);
    }
}

} // verus!
