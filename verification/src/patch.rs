//! Update payloads as the admin API receives them: JSON-shaped values, read
//! field by field.
use vstd::prelude::*;
use crate::config::UpstreamProtocol;
use crate::normalize::parse_upstream_protocol;
use crate::text::{chars_of, str_eq, trim_seq, trimmed_chars};

verus! {

/// A JSON value as update payloads carry it. Numbers are kept as what the
/// updates read of them: a nonnegative integer that fits in `u64`, or some
/// other number (negative or fractional).
pub enum PatchValue {
    Null,
    Bool(bool),
    Unsigned(u64),
    OtherNumber,
    Text(String),
    Array(Vec<PatchValue>),
    Object(Vec<(String, PatchValue)>),
}

/// The value of the first field named `key`.
pub open spec fn field_of(fields: Seq<(String, PatchValue)>, key: Seq<char>) -> Option<PatchValue>
    decreases fields.len(),
{
    if fields.len() == 0 {
        None
    } else if fields[0].0@ == key {
        Some(fields[0].1)
    } else {
        field_of(fields.drop_first(), key)
    }
}

/// The value of the first field named `key`.
pub fn get_field<'a>(fields: &'a Vec<(String, PatchValue)>, key: &str) -> (r: Option<&'a PatchValue>)
    ensures
        match field_of(fields@, key@) {
            Some(v) => r == Some(&v),
            None => r is None,
        },
{
    let mut i: usize = 0;
    assert(fields@.skip(0) == fields@);
    while i < fields.len()
        invariant
            i <= fields@.len(),
            field_of(fields@, key@) == field_of(fields@.skip(i as int), key@),
        decreases fields@.len() - i,
    {
        let ghost rest = fields@.skip(i as int);
        assert(rest[0] == fields@[i as int]);
        assert(rest.drop_first() == fields@.skip(i + 1));
        if str_eq(fields[i].0.as_str(), key) {
            return Some(&fields[i].1);
        }
        i = i + 1;
    }
    None
}

/// The string of a text value.
pub open spec fn text_of(v: Option<PatchValue>) -> Option<Seq<char>> {
    match v {
        Some(PatchValue::Text(s)) => Some(s@),
        _ => None,
    }
}

/// The number of a nonnegative integer value.
pub open spec fn unsigned_of(v: Option<PatchValue>) -> Option<u64> {
    match v {
        Some(PatchValue::Unsigned(n)) => Some(n),
        _ => None,
    }
}

/// The flag of a boolean value.
pub open spec fn bool_of(v: Option<PatchValue>) -> Option<bool> {
    match v {
        Some(PatchValue::Bool(b)) => Some(b),
        _ => None,
    }
}

/// The strings among the items of an array, in order.
pub open spec fn texts_in(items: Seq<PatchValue>) -> Seq<Seq<char>>
    decreases items.len(),
{
    if items.len() == 0 {
        Seq::empty()
    } else {
        let rest = texts_in(items.drop_last());
        match items.last() {
            PatchValue::Text(s) => rest.push(s@),
            _ => rest,
        }
    }
}

/// The strings among the items of an array, in order.
pub fn strings_in(items: &Vec<PatchValue>) -> (r: Vec<String>)
    ensures
        crate::text::views(r@) == texts_in(items@),
{
    let mut r: Vec<String> = Vec::new();
    for i in 0..items.len()
        invariant
            crate::text::views(r@) == texts_in(items@.take(i as int)),
    {
        assert(items@.take(i + 1).drop_last() == items@.take(i as int));
        match &items[i] {
            PatchValue::Text(s) => {
                let ghost before = r@;
                r.push(s.clone());
                assert(crate::text::views(r@) == crate::text::views(before).push(s@));
            },
            _ => {},
        }
    }
    assert(items@.take(items@.len() as int) == items@);
    r
}

/// `s` without one leading `+`.
pub open spec fn unsigned_digits(s: Seq<char>) -> Seq<char> {
    if s.len() > 0 && s[0] == '+' {
        s.drop_first()
    } else {
        s
    }
}

/// Every character of `s` is an ASCII digit.
pub open spec fn all_digits(s: Seq<char>) -> bool {
    forall|i: int| 0 <= i < s.len() ==> '0' <= #[trigger] s[i] <= '9'
}

/// The value of a decimal numeral: an optional `+` and at least one ASCII
/// digit, at most `u64::MAX` (as `u64`'s `FromStr` reads it).
pub open spec fn decimal_value(s: Seq<char>) -> Option<u64> {
    let digits = unsigned_digits(s);
    if digits.len() > 0 && all_digits(digits) && digits_value(digits) <= u64::MAX {
        Some(digits_value(digits) as u64)
    } else {
        None
    }
}

/// The number the ASCII digits of `s` write.
pub open spec fn digits_value(s: Seq<char>) -> nat
    decreases s.len(),
{
    if s.len() == 0 {
        0
    } else {
        digits_value(s.drop_last()) * 10 + ((s.last() as nat) - ('0' as nat)) as nat
    }
}

proof fn lemma_digits_value_monotone(s: Seq<char>, n: int)
    requires
        0 <= n <= s.len(),
        forall|i: int| 0 <= i < s.len() ==> '0' <= #[trigger] s[i] <= '9',
    ensures
        digits_value(s.take(n)) <= digits_value(s),
    decreases s.len() - n,
{
    if n < s.len() {
        lemma_digits_value_monotone(s, n + 1);
        assert(s.take(n + 1).drop_last() == s.take(n));
    } else {
        assert(s.take(n) == s);
    }
}

/// Reads a decimal numeral as `u64`'s `FromStr` does.
pub fn parse_decimal_u64(s: &str) -> (r: Option<u64>)
    ensures
        r == decimal_value(s@),
{
    let v = chars_of(s);
    let start: usize = if v.len() > 0 && v[0] == '+' { 1 } else { 0 };
    let ghost digits = unsigned_digits(v@);
    assert(digits == v@.skip(start as int));
    if start >= v.len() {
        return None;
    }
    let mut value: u64 = 0;
    let mut i: usize = start;
    while i < v.len()
        invariant
            start <= i <= v@.len(),
            v@ == s@,
            digits == unsigned_digits(s@),
            digits == v@.skip(start as int),
            forall|j: int| 0 <= j < i - start ==> '0' <= #[trigger] digits[j] <= '9',
            value == digits_value(digits.take(i - start)),
        decreases v@.len() - i,
    {
        let c = v[i];
        assert(digits[i - start] == c);
        if c < '0' || c > '9' {
            assert(!('0' <= digits[i - start] <= '9'));
            assert(decimal_value(s@) is None);
            return None;
        }
        let d: u64 = (c as u64) - ('0' as u64);
        assert(digits.take(i - start + 1).drop_last() == digits.take(i - start));
        if value > (u64::MAX - d) / 10 {
            proof {
                let k = i - start + 1;
                assert(digits_value(digits.take(k)) == value * 10 + d);
                assert(value * 10 + d > u64::MAX) by (nonlinear_arith)
                    requires
                        value > (u64::MAX - d) / 10,
                        d <= 9,
                ;
                assert(digits.take(k).last() == c);
                if all_digits(digits) {
                    lemma_digits_value_monotone(digits, k);
                }
                assert(decimal_value(s@) is None);
            }
            return None;
        }
        assert(value * 10 + d <= u64::MAX) by (nonlinear_arith)
            requires
                value <= (u64::MAX - d) / 10,
                d <= 9,
        ;
        value = value * 10 + d;
        i = i + 1;
    }
    assert(digits.take(digits.len() as int) == digits);
    Some(value)
}

/// A count read from a number or from a string holding a decimal numeral
/// (surrounding whitespace ignored).
pub open spec fn flexible_u64(v: Option<PatchValue>) -> Option<u64> {
    match v {
        Some(PatchValue::Unsigned(n)) => Some(n),
        Some(PatchValue::Text(s)) => decimal_value(trim_seq(s@)),
        _ => None,
    }
}

/// A count read from a number or from a string holding a decimal numeral.
pub fn parse_u64_flexible(value: &PatchValue) -> (r: Option<u64>)
    ensures
        r == flexible_u64(Some(*value)),
{
    match value {
        PatchValue::Unsigned(n) => Some(*n),
        PatchValue::Text(s) => {
            let t = crate::text::string_from_chars(&trimmed_chars(s.as_str()));
            parse_decimal_u64(t.as_str())
        },
        _ => None,
    }
}

/// The protocols named by the strings among `values`, in order.
pub open spec fn protocols_named(values: Seq<PatchValue>) -> Seq<UpstreamProtocol> {
    texts_in(values).map_values(|s: Seq<char>| crate::normalize::protocol_named(s))
}

/// The protocols named by the strings among `values`, in order.
pub fn parse_upstream_protocols(values: &Vec<PatchValue>) -> (r: Vec<UpstreamProtocol>)
    ensures
        r@ == protocols_named(values@),
{
    let names = strings_in(values);
    let mut r: Vec<UpstreamProtocol> = Vec::new();
    for i in 0..names.len()
        invariant
            crate::text::views(names@) == texts_in(values@),
            r@ == crate::text::views(names@).take(i as int).map_values(
                |s: Seq<char>| crate::normalize::protocol_named(s),
            ),
    {
        r.push(parse_upstream_protocol(names[i].as_str()));
        assert(crate::text::views(names@).take(i + 1) == crate::text::views(names@).take(i as int).push(names@[i as int]@));
        assert(r@ =~= crate::text::views(names@).take(i + 1).map_values(
            |s: Seq<char>| crate::normalize::protocol_named(s),
        ));
    }
    assert(crate::text::views(names@).take(names@.len() as int) == crate::text::views(names@));
    r
}

} // verus!
