use vstd::prelude::*;
use crate::intparse::{
    all_radix_digits, digit_value, fits, is_radix_digit, magnitude, radix_value,
    remove_underscores, signed_value, without_underscores, Integer,
};
use crate::text::{chars_of, string_of};

verus! {

/// Sign of a number literal
#[derive(Clone, Copy, Debug, PartialEq, Eq, Structural)]
pub enum Sign {
    Negative,
    Positive,
}

/// A number literal, checked and ready for conversion to floating point
#[derive(Clone, Debug, PartialEq)]
pub enum NumLiteral {
    /// Infinity with a sign
    Infinity(Sign),
    /// Not-a-number with the given sign bit
    NaN(Sign),
    /// A decimal or scientific literal without sign or underscores; the sign is apart
    Decimal(Sign, String),
}

/// `c` is `+` or `-`
pub open spec fn is_sign(c: char) -> bool {
    c == '+' || c == '-'
}

/// The chars after one leading sign, if any
pub open spec fn unsigned_part(s: Seq<char>) -> Seq<char> {
    if s.len() > 0 && is_sign(s[0]) { s.drop_first() } else { s }
}

/// Underscores stand only between two digits of `radix`, and the text starts
/// and ends with such a digit
pub open spec fn underscores_placed(b: Seq<char>, radix: int) -> bool {
    &&& b.len() > 0 && is_radix_digit(b[0], radix) && is_radix_digit(b.last(), radix)
    &&& forall|i: int| 0 <= i < b.len() && #[trigger] b[i] == '_' ==> 0 < i < b.len() - 1
        && is_radix_digit(b[i - 1], radix) && is_radix_digit(b[i + 1], radix)
}

/// The literal with underscores removed, or `None` where one is misplaced
pub open spec fn sanitized(v: Seq<char>, radix: int) -> Option<Seq<char>> {
    if !v.contains('_') {
        Some(v)
    } else if underscores_placed(unsigned_part(v), radix) {
        Some(without_underscores(v))
    } else {
        None
    }
}

/// Sign and magnitude of an integer in `radix`: an optional sign, then digits
pub open spec fn plain_int(t: Seq<char>, radix: int) -> Option<(bool, int)> {
    let d = unsigned_part(t);
    if d.len() > 0 && all_radix_digits(d, radix) {
        Some((t.len() > 0 && t[0] == '-', radix_value(d, radix)))
    } else {
        None
    }
}

/// Sign and magnitude of digits in `radix` after a radix prefix: no sign allowed
pub open spec fn radix_literal(v: Seq<char>, radix: int) -> Option<(bool, int)> {
    if v.len() > 0 && is_sign(v[0]) {
        None
    } else {
        match sanitized(v, radix) {
            Some(t) => plain_int(t, radix),
            None => None,
        }
    }
}

/// Sign and magnitude of an integer literal: `b` (binary) or `x` (hexadecimal)
/// prefix without sign, or a signed decimal; underscores may separate digits
pub open spec fn int_literal(v: Seq<char>) -> Option<(bool, int)> {
    if v.len() > 0 && (v[0] == 'b' || v[0] == 'x') {
        let radix = if v[0] == 'b' { 2int } else { 16int };
        radix_literal(v.drop_first(), radix)
    } else {
        match sanitized(v, 10) {
            Some(t) => plain_int(t, 10),
            None => None,
        }
    }
}

/// Check whether a char sequence holds an underscore
fn has_underscore(s: &Vec<char>) -> (r: bool)
    ensures
        r == s@.contains('_'),
{
    let mut i: usize = 0;
    while i < s.len()
        invariant
            i <= s@.len(),
            forall|j: int| 0 <= j < i ==> s@[j] != '_',
        decreases s@.len() - i,
    {
        if s[i] == '_' {
            return true;
        }
        i = i + 1;
    }
    false
}

/// Sanitize a number, removing underscores, returning None if invalid placement
fn sanitize_num(value: &Vec<char>, radix: u32) -> (r: Option<Vec<char>>)
    requires
        2 <= radix <= 16,
    ensures
        r matches Some(t) ==> sanitized(value@, radix as int) == Some(t@),
        r is None ==> sanitized(value@, radix as int) is None,
{
    if !has_underscore(value) {
        return Some(value.clone());
    }
    let start: usize = if value.len() > 0 && (value[0] == '-' || value[0] == '+') { 1 } else { 0 };
    let ghost b = unsigned_part(value@);
    proof {
        if start == 1 {
            assert(b =~= value@.subrange(1, value@.len() as int));
        } else {
            assert(b =~= value@.subrange(0, value@.len() as int));
        }
    }
    let n = value.len();
    if n <= start || digit_value(value[start]) >= radix || digit_value(value[n - 1]) >= radix {
        return None;
    }
    let mut i: usize = start;
    while i < n
        invariant
            start <= i <= n == value@.len(),
            n > start,
            b == value@.subrange(start as int, n as int),
            b == unsigned_part(value@),
            value@.contains('_'),
            is_radix_digit(b[0], radix as int),
            is_radix_digit(b.last(), radix as int),
            forall|j: int| 0 <= j < i - start && #[trigger] b[j] == '_' ==> 0 < j < b.len() - 1
                && is_radix_digit(b[j - 1], radix as int) && is_radix_digit(b[j + 1], radix as int),
        decreases n - i,
    {
        if value[i] == '_' {
            if i == start || i + 1 == n || digit_value(value[i - 1]) >= radix
                || digit_value(value[i + 1]) >= radix {
                proof {
                    let j = i - start;
                    assert(b[j] == '_');
                    if j > 0 { assert(b[j - 1] == value@[i - 1]); }
                    if j + 1 < b.len() { assert(b[j + 1] == value@[i + 1]); }
                    assert(!underscores_placed(b, radix as int));
                }
                return None;
            }
            proof {
                assert(b[i - start - 1] == value@[i - 1]);
                assert(b[i - start + 1] == value@[i + 1]);
            }
        }
        i = i + 1;
    }
    let t = remove_underscores(value, 0);
    proof {
        assert(value@.subrange(0, value@.len() as int) =~= value@);
    }
    Some(t)
}

/// Parse digits with an optional sign, as `str::parse` does for integers
fn plain_parse<T: Integer>(t: &Vec<char>, radix: u32) -> (r: Option<T>)
    requires
        2 <= radix <= 16,
    ensures
        r is Some <==> (plain_int(t@, radix as int) matches Some((neg, m)) && fits::<T>(neg, m)),
        r matches Some(x) ==> (plain_int(t@, radix as int) matches Some((neg, m))
            && x.to_int() == signed_value(neg, m)),
{
    let negative = t.len() > 0 && t[0] == '-';
    let start: usize = if t.len() > 0 && (t[0] == '-' || t[0] == '+') { 1 } else { 0 };
    let ghost d = unsigned_part(t@);
    proof {
        if start == 1 {
            assert(d =~= t@.subrange(1, t@.len() as int));
        } else {
            assert(d =~= t@.subrange(0, t@.len() as int));
        }
    }
    if t.len() <= start {
        return None;
    }
    let mut i: usize = start;
    while i < t.len()
        invariant
            start <= i <= t@.len(),
            d == t@.subrange(start as int, t@.len() as int),
            d == unsigned_part(t@),
            forall|j: int| 0 <= j < i - start ==> is_radix_digit(#[trigger] d[j], radix as int),
        decreases t@.len() - i,
    {
        if digit_value(t[i]) >= radix {
            assert(!is_radix_digit(d[i - start], radix as int));
            assert(!all_radix_digits(d, radix as int));
            assert(plain_int(t@, radix as int) is None);
            return None;
        }
        i = i + 1;
    }
    let digits = remove_underscores(t, start);
    proof {
        lemma_no_underscores(d, radix as int);
    }
    match magnitude(&digits, radix) {
        Some(m) => T::from_parts(negative, m),
        None => {
            proof {
                T::lemma_range();
            }
            None
        },
    }
}

/// Digits hold no underscore, so removing underscores keeps them
proof fn lemma_no_underscores(d: Seq<char>, radix: int)
    requires
        radix <= 16,
        all_radix_digits(d, radix),
    ensures
        without_underscores(d) == d,
    decreases d.len(),
{
    if d.len() > 0 {
        let t = d.drop_last();
        assert(all_radix_digits(t, radix)) by {
            assert forall|i: int| 0 <= i < t.len() implies is_radix_digit(#[trigger] t[i], radix) by {
                assert(t[i] == d[i]);
            }
        }
        lemma_no_underscores(t, radix);
        assert(is_radix_digit(d[d.len() - 1], radix));
        assert(t.push(d.last()) =~= d);
    }
}

/// Parse an integer from a string slice
pub fn integer<T: Integer>(v: &str) -> (r: Option<T>)
    ensures
        r is Some <==> (int_literal(v@) matches Some((neg, m)) && fits::<T>(neg, m)),
        r matches Some(x) ==> (int_literal(v@) matches Some((neg, m))
            && x.to_int() == signed_value(neg, m)),
{
    let s = chars_of(v);
    if s.len() > 0 && (s[0] == 'b' || s[0] == 'x') {
        let radix: u32 = if s[0] == 'b' { 2 } else { 16 };
        let rest = remove_first(&s);
        int_radix(&rest, radix)
    } else {
        match sanitize_num(&s, 10) {
            Some(t) => plain_parse(&t, 10),
            None => None,
        }
    }
}

/// All chars but the first
fn remove_first(s: &Vec<char>) -> (r: Vec<char>)
    requires
        s@.len() > 0,
    ensures
        r@ == s@.drop_first(),
{
    let mut r: Vec<char> = Vec::new();
    let mut i: usize = 1;
    while i < s.len()
        invariant
            1 <= i <= s@.len(),
            r@ == s@.subrange(1, i as int),
        decreases s@.len() - i,
    {
        r.push(s[i]);
        i = i + 1;
    }
    r
}

/// Parse an integer in an alternative radix; no sign is allowed
fn int_radix<T: Integer>(v: &Vec<char>, radix: u32) -> (r: Option<T>)
    requires
        2 <= radix <= 16,
    ensures
        r is Some <==> (radix_literal(v@, radix as int) matches Some((neg, m)) && fits::<T>(neg, m)),
        r matches Some(x) ==> (radix_literal(v@, radix as int) matches Some((neg, m))
            && x.to_int() == signed_value(neg, m)),
{
    if v.len() > 0 && (v[0] == '-' || v[0] == '+') {
        return None;
    }
    match sanitize_num(v, radix) {
        Some(t) => plain_parse(&t, radix),
        None => None,
    }
}

/// Parse a bool: exactly `true` or `false`
pub fn bool(value: &str) -> (r: Option<bool>)
    ensures
        r == (if value@ == seq!['t', 'r', 'u', 'e'] {
            Some(true)
        } else if value@ == seq!['f', 'a', 'l', 's', 'e'] {
            Some(false)
        } else {
            None::<bool>
        }),
{
    let s = chars_of(value);
    if s.len() == 4 && s[0] == 't' && s[1] == 'r' && s[2] == 'u' && s[3] == 'e' {
        assert(s@ =~= seq!['t', 'r', 'u', 'e']);
        Some(true)
    } else if s.len() == 5 && s[0] == 'f' && s[1] == 'a' && s[2] == 'l' && s[3] == 's' && s[4] == 'e' {
        assert(s@ =~= seq!['f', 'a', 'l', 's', 'e']);
        Some(false)
    } else {
        None
    }
}

/// Parse a char (`text <=1 >=1`): exactly one char
pub fn char(value: &str) -> (r: Option<char>)
    ensures
        r == (if value@.len() == 1 { Some(value@[0]) } else { None::<char> }),
{
    let s = chars_of(value);
    if s.len() == 1 {
        Some(s[0])
    } else {
        None
    }
}

/// Sign written before a number literal
pub open spec fn num_sign(v: Seq<char>) -> Sign {
    if v.len() > 0 && v[0] == '-' { Sign::Negative } else { Sign::Positive }
}

/// A number literal after its sign, if any
pub open spec fn num_body(v: Seq<char>) -> Seq<char> {
    unsigned_part(v)
}

/// The literal holds a decimal or scientific number: it starts with a digit
/// or a point, and its underscores are well placed
pub open spec fn decimal_candidate(u: Seq<char>) -> bool {
    u.len() > 0 && ('0' <= u[0] <= '9' || u[0] == '.') && sanitized(u, 10) is Some
}

/// Return the number literal with the sign separated out
fn extract_sign(v: &Vec<char>) -> (r: (Vec<char>, Sign))
    ensures
        r.0@ == num_body(v@),
        r.1 == num_sign(v@),
{
    if v.len() > 0 && (v[0] == '-' || v[0] == '+') {
        let sign = if v[0] == '-' { Sign::Negative } else { Sign::Positive };
        (remove_first(v), sign)
    } else {
        (v.clone(), Sign::Positive)
    }
}

/// What `number` gives for the literal `v`
pub open spec fn number_result(v: Seq<char>, r: Option<NumLiteral>) -> bool {
    &&& num_body(v) == seq!['i', 'n', 'f'] ==> r == Some(NumLiteral::Infinity(num_sign(v)))
    &&& num_body(v) == seq!['N', 'a', 'N'] ==> r == Some(NumLiteral::NaN(num_sign(v)))
    &&& num_body(v) != seq!['i', 'n', 'f'] && num_body(v) != seq!['N', 'a', 'N'] ==> {
        &&& r is Some <==> decimal_candidate(num_body(v))
        &&& r matches Some(NumLiteral::Decimal(sign, t)) ==> sign == num_sign(v)
            && sanitized(num_body(v), 10) == Some(t@)
        &&& r is Some ==> r matches Some(NumLiteral::Decimal(_, _))
    }
}

/// Check a number literal: `inf` and `NaN` with an optional sign, or a
/// decimal literal whose conversion to floating point is left to the caller
pub fn number(v: &str) -> (r: Option<NumLiteral>)
    ensures
        number_result(v@, r),
{
    let s = chars_of(v);
    let (u, sign) = extract_sign(&s);
    if u.len() == 3 && u[0] == 'i' && u[1] == 'n' && u[2] == 'f' {
        assert(u@ =~= seq!['i', 'n', 'f']);
        return Some(NumLiteral::Infinity(sign));
    }
    if u.len() == 3 && u[0] == 'N' && u[1] == 'a' && u[2] == 'N' {
        assert(u@ =~= seq!['N', 'a', 'N']);
        return Some(NumLiteral::NaN(sign));
    }
    proof {
        if u@ == seq!['i', 'n', 'f'] || u@ == seq!['N', 'a', 'N'] {
            assert(u@.len() == 3);
        }
    }
    if u.len() == 0 || !((u[0] >= '0' && u[0] <= '9') || u[0] == '.') {
        return None;
    }
    match sanitize_num(&u, 10) {
        Some(t) => Some(NumLiteral::Decimal(sign, string_of(&t))),
        None => None,
    }
}

/// `number` rejects the literal
pub open spec fn number_literal_rejected(v: Seq<char>) -> bool {
    num_body(v) != seq!['i', 'n', 'f'] && num_body(v) != seq!['N', 'a', 'N']
        && !decimal_candidate(num_body(v))
}

} // verus!
