use vstd::prelude::*;
use crate::text::chars_of;

verus! {

/// Integer types that literals can be parsed into
pub trait Integer: Sized + Copy {
    /// Whether the type has negative values
    spec fn signed() -> bool;

    /// Smallest value of the type
    spec fn min_int() -> int;

    /// Largest value of the type
    spec fn max_int() -> int;

    /// The value as a mathematical integer
    spec fn to_int(&self) -> int;

    /// The range of the type lies within that of a `u128` magnitude with a sign
    proof fn lemma_range()
        ensures
            -u128::MAX <= Self::min_int() <= 0 < Self::max_int() <= u128::MAX;

    /// Build a value from a sign and a magnitude, if it fits the type
    fn from_parts(negative: bool, magnitude: u128) -> (r: Option<Self>)
        ensures
            r is Some <==> (!(negative && !Self::signed()) && Self::min_int() <= signed_value(
                negative,
                magnitude as int,
            ) <= Self::max_int()),
            r matches Some(v) ==> v.to_int() == signed_value(negative, magnitude as int);
}

/// A sign and a magnitude as one integer
pub open spec fn signed_value(negative: bool, magnitude: int) -> int {
    if negative { -magnitude } else { magnitude }
}

/// A sign and a magnitude name a value of `T`; unsigned types take no minus sign
pub open spec fn fits<T: Integer>(negative: bool, magnitude: int) -> bool {
    &&& !(negative && !T::signed())
    &&& T::min_int() <= signed_value(negative, magnitude) <= T::max_int()
}

/// Value of a digit in any radix up to 16, or 99 for a char that is no digit
pub open spec fn digit_of(c: char) -> int {
    if '0' <= c <= '9' {
        c as int - 48
    } else if 'a' <= c <= 'f' {
        c as int - 87
    } else if 'A' <= c <= 'F' {
        c as int - 55
    } else {
        99
    }
}

/// `c` is a digit in `radix`
pub open spec fn is_radix_digit(c: char, radix: int) -> bool {
    digit_of(c) < radix
}

/// Every char is a digit in `radix`
pub open spec fn all_radix_digits(s: Seq<char>, radix: int) -> bool {
    forall|i: int| 0 <= i < s.len() ==> is_radix_digit(#[trigger] s[i], radix)
}

/// Value of a run of digits in `radix`
pub open spec fn radix_value(s: Seq<char>, radix: int) -> int
    decreases s.len(),
{
    if s.len() == 0 {
        0
    } else {
        radix_value(s.drop_last(), radix) * radix + digit_of(s.last())
    }
}

/// The chars with every underscore left out
pub open spec fn without_underscores(s: Seq<char>) -> Seq<char>
    decreases s.len(),
{
    if s.len() == 0 {
        s
    } else if s.last() == '_' {
        without_underscores(s.drop_last())
    } else {
        without_underscores(s.drop_last()).push(s.last())
    }
}

/// Digits of `radix` and single underscores, not ending in an underscore
pub open spec fn underscored_digits(s: Seq<char>, radix: int) -> bool {
    &&& forall|i: int| 0 <= i < s.len() ==> (is_radix_digit(#[trigger] s[i], radix) || s[i] == '_')
    &&& forall|i: int| 0 <= i < s.len() - 1 && #[trigger] s[i] == '_' ==> s[i + 1] != '_'
    &&& (s.len() > 0 ==> s.last() != '_')
}

/// Radix of a `0b` / `0o` / `0x` prefix letter
pub open spec fn prefix_radix(c: char) -> int {
    if c == 'b' { 2 } else if c == 'o' { 8 } else if c == 'x' { 16 } else { 0 }
}

/// Sign and magnitude of a literal in the prefixed syntax: `0`, `0b..`, `0o..`,
/// `0x..`, or a signed decimal starting with a nonzero digit; underscores may
/// separate digits
pub open spec fn prefixed_literal(s: Seq<char>) -> Option<(bool, int)> {
    if s =~= seq!['0'] {
        Some((false, 0))
    } else if s.len() >= 2 && s[0] == '0' && prefix_radix(s[1]) != 0 {
        let rest = s.subrange(2, s.len() as int);
        if underscored_digits(rest, prefix_radix(s[1])) {
            Some((false, radix_value(without_underscores(rest), prefix_radix(s[1]))))
        } else {
            None
        }
    } else {
        let negative = s.len() > 0 && s[0] == '-';
        let body = if s.len() > 0 && (s[0] == '-' || s[0] == '+') { s.drop_first() } else { s };
        if body.len() > 0 && '1' <= body[0] <= '9' && underscored_digits(body, 10) {
            Some((negative, radix_value(without_underscores(body), 10)))
        } else {
            None
        }
    }
}

/// Parse an integer literal in the prefixed syntax (`0b`, `0o`, `0x`)
pub fn from_str<T: Integer>(v: &str) -> (r: Option<T>)
    ensures
        r is Some <==> (prefixed_literal(v@) matches Some((neg, m)) && fits::<T>(neg, m)),
        r matches Some(x) ==> (prefixed_literal(v@) matches Some((neg, m))
            && x.to_int() == signed_value(neg, m)),
{
    let s = chars_of(v);
    from_chars(&s)
}

fn from_chars<T: Integer>(s: &Vec<char>) -> (r: Option<T>)
    ensures
        r is Some <==> (prefixed_literal(s@) matches Some((neg, m)) && fits::<T>(neg, m)),
        r matches Some(x) ==> (prefixed_literal(s@) matches Some((neg, m))
            && x.to_int() == signed_value(neg, m)),
{
    if s.len() == 1 && s[0] == '0' {
        assert(s@ =~= seq!['0']);
        return T::from_parts(false, 0);
    }
    if s.len() >= 2 && s[0] == '0' && (s[1] == 'b' || s[1] == 'o' || s[1] == 'x') {
        let radix: u32 = if s[1] == 'b' { 2 } else if s[1] == 'o' { 8 } else { 16 };
        if !underscored(s, 2, radix) {
            return None;
        }
        let ghost rest = s@.subrange(2, s@.len() as int);
        let digits = remove_underscores(s, 2);
        match magnitude(&digits, radix) {
            Some(m) => T::from_parts(false, m),
            None => {
                proof { lemma_too_large::<T>(false, radix_value(digits@, radix as int)); }
                None
            },
        }
    } else {
        let negative = s.len() > 0 && s[0] == '-';
        let start: usize = if s.len() > 0 && (s[0] == '-' || s[0] == '+') { 1 } else { 0 };
        let ghost body = s@.subrange(start as int, s@.len() as int);
        proof {
            if start == 1 {
                assert(body =~= s@.drop_first());
            } else {
                assert(body =~= s@);
            }
        }
        if !(s.len() > start && s[start] >= '1' && s[start] <= '9' && underscored(s, start, 10)) {
            return None;
        }
        let digits = remove_underscores(s, start);
        match magnitude(&digits, 10) {
            Some(m) => T::from_parts(negative, m),
            None => {
                proof { lemma_too_large::<T>(negative, radix_value(digits@, 10)); }
                None
            },
        }
    }
}

/// A magnitude beyond `u128` fits no integer type
proof fn lemma_too_large<T: Integer>(negative: bool, m: int)
    requires
        m > u128::MAX,
    ensures
        !fits::<T>(negative, m),
{
    T::lemma_range();
}

/// Value of a digit char, as `digit_of` gives it
pub(crate) fn digit_value(c: char) -> (r: u32)
    ensures
        r == digit_of(c),
{
    if c >= '0' && c <= '9' {
        (c as u32) - 48
    } else if c >= 'a' && c <= 'f' {
        (c as u32) - 87
    } else if c >= 'A' && c <= 'F' {
        (c as u32) - 55
    } else {
        99
    }
}

/// Check that `s[start..]` is digits of `radix` with single underscores between
fn underscored(s: &Vec<char>, start: usize, radix: u32) -> (r: bool)
    requires
        start <= s@.len(),
    ensures
        r == underscored_digits(s@.subrange(start as int, s@.len() as int), radix as int),
{
    let ghost t = s@.subrange(start as int, s@.len() as int);
    let mut i: usize = start;
    while i < s.len()
        invariant
            start <= i <= s@.len(),
            t == s@.subrange(start as int, s@.len() as int),
            forall|j: int| 0 <= j < i - start ==> (is_radix_digit(#[trigger] t[j], radix as int) || t[j] == '_'),
            forall|j: int| 0 <= j < i - start && #[trigger] t[j] == '_' ==> j + 1 < t.len() && t[j + 1] != '_',
        decreases s@.len() - i,
    {
        let c = s[i];
        assert(t[i - start] == c);
        if c == '_' {
            if i + 1 == s.len() {
                assert(t.last() == '_');
                return false;
            }
            if s[i + 1] == '_' {
                assert(t[i - start + 1] == '_');
                return false;
            }
        } else if digit_value(c) >= radix {
            assert(!(is_radix_digit(t[i - start], radix as int) || t[i - start] == '_'));
            return false;
        }
        i = i + 1;
    }
    proof {
        if t.len() > 0 {
            assert(t.last() == t[t.len() - 1]);
        }
    }
    true
}

proof fn lemma_without_underscores_push(s: Seq<char>, c: char)
    ensures
        without_underscores(s.push(c)) == if c == '_' {
            without_underscores(s)
        } else {
            without_underscores(s).push(c)
        },
{
    assert(s.push(c).drop_last() =~= s);
}

/// The chars of `s[start..]` without underscores
pub(crate) fn remove_underscores(s: &Vec<char>, start: usize) -> (r: Vec<char>)
    requires
        start <= s@.len(),
    ensures
        r@ == without_underscores(s@.subrange(start as int, s@.len() as int)),
        forall|radix: int| underscored_digits(s@.subrange(start as int, s@.len() as int), radix)
            ==> all_radix_digits(r@, radix),
{
    let ghost t = s@.subrange(start as int, s@.len() as int);
    let mut r: Vec<char> = Vec::new();
    let mut i: usize = start;
    while i < s.len()
        invariant
            start <= i <= s@.len(),
            t == s@.subrange(start as int, s@.len() as int),
            r@ == without_underscores(s@.subrange(start as int, i as int)),
            forall|k: int| 0 <= k < r@.len() ==> exists|j: int| 0 <= j < i - start && t[j] == #[trigger] r@[k] && t[j] != '_',
        decreases s@.len() - i,
    {
        proof {
            assert(s@.subrange(start as int, i + 1) =~= s@.subrange(start as int, i as int).push(s@[i as int]));
            lemma_without_underscores_push(s@.subrange(start as int, i as int), s@[i as int]);
        }
        if s[i] != '_' {
            r.push(s[i]);
            proof {
                let k = r@.len() - 1;
                assert(t[i - start] == r@[k]);
            }
        }
        i = i + 1;
    }
    proof {
        assert(s@.subrange(start as int, i as int) =~= t);
        assert forall|radix: int| underscored_digits(t, radix) implies all_radix_digits(r@, radix) by {
            assert forall|k: int| 0 <= k < r@.len() implies is_radix_digit(#[trigger] r@[k], radix) by {
                let j = choose|j: int| 0 <= j < i - start && t[j] == r@[k] && t[j] != '_';
                assert(is_radix_digit(t[j], radix) || t[j] == '_');
            }
        }
    }
    r
}

/// Value of a run of digits, if it fits a `u128`
pub(crate) fn magnitude(d: &Vec<char>, radix: u32) -> (r: Option<u128>)
    requires
        2 <= radix <= 16,
        all_radix_digits(d@, radix as int),
    ensures
        r is Some <==> radix_value(d@, radix as int) <= u128::MAX,
        r matches Some(m) ==> m == radix_value(d@, radix as int),
{
    let mut acc: u128 = 0;
    let mut i: usize = 0;
    while i < d.len()
        invariant
            2 <= radix <= 16,
            i <= d@.len(),
            all_radix_digits(d@, radix as int),
            acc == radix_value(d@.subrange(0, i as int), radix as int),
        decreases d@.len() - i,
    {
        proof {
            assert(d@.subrange(0, i + 1).drop_last() =~= d@.subrange(0, i as int));
            assert(is_radix_digit(d@[i as int], radix as int));
        }
        let dv = digit_value(d[i]);
        match acc.checked_mul(radix as u128) {
            Some(a) => match a.checked_add(dv as u128) {
                Some(b) => {
                    acc = b;
                },
                None => {
                    proof { lemma_value_grows(d@, radix as int, i as int + 1); }
                    return None;
                },
            },
            None => {
                proof {
                    assert(acc * radix >= acc * 2) by (nonlinear_arith) requires acc >= 0, radix >= 2;
                    lemma_value_grows(d@, radix as int, i as int + 1);
                }
                return None;
            },
        }
        i = i + 1;
    }
    proof {
        assert(d@.subrange(0, i as int) =~= d@);
    }
    Some(acc)
}

/// A longer run of digits never has a smaller value
proof fn lemma_value_grows(d: Seq<char>, radix: int, k: int)
    requires
        2 <= radix <= 16,
        0 <= k <= d.len(),
        all_radix_digits(d, radix),
    ensures
        radix_value(d.subrange(0, k), radix) <= radix_value(d, radix),
        0 <= radix_value(d.subrange(0, k), radix),
    decreases d.len() - k,
{
    lemma_value_nonneg(d.subrange(0, k), radix);
    if k < d.len() {
        lemma_value_grows(d, radix, k + 1);
        assert(d.subrange(0, k + 1).drop_last() =~= d.subrange(0, k));
        assert(is_radix_digit(d[k], radix));
        let v = radix_value(d.subrange(0, k), radix);
        assert(v * radix >= v) by (nonlinear_arith) requires v >= 0, radix >= 2;
    } else {
        assert(d.subrange(0, k) =~= d);
    }
}

proof fn lemma_value_nonneg(d: Seq<char>, radix: int)
    requires
        2 <= radix <= 16,
        all_radix_digits(d, radix),
    ensures
        0 <= radix_value(d, radix),
    decreases d.len(),
{
    if d.len() > 0 {
        let t = d.drop_last();
        assert(all_radix_digits(t, radix)) by {
            assert forall|i: int| 0 <= i < t.len() implies is_radix_digit(#[trigger] t[i], radix) by {
                assert(t[i] == d[i]);
            }
        }
        lemma_value_nonneg(t, radix);
        assert(is_radix_digit(d[d.len() - 1], radix));
        let v = radix_value(t, radix);
        assert(v * radix >= 0) by (nonlinear_arith) requires v >= 0, radix >= 2;
    }
}

impl Integer for u8 {
    open spec fn signed() -> bool {
        false
    }

    open spec fn min_int() -> int {
        u8::MIN as int
    }

    open spec fn max_int() -> int {
        u8::MAX as int
    }

    open spec fn to_int(&self) -> int {
        *self as int
    }

    proof fn lemma_range() {
    }

    fn from_parts(negative: bool, magnitude: u128) -> (r: Option<u8>) {
        if negative || magnitude > u8::MAX as u128 {
            None
        } else {
            Some(magnitude as u8)
        }
    }
}

impl Integer for u16 {
    open spec fn signed() -> bool {
        false
    }

    open spec fn min_int() -> int {
        u16::MIN as int
    }

    open spec fn max_int() -> int {
        u16::MAX as int
    }

    open spec fn to_int(&self) -> int {
        *self as int
    }

    proof fn lemma_range() {
    }

    fn from_parts(negative: bool, magnitude: u128) -> (r: Option<u16>) {
        if negative || magnitude > u16::MAX as u128 {
            None
        } else {
            Some(magnitude as u16)
        }
    }
}

impl Integer for u32 {
    open spec fn signed() -> bool {
        false
    }

    open spec fn min_int() -> int {
        u32::MIN as int
    }

    open spec fn max_int() -> int {
        u32::MAX as int
    }

    open spec fn to_int(&self) -> int {
        *self as int
    }

    proof fn lemma_range() {
    }

    fn from_parts(negative: bool, magnitude: u128) -> (r: Option<u32>) {
        if negative || magnitude > u32::MAX as u128 {
            None
        } else {
            Some(magnitude as u32)
        }
    }
}

impl Integer for u64 {
    open spec fn signed() -> bool {
        false
    }

    open spec fn min_int() -> int {
        u64::MIN as int
    }

    open spec fn max_int() -> int {
        u64::MAX as int
    }

    open spec fn to_int(&self) -> int {
        *self as int
    }

    proof fn lemma_range() {
    }

    fn from_parts(negative: bool, magnitude: u128) -> (r: Option<u64>) {
        if negative || magnitude > u64::MAX as u128 {
            None
        } else {
            Some(magnitude as u64)
        }
    }
}

impl Integer for usize {
    open spec fn signed() -> bool {
        false
    }

    open spec fn min_int() -> int {
        usize::MIN as int
    }

    open spec fn max_int() -> int {
        usize::MAX as int
    }

    open spec fn to_int(&self) -> int {
        *self as int
    }

    proof fn lemma_range() {
    }

    fn from_parts(negative: bool, magnitude: u128) -> (r: Option<usize>) {
        if negative || magnitude > usize::MAX as u128 {
            None
        } else {
            Some(magnitude as usize)
        }
    }
}

impl Integer for u128 {
    open spec fn signed() -> bool {
        false
    }

    open spec fn min_int() -> int {
        u128::MIN as int
    }

    open spec fn max_int() -> int {
        u128::MAX as int
    }

    open spec fn to_int(&self) -> int {
        *self as int
    }

    proof fn lemma_range() {
    }

    fn from_parts(negative: bool, magnitude: u128) -> (r: Option<u128>) {
        if negative {
            None
        } else {
            Some(magnitude)
        }
    }
}

impl Integer for i8 {
    open spec fn signed() -> bool {
        true
    }

    open spec fn min_int() -> int {
        i8::MIN as int
    }

    open spec fn max_int() -> int {
        i8::MAX as int
    }

    open spec fn to_int(&self) -> int {
        *self as int
    }

    proof fn lemma_range() {
    }

    fn from_parts(negative: bool, magnitude: u128) -> (r: Option<i8>) {
        if negative {
            if magnitude <= i8::MAX as u128 + 1 {
                let v: i128 = -(magnitude as i128);
                Some(v as i8)
            } else {
                None
            }
        } else if magnitude <= i8::MAX as u128 {
            Some(magnitude as i8)
        } else {
            None
        }
    }
}

impl Integer for i16 {
    open spec fn signed() -> bool {
        true
    }

    open spec fn min_int() -> int {
        i16::MIN as int
    }

    open spec fn max_int() -> int {
        i16::MAX as int
    }

    open spec fn to_int(&self) -> int {
        *self as int
    }

    proof fn lemma_range() {
    }

    fn from_parts(negative: bool, magnitude: u128) -> (r: Option<i16>) {
        if negative {
            if magnitude <= i16::MAX as u128 + 1 {
                let v: i128 = -(magnitude as i128);
                Some(v as i16)
            } else {
                None
            }
        } else if magnitude <= i16::MAX as u128 {
            Some(magnitude as i16)
        } else {
            None
        }
    }
}

impl Integer for i32 {
    open spec fn signed() -> bool {
        true
    }

    open spec fn min_int() -> int {
        i32::MIN as int
    }

    open spec fn max_int() -> int {
        i32::MAX as int
    }

    open spec fn to_int(&self) -> int {
        *self as int
    }

    proof fn lemma_range() {
    }

    fn from_parts(negative: bool, magnitude: u128) -> (r: Option<i32>) {
        if negative {
            if magnitude <= i32::MAX as u128 + 1 {
                let v: i128 = -(magnitude as i128);
                Some(v as i32)
            } else {
                None
            }
        } else if magnitude <= i32::MAX as u128 {
            Some(magnitude as i32)
        } else {
            None
        }
    }
}

impl Integer for i64 {
    open spec fn signed() -> bool {
        true
    }

    open spec fn min_int() -> int {
        i64::MIN as int
    }

    open spec fn max_int() -> int {
        i64::MAX as int
    }

    open spec fn to_int(&self) -> int {
        *self as int
    }

    proof fn lemma_range() {
    }

    fn from_parts(negative: bool, magnitude: u128) -> (r: Option<i64>) {
        if negative {
            if magnitude <= i64::MAX as u128 + 1 {
                let v: i128 = -(magnitude as i128);
                Some(v as i64)
            } else {
                None
            }
        } else if magnitude <= i64::MAX as u128 {
            Some(magnitude as i64)
        } else {
            None
        }
    }
}

impl Integer for isize {
    open spec fn signed() -> bool {
        true
    }

    open spec fn min_int() -> int {
        isize::MIN as int
    }

    open spec fn max_int() -> int {
        isize::MAX as int
    }

    open spec fn to_int(&self) -> int {
        *self as int
    }

    proof fn lemma_range() {
    }

    fn from_parts(negative: bool, magnitude: u128) -> (r: Option<isize>) {
        if negative {
            if magnitude <= isize::MAX as u128 + 1 {
                let v: i128 = -(magnitude as i128);
                Some(v as isize)
            } else {
                None
            }
        } else if magnitude <= isize::MAX as u128 {
            Some(magnitude as isize)
        } else {
            None
        }
    }
}

impl Integer for i128 {
    open spec fn signed() -> bool {
        true
    }

    open spec fn min_int() -> int {
        i128::MIN as int
    }

    open spec fn max_int() -> int {
        i128::MAX as int
    }

    open spec fn to_int(&self) -> int {
        *self as int
    }

    proof fn lemma_range() {
    }

    fn from_parts(negative: bool, magnitude: u128) -> (r: Option<i128>) {
        if negative {
            if magnitude <= i128::MAX as u128 {
                Some(-(magnitude as i128))
            } else if magnitude == i128::MAX as u128 + 1 {
                Some(i128::MIN)
            } else {
                None
            }
        } else if magnitude <= i128::MAX as u128 {
            Some(magnitude as i128)
        } else {
            None
        }
    }
}

} // verus!
