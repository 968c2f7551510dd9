//! Parsing of the command-line number formats: unsigned integer pairs such
//! as `1024x768`, and pairs of signed decimal literals such as `-1.0,0.25`.
//!
//! A pair is two components around the first occurrence of a separator
//! character, each trimmed of surrounding blanks.  An unsigned component is
//! a nonempty run of digits; a decimal component is an optional sign, then
//! digits with at most one point among them, with fixed precision limits
//! (at most `MAX_INT_PART` before the point, at most `MAX_SCALE` digits
//! after it).  Every parser returns exactly the value its spec function
//! denotes, and fails exactly on the inputs outside its grammar.

use vstd::prelude::*;

use crate::geometry::Bounds;
use crate::numbers::Decimal;
use crate::numbers::MAX_INT_PART;
use crate::numbers::MAX_SCALE;
use crate::numbers::lemma_pow10_upto6;
use crate::numbers::pow10;

verus! {

/// An ASCII decimal digit.
pub open spec fn is_digit(c: char) -> bool {
    48 <= c as int <= 57
}

/// Every character of the sequence is a digit.
pub open spec fn all_digits(s: Seq<char>) -> bool {
    forall|i: int| 0 <= i < s.len() ==> is_digit(#[trigger] s[i])
}

/// The number a digit sequence denotes, most significant digit first.
pub open spec fn digits_val(s: Seq<char>) -> int
    decreases s.len(),
{
    if s.len() == 0 {
        0
    } else {
        digits_val(s.drop_last()) * 10 + (s.last() as int - 48)
    }
}

/// A digit sequence denotes a number below `10^len`.
pub proof fn lemma_digits_val_bounds(s: Seq<char>)
    requires
        all_digits(s),
    ensures
        0 <= digits_val(s) < pow10(s.len()),
    decreases s.len(),
{
    if s.len() > 0 {
        assert(all_digits(s.drop_last()));
        lemma_digits_val_bounds(s.drop_last());
        assert(is_digit(s.last()));
        assert(pow10(s.len()) == 10 * pow10((s.len() - 1) as nat));
        assert(digits_val(s.drop_last()) * 10 + 9 < 10 * pow10((s.len() - 1) as nat))
            by (nonlinear_arith)
            requires
                digits_val(s.drop_last()) < pow10((s.len() - 1) as nat),
        ;
    }
}

/// Extending a digit sequence to the right never shrinks its value.
pub proof fn lemma_digits_val_prefix(s: Seq<char>, k: int)
    requires
        all_digits(s),
        0 <= k <= s.len(),
    ensures
        digits_val(s.take(k)) <= digits_val(s),
    decreases s.len() - k,
{
    if k < s.len() {
        let t = s.take(k + 1);
        assert(t.drop_last() =~= s.take(k));
        assert(all_digits(s.take(k)));
        lemma_digits_val_bounds(s.take(k));
        assert(is_digit(t.last()));
        assert(digits_val(t) == digits_val(s.take(k)) * 10 + (t.last() as int - 48));
        assert(digits_val(s.take(k)) <= digits_val(s.take(k)) * 10) by (nonlinear_arith)
            requires
                digits_val(s.take(k)) >= 0,
        ;
        lemma_digits_val_prefix(s, k + 1);
    } else {
        assert(s.take(k) =~= s);
    }
}

/// Index of the first occurrence of a character, if any.
pub open spec fn first_sep(s: Seq<char>, sep: char) -> Option<int>
    decreases s.len(),
{
    if s.len() == 0 {
        None
    } else if s[0] == sep {
        Some(0)
    } else {
        match first_sep(s.drop_first(), sep) {
            None => None,
            Some(i) => Some(i + 1),
        }
    }
}

proof fn lemma_first_sep_found(s: Seq<char>, sep: char, i: int)
    requires
        0 <= i < s.len(),
        s[i] == sep,
        forall|j: int| 0 <= j < i ==> s[j] != sep,
    ensures
        first_sep(s, sep) == Some(i),
    decreases i,
{
    if i > 0 {
        assert(s[0] != sep);
        let t = s.drop_first();
        assert(t[i - 1] == s[i]);
        assert forall|j: int| 0 <= j < i - 1 implies t[j] != sep by {
            assert(t[j] == s[j + 1]);
        }
        lemma_first_sep_found(t, sep, i - 1);
    }
}

proof fn lemma_first_sep_none(s: Seq<char>, sep: char)
    requires
        forall|j: int| 0 <= j < s.len() ==> s[j] != sep,
    ensures
        first_sep(s, sep) is None,
    decreases s.len(),
{
    if s.len() > 0 {
        assert(s[0] != sep);
        let t = s.drop_first();
        assert forall|j: int| 0 <= j < t.len() implies t[j] != sep by {
            assert(t[j] == s[j + 1]);
        }
        lemma_first_sep_none(t, sep);
    }
}

/// Finds the first occurrence of a character in a string.
pub fn find_char(s: &str, sep: char) -> (r: Option<usize>)
    ensures
        r matches Some(i) ==> i < s@.len() && first_sep(s@, sep) == Some(i as int),
        r is None ==> first_sep(s@, sep) is None,
{
    let n: usize = s.unicode_len();
    let mut i: usize = 0;
    while i < n
        invariant
            n == s@.len(),
            0 <= i <= n,
            forall|j: int| 0 <= j < i ==> s@[j] != sep,
        decreases n - i,
    {
        let c: char = s.get_char(i);
        if c == sep {
            proof {
                lemma_first_sep_found(s@, sep, i as int);
            }
            return Some(i);
        }
        i = i + 1;
    }
    proof {
        lemma_first_sep_none(s@, sep);
    }
    None
}

/// A blank that surrounds a pair component: space or the usual ASCII
/// whitespace controls.
pub open spec fn is_space(c: char) -> bool {
    c == ' ' || c == '\t' || c == '\n' || c == '\r'
}

/// The sequence with its leading blanks removed.
pub open spec fn drop_leading_spaces(s: Seq<char>) -> Seq<char>
    decreases s.len(),
{
    if s.len() > 0 && is_space(s[0]) {
        drop_leading_spaces(s.drop_first())
    } else {
        s
    }
}

/// The sequence with its trailing blanks removed.
pub open spec fn drop_trailing_spaces(s: Seq<char>) -> Seq<char>
    decreases s.len(),
{
    if s.len() > 0 && is_space(s.last()) {
        drop_trailing_spaces(s.drop_last())
    } else {
        s
    }
}

/// The sequence with blanks removed from both ends.
pub open spec fn trimmed(s: Seq<char>) -> Seq<char> {
    drop_trailing_spaces(drop_leading_spaces(s))
}

proof fn lemma_drop_leading_to(s: Seq<char>, k: int)
    requires
        0 <= k <= s.len(),
        forall|j: int| 0 <= j < k ==> is_space(#[trigger] s[j]),
    ensures
        drop_leading_spaces(s) == drop_leading_spaces(s.skip(k)),
    decreases k,
{
    if k > 0 {
        assert(is_space(s[0]));
        let t = s.drop_first();
        assert(t =~= s.skip(1));
        assert forall|j: int| 0 <= j < k - 1 implies is_space(#[trigger] t[j]) by {
            assert(t[j] == s[j + 1]);
        }
        lemma_drop_leading_to(t, k - 1);
        assert(t.skip(k - 1) =~= s.skip(k));
    } else {
        assert(s.skip(0) =~= s);
    }
}

proof fn lemma_drop_trailing_to(s: Seq<char>, k: int)
    requires
        0 <= k <= s.len(),
        forall|j: int| k <= j < s.len() ==> is_space(#[trigger] s[j]),
    ensures
        drop_trailing_spaces(s) == drop_trailing_spaces(s.take(k)),
    decreases s.len() - k,
{
    if k < s.len() {
        assert(is_space(s.last()));
        let t = s.drop_last();
        assert forall|j: int| k <= j < t.len() implies is_space(#[trigger] t[j]) by {
            assert(t[j] == s[j]);
        }
        lemma_drop_trailing_to(t, k);
        assert(t.take(k) =~= s.take(k));
    } else {
        assert(s.take(k) =~= s);
    }
}

/// Removes the blanks around a pair component.
pub fn trim_spaces<'a>(s: &'a str) -> (r: &'a str)
    ensures
        r@ == trimmed(s@),
{
    let n: usize = s.unicode_len();
    let mut a: usize = 0;
    while a < n && is_space_char(s.get_char(a))
        invariant
            n == s@.len(),
            0 <= a <= n,
            forall|j: int| 0 <= j < a ==> is_space(#[trigger] s@[j]),
        decreases n - a,
    {
        a = a + 1;
    }
    let mut b: usize = n;
    while b > a && is_space_char(s.get_char(b - 1))
        invariant
            n == s@.len(),
            a <= b <= n,
            a < n ==> !is_space(s@[a as int]),
            forall|j: int| b <= j < n ==> is_space(#[trigger] s@[j]),
        decreases b,
    {
        b = b - 1;
    }
    let r: &str = s.substring_char(a, b);
    proof {
        lemma_drop_leading_to(s@, a as int);
        let tail = s@.skip(a as int);
        if a < n {
            assert(tail[0] == s@[a as int]);
            assert(drop_leading_spaces(tail) == tail);
        } else {
            assert(tail.len() == 0);
            assert(drop_leading_spaces(tail) == tail);
        }
        assert forall|j: int| b - a <= j < tail.len() implies is_space(#[trigger] tail[j]) by {
            assert(tail[j] == s@[j + a]);
        }
        lemma_drop_trailing_to(tail, b as int - a as int);
        let head = tail.take(b as int - a as int);
        assert(head =~= s@.subrange(a as int, b as int));
        if b > a {
            assert(head.last() == s@[b as int - 1]);
            assert(!is_space(head.last()));
            assert(drop_trailing_spaces(head) == head);
        } else {
            assert(head.len() == 0);
            assert(drop_trailing_spaces(head) == head);
        }
        assert(r@ == trimmed(s@));
    }
    r
}

fn is_space_char(c: char) -> (r: bool)
    ensures
        r == is_space(c),
{
    c == ' ' || c == '\t' || c == '\n' || c == '\r'
}

/// Parses a nonempty all-digit string into a 64-bit integer; fails exactly
/// when the string is empty, holds a non-digit, or denotes a number beyond
/// the 64-bit range.
pub fn parse_digits(s: &str) -> (r: Option<u64>)
    ensures
        r is Some <==> s@.len() > 0 && all_digits(s@) && digits_val(s@) <= u64::MAX,
        r matches Some(v) ==> v == digits_val(s@),
{
    let n: usize = s.unicode_len();
    if n == 0 {
        return None;
    }
    let mut i: usize = 0;
    let mut acc: u64 = 0;
    while i < n
        invariant
            n == s@.len(),
            0 <= i <= n,
            all_digits(s@.take(i as int)),
            acc == digits_val(s@.take(i as int)),
        decreases n - i,
    {
        let c: char = s.get_char(i);
        let code: u32 = c as u32;
        if code < 48 || code > 57 {
            proof {
                assert(!is_digit(s@[i as int]));
            }
            return None;
        }
        let d: u64 = (code - 48) as u64;
        proof {
            let t = s@.take(i as int + 1);
            assert(t.drop_last() =~= s@.take(i as int));
            assert(t.last() == s@[i as int]);
            assert(all_digits(t)) by {
                assert forall|j: int| 0 <= j < t.len() implies is_digit(#[trigger] t[j]) by {
                    if j < i as int {
                        assert(t[j] == s@.take(i as int)[j]);
                    } else {
                        assert(t[j] == s@[i as int]);
                    }
                }
            }
            assert(digits_val(t) == acc * 10 + d);
        }
        let next: Option<u64> = match acc.checked_mul(10) {
            Some(m) => m.checked_add(d),
            None => None,
        };
        match next {
            None => {
                proof {
                    if all_digits(s@) {
                        lemma_digits_val_prefix(s@, i as int + 1);
                        assert(digits_val(s@) > u64::MAX);
                    }
                }
                return None;
            },
            Some(v) => {
                acc = v;
            },
        }
        i = i + 1;
    }
    proof {
        assert(s@.take(n as int) =~= s@);
    }
    Some(acc)
}

/// A component that denotes a 32-bit unsigned integer.
pub open spec fn valid_u32_digits(s: Seq<char>) -> bool {
    s.len() > 0 && all_digits(s) && digits_val(s) <= u32::MAX
}

/// What parsing a pair of 32-bit unsigned integers yields: the components
/// around the first separator, trimmed; nothing when the separator is
/// absent or either component is no valid number.
pub open spec fn pair_of(s: Seq<char>, sep: char) -> Option<(u32, u32)> {
    match first_sep(s, sep) {
        None => None,
        Some(i) => {
            let left = trimmed(s.take(i));
            let right = trimmed(s.skip(i + 1));
            if valid_u32_digits(left) && valid_u32_digits(right) {
                Some(((digits_val(left) as u32), (digits_val(right) as u32)))
            } else {
                None
            }
        },
    }
}

fn parse_u32_component(s: &str) -> (r: Option<u32>)
    ensures
        r is Some <==> valid_u32_digits(s@),
        r matches Some(v) ==> v == digits_val(s@),
{
    match parse_digits(s) {
        None => None,
        Some(v) => {
            if v <= 0xFFFF_FFFF {
                Some(v as u32)
            } else {
                None
            }
        },
    }
}

/// Splits at the first separator and parses both components as 32-bit
/// unsigned integers.
pub fn parse_pair(value: &str, separator: char) -> (r: Option<(u32, u32)>)
    ensures
        r == pair_of(value@, separator),
{
    let n: usize = value.unicode_len();
    match find_char(value, separator) {
        None => None,
        Some(idx) => {
            let left: &str = value.substring_char(0, idx);
            let right: &str = value.substring_char(idx + 1, n);
            proof {
                assert(left@ =~= value@.take(idx as int));
                assert(right@ =~= value@.skip(idx as int + 1));
            }
            let lt: &str = trim_spaces(left);
            let rt: &str = trim_spaces(right);
            match (parse_u32_component(lt), parse_u32_component(rt)) {
                (Some(l), Some(r)) => Some((l, r)),
                _ => None,
            }
        },
    }
}

/// What parsing the pixel bounds yields: a `WIDTHxHEIGHT` pair whose
/// dimensions are positive and whose pixel count fits the machine.
pub open spec fn bounds_of(s: Seq<char>) -> Option<Bounds> {
    match pair_of(s, 'x') {
        None => None,
        Some(p) => {
            if p.0 > 0 && p.1 > 0 && p.0 * p.1 <= usize::MAX {
                Some(
                    (Bounds { width: p.0 as usize, height: p.1 as usize }),
                )
            } else {
                None
            }
        },
    }
}

/// Parses the pixel bounds argument, `1024x768` style.
pub fn parse_bounds(s: &str) -> (r: Option<Bounds>)
    ensures
        r == bounds_of(s@),
        r matches Some(b) ==> b.wf(),
{
    match parse_pair(s, 'x') {
        None => None,
        Some((w, h)) => Bounds::new(w as usize, h as usize),
    }
}

/// The component body behind an optional leading sign.
pub open spec fn signed_body(s: Seq<char>) -> Seq<char> {
    if s.len() > 0 && (s[0] == '-' || s[0] == '+') {
        s.drop_first()
    } else {
        s
    }
}

/// Whether the component carries a minus sign.
pub open spec fn is_negative(s: Seq<char>) -> bool {
    s.len() > 0 && s[0] == '-'
}

/// The digits before the decimal point (all of the body when there is none).
pub open spec fn int_digits_of(body: Seq<char>) -> Seq<char> {
    match first_sep(body, '.') {
        None => body,
        Some(i) => body.take(i),
    }
}

/// The digits after the decimal point (none when there is none).
pub open spec fn frac_digits_of(body: Seq<char>) -> Seq<char> {
    match first_sep(body, '.') {
        None => Seq::empty(),
        Some(i) => body.skip(i + 1),
    }
}

/// A component that denotes a decimal literal within the precision limits.
pub open spec fn valid_decimal(s: Seq<char>) -> bool {
    let body = signed_body(s);
    let ints = int_digits_of(body);
    let fracs = frac_digits_of(body);
    &&& ints.len() + fracs.len() > 0
    &&& all_digits(ints)
    &&& all_digits(fracs)
    &&& digits_val(ints) <= MAX_INT_PART
    &&& fracs.len() <= MAX_SCALE
}

/// What parsing a decimal literal yields.
pub open spec fn decimal_of(s: Seq<char>) -> Option<Decimal> {
    if valid_decimal(s) {
        Some(
            (Decimal {
                neg: is_negative(s),
                int_part: digits_val(int_digits_of(signed_body(s))) as u64,
                frac: digits_val(frac_digits_of(signed_body(s))) as u64,
                scale: frac_digits_of(signed_body(s)).len() as u32,
            }),
        )
    } else {
        None
    }
}

/// Parses one signed decimal literal, `-1.25` style.
pub fn parse_decimal(s: &str) -> (r: Option<Decimal>)
    ensures
        r == decimal_of(s@),
        r matches Some(d) ==> d.wf(),
{
    let n: usize = s.unicode_len();
    let mut start: usize = 0;
    let mut neg: bool = false;
    if n > 0 {
        let c0: char = s.get_char(0);
        if c0 == '-' || c0 == '+' {
            start = 1;
        }
        neg = c0 == '-';
    }
    let body: &str = s.substring_char(start, n);
    proof {
        if start == 1 {
            assert(body@ =~= signed_body(s@));
        } else {
            assert(body@ =~= s@);
        }
        assert(neg == is_negative(s@));
    }
    let bn: usize = body.unicode_len();
    let dot: Option<usize> = find_char(body, '.');
    let ints: &str;
    let fracs: &str;
    match dot {
        None => {
            ints = body;
            fracs = body.substring_char(bn, bn);
        },
        Some(i) => {
            ints = body.substring_char(0, i);
            fracs = body.substring_char(i + 1, bn);
        },
    }
    proof {
        assert(ints@ =~= int_digits_of(body@));
        assert(fracs@ =~= frac_digits_of(body@));
    }
    let il: usize = ints.unicode_len();
    let fl: usize = fracs.unicode_len();
    if il == 0 && fl == 0 {
        return None;
    }
    if fl > 6 {
        return None;
    }
    let int_part: u64;
    if il == 0 {
        int_part = 0;
    } else {
        match parse_digits(ints) {
            None => {
                proof {
                    if all_digits(ints@) {
                        assert(digits_val(ints@) > u64::MAX);
                    }
                }
                return None;
            },
            Some(v) => {
                if v > MAX_INT_PART {
                    return None;
                }
                int_part = v;
            },
        }
    }
    let frac: u64;
    if fl == 0 {
        frac = 0;
    } else {
        match parse_digits(fracs) {
            None => {
                proof {
                    if all_digits(fracs@) {
                        lemma_digits_val_bounds(fracs@);
                        lemma_pow10_upto6();
                        assert(digits_val(fracs@) < pow10(fracs@.len()));
                        assert(digits_val(fracs@) <= u64::MAX);
                    }
                }
                return None;
            },
            Some(v) => {
                frac = v;
            },
        }
    }
    proof {
        lemma_pow10_upto6();
        if fl > 0 {
            lemma_digits_val_bounds(fracs@);
        }
        assert(valid_decimal(s@));
    }
    Some(Decimal { neg, int_part, frac, scale: fl as u32 })
}

/// What parsing a complex-point argument yields: the decimal pair around
/// the first comma, real part first.
pub open spec fn complex_of(s: Seq<char>) -> Option<(Decimal, Decimal)> {
    match first_sep(s, ',') {
        None => None,
        Some(i) => {
            match (decimal_of(trimmed(s.take(i))), decimal_of(trimmed(s.skip(i + 1)))) {
                (Some(re), Some(im)) => Some((re, im)),
                _ => None,
            }
        },
    }
}

/// Parses a complex-point argument, `-1.0,0.25` style: real part, comma,
/// imaginary part.
pub fn parse_complex(value: &str) -> (r: Option<(Decimal, Decimal)>)
    ensures
        r == complex_of(value@),
        r matches Some(p) ==> p.0.wf() && p.1.wf(),
{
    let n: usize = value.unicode_len();
    match find_char(value, ',') {
        None => None,
        Some(idx) => {
            let left: &str = value.substring_char(0, idx);
            let right: &str = value.substring_char(idx + 1, n);
            proof {
                assert(left@ =~= value@.take(idx as int));
                assert(right@ =~= value@.skip(idx as int + 1));
            }
            let lt: &str = trim_spaces(left);
            let rt: &str = trim_spaces(right);
            match (parse_decimal(lt), parse_decimal(rt)) {
                (Some(re), Some(im)) => Some((re, im)),
                _ => None,
            }
        },
    }
}

} // verus!
