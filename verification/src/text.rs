//! UTF-8 text held as bytes: character boundaries, trimming, and decimal
//! indices.

use vstd::prelude::*;
use vstd::string::StrSliceExecFns;
use vstd::string::StringSliceAdditionalSpecFns;
use vstd::utf8::*;

verus! {

broadcast use vstd::utf8::group_utf8_lib;

/// Whether `i` falls on a character boundary of the valid UTF-8 text `b`.
pub fn char_boundary(b: &[u8], i: usize) -> (r: bool)
    requires
        valid_utf8(b@),
    ensures
        r == is_char_boundary(b@, i as int),
{
    if i == 0 {
        return true;
    }
    if i > b.len() {
        return false;
    }
    if i == b.len() {
        return true;
    }
    let byte = b[i];
    proof {
        assert(is_char_boundary(b@, i as int) <==> !is_continuation_byte(b@[i as int]));
    }
    !(0x80 <= byte && byte <= 0xbf)
}

/// Whether Rust's `char::is_whitespace` holds: the Unicode `White_Space`
/// property.
pub open spec fn is_whitespace(c: char) -> bool {
    ||| '\u{9}' <= c <= '\u{d}'
    ||| c == ' '
    ||| c == '\u{85}'
    ||| c == '\u{a0}'
    ||| c == '\u{1680}'
    ||| '\u{2000}' <= c <= '\u{200a}'
    ||| c == '\u{2028}'
    ||| c == '\u{2029}'
    ||| c == '\u{202f}'
    ||| c == '\u{205f}'
    ||| c == '\u{3000}'
}

/// Text without its leading whitespace.
pub open spec fn trim_start(s: Seq<char>) -> Seq<char>
    decreases s.len(),
{
    if s.len() > 0 && is_whitespace(s[0]) {
        trim_start(s.drop_first())
    } else {
        s
    }
}

/// Text without its trailing whitespace.
pub open spec fn trim_end(s: Seq<char>) -> Seq<char>
    decreases s.len(),
{
    if s.len() > 0 && is_whitespace(s.last()) {
        trim_end(s.drop_last())
    } else {
        s
    }
}

/// Text without leading and trailing whitespace.
pub open spec fn spec_trim(s: Seq<char>) -> Seq<char> {
    trim_end(trim_start(s))
}

/// The trimmed text of some bytes, or nothing when they are not UTF-8.
pub open spec fn trimmed_text(b: Seq<u8>) -> Seq<u8> {
    if valid_utf8(b) {
        encode_utf8(spec_trim(decode_utf8(b)))
    } else {
        Seq::empty()
    }
}

/// Interprets bytes as text through `std::str::from_utf8`, which succeeds
/// exactly on valid UTF-8 and then borrows those same bytes as a `str`.
#[verifier::external_body]
fn str_from_utf8(b: &[u8]) -> (r: Option<&str>)
    ensures
        r is Some <==> valid_utf8(b@),
        r matches Some(s) ==> s@ == decode_utf8(b@) && s.spec_bytes() == b@,
{
    std::str::from_utf8(b).ok()
}

/// Whether a character is whitespace.
fn whitespace(c: char) -> (r: bool)
    ensures
        r == is_whitespace(c),
{
    ('\u{9}' <= c && c <= '\u{d}') || c == ' ' || c == '\u{85}' || c == '\u{a0}' || c == '\u{1680}'
        || ('\u{2000}' <= c && c <= '\u{200a}') || c == '\u{2028}' || c == '\u{2029}' || c == '\u{202f}'
        || c == '\u{205f}' || c == '\u{3000}'
}

/// Returns the text without its leading and trailing whitespace.
fn trim_text(s: &str) -> (r: &str)
    ensures
        r@ == spec_trim(s@),
{
    let n = s.unicode_len();
    let mut start: usize = 0;
    assert(s@.subrange(0, n as int) =~= s@);
    while start < n && whitespace(s.get_char(start))
        invariant
            n == s@.len(),
            start <= n,
            trim_start(s@) == trim_start(s@.subrange(start as int, n as int)),
        decreases n - start,
    {
        assert(s@.subrange(start as int, n as int).drop_first() =~= s@.subrange(start + 1, n as int));
        start += 1;
    }
    assert(trim_start(s@) == s@.subrange(start as int, n as int));
    let mut end: usize = n;
    while end > start && whitespace(s.get_char(end - 1))
        invariant
            n == s@.len(),
            start <= end <= n,
            trim_start(s@) == s@.subrange(start as int, n as int),
            trim_end(s@.subrange(start as int, n as int)) == trim_end(s@.subrange(start as int, end as int)),
        decreases end - start,
    {
        assert(s@.subrange(start as int, end as int).drop_last() =~= s@.subrange(start as int, end - 1));
        end -= 1;
    }
    assert(trim_end(s@.subrange(start as int, end as int)) == s@.subrange(start as int, end as int));
    s.substring_char(start, end)
}

/// Returns `b` as text when it is UTF-8.
pub fn utf8_text(b: &[u8]) -> (r: Option<&str>)
    ensures
        r is Some <==> valid_utf8(b@),
        r matches Some(s) ==> s@ == decode_utf8(b@) && s.spec_bytes() == b@,
{
    str_from_utf8(b)
}

/// Returns the bytes of `b` read as UTF-8 and trimmed of surrounding
/// whitespace; empty when `b` is not UTF-8.
pub fn trimmed(b: &[u8]) -> (r: Vec<u8>)
    ensures
        r@ == trimmed_text(b@),
{
    match str_from_utf8(b) {
        Some(s) => {
            let t = trim_text(s);
            vstd::slice::slice_to_vec(t.as_bytes())
        },
        None => Vec::new(),
    }
}

/// Whether every byte is an ASCII decimal digit.
pub open spec fn all_digits(t: Seq<u8>) -> bool {
    forall|i: int| 0 <= i < t.len() ==> 48 <= #[trigger] t[i] <= 57
}

/// The number that decimal digits denote.
pub open spec fn digits_value(t: Seq<u8>) -> nat
    decreases t.len(),
{
    if t.len() == 0 {
        0
    } else {
        digits_value(t.drop_last()) * 10 + (t.last() - 48) as nat
    }
}

/// Text that `usize::to_string` produces: digits without a redundant
/// leading zero.
pub open spec fn canonical_decimal(t: Seq<u8>) -> bool {
    &&& t.len() > 0
    &&& all_digits(t)
    &&& (t.len() > 1 ==> t[0] != 48)
}

/// What `str::parse::<usize>` yields: an optional `+` followed by at least
/// one digit, denoting a value that fits.
pub open spec fn spec_parse_usize(t: Seq<u8>) -> Option<usize> {
    let digits = if t.len() > 0 && t[0] == 43 { t.drop_first() } else { t };
    if digits.len() > 0 && all_digits(digits) && digits_value(digits) <= usize::MAX {
        Some(digits_value(digits) as usize)
    } else {
        None
    }
}

/// Parses a decimal index as `str::parse::<usize>` does.
pub fn parse_usize(t: &[u8]) -> (r: Option<usize>)
    ensures
        r == spec_parse_usize(t@),
{
    let start: usize = if t.len() > 0 && t[0] == 43 { 1 } else { 0 };
    let ghost digits = if t@.len() > 0 && t@[0] == 43 { t@.drop_first() } else { t@ };
    assert(digits == t@.subrange(start as int, t@.len() as int));
    if start >= t.len() {
        return None;
    }
    let mut value: usize = 0;
    let mut i: usize = start;
    while i < t.len()
        invariant
            start <= i <= t@.len(),
            digits == (if t@.len() > 0 && t@[0] == 43 { t@.drop_first() } else { t@ }),
            digits == t@.subrange(start as int, t@.len() as int),
            all_digits(t@.subrange(start as int, i as int)),
            value as nat == digits_value(t@.subrange(start as int, i as int)),
        decreases t@.len() - i,
    {
        let byte = t[i];
        if byte < 48 || byte > 57 {
            assert(digits[i - start] == byte);
            assert(!all_digits(digits));
            return None;
        }
        let ghost prefix = t@.subrange(start as int, i + 1);
        assert(prefix.drop_last() == t@.subrange(start as int, i as int));
        assert(all_digits(prefix));
        let scaled = value.checked_mul(10);
        match scaled {
            None => {
                proof {
                    if all_digits(digits) {
                        lemma_digits_value_monotone(digits, (i + 1 - start) as nat);
                    }
                }
                assert(digits.subrange(0, (i + 1 - start) as int) == prefix);
                return None;
            },
            Some(s) => {
                let next = s.checked_add((byte - 48) as usize);
                match next {
                    None => {
                                proof {
                            if all_digits(digits) {
                                lemma_digits_value_monotone(digits, (i + 1 - start) as nat);
                            }
                        }
                        assert(digits.subrange(0, (i + 1 - start) as int) == prefix);
                        return None;
                    },
                    Some(n) => {
                        value = n;
                    },
                }
            },
        }
        i += 1;
    }
    assert(t@.subrange(start as int, t@.len() as int) == digits);
    Some(value)
}

/// The value of a digit string is at least the value of any of its prefixes.
pub proof fn lemma_digits_value_monotone(t: Seq<u8>, n: nat)
    requires
        n <= t.len(),
        all_digits(t),
    ensures
        digits_value(t.subrange(0, n as int)) <= digits_value(t),
    decreases t.len() - n,
{
    if n < t.len() {
        lemma_digits_value_monotone(t, n + 1);
        let p = t.subrange(0, (n + 1) as int);
        assert(p.drop_last() == t.subrange(0, n as int));
        assert(all_digits(p));
    } else {
        assert(t.subrange(0, n as int) == t);
    }
}

/// Whether `t` is in the form `usize::to_string` produces.
pub fn is_canonical_decimal(t: &[u8]) -> (r: bool)
    ensures
        r == canonical_decimal(t@),
{
    if t.len() == 0 {
        return false;
    }
    if t.len() > 1 && t[0] == 48 {
        return false;
    }
    let mut i: usize = 0;
    while i < t.len()
        invariant
            i <= t@.len(),
            forall|k: int| 0 <= k < i ==> 48 <= #[trigger] t@[k] <= 57,
        decreases t@.len() - i,
    {
        if t[i] < 48 || t[i] > 57 {
            return false;
        }
        i += 1;
    }
    true
}


/// Appends `s` to `out`.
pub fn append_bytes(out: &mut Vec<u8>, s: &[u8])
    ensures
        final(out)@ == old(out)@ + s@,
{
    let mut i: usize = 0;
    while i < s.len()
        invariant
            i <= s@.len(),
            out@ == old(out)@ + s@.take(i as int),
        decreases s@.len() - i,
    {
        assert(s@.take(i + 1) == s@.take(i as int).push(s@[i as int]));
        out.push(s[i]);
        i += 1;
    }
    assert(s@.take(s@.len() as int) == s@);
}

/// The text with the bytes `start..end` replaced by `replacement`.
pub open spec fn splice(source: Seq<u8>, start: int, end: int, replacement: Seq<u8>) -> Seq<u8> {
    source.subrange(0, start) + replacement + source.subrange(end, source.len() as int)
}

/// Returns `source` with the bytes `start..end` replaced by `replacement`.
pub fn splice_bytes(source: &[u8], start: usize, end: usize, replacement: &[u8]) -> (r: Vec<u8>)
    requires
        start <= end <= source@.len(),
    ensures
        r@ == splice(source@, start as int, end as int, replacement@),
{
    let mut out: Vec<u8> = Vec::new();
    append_bytes(&mut out, vstd::slice::slice_subrange(source, 0, start));
    append_bytes(&mut out, replacement);
    append_bytes(&mut out, vstd::slice::slice_subrange(source, end, source.len()));
    out
}


/// Text that is empty once surrounding whitespace is trimmed.
pub open spec fn blank(b: Seq<u8>) -> bool {
    trimmed_text(b).len() == 0
}

/// Returns whether `b`, read as UTF-8 and trimmed, is empty.
pub fn is_blank(b: &[u8]) -> (r: bool)
    ensures
        r == blank(b@),
{
    trimmed(b).len() == 0
}

/// `k` is the position of the first line feed in `b`.
pub open spec fn first_newline_at(b: Seq<u8>, k: int) -> bool {
    0 <= k < b.len() && b[k] == 10 && forall|j: int| 0 <= j < k ==> b[j] != 10
}

/// The position of the first line feed, if any.
pub open spec fn first_newline(b: Seq<u8>) -> Option<int> {
    if exists|k: int| first_newline_at(b, k) {
        Some(choose|k: int| first_newline_at(b, k))
    } else {
        None
    }
}

/// Returns the position of the first line feed, as `split_once('\n')` finds it.
pub fn find_newline(b: &[u8]) -> (r: Option<usize>)
    ensures
        match r {
            Some(k) => first_newline(b@) == Some(k as int) && first_newline_at(b@, k as int),
            None => first_newline(b@) is None,
        },
{
    let mut i: usize = 0;
    while i < b.len()
        invariant
            i <= b@.len(),
            forall|j: int| 0 <= j < i ==> b@[j] != 10,
        decreases b@.len() - i,
    {
        if b[i] == 10 {
            assert(first_newline_at(b@, i as int));
            proof {
                let c = choose|k: int| first_newline_at(b@, k);
                if c < i {
                } else if c > i {
                    assert(b@[i as int] != 10);
                }
            }
            return Some(i);
        }
        i += 1;
    }
    None
}

} // verus!
