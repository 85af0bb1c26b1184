//! Text utilities: ASCII case folding, decimal rendering and parsing of
//! 64-bit integers, and conversions between strings, characters and bytes.

use vstd::prelude::*;

verus! {

// ---------------------------------------------------------------------------
// ASCII case folding
// ---------------------------------------------------------------------------

/// The character with an ASCII upper-case letter folded to lower case.
pub open spec fn lower_char(c: char) -> char {
    if 'A' <= c && c <= 'Z' {
        ((c as u8 + 32) as u8) as char
    } else {
        c
    }
}

/// The character with an ASCII lower-case letter folded to upper case.
pub open spec fn upper_char(c: char) -> char {
    if 'a' <= c && c <= 'z' {
        ((c as u8 - 32) as u8) as char
    } else {
        c
    }
}

/// The sequence with every ASCII upper-case letter folded to lower case.
pub open spec fn lower(s: Seq<char>) -> Seq<char> {
    s.map_values(|c: char| lower_char(c))
}

/// The sequence with every ASCII lower-case letter folded to upper case.
pub open spec fn upper(s: Seq<char>) -> Seq<char> {
    s.map_values(|c: char| upper_char(c))
}

pub fn lower_char_exec(c: char) -> (r: char)
    ensures
        r == lower_char(c),
{
    if 'A' <= c && c <= 'Z' {
        ((c as u8) + 32) as char
    } else {
        c
    }
}

pub fn upper_char_exec(c: char) -> (r: char)
    ensures
        r == upper_char(c),
{
    if 'a' <= c && c <= 'z' {
        ((c as u8) - 32) as char
    } else {
        c
    }
}

/// Equality of two strings under ASCII case folding.
pub fn eq_ignore_case(a: &str, b: &str) -> (r: bool)
    ensures
        r == (lower(a@) == lower(b@)),
{
    let an = a.unicode_len();
    let bn = b.unicode_len();
    if an != bn {
        proof {
            assert(lower(a@).len() != lower(b@).len());
        }
        return false;
    }
    let mut i: usize = 0;
    while i < an
        invariant
            i <= an,
            an == a@.len(),
            an == b@.len(),
            forall|j: int| 0 <= j < i ==> lower_char(a@[j]) == lower_char(b@[j]),
        decreases an - i,
    {
        let ca = lower_char_exec(a.get_char(i));
        let cb = lower_char_exec(b.get_char(i));
        if ca != cb {
            proof {
                assert(lower(a@)[i as int] != lower(b@)[i as int]);
            }
            return false;
        }
        i += 1;
    }
    proof {
        assert(lower(a@) =~= lower(b@));
    }
    true
}

/// Exact equality of two strings, character by character.
pub fn str_eq(a: &str, b: &str) -> (r: bool)
    ensures
        r == (a@ == b@),
{
    let an = a.unicode_len();
    let bn = b.unicode_len();
    if an != bn {
        proof {
            assert(a@.len() != b@.len());
        }
        return false;
    }
    let mut i: usize = 0;
    while i < an
        invariant
            i <= an,
            an == a@.len(),
            an == b@.len(),
            forall|j: int| 0 <= j < i ==> a@[j] == b@[j],
        decreases an - i,
    {
        if a.get_char(i) != b.get_char(i) {
            return false;
        }
        i += 1;
    }
    proof {
        assert(a@ =~= b@);
    }
    true
}

/// Whether the collected characters equal the given string.
pub fn chars_eq_str(v: &Vec<char>, s: &str) -> (r: bool)
    ensures
        r == (v@ == s@),
{
    let n = s.unicode_len();
    if v.len() != n {
        proof {
            assert(v@.len() != s@.len());
        }
        return false;
    }
    let mut i: usize = 0;
    while i < n
        invariant
            i <= n,
            n == s@.len(),
            n == v@.len(),
            forall|j: int| 0 <= j < i ==> v@[j] == s@[j],
        decreases n - i,
    {
        if v[i] != s.get_char(i) {
            return false;
        }
        i += 1;
    }
    proof {
        assert(v@ =~= s@);
    }
    true
}

/// The characters of a string, one by one.
pub fn str_to_chars(s: &str) -> (r: Vec<char>)
    ensures
        r@ == s@,
{
    let n = s.unicode_len();
    let mut out: Vec<char> = Vec::new();
    let mut i: usize = 0;
    while i < n
        invariant
            i <= n,
            n == s@.len(),
            out@ =~= s@.take(i as int),
        decreases n - i,
    {
        out.push(s.get_char(i));
        proof {
            assert(out@ =~= s@.take(i + 1 as int));
        }
        i += 1;
    }
    proof {
        assert(out@ =~= s@);
    }
    out
}

/// A copy of the string with every ASCII upper-case letter lowered.
pub fn to_lowercase(s: &str) -> (r: Vec<char>)
    ensures
        r@ == lower(s@),
{
    let n = s.unicode_len();
    let mut out: Vec<char> = Vec::new();
    let mut i: usize = 0;
    while i < n
        invariant
            i <= n,
            n == s@.len(),
            out@ =~= lower(s@).take(i as int),
        decreases n - i,
    {
        out.push(lower_char_exec(s.get_char(i)));
        proof {
            assert(out@ =~= lower(s@).take(i + 1 as int));
        }
        i += 1;
    }
    proof {
        assert(out@ =~= lower(s@));
    }
    out
}

/// A copy of the string with every ASCII lower-case letter raised.
pub fn to_uppercase(s: &str) -> (r: Vec<char>)
    ensures
        r@ == upper(s@),
{
    let n = s.unicode_len();
    let mut out: Vec<char> = Vec::new();
    let mut i: usize = 0;
    while i < n
        invariant
            i <= n,
            n == s@.len(),
            out@ =~= upper(s@).take(i as int),
        decreases n - i,
    {
        out.push(upper_char_exec(s.get_char(i)));
        proof {
            assert(out@ =~= upper(s@).take(i + 1 as int));
        }
        i += 1;
    }
    proof {
        assert(out@ =~= upper(s@));
    }
    out
}

// ---------------------------------------------------------------------------
// Decimal rendering and parsing
// ---------------------------------------------------------------------------

/// The decimal digit character for a value below ten.
pub open spec fn dec_char(d: int) -> char
    recommends
        0 <= d < 10,
{
    ((48 + d) as u8) as char
}

pub open spec fn is_dec_digit(c: char) -> bool {
    '0' <= c && c <= '9'
}

pub open spec fn dec_digit(c: char) -> int
    recommends
        is_dec_digit(c),
{
    c as int - 48
}

pub open spec fn all_dec_digits(s: Seq<char>) -> bool {
    forall|i: int| 0 <= i < s.len() ==> is_dec_digit(#[trigger] s[i])
}

/// The non-negative value of a sequence of decimal digit characters.
pub open spec fn digits_val(s: Seq<char>) -> int
    decreases s.len(),
{
    if s.len() == 0 {
        0
    } else {
        digits_val(s.drop_last()) * 10 + dec_digit(s.last())
    }
}

pub proof fn lemma_digits_val_nonneg(s: Seq<char>)
    requires
        all_dec_digits(s),
    ensures
        digits_val(s) >= 0,
    decreases s.len(),
{
    if s.len() > 0 {
        assert(all_dec_digits(s.drop_last()));
        lemma_digits_val_nonneg(s.drop_last());
        assert(dec_digit(s.last()) >= 0);
    }
}

/// Appending digits never shrinks the value.
pub proof fn lemma_digits_val_mono(s: Seq<char>, k: int)
    requires
        all_dec_digits(s),
        0 <= k <= s.len(),
    ensures
        digits_val(s) >= digits_val(s.take(k)),
    decreases s.len() - k,
{
    if k < s.len() {
        let t = s.take(k + 1);
        assert(t.drop_last() =~= s.take(k));
        assert(all_dec_digits(t));
        lemma_digits_val_nonneg(s.take(k));
        assert(digits_val(t) == digits_val(s.take(k)) * 10 + dec_digit(s[k]));
        assert(digits_val(t) >= digits_val(s.take(k)));
        lemma_digits_val_mono(s, k + 1);
        assert(s.take(k + 1) == t);
    } else {
        assert(s.take(k) =~= s);
    }
}

/// The decimal form of a 64-bit signed integer, as `i64::from_str` reads it:
/// an optional sign, then one or more decimal digits, with the whole value
/// within the `i64` range.
pub open spec fn spec_parse_i64(s: Seq<char>) -> Option<i64> {
    let neg = s.len() > 0 && s[0] == '-';
    let ds = if s.len() > 0 && (s[0] == '-' || s[0] == '+') {
        s.drop_first()
    } else {
        s
    };
    if ds.len() == 0 || !all_dec_digits(ds) {
        None
    } else {
        let v = digits_val(ds);
        if neg {
            if v <= 0x8000000000000000 {
                Some((-v) as i64)
            } else {
                None
            }
        } else {
            if v <= 0x7fffffffffffffff {
                Some(v as i64)
            } else {
                None
            }
        }
    }
}

/// The canonical decimal rendering of an unsigned 64-bit value.
pub open spec fn u64_dec(v: int) -> Seq<char>
    recommends
        v >= 0,
    decreases v,
{
    if v < 10 {
        seq![dec_char(v)]
    } else {
        u64_dec(v / 10).push(dec_char(v % 10))
    }
}

/// The canonical decimal rendering of a signed 64-bit value, as
/// `i64::to_string` writes it.
pub open spec fn i64_dec(v: i64) -> Seq<char> {
    if v < 0 {
        seq!['-'] + u64_dec(-(v as int))
    } else {
        u64_dec(v as int)
    }
}

/// Renders an unsigned value in decimal.
pub fn u64_to_dec_chars(v: u64) -> (r: Vec<char>)
    ensures
        r@ == u64_dec(v as int),
{
    let mut w: u64 = v;
    let mut rev: Vec<char> = Vec::new();
    rev.push((48 + (w % 10) as u8) as char);
    proof {
        assert(rev@[0] == dec_char(w as int % 10));
    }
    w = w / 10;
    while w > 0
        invariant
            rev@.len() >= 1,
            u64_dec(v as int) =~= if w > 0 {
                u64_dec(w as int) + rev@.reverse()
            } else {
                rev@.reverse()
            },
        decreases w,
    {
        let ghost prev = rev@;
        rev.push((48 + (w % 10) as u8) as char);
        proof {
            assert(rev@.reverse() =~= seq![dec_char(w as int % 10)] + prev.reverse());
        }
        w = w / 10;
    }
    let mut out: Vec<char> = Vec::new();
    let n = rev.len();
    let mut i: usize = 0;
    while i < n
        invariant
            i <= n,
            n == rev@.len(),
            out@ =~= rev@.reverse().take(i as int),
        decreases n - i,
    {
        out.push(rev[n - 1 - i]);
        proof {
            assert(rev@.reverse()[i as int] == rev@[n - 1 - i]);
            assert(out@ =~= rev@.reverse().take(i + 1 as int));
        }
        i += 1;
    }
    proof {
        assert(out@ =~= rev@.reverse());
    }
    out
}

/// Renders a signed value in decimal.
pub fn i64_to_dec_chars(v: i64) -> (r: Vec<char>)
    ensures
        r@ == i64_dec(v),
{
    if v >= 0 {
        u64_to_dec_chars(v as u64)
    } else {
        let mag: u64 = if v == i64::MIN {
            9223372036854775808u64
        } else {
            (-v) as u64
        };
        let digits = u64_to_dec_chars(mag);
        let mut out: Vec<char> = Vec::new();
        out.push('-');
        let n = digits.len();
        let mut i: usize = 0;
        while i < n
            invariant
                i <= n,
                n == digits@.len(),
                out@ =~= seq!['-'] + digits@.take(i as int),
            decreases n - i,
        {
            out.push(digits[i]);
            proof {
                assert(out@ =~= seq!['-'] + digits@.take(i + 1 as int));
            }
            i += 1;
        }
        proof {
            assert(out@ =~= seq!['-'] + digits@);
        }
        out
    }
}

/// Reads a signed 64-bit integer from its decimal form, exactly as
/// `i64::from_str` would.
pub fn parse_i64(s: &str) -> (r: Option<i64>)
    ensures
        r == spec_parse_i64(s@),
{
    let n = s.unicode_len();
    if n == 0 {
        return None;
    }
    let first = s.get_char(0);
    let neg = first == '-';
    let has_sign = first == '-' || first == '+';
    let start: usize = if has_sign {
        1
    } else {
        0
    };
    let ghost ds = if has_sign {
        s@.drop_first()
    } else {
        s@
    };
    proof {
        assert(ds =~= s@.subrange(start as int, n as int));
    }
    if start >= n {
        return None;
    }
    let mut i: usize = start;
    let mut acc: u64 = 0;
    while i < n
        invariant
            start <= i <= n,
            n == s@.len(),
            start < n,
            neg == (s@[0] == '-'),
            has_sign == (s@[0] == '-' || s@[0] == '+'),
            start == if has_sign { 1int } else { 0int },
            ds == s@.subrange(start as int, n as int),
            ds == if s@[0] == '-' || s@[0] == '+' {
                s@.drop_first()
            } else {
                s@
            },
            all_dec_digits(s@.subrange(start as int, i as int)),
            acc == digits_val(s@.subrange(start as int, i as int)),
            acc <= 0x8000000000000000,
        decreases n - i,
    {
        let c = s.get_char(i);
        if c < '0' || c > '9' {
            proof {
                assert(!is_dec_digit(c));
                assert(ds[i - start] == c);
                assert(!all_dec_digits(ds));
                assert(spec_parse_i64(s@) is None);
            }
            return None;
        }
        let d: u8 = (c as u8) - 48;
        let ghost pre = s@.subrange(start as int, i as int);
        let ghost cur = s@.subrange(start as int, i + 1 as int);
        proof {
            assert(cur.drop_last() =~= pre);
            assert(cur.last() == c);
            assert(digits_val(cur) == acc * 10 + d);
            assert(all_dec_digits(cur));
        }
        if acc > 922337203685477580u64 || (acc == 922337203685477580u64 && d > 8) {
            proof {
                assert(digits_val(cur) > 0x8000000000000000);
                if all_dec_digits(ds) {
                    assert(cur =~= ds.take(i + 1 - start));
                    lemma_digits_val_mono(ds, i + 1 - start);
                    assert(digits_val(ds) > 0x8000000000000000);
                }
            }
            return None;
        }
        acc = acc * 10 + (d as u64);
        i += 1;
    }
    proof {
        assert(ds =~= s@.subrange(start as int, n as int));
        assert(all_dec_digits(ds));
        assert(acc == digits_val(ds));
    }
    if neg {
        if acc == 9223372036854775808u64 {
            Some(i64::MIN)
        } else {
            Some(-(acc as i64))
        }
    } else {
        if acc > 9223372036854775807u64 {
            None
        } else {
            Some(acc as i64)
        }
    }
}

// ---------------------------------------------------------------------------
// Conversions through the standard library
// ---------------------------------------------------------------------------

/// Relies on `String::from_iter` over `char`: the collected string holds
/// exactly the given characters.
#[verifier::external_body]
pub fn chars_to_string(cs: &Vec<char>) -> (r: String)
    ensures
        r@ == cs@,
{
    cs.iter().collect()
}

/// Relies on `String::from_utf8`: it succeeds exactly on valid UTF-8 input,
/// and the returned string is the one whose UTF-8 encoding is that input.
#[verifier::external_body]
pub fn bytes_to_string(bytes: Vec<u8>) -> (r: Option<String>)
    ensures
        r is Some <==> vstd::utf8::valid_utf8(bytes@),
        r is Some ==> vstd::utf8::encode_utf8(r->Some_0@) == bytes@,
    {
    String::from_utf8(bytes).ok()
}

/// The UTF-8 bytes of a string.
pub fn string_to_bytes(s: &str) -> (r: Vec<u8>)
    ensures
        r@ == vstd::utf8::encode_utf8(s@),
{
    s.as_bytes_vec()
}

} // verus!
