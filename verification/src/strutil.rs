//! Verified string helpers: equality, prefix tests, trimming, decimal
//! rendering and parsing, and hex rendering.  Everything here is exact:
//! each executable function is proved against a spec function that gives
//! the result character by character.

use vstd::prelude::*;

verus! {

// ---------------------------------------------------------------------------
// character classes
// ---------------------------------------------------------------------------

/// ASCII whitespace, the class used for trimming and word scanning.
pub open spec fn is_space_c(c: char) -> bool {
    c == ' ' || c == '\t' || c == '\n' || c == '\r' || c == '\u{b}' || c == '\u{c}'
}

pub fn is_space(c: char) -> (r: bool)
    ensures
        r == is_space_c(c),
{
    c == ' ' || c == '\t' || c == '\n' || c == '\r' || c == '\u{b}' || c == '\u{c}'
}

pub open spec fn is_digit_c(c: char) -> bool {
    48 <= c as u32 <= 57
}

pub open spec fn digit_val(c: char) -> int {
    c as u32 - 48
}

pub open spec fn all_digits(s: Seq<char>) -> bool {
    forall|i: int| 0 <= i < s.len() ==> is_digit_c(#[trigger] s[i])
}

// ---------------------------------------------------------------------------
// equality and prefixes
// ---------------------------------------------------------------------------

/// Character-by-character equality of two string slices.
pub fn str_eq(a: &str, b: &str) -> (r: bool)
    ensures
        r == (a@ == b@),
{
    let alen = a.unicode_len();
    let blen = b.unicode_len();
    if alen != blen {
        return false;
    }
    let mut i: usize = 0;
    while i < alen
        invariant
            alen == a@.len(),
            alen == b@.len(),
            i <= alen,
            forall|j: int| 0 <= j < i ==> a@[j] == b@[j],
        decreases alen - i,
    {
        if a.get_char(i) != b.get_char(i) {
            return false;
        }
        i += 1;
    }
    proof {
        assert(a@ =~= b@);
    }
    true
}

/// Does `s` start with `p`?
pub fn has_prefix(s: &str, p: &str) -> (r: bool)
    ensures
        r == (s@.len() >= p@.len() && s@.subrange(0, p@.len() as int) == p@),
{
    let slen = s.unicode_len();
    let plen = p.unicode_len();
    if plen > slen {
        return false;
    }
    let mut i: usize = 0;
    while i < plen
        invariant
            plen == p@.len(),
            slen == s@.len(),
            plen <= slen,
            i <= plen,
            forall|j: int| 0 <= j < i ==> s@[j] == p@[j],
        decreases plen - i,
    {
        if s.get_char(i) != p.get_char(i) {
            proof {
                assert(s@.subrange(0, p@.len() as int)[i as int] != p@[i as int]);
            }
            return false;
        }
        i += 1;
    }
    proof {
        assert(s@.subrange(0, p@.len() as int) =~= p@);
    }
    true
}

// ---------------------------------------------------------------------------
// trimming
// ---------------------------------------------------------------------------

/// Index of the first position at or after `i` whose character fails `pred`
/// (or the length of the string).
pub open spec fn skip_idx(s: Seq<char>, i: int, pred: spec_fn(char) -> bool) -> int
    decreases s.len() - i when 0 <= i <= s.len()
{
    if i < 0 || i >= s.len() {
        i
    } else if pred(s[i]) {
        skip_idx(s, i + 1, pred)
    } else {
        i
    }
}

/// Index after the last position before `i` whose character fails `pred`
/// (0 if none).
pub open spec fn end_idx(s: Seq<char>, i: int, pred: spec_fn(char) -> bool) -> int
    decreases i when 0 <= i <= s.len()
{
    if i <= 0 {
        0
    } else if pred(s[i - 1]) {
        end_idx(s, i - 1, pred)
    } else {
        i
    }
}

/// `s` with characters satisfying `pred` removed from both ends.
pub open spec fn trim_pred(s: Seq<char>, pred: spec_fn(char) -> bool) -> Seq<char> {
    let a = skip_idx(s, 0, pred);
    let b = end_idx(s, s.len() as int, pred);
    if a < b {
        s.subrange(a, b)
    } else {
        Seq::empty()
    }
}

pub open spec fn trim_spec(s: Seq<char>) -> Seq<char> {
    trim_pred(s, |c: char| is_space_c(c))
}

pub proof fn lemma_end_idx(s: Seq<char>, i: int, pred: spec_fn(char) -> bool)
    requires
        0 <= i <= s.len(),
    ensures
        0 <= end_idx(s, i, pred) <= i,
        forall|j: int| end_idx(s, i, pred) <= j < i ==> pred(#[trigger] s[j]),
        end_idx(s, i, pred) > 0 ==> !pred(s[end_idx(s, i, pred) - 1]),
    decreases i,
{
    if i > 0 && pred(s[i - 1]) {
        lemma_end_idx(s, i - 1, pred);
    }
}

/// Trim ASCII whitespace from both ends.
pub fn trim_str<'a>(s: &'a str) -> (r: &'a str)
    ensures
        r@ == trim_spec(s@),
{
    let ghost pred = |c: char| is_space_c(c);
    let len = s.unicode_len();
    let mut a: usize = 0;
    while a < len && is_space(s.get_char(a))
        invariant
            a <= len,
            len == s@.len(),
            pred == (|c: char| is_space_c(c)),
            skip_idx(s@, 0, pred) == skip_idx(s@, a as int, pred),
        decreases len - a,
    {
        a += 1;
    }
    proof {
        assert(skip_idx(s@, 0, pred) == a as int);
    }
    let mut b: usize = len;
    while b > a && is_space(s.get_char(b - 1))
        invariant
            a <= b <= len,
            len == s@.len(),
            pred == (|c: char| is_space_c(c)),
            skip_idx(s@, 0, pred) == a as int,
            end_idx(s@, len as int, pred) == end_idx(s@, b as int, pred),
        decreases b,
    {
        b -= 1;
    }
    if a < b {
        let r = s.substring_char(a, b);
        proof {
            assert(end_idx(s@, len as int, pred) == b as int);
            assert(r@ == trim_spec(s@));
        }
        r
    } else {
        proof {
            // here a == b, and end_idx(s, len) == end_idx(s, b) <= b == a,
            // so the trimmed range is empty
            lemma_end_idx(s@, b as int, pred);
            reveal_strlit("");
            assert(""@ =~= Seq::<char>::empty());
            assert(trim_spec(s@) =~= Seq::<char>::empty());
        }
        ""
    }
}

/// Trim backtick characters from both ends.
pub fn trim_backticks<'a>(s: &'a str) -> (r: &'a str)
    ensures
        r@ == trim_pred(s@, |c: char| c == '`'),
{
    let ghost pred = |c: char| c == '`';
    let len = s.unicode_len();
    let mut a: usize = 0;
    while a < len && s.get_char(a) == '`'
        invariant
            a <= len,
            len == s@.len(),
            pred == (|c: char| c == '`'),
            skip_idx(s@, 0, pred) == skip_idx(s@, a as int, pred),
        decreases len - a,
    {
        a += 1;
    }
    proof {
        assert(skip_idx(s@, 0, pred) == a as int);
    }
    let mut b: usize = len;
    while b > a && s.get_char(b - 1) == '`'
        invariant
            a <= b <= len,
            len == s@.len(),
            pred == (|c: char| c == '`'),
            skip_idx(s@, 0, pred) == a as int,
            end_idx(s@, len as int, pred) == end_idx(s@, b as int, pred),
        decreases b,
    {
        b -= 1;
    }
    if a < b {
        let r = s.substring_char(a, b);
        proof {
            assert(end_idx(s@, len as int, pred) == b as int);
            assert(r@ == trim_pred(s@, pred));
        }
        r
    } else {
        proof {
            lemma_end_idx(s@, b as int, pred);
            reveal_strlit("");
            assert(""@ =~= Seq::<char>::empty());
            assert(trim_pred(s@, pred) =~= Seq::<char>::empty());
        }
        ""
    }
}

/// Strip every leading `@` character, as a mention prefix.
pub fn strip_leading_ats<'a>(s: &'a str) -> (r: &'a str)
    ensures
        r@ == s@.subrange(skip_idx(s@, 0, |c: char| c == '@'), s@.len() as int),
{
    let ghost pred = |c: char| c == '@';
    let len = s.unicode_len();
    let mut a: usize = 0;
    while a < len && s.get_char(a) == '@'
        invariant
            a <= len,
            len == s@.len(),
            pred == (|c: char| c == '@'),
            skip_idx(s@, 0, pred) == skip_idx(s@, a as int, pred),
        decreases len - a,
    {
        a += 1;
    }
    proof {
        assert(skip_idx(s@, 0, pred) == a as int);
    }
    s.substring_char(a, len)
}

// ---------------------------------------------------------------------------
// decimal rendering
// ---------------------------------------------------------------------------

pub open spec fn dec_digit(d: int) -> char {
    if d == 0 { '0' }
    else if d == 1 { '1' }
    else if d == 2 { '2' }
    else if d == 3 { '3' }
    else if d == 4 { '4' }
    else if d == 5 { '5' }
    else if d == 6 { '6' }
    else if d == 7 { '7' }
    else if d == 8 { '8' }
    else { '9' }
}

/// Decimal rendering of a non-negative integer, most significant digit first.
pub open spec fn u64_dec(n: int) -> Seq<char>
    decreases n when n >= 0
{
    if n < 10 {
        seq![dec_digit(n)]
    } else {
        u64_dec(n / 10).push(dec_digit(n % 10))
    }
}

/// Decimal rendering of a signed integer.
pub open spec fn i64_dec(n: int) -> Seq<char> {
    if n >= 0 {
        u64_dec(n)
    } else {
        seq!['-'] + u64_dec(-n)
    }
}

fn digit_str(d: u64) -> (r: &'static str)
    requires
        d < 10,
    ensures
        r@ == seq![dec_digit(d as int)],
{
    proof {
        reveal_strlit("0");
        reveal_strlit("1");
        reveal_strlit("2");
        reveal_strlit("3");
        reveal_strlit("4");
        reveal_strlit("5");
        reveal_strlit("6");
        reveal_strlit("7");
        reveal_strlit("8");
        reveal_strlit("9");
    }
    let r = match d {
        0 => "0",
        1 => "1",
        2 => "2",
        3 => "3",
        4 => "4",
        5 => "5",
        6 => "6",
        7 => "7",
        8 => "8",
        _ => "9",
    };
    proof {
        assert(r@ =~= seq![dec_digit(d as int)]);
    }
    r
}

pub fn u64_to_string(n: u64) -> (s: String)
    ensures
        s@ == u64_dec(n as int),
    decreases n,
{
    if n < 10 {
        digit_str(n).to_owned()
    } else {
        let mut s = u64_to_string(n / 10);
        s.append(digit_str(n % 10));
        proof {
            assert(s@ =~= u64_dec(n as int));
        }
        s
    }
}

pub fn i64_to_string(n: i64) -> (s: String)
    ensures
        s@ == i64_dec(n as int),
{
    if n >= 0 {
        u64_to_string(n as u64)
    } else {
        let m: u64 = if n == i64::MIN {
            9223372036854775808u64
        } else {
            (-n) as u64
        };
        let mut s = "-".to_owned();
        s.append(u64_to_string(m).as_str());
        proof {
            reveal_strlit("-");
            assert(s@ =~= i64_dec(n as int));
        }
        s
    }
}

// ---------------------------------------------------------------------------
// decimal parsing
// ---------------------------------------------------------------------------

/// Value of a digit string, most significant digit first.
pub open spec fn digits_val(s: Seq<char>) -> int
    decreases s.len()
{
    if s.len() == 0 {
        0
    } else {
        digits_val(s.drop_last()) * 10 + digit_val(s.last())
    }
}

pub proof fn lemma_digits_val_nonneg(s: Seq<char>)
    requires
        all_digits(s),
    ensures
        digits_val(s) >= 0,
    decreases s.len(),
{
    if s.len() > 0 {
        assert(all_digits(s.drop_last()));
        lemma_digits_val_nonneg(s.drop_last());
    }
}

pub proof fn lemma_digits_val_mono(s: Seq<char>, k: int)
    requires
        all_digits(s),
        0 <= k <= s.len(),
    ensures
        digits_val(s) >= digits_val(s.take(k)),
    decreases s.len(),
{
    if k == s.len() {
        assert(s.take(k) =~= s);
    } else {
        assert(all_digits(s.drop_last()));
        lemma_digits_val_mono(s.drop_last(), k);
        assert(s.take(k) =~= s.drop_last().take(k));
        lemma_digits_val_nonneg(s.drop_last());
    }
}

/// What `i64` parsing accepts: an optional sign, then one or more ASCII
/// digits, with the value in range.
pub open spec fn parse_i64_spec(s: Seq<char>) -> Option<int> {
    if s.len() == 0 {
        None
    } else {
        let signed = s[0] == '+' || s[0] == '-';
        let body = if signed { s.subrange(1, s.len() as int) } else { s };
        let neg = s[0] == '-';
        if body.len() == 0 || !all_digits(body) {
            None
        } else {
            let v = if neg { -digits_val(body) } else { digits_val(body) };
            if i64::MIN <= v <= i64::MAX {
                Some(v)
            } else {
                None
            }
        }
    }
}

pub fn parse_i64(s: &str) -> (r: Option<i64>)
    ensures
        r is Some <==> parse_i64_spec(s@) is Some,
        r is Some ==> Some(r->0 as int) == parse_i64_spec(s@),
{
    let len = s.unicode_len();
    if len == 0 {
        return None;
    }
    let c0 = s.get_char(0);
    let neg = c0 == '-';
    let start: usize = if c0 == '-' || c0 == '+' { 1 } else { 0 };
    if start == len {
        return None;
    }
    let ghost body = s@.subrange(start as int, len as int);
    let mut acc: u64 = 0;
    let mut i = start;
    while i < len
        invariant
            start <= i <= len,
            start <= 1,
            len == s@.len(),
            start == 1 ==> (s@[0] == '+' || s@[0] == '-'),
            start == 0 ==> !(s@[0] == '+' || s@[0] == '-'),
            neg == (s@[0] == '-'),
            start < len,
            body == s@.subrange(start as int, len as int),
            all_digits(body.take(i - start)),
            acc as int == digits_val(body.take(i - start)),
            acc <= 9223372036854775808u64,
        decreases len - i,
    {
        let c = s.get_char(i);
        let u = c as u32;
        if u < 48 || u > 57 {
            proof {
                if start == 0 {
                    assert(body =~= s@);
                } else {
                    assert(body =~= s@.subrange(1, s@.len() as int));
                }
                assert(body[i - start] == s@[i as int]);
                assert(!is_digit_c(body[i - start]));
                assert(!all_digits(body));
            }
            return None;
        }
        let d = (u - 48) as u64;
        proof {
            assert(body.take(i - start + 1) =~= body.take(i - start).push(body[i - start]));
            assert(body.take(i - start + 1).drop_last() =~= body.take(i - start));
            assert(digits_val(body.take(i - start + 1)) == acc as int * 10 + d as int);
        }
        if acc > 922337203685477580u64 || (acc == 922337203685477580u64 && d > 8) {
            proof {
                if start == 0 {
                    assert(body =~= s@);
                } else {
                    assert(body =~= s@.subrange(1, s@.len() as int));
                }
                let k = i - start + 1;
                assert(digits_val(body.take(k)) > 9223372036854775808int);
                if all_digits(body) {
                    lemma_digits_val_mono(body, k);
                    assert(digits_val(body) > 9223372036854775808int);
                }
                assert(parse_i64_spec(s@) is None);
            }
            return None;
        }
        acc = acc * 10 + d;
        i += 1;
    }
    proof {
        assert(body.take(len - start) =~= body);
        if start == 0 {
            assert(body =~= s@);
        } else {
            assert(body =~= s@.subrange(1, s@.len() as int));
        }
        lemma_digits_val_nonneg(body);
    }
    if neg {
        if acc == 9223372036854775808u64 {
            Some(i64::MIN)
        } else {
            Some(-(acc as i64))
        }
    } else {
        if acc > 9223372036854775807u64 {
            None
        } else {
            Some(acc as i64)
        }
    }
}

// ---------------------------------------------------------------------------
// hex rendering
// ---------------------------------------------------------------------------

pub open spec fn hex_digit(d: int) -> char {
    if d < 10 {
        dec_digit(d)
    } else if d == 10 { 'a' }
    else if d == 11 { 'b' }
    else if d == 12 { 'c' }
    else if d == 13 { 'd' }
    else if d == 14 { 'e' }
    else { 'f' }
}

/// Lower-case hex rendering of a byte string, two digits per byte.
pub open spec fn hex_of(bytes: Seq<u8>) -> Seq<char>
    decreases bytes.len()
{
    if bytes.len() == 0 {
        Seq::empty()
    } else {
        hex_of(bytes.drop_last()) + seq![
            hex_digit(bytes.last() as int / 16),
            hex_digit(bytes.last() as int % 16),
        ]
    }
}

fn hex_digit_str(d: u8) -> (r: &'static str)
    requires
        d < 16,
    ensures
        r@ == seq![hex_digit(d as int)],
{
    if d < 10 {
        digit_str(d as u64)
    } else {
        proof {
            reveal_strlit("a");
            reveal_strlit("b");
            reveal_strlit("c");
            reveal_strlit("d");
            reveal_strlit("e");
            reveal_strlit("f");
        }
        let r = match d {
            10 => "a",
            11 => "b",
            12 => "c",
            13 => "d",
            14 => "e",
            _ => "f",
        };
        proof {
            assert(r@ =~= seq![hex_digit(d as int)]);
        }
        r
    }
}

pub fn bytes_to_hex(bytes: &Vec<u8>) -> (s: String)
    ensures
        s@ == hex_of(bytes@),
{
    let mut s = String::new();
    let mut i: usize = 0;
    while i < bytes.len()
        invariant
            i <= bytes@.len(),
            s@ == hex_of(bytes@.take(i as int)),
        decreases bytes@.len() - i,
    {
        let b = bytes[i];
        s.append(hex_digit_str(b / 16));
        s.append(hex_digit_str(b % 16));
        proof {
            assert(bytes@.take(i + 1).drop_last() =~= bytes@.take(i as int));
            assert(bytes@.take(i + 1).last() == bytes@[i as int]);
            assert(s@ =~= hex_of(bytes@.take(i + 1)));
        }
        i += 1;
    }
    proof {
        assert(bytes@.take(bytes@.len() as int) =~= bytes@);
    }
    s
}

// ---------------------------------------------------------------------------
// ASCII case-insensitive comparison
// ---------------------------------------------------------------------------

/// Code point with an ASCII upper-case letter folded to lower case (the
/// folding the storage layer's `lower()` applies: ASCII only).
pub open spec fn lower_u32(c: char) -> u32 {
    if 65 <= c as u32 <= 90 {
        (c as u32 + 32) as u32
    } else {
        c as u32
    }
}

/// Equality of two character strings up to ASCII case.
pub open spec fn ieq(a: Seq<char>, b: Seq<char>) -> bool {
    a.len() == b.len() && forall|i: int| 0 <= i < a.len() ==> lower_u32(#[trigger] a[i]) == lower_u32(b[i])
}

fn lower32(c: char) -> (r: u32)
    ensures
        r == lower_u32(c),
{
    let u = c as u32;
    if 65 <= u && u <= 90 {
        u + 32
    } else {
        u
    }
}

/// ASCII-case-insensitive string equality.
pub fn str_ieq(a: &str, b: &str) -> (r: bool)
    ensures
        r == ieq(a@, b@),
{
    let alen = a.unicode_len();
    let blen = b.unicode_len();
    if alen != blen {
        return false;
    }
    let mut i: usize = 0;
    while i < alen
        invariant
            alen == a@.len(),
            alen == b@.len(),
            i <= alen,
            forall|j: int| 0 <= j < i ==> lower_u32(#[trigger] a@[j]) == lower_u32(b@[j]),
        decreases alen - i,
    {
        if lower32(a.get_char(i)) != lower32(b.get_char(i)) {
            return false;
        }
        i += 1;
    }
    true
}

/// ASCII letters and digits.
pub open spec fn is_alnum_c(c: char) -> bool {
    (48 <= c as u32 <= 57) || (65 <= c as u32 <= 90) || (97 <= c as u32 <= 122)
}

pub open spec fn is_hex_digit_c(c: char) -> bool {
    (48 <= c as u32 <= 57) || (97 <= c as u32 <= 102)
}

pub proof fn lemma_hex_of_props(bytes: Seq<u8>)
    ensures
        hex_of(bytes).len() == 2 * bytes.len(),
        forall|i: int| 0 <= i < hex_of(bytes).len() ==> is_hex_digit_c(#[trigger] hex_of(bytes)[i]),
    decreases bytes.len(),
{
    if bytes.len() > 0 {
        lemma_hex_of_props(bytes.drop_last());
    }
}

} // verus!
