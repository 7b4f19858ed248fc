//! Character classes, whitespace, decimal and hexadecimal numerals: the
//! lexical pieces that both notations share.
use vstd::prelude::*;

verus! {

/// `char::is_ascii_digit`.
pub open spec fn is_digit(c: char) -> bool {
    '0' <= c && c <= '9'
}

/// `char::is_ascii_hexdigit`.
pub open spec fn is_hex_digit(c: char) -> bool {
    is_digit(c) || ('a' <= c && c <= 'f') || ('A' <= c && c <= 'F')
}

/// `char::is_ascii_alphabetic`.
pub open spec fn is_alpha(c: char) -> bool {
    ('a' <= c && c <= 'z') || ('A' <= c && c <= 'Z')
}

/// A binary digit.
pub open spec fn is_bin_digit(c: char) -> bool {
    c == '0' || c == '1'
}

/// The whitespace that a multispace run is made of: space, tab, CR, LF.
pub open spec fn is_multispace(c: char) -> bool {
    c == ' ' || c == '\t' || c == '\r' || c == '\n'
}

/// `char::is_whitespace`: the characters with the Unicode `White_Space` property.
pub open spec fn is_ws(c: char) -> bool {
    let u = c as u32;
    (0x09 <= u && u <= 0x0d) || u == 0x20 || u == 0x85 || u == 0xa0 || u == 0x1680 || (0x2000
        <= u && u <= 0x200a) || u == 0x2028 || u == 0x2029 || u == 0x202f || u == 0x205f || u
        == 0x3000
}

pub fn char_is_ws(c: char) -> (b: bool)
    ensures
        b == is_ws(c),
{
    let u = c as u32;
    (0x09 <= u && u <= 0x0d) || u == 0x20 || u == 0x85 || u == 0xa0 || u == 0x1680 || (0x2000
        <= u && u <= 0x200a) || u == 0x2028 || u == 0x2029 || u == 0x202f || u == 0x205f || u
        == 0x3000
}

/// What `char::is_alphanumeric` answers (the Unicode `Alphabetic` or
/// `Numeric` property).
pub uninterp spec fn unicode_alphanumeric(c: char) -> bool;

/// Calls `char::is_alphanumeric`. Its documentation says that it answers
/// whether the character is alphabetic or numeric in Unicode; among ASCII
/// characters those are exactly the letters and the digits, which the second
/// clause states. Beyond ASCII the answer is left to the name.
#[verifier::external_body]
pub(crate) fn char_is_alphanumeric(c: char) -> (b: bool)
    ensures
        b == unicode_alphanumeric(c),
        (c as u32) < 128 ==> (b <==> (is_alpha(c) || is_digit(c))),
{
    c.is_alphanumeric()
}

/// The value of a decimal digit.
pub open spec fn digit_val(c: char) -> nat {
    ((c as u32) - ('0' as u32)) as nat
}

/// The value of a hexadecimal digit.
pub open spec fn hex_val(c: char) -> nat {
    if is_digit(c) {
        digit_val(c)
    } else if 'a' <= c && c <= 'f' {
        ((c as u32) - ('a' as u32) + 10) as nat
    } else {
        ((c as u32) - ('A' as u32) + 10) as nat
    }
}

/// The decimal digit for `d < 10`.
pub open spec fn digit_char(d: nat) -> char {
    (d + ('0' as u32)) as char
}

/// The upper-case hexadecimal digit for `d < 16`.
pub open spec fn hex_char(d: nat) -> char {
    if d < 10 {
        digit_char(d)
    } else {
        ((d - 10) + ('A' as u32)) as char
    }
}

/// The decimal numeral of a natural number, without leading zeros.
pub open spec fn nat_text(n: nat) -> Seq<char>
    decreases n,
{
    if n < 10 {
        seq![digit_char(n)]
    } else {
        nat_text(n / 10).push(digit_char(n % 10))
    }
}

/// The decimal numeral of an integer: a minus sign before negative ones.
pub open spec fn int_text(n: int) -> Seq<char> {
    if n < 0 {
        seq!['-'] + nat_text((-n) as nat)
    } else {
        nat_text(n as nat)
    }
}

/// The value of a run of decimal digits.
pub open spec fn digits_val(s: Seq<char>) -> nat
    decreases s.len(),
{
    if s.len() == 0 {
        0
    } else {
        digits_val(s.drop_last()) * 10 + digit_val(s.last())
    }
}

/// Every character of `s` is a decimal digit.
pub open spec fn all_digits(s: Seq<char>) -> bool {
    forall|i: int| 0 <= i < s.len() ==> is_digit(#[trigger] s[i])
}

/// The first position at or after `i` that does not hold whitespace.
pub open spec fn skip_ws(s: Seq<char>, i: int) -> int
    decreases s.len() - i,
{
    if i < 0 {
        skip_ws(s, 0)
    } else if i >= s.len() {
        s.len() as int
    } else if is_ws(s[i]) {
        skip_ws(s, i + 1)
    } else {
        i
    }
}

/// The first position at or after `i` that does not hold a space, tab, CR or LF.
pub open spec fn skip_ms(s: Seq<char>, i: int) -> int
    decreases s.len() - i,
{
    if i < 0 {
        skip_ms(s, 0)
    } else if i >= s.len() {
        s.len() as int
    } else if is_multispace(s[i]) {
        skip_ms(s, i + 1)
    } else {
        i
    }
}

/// The position after the last character of `s[..j]` that is not whitespace
/// (0 when there is none).
pub open spec fn trim_end(s: Seq<char>, j: int) -> int
    decreases j,
{
    if j <= 0 {
        0
    } else if j > s.len() {
        trim_end(s, s.len() as int)
    } else if is_ws(s[j - 1]) {
        trim_end(s, j - 1)
    } else {
        j
    }
}

/// `str::trim`: `s` without leading and trailing whitespace.
pub open spec fn trim(s: Seq<char>) -> Seq<char> {
    let a = skip_ws(s, 0);
    let b = trim_end(s, s.len() as int);
    if a >= b {
        Seq::empty()
    } else {
        s.subrange(a, b)
    }
}

pub proof fn lemma_skip_ws(s: Seq<char>, i: int)
    requires
        0 <= i <= s.len(),
    ensures
        i <= skip_ws(s, i) <= s.len(),
        skip_ws(s, i) < s.len() ==> !is_ws(s[skip_ws(s, i)]),
        forall|k: int| i <= k < skip_ws(s, i) ==> is_ws(#[trigger] s[k]),
    decreases s.len() - i,
{
    if i < s.len() && is_ws(s[i]) {
        lemma_skip_ws(s, i + 1);
    }
}

pub proof fn lemma_skip_ms(s: Seq<char>, i: int)
    requires
        0 <= i <= s.len(),
    ensures
        i <= skip_ms(s, i) <= s.len(),
        skip_ms(s, i) < s.len() ==> !is_multispace(s[skip_ms(s, i)]),
        forall|k: int| i <= k < skip_ms(s, i) ==> is_multispace(#[trigger] s[k]),
    decreases s.len() - i,
{
    if i < s.len() && is_multispace(s[i]) {
        lemma_skip_ms(s, i + 1);
    }
}

pub proof fn lemma_trim_end(s: Seq<char>, j: int)
    requires
        0 <= j <= s.len(),
    ensures
        0 <= trim_end(s, j) <= j,
        trim_end(s, j) > 0 ==> !is_ws(s[trim_end(s, j) - 1]),
        forall|k: int| trim_end(s, j) <= k < j ==> is_ws(#[trigger] s[k]),
    decreases j,
{
    if j > 0 && is_ws(s[j - 1]) {
        lemma_trim_end(s, j - 1);
    }
}

/// Position of the first non-whitespace character of `s[i..]`.
pub fn skip_ws_exec(s: &[char], i: usize) -> (r: usize)
    requires
        i <= s@.len(),
    ensures
        r == skip_ws(s@, i as int),
{
    let mut k = i;
    while k < s.len() && char_is_ws(s[k])
        invariant
            i <= k <= s@.len(),
            skip_ws(s@, i as int) == skip_ws(s@, k as int),
        decreases s@.len() - k,
    {
        k = k + 1;
    }
    k
}

/// Position of the first character of `s[i..]` that is not a space, tab, CR or LF.
pub fn skip_ms_exec(s: &[char], i: usize) -> (r: usize)
    requires
        i <= s@.len(),
    ensures
        r == skip_ms(s@, i as int),
{
    let mut k = i;
    while k < s.len() && (s[k] == ' ' || s[k] == '\t' || s[k] == '\r' || s[k] == '\n')
        invariant
            i <= k <= s@.len(),
            skip_ms(s@, i as int) == skip_ms(s@, k as int),
        decreases s@.len() - k,
    {
        k = k + 1;
    }
    k
}

/// The end of `s[..j]` without its trailing whitespace.
pub fn trim_end_exec(s: &[char], j: usize) -> (r: usize)
    requires
        j <= s@.len(),
    ensures
        r == trim_end(s@, j as int),
{
    let mut k = j;
    while k > 0 && char_is_ws(s[k - 1])
        invariant
            k <= j <= s@.len(),
            trim_end(s@, j as int) == trim_end(s@, k as int),
        decreases k,
    {
        k = k - 1;
    }
    k
}

/// The characters of a string slice.
pub fn chars_of(s: &str) -> (v: Vec<char>)
    ensures
        v@ == s@,
{
    broadcast use vstd::string::group_string_axioms;

    let mut v: Vec<char> = Vec::new();
    for c in it: s.chars()
        invariant
            v@ == it.seq().take(it.index() as int),
            it.seq() == s@,
    {
        v.push(c);
    }
    v
}

/// Calls `String::push`, which appends one character.
#[verifier::external_body]
pub(crate) fn push_char(s: &mut String, c: char)
    ensures
        final(s)@ == old(s)@.push(c),
{
    s.push(c);
}

/// A `String` holding these characters.
pub fn string_of(v: &[char]) -> (s: String)
    ensures
        s@ == v@,
{
    let mut s = String::new();
    let mut i: usize = 0;
    while i < v.len()
        invariant
            i <= v@.len(),
            s@ == v@.take(i as int),
        decreases v@.len() - i,
    {
        push_char(&mut s, v[i]);
        assert(v@.take(i + 1) == v@.take(i as int).push(v@[i as int]));
        i = i + 1;
    }
    assert(v@.take(v@.len() as int) == v@);
    s
}

/// Appends the characters of `w` to `v`.
pub fn push_all(v: &mut Vec<char>, w: &[char])
    ensures
        final(v)@ == old(v)@ + w@,
{
    let mut i: usize = 0;
    while i < w.len()
        invariant
            i <= w@.len(),
            v@ == old(v)@ + w@.take(i as int),
        decreases w@.len() - i,
    {
        v.push(w[i]);
        assert(w@.take(i + 1) == w@.take(i as int).push(w@[i as int]));
        i = i + 1;
    }
    assert(w@.take(w@.len() as int) == w@);
}

/// Appends the characters of a string slice to `v`.
pub fn push_str(v: &mut Vec<char>, w: &str)
    ensures
        final(v)@ == old(v)@ + w@,
{
    let cs = chars_of(w);
    push_all(v, cs.as_slice());
}

/// Appends the decimal numeral of `n` to `v`.
pub fn push_nat(v: &mut Vec<char>, n: u128)
    ensures
        final(v)@ == old(v)@ + nat_text(n as nat),
    decreases n,
{
    if n >= 10 {
        push_nat(v, n / 10);
    }
    let d = (n % 10) as u32;
    let c = char_from_digit(d);
    v.push(c);
    proof {
        if n >= 10 {
            assert(nat_text(n as nat) == nat_text((n / 10) as nat).push(digit_char((n % 10) as nat)));
        } else {
            assert(nat_text(n as nat) == seq![digit_char(n as nat)]);
        }
    }
}

/// The digit character for `d < 10`.
pub fn char_from_digit(d: u32) -> (c: char)
    requires
        d < 10,
    ensures
        c == digit_char(d as nat),
{
    if d == 0 {
        '0'
    } else if d == 1 {
        '1'
    } else if d == 2 {
        '2'
    } else if d == 3 {
        '3'
    } else if d == 4 {
        '4'
    } else if d == 5 {
        '5'
    } else if d == 6 {
        '6'
    } else if d == 7 {
        '7'
    } else if d == 8 {
        '8'
    } else {
        '9'
    }
}

/// Appends the decimal numeral of `n` to `v`, with a minus sign when negative.
pub fn push_int(v: &mut Vec<char>, n: i128)
    ensures
        final(v)@ == old(v)@ + int_text(n as int),
{
    if n < 0 {
        v.push('-');
        let mag: u128 = ((-(n + 1)) as u128) + 1;
        push_nat(v, mag);
        assert(old(v)@.push('-') + nat_text(mag as nat) == old(v)@ + (seq!['-'] + nat_text(
            mag as nat,
        )));
    } else {
        push_nat(v, n as u128);
    }
}

/// The value of the digit run `s[lo..hi]` when it is at most `bound`.
pub fn digits_value_upto(s: &[char], lo: usize, hi: usize, bound: u128) -> (r: Option<u128>)
    requires
        lo <= hi <= s@.len(),
        all_digits(s@.subrange(lo as int, hi as int)),
        bound >= 9,
    ensures
        r is Some <==> digits_val(s@.subrange(lo as int, hi as int)) <= bound,
        r matches Some(n) ==> n == digits_val(s@.subrange(lo as int, hi as int)),
{
    let mut acc: u128 = 0;
    let mut i = lo;
    while i < hi
        invariant
            lo <= i <= hi <= s@.len(),
            all_digits(s@.subrange(lo as int, hi as int)),
            acc == digits_val(s@.subrange(lo as int, i as int)),
            acc <= bound,
            bound >= 9,
        decreases hi - i,
    {
        let ghost pre = s@.subrange(lo as int, i as int);
        assert(s@.subrange(lo as int, i + 1).drop_last() == pre);
        assert(s@.subrange(lo as int, hi as int)[i - lo] == s@[i as int]);
        let d = (s[i] as u32) - ('0' as u32);
        proof {
            lemma_digits_val_monotone(s@.subrange(lo as int, hi as int), (i + 1 - lo) as int);
            assert(s@.subrange(lo as int, hi as int).subrange(0, (i + 1 - lo) as int) == s@.subrange(
                lo as int,
                i + 1,
            ));
        }
        if acc > (bound - d as u128) / 10 {
            proof {
                assert(acc * 10 + d > bound) by (nonlinear_arith)
                    requires
                        acc > (bound - d as u128) / 10,
                        d <= bound,
                        d < 10,
                ;
            }
            return None;
        }
        proof {
            assert(acc * 10 + d <= bound) by (nonlinear_arith)
                requires
                    acc <= (bound - d as u128) / 10,
                    d < 10,
            ;
        }
        acc = acc * 10 + d as u128;
        i = i + 1;
    }
    Some(acc)
}

/// A prefix of digits has a value no larger than the whole run.
pub proof fn lemma_digits_val_monotone(s: Seq<char>, k: int)
    requires
        0 <= k <= s.len(),
        all_digits(s),
    ensures
        digits_val(s.subrange(0, k)) <= digits_val(s),
    decreases s.len() - k,
{
    if k < s.len() {
        lemma_digits_val_monotone(s, k + 1);
        let t = s.subrange(0, k + 1);
        assert(t.drop_last() == s.subrange(0, k));
        assert(is_digit(s[k]));
    } else {
        assert(s.subrange(0, k) == s);
    }
}

} // verus!
