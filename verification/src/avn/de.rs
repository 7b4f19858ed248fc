//! Decoding ASN.1 value notation (X.680 clause 17).
//!
//! The text is first parsed into an owned tree of [`AvnValue`]s; a
//! [`Decoder`] then reads typed values off a stack of such trees.
use vstd::prelude::*;

use crate::avn::enc::{parse_signed, parse_signed_exec, slice_range};
use crate::avn::enc::pow2_nat;
use crate::model::{
    all_permitted, all_permitted_exec, alternative_view, alternatives_view, eq_ignore_ascii_case,
    eq_ignore_ascii_case_exec, field_type_view, field_types_view, field_view, fields_view,
    lemma_alternatives_view, lemma_field_types_view, lemma_fields_view, lemma_values_view,
    lemma_set_components_view, set_component_view, set_components_view, order_key_exec,
    oid_valid, oid_valid_exec, values_view, Alternative, AsnType, Codec, DecodeError,
    DecodeErrorKind, ErrorModel, Expected, Field, FieldType, Found, RealModel, RealValue,
    StringKind, TypeModel, Value, ValueModel,
};
use crate::text::{
    all_digits, char_is_alphanumeric, char_is_ws, chars_of, digits_val, digits_value_upto,
    hex_val, is_alpha, is_bin_digit, is_digit, is_hex_digit, is_multispace, is_ws, skip_ms,
    skip_ms_exec, skip_ws, skip_ws_exec, string_of, trim, trim_end, trim_end_exec,
    unicode_alphanumeric, lemma_skip_ws, lemma_skip_ms, lemma_trim_end, push_all,
};

verus! {

/// Intermediate owned representation of a parsed value.
#[derive(Debug)]
pub enum AvnValue {
    /// `TRUE` or `FALSE`
    Bool(bool),
    /// A decimal numeral, kept as text
    Integer(String),
    /// `{ mantissa, base, exponent }`, `PLUS-INFINITY` or `MINUS-INFINITY`
    Real(RealValue),
    /// `NULL`
    Null,
    /// A quoted string, its doubled quotation marks undone
    String(String),
    /// An hstring `'...'H`
    Bytes(Vec<u8>),
    /// A bstring `'...'B`
    BitString(Vec<bool>),
    /// `{ arc arc ... }`
    Oid(Vec<u32>),
    /// A bare identifier
    Identifier(String),
    /// `{ name value, ... }`
    Constructed(Vec<(String, AvnValue)>),
    /// `{ value, ... }`
    Array(Vec<AvnValue>),
    /// `identifier: value`
    Choice(String, Box<AvnValue>),
    /// An absent SEQUENCE component
    Absent,
    /// Braces that the general rules read as neither a list nor named
    /// components (an OBJECT IDENTIFIER, a REAL tuple, or nothing), kept as
    /// their text: the type they are decoded as decides how they are read
    Braces(Vec<char>),
}

/// Mathematical view of an [`AvnValue`].
pub enum Tree {
    Bool(bool),
    Integer(Seq<char>),
    Real(RealModel),
    Null,
    String(Seq<char>),
    Bytes(Seq<u8>),
    BitString(Seq<bool>),
    Oid(Seq<u32>),
    Identifier(Seq<char>),
    Constructed(Seq<(Seq<char>, Tree)>),
    Array(Seq<Tree>),
    Choice(Seq<char>, Box<Tree>),
    Absent,
    Braces(Seq<char>),
}

impl View for AvnValue {
    type V = Tree;

    open spec fn view(&self) -> Tree
        decreases self,
    {
        match self {
            AvnValue::Bool(b) => Tree::Bool(*b),
            AvnValue::Integer(s) => Tree::Integer(s@),
            AvnValue::Real(r) => Tree::Real(r@),
            AvnValue::Null => Tree::Null,
            AvnValue::String(s) => Tree::String(s@),
            AvnValue::Bytes(b) => Tree::Bytes(b@),
            AvnValue::BitString(b) => Tree::BitString(b@),
            AvnValue::Oid(a) => Tree::Oid(a@),
            AvnValue::Identifier(s) => Tree::Identifier(s@),
            AvnValue::Constructed(fs) => Tree::Constructed(pairs_view(fs@)),
            AvnValue::Array(vs) => Tree::Array(trees_view(vs@)),
            AvnValue::Choice(id, v) => Tree::Choice(id@, Box::new((**v).view())),
            AvnValue::Absent => Tree::Absent,
            AvnValue::Braces(t) => Tree::Braces(t@),
        }
    }
}

pub open spec fn trees_view(s: Seq<AvnValue>) -> Seq<Tree>
    decreases s,
{
    if s.len() == 0 {
        Seq::empty()
    } else {
        trees_view(s.drop_last()).push(s.last().view())
    }
}

pub open spec fn pairs_view(s: Seq<(String, AvnValue)>) -> Seq<(Seq<char>, Tree)>
    decreases s,
{
    if s.len() == 0 {
        Seq::empty()
    } else {
        pairs_view(s.drop_last()).push((s.last().0@, s.last().1.view()))
    }
}

pub proof fn lemma_trees_view(s: Seq<AvnValue>)
    ensures
        trees_view(s).len() == s.len(),
        forall|i: int| 0 <= i < s.len() ==> #[trigger] trees_view(s)[i] == s[i].view(),
    decreases s.len(),
{
    if s.len() > 0 {
        lemma_trees_view(s.drop_last());
        assert(trees_view(s) == trees_view(s.drop_last()).push(s.last().view()));
        assert forall|i: int| 0 <= i < s.len() implies #[trigger] trees_view(s)[i] == s[i].view() by {
            if i < s.len() - 1 {
                assert(s.drop_last()[i] == s[i]);
            }
        }
    }
}

pub proof fn lemma_pairs_view(s: Seq<(String, AvnValue)>)
    ensures
        pairs_view(s).len() == s.len(),
        forall|i: int|
            0 <= i < s.len() ==> #[trigger] pairs_view(s)[i] == (s[i].0@, s[i].1.view()),
    decreases s.len(),
{
    if s.len() > 0 {
        lemma_pairs_view(s.drop_last());
        assert(pairs_view(s) == pairs_view(s.drop_last()).push((s.last().0@, s.last().1.view())));
        assert forall|i: int| 0 <= i < s.len() implies #[trigger] pairs_view(s)[i] == (
            s[i].0@,
            s[i].1.view(),
        ) by {
            if i < s.len() - 1 {
                assert(s.drop_last()[i] == s[i]);
            }
        }
    }
}

// ----------------------------------------------------------------------------
// The grammar
// ----------------------------------------------------------------------------
/// `t` holds `lit` at position `i`.
pub open spec fn has_at(t: Seq<char>, i: int, lit: Seq<char>) -> bool {
    0 <= i && i + lit.len() <= t.len() && t.subrange(i, i + lit.len()) == lit
}

/// The end of the run of decimal digits of `t` from `i`.
pub open spec fn digit_end(t: Seq<char>, i: int) -> int
    decreases t.len() - i,
{
    if i < 0 || i >= t.len() {
        i
    } else if is_digit(t[i]) {
        digit_end(t, i + 1)
    } else {
        i
    }
}

pub proof fn lemma_digit_end(t: Seq<char>, i: int)
    requires
        0 <= i <= t.len(),
    ensures
        i <= digit_end(t, i) <= t.len(),
        forall|k: int| i <= k < digit_end(t, i) ==> #[trigger] is_digit(t[k]),
        digit_end(t, i) < t.len() ==> !is_digit(t[digit_end(t, i)]),
    decreases t.len() - i,
{
    if i < t.len() && is_digit(t[i]) {
        lemma_digit_end(t, i + 1);
    }
}

/// The end of the run of hexadecimal digits of `t` from `i`.
pub open spec fn hex_end(t: Seq<char>, i: int) -> int
    decreases t.len() - i,
{
    if i < 0 || i >= t.len() {
        i
    } else if is_hex_digit(t[i]) {
        hex_end(t, i + 1)
    } else {
        i
    }
}

pub proof fn lemma_hex_end(t: Seq<char>, i: int)
    requires
        0 <= i <= t.len(),
    ensures
        i <= hex_end(t, i) <= t.len(),
        forall|k: int| i <= k < hex_end(t, i) ==> #[trigger] is_hex_digit(t[k]),
        hex_end(t, i) < t.len() ==> !is_hex_digit(t[hex_end(t, i)]),
    decreases t.len() - i,
{
    if i < t.len() && is_hex_digit(t[i]) {
        lemma_hex_end(t, i + 1);
    }
}

/// The end of the run of binary digits of `t` from `i`.
pub open spec fn bin_end(t: Seq<char>, i: int) -> int
    decreases t.len() - i,
{
    if i < 0 || i >= t.len() {
        i
    } else if is_bin_digit(t[i]) {
        bin_end(t, i + 1)
    } else {
        i
    }
}

pub proof fn lemma_bin_end(t: Seq<char>, i: int)
    requires
        0 <= i <= t.len(),
    ensures
        i <= bin_end(t, i) <= t.len(),
        forall|k: int| i <= k < bin_end(t, i) ==> #[trigger] is_bin_digit(t[k]),
        bin_end(t, i) < t.len() ==> !is_bin_digit(t[bin_end(t, i)]),
    decreases t.len() - i,
{
    if i < t.len() && is_bin_digit(t[i]) {
        lemma_bin_end(t, i + 1);
    }
}

/// The end of the run of identifier characters of `t` from `i`.
pub open spec fn ident_tail_end(t: Seq<char>, i: int) -> int
    decreases t.len() - i,
{
    if i < 0 || i >= t.len() {
        i
    } else if ident_char(t[i]) {
        ident_tail_end(t, i + 1)
    } else {
        i
    }
}

pub proof fn lemma_ident_tail_end(t: Seq<char>, i: int)
    requires
        0 <= i <= t.len(),
    ensures
        i <= ident_tail_end(t, i) <= t.len(),
        forall|k: int| i <= k < ident_tail_end(t, i) ==> #[trigger] ident_char(t[k]),
        ident_tail_end(t, i) < t.len() ==> !ident_char(t[ident_tail_end(t, i)]),
    decreases t.len() - i,
{
    if i < t.len() && ident_char(t[i]) {
        lemma_ident_tail_end(t, i + 1);
    }
}

/// Characters that may follow the first one of an identifier: letters and
/// digits (in the Unicode sense), `-` and `_`.
pub open spec fn ident_char(c: char) -> bool {
    if (c as u32) < 128 {
        is_alpha(c) || is_digit(c) || c == '-' || c == '_'
    } else {
        unicode_alphanumeric(c)
    }
}

/// The end of the identifier at `i` (a letter or `_`, then letters, digits,
/// `-` and `_`); `i` itself when none starts there.
pub open spec fn ident_end(t: Seq<char>, i: int) -> int {
    if 0 <= i < t.len() && (is_alpha(t[i]) || t[i] == '_') {
        ident_tail_end(t, i + 1)
    } else {
        i
    }
}

pub open spec fn lit_true() -> Seq<char> {
    seq!['T', 'R', 'U', 'E']
}

pub open spec fn lit_false() -> Seq<char> {
    seq!['F', 'A', 'L', 'S', 'E']
}

pub open spec fn lit_null() -> Seq<char> {
    seq!['N', 'U', 'L', 'L']
}

pub open spec fn lit_plus_inf() -> Seq<char> {
    seq!['P', 'L', 'U', 'S', '-', 'I', 'N', 'F', 'I', 'N', 'I', 'T', 'Y']
}

pub open spec fn lit_minus_inf() -> Seq<char> {
    seq!['M', 'I', 'N', 'U', 'S', '-', 'I', 'N', 'F', 'I', 'N', 'I', 'T', 'Y']
}

/// Whether every character of `h` is a hexadecimal digit.
#[verifier::opaque]
pub open spec fn all_hex(h: Seq<char>) -> bool {
    forall|q: int| 0 <= q < h.len() ==> is_hex_digit(#[trigger] h[q])
}

/// A text made of hexadecimal digits passes [`all_hex`].
pub proof fn lemma_all_hex(h: Seq<char>)
    requires
        forall|q: int| 0 <= q < h.len() ==> is_hex_digit(#[trigger] h[q]),
    ensures
        all_hex(h),
{
    reveal(all_hex);
}

/// The bytes that a run of hexadecimal digits stands for, two digits a byte;
/// `None` for an odd number of digits.
pub open spec fn hex_bytes(h: Seq<char>) -> Option<Seq<u8>> {
    if h.len() % 2 != 0 {
        None
    } else {
        Some(Seq::new(h.len() / 2, |k: int| (hex_val(h[2 * k]) * 16 + hex_val(h[2 * k + 1])) as u8))
    }
}

/// The bits that a run of binary digits stands for.
pub open spec fn bin_bits(b: Seq<char>) -> Seq<bool> {
    Seq::new(b.len(), |k: int| b[k] == '1')
}

/// An hstring at the start of `t`: `'`, hexadecimal digits, `'H`.
pub open spec fn p_hex(t: Seq<char>) -> Option<Seq<u8>> {
    let k = hex_end(t, 1);
    if t.len() >= 1 && t[0] == '\'' && has_at(t, k, seq!['\'', 'H']) {
        hex_bytes(t.subrange(1, k))
    } else {
        None
    }
}

/// A bstring at the start of `t`: `'`, binary digits, `'B`.
pub open spec fn p_bin(t: Seq<char>) -> Option<Seq<bool>> {
    let k = bin_end(t, 1);
    if t.len() >= 1 && t[0] == '\'' && has_at(t, k, seq!['\'', 'B']) {
        Some(bin_bits(t.subrange(1, k)))
    } else {
        None
    }
}

/// The value of the digits `t[a..b]` when it fits a `u32`.
pub open spec fn arc_at(t: Seq<char>, a: int, b: int) -> Option<u32> {
    if a < b && digits_val(t.subrange(a, b)) <= u32::MAX as nat {
        Some(digits_val(t.subrange(a, b)) as u32)
    } else {
        None
    }
}

/// The arcs after the first one of an OBJECT IDENTIFIER, up to its `}`.
pub open spec fn p_oid_rest(t: Seq<char>, j: int) -> Option<Seq<u32>>
    decreases t.len() - j,
{
    if j < 0 || j > t.len() {
        None
    } else {
        let p = skip_ws(t, j);
        proof {
            lemma_skip_ws(t, j);
        }
        if p < t.len() && t[p] == '}' {
            Some(Seq::empty())
        } else if p < t.len() && t[p] == ',' {
            None
        } else {
            let q = digit_end(t, p);
            proof {
                lemma_digit_end(t, p);
            }
            match arc_at(t, p, q) {
                Some(a) => match p_oid_rest(t, q) {
                    Some(rest) => Some(seq![a] + rest),
                    None => None,
                },
                None => None,
            }
        }
    }
}

/// An OBJECT IDENTIFIER at the start of `t`: `{`, arcs apart by whitespace, `}`.
pub open spec fn p_oid(t: Seq<char>) -> Option<Seq<u32>> {
    let i0 = skip_ms(t, 0);
    let i1 = skip_ms(t, i0 + 1);
    let i2 = skip_ws(t, i1);
    let j = digit_end(t, i2);
    if i0 < t.len() && t[i0] == '{' && !(i2 < t.len() && t[i2] == '}') {
        match arc_at(t, i2, j) {
            Some(a) => match p_oid_rest(t, j) {
                Some(rest) => Some(seq![a] + rest),
                None => None,
            },
            None => None,
        }
    } else {
        None
    }
}

/// The end of an optional `-` and a run of digits at `i`; `i` when there are no digits.
pub open spec fn signed_end(t: Seq<char>, i: int) -> int {
    let a = if 0 <= i < t.len() && t[i] == '-' {
        i + 1
    } else {
        i
    };
    let b = digit_end(t, a);
    if b > a {
        b
    } else {
        i
    }
}

/// A REAL tuple at the start of `t`: `{ mantissa, base, exponent }`.
pub open spec fn p_real_tuple(t: Seq<char>) -> Option<RealModel> {
    let i0 = skip_ms(t, 0);
    let a = skip_ms(t, i0 + 1);
    let b = signed_end(t, a);
    let c = skip_ms(t, b);
    let d = skip_ms(t, c + 1);
    let e = digit_end(t, d);
    let f = skip_ms(t, e);
    let g = skip_ms(t, f + 1);
    let h = signed_end(t, g);
    let k = skip_ms(t, h);
    if i0 < t.len() && t[i0] == '{' && b > a && c < t.len() && t[c] == ',' && e > d && f < t.len()
        && t[f] == ',' && h > g && k < t.len() && t[k] == '}' {
        match (
            parse_signed(t.subrange(a, b), i64::MIN as int, i64::MAX as int),
            parse_signed(t.subrange(d, e), i32::MIN as int, i32::MAX as int),
            parse_signed(t.subrange(g, h), i32::MIN as int, i32::MAX as int),
        ) {
            (Some(m), Some(bs), Some(x)) => Some(
                RealModel::Tuple { mantissa: m, base: bs, exponent: x },
            ),
            _ => None,
        }
    } else {
        None
    }
}

/// A quoted string whose body starts at `i`: characters up to a lone `"`, a
/// doubled `""` standing for one `"`.
pub open spec fn p_string_body(t: Seq<char>, i: int) -> Option<Seq<char>>
    decreases t.len() - i,
{
    if i < 0 || i >= t.len() {
        None
    } else if t[i] == '"' {
        if i + 1 < t.len() && t[i + 1] == '"' {
            match p_string_body(t, i + 2) {
                Some(r) => Some(seq!['"'] + r),
                None => None,
            }
        } else {
            Some(Seq::empty())
        }
    } else {
        match p_string_body(t, i + 1) {
            Some(r) => Some(seq![t[i]] + r),
            None => None,
        }
    }
}

/// A quoted string at the start of `t`.
pub open spec fn p_string(t: Seq<char>) -> Option<Seq<char>> {
    if t.len() >= 1 && t[0] == '"' {
        p_string_body(t, 1)
    } else {
        None
    }
}

/// Where a component value that starts at `i` ends: at the first `,` or
/// unmatched `}` outside braces and quoted strings, else at the end.
pub open spec fn value_end(w: Seq<char>, i: int, depth: nat, in_string: bool) -> int
    decreases w.len() - i,
{
    if i < 0 || i >= w.len() {
        w.len() as int
    } else if in_string {
        if w[i] == '"' {
            if i + 1 < w.len() && w[i + 1] == '"' {
                value_end(w, i + 2, depth, true)
            } else {
                value_end(w, i + 1, depth, false)
            }
        } else {
            value_end(w, i + 1, depth, true)
        }
    } else if w[i] == '"' {
        value_end(w, i + 1, depth, true)
    } else if w[i] == '{' {
        value_end(w, i + 1, depth + 1, false)
    } else if w[i] == '}' {
        if depth == 0 {
            i
        } else {
            value_end(w, i + 1, (depth - 1) as nat, false)
        }
    } else if w[i] == ',' && depth == 0 {
        i
    } else {
        value_end(w, i + 1, depth, false)
    }
}

/// The position after a component's trailing whitespace and optional comma.
pub open spec fn after_comma(t: Seq<char>, e: int) -> int {
    let s = skip_ws(t, e);
    if s < t.len() && t[s] == ',' {
        s + 1
    } else {
        s
    }
}

/// Whether the braces' content at `p` starts with `identifier value` (not
/// `identifier:` as a CHOICE would).
pub open spec fn named_at(t: Seq<char>, p: int) -> bool {
    let q = ident_end(t, p);
    let r = skip_ws(t, q);
    q > p && r < t.len() && t[r] != ':'
}

/// The value that a text stands for: the text is trimmed, then the forms are
/// tried in order (see [`parse_trimmed`]).
pub open spec fn parse_value(s: Seq<char>) -> Option<Tree>
    decreases s.len(), 2int, 0int,
{
    proof {
        lemma_trim(s);
    }
    parse_trimmed(trim(s))
}

/// The value at the start of a trimmed text: as the general rules read it
/// (see [`parse_general`]), except that braces that the general rules read
/// as neither a list nor named components are kept as their text (see
/// [`avn_decode`]).
pub open spec fn parse_trimmed(t: Seq<char>) -> Option<Tree>
    decreases t.len(), 1int, 1int,
{
    let g = parse_general(t);
    if t.len() >= 1 && t[0] == '{' && !(g matches Some(Tree::Array(_))) && !(g matches Some(
        Tree::Constructed(_),
    )) {
        Some(Tree::Braces(t))
    } else {
        g
    }
}

/// The value at the start of a trimmed text by the general rules: the forms
/// are tried in this order, each reading from the start of the text and
/// ignoring what follows it.
pub open spec fn parse_general(t: Seq<char>) -> Option<Tree>
    decreases t.len(), 1int, 0int,
{
    if p_head(t) is Some {
        p_head(t)
    } else if p_constructed(t) is Some {
        p_constructed(t)
    } else if p_choice(t) is Some {
        p_choice(t)
    } else {
        p_tail(t)
    }
}

/// The forms tried before braces and CHOICE values: `TRUE`, `FALSE`, `NULL`,
/// an hstring, a bstring, an OBJECT IDENTIFIER, a REAL tuple.
pub open spec fn p_head(t: Seq<char>) -> Option<Tree> {
    if has_at(t, 0, lit_true()) {
        Some(Tree::Bool(true))
    } else if has_at(t, 0, lit_false()) {
        Some(Tree::Bool(false))
    } else if has_at(t, 0, lit_null()) {
        Some(Tree::Null)
    } else if p_hex(t) is Some {
        Some(Tree::Bytes(p_hex(t)->Some_0))
    } else if p_bin(t) is Some {
        Some(Tree::BitString(p_bin(t)->Some_0))
    } else if p_oid(t) is Some {
        Some(Tree::Oid(p_oid(t)->Some_0))
    } else if p_real_tuple(t) is Some {
        Some(Tree::Real(p_real_tuple(t)->Some_0))
    } else {
        None
    }
}

/// The forms tried last: `PLUS-INFINITY`, `MINUS-INFINITY`, an integer, a
/// quoted string, a bare identifier.
pub open spec fn p_tail(t: Seq<char>) -> Option<Tree> {
    if has_at(t, 0, lit_plus_inf()) {
        Some(Tree::Real(RealModel::PlusInfinity))
    } else if has_at(t, 0, lit_minus_inf()) {
        Some(Tree::Real(RealModel::MinusInfinity))
    } else if signed_end(t, 0) > 0 {
        Some(Tree::Integer(t.subrange(0, signed_end(t, 0))))
    } else if p_string(t) is Some {
        Some(Tree::String(p_string(t)->Some_0))
    } else if ident_end(t, 0) > 0 {
        Some(Tree::Identifier(t.subrange(0, ident_end(t, 0))))
    } else {
        None
    }
}

/// `{ }`, `{ name value, ... }` or `{ value, ... }` at the start of `t`.
pub open spec fn p_constructed(t: Seq<char>) -> Option<Tree>
    decreases t.len(), 0int, t.len() + 1,
{
    if t.len() >= 1 && t[0] == '{' {
        let p = skip_ws(t, 1);
        if p < t.len() && t[p] == '}' {
            Some(Tree::Constructed(Seq::empty()))
        } else if named_at(t, p) {
            match p_fields(t, 1) {
                Some(fs) => Some(Tree::Constructed(fs)),
                None => None,
            }
        } else {
            match p_items(t, 1) {
                Some(vs) => Some(Tree::Array(vs)),
                None => None,
            }
        }
    } else {
        None
    }
}

/// `name value, ...` from `pos` up to the closing `}`.
pub open spec fn p_fields(t: Seq<char>, pos: int) -> Option<Seq<(Seq<char>, Tree)>>
    decreases t.len(), 0int, t.len() - pos,
{
    if pos < 1 || pos > t.len() {
        None
    } else {
        let p = skip_ws(t, pos);
        proof {
            lemma_skip_ws(t, pos);
        }
        if p < t.len() && t[p] == '}' {
            Some(Seq::empty())
        } else {
            let q = ident_end(t, p);
            if q <= p {
                None
            } else {
                proof {
                    lemma_ident_tail_end(t, p + 1);
                }
                let r = skip_ws(t, q);
                proof {
                    lemma_skip_ws(t, q);
                }
                let e = r + value_end(t.subrange(r, t.len() as int), 0, 0, false);
                proof {
                    lemma_value_end(t.subrange(r, t.len() as int), 0, 0, false);
                }
                match parse_value(t.subrange(r, e)) {
                    Some(v) => {
                        proof {
                            lemma_after_comma(t, e);
                        }
                        match p_fields(t, after_comma(t, e)) {
                            Some(rest) => Some(seq![(t.subrange(p, q), v)] + rest),
                            None => None,
                        }
                    },
                    None => None,
                }
            }
        }
    }
}

/// `value, ...` from `pos` up to the closing `}`.
pub open spec fn p_items(t: Seq<char>, pos: int) -> Option<Seq<Tree>>
    decreases t.len(), 0int, t.len() - pos,
{
    if pos < 1 || pos > t.len() {
        None
    } else {
        let p = skip_ws(t, pos);
        proof {
            lemma_skip_ws(t, pos);
        }
        if p < t.len() && t[p] == '}' {
            Some(Seq::empty())
        } else {
            let e = p + value_end(t.subrange(p, t.len() as int), 0, 0, false);
            proof {
                lemma_value_end(t.subrange(p, t.len() as int), 0, 0, false);
            }
            if e <= p {
                None
            } else {
                match parse_value(t.subrange(p, e)) {
                    Some(v) => {
                        proof {
                            lemma_after_comma(t, e);
                        }
                        match p_items(t, after_comma(t, e)) {
                            Some(rest) => Some(seq![v] + rest),
                            None => None,
                        }
                    },
                    None => None,
                }
            }
        }
    }
}

/// `identifier: value` at the start of `t`.
pub open spec fn p_choice(t: Seq<char>) -> Option<Tree>
    decreases t.len(), 0int, 0int,
{
    let i = skip_ms(t, 0);
    proof {
        lemma_skip_ms(t, 0);
        lemma_ident_end(t, i);
    }
    let q = ident_end(t, i);
    proof {
        lemma_skip_ms(t, q);
    }
    let r = skip_ms(t, q);
    if q > i && r < t.len() && t[r] == ':' {
        proof {
            lemma_skip_ms(t, r + 1);
        }
        let u = skip_ms(t, r + 1);
        match parse_value(t.subrange(u, t.len() as int)) {
            Some(v) => Some(Tree::Choice(t.subrange(i, q), Box::new(v))),
            None => None,
        }
    } else {
        None
    }
}

// ----------------------------------------------------------------------------
// Lemmas on the lexical pieces
// ----------------------------------------------------------------------------
pub proof fn lemma_ident_end(t: Seq<char>, i: int)
    requires
        0 <= i <= t.len(),
    ensures
        i <= ident_end(t, i) <= t.len(),
{
    if i < t.len() && (is_alpha(t[i]) || t[i] == '_') {
        lemma_ident_tail_end(t, i + 1);
    }
}

pub proof fn lemma_trim(s: Seq<char>)
    ensures
        trim(s).len() <= s.len(),
{
    lemma_skip_ws(s, 0);
    lemma_trim_end(s, s.len() as int);
}

pub proof fn lemma_value_end(w: Seq<char>, i: int, depth: nat, in_string: bool)
    requires
        0 <= i,
    ensures
        i <= value_end(w, i, depth, in_string) || i > w.len(),
        value_end(w, i, depth, in_string) <= w.len(),
    decreases w.len() - i,
{
    if i < w.len() {
        if in_string {
            if w[i] == '"' {
                if i + 1 < w.len() && w[i + 1] == '"' {
                    lemma_value_end(w, i + 2, depth, true);
                } else {
                    lemma_value_end(w, i + 1, depth, false);
                }
            } else {
                lemma_value_end(w, i + 1, depth, true);
            }
        } else if w[i] == '"' {
            lemma_value_end(w, i + 1, depth, true);
        } else if w[i] == '{' {
            lemma_value_end(w, i + 1, depth + 1, false);
        } else if w[i] == '}' {
            if depth > 0 {
                lemma_value_end(w, i + 1, (depth - 1) as nat, false);
            }
        } else if !(w[i] == ',' && depth == 0) {
            lemma_value_end(w, i + 1, depth, false);
        }
    }
}

pub proof fn lemma_after_comma(t: Seq<char>, e: int)
    requires
        0 <= e <= t.len(),
    ensures
        e <= after_comma(t, e) <= t.len(),
{
    lemma_skip_ws(t, e);
}

// ----------------------------------------------------------------------------
// The parser
// ----------------------------------------------------------------------------
/// Whether `t` holds the characters of `lit` at `i`.
pub(crate) fn has_at_exec(t: &[char], i: usize, lit: &str) -> (b: bool)
    ensures
        b == has_at(t@, i as int, lit@),
{
    let l = chars_of(lit);
    let tl = t.len();
    if i > tl || l.len() > tl - i {
        return false;
    }
    let mut k: usize = 0;
    while k < l.len()
        invariant
            tl == t@.len(),
            k <= l@.len(),
            i <= t@.len(),
            i + l@.len() <= t@.len(),
            l@ == lit@,
            forall|q: int| 0 <= q < k ==> t@[i + q] == l@[q],
        decreases l@.len() - k,
    {
        if t[i + k] != l[k] {
            assert(t@.subrange(i as int, i + l@.len())[k as int] != l@[k as int]);
            return false;
        }
        k = k + 1;
    }
    assert(t@.subrange(i as int, i + l@.len()) =~= l@);
    true
}

pub(crate) fn digit_end_exec(t: &[char], i: usize) -> (r: usize)
    requires
        i <= t@.len(),
    ensures
        r == digit_end(t@, i as int),
{
    let mut k = i;
    while k < t.len() && '0' <= t[k] && t[k] <= '9'
        invariant
            i <= k <= t@.len(),
            digit_end(t@, i as int) == digit_end(t@, k as int),
        decreases t@.len() - k,
    {
        k = k + 1;
    }
    k
}

pub(crate) fn hex_end_exec(t: &[char], i: usize) -> (r: usize)
    requires
        i <= t@.len(),
    ensures
        r == hex_end(t@, i as int),
{
    let mut k = i;
    while k < t.len() && (('0' <= t[k] && t[k] <= '9') || ('a' <= t[k] && t[k] <= 'f') || ('A'
        <= t[k] && t[k] <= 'F'))
        invariant
            i <= k <= t@.len(),
            hex_end(t@, i as int) == hex_end(t@, k as int),
        decreases t@.len() - k,
    {
        k = k + 1;
    }
    k
}

pub(crate) fn bin_end_exec(t: &[char], i: usize) -> (r: usize)
    requires
        i <= t@.len(),
    ensures
        r == bin_end(t@, i as int),
{
    let mut k = i;
    while k < t.len() && (t[k] == '0' || t[k] == '1')
        invariant
            i <= k <= t@.len(),
            bin_end(t@, i as int) == bin_end(t@, k as int),
        decreases t@.len() - k,
    {
        k = k + 1;
    }
    k
}

/// The end of the identifier at `i`, or `i` when none starts there.
pub(crate) fn ident_end_exec(t: &[char], i: usize) -> (r: usize)
    requires
        i <= t@.len(),
    ensures
        r == ident_end(t@, i as int),
{
    if i < t.len() && (('a' <= t[i] && t[i] <= 'z') || ('A' <= t[i] && t[i] <= 'Z') || t[i]
        == '_') {
        let mut k = i + 1;
        while k < t.len() && (char_is_alphanumeric(t[k]) || t[k] == '-' || t[k] == '_')
            invariant
                i < k <= t@.len(),
                ident_tail_end(t@, i + 1) == ident_tail_end(t@, k as int),
            decreases t@.len() - k,
        {
            k = k + 1;
        }
        k
    } else {
        i
    }
}

/// The end of an optional `-` and digits at `i`, or `i`.
pub(crate) fn signed_end_exec(t: &[char], i: usize) -> (r: usize)
    requires
        i <= t@.len(),
    ensures
        r == signed_end(t@, i as int),
{
    let a = if i < t.len() && t[i] == '-' { i + 1 } else { i };
    let b = digit_end_exec(t, a);
    if b > a { b } else { i }
}

/// The value of a hexadecimal digit.
pub(crate) fn hex_val_exec(c: char) -> (v: u8)
    requires
        is_hex_digit(c),
    ensures
        v as nat == hex_val(c),
        v < 16,
{
    if '0' <= c && c <= '9' {
        ((c as u32) - ('0' as u32)) as u8
    } else if 'a' <= c && c <= 'f' {
        ((c as u32) - ('a' as u32) + 10) as u8
    } else {
        ((c as u32) - ('A' as u32) + 10) as u8
    }
}

/// Converts a text to bytes, two hexadecimal digits a byte (see
/// [`hex_bytes`]); `None` where a character is no hexadecimal digit.
pub fn bytes_from_hex(h: &[char]) -> (r: Option<Vec<u8>>)
    ensures
        !all_hex(h@) ==> r is None,
        all_hex(h@) ==> (r matches Some(b) ==> hex_bytes(h@) == Some(b@)),
        all_hex(h@) ==> (r is None <==> hex_bytes(h@) is None),
{
    if h.len() % 2 != 0 {
        return None;
    }
    let mut j: usize = 0;
    while j < h.len()
        invariant
            j <= h@.len(),
            forall|q: int| 0 <= q < j ==> is_hex_digit(#[trigger] h@[q]),
        decreases h@.len() - j,
    {
        let c = h[j];
        if !(('0' <= c && c <= '9') || ('a' <= c && c <= 'f') || ('A' <= c && c <= 'F')) {
            proof {
                reveal(all_hex);
            }
            return None;
        }
        j = j + 1;
    }
    proof {
        lemma_all_hex(h@);
    }
    let hl = h.len();
    let n = hl / 2;
    let mut bytes: Vec<u8> = Vec::new();
    let mut k: usize = 0;
    while k < n
        invariant
            hl == h@.len(),
            n == h@.len() / 2,
            h@.len() % 2 == 0,
            2 * n == h@.len(),
            k <= n,
            bytes@.len() == k,
            forall|q: int| 0 <= q < h@.len() ==> is_hex_digit(#[trigger] h@[q]),
            forall|q: int|
                0 <= q < k ==> bytes@[q] == (hex_val(h@[2 * q]) * 16 + hex_val(h@[2 * q + 1])) as u8,
        decreases n - k,
    {
        let hi = hex_val_exec(h[2 * k]);
        let lo = hex_val_exec(h[2 * k + 1]);
        bytes.push(hi * 16 + lo);
        k = k + 1;
    }
    assert(bytes@ =~= hex_bytes(h@)->Some_0);
    Some(bytes)
}

pub(crate) fn p_hex_exec(t: &[char]) -> (r: Option<Vec<u8>>)
    ensures
        r matches Some(b) ==> p_hex(t@) == Some(b@),
        r is None <==> p_hex(t@) is None,
{
    if t.len() < 1 || t[0] != '\'' {
        return None;
    }
    let k = hex_end_exec(t, 1);
    proof {
        reveal_strlit("'H");
        lemma_hex_end(t@, 1);
    }
    assert("'H"@ =~= seq!['\'', 'H']);
    if !has_at_exec(t, k, "'H") {
        return None;
    }
    let h = slice_range(t, 1, k);
    assert forall|q: int| 0 <= q < h@.len() implies is_hex_digit(#[trigger] h@[q]) by {
        assert(h@[q] == t@[q + 1]);
    }
    proof {
        lemma_all_hex(h@);
    }
    bytes_from_hex(h)
}

pub(crate) fn p_bin_exec(t: &[char]) -> (r: Option<Vec<bool>>)
    ensures
        r matches Some(b) ==> p_bin(t@) == Some(b@),
        r is None <==> p_bin(t@) is None,
{
    if t.len() < 1 || t[0] != '\'' {
        return None;
    }
    let k = bin_end_exec(t, 1);
    proof {
        reveal_strlit("'B");
        lemma_bin_end(t@, 1);
    }
    assert("'B"@ =~= seq!['\'', 'B']);
    if !has_at_exec(t, k, "'B") {
        return None;
    }
    let mut bits: Vec<bool> = Vec::new();
    let mut i: usize = 1;
    while i < k
        invariant
            1 <= i <= k <= t@.len(),
            bits@.len() == i - 1,
            forall|q: int| 0 <= q < i - 1 ==> bits@[q] == (t@[q + 1] == '1'),
        decreases k - i,
    {
        bits.push(t[i] == '1');
        i = i + 1;
    }
    assert(bits@ =~= bin_bits(t@.subrange(1, k as int)));
    Some(bits)
}

/// The value of the digits `t[a..b]` when it fits a `u32`.
pub(crate) fn arc_at_exec(t: &[char], a: usize, b: usize) -> (r: Option<u32>)
    requires
        a <= b <= t@.len(),
        forall|q: int| a <= q < b ==> is_digit(#[trigger] t@[q]),
    ensures
        r == arc_at(t@, a as int, b as int),
{
    if a >= b {
        return None;
    }
    assert(all_digits(t@.subrange(a as int, b as int)));
    match digits_value_upto(t, a, b, u32::MAX as u128) {
        Some(v) => Some(v as u32),
        None => None,
    }
}

fn p_oid_exec(t: &[char]) -> (r: Option<Vec<u32>>)
    ensures
        r matches Some(a) ==> p_oid(t@) == Some(a@),
        r is None <==> p_oid(t@) is None,
{
    let i0 = skip_ms_exec(t, 0);
    proof {
        lemma_skip_ms(t@, 0);
    }
    if !(i0 < t.len() && t[i0] == '{') {
        return None;
    }
    let i1 = skip_ms_exec(t, i0 + 1);
    proof {
        lemma_skip_ms(t@, i0 + 1);
    }
    let i2 = skip_ws_exec(t, i1);
    proof {
        lemma_skip_ws(t@, i1 as int);
    }
    if i2 < t.len() && t[i2] == '}' {
        return None;
    }
    let j = digit_end_exec(t, i2);
    proof {
        lemma_digit_end(t@, i2 as int);
    }
    let first = match arc_at_exec(t, i2, j) {
        Some(a) => a,
        None => {
            return None;
        },
    };
    let mut arcs: Vec<u32> = Vec::new();
    arcs.push(first);
    let mut pos = j;
    loop
        invariant
            i2 <= j <= pos <= t@.len(),
            i0 < t@.len() && t@[i0 as int] == '{',
            p_oid(t@) == match p_oid_rest(t@, pos as int) {
                Some(rest) => Some(arcs@ + rest),
                None => None::<Seq<u32>>,
            },
        decreases t@.len() - pos,
    {
        let p = skip_ws_exec(t, pos);
        proof {
            lemma_skip_ws(t@, pos as int);
        }
        if p < t.len() && t[p] == '}' {
            assert(arcs@ + Seq::<u32>::empty() =~= arcs@);
            return Some(arcs);
        }
        if p < t.len() && t[p] == ',' {
            return None;
        }
        let q = digit_end_exec(t, p);
        proof {
            lemma_digit_end(t@, p as int);
        }
        match arc_at_exec(t, p, q) {
            Some(a) => {
                let ghost before = arcs@;
                arcs.push(a);
                proof {
                    assert(before + (seq![a] + p_oid_rest(t@, q as int)->Some_0) =~= arcs@
                        + p_oid_rest(t@, q as int)->Some_0);
                }
                pos = q;
            },
            None => {
                return None;
            },
        }
    }
}

/// Parses the signed numeral `t[a..b]` into the range `min..=max`.
pub(crate) fn signed_at(t: &[char], a: usize, b: usize, min: i128, max: i128) -> (r: Option<i128>)
    requires
        a <= b <= t@.len(),
        min <= -9,
        max >= 9,
    ensures
        r matches Some(x) ==> parse_signed(t@.subrange(a as int, b as int), min as int, max as int)
            == Some(x as int),
        r is None ==> parse_signed(t@.subrange(a as int, b as int), min as int, max as int) is None,
{
    parse_signed_exec(slice_range(t, a, b), min, max)
}

fn p_real_tuple_exec(t: &[char]) -> (r: Option<RealValue>)
    ensures
        r matches Some(x) ==> p_real_tuple(t@) == Some(x@),
        r is None <==> p_real_tuple(t@) is None,
{
    let n = t.len();
    let i0 = skip_ms_exec(t, 0);
    proof {
        lemma_skip_ms(t@, 0);
    }
    if !(i0 < n && t[i0] == '{') {
        return None;
    }
    let a = skip_ms_exec(t, i0 + 1);
    proof {
        lemma_skip_ms(t@, i0 + 1);
    }
    let b = signed_end_exec(t, a);
    proof {
        lemma_digit_end(t@, if a < n && t@[a as int] == '-' { a + 1 } else { a as int });
    }
    if b <= a {
        return None;
    }
    let c = skip_ms_exec(t, b);
    proof {
        lemma_skip_ms(t@, b as int);
    }
    if !(c < n && t[c] == ',') {
        return None;
    }
    let d = skip_ms_exec(t, c + 1);
    proof {
        lemma_skip_ms(t@, c + 1);
    }
    let e = digit_end_exec(t, d);
    proof {
        lemma_digit_end(t@, d as int);
    }
    if e <= d {
        return None;
    }
    let f = skip_ms_exec(t, e);
    proof {
        lemma_skip_ms(t@, e as int);
    }
    if !(f < n && t[f] == ',') {
        return None;
    }
    let g = skip_ms_exec(t, f + 1);
    proof {
        lemma_skip_ms(t@, f + 1);
    }
    let h = signed_end_exec(t, g);
    proof {
        lemma_digit_end(t@, if g < n && t@[g as int] == '-' { g + 1 } else { g as int });
    }
    if h <= g {
        return None;
    }
    let k = skip_ms_exec(t, h);
    proof {
        lemma_skip_ms(t@, h as int);
    }
    if !(k < n && t[k] == '}') {
        return None;
    }
    let m = signed_at(t, a, b, i64::MIN as i128, i64::MAX as i128);
    let bs = signed_at(t, d, e, i32::MIN as i128, i32::MAX as i128);
    let x = signed_at(t, g, h, i32::MIN as i128, i32::MAX as i128);
    match (m, bs, x) {
        (Some(m), Some(bs), Some(x)) => Some(
            RealValue::Tuple { mantissa: m as i64, base: bs as i32, exponent: x as i32 },
        ),
        _ => None,
    }
}

pub(crate) fn p_string_exec(t: &[char]) -> (r: Option<Vec<char>>)
    ensures
        r matches Some(x) ==> p_string(t@) == Some(x@),
        r is None <==> p_string(t@) is None,
{
    if t.len() < 1 || t[0] != '"' {
        return None;
    }
    let mut out: Vec<char> = Vec::new();
    let mut i: usize = 1;
    loop
        invariant
            1 <= i,
            p_string(t@) == match p_string_body(t@, i as int) {
                Some(r) => Some(out@ + r),
                None => None::<Seq<char>>,
            },
        decreases t@.len() - i,
    {
        if i >= t.len() {
            return None;
        }
        if t[i] == '"' {
            if i + 1 < t.len() && t[i + 1] == '"' {
                let ghost before = out@;
                out.push('"');
                proof {
                    if p_string_body(t@, i + 2) is Some {
                        assert(before + (seq!['"'] + p_string_body(t@, i + 2)->Some_0) =~= out@
                            + p_string_body(t@, i + 2)->Some_0);
                    }
                }
                i = i + 2;
            } else {
                assert(out@ + Seq::<char>::empty() =~= out@);
                return Some(out);
            }
        } else {
            let ghost before = out@;
            out.push(t[i]);
            proof {
                if p_string_body(t@, i + 1) is Some {
                    assert(before + (seq![t@[i as int]] + p_string_body(t@, i + 1)->Some_0) =~= out@
                        + p_string_body(t@, i + 1)->Some_0);
                }
            }
            i = i + 1;
        }
    }
}

/// Where the component value that `w` starts with ends.
pub(crate) fn value_end_exec(w: &[char]) -> (r: usize)
    ensures
        r == value_end(w@, 0, 0, false),
{
    let mut i: usize = 0;
    let mut depth: usize = 0;
    let mut in_string = false;
    while i < w.len()
        invariant
            depth <= i,
            value_end(w@, 0, 0, false) == value_end(w@, i as int, depth as nat, in_string),
        decreases w@.len() - i,
    {
        let c = w[i];
        if in_string {
            if c == '"' {
                if i + 1 < w.len() && w[i + 1] == '"' {
                    i = i + 2;
                } else {
                    in_string = false;
                    i = i + 1;
                }
            } else {
                i = i + 1;
            }
        } else if c == '"' {
            in_string = true;
            i = i + 1;
        } else if c == '{' {
            depth = depth + 1;
            i = i + 1;
        } else if c == '}' {
            if depth == 0 {
                return i;
            }
            depth = depth - 1;
            i = i + 1;
        } else if c == ',' && depth == 0 {
            return i;
        } else {
            i = i + 1;
        }
    }
    w.len()
}

/// The owned copy of a text.
pub(crate) fn text_value(v: &[char]) -> (s: String)
    ensures
        s@ == v@,
{
    string_of(v)
}

/// Parses the text of one value (see [`parse_value`]).
pub fn parse_to_value(s: &[char]) -> (r: Option<AvnValue>)
    ensures
        r matches Some(v) ==> parse_value(s@) == Some(v@),
        r is None <==> parse_value(s@) is None,
    decreases s@.len(), 2int, 0int,
{
    let a = skip_ws_exec(s, 0);
    let b = trim_end_exec(s, s.len());
    proof {
        lemma_skip_ws(s@, 0);
        lemma_trim_end(s@, s@.len() as int);
        lemma_trim(s@);
    }
    let t: &[char] = if a >= b { slice_range(s, 0, 0) } else { slice_range(s, a, b) };
    assert(t@ == trim(s@));
    parse_trimmed_exec(t)
}

/// Parses the value at the start of a trimmed text (see [`parse_trimmed`]).
fn parse_trimmed_exec(t: &[char]) -> (r: Option<AvnValue>)
    ensures
        r matches Some(v) ==> parse_trimmed(t@) == Some(v@),
        r is None <==> parse_trimmed(t@) is None,
    decreases t@.len(), 1int, 1int,
{
    let g = parse_general_exec(t);
    let listed = match &g {
        Some(AvnValue::Array(_)) => true,
        Some(AvnValue::Constructed(_)) => true,
        _ => false,
    };
    if t.len() >= 1 && t[0] == '{' && !listed {
        let mut kept: Vec<char> = Vec::new();
        push_all(&mut kept, t);
        assert(kept@ =~= t@);
        return Some(AvnValue::Braces(kept));
    }
    g
}

/// Parses by the general rules (see [`parse_general`]).
fn parse_general_exec(t: &[char]) -> (r: Option<AvnValue>)
    ensures
        r matches Some(v) ==> parse_general(t@) == Some(v@),
        r is None <==> parse_general(t@) is None,
    decreases t@.len(), 1int, 0int,
{
    match p_head_exec(t) {
        Some(v) => {
            return Some(v);
        },
        None => {},
    }
    match p_constructed_exec(t) {
        Some(v) => {
            return Some(v);
        },
        None => {},
    }
    match p_choice_exec(t) {
        Some(v) => {
            return Some(v);
        },
        None => {},
    }
    p_tail_exec(t)
}

fn p_head_exec(t: &[char]) -> (r: Option<AvnValue>)
    ensures
        r matches Some(v) ==> p_head(t@) == Some(v@),
        r is None <==> p_head(t@) is None,
{
    proof {
        reveal_strlit("TRUE");
        reveal_strlit("FALSE");
        reveal_strlit("NULL");
        assert("TRUE"@ =~= lit_true());
        assert("FALSE"@ =~= lit_false());
        assert("NULL"@ =~= lit_null());
    }
    if has_at_exec(t, 0, "TRUE") {
        return Some(AvnValue::Bool(true));
    }
    if has_at_exec(t, 0, "FALSE") {
        return Some(AvnValue::Bool(false));
    }
    if has_at_exec(t, 0, "NULL") {
        return Some(AvnValue::Null);
    }
    match p_hex_exec(t) {
        Some(b) => {
            return Some(AvnValue::Bytes(b));
        },
        None => {},
    }
    match p_bin_exec(t) {
        Some(b) => {
            return Some(AvnValue::BitString(b));
        },
        None => {},
    }
    match p_oid_exec(t) {
        Some(arcs) => {
            return Some(AvnValue::Oid(arcs));
        },
        None => {},
    }
    match p_real_tuple_exec(t) {
        Some(x) => Some(AvnValue::Real(x)),
        None => None,
    }
}

fn p_tail_exec(t: &[char]) -> (r: Option<AvnValue>)
    ensures
        r matches Some(v) ==> p_tail(t@) == Some(v@),
        r is None <==> p_tail(t@) is None,
{
    proof {
        reveal_strlit("PLUS-INFINITY");
        reveal_strlit("MINUS-INFINITY");
        assert("PLUS-INFINITY"@ =~= lit_plus_inf());
        assert("MINUS-INFINITY"@ =~= lit_minus_inf());
    }
    if has_at_exec(t, 0, "PLUS-INFINITY") {
        return Some(AvnValue::Real(RealValue::PlusInfinity));
    }
    if has_at_exec(t, 0, "MINUS-INFINITY") {
        return Some(AvnValue::Real(RealValue::MinusInfinity));
    }
    let e = signed_end_exec(t, 0);
    proof {
        lemma_digit_end(t@, if 0 < t@.len() && t@[0] == '-' { 1int } else { 0int });
    }
    if e > 0 {
        return Some(AvnValue::Integer(text_value(slice_range(t, 0, e))));
    }
    match p_string_exec(t) {
        Some(x) => {
            return Some(AvnValue::String(text_value(x.as_slice())));
        },
        None => {},
    }
    let q = ident_end_exec(t, 0);
    proof {
        lemma_ident_end(t@, 0);
    }
    if q > 0 {
        return Some(AvnValue::Identifier(text_value(slice_range(t, 0, q))));
    }
    None
}

fn p_constructed_exec(t: &[char]) -> (r: Option<AvnValue>)
    ensures
        r matches Some(v) ==> p_constructed(t@) == Some(v@),
        r is None <==> p_constructed(t@) is None,
    decreases t@.len(), 0int, 1int,
{
    if t.len() < 1 || t[0] != '{' {
        return None;
    }
    let p = skip_ws_exec(t, 1);
    proof {
        lemma_skip_ws(t@, 1);
    }
    if p < t.len() && t[p] == '}' {
        let v = AvnValue::Constructed(Vec::new());
        assert(pairs_view(Seq::<(String, AvnValue)>::empty()) =~= Seq::<(Seq<char>, Tree)>::empty());
        return Some(v);
    }
    let q = ident_end_exec(t, p);
    proof {
        lemma_ident_end(t@, p as int);
    }
    let r = skip_ws_exec(t, q);
    if q > p && r < t.len() && t[r] != ':' {
        match p_fields_exec(t) {
            Some(fs) => Some(AvnValue::Constructed(fs)),
            None => None,
        }
    } else {
        match p_items_exec(t) {
            Some(vs) => Some(AvnValue::Array(vs)),
            None => None,
        }
    }
}

fn p_fields_exec(t: &[char]) -> (r: Option<Vec<(String, AvnValue)>>)
    requires
        t@.len() >= 1,
    ensures
        r matches Some(fs) ==> p_fields(t@, 1) == Some(pairs_view(fs@)),
        r is None <==> p_fields(t@, 1) is None,
    decreases t@.len(), 0int, 0int,
{
    let mut fields: Vec<(String, AvnValue)> = Vec::new();
    let mut pos: usize = 1;
    loop
        invariant
            1 <= pos <= t@.len(),
            p_fields(t@, 1) == match p_fields(t@, pos as int) {
                Some(rest) => Some(pairs_view(fields@) + rest),
                None => None::<Seq<(Seq<char>, Tree)>>,
            },
        decreases t@.len() - pos,
    {
        let p = skip_ws_exec(t, pos);
        proof {
            lemma_skip_ws(t@, pos as int);
        }
        if p < t.len() && t[p] == '}' {
            assert(pairs_view(fields@) + Seq::<(Seq<char>, Tree)>::empty() =~= pairs_view(fields@));
            return Some(fields);
        }
        let q = ident_end_exec(t, p);
        proof {
            if q > p {
                lemma_ident_tail_end(t@, p + 1);
            }
        }
        if q <= p {
            return None;
        }
        let r = skip_ws_exec(t, q);
        proof {
            lemma_skip_ws(t@, q as int);
        }
        let rest = slice_range(t, r, t.len());
        let ve = value_end_exec(rest);
        proof {
            lemma_value_end(rest@, 0, 0, false);
        }
        let e = r + ve;
        let w = slice_range(t, r, e);
        match parse_to_value(w) {
            Some(v) => {
                let name = text_value(slice_range(t, p, q));
                let ghost before = fields@;
                let ghost pair_v = (name@, v@);
                fields.push((name, v));
                proof {
                    assert(fields@.drop_last() == before);
                    assert(pairs_view(fields@) == pairs_view(before).push(pair_v));
                    lemma_after_comma(t@, e as int);
                    match p_fields(t@, after_comma(t@, e as int)) {
                        Some(more) => {
                            assert(pairs_view(before) + (seq![pair_v] + more) =~= pairs_view(
                                fields@,
                            ) + more);
                        },
                        None => {},
                    }
                }
                let s2 = skip_ws_exec(t, e);
                pos = if s2 < t.len() && t[s2] == ',' { s2 + 1 } else { s2 };
            },
            None => {
                return None;
            },
        }
    }
}

fn p_items_exec(t: &[char]) -> (r: Option<Vec<AvnValue>>)
    requires
        t@.len() >= 1,
    ensures
        r matches Some(vs) ==> p_items(t@, 1) == Some(trees_view(vs@)),
        r is None <==> p_items(t@, 1) is None,
    decreases t@.len(), 0int, 0int,
{
    let mut items: Vec<AvnValue> = Vec::new();
    let mut pos: usize = 1;
    loop
        invariant
            1 <= pos <= t@.len(),
            p_items(t@, 1) == match p_items(t@, pos as int) {
                Some(rest) => Some(trees_view(items@) + rest),
                None => None::<Seq<Tree>>,
            },
        decreases t@.len() - pos,
    {
        let p = skip_ws_exec(t, pos);
        proof {
            lemma_skip_ws(t@, pos as int);
        }
        if p < t.len() && t[p] == '}' {
            assert(trees_view(items@) + Seq::<Tree>::empty() =~= trees_view(items@));
            return Some(items);
        }
        let rest = slice_range(t, p, t.len());
        let ve = value_end_exec(rest);
        proof {
            lemma_value_end(rest@, 0, 0, false);
        }
        let e = p + ve;
        if e <= p {
            return None;
        }
        let w = slice_range(t, p, e);
        match parse_to_value(w) {
            Some(v) => {
                let ghost before = items@;
                let ghost v_v = v@;
                items.push(v);
                proof {
                    assert(items@.drop_last() == before);
                    assert(trees_view(items@) == trees_view(before).push(v_v));
                    lemma_after_comma(t@, e as int);
                    match p_items(t@, after_comma(t@, e as int)) {
                        Some(more) => {
                            assert(trees_view(before) + (seq![v_v] + more) =~= trees_view(items@)
                                + more);
                        },
                        None => {},
                    }
                }
                let s2 = skip_ws_exec(t, e);
                pos = if s2 < t.len() && t[s2] == ',' { s2 + 1 } else { s2 };
            },
            None => {
                return None;
            },
        }
    }
}

fn p_choice_exec(t: &[char]) -> (r: Option<AvnValue>)
    ensures
        r matches Some(v) ==> p_choice(t@) == Some(v@),
        r is None <==> p_choice(t@) is None,
    decreases t@.len(), 0int, 0int,
{
    let i = skip_ms_exec(t, 0);
    proof {
        lemma_skip_ms(t@, 0);
    }
    let q = ident_end_exec(t, i);
    proof {
        if q > i {
            lemma_ident_tail_end(t@, i + 1);
        }
    }
    if q <= i {
        return None;
    }
    let r = skip_ms_exec(t, q);
    proof {
        lemma_skip_ms(t@, q as int);
    }
    if !(r < t.len() && t[r] == ':') {
        return None;
    }
    let u = skip_ms_exec(t, r + 1);
    proof {
        lemma_skip_ms(t@, r + 1);
    }
    match parse_to_value(slice_range(t, u, t.len())) {
        Some(v) => {
            let id = text_value(slice_range(t, i, q));
            Some(AvnValue::Choice(id, Box::new(v)))
        },
        None => None,
    }
}


// ----------------------------------------------------------------------------
// Typed decoding
// ----------------------------------------------------------------------------
/// What kind of parsed value a tree is.
pub open spec fn found_of(t: Tree) -> Found {
    match t {
        Tree::Bool(_) => Found::Bool,
        Tree::Integer(_) => Found::Integer,
        Tree::Real(_) => Found::Real,
        Tree::Null => Found::Null,
        Tree::String(_) => Found::String,
        Tree::Bytes(_) => Found::Bytes,
        Tree::BitString(_) => Found::BitString,
        Tree::Oid(_) => Found::Oid,
        Tree::Identifier(_) => Found::Identifier,
        Tree::Constructed(_) => Found::Constructed,
        Tree::Array(_) => Found::Array,
        Tree::Choice(_, _) => Found::Choice,
        Tree::Absent => Found::Absent,
        Tree::Braces(_) => Found::Array,
    }
}

/// The bits of the bytes, eight a byte, high bit first.
pub open spec fn unpack_bytes(b: Seq<u8>) -> Seq<bool> {
    Seq::new(8 * b.len(), |i: int| (b[i / 8] as nat / pow2_nat((7 - i % 8) as nat)) % 2 == 1)
}

/// The value of the last component with this identifier, `Absent` when none has it.
pub open spec fn lookup(fs: Seq<(Seq<char>, Tree)>, name: Seq<char>) -> Tree
    decreases fs.len(),
{
    if fs.len() == 0 {
        Tree::Absent
    } else if fs.last().0 == name {
        fs.last().1
    } else {
        lookup(fs.drop_last(), name)
    }
}

/// The first alternative whose identifier equals `id` up to ASCII case.
pub open spec fn find_alt(alts: Seq<(Seq<char>, TypeModel)>, id: Seq<char>) -> Option<int>
    decreases alts.len(),
{
    if alts.len() == 0 {
        None
    } else {
        match find_alt(alts.drop_last(), id) {
            Some(i) => Some(i),
            None => if eq_ignore_ascii_case(alts.last().0, id) {
                Some(alts.len() - 1)
            } else {
                None
            },
        }
    }
}

pub open spec fn mismatch(expected: Expected, t: Tree) -> ErrorModel {
    ErrorModel::TypeMismatch { expected, found: found_of(t) }
}

/// What decoding a parsed value as a type gives: braces kept as text (see
/// [`parse_trimmed`]) are read as a list of items for a SEQUENCE OF or SET
/// OF, and by the general rules for any other type (a parser failure where
/// they read as nothing).
pub open spec fn avn_decode(t: Tree, ty: TypeModel) -> Result<ValueModel, ErrorModel>
    decreases ty, 1int,
{
    match t {
        Tree::Braces(b) => if ty is SequenceOf || ty is SetOf {
            match p_items(b, 1) {
                Some(vs) => avn_decode_plain(Tree::Array(vs), ty),
                None => Err(ErrorModel::ParserFail),
            }
        } else {
            match parse_general(b) {
                Some(h) => avn_decode_plain(h, ty),
                None => Err(ErrorModel::ParserFail),
            }
        },
        _ => avn_decode_plain(t, ty),
    }
}

/// What decoding a parsed value as a type gives, for a value read one way.
pub open spec fn avn_decode_plain(t: Tree, ty: TypeModel) -> Result<ValueModel, ErrorModel>
    decreases ty, 0int,
{
    match ty {
        TypeModel::Bool => match t {
            Tree::Bool(b) => Ok(ValueModel::Bool(b)),
            _ => Err(mismatch(Expected::Boolean, t)),
        },
        TypeModel::Integer { min, max } => match t {
            Tree::Integer(s) => match parse_signed(s, i128::MIN as int, i128::MAX as int) {
                Some(n) => if min <= n <= max {
                    Ok(ValueModel::Integer(n))
                } else {
                    Err(ErrorModel::IntegerOverflow)
                },
                None => Err(ErrorModel::ParserFail),
            },
            _ => Err(mismatch(Expected::Integer, t)),
        },
        TypeModel::Null => match t {
            Tree::Null => Ok(ValueModel::Null),
            _ => Err(mismatch(Expected::Null, t)),
        },
        TypeModel::Real => match t {
            Tree::Real(r) => Ok(ValueModel::Real(r)),
            Tree::Integer(s) => Ok(ValueModel::Real(RealModel::Numeral(s))),
            _ => Err(mismatch(Expected::Real, t)),
        },
        TypeModel::BitString => match t {
            Tree::BitString(b) => Ok(ValueModel::BitString(b)),
            Tree::Bytes(b) => Ok(ValueModel::BitString(unpack_bytes(b))),
            _ => Err(mismatch(Expected::BitString, t)),
        },
        TypeModel::OctetString => match t {
            Tree::Bytes(b) => Ok(ValueModel::OctetString(b)),
            _ => Err(mismatch(Expected::OctetString, t)),
        },
        TypeModel::ObjectIdentifier => match t {
            Tree::Oid(a) => if oid_valid(a) {
                Ok(ValueModel::ObjectIdentifier(a))
            } else {
                Err(ErrorModel::InvalidOid)
            },
            _ => Err(mismatch(Expected::ObjectIdentifier, t)),
        },
        TypeModel::Text(kind) => match t {
            Tree::String(s) => if all_permitted(kind, s) {
                Ok(ValueModel::Text(kind, s))
            } else {
                Err(ErrorModel::StringConversionFailed(kind))
            },
            _ => Err(mismatch(Expected::String, t)),
        },
        TypeModel::Enumerated(ids) => match t {
            Tree::Identifier(s) => if ids.contains(s) {
                Ok(ValueModel::Enumerated(s))
            } else {
                Err(ErrorModel::InvalidEnumDiscriminant(s))
            },
            _ => Err(mismatch(Expected::Enumerated, t)),
        },
        TypeModel::Sequence(fts) => match t {
            Tree::Constructed(fs) => match avn_decode_fields(fs, fts) {
                Ok(vs) => Ok(ValueModel::Sequence(vs)),
                Err(e) => Err(e),
            },
            _ => Err(mismatch(Expected::Sequence, t)),
        },
        TypeModel::SetType(cs) => match t {
            Tree::Constructed(fs) => set_outcome(cs, avn_set_results(fs, cs)),
            _ => Err(mismatch(Expected::SetType, t)),
        },
        TypeModel::SequenceOf(elem) => match t {
            Tree::Array(vs) => match avn_decode_items(vs, *elem) {
                Ok(xs) => Ok(ValueModel::SequenceOf(xs)),
                Err(e) => Err(e),
            },
            Tree::Constructed(fs) => match avn_decode_items(fs.map_values(|p: (Seq<char>, Tree)| p.1), *elem) {
                Ok(xs) => Ok(ValueModel::SequenceOf(xs)),
                Err(e) => Err(e),
            },
            _ => Err(mismatch(Expected::SequenceOf, t)),
        },
        TypeModel::SetOf(elem) => match t {
            Tree::Array(vs) => match avn_decode_items(vs, *elem) {
                Ok(xs) => Ok(ValueModel::SetOf(xs)),
                Err(e) => Err(e),
            },
            Tree::Constructed(fs) => match avn_decode_items(fs.map_values(|p: (Seq<char>, Tree)| p.1), *elem) {
                Ok(xs) => Ok(ValueModel::SetOf(xs)),
                Err(e) => Err(e),
            },
            _ => Err(mismatch(Expected::SetOf, t)),
        },
        TypeModel::Choice(alts) => match t {
            Tree::Choice(id, inner) => match find_alt(alts, id) {
                Some(i) => if 0 <= i < alts.len() {
                    match avn_decode(*inner, alts[i].1) {
                        Ok(v) => Ok(ValueModel::Choice(alts[i].0, Box::new(v))),
                        Err(e) => Err(e),
                    }
                } else {
                    Err(ErrorModel::InvalidChoiceVariant(id))
                },
                None => Err(ErrorModel::InvalidChoiceVariant(id)),
            },
            _ => Err(mismatch(Expected::Choice, t)),
        },
    }
}

/// Decodes the components of a SEQUENCE in the order of its type; an absent
/// optional component is `None`, an absent required one is a mismatch.
pub open spec fn avn_decode_fields(
    fs: Seq<(Seq<char>, Tree)>,
    fts: Seq<(Seq<char>, TypeModel, bool)>,
) -> Result<Seq<(Seq<char>, Option<ValueModel>)>, ErrorModel>
    decreases fts, 0int,
{
    if fts.len() == 0 {
        Ok(Seq::empty())
    } else {
        let (name, fty, optional) = fts[0];
        let v = lookup(fs, name);
        let first = if optional && v is Absent {
            Ok(None)
        } else {
            match avn_decode(v, fty) {
                Ok(x) => Ok(Some(x)),
                Err(e) => Err(e),
            }
        };
        match first {
            Ok(x) => match avn_decode_fields(fs, fts.drop_first()) {
                Ok(rest) => Ok(seq![(name, x)] + rest),
                Err(e) => Err(e),
            },
            Err(e) => Err(e),
        }
    }
}

/// Decodes one component from the components found: absent where it is
/// optional and not found.
pub open spec fn avn_decode_component(
    fs: Seq<(Seq<char>, Tree)>,
    ft: (Seq<char>, TypeModel, bool),
) -> Result<Option<ValueModel>, ErrorModel>
    decreases ft.1, 2int,
{
    let v = lookup(fs, ft.0);
    if ft.2 && v is Absent {
        Ok(None)
    } else {
        match avn_decode(v, ft.1) {
            Ok(x) => Ok(Some(x)),
            Err(e) => Err(e),
        }
    }
}

/// What decoding each component of a SET gives, in the order of the type.
pub open spec fn avn_set_results(
    fs: Seq<(Seq<char>, Tree)>,
    cs: Seq<((Seq<char>, TypeModel, bool), int)>,
) -> Seq<Result<Option<ValueModel>, ErrorModel>>
    decreases cs, 0int,
{
    if cs.len() == 0 {
        Seq::empty()
    } else {
        seq![avn_decode_component(fs, cs[0].0)] + avn_set_results(fs, cs.drop_first())
    }
}

/// Among the first `n` components, the failed one that comes first in the
/// order of decoding: the least key (see `order_key`), the earlier one where
/// two have the same key.
pub open spec fn first_failure<A>(
    rs: Seq<Result<A, ErrorModel>>,
    cs: Seq<((Seq<char>, TypeModel, bool), int)>,
    n: int,
) -> Option<int>
    decreases n,
{
    if n <= 0 {
        None
    } else {
        let b = first_failure(rs, cs, n - 1);
        if rs[n - 1] is Err {
            match b {
                Some(j) => if cs[n - 1].1 < cs[j].1 {
                    Some(n - 1)
                } else {
                    Some(j)
                },
                None => Some(n - 1),
            }
        } else {
            b
        }
    }
}

/// The value of a SET from the results of its components: the root
/// components are decoded in the order of their tags, then the extension
/// additions in the order of the type, so the error of the first failed
/// component in that order is the result; else the components, in the order
/// of the type.
pub open spec fn set_outcome(
    cs: Seq<((Seq<char>, TypeModel, bool), int)>,
    rs: Seq<Result<Option<ValueModel>, ErrorModel>>,
) -> Result<ValueModel, ErrorModel> {
    match first_failure(rs, cs, rs.len() as int) {
        Some(k) => Err(rs[k]->Err_0),
        None => Ok(
            ValueModel::Sequence(
                Seq::new(rs.len(), |i: int| (cs[i].0.0, rs[i]->Ok_0)),
            ),
        ),
    }
}

pub proof fn lemma_set_results(
    fs: Seq<(Seq<char>, Tree)>,
    cs: Seq<((Seq<char>, TypeModel, bool), int)>,
)
    ensures
        avn_set_results(fs, cs).len() == cs.len(),
        forall|q: int|
            0 <= q < cs.len() ==> #[trigger] avn_set_results(fs, cs)[q] == avn_decode_component(
                fs,
                cs[q].0,
            ),
    decreases cs.len(),
{
    if cs.len() > 0 {
        lemma_set_results(fs, cs.drop_first());
        assert forall|q: int| 0 <= q < cs.len() implies #[trigger] avn_set_results(fs, cs)[q]
            == avn_decode_component(fs, cs[q].0) by {
            if q > 0 {
                assert(cs.drop_first()[q - 1] == cs[q]);
            }
        }
    }
}

/// Decodes each item as the element type; the first failure is the result.
pub open spec fn avn_decode_items(vs: Seq<Tree>, ty: TypeModel) -> Result<Seq<ValueModel>, ErrorModel>
    decreases ty, vs.len() + 1,
{
    if vs.len() == 0 {
        Ok(Seq::empty())
    } else {
        match avn_decode(vs[0], ty) {
            Ok(x) => match avn_decode_items(vs.drop_first(), ty) {
                Ok(rest) => Ok(seq![x] + rest),
                Err(e) => Err(e),
            },
            Err(e) => Err(e),
        }
    }
}

/// A character of a value name or a type reference: an ASCII letter or
/// digit, `-` or `_`.
pub open spec fn ref_char(c: char) -> bool {
    is_alpha(c) || is_digit(c) || c == '-' || c == '_'
}

/// Where the run of [`ref_char`]s of `t` from `i` ends.
pub open spec fn ref_end(t: Seq<char>, i: int) -> int
    decreases t.len() - i,
{
    if 0 <= i < t.len() && ref_char(t[i]) {
        ref_end(t, i + 1)
    } else {
        i
    }
}

pub proof fn lemma_ref_end(t: Seq<char>, i: int)
    requires
        0 <= i,
    ensures
        i <= ref_end(t, i),
        i <= t.len() ==> ref_end(t, i) <= t.len(),
        forall|k: int| i <= k < ref_end(t, i) ==> ref_char(#[trigger] t[k]),
        0 <= ref_end(t, i) < t.len() ==> !ref_char(t[ref_end(t, i)]),
    decreases t.len() - i,
{
    if 0 <= i < t.len() && ref_char(t[i]) {
        lemma_ref_end(t, i + 1);
    }
}

pub open spec fn lit_assign() -> Seq<char> {
    seq![':', ':', '=']
}

/// The value of an X.680 value assignment `name Type ::= value` (a name
/// starting with a lower-case letter, whitespace, a type reference starting
/// with an upper-case letter, optional whitespace, `::=`): the trimmed text
/// after `::=`. A text that does not start so is kept as it is.
pub open spec fn strip_assignment(t: Seq<char>) -> Seq<char> {
    let e1 = ref_end(t, 1);
    let w1 = skip_ws(t, e1);
    let e2 = ref_end(t, w1 + 1);
    let w2 = skip_ws(t, e2);
    if t.len() >= 1 && 'a' <= t[0] && t[0] <= 'z' && w1 > e1 && w1 < t.len() && 'A' <= t[w1]
        && t[w1] <= 'Z' && has_at(t, w2, lit_assign()) {
        trim(t.subrange(w2 + 3, t.len() as int))
    } else {
        t
    }
}

/// What decoding a text as a type gives.
pub open spec fn avn_decode_text(s: Seq<char>, ty: TypeModel) -> Result<ValueModel, ErrorModel> {
    match parse_value(strip_assignment(trim(s))) {
        Some(t) => avn_decode(t, ty),
        None => Err(ErrorModel::ParserFail),
    }
}

/// Reads typed values off a stack of parsed values.
pub struct Decoder {
    /// Values to decode, next one last.
    stack: Vec<AvnValue>,
}

impl View for Decoder {
    type V = Seq<Tree>;

    closed spec fn view(&self) -> Seq<Tree> {
        trees_view(self.stack@)
    }
}

fn ref_end_exec(t: &[char], i: usize) -> (r: usize)
    requires
        i <= t@.len(),
    ensures
        r == ref_end(t@, i as int),
        i <= r <= t@.len(),
{
    proof {
        lemma_ref_end(t@, i as int);
    }
    let mut k = i;
    while k < t.len()
        invariant
            i <= k <= t@.len(),
            ref_end(t@, i as int) == ref_end(t@, k as int),
        decreases t@.len() - k,
    {
        let c = t[k];
        if !(('a' <= c && c <= 'z') || ('A' <= c && c <= 'Z') || ('0' <= c && c <= '9') || c == '-'
            || c == '_') {
            return k;
        }
        k = k + 1;
    }
    k
}

/// A trimmed text with a leading value assignment `name Type ::=` taken off
/// (see [`strip_assignment`]).
pub fn strip_assignment_exec(t: &[char]) -> (r: Vec<char>)
    ensures
        r@ == strip_assignment(t@),
{
    let n = t.len();
    let mut keep: Vec<char> = Vec::new();
    push_all(&mut keep, t);
    assert(keep@ =~= t@);
    if n < 1 || !('a' <= t[0] && t[0] <= 'z') {
        return keep;
    }
    let e1 = ref_end_exec(t, 1);
    let w1 = skip_ws_exec(t, e1);
    proof {
        lemma_skip_ws(t@, e1 as int);
    }
    if !(w1 > e1 && w1 < n && 'A' <= t[w1] && t[w1] <= 'Z') {
        return keep;
    }
    let e2 = ref_end_exec(t, w1 + 1);
    let w2 = skip_ws_exec(t, e2);
    proof {
        lemma_skip_ws(t@, e2 as int);
        reveal_strlit("::=");
    }
    assert("::="@ =~= lit_assign());
    if !has_at_exec(t, w2, "::=") {
        return keep;
    }
    let rest = slice_range(t, w2 + 3, n);
    let a = skip_ws_exec(rest, 0);
    let b = trim_end_exec(rest, rest.len());
    proof {
        lemma_skip_ws(rest@, 0);
        lemma_trim_end(rest@, rest@.len() as int);
    }
    let out: Vec<char> = if a >= b {
        Vec::new()
    } else {
        let mut o: Vec<char> = Vec::new();
        push_all(&mut o, slice_range(rest, a, b));
        o
    };
    assert(out@ =~= trim(rest@));
    out
}

impl Decoder {
    /// Parses the text, after any value assignment prefix `name Type ::=`
    /// (see [`strip_assignment`]); the decoder then holds its one value.
    pub fn new(input: &str) -> (r: Result<Self, DecodeError>)
        ensures
            r matches Ok(d) ==> parse_value(strip_assignment(trim(input@))) == Some(d@[0]) && d@.len()
                == 1,
            r matches Err(e) ==> parse_value(strip_assignment(trim(input@))) is None && e@
                == ErrorModel::ParserFail && e.codec == Codec::Avn,
            r is Ok <==> parse_value(strip_assignment(trim(input@))) is Some,
    {
        let cs = chars_of(input);
        let a = skip_ws_exec(cs.as_slice(), 0);
        let b = trim_end_exec(cs.as_slice(), cs.len());
        proof {
            lemma_skip_ws(cs@, 0);
            lemma_trim_end(cs@, cs@.len() as int);
        }
        let t: &[char] = if a >= b {
            slice_range(cs.as_slice(), 0, 0)
        } else {
            slice_range(cs.as_slice(), a, b)
        };
        assert(t@ == trim(input@));
        let v = strip_assignment_exec(t);
        match parse_to_value(v.as_slice()) {
            Some(v) => Ok(Self::from_value(v)),
            None => Err(DecodeError { codec: Codec::Avn, kind: DecodeErrorKind::ParserFail }),
        }
    }

    /// A decoder holding one parsed value.
    fn from_value(value: AvnValue) -> (d: Self)
        ensures
            d@ == seq![value@],
    {
        let mut stack: Vec<AvnValue> = Vec::new();
        stack.push(value);
        let d = Decoder { stack };
        proof {
            assert(d.stack@.drop_last() == Seq::<AvnValue>::empty());
            assert(trees_view(d.stack@) == trees_view(Seq::<AvnValue>::empty()).push(value@));
        }
        d
    }

    /// Takes the next value.
    fn pop(&mut self) -> (r: Result<AvnValue, DecodeError>)
        ensures
            r matches Err(e) ==> e.codec == Codec::Avn,
            old(self)@.len() == 0 ==> (r matches Err(e) && e@ == ErrorModel::EndOfInput
                && final(self)@ == old(self)@),
            old(self)@.len() > 0 ==> (r matches Ok(v) && v@ == old(self)@.last() && final(self)@
                == old(self)@.drop_last()),
    {
        proof {
            lemma_trees_view(self.stack@);
        }
        let ghost old_stack = self.stack@;
        match self.stack.pop() {
            Some(v) => {
                proof {
                    assert(old_stack.drop_last() == self.stack@);
                    assert(old_stack.last() == v);
                    lemma_trees_view(self.stack@);
                    lemma_trees_view(old_stack);
                    assert(trees_view(old_stack).last() == v@);
                    assert(trees_view(self.stack@) =~= trees_view(old_stack).drop_last());
                }
                Ok(v)
            },
            None => {
                assert(self.stack@ == old_stack);
                Err(DecodeError { codec: Codec::Avn, kind: DecodeErrorKind::EndOfInput })
            },
        }
    }

    fn push(&mut self, v: AvnValue)
        ensures
            final(self)@ == old(self)@.push(v@),
    {
        let ghost old_stack = self.stack@;
        self.stack.push(v);
        proof {
            assert(self.stack@.drop_last() == old_stack);
        }
    }

    /// Whether the next value is absent (or none is left).
    fn peek_absent(&self) -> (b: bool)
        ensures
            b == (self@.len() == 0 || self@.last() is Absent),
    {
        proof {
            lemma_trees_view(self.stack@);
        }
        if self.stack.len() == 0 {
            true
        } else {
            match &self.stack[self.stack.len() - 1] {
                AvnValue::Absent => true,
                _ => false,
            }
        }
    }

    /// Decodes the next value as `ty` (see [`avn_decode`]).
    pub fn decode_value(&mut self, ty: &AsnType) -> (r: Result<Value, DecodeError>)
        ensures
            r matches Err(e) ==> e.codec == Codec::Avn,
            old(self)@.len() == 0 ==> (r matches Err(e) && e@ == ErrorModel::EndOfInput),
            old(self)@.len() > 0 ==> (match r {
                Ok(v) => avn_decode(old(self)@.last(), ty@) == Ok::<ValueModel, ErrorModel>(v@)
                    && final(self)@ == old(self)@.drop_last(),
                Err(e) => avn_decode(old(self)@.last(), ty@) == Err::<ValueModel, ErrorModel>(e@),
            }),
        decreases ty, 1int,
    {
        let t0 = self.pop()?;
        let t = match t0 {
            AvnValue::Braces(b) => {
                let listed = match ty {
                    AsnType::SequenceOf(_) | AsnType::SetOf(_) => true,
                    _ => false,
                };
                let read = if b.len() >= 1 {
                    if listed {
                        match p_items_exec(b.as_slice()) {
                            Some(vs) => Some(AvnValue::Array(vs)),
                            None => None,
                        }
                    } else {
                        parse_general_exec(b.as_slice())
                    }
                } else {
                    None
                };
                match read {
                    Some(h) => h,
                    None => {
                        return Err(
                            DecodeError { codec: Codec::Avn, kind: DecodeErrorKind::ParserFail },
                        );
                    },
                }
            },
            other => other,
        };
        match ty {
            AsnType::Sequence(_) => self.decode_sequence(t, ty),
            AsnType::SetType(_) => Self::decode_set(t, ty),
            AsnType::SequenceOf(_) | AsnType::SetOf(_) => Self::decode_sequence_of(t, ty),
            AsnType::Choice(_) => self.decode_choice(t, ty),
            _ => decode_leaf(t, ty),
        }
    }

    /// Decodes a SEQUENCE value from its parsed value; the decoder's stack is
    /// back as it was when this succeeds.
    #[verifier::loop_isolation(false)]
    #[verifier::spinoff_prover]
    #[verifier::rlimit(60)]
    fn decode_sequence(&mut self, t: AvnValue, ty: &AsnType) -> (r: Result<Value, DecodeError>)
        requires
            ty is Sequence,
        ensures
            r matches Err(e) ==> e.codec == Codec::Avn,
            match r {
                Ok(v) => avn_decode_plain(t@, ty@) == Ok::<ValueModel, ErrorModel>(v@) && final(self)@
                    == old(self)@,
                Err(e) => avn_decode_plain(t@, ty@) == Err::<ValueModel, ErrorModel>(e@),
            },
        decreases ty, 0int,
    {
        let ghost rest = self@;
        let ghost tv = t@;
        let fts = match ty {
            AsnType::Sequence(fts) => fts,
            _ => {
                assert(false);
                return Err(DecodeError { codec: Codec::Avn, kind: DecodeErrorKind::ParserFail });
            },
        };
        let fs = match t {
            AvnValue::Constructed(fs) => fs,
            other => {
                return Err(type_mismatch(Expected::Sequence, &other));
            },
        };
        proof {
            lemma_pairs_view(fs@);
            lemma_field_types_view(fts@);
        }
        let ghost fsv = pairs_view(fs@);
        let ghost ftv = field_types_view(fts@);
        // component values, first component on top
        let n = fts.len();
        let mut k = n;
        while k > 0
            invariant
                k <= n == fts@.len(),
                self@ == rest + lookups_rev(fsv, ftv, k as int, n as int),
            decreases k,
        {
            k = k - 1;
            let v = lookup_exec(&fs, &fts[k].name);
            self.push(v);
            proof {
                assert(ftv[k as int] == field_type_view(fts@[k as int]));
                assert(lookups_rev(fsv, ftv, k as int, n as int) =~= lookups_rev(
                    fsv,
                    ftv,
                    k + 1,
                    n as int,
                ).push(lookup(fsv, ftv[k as int].0)));
            }
        }
        let mut out: Vec<Field> = Vec::new();
        let mut i: usize = 0;
        proof {
            assert(ftv.skip(0) =~= ftv);
            lemma_fields_view(out@);
            assert(fields_view(out@) =~= Seq::<(Seq<char>, Option<ValueModel>)>::empty());
        }
        while i < n
            invariant
                i <= n == fts@.len(),
                ftv.len() == n,
                forall|q: int| 0 <= q < n ==> #[trigger] ftv[q] == field_type_view(fts@[q]),
                self@ == rest + lookups_rev(fsv, ftv, i as int, n as int),
                avn_decode_fields(fsv, ftv) == match avn_decode_fields(fsv, ftv.skip(i as int)) {
                    Ok(more) => Ok(fields_view(out@) + more),
                    Err(e) => Err::<Seq<(Seq<char>, Option<ValueModel>)>, ErrorModel>(e),
                },
            decreases n - i,
        {
            proof {
                assert(ftv.skip(i as int)[0] == ftv[i as int]);
                assert(ftv.skip(i as int).drop_first() =~= ftv.skip(i + 1));
                assert(lookups_rev(fsv, ftv, i as int, n as int) =~= lookups_rev(
                    fsv,
                    ftv,
                    i + 1,
                    n as int,
                ).push(lookup(fsv, ftv[i as int].0)));
            }
            let ft = &fts[i];
            let value: Option<Value> = if ft.optional && self.peek_absent() {
                let _ = self.pop();
                None
            } else {
                proof {
                    assert(decreases_to!(*ty => fts@[i as int].ty));
                }
                match self.decode_value(&ft.ty) {
                    Ok(x) => Some(x),
                    Err(e) => {
                        return Err(e);
                    },
                }
            };
            let name = copy_string(&ft.name);
            let ghost before = out@;
            out.push(Field { name, value });
            proof {
                assert(out@.drop_last() == before);
                assert(fields_view(out@) == fields_view(before).push(field_view(out@.last())));
                match avn_decode_fields(fsv, ftv.skip(i + 1)) {
                    Ok(more) => {
                        assert(fields_view(before) + (seq![field_view(out@.last())] + more)
                            =~= fields_view(out@) + more);
                    },
                    Err(e) => {},
                }
            }
            i = i + 1;
        }
        proof {
            assert(ftv.skip(n as int) =~= Seq::<(Seq<char>, TypeModel, bool)>::empty());
            assert(fields_view(out@) + Seq::<(Seq<char>, Option<ValueModel>)>::empty()
                =~= fields_view(out@));
            assert(lookups_rev(fsv, ftv, n as int, n as int) =~= Seq::<Tree>::empty());
            assert(self@ =~= rest);
        }
        Ok(Value::Sequence(out))
    }

    /// Decodes a SET value from its parsed value, each component with a
    /// decoder of its own (see [`set_outcome`]): the error of the failed
    /// component that is decoded first is the result.
    #[verifier::loop_isolation(false)]
    #[verifier::spinoff_prover]
    #[verifier::rlimit(60)]
    fn decode_set(t: AvnValue, ty: &AsnType) -> (r: Result<Value, DecodeError>)
        requires
            ty is SetType,
        ensures
            r matches Err(e) ==> e.codec == Codec::Avn,
            match r {
                Ok(v) => avn_decode_plain(t@, ty@) == Ok::<ValueModel, ErrorModel>(v@),
                Err(e) => avn_decode_plain(t@, ty@) == Err::<ValueModel, ErrorModel>(e@),
            },
        decreases ty, 0int,
    {
        let cs = match ty {
            AsnType::SetType(cs) => cs,
            _ => {
                assert(false);
                return Err(DecodeError { codec: Codec::Avn, kind: DecodeErrorKind::ParserFail });
            },
        };
        let fs = match t {
            AvnValue::Constructed(fs) => fs,
            other => {
                return Err(type_mismatch(Expected::SetType, &other));
            },
        };
        proof {
            lemma_pairs_view(fs@);
            lemma_set_components_view(cs@);
        }
        let ghost fsv = pairs_view(fs@);
        let ghost csv = set_components_view(cs@);
        let ghost rs = avn_set_results(fsv, csv);
        proof {
            lemma_set_results(fsv, csv);
        }
        let n = cs.len();
        let mut out: Vec<Field> = Vec::new();
        let mut failed: Option<DecodeError> = None;
        let mut best_idx: usize = 0;
        let mut best_key: u64 = 0;
        let mut i: usize = 0;
        while i < n
            invariant
                i <= n == cs@.len(),
                rs.len() == n,
                csv.len() == n,
                forall|q: int| 0 <= q < n ==> #[trigger] csv[q] == set_component_view(cs@[q]),
                forall|q: int| 0 <= q < n ==> #[trigger] rs[q] == avn_decode_component(fsv, csv[q].0),
                match failed {
                    None => first_failure(rs, csv, i as int) is None && out@.len() == i && (forall|
                        q: int,
                    | 0 <= q < i ==> #[trigger] field_view(out@[q]) == (csv[q].0.0, rs[q]->Ok_0)
                        && rs[q] is Ok),
                    Some(e) => first_failure(rs, csv, i as int) == Some(best_idx as int) && best_idx
                        < i && best_key as int == csv[best_idx as int].1 && rs[best_idx as int]
                        == Err::<Option<ValueModel>, ErrorModel>(e@) && e.codec == Codec::Avn,
                },
            decreases n - i,
        {
            let c = &cs[i];
            let ft = &c.field;
            let v = lookup_exec(&fs, &ft.name);
            let absent = match &v {
                AvnValue::Absent => true,
                _ => false,
            };
            let res: Result<Option<Value>, DecodeError> = if ft.optional && absent {
                Ok(None)
            } else {
                proof {
                    assert(decreases_to!(*ty => cs@[i as int].field.ty));
                }
                let mut d = Decoder::from_value(v);
                match d.decode_value(&ft.ty) {
                    Ok(x) => Ok(Some(x)),
                    Err(e) => Err(e),
                }
            };
            proof {
                assert(csv[i as int] == set_component_view(cs@[i as int]));
                assert(rs[i as int] == avn_decode_component(fsv, csv[i as int].0));
            }
            match res {
                Ok(x) => {
                    if failed.is_none() {
                        let name = copy_string(&ft.name);
                        let ghost before = out@;
                        out.push(Field { name, value: x });
                        proof {
                            assert forall|q: int| 0 <= q < i + 1 implies #[trigger] field_view(out@[q])
                                == (csv[q].0.0, rs[q]->Ok_0) && rs[q] is Ok by {
                                if q < i {
                                    assert(out@[q] == before[q]);
                                }
                            }
                        }
                    }
                },
                Err(e) => {
                    let key = order_key_exec(c);
                    let take = match &failed {
                        None => true,
                        Some(_) => key < best_key,
                    };
                    if take {
                        failed = Some(e);
                        best_idx = i;
                        best_key = key;
                    }
                },
            }
            i = i + 1;
        }
        match failed {
            Some(e) => Err(e),
            None => {
                proof {
                    lemma_fields_view(out@);
                    assert(fields_view(out@) =~= Seq::new(
                        rs.len(),
                        |q: int| (csv[q].0.0, rs[q]->Ok_0),
                    ));
                }
                Ok(Value::Sequence(out))
            },
        }
    }

    /// Decodes a SEQUENCE OF or SET OF value, each item with a decoder of its own.
    #[verifier::loop_isolation(false)]
    fn decode_sequence_of(t: AvnValue, ty: &AsnType) -> (r: Result<Value, DecodeError>)
        requires
            ty is SequenceOf || ty is SetOf,
        ensures
            r matches Err(e) ==> e.codec == Codec::Avn,
            match r {
                Ok(v) => avn_decode_plain(t@, ty@) == Ok::<ValueModel, ErrorModel>(v@),
                Err(e) => avn_decode_plain(t@, ty@) == Err::<ValueModel, ErrorModel>(e@),
            },
        decreases ty, 0int,
    {
        let ghost tv = t@;
        let (elem, is_set) = match ty {
            AsnType::SequenceOf(elem) => (elem, false),
            AsnType::SetOf(elem) => (elem, true),
            _ => {
                assert(false);
                return Err(DecodeError { codec: Codec::Avn, kind: DecodeErrorKind::ParserFail });
            },
        };
        let items: Vec<AvnValue> = match t {
            AvnValue::Array(vs) => vs,
            AvnValue::Constructed(fs) => pair_values(fs),
            other => {
                return Err(type_mismatch(
                    if is_set {
                        Expected::SetOf
                    } else {
                        Expected::SequenceOf
                    },
                    &other,
                ));
            },
        };
        proof {
            lemma_trees_view(items@);
        }
        let ghost iv = trees_view(items@);
        let mut out: Vec<Value> = Vec::new();
        let mut i: usize = 0;
        proof {
            assert(iv.skip(0) =~= iv);
            lemma_values_view(out@);
            assert(values_view(out@) =~= Seq::<ValueModel>::empty());
        }
        while i < items.len()
            invariant
                i <= items@.len(),
                iv == trees_view(items@),
                iv.len() == items@.len(),
                forall|q: int| 0 <= q < items@.len() ==> #[trigger] iv[q] == items@[q]@,
                avn_decode_items(iv, (**elem)@) == match avn_decode_items(
                    iv.skip(i as int),
                    (**elem)@,
                ) {
                    Ok(more) => Ok(values_view(out@) + more),
                    Err(e) => Err::<Seq<ValueModel>, ErrorModel>(e),
                },
            decreases items@.len() - i,
        {
            proof {
                assert(iv.skip(i as int)[0] == iv[i as int]);
                assert(iv.skip(i as int).drop_first() =~= iv.skip(i + 1));
                assert(decreases_to!(*ty => **elem));
            }
            let mut d = Decoder::from_value(clone_value(&items[i]));
            match d.decode_value(elem) {
                Ok(x) => {
                    let ghost before = out@;
                    let ghost xv = x@;
                    out.push(x);
                    proof {
                        assert(out@.drop_last() == before);
                        assert(values_view(out@) == values_view(before).push(xv));
                        match avn_decode_items(iv.skip(i + 1), (**elem)@) {
                            Ok(more) => {
                                assert(values_view(before) + (seq![xv] + more) =~= values_view(out@)
                                    + more);
                            },
                            Err(e) => {},
                        }
                    }
                },
                Err(e) => {
                    return Err(e);
                },
            }
            i = i + 1;
        }
        proof {
            assert(iv.skip(items@.len() as int) =~= Seq::<Tree>::empty());
            assert(values_view(out@) + Seq::<ValueModel>::empty() =~= values_view(out@));
        }
        if is_set {
            Ok(Value::SetOf(out))
        } else {
            Ok(Value::SequenceOf(out))
        }
    }

    /// Decodes a CHOICE value: its identifier picks the alternative, whose
    /// type then decodes the inner value.
    fn decode_choice(&mut self, t: AvnValue, ty: &AsnType) -> (r: Result<Value, DecodeError>)
        requires
            ty is Choice,
        ensures
            r matches Err(e) ==> e.codec == Codec::Avn,
            match r {
                Ok(v) => avn_decode_plain(t@, ty@) == Ok::<ValueModel, ErrorModel>(v@) && final(self)@
                    == old(self)@,
                Err(e) => avn_decode_plain(t@, ty@) == Err::<ValueModel, ErrorModel>(e@),
            },
        decreases ty, 0int,
    {
        let ghost rest = self@;
        let alts = match ty {
            AsnType::Choice(alts) => alts,
            _ => {
                assert(false);
                return Err(DecodeError { codec: Codec::Avn, kind: DecodeErrorKind::ParserFail });
            },
        };
        let (id, inner) = match t {
            AvnValue::Choice(id, inner) => (id, inner),
            other => {
                return Err(type_mismatch(Expected::Choice, &other));
            },
        };
        proof {
            lemma_alternatives_view(alts@);
        }
        match find_alt_exec(alts, &id) {
            Some(i) => {
                let ghost inner_v = (*inner)@;
                self.push(*inner);
                proof {
                    assert(self@.last() == inner_v);
                    assert(self@.drop_last() == rest);
                    assert(decreases_to!(*ty => alts@[i as int].ty));
                    assert(alternatives_view(alts@)[i as int] == alternative_view(alts@[i as int]));
                }
                match self.decode_value(&alts[i].ty) {
                    Ok(v) => Ok(Value::Choice(copy_string(&alts[i].name), Box::new(v))),
                    Err(e) => Err(e),
                }
            },
            None => Err(DecodeError {
                codec: Codec::Avn,
                kind: DecodeErrorKind::InvalidChoiceVariant { variant: id },
            }),
        }
    }
}

/// Decodes a parsed value as a type that has no components.
fn decode_leaf(t: AvnValue, ty: &AsnType) -> (r: Result<Value, DecodeError>)
    requires
        !(ty is Sequence || ty is SetType || ty is SequenceOf || ty is SetOf || ty is Choice),
    ensures
        r matches Err(e) ==> e.codec == Codec::Avn,
        match r {
            Ok(v) => avn_decode_plain(t@, ty@) == Ok::<ValueModel, ErrorModel>(v@),
            Err(e) => avn_decode_plain(t@, ty@) == Err::<ValueModel, ErrorModel>(e@),
        },
{
    match ty {
        AsnType::Bool => match t {
            AvnValue::Bool(b) => Ok(Value::Bool(b)),
            other => Err(type_mismatch(Expected::Boolean, &other)),
        },
        AsnType::Integer { min, max } => match t {
            AvnValue::Integer(s) => {
                let cs = chars_of(s.as_str());
                match parse_signed_exec(cs.as_slice(), i128::MIN, i128::MAX) {
                    Some(n) => if *min <= n && n <= *max {
                        Ok(Value::Integer(n))
                    } else {
                        Err(DecodeError { codec: Codec::Avn, kind: DecodeErrorKind::IntegerOverflow })
                    },
                    None => Err(DecodeError { codec: Codec::Avn, kind: DecodeErrorKind::ParserFail }),
                }
            },
            other => Err(type_mismatch(Expected::Integer, &other)),
        },
        AsnType::Null => match t {
            AvnValue::Null => Ok(Value::Null),
            other => Err(type_mismatch(Expected::Null, &other)),
        },
        AsnType::Real => match t {
            AvnValue::Real(r) => Ok(Value::Real(r)),
            AvnValue::Integer(s) => Ok(Value::Real(RealValue::Numeral(s))),
            other => Err(type_mismatch(Expected::Real, &other)),
        },
        AsnType::BitString => match t {
            AvnValue::BitString(b) => Ok(Value::BitString(b)),
            AvnValue::Bytes(b) => Ok(Value::BitString(unpack(b.as_slice()))),
            other => Err(type_mismatch(Expected::BitString, &other)),
        },
        AsnType::OctetString => match t {
            AvnValue::Bytes(b) => Ok(Value::OctetString(b)),
            other => Err(type_mismatch(Expected::OctetString, &other)),
        },
        AsnType::ObjectIdentifier => match t {
            AvnValue::Oid(a) => if oid_valid_exec(a.as_slice()) {
                Ok(Value::ObjectIdentifier(a))
            } else {
                Err(DecodeError { codec: Codec::Avn, kind: DecodeErrorKind::InvalidOid })
            },
            other => Err(type_mismatch(Expected::ObjectIdentifier, &other)),
        },
        AsnType::Text(kind) => match t {
            AvnValue::String(s) => {
                let cs = chars_of(s.as_str());
                if all_permitted_exec(*kind, cs.as_slice()) {
                    Ok(Value::Text(*kind, s))
                } else {
                    Err(DecodeError {
                        codec: Codec::Avn,
                        kind: DecodeErrorKind::StringConversionFailed { kind: *kind },
                    })
                }
            },
            other => Err(type_mismatch(Expected::String, &other)),
        },
        AsnType::Enumerated(ids) => match t {
            AvnValue::Identifier(s) => {
                if contains_string(ids, &s) {
                    Ok(Value::Enumerated(s))
                } else {
                    Err(DecodeError {
                        codec: Codec::Avn,
                        kind: DecodeErrorKind::InvalidEnumDiscriminant { discriminant: s },
                    })
                }
            },
            other => Err(type_mismatch(Expected::Enumerated, &other)),
        },
        _ => {
            assert(false);
            Err(DecodeError { codec: Codec::Avn, kind: DecodeErrorKind::ParserFail })
        },
    }
}

/// The values looked up for components `k..n`, last one first.
pub open spec fn lookups_rev(
    fsv: Seq<(Seq<char>, Tree)>,
    ftv: Seq<(Seq<char>, TypeModel, bool)>,
    k: int,
    n: int,
) -> Seq<Tree>
    decreases n - k,
{
    if k >= n {
        Seq::empty()
    } else {
        lookups_rev(fsv, ftv, k + 1, n).push(lookup(fsv, ftv[k].0))
    }
}

/// A type-mismatch error naming what was found.
pub(crate) fn type_mismatch(expected: Expected, t: &AvnValue) -> (e: DecodeError)
    ensures
        e.codec == Codec::Avn,
        e@ == mismatch(expected, t@),
        e.codec == Codec::Avn,
{
    let found = match t {
        AvnValue::Bool(_) => Found::Bool,
        AvnValue::Integer(_) => Found::Integer,
        AvnValue::Real(_) => Found::Real,
        AvnValue::Null => Found::Null,
        AvnValue::String(_) => Found::String,
        AvnValue::Bytes(_) => Found::Bytes,
        AvnValue::BitString(_) => Found::BitString,
        AvnValue::Oid(_) => Found::Oid,
        AvnValue::Identifier(_) => Found::Identifier,
        AvnValue::Constructed(_) => Found::Constructed,
        AvnValue::Array(_) => Found::Array,
        AvnValue::Choice(_, _) => Found::Choice,
        AvnValue::Absent => Found::Absent,
        AvnValue::Braces(_) => Found::Array,
    };
    DecodeError { codec: Codec::Avn, kind: DecodeErrorKind::TypeMismatch { expected, found } }
}

/// A copy of a string.
pub(crate) fn copy_string(s: &String) -> (r: String)
    ensures
        r@ == s@,
{
    s.clone()
}

/// Whether the identifiers hold `s`.
pub(crate) fn contains_string(ids: &Vec<String>, s: &String) -> (b: bool)
    ensures
        b == ids.deep_view().contains(s@),
{
    let mut i: usize = 0;
    while i < ids.len()
        invariant
            i <= ids@.len(),
            forall|q: int| 0 <= q < i ==> ids@[q]@ != s@,
        decreases ids@.len() - i,
    {
        if ids[i] == *s {
            assert(ids.deep_view()[i as int] == s@);
            return true;
        }
        i = i + 1;
    }
    assert forall|q: int| 0 <= q < ids.deep_view().len() implies ids.deep_view()[q] != s@ by {
        assert(ids.deep_view()[q] == ids@[q]@);
    }
    false
}

/// The first alternative whose identifier equals `id` up to ASCII case.
pub(crate) fn find_alt_exec(alts: &Vec<Alternative>, id: &String) -> (r: Option<usize>)
    ensures
        r matches Some(i) ==> i < alts@.len() && find_alt(alternatives_view(alts@), id@) == Some(
            i as int,
        ),
        r is None ==> find_alt(alternatives_view(alts@), id@) is None,
{
    proof {
        lemma_alternatives_view(alts@);
    }
    let ghost av = alternatives_view(alts@);
    let idc = chars_of(id.as_str());
    let mut i: usize = 0;
    while i < alts.len()
        invariant
            i <= alts@.len(),
            av == alternatives_view(alts@),
            av.len() == alts@.len(),
            forall|q: int| 0 <= q < alts@.len() ==> #[trigger] av[q] == alternative_view(alts@[q]),
            idc@ == id@,
            find_alt(av.take(i as int), id@) is None,
        decreases alts@.len() - i,
    {
        let name = chars_of(alts[i].name.as_str());
        proof {
            assert(av.take(i + 1).drop_last() =~= av.take(i as int));
        }
        if eq_ignore_ascii_case_exec(name.as_slice(), idc.as_slice()) {
            proof {
                lemma_find_alt_prefix(av, i + 1, i as int, id@);
            }
            return Some(i);
        }
        i = i + 1;
    }
    proof {
        assert(av.take(alts@.len() as int) =~= av);
    }
    None
}

/// Once found in a prefix, the first matching alternative stays the answer.
pub proof fn lemma_find_alt_prefix(av: Seq<(Seq<char>, TypeModel)>, k: int, i: int, id: Seq<char>)
    requires
        0 <= i < k <= av.len(),
        find_alt(av.take(i), id) is None,
        eq_ignore_ascii_case(av[i].0, id),
    ensures
        find_alt(av.take(k), id) == Some(i),
        find_alt(av, id) == Some(i),
    decreases av.len() - k,
{
    lemma_find_alt_up(av, i + 1, i, id);
    lemma_find_alt_up(av, k, i, id);
    lemma_find_alt_up(av, av.len() as int, i, id);
    assert(av.take(av.len() as int) =~= av);
}

proof fn lemma_find_alt_up(av: Seq<(Seq<char>, TypeModel)>, k: int, i: int, id: Seq<char>)
    requires
        0 <= i < k <= av.len(),
        find_alt(av.take(i), id) is None,
        eq_ignore_ascii_case(av[i].0, id),
    ensures
        find_alt(av.take(k), id) == Some(i),
    decreases k - i,
{
    if k == i + 1 {
        assert(av.take(k).drop_last() =~= av.take(i));
    } else {
        lemma_find_alt_up(av, k - 1, i, id);
        assert(av.take(k).drop_last() =~= av.take(k - 1));
    }
}

/// The value of the last component named `name`, or `Absent`.
fn lookup_exec(fs: &Vec<(String, AvnValue)>, name: &String) -> (r: AvnValue)
    ensures
        r@ == lookup(pairs_view(fs@), name@),
{
    proof {
        lemma_pairs_view(fs@);
    }
    let ghost pv = pairs_view(fs@);
    let mut k = fs.len();
    assert(pv.take(k as int) =~= pv);
    while k > 0
        invariant
            k <= fs@.len(),
            pv == pairs_view(fs@),
            pv.len() == fs@.len(),
            forall|q: int| 0 <= q < fs@.len() ==> #[trigger] pv[q] == (fs@[q].0@, fs@[q].1@),
            lookup(pv, name@) == lookup(pv.take(k as int), name@),
        decreases k,
    {
        proof {
            assert(pv.take(k as int).drop_last() =~= pv.take(k - 1));
        }
        if fs[k - 1].0 == *name {
            return clone_value(&fs[k - 1].1);
        }
        k = k - 1;
    }
    AvnValue::Absent
}

/// The values of the components, in order.
fn pair_values(fs: Vec<(String, AvnValue)>) -> (r: Vec<AvnValue>)
    ensures
        trees_view(r@) == pairs_view(fs@).map_values(|p: (Seq<char>, Tree)| p.1),
{
    proof {
        lemma_pairs_view(fs@);
    }
    let ghost pv = pairs_view(fs@);
    let mut out: Vec<AvnValue> = Vec::new();
    let mut src = fs;
    let ghost all = src@;
    // take the components from the back, then restore their order
    let mut rev: Vec<AvnValue> = Vec::new();
    while src.len() > 0
        invariant
            src@ == all.take(src@.len() as int),
            src@.len() <= all.len(),
            rev@.len() == all.len() - src@.len(),
            forall|q: int| 0 <= q < rev@.len() ==> #[trigger] rev@[q]@ == all[all.len() - 1 - q].1@,
        decreases src@.len(),
    {
        let ghost before = src@;
        let (_, v) = src.pop().unwrap();
        proof {
            assert(src@ =~= all.take(src@.len() as int));
        }
        rev.push(v);
    }
    while rev.len() > 0
        invariant
            rev@.len() + out@.len() == all.len(),
            forall|q: int| 0 <= q < rev@.len() ==> #[trigger] rev@[q]@ == all[all.len() - 1 - q].1@,
            forall|q: int| 0 <= q < out@.len() ==> #[trigger] out@[q]@ == all[q].1@,
        decreases rev@.len(),
    {
        let v = rev.pop().unwrap();
        out.push(v);
    }
    proof {
        lemma_trees_view(out@);
        assert(trees_view(out@) =~= pv.map_values(|p: (Seq<char>, Tree)| p.1));
    }
    out
}

/// A copy of a parsed value.
#[verifier::loop_isolation(false)]
#[verifier::spinoff_prover]
fn clone_value(v: &AvnValue) -> (r: AvnValue)
    ensures
        r@ == v@,
    decreases v,
{
    match v {
        AvnValue::Bool(b) => AvnValue::Bool(*b),
        AvnValue::Integer(s) => AvnValue::Integer(copy_string(s)),
        AvnValue::Real(r) => AvnValue::Real(clone_real(r)),
        AvnValue::Null => AvnValue::Null,
        AvnValue::String(s) => AvnValue::String(copy_string(s)),
        AvnValue::Bytes(b) => AvnValue::Bytes(b.clone()),
        AvnValue::BitString(b) => AvnValue::BitString(b.clone()),
        AvnValue::Oid(a) => AvnValue::Oid(a.clone()),
        AvnValue::Identifier(s) => AvnValue::Identifier(copy_string(s)),
        AvnValue::Constructed(fs) => {
            let mut out: Vec<(String, AvnValue)> = Vec::new();
            let mut i: usize = 0;
            while i < fs.len()
                invariant
                    i <= fs@.len(),
                    out@.len() == i,
                    forall|q: int| 0 <= q < i ==> #[trigger] out@[q].0@ == fs@[q].0@ && out@[q].1@ == fs@[q].1@,
                decreases fs@.len() - i,
            {
                proof {
                    assert(decreases_to!(*v => fs@[i as int].1));
                }
                let c = clone_value(&fs[i].1);
                out.push((copy_string(&fs[i].0), c));
                i = i + 1;
            }
            proof {
                lemma_pairs_view(out@);
                lemma_pairs_view(fs@);
                assert(pairs_view(out@) =~= pairs_view(fs@));
            }
            AvnValue::Constructed(out)
        },
        AvnValue::Array(vs) => {
            let mut out: Vec<AvnValue> = Vec::new();
            let mut i: usize = 0;
            while i < vs.len()
                invariant
                    i <= vs@.len(),
                    out@.len() == i,
                    forall|q: int| 0 <= q < i ==> #[trigger] out@[q]@ == vs@[q]@,
                decreases vs@.len() - i,
            {
                proof {
                    assert(decreases_to!(*v => vs@[i as int]));
                }
                let c = clone_value(&vs[i]);
                out.push(c);
                i = i + 1;
            }
            proof {
                lemma_trees_view(out@);
                lemma_trees_view(vs@);
                assert(trees_view(out@) =~= trees_view(vs@));
            }
            AvnValue::Array(out)
        },
        AvnValue::Choice(id, inner) => AvnValue::Choice(copy_string(id), Box::new(clone_value(inner))),
        AvnValue::Absent => AvnValue::Absent,
        AvnValue::Braces(b) => {
            let mut out: Vec<char> = Vec::new();
            push_all(&mut out, b.as_slice());
            assert(out@ =~= b@);
            AvnValue::Braces(out)
        },
    }
}

fn clone_real(r: &RealValue) -> (c: RealValue)
    ensures
        c@ == r@,
{
    match r {
        RealValue::PlusInfinity => RealValue::PlusInfinity,
        RealValue::MinusInfinity => RealValue::MinusInfinity,
        RealValue::Zero => RealValue::Zero,
        RealValue::Numeral(t) => RealValue::Numeral(copy_string(t)),
        RealValue::Tuple { mantissa, base, exponent } => RealValue::Tuple {
            mantissa: *mantissa,
            base: *base,
            exponent: *exponent,
        },
    }
}

/// The bits of the bytes, eight a byte, high bit first.
pub(crate) fn unpack(b: &[u8]) -> (r: Vec<bool>)
    ensures
        r@ == unpack_bytes(b@),
{
    let mut out: Vec<bool> = Vec::new();
    let mut k: usize = 0;
    while k < b.len()
        invariant
            k <= b@.len(),
            out@.len() == 8 * k,
            forall|q: int| 0 <= q < 8 * k ==> #[trigger] out@[q] == unpack_bytes(b@)[q],
        decreases b@.len() - k,
    {
        let byte = b[k];
        let mut div: u32 = 128;
        proof {
            reveal_with_fuel(pow2_nat, 8);
        }
        let mut j: usize = 0;
        while j < 8
            invariant
                k < b@.len(),
                byte == b@[k as int],
                j <= 8,
                out@.len() == 8 * k + j,
                div == pow2_nat((7 - j) as nat) || (j == 8 && div == 0),
                forall|q: int| 0 <= q < 8 * k + j ==> #[trigger] out@[q] == unpack_bytes(b@)[q],
            decreases 8 - j,
        {
            proof {
                crate::avn::enc::lemma_pow2_pos((7 - j) as nat);
                let q = 8 * k + j;
                assert(q / 8 == k as int) by (nonlinear_arith)
                    requires
                        q == 8 * k + j,
                        j < 8,
                ;
                assert(q % 8 == j as int) by (nonlinear_arith)
                    requires
                        q == 8 * k + j,
                        j < 8,
                ;
                if j < 7 {
                    assert(pow2_nat((7 - j) as nat) == 2 * pow2_nat((7 - j - 1) as nat));
                }
            }
            out.push(((byte as u32) / div) % 2 == 1);
            div = div / 2;
            j = j + 1;
        }
        k = k + 1;
    }
    assert(out@ =~= unpack_bytes(b@));
    out
}

} // verus!
