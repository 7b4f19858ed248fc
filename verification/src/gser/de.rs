//! Decoding the Generic String Encoding Rules (RFC 3641).
//!
//! A constructed value is cut into the texts of its parts (the components of
//! a SEQUENCE, the items of a SEQUENCE OF, the value of a CHOICE), and each
//! part is decoded from its own text.
use vstd::prelude::*;

use crate::avn::de::{
    after_comma, arc_at, arc_at_exec, bin_end, contains_string, copy_string, digit_end,
    digit_end_exec, find_alt, find_alt_exec, has_at, has_at_exec, hex_end, ident_char,
    ident_tail_end, lemma_after_comma, lemma_bin_end, lemma_digit_end, lemma_hex_end,
    lemma_ident_tail_end, lemma_value_end, lit_false, lit_minus_inf, lit_null, lit_plus_inf,
    lit_true, p_bin, p_bin_exec, p_hex, p_hex_exec, p_string, p_string_exec, signed_end,
    signed_end_exec, text_value, unpack, unpack_bytes, value_end, value_end_exec, first_failure,
    set_outcome,
};
use crate::avn::enc::{parse_signed, parse_signed_exec, slice_range, texts_of};
use crate::model::{
    all_permitted, all_permitted_exec, alternative_view, alternatives_view, field_type_view,
    field_types_view, field_view, fields_view, lemma_alternatives_view, lemma_field_types_view,
    lemma_fields_view, lemma_values_view, oid_valid, oid_valid_exec, values_view, Alternative,
    lemma_set_components_view, set_component_view, set_components_view, order_key_exec,
    AsnType, Codec, DecodeError, DecodeErrorKind, ErrorModel, Field, FieldType, RealModel,
    RealValue, TypeModel, Value, ValueModel,
};
use crate::text::{
    char_is_alphanumeric, chars_of, is_digit, is_multispace, is_ws, lemma_skip_ms,
    lemma_skip_ws, lemma_trim_end, push_all, skip_ms, skip_ms_exec, skip_ws, skip_ws_exec, trim,
    trim_end, trim_end_exec,
};

verus! {

// ----------------------------------------------------------------------------
// The grammar
// ----------------------------------------------------------------------------
/// The identifier at `i` in GSER: a non-empty run of letters, digits, `-` and `_`.
pub open spec fn g_ident_end(t: Seq<char>, i: int) -> int {
    ident_tail_end(t, i)
}

/// An OBJECT IDENTIFIER in dotted decimal at the start of `t`: the first arc,
/// then as many `.arc` as follow.
pub open spec fn g_oid(t: Seq<char>) -> Option<Seq<u32>> {
    let j = digit_end(t, 0);
    match arc_at(t, 0, j) {
        Some(a) => Some(seq![a] + g_oid_more(t, j)),
        None => None,
    }
}

/// The `.arc` parts from `j` on.
pub open spec fn g_oid_more(t: Seq<char>, j: int) -> Seq<u32>
    decreases t.len() - j,
{
    if 0 <= j < t.len() && t[j] == '.' {
        let k = digit_end(t, j + 1);
        proof {
            lemma_digit_end(t, j + 1);
        }
        match arc_at(t, j + 1, k) {
            Some(a) => seq![a] + g_oid_more(t, k),
            None => Seq::empty(),
        }
    } else {
        Seq::empty()
    }
}

/// The end of a decimal numeral at the start of `t`: `-`, digits, `.digits`,
/// an exponent, each part optional but the first digits; 0 when there is none.
pub open spec fn g_numeral_end(t: Seq<char>) -> int {
    let a = if 0 < t.len() && t[0] == '-' {
        1int
    } else {
        0int
    };
    let b = digit_end(t, a);
    let c = if b < t.len() && t[b] == '.' && digit_end(t, b + 1) > b + 1 {
        digit_end(t, b + 1)
    } else {
        b
    };
    let e1 = if c + 1 < t.len() && (t[c + 1] == '+' || t[c + 1] == '-') {
        c + 2
    } else {
        c + 1
    };
    let d = if c < t.len() && (t[c] == 'E' || t[c] == 'e') && digit_end(t, e1) > e1 {
        digit_end(t, e1)
    } else {
        c
    };
    if b > a {
        d
    } else {
        0
    }
}

/// A REAL value at the start of `t`.
pub open spec fn g_real(t: Seq<char>) -> Option<RealModel> {
    if has_at(t, 0, lit_plus_inf()) {
        Some(RealModel::PlusInfinity)
    } else if has_at(t, 0, lit_minus_inf()) {
        Some(RealModel::MinusInfinity)
    } else if g_numeral_end(t) > 0 {
        Some(RealModel::Numeral(t.subrange(0, g_numeral_end(t))))
    } else {
        None
    }
}

/// One `name value` of a SEQUENCE from `pos`: the identifier, the trimmed
/// value text, and where the value ended.
pub open spec fn g_field(t: Seq<char>, pos: int) -> Option<(Seq<char>, Seq<char>, int)> {
    let p = skip_ws(t, pos);
    let q = g_ident_end(t, p);
    let r = skip_ws(t, q);
    let e = r + value_end(t.subrange(r, t.len() as int), 0, 0, false);
    if 0 <= pos <= t.len() && q > p {
        Some((t.subrange(p, q), trim(t.subrange(r, e)), e))
    } else {
        None
    }
}

/// The `, name value` parts from `e` up to the closing `}`.
pub open spec fn g_fields_more(t: Seq<char>, e: int) -> Option<Seq<(Seq<char>, Seq<char>)>>
    decreases t.len() - e,
{
    if e < 0 || e > t.len() {
        None
    } else {
        let s = skip_ws(t, e);
        proof {
            lemma_skip_ws(t, e);
        }
        if s < t.len() && t[s] == ',' {
            match g_field(t, s + 1) {
                Some((name, value, e2)) => {
                    proof {
                        lemma_g_field(t, s + 1);
                    }
                    match g_fields_more(t, e2) {
                        Some(rest) => Some(seq![(name, value)] + rest),
                        None => None,
                    }
                },
                None => None,
            }
        } else if s < t.len() && t[s] == '}' {
            Some(Seq::empty())
        } else {
            None
        }
    }
}

/// The components of a SEQUENCE value at the start of `t`: `{`, then `name
/// value` parts apart by commas, up to `}`.
pub open spec fn g_seq_content(t: Seq<char>) -> Option<Seq<(Seq<char>, Seq<char>)>> {
    let p = skip_ws(t, 1);
    if t.len() >= 1 && t[0] == '{' {
        if p < t.len() && t[p] == '}' {
            Some(Seq::empty())
        } else {
            match g_field(t, p) {
                Some((name, value, e)) => match g_fields_more(t, e) {
                    Some(rest) => Some(seq![(name, value)] + rest),
                    None => None,
                },
                None => None,
            }
        }
    } else {
        None
    }
}

/// One item of a SEQUENCE OF from `pos`: the trimmed value text and where it ended.
pub open spec fn g_single(t: Seq<char>, pos: int) -> (Seq<char>, int) {
    let p = skip_ws(t, pos);
    let e = p + value_end(t.subrange(p, t.len() as int), 0, 0, false);
    (trim(t.subrange(p, e)), e)
}

/// The `, value` parts from `e` up to the closing `}`.
pub open spec fn g_items_more(t: Seq<char>, e: int) -> Option<Seq<Seq<char>>>
    decreases t.len() - e,
{
    if e < 0 || e > t.len() {
        None
    } else {
        let s = skip_ws(t, e);
        proof {
            lemma_skip_ws(t, e);
        }
        if s < t.len() && t[s] == ',' {
            proof {
                lemma_g_single(t, s + 1);
            }
            match g_items_more(t, g_single(t, s + 1).1) {
                Some(rest) => Some(seq![g_single(t, s + 1).0] + rest),
                None => None,
            }
        } else if s < t.len() && t[s] == '}' {
            Some(Seq::empty())
        } else {
            None
        }
    }
}

/// The items of a SEQUENCE OF value at the start of `t`: `{`, then value
/// texts apart by commas, up to `}`.
pub open spec fn g_seqof_content(t: Seq<char>) -> Option<Seq<Seq<char>>> {
    let p = skip_ws(t, 1);
    if t.len() >= 1 && t[0] == '{' {
        if p < t.len() && t[p] == '}' {
            Some(Seq::empty())
        } else {
            match g_items_more(t, g_single(t, p).1) {
                Some(rest) => Some(seq![g_single(t, p).0] + rest),
                None => None,
            }
        }
    } else {
        None
    }
}

/// `identifier: value` at the start of `t`: the identifier and the trimmed value text.
pub open spec fn g_choice(t: Seq<char>) -> Option<(Seq<char>, Seq<char>)> {
    let i = skip_ms(t, 0);
    let q = g_ident_end(t, i);
    let r = skip_ms(t, q);
    let u = skip_ms(t, r + 1);
    if q > i && 0 <= r < t.len() && t[r] == ':' && u <= t.len() {
        Some((t.subrange(i, q), trim(t.subrange(u, t.len() as int))))
    } else {
        None
    }
}

pub proof fn lemma_g_field(t: Seq<char>, pos: int)
    requires
        g_field(t, pos) is Some,
    ensures
        pos < g_field(t, pos)->Some_0.2 <= t.len(),
{
    let p = skip_ws(t, pos);
    lemma_skip_ws(t, pos);
    lemma_ident_tail_end(t, p);
    let q = g_ident_end(t, p);
    lemma_skip_ws(t, q);
    let r = skip_ws(t, q);
    lemma_value_end(t.subrange(r, t.len() as int), 0, 0, false);
}

pub proof fn lemma_g_single(t: Seq<char>, pos: int)
    requires
        0 <= pos <= t.len(),
    ensures
        pos <= g_single(t, pos).1 <= t.len(),
{
    let p = skip_ws(t, pos);
    lemma_skip_ws(t, pos);
    lemma_value_end(t.subrange(p, t.len() as int), 0, 0, false);
}

// ----------------------------------------------------------------------------
// Typed decoding
// ----------------------------------------------------------------------------
/// The text of the last component with this identifier, empty when none has it.
pub open spec fn lookup_text(fs: Seq<(Seq<char>, Seq<char>)>, name: Seq<char>) -> Seq<char>
    decreases fs.len(),
{
    if fs.len() == 0 {
        Seq::empty()
    } else if fs.last().0 == name {
        fs.last().1
    } else {
        lookup_text(fs.drop_last(), name)
    }
}

/// The component texts of a SEQUENCE in the order of its type.
pub open spec fn component_texts(
    fs: Seq<(Seq<char>, Seq<char>)>,
    fts: Seq<(Seq<char>, TypeModel, bool)>,
) -> Seq<Seq<char>> {
    Seq::new(fts.len(), |i: int| lookup_text(fs, fts[i].0))
}

/// Decoding a trimmed text as a type that has no components.
pub open spec fn gser_leaf(t: Seq<char>, ty: TypeModel) -> Result<ValueModel, ErrorModel> {
    match ty {
        TypeModel::Bool => if has_at(t, 0, lit_true()) {
            Ok(ValueModel::Bool(true))
        } else if has_at(t, 0, lit_false()) {
            Ok(ValueModel::Bool(false))
        } else {
            Err(ErrorModel::ParserFail)
        },
        TypeModel::Integer { min, max } => if signed_end(t, 0) > 0 {
            match parse_signed(t.subrange(0, signed_end(t, 0)), i128::MIN as int, i128::MAX as int) {
                Some(n) => if min <= n <= max {
                    Ok(ValueModel::Integer(n))
                } else {
                    Err(ErrorModel::IntegerOverflow)
                },
                None => Err(ErrorModel::ParserFail),
            }
        } else {
            Err(ErrorModel::ParserFail)
        },
        TypeModel::Null => if has_at(t, 0, lit_null()) {
            Ok(ValueModel::Null)
        } else {
            Err(ErrorModel::ParserFail)
        },
        TypeModel::Real => match g_real(t) {
            Some(r) => Ok(ValueModel::Real(r)),
            None => Err(ErrorModel::ParserFail),
        },
        TypeModel::BitString => match p_hex(t) {
            Some(b) => Ok(ValueModel::BitString(unpack_bytes(b))),
            None => match p_bin(t) {
                Some(b) => Ok(ValueModel::BitString(b)),
                None => Err(ErrorModel::ParserFail),
            },
        },
        TypeModel::OctetString => match p_hex(t) {
            Some(b) => Ok(ValueModel::OctetString(b)),
            None => Err(ErrorModel::ParserFail),
        },
        TypeModel::ObjectIdentifier => match g_oid(t) {
            Some(a) => if oid_valid(a) {
                Ok(ValueModel::ObjectIdentifier(a))
            } else {
                Err(ErrorModel::InvalidOid)
            },
            None => Err(ErrorModel::ParserFail),
        },
        TypeModel::Text(kind) => match p_string(t) {
            Some(s) => if all_permitted(kind, s) {
                Ok(ValueModel::Text(kind, s))
            } else {
                Err(ErrorModel::StringConversionFailed(kind))
            },
            None => Err(ErrorModel::ParserFail),
        },
        TypeModel::Enumerated(ids) => if g_ident_end(t, 0) > 0 {
            let id = t.subrange(0, g_ident_end(t, 0));
            if ids.contains(id) {
                Ok(ValueModel::Enumerated(id))
            } else {
                Err(ErrorModel::InvalidEnumDiscriminant(id))
            }
        } else {
            Err(ErrorModel::ParserFail)
        },
        _ => Err(ErrorModel::ParserFail),
    }
}

/// Decoding a text as a type: the text is trimmed, a constructed value is
/// cut into the texts of its parts, and each part is decoded from its own
/// text.
pub open spec fn gser_decode_text(s: Seq<char>, ty: TypeModel) -> Result<ValueModel, ErrorModel>
    decreases ty, 0int,
{
    let t = trim(s);
    match ty {
        TypeModel::Sequence(fts) => match g_seq_content(t) {
            Some(fs) => match gser_decode_fields(component_texts(fs, fts), fts) {
                Ok(vs) => Ok(ValueModel::Sequence(vs)),
                Err(e) => Err(e),
            },
            None => Err(ErrorModel::ParserFail),
        },
        TypeModel::SetType(cs) => match g_seq_content(t) {
            Some(fs) => set_outcome(cs, gser_set_results(fs, cs)),
            None => Err(ErrorModel::ParserFail),
        },
        TypeModel::SequenceOf(elem) => match g_seqof_content(t) {
            Some(vals) => match gser_decode_items(vals, *elem) {
                Ok(xs) => Ok(ValueModel::SequenceOf(xs)),
                Err(e) => Err(e),
            },
            None => Err(ErrorModel::ParserFail),
        },
        TypeModel::SetOf(elem) => match g_seqof_content(t) {
            Some(vals) => match gser_decode_items(vals, *elem) {
                Ok(xs) => Ok(ValueModel::SetOf(xs)),
                Err(e) => Err(e),
            },
            None => Err(ErrorModel::ParserFail),
        },
        TypeModel::Choice(alts) => match g_choice(t) {
            Some((id, vstr)) => match find_alt(alts, id) {
                Some(i) => if 0 <= i < alts.len() {
                    match gser_decode_text(vstr, alts[i].1) {
                        Ok(v) => Ok(ValueModel::Choice(alts[i].0, Box::new(v))),
                        Err(e) => Err(e),
                    }
                } else {
                    Err(ErrorModel::InvalidChoiceVariant(id))
                },
                None => Err(ErrorModel::InvalidChoiceVariant(id)),
            },
            None => Err(ErrorModel::ParserFail),
        },
        _ => gser_leaf(t, ty),
    }
}

/// Decoding the components of a SEQUENCE in the order of its type, each
/// from its own text: an optional component whose text is empty is absent.
pub open spec fn gser_decode_fields(
    cts: Seq<Seq<char>>,
    fts: Seq<(Seq<char>, TypeModel, bool)>,
) -> Result<Seq<(Seq<char>, Option<ValueModel>)>, ErrorModel>
    decreases fts, 2int,
{
    if fts.len() == 0 || cts.len() == 0 {
        Ok(Seq::empty())
    } else {
        let (name, fty, optional) = fts[0];
        let first = if optional && cts[0].len() == 0 {
            Ok(None)
        } else {
            match gser_decode_text(cts[0], fty) {
                Ok(v) => Ok(Some(v)),
                Err(e) => Err(e),
            }
        };
        match first {
            Ok(x) => match gser_decode_fields(cts.drop_first(), fts.drop_first()) {
                Ok(rest) => Ok(seq![(name, x)] + rest),
                Err(e) => Err(e),
            },
            Err(e) => Err(e),
        }
    }
}

/// Decoding one component from the component texts found: absent where it
/// is optional and its text is empty.
pub open spec fn gser_decode_component(
    fs: Seq<(Seq<char>, Seq<char>)>,
    ft: (Seq<char>, TypeModel, bool),
) -> Result<Option<ValueModel>, ErrorModel>
    decreases ft.1, 3int,
{
    let x = lookup_text(fs, ft.0);
    if ft.2 && x.len() == 0 {
        Ok(None)
    } else {
        match gser_decode_text(x, ft.1) {
            Ok(v) => Ok(Some(v)),
            Err(e) => Err(e),
        }
    }
}

/// What decoding each component of a SET gives, in the order of the type.
pub open spec fn gser_set_results(
    fs: Seq<(Seq<char>, Seq<char>)>,
    cs: Seq<((Seq<char>, TypeModel, bool), int)>,
) -> Seq<Result<Option<ValueModel>, ErrorModel>>
    decreases cs, 0int,
{
    if cs.len() == 0 {
        Seq::empty()
    } else {
        seq![gser_decode_component(fs, cs[0].0)] + gser_set_results(fs, cs.drop_first())
    }
}

pub proof fn lemma_gser_set_results(
    fs: Seq<(Seq<char>, Seq<char>)>,
    cs: Seq<((Seq<char>, TypeModel, bool), int)>,
)
    ensures
        gser_set_results(fs, cs).len() == cs.len(),
        forall|q: int|
            0 <= q < cs.len() ==> #[trigger] gser_set_results(fs, cs)[q] == gser_decode_component(
                fs,
                cs[q].0,
            ),
    decreases cs.len(),
{
    if cs.len() > 0 {
        lemma_gser_set_results(fs, cs.drop_first());
        assert forall|q: int| 0 <= q < cs.len() implies #[trigger] gser_set_results(fs, cs)[q]
            == gser_decode_component(fs, cs[q].0) by {
            if q > 0 {
                assert(cs.drop_first()[q - 1] == cs[q]);
            }
        }
    }
}

/// Decoding each item text in order.
pub open spec fn gser_decode_items(vals: Seq<Seq<char>>, ty: TypeModel) -> Result<
    Seq<ValueModel>,
    ErrorModel,
>
    decreases ty, vals.len(),
{
    if vals.len() == 0 {
        Ok(Seq::empty())
    } else {
        match gser_decode_text(vals[0], ty) {
            Ok(x) => match gser_decode_items(vals.drop_first(), ty) {
                Ok(rest) => Ok(seq![x] + rest),
                Err(e) => Err(e),
            },
            Err(e) => Err(e),
        }
    }
}

// ----------------------------------------------------------------------------
// The decoder
// ----------------------------------------------------------------------------
/// The texts of a list of (identifier, value text) pairs.
pub open spec fn text_pairs(v: Seq<(Vec<char>, Vec<char>)>) -> Seq<(Seq<char>, Seq<char>)> {
    Seq::new(v.len(), |i: int| (v[i].0@, v[i].1@))
}

/// A copy of `s[a..b]`.
fn copy_range(s: &[char], a: usize, b: usize) -> (r: Vec<char>)
    requires
        a <= b <= s@.len(),
    ensures
        r@ == s@.subrange(a as int, b as int),
{
    let mut out: Vec<char> = Vec::new();
    push_all(&mut out, slice_range(s, a, b));
    assert(out@ =~= s@.subrange(a as int, b as int));
    out
}

/// `s` without leading and trailing whitespace, copied.
fn trimmed(s: &[char]) -> (r: Vec<char>)
    ensures
        r@ == trim(s@),
{
    let a = skip_ws_exec(s, 0);
    let b = trim_end_exec(s, s.len());
    proof {
        lemma_skip_ws(s@, 0);
        lemma_trim_end(s@, s@.len() as int);
    }
    if a >= b {
        Vec::new()
    } else {
        copy_range(s, a, b)
    }
}

fn g_oid_exec(t: &[char]) -> (r: Option<Vec<u32>>)
    ensures
        r matches Some(a) ==> g_oid(t@) == Some(a@),
        r is None ==> g_oid(t@) is None,
{
    let j = digit_end_exec(t, 0);
    proof {
        lemma_digit_end(t@, 0);
    }
    let first = match arc_at_exec(t, 0, j) {
        Some(a) => a,
        None => {
            return None;
        },
    };
    let mut arcs: Vec<u32> = Vec::new();
    arcs.push(first);
    let mut pos = j;
    loop
        invariant
            pos <= t@.len(),
            g_oid(t@) == Some(arcs@ + g_oid_more(t@, pos as int)),
        decreases t@.len() - pos,
    {
        if !(pos < t.len() && t[pos] == '.') {
            assert(arcs@ + Seq::<u32>::empty() =~= arcs@);
            return Some(arcs);
        }
        let k = digit_end_exec(t, pos + 1);
        proof {
            lemma_digit_end(t@, pos + 1);
        }
        match arc_at_exec(t, pos + 1, k) {
            Some(a) => {
                let ghost before = arcs@;
                arcs.push(a);
                assert(before + (seq![a] + g_oid_more(t@, k as int)) =~= arcs@ + g_oid_more(
                    t@,
                    k as int,
                ));
                pos = k;
            },
            None => {
                assert(arcs@ + Seq::<u32>::empty() =~= arcs@);
                return Some(arcs);
            },
        }
    }
}

fn g_numeral_end_exec(t: &[char]) -> (r: usize)
    ensures
        r == g_numeral_end(t@),
        r <= t@.len(),
{
    let n = t.len();
    let a: usize = if 0 < n && t[0] == '-' { 1 } else { 0 };
    let b = digit_end_exec(t, a);
    proof {
        lemma_digit_end(t@, a as int);
    }
    let c = if b < n && t[b] == '.' {
        let x = digit_end_exec(t, b + 1);
        proof {
            lemma_digit_end(t@, b + 1);
        }
        if x > b + 1 { x } else { b }
    } else {
        b
    };
    let d = if c < n && (t[c] == 'E' || t[c] == 'e') {
        let e1 = if c + 1 < n && (t[c + 1] == '+' || t[c + 1] == '-') { c + 2 } else { c + 1 };
        let f = digit_end_exec(t, e1);
        proof {
            lemma_digit_end(t@, e1 as int);
        }
        if f > e1 { f } else { c }
    } else {
        c
    };
    if b > a { d } else { 0 }
}

fn g_real_exec(t: &[char]) -> (r: Option<RealValue>)
    ensures
        r matches Some(x) ==> g_real(t@) == Some(x@),
        r is None ==> g_real(t@) is None,
{
    proof {
        reveal_strlit("PLUS-INFINITY");
        reveal_strlit("MINUS-INFINITY");
        assert("PLUS-INFINITY"@ =~= lit_plus_inf());
        assert("MINUS-INFINITY"@ =~= lit_minus_inf());
    }
    if has_at_exec(t, 0, "PLUS-INFINITY") {
        return Some(RealValue::PlusInfinity);
    }
    if has_at_exec(t, 0, "MINUS-INFINITY") {
        return Some(RealValue::MinusInfinity);
    }
    let e = g_numeral_end_exec(t);
    if e > 0 {
        Some(RealValue::Numeral(text_value(slice_range(t, 0, e))))
    } else {
        None
    }
}

/// The end of the GSER identifier at `i`, `i` when none starts there.
fn g_ident_end_exec(t: &[char], i: usize) -> (r: usize)
    requires
        i <= t@.len(),
    ensures
        r == g_ident_end(t@, i as int),
        i <= r <= t@.len(),
{
    proof {
        lemma_ident_tail_end(t@, i as int);
    }
    let mut k = i;
    while k < t.len() && (char_is_alphanumeric(t[k]) || t[k] == '-' || t[k] == '_')
        invariant
            i <= k <= t@.len(),
            ident_tail_end(t@, i as int) == ident_tail_end(t@, k as int),
        decreases t@.len() - k,
    {
        k = k + 1;
    }
    k
}

fn g_field_exec(t: &[char], pos: usize) -> (r: Option<(Vec<char>, Vec<char>, usize)>)
    requires
        pos <= t@.len(),
    ensures
        r matches Some(x) ==> g_field(t@, pos as int) == Some((x.0@, x.1@, x.2 as int)),
        r is None ==> g_field(t@, pos as int) is None,
{
    let p = skip_ws_exec(t, pos);
    proof {
        lemma_skip_ws(t@, pos as int);
    }
    let q = g_ident_end_exec(t, p);
    if q <= p {
        return None;
    }
    let r = skip_ws_exec(t, q);
    proof {
        lemma_skip_ws(t@, q as int);
    }
    let rest = slice_range(t, r, t.len());
    let ve = value_end_exec(rest);
    proof {
        lemma_value_end(rest@, 0, 0, false);
    }
    let e = r + ve;
    let name = copy_range(t, p, q);
    let value = trimmed(slice_range(t, r, e));
    Some((name, value, e))
}

fn g_seq_content_exec(t: &[char]) -> (r: Option<Vec<(Vec<char>, Vec<char>)>>)
    ensures
        r matches Some(fs) ==> g_seq_content(t@) == Some(text_pairs(fs@)),
        r is None ==> g_seq_content(t@) is None,
{
    if !(t.len() >= 1 && t[0] == '{') {
        return None;
    }
    let p = skip_ws_exec(t, 1);
    proof {
        lemma_skip_ws(t@, 1);
    }
    let mut fields: Vec<(Vec<char>, Vec<char>)> = Vec::new();
    if p < t.len() && t[p] == '}' {
        assert(text_pairs(fields@) =~= Seq::<(Seq<char>, Seq<char>)>::empty());
        return Some(fields);
    }
    let (name, value, e0) = match g_field_exec(t, p) {
        Some(x) => x,
        None => {
            return None;
        },
    };
    proof {
        lemma_g_field(t@, p as int);
    }
    fields.push((name, value));
    let mut e = e0;
    proof {
        assert(text_pairs(fields@) =~= seq![(g_field(t@, p as int)->Some_0.0, g_field(t@, p as int)->Some_0.1)]);
    }
    loop
        invariant
            e <= t@.len(),
            g_seq_content(t@) == match g_fields_more(t@, e as int) {
                Some(rest) => Some(text_pairs(fields@) + rest),
                None => None::<Seq<(Seq<char>, Seq<char>)>>,
            },
        decreases t@.len() - e,
    {
        let s2 = skip_ws_exec(t, e);
        proof {
            lemma_skip_ws(t@, e as int);
        }
        if !(s2 < t.len() && t[s2] == ',') {
            if s2 < t.len() && t[s2] == '}' {
                assert(text_pairs(fields@) + Seq::<(Seq<char>, Seq<char>)>::empty() =~= text_pairs(
                    fields@,
                ));
                return Some(fields);
            }
            return None;
        }
        match g_field_exec(t, s2 + 1) {
            Some((name, value, e2)) => {
                proof {
                    lemma_g_field(t@, s2 + 1);
                }
                let ghost before = text_pairs(fields@);
                let ghost pair = (name@, value@);
                fields.push((name, value));
                proof {
                    assert(text_pairs(fields@) =~= before.push(pair));
                    match g_fields_more(t@, e2 as int) {
                        Some(more) => {
                            assert(before + (seq![pair] + more) =~= text_pairs(fields@) + more);
                        },
                        None => {},
                    }
                }
                e = e2;
            },
            None => {
                return None;
            },
        }
    }
}

fn g_single_exec(t: &[char], pos: usize) -> (r: (Vec<char>, usize))
    requires
        pos <= t@.len(),
    ensures
        (r.0@, r.1 as int) == g_single(t@, pos as int),
        pos <= r.1 <= t@.len(),
{
    let p = skip_ws_exec(t, pos);
    proof {
        lemma_skip_ws(t@, pos as int);
    }
    let rest = slice_range(t, p, t.len());
    let ve = value_end_exec(rest);
    proof {
        lemma_value_end(rest@, 0, 0, false);
    }
    let e = p + ve;
    (trimmed(slice_range(t, p, e)), e)
}

fn g_seqof_content_exec(t: &[char]) -> (r: Option<Vec<Vec<char>>>)
    ensures
        r matches Some(vs) ==> g_seqof_content(t@) == Some(texts_of(vs@)),
        r is None ==> g_seqof_content(t@) is None,
{
    if !(t.len() >= 1 && t[0] == '{') {
        return None;
    }
    let p = skip_ws_exec(t, 1);
    proof {
        lemma_skip_ws(t@, 1);
    }
    let mut values: Vec<Vec<char>> = Vec::new();
    if p < t.len() && t[p] == '}' {
        assert(texts_of(values@) =~= Seq::<Seq<char>>::empty());
        return Some(values);
    }
    let (v0, e0) = g_single_exec(t, p);
    values.push(v0);
    let mut e = e0;
    proof {
        assert(texts_of(values@) =~= seq![g_single(t@, p as int).0]);
    }
    loop
        invariant
            e <= t@.len(),
            g_seqof_content(t@) == match g_items_more(t@, e as int) {
                Some(rest) => Some(texts_of(values@) + rest),
                None => None::<Seq<Seq<char>>>,
            },
        decreases t@.len() - e,
    {
        let s2 = skip_ws_exec(t, e);
        proof {
            lemma_skip_ws(t@, e as int);
        }
        if !(s2 < t.len() && t[s2] == ',') {
            if s2 < t.len() && t[s2] == '}' {
                assert(texts_of(values@) + Seq::<Seq<char>>::empty() =~= texts_of(values@));
                return Some(values);
            }
            return None;
        }
        let (v, e2) = g_single_exec(t, s2 + 1);
        let ghost before = texts_of(values@);
        let ghost vv = v@;
        values.push(v);
        proof {
            assert(texts_of(values@) =~= before.push(vv));
            match g_items_more(t@, e2 as int) {
                Some(more) => {
                    assert(before + (seq![vv] + more) =~= texts_of(values@) + more);
                },
                None => {},
            }
        }
        e = e2;
    }
}

fn g_choice_exec(t: &[char]) -> (r: Option<(Vec<char>, Vec<char>)>)
    ensures
        r matches Some(x) ==> g_choice(t@) == Some((x.0@, x.1@)),
        r is None ==> g_choice(t@) is None,
{
    let i = skip_ms_exec(t, 0);
    proof {
        lemma_skip_ms(t@, 0);
    }
    let q = g_ident_end_exec(t, i);
    if q <= i {
        return None;
    }
    let r = skip_ms_exec(t, q);
    proof {
        lemma_skip_ms(t@, q as int);
    }
    if !(r < t.len() && t[r] == ':') {
        return None;
    }
    let u = skip_ms_exec(t, r + 1);
    proof {
        lemma_skip_ms(t@, r + 1);
    }
    Some((copy_range(t, i, q), trimmed(slice_range(t, u, t.len()))))
}

/// A GSER decoding error.
fn fail(kind: DecodeErrorKind) -> (e: DecodeError)
    ensures
        e.kind == kind,
        e.codec == Codec::Gser,
{
    DecodeError { codec: Codec::Gser, kind }
}

/// Decodes a trimmed text as a type that has no components (see [`gser_leaf`]).
fn gser_leaf_exec(t: &[char], ty: &AsnType) -> (r: Result<Value, DecodeError>)
    requires
        !(ty is Sequence || ty is SetType || ty is SequenceOf || ty is SetOf || ty is Choice),
    ensures
        r matches Err(e) ==> e.codec == Codec::Gser,
        match r {
            Ok(v) => gser_leaf(t@, ty@) == Ok::<ValueModel, ErrorModel>(v@),
            Err(e) => gser_leaf(t@, ty@) == Err::<ValueModel, ErrorModel>(e@),
        },
{
    proof {
        reveal_strlit("TRUE");
        reveal_strlit("FALSE");
        reveal_strlit("NULL");
        assert("TRUE"@ =~= lit_true());
        assert("FALSE"@ =~= lit_false());
        assert("NULL"@ =~= lit_null());
    }
    match ty {
        AsnType::Bool => {
            if has_at_exec(t, 0, "TRUE") {
                Ok(Value::Bool(true))
            } else if has_at_exec(t, 0, "FALSE") {
                Ok(Value::Bool(false))
            } else {
                Err(fail(DecodeErrorKind::ParserFail))
            }
        },
        AsnType::Integer { min, max } => {
            let e = signed_end_exec(t, 0);
            proof {
                lemma_digit_end(t@, if 0 < t@.len() && t@[0] == '-' { 1int } else { 0int });
            }
            if e == 0 {
                return Err(fail(DecodeErrorKind::ParserFail));
            }
            match parse_signed_exec(slice_range(t, 0, e), i128::MIN, i128::MAX) {
                Some(n) => if *min <= n && n <= *max {
                    Ok(Value::Integer(n))
                } else {
                    Err(fail(DecodeErrorKind::IntegerOverflow))
                },
                None => Err(fail(DecodeErrorKind::ParserFail)),
            }
        },
        AsnType::Null => {
            if has_at_exec(t, 0, "NULL") {
                Ok(Value::Null)
            } else {
                Err(fail(DecodeErrorKind::ParserFail))
            }
        },
        AsnType::Real => match g_real_exec(t) {
            Some(r) => Ok(Value::Real(r)),
            None => Err(fail(DecodeErrorKind::ParserFail)),
        },
        AsnType::BitString => match p_hex_exec(t) {
            Some(b) => Ok(Value::BitString(unpack(b.as_slice()))),
            None => match p_bin_exec(t) {
                Some(b) => Ok(Value::BitString(b)),
                None => Err(fail(DecodeErrorKind::ParserFail)),
            },
        },
        AsnType::OctetString => match p_hex_exec(t) {
            Some(b) => Ok(Value::OctetString(b)),
            None => Err(fail(DecodeErrorKind::ParserFail)),
        },
        AsnType::ObjectIdentifier => match g_oid_exec(t) {
            Some(a) => if oid_valid_exec(a.as_slice()) {
                Ok(Value::ObjectIdentifier(a))
            } else {
                Err(fail(DecodeErrorKind::InvalidOid))
            },
            None => Err(fail(DecodeErrorKind::ParserFail)),
        },
        AsnType::Text(kind) => match p_string_exec(t) {
            Some(s) => if all_permitted_exec(*kind, s.as_slice()) {
                Ok(Value::Text(*kind, text_value(s.as_slice())))
            } else {
                Err(fail(DecodeErrorKind::StringConversionFailed { kind: *kind }))
            },
            None => Err(fail(DecodeErrorKind::ParserFail)),
        },
        AsnType::Enumerated(ids) => {
            let q = g_ident_end_exec(t, 0);
            if q == 0 {
                return Err(fail(DecodeErrorKind::ParserFail));
            }
            let id = text_value(slice_range(t, 0, q));
            if contains_string(ids, &id) {
                Ok(Value::Enumerated(id))
            } else {
                Err(fail(DecodeErrorKind::InvalidEnumDiscriminant { discriminant: id }))
            }
        },
        _ => {
            assert(false);
            Err(fail(DecodeErrorKind::ParserFail))
        },
    }
}

/// The text of the last component named `name`, or nothing.
fn lookup_text_exec(fs: &Vec<(Vec<char>, Vec<char>)>, name: &[char]) -> (r: Vec<char>)
    ensures
        r@ == lookup_text(text_pairs(fs@), name@),
{
    let ghost pv = text_pairs(fs@);
    let mut k = fs.len();
    assert(pv.take(k as int) =~= pv);
    while k > 0
        invariant
            k <= fs@.len(),
            pv == text_pairs(fs@),
            lookup_text(pv, name@) == lookup_text(pv.take(k as int), name@),
        decreases k,
    {
        proof {
            assert(pv.take(k as int).drop_last() =~= pv.take(k - 1));
        }
        if chars_eq(fs[k - 1].0.as_slice(), name) {
            let mut out: Vec<char> = Vec::new();
            push_all(&mut out, fs[k - 1].1.as_slice());
            assert(out@ =~= fs@[k - 1].1@);
            return out;
        }
        k = k - 1;
    }
    Vec::new()
}

/// Whether two texts are equal.
fn chars_eq(a: &[char], b: &[char]) -> (r: bool)
    ensures
        r == (a@ == b@),
{
    if a.len() != b.len() {
        return false;
    }
    let mut i: usize = 0;
    while i < a.len()
        invariant
            i <= a@.len() == b@.len(),
            forall|q: int| 0 <= q < i ==> a@[q] == b@[q],
        decreases a@.len() - i,
    {
        if a[i] != b[i] {
            return false;
        }
        i = i + 1;
    }
    assert(a@ =~= b@);
    true
}

/// Decodes a text as a type (see [`gser_decode_text`]).
pub fn decode_text(t: &[char], ty: &AsnType) -> (r: Result<Value, DecodeError>)
    ensures
        r matches Err(e) ==> e.codec == Codec::Gser,
        match r {
            Ok(v) => gser_decode_text(t@, ty@) == Ok::<ValueModel, ErrorModel>(v@),
            Err(e) => gser_decode_text(t@, ty@) == Err::<ValueModel, ErrorModel>(e@),
        },
    decreases ty, 1int,
{
    match ty {
        AsnType::Sequence(_) => decode_sequence_text(t, ty),
        AsnType::SetType(_) => decode_set_text(t, ty),
        AsnType::SequenceOf(_) | AsnType::SetOf(_) => decode_items_text(t, ty),
        AsnType::Choice(_) => decode_choice_text(t, ty),
        _ => {
            let tt = trimmed(t);
            gser_leaf_exec(tt.as_slice(), ty)
        },
    }
}

/// Decodes a SEQUENCE value, each component from its own text, in the order
/// of the type.
#[verifier::loop_isolation(false)]
#[verifier::spinoff_prover]
#[verifier::rlimit(60)]
fn decode_sequence_text(t: &[char], ty: &AsnType) -> (r: Result<Value, DecodeError>)
    requires
        ty is Sequence,
    ensures
        r matches Err(e) ==> e.codec == Codec::Gser,
        match r {
            Ok(v) => gser_decode_text(t@, ty@) == Ok::<ValueModel, ErrorModel>(v@),
            Err(e) => gser_decode_text(t@, ty@) == Err::<ValueModel, ErrorModel>(e@),
        },
    decreases ty, 0int,
{
    let fts = match ty {
        AsnType::Sequence(fts) => fts,
        _ => {
            assert(false);
            return Err(fail(DecodeErrorKind::ParserFail));
        },
    };
    let tt = trimmed(t);
    let fs = match g_seq_content_exec(tt.as_slice()) {
        Some(fs) => fs,
        None => {
            return Err(fail(DecodeErrorKind::ParserFail));
        },
    };
    proof {
        lemma_field_types_view(fts@);
    }
    let ghost ftv = field_types_view(fts@);
    let ghost cts = component_texts(text_pairs(fs@), ftv);
    let n = fts.len();
    let mut out: Vec<Field> = Vec::new();
    let mut i: usize = 0;
    proof {
        assert(ftv.skip(0) =~= ftv);
        assert(cts.skip(0) =~= cts);
        lemma_fields_view(out@);
        assert(fields_view(out@) =~= Seq::<(Seq<char>, Option<ValueModel>)>::empty());
    }
    while i < n
        invariant
            i <= n == fts@.len(),
            ftv.len() == n,
            cts.len() == n,
            forall|q: int| 0 <= q < n ==> #[trigger] ftv[q] == field_type_view(fts@[q]),
            cts == component_texts(text_pairs(fs@), ftv),
            gser_decode_fields(cts, ftv) == match gser_decode_fields(
                cts.skip(i as int),
                ftv.skip(i as int),
            ) {
                Ok(more) => Ok(fields_view(out@) + more),
                Err(e) => Err::<Seq<(Seq<char>, Option<ValueModel>)>, ErrorModel>(e),
            },
        decreases n - i,
    {
        proof {
            assert(ftv.skip(i as int)[0] == ftv[i as int]);
            assert(ftv.skip(i as int).drop_first() =~= ftv.skip(i + 1));
            assert(cts.skip(i as int)[0] == cts[i as int]);
            assert(cts.skip(i as int).drop_first() =~= cts.skip(i + 1));
        }
        let ft = &fts[i];
        let name = chars_of(ft.name.as_str());
        let text = lookup_text_exec(&fs, name.as_slice());
        assert(text@ == cts[i as int]);
        let value: Option<Value> = if ft.optional && text.len() == 0 {
            None
        } else {
            proof {
                assert(decreases_to!(*ty => fts@[i as int].ty));
            }
            Some(decode_text(text.as_slice(), &ft.ty)?)
        };
        let nm = copy_string(&ft.name);
        let ghost before = out@;
        out.push(Field { name: nm, value });
        proof {
            lemma_fields_view(out@);
            lemma_fields_view(before);
            assert(out@.drop_last() == before);
            assert(fields_view(out@) =~= fields_view(before).push(field_view(out@.last())));
            match gser_decode_fields(cts.skip(i + 1), ftv.skip(i + 1)) {
                Ok(more) => {
                    assert(fields_view(before) + (seq![field_view(out@.last())] + more)
                        =~= fields_view(out@) + more);
                },
                Err(e) => {},
            }
        }
        i = i + 1;
    }
    proof {
        assert(ftv.skip(n as int) =~= Seq::<(Seq<char>, TypeModel, bool)>::empty());
        assert(fields_view(out@) + Seq::<(Seq<char>, Option<ValueModel>)>::empty()
            =~= fields_view(out@));
    }
    Ok(Value::Sequence(out))
}

/// Decodes a SET value, each component from its own text (see
/// [`set_outcome`]): the error of the failed component that is decoded
/// first is the result.
#[verifier::loop_isolation(false)]
#[verifier::spinoff_prover]
#[verifier::rlimit(60)]
fn decode_set_text(t: &[char], ty: &AsnType) -> (r: Result<Value, DecodeError>)
    requires
        ty is SetType,
    ensures
        r matches Err(e) ==> e.codec == Codec::Gser,
        match r {
            Ok(v) => gser_decode_text(t@, ty@) == Ok::<ValueModel, ErrorModel>(v@),
            Err(e) => gser_decode_text(t@, ty@) == Err::<ValueModel, ErrorModel>(e@),
        },
    decreases ty, 0int,
{
    let cs = match ty {
        AsnType::SetType(cs) => cs,
        _ => {
            assert(false);
            return Err(fail(DecodeErrorKind::ParserFail));
        },
    };
    let tt = trimmed(t);
    let fs = match g_seq_content_exec(tt.as_slice()) {
        Some(fs) => fs,
        None => {
            return Err(fail(DecodeErrorKind::ParserFail));
        },
    };
    proof {
        lemma_set_components_view(cs@);
    }
    let ghost fsv = text_pairs(fs@);
    let ghost csv = set_components_view(cs@);
    let ghost rs = gser_set_results(fsv, csv);
    proof {
        lemma_gser_set_results(fsv, csv);
    }
    let n = cs.len();
    let mut out: Vec<Field> = Vec::new();
    let mut failed: Option<DecodeError> = None;
    let mut best_idx: usize = 0;
    let mut best_key: u64 = 0;
    let mut i: usize = 0;
    while i < n
        invariant
            i <= n == cs@.len(),
            rs.len() == n,
            csv.len() == n,
            forall|q: int| 0 <= q < n ==> #[trigger] csv[q] == set_component_view(cs@[q]),
            forall|q: int| 0 <= q < n ==> #[trigger] rs[q] == gser_decode_component(fsv, csv[q].0),
            match failed {
                None => first_failure(rs, csv, i as int) is None && out@.len() == i && (forall|
                    q: int,
                | 0 <= q < i ==> #[trigger] field_view(out@[q]) == (csv[q].0.0, rs[q]->Ok_0)
                    && rs[q] is Ok),
                Some(e) => first_failure(rs, csv, i as int) == Some(best_idx as int) && best_idx < i
                    && best_key as int == csv[best_idx as int].1 && rs[best_idx as int] == Err::<
                    Option<ValueModel>,
                    ErrorModel,
                >(e@) && e.codec == Codec::Gser,
            },
        decreases n - i,
    {
        let c = &cs[i];
        let ft = &c.field;
        let name = chars_of(ft.name.as_str());
        let text = lookup_text_exec(&fs, name.as_slice());
        let res: Result<Option<Value>, DecodeError> = if ft.optional && text.len() == 0 {
            Ok(None)
        } else {
            proof {
                assert(decreases_to!(*ty => cs@[i as int].field.ty));
            }
            match decode_text(text.as_slice(), &ft.ty) {
                Ok(x) => Ok(Some(x)),
                Err(e) => Err(e),
            }
        };
        proof {
            assert(csv[i as int] == set_component_view(cs@[i as int]));
            assert(rs[i as int] == gser_decode_component(fsv, csv[i as int].0));
        }
        match res {
            Ok(x) => {
                if failed.is_none() {
                    let nm = copy_string(&ft.name);
                    let ghost before = out@;
                    out.push(Field { name: nm, value: x });
                    proof {
                        assert forall|q: int| 0 <= q < i + 1 implies #[trigger] field_view(out@[q])
                            == (csv[q].0.0, rs[q]->Ok_0) && rs[q] is Ok by {
                            if q < i {
                                assert(out@[q] == before[q]);
                            }
                        }
                    }
                }
            },
            Err(e) => {
                let key = order_key_exec(c);
                let take = match &failed {
                    None => true,
                    Some(_) => key < best_key,
                };
                if take {
                    failed = Some(e);
                    best_idx = i;
                    best_key = key;
                }
            },
        }
        i = i + 1;
    }
    match failed {
        Some(e) => Err(e),
        None => {
            proof {
                lemma_fields_view(out@);
                assert(fields_view(out@) =~= Seq::new(rs.len(), |q: int| (csv[q].0.0, rs[q]->Ok_0)));
            }
            Ok(Value::Sequence(out))
        },
    }
}

/// Decodes a SEQUENCE OF or SET OF value, each item from its own text.
#[verifier::loop_isolation(false)]
fn decode_items_text(t: &[char], ty: &AsnType) -> (r: Result<Value, DecodeError>)
    requires
        ty is SequenceOf || ty is SetOf,
    ensures
        r matches Err(e) ==> e.codec == Codec::Gser,
        match r {
            Ok(v) => gser_decode_text(t@, ty@) == Ok::<ValueModel, ErrorModel>(v@),
            Err(e) => gser_decode_text(t@, ty@) == Err::<ValueModel, ErrorModel>(e@),
        },
    decreases ty, 0int,
{
    let (elem, is_set) = match ty {
        AsnType::SequenceOf(elem) => (elem, false),
        AsnType::SetOf(elem) => (elem, true),
        _ => {
            assert(false);
            return Err(fail(DecodeErrorKind::ParserFail));
        },
    };
    let tt = trimmed(t);
    let vals = match g_seqof_content_exec(tt.as_slice()) {
        Some(vs) => vs,
        None => {
            return Err(fail(DecodeErrorKind::ParserFail));
        },
    };
    let ghost vv = texts_of(vals@);
    let mut out: Vec<Value> = Vec::new();
    let mut i: usize = 0;
    proof {
        assert(vv.skip(0) =~= vv);
        lemma_values_view(out@);
        assert(values_view(out@) =~= Seq::<ValueModel>::empty());
    }
    while i < vals.len()
        invariant
            i <= vals@.len(),
            vv == texts_of(vals@),
            gser_decode_items(vv, (**elem)@) == match gser_decode_items(
                vv.skip(i as int),
                (**elem)@,
            ) {
                Ok(more) => Ok(values_view(out@) + more),
                Err(e) => Err::<Seq<ValueModel>, ErrorModel>(e),
            },
        decreases vals@.len() - i,
    {
        proof {
            assert(vv.skip(i as int)[0] == vv[i as int]);
            assert(vv.skip(i as int).drop_first() =~= vv.skip(i + 1));
            assert(decreases_to!(*ty => **elem));
        }
        assert(vals@[i as int]@ == vv[i as int]);
        let x = decode_text(vals[i].as_slice(), elem)?;
        let ghost before = out@;
        let ghost xv = x@;
        out.push(x);
        proof {
            lemma_values_view(out@);
            lemma_values_view(before);
            assert(out@.drop_last() == before);
            assert(values_view(out@) =~= values_view(before).push(xv));
            match gser_decode_items(vv.skip(i + 1), (**elem)@) {
                Ok(more) => {
                    assert(values_view(before) + (seq![xv] + more) =~= values_view(out@) + more);
                },
                Err(e) => {},
            }
        }
        i = i + 1;
    }
    proof {
        assert(vv.skip(vals@.len() as int) =~= Seq::<Seq<char>>::empty());
        assert(values_view(out@) + Seq::<ValueModel>::empty() =~= values_view(out@));
    }
    if is_set {
        Ok(Value::SetOf(out))
    } else {
        Ok(Value::SequenceOf(out))
    }
}

/// Decodes a CHOICE value: `identifier: value`, the value decoded as the
/// alternative that the identifier names.
fn decode_choice_text(t: &[char], ty: &AsnType) -> (r: Result<Value, DecodeError>)
    requires
        ty is Choice,
    ensures
        r matches Err(e) ==> e.codec == Codec::Gser,
        match r {
            Ok(v) => gser_decode_text(t@, ty@) == Ok::<ValueModel, ErrorModel>(v@),
            Err(e) => gser_decode_text(t@, ty@) == Err::<ValueModel, ErrorModel>(e@),
        },
    decreases ty, 0int,
{
    let alts = match ty {
        AsnType::Choice(alts) => alts,
        _ => {
            assert(false);
            return Err(fail(DecodeErrorKind::ParserFail));
        },
    };
    let tt = trimmed(t);
    let (id_chars, vstr) = match g_choice_exec(tt.as_slice()) {
        Some(x) => x,
        None => {
            return Err(fail(DecodeErrorKind::ParserFail));
        },
    };
    let id = text_value(id_chars.as_slice());
    proof {
        lemma_alternatives_view(alts@);
    }
    match find_alt_exec(alts, &id) {
        Some(i) => {
            proof {
                assert(decreases_to!(*ty => alts@[i as int].ty));
                assert(alternatives_view(alts@)[i as int] == alternative_view(alts@[i as int]));
            }
            let v = decode_text(vstr.as_slice(), &alts[i].ty)?;
            Ok(Value::Choice(copy_string(&alts[i].name), Box::new(v)))
        },
        None => Err(fail(DecodeErrorKind::InvalidChoiceVariant { variant: id })),
    }
}

/// Decodes GSER text: the decoder holds the text to be read.
pub struct Decoder {
    input: Vec<char>,
}

impl View for Decoder {
    type V = Seq<char>;

    closed spec fn view(&self) -> Seq<char> {
        self.input@
    }
}

impl Decoder {
    /// A decoder over the given text (this never fails).
    pub fn new(input: &str) -> (r: Result<Self, DecodeError>)
        ensures
            r matches Ok(d) && d@ == input@,
    {
        Ok(Decoder { input: chars_of(input) })
    }

    /// Decodes the whole text as `ty` (see [`gser_decode_text`]); no text is
    /// left to read afterwards.
    pub fn decode_value(&mut self, ty: &AsnType) -> (r: Result<Value, DecodeError>)
        ensures
            r matches Err(e) ==> e.codec == Codec::Gser,
            match r {
                Ok(v) => gser_decode_text(old(self)@, ty@) == Ok::<ValueModel, ErrorModel>(v@),
                Err(e) => gser_decode_text(old(self)@, ty@) == Err::<ValueModel, ErrorModel>(e@),
            },
            final(self)@ == Seq::<char>::empty(),
    {
        let mut cur: Vec<char> = Vec::new();
        std::mem::swap(&mut cur, &mut self.input);
        decode_text(cur.as_slice(), ty)
    }
}

} // verus!
