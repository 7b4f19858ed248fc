//! The shapes of the written forms, and what a written INTEGER decodes as.
use vstd::prelude::*;

use crate::avn::de::{avn_decode_text, strip_assignment};
use crate::avn::enc::{
    arc_texts, avn_oid_text, bin_text, braces, escape_body, hex_text, item_texts, join,
    notation_text, place, quoted, EncoderModel,
};
use crate::laws::lexical::{law_bin_body, law_hex_body, law_integer_numeral};
use crate::model::{Codec, ErrorModel, TypeModel, ValueModel};
use crate::text::{int_text, trim};

verus! {

/// How many quotation marks a text holds.
pub open spec fn quote_count(s: Seq<char>) -> nat
    decreases s.len(),
{
    if s.len() == 0 {
        0
    } else {
        quote_count(s.drop_last()) + if s.last() == '"' {
            1nat
        } else {
            0nat
        }
    }
}

/// A quoted string is the text with each quotation mark doubled, between two
/// quotation marks: one character longer per quotation mark, two for the
/// marks around it.
pub proof fn law_quoted_shape(s: Seq<char>)
    ensures
        quoted(s).len() == s.len() + 2 + quote_count(s),
        quoted(s)[0] == '"',
        quoted(s).last() == '"',
        quoted(s).subrange(1, quoted(s).len() - 1) == escape_body(s),
    decreases s.len(),
{
    lemma_escape_len(s);
    let q = quoted(s);
    assert(q.subrange(1, q.len() - 1) =~= escape_body(s));
}

proof fn lemma_escape_len(s: Seq<char>)
    ensures
        escape_body(s).len() == s.len() + quote_count(s),
    decreases s.len(),
{
    if s.len() > 0 {
        lemma_escape_len(s.drop_last());
    }
}

/// An hstring is `'`, two upper-case hexadecimal digits per byte, `'H`.
pub proof fn law_hex_text_shape(b: Seq<u8>)
    ensures
        hex_text(b).len() == 2 * b.len() + 3,
        hex_text(b)[0] == '\'',
        hex_text(b)[hex_text(b).len() - 2] == '\'',
        hex_text(b)[hex_text(b).len() - 1] == 'H',
{
    law_hex_body(b);
}

/// A bstring is `'`, one binary digit per bit, `'B`.
pub proof fn law_bin_text_shape(bits: Seq<bool>)
    ensures
        bin_text(bits).len() == bits.len() + 3,
        bin_text(bits)[0] == '\'',
        bin_text(bits)[bin_text(bits).len() - 2] == '\'',
        bin_text(bits)[bin_text(bits).len() - 1] == 'B',
        forall|k: int| 0 <= k < bits.len() ==> #[trigger] bin_text(bits)[k + 1] == if bits[k] {
            '1'
        } else {
            '0'
        },
{
    law_bin_body(bits);
    assert forall|k: int| 0 <= k < bits.len() implies #[trigger] bin_text(bits)[k + 1] == if bits[k] {
        '1'
    } else {
        '0'
    } by {
        assert(bin_text(bits)[k + 1] == crate::avn::enc::bin_body(bits)[k]);
    }
}

/// Placing a value's text in the encoder: with no component identifier
/// waiting it becomes the finished value; with one waiting and a SEQUENCE
/// open it is added to that SEQUENCE as `name text`; with one waiting and
/// none open it fails.
pub proof fn law_place(st: EncoderModel, t: Seq<char>)
    ensures
        st.stack.len() == 0 ==> place(st, t) == (EncoderModel { root: Some(t), ..st }, true),
        st.stack.len() > 0 && st.frames.len() > 0 ==> place(st, t).1 && place(st, t).0.stack
            == st.stack.drop_last() && place(st, t).0.frames.len() == st.frames.len() && place(
            st,
            t,
        ).0.frames.last() == st.frames.last().push(st.stack.last() + seq![' '] + t) && place(
            st,
            t,
        ).0.frames.drop_last() == st.frames.drop_last() && place(st, t).0.root == st.root,
        st.stack.len() > 0 && st.frames.len() == 0 ==> !place(st, t).1,
{
    if st.stack.len() > 0 && st.frames.len() > 0 {
        let f = place(st, t).0.frames;
        assert(f.drop_last() =~= st.frames.drop_last());
    }
}

/// An INTEGER written in value notation decodes as that integer where the
/// type's range holds it, else as an overflow.
pub proof fn law_avn_integer(n: int, min: int, max: int)
    requires
        i128::MIN <= n <= i128::MAX,
    ensures
        avn_decode_text(int_text(n), TypeModel::Integer { min, max }) == if min <= n <= max {
            Ok::<ValueModel, ErrorModel>(ValueModel::Integer(n))
        } else {
            Err(ErrorModel::IntegerOverflow)
        },
{
    let t = int_text(n);
    crate::laws::avn_reads::lemma_parse_int(n);
    law_integer_numeral(n, i128::MIN as int, i128::MAX as int);
    crate::laws::avn_reads::lemma_trim_clean(t);
    assert(trim(t) == t);
    assert(strip_assignment(t) == t);
}

/// A SEQUENCE OF value is written `{ }` when it has no items, else `{ `,
/// the items' texts apart by `, `, ` }`.
pub proof fn law_list_text(codec: Codec, xs: Seq<ValueModel>)
    ensures
        notation_text(codec, ValueModel::SequenceOf(xs)) == if xs.len() == 0 {
            seq!['{', ' ', '}']
        } else {
            seq!['{', ' '] + join(item_texts(codec, xs), seq![',', ' ']) + seq![' ', '}']
        },
        item_texts(codec, xs).len() == xs.len(),
        forall|j: int| 0 <= j < xs.len() ==> #[trigger] item_texts(codec, xs)[j] == notation_text(codec, xs[j]),
    decreases xs.len(),
{
    assert(notation_text(codec, ValueModel::SequenceOf(xs)) == braces(item_texts(codec, xs)));
    if xs.len() > 0 {
        law_list_text(codec, xs.drop_last());
        assert(item_texts(codec, xs).len() == xs.len());
        assert forall|j: int| 0 <= j < xs.len() implies #[trigger] item_texts(codec, xs)[j]
            == notation_text(codec, xs[j]) by {
            if j < xs.len() - 1 {
                assert(xs.drop_last()[j] == xs[j]);
            }
        }
    }
}

/// An OBJECT IDENTIFIER is written in value notation as `{ `, its arcs in
/// decimal apart by spaces, ` }`.
pub proof fn law_oid_text(arcs: Seq<u32>)
    ensures
        avn_oid_text(arcs) == seq!['{', ' '] + join(arc_texts(arcs), seq![' ']) + seq![' ', '}'],
        arc_texts(arcs).len() == arcs.len(),
        forall|j: int| 0 <= j < arcs.len() ==> #[trigger] arc_texts(arcs)[j] == crate::text::nat_text(arcs[j] as nat),
{
}

} // verus!
