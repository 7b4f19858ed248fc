//! Facts about written values that reading them back relies on: the scanner
//! passes over each written value whole.
use vstd::prelude::*;

use crate::avn::enc::{
    arc_texts, bin_body, bin_text, bit_string_text, braces, entry_texts, false_text, hex_body,
    hex_text, item_texts, join, minus_infinity, notation_text, null_text, plus_infinity, real_text,
    true_text, tuple_text,
};
use crate::laws::lexical::{law_bin_body, lemma_hex_body_digits, lemma_nat_text};
use crate::laws::scan::{
    inert, lemma_close, lemma_inert_run, lemma_open, lemma_passes_concat, lemma_quoted_passes,
    lemma_rebase, passes_at,
};
use crate::avn::de::value_end;
use crate::model::{Codec, RealModel, ValueModel};
use crate::text::{int_text, is_digit, is_hex_digit, nat_text};

verus! {

/// Text with no quotation mark, brace or comma.
pub open spec fn plain(s: Seq<char>) -> bool {
    forall|k: int| 0 <= k < s.len() ==> inert(#[trigger] s[k], 0)
}

/// Every identifier and numeral written inside the value is plain text, so
/// that only the notation's own braces, commas and quotation marks shape it.
pub open spec fn balanced(codec: Codec, v: ValueModel) -> bool
    decreases v,
{
    match v {
        ValueModel::Enumerated(id) => plain(id),
        ValueModel::Real(RealModel::Numeral(t)) => codec == Codec::Avn || plain(t),
        ValueModel::Sequence(fs) => fields_balanced(codec, fs),
        ValueModel::SequenceOf(xs) => items_balanced(codec, xs),
        ValueModel::SetOf(xs) => items_balanced(codec, xs),
        ValueModel::Choice(id, x) => plain(id) && balanced(codec, *x),
        _ => true,
    }
}

pub open spec fn items_balanced(codec: Codec, xs: Seq<ValueModel>) -> bool
    decreases xs,
{
    if xs.len() == 0 {
        true
    } else {
        items_balanced(codec, xs.drop_last()) && balanced(codec, xs.last())
    }
}

pub open spec fn fields_balanced(codec: Codec, fs: Seq<(Seq<char>, Option<ValueModel>)>) -> bool
    decreases fs,
{
    if fs.len() == 0 {
        true
    } else {
        fields_balanced(codec, fs.drop_last()) && match fs.last().1 {
            Some(x) => plain(fs.last().0) && balanced(codec, x),
            None => true,
        }
    }
}

/// Characters inert inside braces: no quotation mark and no brace.
pub open spec fn inert_inside(s: Seq<char>) -> bool {
    forall|k: int| 0 <= k < s.len() ==> inert(#[trigger] s[k], 1)
}

/// Inert text at depth 1 is inert at every depth below the top.
proof fn lemma_inert_inside_run(x: Seq<char>, w: Seq<char>, d: nat)
    requires
        inert_inside(x),
        d >= 1,
    ensures
        passes_at(x, w, d),
{
    assert forall|k: int| 0 <= k < x.len() implies inert(#[trigger] x[k], d) by {
        assert(inert(x[k], 1));
    }
    lemma_inert_run(x, w, d);
}

/// Plain text is inert at every depth.
proof fn lemma_plain_run(x: Seq<char>, w: Seq<char>, d: nat)
    requires
        plain(x),
    ensures
        passes_at(x, w, d),
{
    assert forall|k: int| 0 <= k < x.len() implies inert(#[trigger] x[k], d) by {
        assert(inert(x[k], 0));
    }
    lemma_inert_run(x, w, d);
}

/// `{`, then text passed over one level down up to a `}`, then `}`.
proof fn lemma_braced(inner: Seq<char>, w: Seq<char>, d: nat)
    requires
        passes_at(inner, seq!['}'] + w, d + 1),
    ensures
        passes_at(seq!['{'] + inner + seq!['}'], w, d),
{
    let x = seq!['{'] + inner + seq!['}'];
    assert(x + w =~= seq!['{'] + (inner + (seq!['}'] + w)));
    lemma_open(inner + (seq!['}'] + w), d);
    lemma_close(w, d + 1);
}

/// A braced text whose inside is inert at depth 1.
proof fn lemma_braced_inert(inner: Seq<char>, w: Seq<char>, d: nat)
    requires
        inert_inside(inner),
    ensures
        passes_at(seq!['{'] + inner + seq!['}'], w, d),
{
    lemma_inert_inside_run(inner, seq!['}'] + w, d + 1);
    lemma_braced(inner, w, d);
}

/// The numeral of an integer is plain.
proof fn lemma_int_plain(n: int)
    ensures
        plain(int_text(n)),
{
    if n < 0 {
        lemma_nat_text((-n) as nat);
        let t = int_text(n);
        assert forall|k: int| 0 <= k < t.len() implies inert(#[trigger] t[k], 0) by {
            if k > 0 {
                assert(t[k] == nat_text((-n) as nat)[k - 1]);
                assert(is_digit(nat_text((-n) as nat)[k - 1]));
            }
        }
    } else {
        lemma_nat_text(n as nat);
        let t = int_text(n);
        assert forall|k: int| 0 <= k < t.len() implies inert(#[trigger] t[k], 0) by {
            assert(is_digit(t[k]));
        }
    }
}

/// Plain text concatenated with plain text is plain.
proof fn lemma_plain_concat(a: Seq<char>, b: Seq<char>)
    requires
        plain(a),
        plain(b),
    ensures
        plain(a + b),
{
    assert forall|k: int| 0 <= k < (a + b).len() implies inert(#[trigger] (a + b)[k], 0) by {
        if k < a.len() {
            assert((a + b)[k] == a[k]);
        } else {
            assert((a + b)[k] == b[k - a.len()]);
        }
    }
}

/// Text inert inside braces concatenated with such text stays so.
proof fn lemma_inside_concat(a: Seq<char>, b: Seq<char>)
    requires
        inert_inside(a),
        inert_inside(b),
    ensures
        inert_inside(a + b),
{
    assert forall|k: int| 0 <= k < (a + b).len() implies inert(#[trigger] (a + b)[k], 1) by {
        if k < a.len() {
            assert((a + b)[k] == a[k]);
        } else {
            assert((a + b)[k] == b[k - a.len()]);
        }
    }
}

/// Plain text is inert inside braces.
proof fn lemma_plain_inside(a: Seq<char>)
    requires
        plain(a),
    ensures
        inert_inside(a),
{
    assert forall|k: int| 0 <= k < a.len() implies inert(#[trigger] a[k], 1) by {
        assert(inert(a[k], 0));
    }
}

/// Plain items joined by a plain separator give plain text.
proof fn lemma_join_plain(xs: Seq<Seq<char>>, sep: Seq<char>)
    requires
        forall|k: int| 0 <= k < xs.len() ==> plain(#[trigger] xs[k]),
        plain(sep),
    ensures
        plain(join(xs, sep)),
    decreases xs.len(),
{
    if xs.len() == 1 {
        assert(plain(xs[0]));
    } else if xs.len() > 1 {
        let xs1 = xs.drop_last();
        assert forall|k: int| 0 <= k < xs1.len() implies plain(#[trigger] xs1[k]) by {
            assert(xs1[k] == xs[k]);
        }
        lemma_join_plain(xs1, sep);
        assert(plain(xs.last()));
        lemma_plain_concat(join(xs1, sep), sep);
        lemma_plain_concat(join(xs1, sep) + sep, xs.last());
    }
}

/// The decimal numerals of arcs are plain.
proof fn lemma_arcs_plain(arcs: Seq<u32>)
    ensures
        forall|k: int| 0 <= k < arc_texts(arcs).len() ==> plain(#[trigger] arc_texts(arcs)[k]),
{
    assert forall|k: int| 0 <= k < arc_texts(arcs).len() implies plain(#[trigger] arc_texts(arcs)[k]) by {
        lemma_int_plain(arcs[k] as int);
    }
}

/// An hstring or a bstring is plain.
proof fn lemma_bit_texts_plain(b: Seq<u8>, bits: Seq<bool>)
    ensures
        plain(hex_text(b)),
        plain(bin_text(bits)),
{
    lemma_hex_body_digits(b);
    let h = hex_body(b);
    assert forall|k: int| 0 <= k < h.len() implies inert(#[trigger] h[k], 0) by {
        assert(is_hex_digit(h[k]));
    }
    lemma_plain_concat(seq!['\''], h);
    lemma_plain_concat(seq!['\''] + h, seq!['\'', 'H']);
    law_bin_body(bits);
    let g = bin_body(bits);
    assert forall|k: int| 0 <= k < g.len() implies inert(#[trigger] g[k], 0) by {
        assert(g[k] == '0' || g[k] == '1');
    }
    lemma_plain_concat(seq!['\''], g);
    lemma_plain_concat(seq!['\''] + g, seq!['\'', 'B']);
}

/// `{ m, b, e }` is braced text inert inside.
proof fn lemma_tuple_text(m: int, b: int, e: int)
    ensures
        tuple_text(m, b, e) == seq!['{'] + (tuple_text(m, b, e).subrange(
            1,
            tuple_text(m, b, e).len() - 1,
        )) + seq!['}'],
        inert_inside(tuple_text(m, b, e).subrange(1, tuple_text(m, b, e).len() - 1)),
{
    let t = tuple_text(m, b, e);
    let inner = seq![' '] + int_text(m) + seq![',', ' '] + int_text(b) + seq![',', ' ']
        + int_text(e) + seq![' '];
    assert(t =~= seq!['{'] + inner + seq!['}']);
    assert(t.subrange(1, t.len() - 1) =~= inner);
    lemma_int_plain(m);
    lemma_int_plain(b);
    lemma_int_plain(e);
    lemma_plain_inside(int_text(m));
    lemma_plain_inside(int_text(b));
    lemma_plain_inside(int_text(e));
    assert(inert_inside(seq![' ']));
    assert(inert_inside(seq![',', ' ']));
    lemma_inside_concat(seq![' '], int_text(m));
    lemma_inside_concat(seq![' '] + int_text(m), seq![',', ' ']);
    lemma_inside_concat(seq![' '] + int_text(m) + seq![',', ' '], int_text(b));
    lemma_inside_concat(seq![' '] + int_text(m) + seq![',', ' '] + int_text(b), seq![',', ' ']);
    lemma_inside_concat(
        seq![' '] + int_text(m) + seq![',', ' '] + int_text(b) + seq![',', ' '],
        int_text(e),
    );
    lemma_inside_concat(
        seq![' '] + int_text(m) + seq![',', ' '] + int_text(b) + seq![',', ' '] + int_text(e),
        seq![' '],
    );
}

/// The fixed words of the notations are plain.
proof fn lemma_words_plain()
    ensures
        plain(true_text()),
        plain(false_text()),
        plain(null_text()),
        plain(plus_infinity()),
        plain(minus_infinity()),
        plain(seq!['0']),
        plain(seq![' ']),
        plain(seq![':', ' ']),
        plain(seq!['.']),
{
    assert forall|k: int| 0 <= k < plus_infinity().len() implies inert(
        #[trigger] plus_infinity()[k],
        0,
    ) by {}
    assert forall|k: int| 0 <= k < minus_infinity().len() implies inert(
        #[trigger] minus_infinity()[k],
        0,
    ) by {}
    assert forall|k: int| 0 <= k < true_text().len() implies inert(#[trigger] true_text()[k], 0) by {}
    assert forall|k: int| 0 <= k < false_text().len() implies inert(#[trigger] false_text()[k], 0) by {}
    assert forall|k: int| 0 <= k < null_text().len() implies inert(#[trigger] null_text()[k], 0) by {}
    let cs = seq![':', ' '];
    assert forall|k: int| 0 <= k < cs.len() implies inert(#[trigger] cs[k], 0) by {}
}

/// `{ `, then text passed over one level down, then ` }`.
proof fn lemma_spaced_braces(j: Seq<char>, w: Seq<char>, d: nat)
    requires
        passes_at(j, seq![' ', '}'] + w, d + 1),
    ensures
        passes_at(seq!['{', ' '] + j + seq![' ', '}'], w, d),
{
    let sp = seq![' '];
    lemma_words_plain();
    lemma_plain_run(sp, j + (sp + (seq!['}'] + w)), d + 1);
    lemma_plain_run(sp, seq!['}'] + w, d + 1);
    assert(seq![' ', '}'] + w =~= sp + (seq!['}'] + w));
    lemma_passes_concat(j, sp, seq!['}'] + w, d + 1);
    assert((j + sp) + (seq!['}'] + w) =~= j + (sp + (seq!['}'] + w)));
    lemma_passes_concat(sp, j + sp, seq!['}'] + w, d + 1);
    assert(sp + (j + sp) =~= sp + j + sp);
    lemma_braced(sp + j + sp, w, d);
    assert(seq!['{'] + (sp + j + sp) + seq!['}'] =~= seq!['{', ' '] + j + seq![' ', '}']);
}

pub proof fn lemma_item_texts_len(codec: Codec, xs: Seq<ValueModel>)
    ensures
        item_texts(codec, xs).len() == xs.len(),
    decreases xs.len(),
{
    if xs.len() > 0 {
        lemma_item_texts_len(codec, xs.drop_last());
    }
}

/// A written value followed by anything but a quotation mark is passed over whole.
pub proof fn lemma_value_passes(codec: Codec, v: ValueModel, w: Seq<char>, d: nat)
    requires
        balanced(codec, v),
        w.len() == 0 || w[0] != '"',
    ensures
        passes_at(notation_text(codec, v), w, d),
    decreases v,
{
    let t = notation_text(codec, v);
    lemma_words_plain();
    match v {
        ValueModel::Bool(_) => {
            lemma_plain_run(t, w, d);
        },
        ValueModel::Integer(n) => {
            lemma_int_plain(n);
            lemma_plain_run(t, w, d);
        },
        ValueModel::Null => {
            lemma_plain_run(t, w, d);
        },
        ValueModel::Real(r) => {
            match r {
                RealModel::Numeral(s) => {
                    if codec == Codec::Gser {
                        lemma_plain_run(t, w, d);
                    } else {
                        let (m, e) = crate::avn::enc::numeral_tuple(s);
                        lemma_tuple_text(m, 10, e);
                        lemma_braced_inert(t.subrange(1, t.len() - 1), w, d);
                    }
                },
                RealModel::Tuple { mantissa, base, exponent } => {
                    if codec == Codec::Gser {
                        assert(t + w =~= w);
                    } else {
                        lemma_tuple_text(mantissa, base, exponent);
                        lemma_braced_inert(t.subrange(1, t.len() - 1), w, d);
                    }
                },
                _ => {
                    lemma_plain_run(t, w, d);
                },
            }
        },
        ValueModel::BitString(bits) => {
            lemma_bit_texts_plain(crate::avn::enc::pack_bits(bits), bits);
            lemma_plain_run(t, w, d);
        },
        ValueModel::OctetString(b) => {
            lemma_bit_texts_plain(b, Seq::empty());
            lemma_plain_run(t, w, d);
        },
        ValueModel::ObjectIdentifier(arcs) => {
            lemma_arcs_plain(arcs);
            if codec == Codec::Gser {
                lemma_join_plain(arc_texts(arcs), seq!['.']);
                lemma_plain_run(t, w, d);
            } else {
                let j = join(arc_texts(arcs), seq![' ']);
                lemma_join_plain(arc_texts(arcs), seq![' ']);
                lemma_plain_run(j, seq![' ', '}'] + w, d + 1);
                lemma_spaced_braces(j, w, d);
            }
        },
        ValueModel::Enumerated(_) => {
            lemma_plain_run(t, w, d);
        },
        ValueModel::Text(_, s) => {
            lemma_quoted_passes(s, w, d);
        },
        ValueModel::Sequence(fs) => {
            let es = entry_texts(codec, fs);
            if es.len() == 0 {
                assert(inert_inside(seq![' ']));
                lemma_braced_inert(seq![' '], w, d);
                assert(seq!['{'] + seq![' '] + seq!['}'] =~= t);
            } else {
                let j = join(es, seq![',', ' ']);
                lemma_entries_passes(codec, fs, seq![' ', '}'] + w, d + 1);
                lemma_spaced_braces(j, w, d);
            }
        },
        ValueModel::SequenceOf(xs) => {
            let ts = item_texts(codec, xs);
            if ts.len() == 0 {
                assert(inert_inside(seq![' ']));
                lemma_braced_inert(seq![' '], w, d);
                assert(seq!['{'] + seq![' '] + seq!['}'] =~= t);
            } else {
                let j = join(ts, seq![',', ' ']);
                lemma_items_passes(codec, xs, seq![' ', '}'] + w, d + 1);
                lemma_spaced_braces(j, w, d);
            }
        },
        ValueModel::SetOf(xs) => {
            let ts = item_texts(codec, xs);
            if ts.len() == 0 {
                assert(inert_inside(seq![' ']));
                lemma_braced_inert(seq![' '], w, d);
                assert(seq!['{'] + seq![' '] + seq!['}'] =~= t);
            } else {
                let j = join(ts, seq![',', ' ']);
                lemma_items_passes(codec, xs, seq![' ', '}'] + w, d + 1);
                lemma_spaced_braces(j, w, d);
            }
        },
        ValueModel::Choice(id, x) => {
            let head = id + seq![':', ' '];
            let xt = notation_text(codec, *x);
            lemma_plain_concat(id, seq![':', ' ']);
            lemma_plain_run(head, xt + w, d);
            lemma_value_passes(codec, *x, w, d);
            lemma_passes_concat(head, xt, w, d);
        },
    }
}

/// The items of a SEQUENCE OF, written and joined by `, `, are passed over
/// inside braces.
pub proof fn lemma_items_passes(codec: Codec, xs: Seq<ValueModel>, w: Seq<char>, d: nat)
    requires
        items_balanced(codec, xs),
        d >= 1,
        w.len() == 0 || w[0] != '"',
    ensures
        passes_at(join(item_texts(codec, xs), seq![',', ' ']), w, d),
    decreases xs,
{
    let sep = seq![',', ' '];
    let ts = item_texts(codec, xs);
    lemma_item_texts_len(codec, xs);
    if xs.len() == 0 {
        assert(join(ts, sep) + w =~= w);
    } else {
        let x = xs.last();
        let xt = notation_text(codec, x);
        let xs1 = xs.drop_last();
        assert(ts == item_texts(codec, xs1).push(xt));
        lemma_value_passes(codec, x, w, d);
        if xs.len() == 1 {
            assert(ts.len() == 1);
            assert(join(ts, sep) == ts[0]);
        } else {
            lemma_item_texts_len(codec, xs1);
            assert(ts.drop_last() =~= item_texts(codec, xs1));
            let j1 = join(item_texts(codec, xs1), sep);
            assert(join(ts, sep) == j1 + sep + xt);
            lemma_items_passes(codec, xs1, sep + xt + w, d);
            assert(sep + xt + w =~= sep + (xt + w));
            assert forall|k: int| 0 <= k < sep.len() implies inert(#[trigger] sep[k], d) by {}
            lemma_inert_run(sep, xt + w, d);
            lemma_passes_concat(sep, xt, w, d);
            lemma_passes_concat(j1, sep + xt, w, d);
            assert(j1 + (sep + xt) =~= j1 + sep + xt);
        }
    }
}

/// The present components of a SEQUENCE, written as `name value` and joined
/// by `, `, are passed over inside braces.
pub proof fn lemma_entries_passes(
    codec: Codec,
    fs: Seq<(Seq<char>, Option<ValueModel>)>,
    w: Seq<char>,
    d: nat,
)
    requires
        fields_balanced(codec, fs),
        d >= 1,
        w.len() == 0 || w[0] != '"',
    ensures
        passes_at(join(entry_texts(codec, fs), seq![',', ' ']), w, d),
    decreases fs,
{
    let sep = seq![',', ' '];
    let es = entry_texts(codec, fs);
    if fs.len() == 0 {
        assert(join(es, sep) + w =~= w);
    } else {
        let fs1 = fs.drop_last();
        let es1 = entry_texts(codec, fs1);
        match fs.last().1 {
            None => {
                assert(es == es1);
                lemma_entries_passes(codec, fs1, w, d);
            },
            Some(x) => {
                let name = fs.last().0;
                let xt = notation_text(codec, x);
                let head = name + seq![' '];
                let ent = head + xt;
                assert(es == es1.push(name + seq![' '] + xt));
                lemma_words_plain();
                lemma_plain_concat(name, seq![' ']);
                lemma_plain_run(head, xt + w, d);
                lemma_value_passes(codec, x, w, d);
                lemma_passes_concat(head, xt, w, d);
                if es1.len() == 0 {
                    assert(es.len() == 1);
                    assert(join(es, sep) == es[0]);
                } else {
                    assert(es.drop_last() =~= es1);
                    let j1 = join(es1, sep);
                    assert(join(es, sep) == j1 + sep + ent);
                    lemma_entries_passes(codec, fs1, sep + ent + w, d);
                    assert(sep + ent + w =~= sep + (ent + w));
                    assert forall|k: int| 0 <= k < sep.len() implies inert(#[trigger] sep[k], d) by {}
                    lemma_inert_run(sep, ent + w, d);
                    lemma_passes_concat(sep, ent, w, d);
                    lemma_passes_concat(j1, sep + ent, w, d);
                    assert(j1 + (sep + ent) =~= j1 + sep + ent);
                }
            },
        }
    }
}

} // verus!
