//! GSER reads back: the text written for a value splits into the parts that
//! its decoder hands on, and each part reads back.
use vstd::prelude::*;

use crate::avn::de::{find_alt, value_end};
use crate::avn::enc::{
    arc_texts, bin_body, bit_string_text, braces, entry_texts, escape_body, hex_body, item_texts,
    join, notation_text, quoted,
};
use crate::gser::de::{
    g_choice, g_field, g_fields_more, g_ident_end, g_items_more, g_real, g_seq_content,
    g_seqof_content, g_single,
};
use crate::avn::de::ident_tail_end;
use crate::laws::avn_reads::{lemma_ident_run, lemma_sub_shift, lemma_trim_clean, tail};
use crate::laws::scan::lemma_step;
use crate::text::{is_multispace, skip_ms, skip_ws, trim};
use crate::laws::avn_reads::ident_ascii;
use crate::laws::scan::{inert, passes_at};
use crate::laws::written::{balanced, fields_balanced, items_balanced, plain};
use crate::model::{Codec, RealModel, TypeModel, ValueModel};
use crate::text::{int_text, is_digit, is_hex_digit, is_ws, nat_text};

verus! {

/// A non-empty run of ASCII identifier characters.
pub open spec fn ident_chars(s: Seq<char>) -> bool {
    s.len() >= 1 && forall|k: int| 0 <= k < s.len() ==> ident_ascii(#[trigger] s[k])
}

/// The values of a type that GSER carries back as themselves. Left out: REAL
/// values given as tuples (GSER has no form for them) or as `0` (it reads back
/// as a numeral), numerals that do not read back whole, BIT STRING values
/// whose length is four more than a multiple of eight, an empty OBJECT
/// IDENTIFIER, and identifiers that are not ASCII.
pub open spec fn gser_carried(v: ValueModel, ty: TypeModel) -> bool
    decreases v,
{
    match v {
        ValueModel::Real(r) => match r {
            RealModel::PlusInfinity => true,
            RealModel::MinusInfinity => true,
            RealModel::Numeral(t) => g_real(t) == Some(RealModel::Numeral(t)) && plain(t)
                && t.len() >= 1 && !is_ws(t[0]) && !is_ws(t.last()) && t[0] != '}' && t[0]
                != ',' && t[0] != ':',
            _ => false,
        },
        ValueModel::BitString(bits) => bits.len() % 8 != 4,
        ValueModel::ObjectIdentifier(a) => a.len() >= 1,
        ValueModel::Enumerated(id) => ident_chars(id),
        ValueModel::Sequence(fs) => (ty is Sequence || ty is SetType) && gfields_carried(
            fs,
            crate::laws::typed::component_types(ty),
        ),
        ValueModel::SequenceOf(xs) => match ty {
            TypeModel::SequenceOf(et) => gitems_carried(xs, *et),
            _ => false,
        },
        ValueModel::SetOf(xs) => match ty {
            TypeModel::SetOf(et) => gitems_carried(xs, *et),
            _ => false,
        },
        ValueModel::Choice(id, x) => ident_chars(id) && match ty {
            TypeModel::Choice(alts) => match find_alt(alts, id) {
                Some(i) => 0 <= i < alts.len() && gser_carried(*x, alts[i].1),
                None => false,
            },
            _ => false,
        },
        _ => true,
    }
}

pub open spec fn gitems_carried(xs: Seq<ValueModel>, et: TypeModel) -> bool
    decreases xs,
{
    if xs.len() == 0 {
        true
    } else {
        gitems_carried(xs.drop_last(), et) && gser_carried(xs.last(), et)
    }
}

pub open spec fn gfields_carried(
    fs: Seq<(Seq<char>, Option<ValueModel>)>,
    fts: Seq<(Seq<char>, TypeModel, bool)>,
) -> bool
    decreases fs,
{
    if fs.len() == 0 {
        true
    } else {
        &&& fts.len() == fs.len()
        &&& gfields_carried(fs.drop_last(), fts.drop_last())
        &&& match fs.last().1 {
            Some(x) => ident_chars(fs.last().0) && gser_carried(x, fts.last().1),
            None => true,
        }
    }
}

proof fn lemma_ident_chars_plain(s: Seq<char>)
    requires
        ident_chars(s),
    ensures
        plain(s),
{
    assert forall|k: int| 0 <= k < s.len() implies inert(#[trigger] s[k], 0) by {
        assert(ident_ascii(s[k]));
    }
}

/// What GSER carries back is balanced text.
pub proof fn lemma_carried_balanced(v: ValueModel, ty: TypeModel)
    requires
        gser_carried(v, ty),
    ensures
        balanced(Codec::Gser, v),
    decreases v,
{
    match v {
        ValueModel::Enumerated(id) => {
            lemma_ident_chars_plain(id);
        },
        ValueModel::Sequence(fs) => {
            lemma_gfields_balanced(fs, crate::laws::typed::component_types(ty));
        },
        ValueModel::SequenceOf(xs) => {
            lemma_gitems_balanced(xs, *(ty->SequenceOf_0));
        },
        ValueModel::SetOf(xs) => {
            lemma_gitems_balanced(xs, *(ty->SetOf_0));
        },
        ValueModel::Choice(id, x) => {
            lemma_ident_chars_plain(id);
            let alts = ty->Choice_0;
            let i = find_alt(alts, id)->Some_0;
            lemma_carried_balanced(*x, alts[i].1);
        },
        _ => {},
    }
}

proof fn lemma_gitems_balanced(xs: Seq<ValueModel>, et: TypeModel)
    requires
        gitems_carried(xs, et),
    ensures
        items_balanced(Codec::Gser, xs),
    decreases xs,
{
    if xs.len() > 0 {
        lemma_gitems_balanced(xs.drop_last(), et);
        lemma_carried_balanced(xs.last(), et);
    }
}

proof fn lemma_gfields_balanced(
    fs: Seq<(Seq<char>, Option<ValueModel>)>,
    fts: Seq<(Seq<char>, TypeModel, bool)>,
)
    requires
        gfields_carried(fs, fts),
    ensures
        fields_balanced(Codec::Gser, fs),
    decreases fs,
{
    if fs.len() > 0 {
        lemma_gfields_balanced(fs.drop_last(), fts.drop_last());
        match fs.last().1 {
            Some(x) => {
                lemma_ident_chars_plain(fs.last().0);
                lemma_carried_balanced(x, fts.last().1);
            },
            None => {},
        }
    }
}

/// A written text that the GSER decoder can cut out and read: no whitespace
/// at either end, no closing brace, comma or colon in front, passed over
/// whole by the scanner.
pub open spec fn greads(x: Seq<char>) -> bool {
    &&& x.len() >= 1
    &&& !is_ws(x[0])
    &&& !is_ws(x.last())
    &&& x[0] != '}'
    &&& x[0] != ','
    &&& x[0] != ':'
    &&& forall|w: Seq<char>| (w.len() == 0 || w[0] != '"') ==> #[trigger] passes_at(x, w, 0)
}

/// Text without whitespace.
pub open spec fn ws_free(s: Seq<char>) -> bool {
    forall|j: int| 0 <= j < s.len() ==> !is_ws(#[trigger] s[j])
}

proof fn lemma_join_no_ws(xs: Seq<Seq<char>>, sep: Seq<char>)
    requires
        forall|k: int| 0 <= k < xs.len() ==> ws_free(#[trigger] xs[k]),
        ws_free(sep),
    ensures
        ws_free(join(xs, sep)),
    decreases xs.len(),
{
    if xs.len() > 1 {
        let xs1 = xs.drop_last();
        assert forall|k: int| 0 <= k < xs1.len() implies ws_free(#[trigger] xs1[k]) by {
            assert(xs1[k] == xs[k]);
        }
        lemma_join_no_ws(xs1, sep);
        let a = join(xs1, sep);
        let l = xs.last();
        assert(ws_free(l));
        assert(join(xs, sep) == a + sep + l);
        assert forall|j: int| 0 <= j < join(xs, sep).len() implies !is_ws(#[trigger] join(xs, sep)[j]) by {
            if j < a.len() {
                assert(join(xs, sep)[j] == a[j]);
            } else if j < a.len() + sep.len() {
                assert(join(xs, sep)[j] == sep[j - a.len()]);
            } else {
                assert(join(xs, sep)[j] == l[j - a.len() - sep.len()]);
            }
        }
    } else if xs.len() == 1 {
        assert(join(xs, sep) == xs[0]);
        assert(ws_free(xs[0]));
    }
}

proof fn lemma_gser_oid_shape(arcs: Seq<u32>)
    requires
        arcs.len() >= 1,
    ensures
        crate::avn::enc::gser_oid_text(arcs).len() >= 1,
        is_digit(crate::avn::enc::gser_oid_text(arcs)[0]),
        ws_free(crate::avn::enc::gser_oid_text(arcs)),
{
    let xs = arc_texts(arcs);
    assert forall|k: int| 0 <= k < xs.len() implies ws_free(#[trigger] xs[k]) by {
        crate::laws::lexical::lemma_nat_text(arcs[k] as nat);
        assert forall|j: int| 0 <= j < xs[k].len() implies !is_ws(#[trigger] xs[k][j]) by {
            assert(is_digit(xs[k][j]));
        }
    }
    let dot = seq!['.'];
    assert(ws_free(dot)) by {
        assert forall|j: int| 0 <= j < dot.len() implies !is_ws(#[trigger] dot[j]) by {}
    }
    lemma_join_no_ws(xs, dot);
    crate::laws::lexical::law_gser_oid(arcs);
    crate::laws::lexical::lemma_nat_text(arcs[0] as nat);
    let t = crate::avn::enc::gser_oid_text(arcs);
    assert(crate::avn::de::digit_end(t, 0) > 0);
    crate::avn::de::lemma_digit_end(t, 0);
}

/// Each text that GSER writes for what it carries back can be cut out and read.
pub proof fn lemma_gser_greads(v: ValueModel, ty: TypeModel)
    requires
        gser_carried(v, ty),
    ensures
        greads(notation_text(Codec::Gser, v)),
    decreases v,
{
    let x = notation_text(Codec::Gser, v);
    lemma_carried_balanced(v, ty);
    match v {
        ValueModel::Integer(n) => {
            crate::laws::avn_reads::lemma_parse_int(n);
        },
        ValueModel::BitString(bits) => {
            if bits.len() % 4 == 0 {
                let h = crate::avn::enc::hex_text(crate::avn::enc::pack_bits(bits));
                assert(h[0] == '\'');
                assert(h.last() == 'H');
            } else {
                let h = crate::avn::enc::bin_text(bits);
                assert(h[0] == '\'');
                assert(h.last() == 'B');
            }
        },
        ValueModel::OctetString(b) => {
            let h = crate::avn::enc::hex_text(b);
            assert(h[0] == '\'');
            assert(h.last() == 'H');
        },
        ValueModel::ObjectIdentifier(arcs) => {
            lemma_gser_oid_shape(arcs);
            assert(!is_ws(x[x.len() - 1]));
        },
        ValueModel::Enumerated(id) => {
            assert(ident_ascii(id[0]));
            assert(ident_ascii(id[id.len() - 1]));
        },
        ValueModel::Sequence(fs) => {
            let es = entry_texts(Codec::Gser, fs);
            if es.len() > 0 {
                assert(x == seq!['{', ' '] + join(es, seq![',', ' ']) + seq![' ', '}']);
            }
            assert(x[0] == '{');
            assert(x.last() == '}');
        },
        ValueModel::SequenceOf(xs) => {
            let es = item_texts(Codec::Gser, xs);
            if es.len() > 0 {
                assert(x == seq!['{', ' '] + join(es, seq![',', ' ']) + seq![' ', '}']);
            }
            assert(x[0] == '{');
            assert(x.last() == '}');
        },
        ValueModel::SetOf(xs) => {
            let es = item_texts(Codec::Gser, xs);
            if es.len() > 0 {
                assert(x == seq!['{', ' '] + join(es, seq![',', ' ']) + seq![' ', '}']);
            }
            assert(x[0] == '{');
            assert(x.last() == '}');
        },
        ValueModel::Choice(id, y) => {
            let alts = ty->Choice_0;
            let i = find_alt(alts, id)->Some_0;
            lemma_gser_greads(*y, alts[i].1);
            let yt = notation_text(Codec::Gser, *y);
            assert(x == id + seq![':', ' '] + yt);
            assert(x[0] == id[0]);
            assert(ident_ascii(id[0]));
            assert(x.last() == yt.last());
        },
        _ => {},
    }
    assert forall|w: Seq<char>| (w.len() == 0 || w[0] != '"') implies #[trigger] passes_at(x, w, 0) by {
        crate::laws::written::lemma_value_passes(Codec::Gser, v, w, 0);
    }
}

// ----------------------------------------------------------------------------
// Cutting lists and CHOICE values into parts
// ----------------------------------------------------------------------------
/// Where the scanner stops after a part: at the comma that follows it, or at
/// the `}` after the space that ends the list.
proof fn lemma_part_end(x: Seq<char>, rest: Seq<char>, last: bool)
    requires
        greads(x),
        last ==> rest == seq![' ', '}'],
        !last ==> rest.len() >= 1 && rest[0] == ',',
    ensures
        value_end(x + rest, 0, 0, false) == x.len() + if last {
            1int
        } else {
            0int
        },
{
    assert(passes_at(x, rest, 0));
    if last {
        lemma_step(' ', seq!['}'], 0);
        assert(seq![' '] + seq!['}'] =~= rest);
        assert(value_end(seq!['}'], 0, 0, false) == 0);
    } else {
        assert(value_end(rest, 0, 0, false) == 0);
    }
}

/// `ident_tail_end` stops after an identifier followed by an ASCII character
/// that cannot continue it.
proof fn lemma_ident_chars_at(t: Seq<char>, i: int, id: Seq<char>)
    requires
        ident_chars(id),
        0 <= i,
        i + id.len() < t.len(),
        t.subrange(i, i + id.len()) == id,
        (t[i + id.len()] as u32) < 128 && !ident_ascii(t[i + id.len()]),
    ensures
        ident_tail_end(t, i) == i + id.len(),
{
    assert forall|j: int| i <= j < i + id.len() implies ident_ascii(#[trigger] t[j]) by {
        assert(t[j] == id[j - i]);
    }
    lemma_ident_run(t, i, i + id.len());
}

/// The components of a SEQUENCE from `pos`, where a space and the tail from
/// component `k` stand: GSER cuts out each name and value text.
#[verifier::spinoff_prover]
#[verifier::rlimit(60)]
pub proof fn lemma_g_fields(
    t: Seq<char>,
    pos: int,
    ts: Seq<Seq<char>>,
    pairs: Seq<(Seq<char>, Seq<char>)>,
    k: int,
)
    requires
        0 <= k < ts.len(),
        ts.len() == pairs.len(),
        1 <= pos,
        pos + 1 + tail(ts, k).len() == t.len(),
        t.subrange(pos, t.len() as int) == seq![' '] + tail(ts, k),
        forall|j: int|
            0 <= j < ts.len() ==> #[trigger] ts[j] == pairs[j].0 + seq![' '] + pairs[j].1
                && ident_chars(pairs[j].0) && greads(pairs[j].1),
    ensures
        g_field(t, pos) is Some,
        g_field(t, pos)->Some_0.0 == pairs[k].0,
        g_field(t, pos)->Some_0.1 == pairs[k].1,
        g_fields_more(t, g_field(t, pos)->Some_0.2) == Some(pairs.subrange(k + 1, pairs.len() as int)),
    decreases ts.len() - k,
{
    let name = pairs[k].0;
    let x = pairs[k].1;
    assert(ts[k] == pairs[k].0 + seq![' '] + pairs[k].1 && ident_chars(pairs[k].0) && greads(pairs[k].1));
    let last = k == ts.len() - 1;
    let rest = if last {
        seq![' ', '}']
    } else {
        seq![',', ' '] + tail(ts, k + 1)
    };
    assert(tail(ts, k) == ts[k] + rest);
    let u = t.subrange(pos, t.len() as int);
    assert(u =~= seq![' '] + name + seq![' '] + x + rest);
    let n = name.len() as int;
    let p = pos + 1;
    let q = p + n;
    let r = q + 1;
    assert(t[pos] == u[0]);
    assert(t[p] == u[1]);
    assert(u[1] == name[0]);
    assert(ident_ascii(name[0]));
    assert(skip_ws(t, p) == p);
    assert(skip_ws(t, pos) == p);
    assert(t.subrange(p, q) =~= u.subrange(1, 1 + n));
    assert(u.subrange(1, 1 + n) =~= name);
    assert(t[q] == u[1 + n]);
    assert(u[1 + n] == ' ');
    lemma_ident_chars_at(t, p, name);
    assert(t[r] == u[2 + n]);
    assert(u[2 + n] == x[0]);
    assert(skip_ws(t, r) == r);
    assert(skip_ws(t, q) == r);
    let v = t.subrange(r, t.len() as int);
    lemma_sub_shift(t, pos, 2 + n, u);
    assert(v =~= x + rest);
    lemma_part_end(x, rest, last);
    lemma_trim_clean(x);
    if last {
        let e = r + x.len() + 1;
        assert(t.subrange(r, e) =~= x + seq![' ']);
        assert(t[e] == v[x.len() + 1int]);
        assert(skip_ws(t, e) == e);
        assert(g_fields_more(t, e) == Some(Seq::<(Seq<char>, Seq<char>)>::empty()));
        assert(pairs.subrange(k + 1, pairs.len() as int) =~= Seq::<(Seq<char>, Seq<char>)>::empty());
    } else {
        let e = r + x.len();
        assert(t.subrange(r, e) =~= x);
        assert(t[e] == v[x.len() as int]);
        assert(skip_ws(t, e) == e);
        lemma_sub_shift(t, r, x.len() + 1int, v);
        assert(v.subrange(x.len() + 1int, v.len() as int) =~= seq![' '] + tail(ts, k + 1));
        lemma_g_fields(t, e + 1, ts, pairs, k + 1);
        assert(seq![(pairs[k + 1].0, pairs[k + 1].1)] + pairs.subrange(k + 2, pairs.len() as int)
            =~= pairs.subrange(k + 1, pairs.len() as int));
    }
}

/// The items of a list from `pos`, where a space and the tail from item `k`
/// stand: GSER cuts out each item's text.
#[verifier::spinoff_prover]
#[verifier::rlimit(60)]
pub proof fn lemma_g_items(t: Seq<char>, pos: int, ts: Seq<Seq<char>>, k: int)
    requires
        0 <= k < ts.len(),
        1 <= pos,
        pos + 1 + tail(ts, k).len() == t.len(),
        t.subrange(pos, t.len() as int) == seq![' '] + tail(ts, k),
        forall|j: int| 0 <= j < ts.len() ==> #[trigger] greads(ts[j]),
    ensures
        g_single(t, pos).0 == ts[k],
        g_items_more(t, g_single(t, pos).1) == Some(ts.subrange(k + 1, ts.len() as int)),
    decreases ts.len() - k,
{
    let x = ts[k];
    assert(greads(ts[k]));
    let last = k == ts.len() - 1;
    let rest = if last {
        seq![' ', '}']
    } else {
        seq![',', ' '] + tail(ts, k + 1)
    };
    assert(tail(ts, k) == ts[k] + rest);
    let u = t.subrange(pos, t.len() as int);
    assert(u =~= seq![' '] + x + rest);
    let p = pos + 1;
    assert(t[pos] == u[0]);
    assert(t[p] == u[1]);
    assert(u[1] == x[0]);
    assert(skip_ws(t, p) == p);
    assert(skip_ws(t, pos) == p);
    let v = t.subrange(p, t.len() as int);
    lemma_sub_shift(t, pos, 1, u);
    assert(v =~= x + rest);
    lemma_part_end(x, rest, last);
    lemma_trim_clean(x);
    if last {
        let e = p + x.len() + 1;
        assert(t.subrange(p, e) =~= x + seq![' ']);
        assert(t[e] == v[x.len() + 1int]);
        assert(skip_ws(t, e) == e);
        assert(ts.subrange(k + 1, ts.len() as int) =~= Seq::<Seq<char>>::empty());
    } else {
        let e = p + x.len();
        assert(t.subrange(p, e) =~= x);
        assert(t[e] == v[x.len() as int]);
        assert(skip_ws(t, e) == e);
        lemma_sub_shift(t, p, x.len() + 1int, v);
        assert(v.subrange(x.len() + 1int, v.len() as int) =~= seq![' '] + tail(ts, k + 1));
        lemma_g_items(t, e + 1, ts, k + 1);
        crate::avn::de::lemma_value_end(t.subrange(e + 2, t.len() as int), 0, 0, false);
        assert(seq![ts[k + 1]] + ts.subrange(k + 2, ts.len() as int) =~= ts.subrange(
            k + 1,
            ts.len() as int,
        ));
    }
}

/// `id: value` cuts into the identifier and the value's text.
pub proof fn lemma_g_choice(id: Seq<char>, x: Seq<char>)
    requires
        ident_chars(id),
        greads(x),
    ensures
        g_choice(id + seq![':', ' '] + x) == Some((id, x)),
{
    let t = id + seq![':', ' '] + x;
    let n = id.len() as int;
    assert(t[0] == id[0]);
    assert(ident_ascii(id[0]));
    assert(skip_ms(t, 0) == 0);
    assert(t.subrange(0, n) =~= id);
    assert(t[n] == ':');
    lemma_ident_chars_at(t, 0, id);
    assert(skip_ms(t, n) == n);
    assert(t[n + 1] == ' ');
    assert(t[n + 2] == x[0]);
    assert(!is_multispace(x[0]));
    assert(skip_ms(t, n + 2) == n + 2);
    assert(skip_ms(t, n + 1) == n + 2);
    assert(t.subrange(n + 2, t.len() as int) =~= x);
    lemma_trim_clean(x);
}

/// `(name, value text)` for each present component, as GSER writes them.
pub open spec fn gentries(fs: Seq<(Seq<char>, Option<ValueModel>)>) -> Seq<(Seq<char>, Seq<char>)>
    decreases fs.len(),
{
    if fs.len() == 0 {
        Seq::empty()
    } else {
        let rest = gentries(fs.drop_last());
        match fs.last().1 {
            Some(x) => rest.push((fs.last().0, notation_text(Codec::Gser, x))),
            None => rest,
        }
    }
}

pub proof fn lemma_gentries_at(
    fs: Seq<(Seq<char>, Option<ValueModel>)>,
    fts: Seq<(Seq<char>, TypeModel, bool)>,
)
    requires
        gfields_carried(fs, fts),
    ensures
        entry_texts(Codec::Gser, fs).len() == gentries(fs).len(),
        forall|j: int|
            0 <= j < gentries(fs).len() ==> #[trigger] entry_texts(Codec::Gser, fs)[j] == gentries(
                fs,
            )[j].0 + seq![' '] + gentries(fs)[j].1 && ident_chars(gentries(fs)[j].0) && greads(
                gentries(fs)[j].1,
            ),
    decreases fs.len(),
{
    if fs.len() > 0 {
        let fs1 = fs.drop_last();
        lemma_gentries_at(fs1, fts.drop_last());
        let g1 = gentries(fs1);
        let g = gentries(fs);
        let es1 = entry_texts(Codec::Gser, fs1);
        let es = entry_texts(Codec::Gser, fs);
        match fs.last().1 {
            Some(x) => {
                lemma_gser_greads(x, fts.last().1);
                assert(g == g1.push((fs.last().0, notation_text(Codec::Gser, x))));
                assert(es == es1.push(fs.last().0 + seq![' '] + notation_text(Codec::Gser, x)));
                assert forall|j: int| 0 <= j < g.len() implies #[trigger] es[j] == g[j].0 + seq![' ']
                    + g[j].1 && ident_chars(g[j].0) && greads(g[j].1) by {
                    if j < g1.len() {
                        assert(es[j] == es1[j]);
                        assert(g[j] == g1[j]);
                    }
                }
            },
            None => {
                assert(g == g1);
                assert(es == es1);
            },
        }
    }
}

pub proof fn lemma_gitems_at(xs: Seq<ValueModel>, et: TypeModel)
    requires
        gitems_carried(xs, et),
    ensures
        item_texts(Codec::Gser, xs).len() == xs.len(),
        forall|j: int| 0 <= j < xs.len() ==> #[trigger] greads(item_texts(Codec::Gser, xs)[j]),
        forall|j: int|
            0 <= j < xs.len() ==> #[trigger] item_texts(Codec::Gser, xs)[j] == notation_text(
                Codec::Gser,
                xs[j],
            ) && gser_carried(xs[j], et),
    decreases xs.len(),
{
    if xs.len() > 0 {
        let xs1 = xs.drop_last();
        lemma_gitems_at(xs1, et);
        lemma_gser_greads(xs.last(), et);
        let ts = item_texts(Codec::Gser, xs);
        let ts1 = item_texts(Codec::Gser, xs1);
        assert(ts == ts1.push(notation_text(Codec::Gser, xs.last())));
        assert forall|j: int| 0 <= j < xs.len() implies #[trigger] greads(ts[j]) by {
            if j < xs1.len() {
                assert(ts[j] == ts1[j]);
            }
        }
        assert forall|j: int| 0 <= j < xs.len() implies #[trigger] ts[j] == notation_text(
            Codec::Gser,
            xs[j],
        ) && gser_carried(xs[j], et) by {
            if j < xs1.len() {
                assert(ts[j] == ts1[j]);
                assert(xs1[j] == xs[j]);
            }
        }
    }
}

/// A SEQUENCE value's text cuts into its present components.
#[verifier::spinoff_prover]
#[verifier::rlimit(60)]
pub proof fn lemma_g_seq_content(
    fs: Seq<(Seq<char>, Option<ValueModel>)>,
    fts: Seq<(Seq<char>, TypeModel, bool)>,
)
    requires
        gfields_carried(fs, fts),
    ensures
        g_seq_content(braces(entry_texts(Codec::Gser, fs))) == Some(gentries(fs)),
{
    let es = entry_texts(Codec::Gser, fs);
    let t = braces(es);
    let g = gentries(fs);
    lemma_gentries_at(fs, fts);
    if es.len() == 0 {
        assert(t == seq!['{', ' ', '}']);
        assert(skip_ws(t, 2) == 2);
        assert(skip_ws(t, 1) == 2);
        assert(g =~= Seq::<(Seq<char>, Seq<char>)>::empty());
    } else {
        crate::laws::avn_reads::lemma_braces_tail(es);
        assert(t.subrange(1, t.len() as int) =~= seq![' '] + tail(es, 0));
        lemma_g_fields(t, 1, es, g, 0);
        assert(es[0] == g[0].0 + seq![' '] + g[0].1 && ident_chars(g[0].0) && greads(g[0].1));
        assert(t[2] == g[0].0[0]) by {
            assert(t[2] == (seq![' '] + tail(es, 0))[1]);
        }
        assert(ident_ascii(g[0].0[0]));
        assert(skip_ws(t, 2) == 2);
        assert(skip_ws(t, 1) == 2);
        assert(g_field(t, 2) == g_field(t, 1));
        assert(seq![(g[0].0, g[0].1)] + g.subrange(1, g.len() as int) =~= g);
    }
}

/// A list's text cuts into its items' texts.
pub proof fn lemma_g_seqof_content(xs: Seq<ValueModel>, et: TypeModel)
    requires
        gitems_carried(xs, et),
    ensures
        g_seqof_content(braces(item_texts(Codec::Gser, xs))) == Some(item_texts(Codec::Gser, xs)),
{
    let ts = item_texts(Codec::Gser, xs);
    let t = braces(ts);
    lemma_gitems_at(xs, et);
    if ts.len() == 0 {
        assert(t == seq!['{', ' ', '}']);
        assert(skip_ws(t, 2) == 2);
        assert(skip_ws(t, 1) == 2);
        assert(ts =~= Seq::<Seq<char>>::empty());
    } else {
        crate::laws::avn_reads::lemma_braces_tail(ts);
        assert(t.subrange(1, t.len() as int) =~= seq![' '] + tail(ts, 0));
        assert(forall|j: int| 0 <= j < ts.len() ==> #[trigger] greads(ts[j]));
        lemma_g_items(t, 1, ts, 0);
        assert(greads(ts[0]));
        assert(t[2] == ts[0][0]) by {
            assert(t[2] == (seq![' '] + tail(ts, 0))[1]);
        }
        assert(skip_ws(t, 2) == 2);
        assert(skip_ws(t, 1) == 2);
        assert(g_single(t, 2) == g_single(t, 1));
        assert(seq![ts[0]] + ts.subrange(1, ts.len() as int) =~= ts);
    }
}

} // verus!
