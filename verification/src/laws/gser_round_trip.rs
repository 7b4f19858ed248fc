//! GSER round trip: decoding what was encoded gives the value back.
use vstd::prelude::*;

use crate::avn::de::{find_alt, has_at, lit_minus_inf, lit_plus_inf, p_bin, p_hex, signed_end};
use crate::avn::enc::{entry_texts, item_texts, notation_text, pack_bits};
use crate::gser::de::{
    component_texts, gser_decode_fields, gser_decode_items, gser_decode_text, gser_leaf,
    lookup_text,
};
use crate::laws::avn_reads::{lemma_not_at, lemma_trim_clean};
use crate::laws::gser_reads::{
    gentries, gfields_carried, gitems_carried, greads, gser_carried, lemma_g_choice,
    lemma_g_seq_content, lemma_g_seqof_content, lemma_gentries_at, lemma_gitems_at,
    lemma_gser_greads,
};
use crate::laws::typed::{
    distinct_names, fields_typed, items_typed, lemma_fields_typed_at, lemma_items_typed_at, of_type,
};
use crate::model::{Codec, ErrorModel, RealModel, TypeModel, ValueModel};
use crate::text::trim;

verus! {

proof fn lemma_gleaf_words(v: ValueModel, ty: TypeModel)
    requires
        v is Bool || v is Null,
        of_type(v, ty),
    ensures
        gser_leaf(notation_text(Codec::Gser, v), ty) == Ok::<ValueModel, ErrorModel>(v),
{
    let x = notation_text(Codec::Gser, v);
    if v == ValueModel::Bool(false) {
        assert(x[0] == 'F');
        lemma_not_at(x, crate::avn::de::lit_true());
    }
    assert(x.subrange(0, x.len() as int) =~= x);
}

proof fn lemma_gleaf_integer(n: int, ty: TypeModel)
    requires
        of_type(ValueModel::Integer(n), ty),
    ensures
        gser_leaf(notation_text(Codec::Gser, ValueModel::Integer(n)), ty) == Ok::<
            ValueModel,
            ErrorModel,
        >(ValueModel::Integer(n)),
{
    let x = notation_text(Codec::Gser, ValueModel::Integer(n));
    crate::laws::lexical::law_integer_numeral(n, i128::MIN as int, i128::MAX as int);
    assert(x.subrange(0, x.len() as int) =~= x);
}

proof fn lemma_gleaf_real(r: RealModel, ty: TypeModel)
    requires
        gser_carried(ValueModel::Real(r), ty),
        of_type(ValueModel::Real(r), ty),
    ensures
        gser_leaf(notation_text(Codec::Gser, ValueModel::Real(r)), ty) == Ok::<ValueModel, ErrorModel>(
            ValueModel::Real(r),
        ),
{
    let x = notation_text(Codec::Gser, ValueModel::Real(r));
    match r {
        RealModel::PlusInfinity => {
            assert(x.subrange(0, x.len() as int) =~= x);
        },
        RealModel::MinusInfinity => {
            assert(x[0] == 'M');
            lemma_not_at(x, lit_plus_inf());
            assert(x.subrange(0, x.len() as int) =~= x);
        },
        _ => {},
    }
}

proof fn lemma_gleaf_bits(bits: Seq<bool>, ty: TypeModel)
    requires
        gser_carried(ValueModel::BitString(bits), ty),
        of_type(ValueModel::BitString(bits), ty),
    ensures
        gser_leaf(notation_text(Codec::Gser, ValueModel::BitString(bits)), ty) == Ok::<
            ValueModel,
            ErrorModel,
        >(ValueModel::BitString(bits)),
{
    if bits.len() % 4 == 0 {
        crate::laws::lexical::law_hstring(pack_bits(bits));
        crate::laws::lexical::law_pack_bits(bits);
    } else {
        crate::laws::avn_reads::lemma_bin_not_hex(bits);
        crate::laws::lexical::law_bstring(bits);
    }
}

proof fn lemma_gleaf_enum(id: Seq<char>, ty: TypeModel)
    requires
        gser_carried(ValueModel::Enumerated(id), ty),
        of_type(ValueModel::Enumerated(id), ty),
    ensures
        gser_leaf(notation_text(Codec::Gser, ValueModel::Enumerated(id)), ty) == Ok::<
            ValueModel,
            ErrorModel,
        >(ValueModel::Enumerated(id)),
{
    let x = notation_text(Codec::Gser, ValueModel::Enumerated(id));
    assert forall|j: int| 0 <= j < x.len() implies crate::laws::avn_reads::ident_ascii(
        #[trigger] x[j],
    ) by {}
    crate::laws::avn_reads::lemma_ident_run(x, 0, x.len() as int);
    assert(x.subrange(0, x.len() as int) =~= x);
}

/// Each leaf value written in GSER reads back from its own text.
proof fn lemma_gser_leaf(v: ValueModel, ty: TypeModel)
    requires
        gser_carried(v, ty),
        of_type(v, ty),
        !(ty is Sequence || ty is SetType || ty is SequenceOf || ty is SetOf || ty is Choice),
    ensures
        gser_leaf(notation_text(Codec::Gser, v), ty) == Ok::<ValueModel, ErrorModel>(v),
{
    match v {
        ValueModel::Bool(_) => lemma_gleaf_words(v, ty),
        ValueModel::Null => lemma_gleaf_words(v, ty),
        ValueModel::Integer(n) => lemma_gleaf_integer(n, ty),
        ValueModel::Real(r) => lemma_gleaf_real(r, ty),
        ValueModel::BitString(bits) => lemma_gleaf_bits(bits, ty),
        ValueModel::OctetString(b) => {
            crate::laws::lexical::law_hstring(b);
        },
        ValueModel::ObjectIdentifier(arcs) => {
            crate::laws::lexical::law_gser_oid(arcs);
        },
        ValueModel::Text(_, s) => {
            crate::laws::lexical::law_quoted_string(s);
        },
        ValueModel::Enumerated(id) => lemma_gleaf_enum(id, ty),
        _ => {},
    }
}

/// Decoding each item's text gives the items.
proof fn lemma_decode_items(vals: Seq<Seq<char>>, et: TypeModel, xs: Seq<ValueModel>)
    requires
        vals.len() == xs.len(),
        forall|j: int|
            0 <= j < vals.len() ==> #[trigger] gser_decode_text(vals[j], et) == Ok::<
                ValueModel,
                ErrorModel,
            >(xs[j]),
    ensures
        gser_decode_items(vals, et) == Ok::<Seq<ValueModel>, ErrorModel>(xs),
    decreases vals.len(),
{
    if vals.len() > 0 {
        let v1 = vals.drop_first();
        let x1 = xs.drop_first();
        assert forall|j: int| 0 <= j < v1.len() implies #[trigger] gser_decode_text(v1[j], et)
            == Ok::<ValueModel, ErrorModel>(x1[j]) by {
            assert(v1[j] == vals[j + 1]);
            assert(gser_decode_text(vals[j + 1], et) == Ok::<ValueModel, ErrorModel>(xs[j + 1]));
        }
        lemma_decode_items(v1, et, x1);
        assert(gser_decode_text(vals[0], et) == Ok::<ValueModel, ErrorModel>(xs[0]));
        assert(seq![xs[0]] + x1 =~= xs);
    } else {
        assert(xs =~= Seq::<ValueModel>::empty());
    }
}

/// The text that component `k` contributes: its value's text, or nothing.
pub open spec fn slot(fs: Seq<(Seq<char>, Option<ValueModel>)>, k: int) -> Seq<char> {
    match fs[k].1 {
        Some(x) => notation_text(Codec::Gser, x),
        None => Seq::empty(),
    }
}

proof fn lemma_glookup_none(fs: Seq<(Seq<char>, Option<ValueModel>)>, name: Seq<char>)
    requires
        forall|i: int| 0 <= i < fs.len() ==> #[trigger] fs[i].0 != name,
    ensures
        lookup_text(gentries(fs), name) == Seq::<char>::empty(),
    decreases fs.len(),
{
    if fs.len() > 0 {
        let fs1 = fs.drop_last();
        assert forall|i: int| 0 <= i < fs1.len() implies #[trigger] fs1[i].0 != name by {
            assert(fs1[i] == fs[i]);
        }
        lemma_glookup_none(fs1, name);
        assert(fs[fs.len() - 1].0 != name);
        match fs.last().1 {
            Some(x) => {
                assert(gentries(fs).drop_last() =~= gentries(fs1));
            },
            None => {},
        }
    }
}

proof fn lemma_glookup_at(fs: Seq<(Seq<char>, Option<ValueModel>)>, k: int)
    requires
        0 <= k < fs.len(),
        forall|i: int, j: int| 0 <= i < j < fs.len() ==> #[trigger] fs[i].0 != #[trigger] fs[j].0,
    ensures
        lookup_text(gentries(fs), fs[k].0) == slot(fs, k),
    decreases fs.len(),
{
    let fs1 = fs.drop_last();
    let n = fs.len() - 1;
    match fs.last().1 {
        Some(x) => {
            assert(gentries(fs).drop_last() =~= gentries(fs1));
            assert(gentries(fs).last() == (fs[n].0, notation_text(Codec::Gser, x)));
        },
        None => {
            assert(gentries(fs) == gentries(fs1));
        },
    }
    if k == n {
        match fs[k].1 {
            Some(x) => {},
            None => {
                assert forall|i: int| 0 <= i < fs1.len() implies #[trigger] fs1[i].0 != fs[k].0 by {
                    assert(fs1[i] == fs[i]);
                    assert(fs[i].0 != fs[n].0);
                }
                lemma_glookup_none(fs1, fs[k].0);
            },
        }
    } else {
        assert forall|i: int, j: int| 0 <= i < j < fs1.len() implies #[trigger] fs1[i].0
            != #[trigger] fs1[j].0 by {
            assert(fs1[i] == fs[i]);
            assert(fs1[j] == fs[j]);
        }
        lemma_glookup_at(fs1, k);
        assert(fs1[k] == fs[k]);
        assert(slot(fs1, k) == slot(fs, k));
        assert(fs[k].0 != fs[n].0);
    }
}

/// Component `i` contributes its slot, carries the type's name, is absent
/// only where optional, and its text can be read when present.
pub open spec fn field_ok(
    fs: Seq<(Seq<char>, Option<ValueModel>)>,
    fts: Seq<(Seq<char>, TypeModel, bool)>,
    ct: Seq<Seq<char>>,
    i: int,
) -> bool {
    &&& ct[i] == slot(fs, i)
    &&& fs[i].0 == fts[i].0
    &&& fs[i].1 is None ==> fts[i].2
    &&& fs[i].1 is Some ==> greads(ct[i])
}

/// Decoding the component texts from component `k` on gives the components
/// from `k` on.
proof fn lemma_gfields_decode(
    fs: Seq<(Seq<char>, Option<ValueModel>)>,
    fts: Seq<(Seq<char>, TypeModel, bool)>,
    ct: Seq<Seq<char>>,
    k: int,
)
    requires
        0 <= k <= fts.len(),
        fs.len() == fts.len(),
        ct.len() == fts.len(),
        forall|i: int| 0 <= i < fs.len() ==> #[trigger] field_ok(fs, fts, ct, i),
        forall|i: int|
            0 <= i < fs.len() && fs[i].1 is Some ==> #[trigger] gser_decode_text(ct[i], fts[i].1)
                == Ok::<ValueModel, ErrorModel>(fs[i].1->Some_0),
    ensures
        gser_decode_fields(ct.subrange(k, ct.len() as int), fts.subrange(k, fts.len() as int))
            == Ok::<Seq<(Seq<char>, Option<ValueModel>)>, ErrorModel>(
            fs.subrange(k, fs.len() as int),
        ),
    decreases fts.len() - k,
{
    let n = fts.len() as int;
    let sub = fts.subrange(k, n);
    let cs = ct.subrange(k, n);
    if k == n {
        assert(sub =~= Seq::<(Seq<char>, TypeModel, bool)>::empty());
        assert(fs.subrange(k, n) =~= Seq::<(Seq<char>, Option<ValueModel>)>::empty());
    } else {
        assert(field_ok(fs, fts, ct, k));
        assert(sub[0] == fts[k]);
        assert(cs[0] == ct[k]);
        assert(sub.drop_first() =~= fts.subrange(k + 1, n));
        assert(cs.drop_first() =~= ct.subrange(k + 1, n));
        lemma_gfields_decode(fs, fts, ct, k + 1);
        match fs[k].1 {
            None => {
                assert(ct[k] =~= Seq::<char>::empty());
            },
            Some(x) => {
                assert(greads(ct[k]));
                assert(gser_decode_text(ct[k], fts[k].1) == Ok::<ValueModel, ErrorModel>(x));
            },
        }
        assert(seq![(fs[k].0, fs[k].1)] + fs.subrange(k + 1, n) =~= fs.subrange(k, n));
    }
}

proof fn lemma_gfields_carried_at(
    fs: Seq<(Seq<char>, Option<ValueModel>)>,
    fts: Seq<(Seq<char>, TypeModel, bool)>,
)
    requires
        gfields_carried(fs, fts),
    ensures
        forall|i: int|
            0 <= i < fs.len() && #[trigger] fs[i].1 is Some ==> gser_carried(
                fs[i].1->Some_0,
                fts[i].1,
            ),
    decreases fs.len(),
{
    if fs.len() > 0 {
        let fs1 = fs.drop_last();
        let fts1 = fts.drop_last();
        lemma_gfields_carried_at(fs1, fts1);
        assert forall|i: int| 0 <= i < fs.len() && #[trigger] fs[i].1 is Some implies gser_carried(
            fs[i].1->Some_0,
            fts[i].1,
        ) by {
            if i < fs.len() - 1 {
                assert(fs1[i] == fs[i]);
                assert(fts1[i] == fts[i]);
            }
        }
    }
}

/// A SEQUENCE value written in GSER decodes back, each component from its
/// own text.
#[verifier::spinoff_prover]
#[verifier::rlimit(80)]
proof fn lemma_gdec_sequence(
    fs: Seq<(Seq<char>, Option<ValueModel>)>,
    fts: Seq<(Seq<char>, TypeModel, bool)>,
)
    requires
        gfields_carried(fs, fts),
        distinct_names(fts),
        fields_typed(fs, fts),
    ensures
        crate::gser::de::g_seq_content(crate::avn::enc::braces(entry_texts(Codec::Gser, fs)))
            == Some(gentries(fs)),
        gser_decode_fields(component_texts(gentries(fs), fts), fts) == Ok::<
            Seq<(Seq<char>, Option<ValueModel>)>,
            ErrorModel,
        >(fs),
    decreases fs, 0int,
{
    lemma_g_seq_content(fs, fts);
    lemma_fields_typed_at(fs, fts);
    lemma_gfields_carried_at(fs, fts);
    let g = gentries(fs);
    let ct = component_texts(g, fts);
    assert forall|i: int, j: int| 0 <= i < j < fs.len() implies #[trigger] fs[i].0
        != #[trigger] fs[j].0 by {
        assert(fs[i].0 == fts[i].0);
        assert(fs[j].0 == fts[j].0);
        assert(fts[i].0 != fts[j].0);
    }
    assert forall|i: int| 0 <= i < fs.len() implies #[trigger] field_ok(fs, fts, ct, i) by {
        lemma_glookup_at(fs, i);
        assert(fs[i].0 == fts[i].0);
        if fs[i].1 is Some {
            lemma_gser_greads(fs[i].1->Some_0, fts[i].1);
        }
    }
    assert forall|i: int| 0 <= i < fs.len() && fs[i].1 is Some implies #[trigger] gser_decode_text(
        ct[i],
        fts[i].1,
    ) == Ok::<ValueModel, ErrorModel>(fs[i].1->Some_0) by {
        lemma_glookup_at(fs, i);
        assert(fs[i].0 == fts[i].0);
        lemma_gser_decode(fs[i].1->Some_0, fts[i].1);
    }
    lemma_gfields_decode(fs, fts, ct, 0);
    assert(ct.subrange(0, ct.len() as int) =~= ct);
    assert(fts.subrange(0, fts.len() as int) =~= fts);
    assert(fs.subrange(0, fs.len() as int) =~= fs);
}

/// A SET value written in GSER decodes back, each component from its own
/// text.
#[verifier::spinoff_prover]
#[verifier::rlimit(80)]
proof fn lemma_gdec_set(
    fs: Seq<(Seq<char>, Option<ValueModel>)>,
    cs: Seq<((Seq<char>, TypeModel, bool), int)>,
)
    requires
        gfields_carried(fs, crate::laws::typed::set_fields(cs)),
        distinct_names(crate::laws::typed::set_fields(cs)),
        fields_typed(fs, crate::laws::typed::set_fields(cs)),
    ensures
        crate::gser::de::g_seq_content(crate::avn::enc::braces(entry_texts(Codec::Gser, fs)))
            == Some(gentries(fs)),
        crate::avn::de::set_outcome(cs, crate::gser::de::gser_set_results(gentries(fs), cs))
            == Ok::<ValueModel, ErrorModel>(ValueModel::Sequence(fs)),
    decreases fs, 0int,
{
    let fts = crate::laws::typed::set_fields(cs);
    lemma_g_seq_content(fs, fts);
    lemma_fields_typed_at(fs, fts);
    lemma_gfields_carried_at(fs, fts);
    let g = gentries(fs);
    let rs = crate::gser::de::gser_set_results(g, cs);
    crate::gser::de::lemma_gser_set_results(g, cs);
    assert forall|i: int, j: int| 0 <= i < j < fs.len() implies #[trigger] fs[i].0
        != #[trigger] fs[j].0 by {
        assert(fs[i].0 == fts[i].0);
        assert(fs[j].0 == fts[j].0);
        assert(fts[i].0 != fts[j].0);
    }
    assert forall|q: int| 0 <= q < rs.len() implies #[trigger] rs[q] == Ok::<
        Option<ValueModel>,
        ErrorModel,
    >(fs[q].1) by {
        lemma_glookup_at(fs, q);
        assert(cs[q].0 == fts[q]);
        assert(fs[q].0 == fts[q].0);
        match fs[q].1 {
            Some(x) => {
                lemma_gser_greads(x, fts[q].1);
                lemma_gser_decode(x, fts[q].1);
            },
            None => {},
        }
    }
    crate::laws::avn_round_trip::lemma_no_failure(rs, cs, rs.len() as int);
    assert forall|i: int| 0 <= i < fs.len() implies (cs[i].0.0, rs[i]->Ok_0) == fs[i] by {
        assert(cs[i].0 == fts[i]);
        assert(fs[i].0 == fts[i].0);
        assert(rs[i] == Ok::<Option<ValueModel>, ErrorModel>(fs[i].1));
    }
    assert(Seq::new(rs.len(), |i: int| (cs[i].0.0, rs[i]->Ok_0)) =~= fs);
}

/// A list written in GSER decodes back item by item.
#[verifier::spinoff_prover]
proof fn lemma_gdec_items(xs: Seq<ValueModel>, et: TypeModel)
    requires
        gitems_carried(xs, et),
        items_typed(xs, et),
    ensures
        crate::gser::de::g_seqof_content(crate::avn::enc::braces(item_texts(Codec::Gser, xs)))
            == Some(item_texts(Codec::Gser, xs)),
        gser_decode_items(item_texts(Codec::Gser, xs), et) == Ok::<Seq<ValueModel>, ErrorModel>(xs),
    decreases xs, 0int,
{
    lemma_g_seqof_content(xs, et);
    lemma_gitems_at(xs, et);
    lemma_items_typed_at(xs, et);
    let ts = item_texts(Codec::Gser, xs);
    assert forall|j: int| 0 <= j < ts.len() implies #[trigger] gser_decode_text(ts[j], et)
        == Ok::<ValueModel, ErrorModel>(xs[j]) by {
        assert(ts[j] == notation_text(Codec::Gser, xs[j]) && gser_carried(xs[j], et));
        lemma_gser_decode(xs[j], et);
    }
    lemma_decode_items(ts, et, xs);
}

/// GSER text written for a value of a type decodes as that type back to the
/// value.
#[verifier::spinoff_prover]
#[verifier::rlimit(80)]
pub proof fn lemma_gser_decode(v: ValueModel, ty: TypeModel)
    requires
        gser_carried(v, ty),
        of_type(v, ty),
    ensures
        gser_decode_text(notation_text(Codec::Gser, v), ty) == Ok::<ValueModel, ErrorModel>(v),
    decreases v, 1int,
{
    let x = notation_text(Codec::Gser, v);
    lemma_gser_greads(v, ty);
    lemma_trim_clean(x);
    match ty {
        TypeModel::Sequence(fts) => {
            lemma_gdec_sequence(v->Sequence_0, fts);
        },
        TypeModel::SetType(cs) => {
            lemma_gdec_set(v->Sequence_0, cs);
        },
        TypeModel::SequenceOf(et) => {
            lemma_gdec_items(v->SequenceOf_0, *et);
        },
        TypeModel::SetOf(et) => {
            lemma_gdec_items(v->SetOf_0, *et);
        },
        TypeModel::Choice(alts) => {
            let id = v->Choice_0;
            let y = *(v->Choice_1);
            let i = find_alt(alts, id)->Some_0;
            let yt = notation_text(Codec::Gser, y);
            lemma_gser_greads(y, alts[i].1);
            lemma_g_choice(id, yt);
            assert(x == id + seq![':', ' '] + yt);
            lemma_gser_decode(y, alts[i].1);
        },
        _ => {
            lemma_gser_leaf(v, ty);
        },
    }
}

/// Decoding the GSER text written for a value of a type, as that type, gives
/// the value back (for the values that GSER can carry back, see
/// [`gser_carried`]).
pub proof fn law_gser_round_trip(v: ValueModel, ty: TypeModel)
    requires
        gser_carried(v, ty),
        of_type(v, ty),
    ensures
        gser_decode_text(notation_text(Codec::Gser, v), ty) == Ok::<ValueModel, ErrorModel>(v),
{
    lemma_gser_decode(v, ty);
}

} // verus!
