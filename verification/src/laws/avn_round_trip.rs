//! Value notation round trip: decoding what was encoded gives the value back.
use vstd::prelude::*;

use crate::avn::de::{
    avn_decode, avn_decode_fields, avn_decode_items, avn_decode_text, lookup, parse_value, Tree,
};
use crate::avn::enc::{avn_text, notation_text, pack_bits};
use crate::laws::avn_reads::{
    avn_readable, avn_tree, field_trees, fields_readable, items_readable, item_trees,
    lemma_avn_parse, lemma_items_at, lemma_reads_value, lemma_trim_clean, reads_as,
};
use crate::laws::typed::{
    distinct_names, fields_typed, items_typed, lemma_fields_typed_at, lemma_items_typed_at, of_type,
};
use crate::laws::written::{balanced, fields_balanced, items_balanced, plain};
use crate::laws::avn_reads::{ident_ascii, ident_text};
use crate::avn::de::{has_at, lemma_ref_end, lit_assign, ref_char, ref_end, strip_assignment};
use crate::text::{is_ws, lemma_skip_ws, skip_ws};
use crate::laws::scan::inert;
use crate::model::{Codec, ErrorModel, RealModel, TypeModel, ValueModel};

verus! {

/// Decoding each tree of a list gives the list.
proof fn lemma_decode_items_list(vs: Seq<Tree>, et: TypeModel, xs: Seq<ValueModel>)
    requires
        vs.len() == xs.len(),
        forall|j: int| 0 <= j < vs.len() ==> #[trigger] avn_decode(vs[j], et) == Ok::<
            ValueModel,
            ErrorModel,
        >(xs[j]),
    ensures
        avn_decode_items(vs, et) == Ok::<Seq<ValueModel>, ErrorModel>(xs),
    decreases vs.len(),
{
    if vs.len() > 0 {
        let vs1 = vs.drop_first();
        let xs1 = xs.drop_first();
        assert forall|j: int| 0 <= j < vs1.len() implies #[trigger] avn_decode(vs1[j], et) == Ok::<
            ValueModel,
            ErrorModel,
        >(xs1[j]) by {
            assert(vs1[j] == vs[j + 1]);
            assert(avn_decode(vs[j + 1], et) == Ok::<ValueModel, ErrorModel>(xs[j + 1]));
        }
        lemma_decode_items_list(vs1, et, xs1);
        assert(avn_decode(vs[0], et) == Ok::<ValueModel, ErrorModel>(xs[0]));
        assert(seq![xs[0]] + xs1 =~= xs);
    } else {
        assert(xs =~= Seq::<ValueModel>::empty());
    }
}

/// Looking a name up among the present components finds nothing when no
/// component has it.
proof fn lemma_lookup_none(fs: Seq<(Seq<char>, Option<ValueModel>)>, name: Seq<char>)
    requires
        forall|i: int| 0 <= i < fs.len() ==> #[trigger] fs[i].0 != name,
    ensures
        lookup(field_trees(fs), name) == Tree::Absent,
    decreases fs.len(),
{
    if fs.len() > 0 {
        let fs1 = fs.drop_last();
        assert forall|i: int| 0 <= i < fs1.len() implies #[trigger] fs1[i].0 != name by {
            assert(fs1[i] == fs[i]);
        }
        lemma_lookup_none(fs1, name);
        assert(fs[fs.len() - 1].0 != name);
        match fs.last().1 {
            Some(x) => {
                assert(field_trees(fs).drop_last() =~= field_trees(fs1));
            },
            None => {},
        }
    }
}

/// Looking up the name of component `k` finds its tree, or nothing when it is absent.
proof fn lemma_lookup_at(fs: Seq<(Seq<char>, Option<ValueModel>)>, k: int)
    requires
        0 <= k < fs.len(),
        forall|i: int, j: int| 0 <= i < j < fs.len() ==> #[trigger] fs[i].0 != #[trigger] fs[j].0,
    ensures
        lookup(field_trees(fs), fs[k].0) == match fs[k].1 {
            Some(x) => avn_tree(x),
            None => Tree::Absent,
        },
    decreases fs.len(),
{
    let fs1 = fs.drop_last();
    let n = fs.len() - 1;
    match fs.last().1 {
        Some(x) => {
            assert(field_trees(fs).drop_last() =~= field_trees(fs1));
            assert(field_trees(fs).last() == (fs[n].0, avn_tree(x)));
        },
        None => {
            assert(field_trees(fs) == field_trees(fs1));
        },
    }
    if k == n {
        match fs[k].1 {
            Some(x) => {},
            None => {
                assert forall|i: int| 0 <= i < fs1.len() implies #[trigger] fs1[i].0 != fs[k].0 by {
                    assert(fs1[i] == fs[i]);
                    assert(fs[i].0 != fs[n].0);
                }
                lemma_lookup_none(fs1, fs[k].0);
            },
        }
    } else {
        assert forall|i: int, j: int| 0 <= i < j < fs1.len() implies #[trigger] fs1[i].0
            != #[trigger] fs1[j].0 by {
            assert(fs1[i] == fs[i]);
            assert(fs1[j] == fs[j]);
        }
        lemma_lookup_at(fs1, k);
        assert(fs1[k] == fs[k]);
        assert(fs[k].0 != fs[n].0);
    }
}

/// Decoding the components from the type's component `k` on gives the
/// components from `k` on.
proof fn lemma_decode_fields_from(
    fs: Seq<(Seq<char>, Option<ValueModel>)>,
    fts: Seq<(Seq<char>, TypeModel, bool)>,
    k: int,
)
    requires
        0 <= k <= fts.len(),
        fs.len() == fts.len(),
        distinct_names(fts),
        forall|i: int|
            0 <= i < fs.len() ==> #[trigger] fs[i].0 == fts[i].0 && (fs[i].1 is None ==> fts[i].2)
                && (fs[i].1 matches Some(x) ==> avn_decode(avn_tree(x), fts[i].1) == Ok::<
                ValueModel,
                ErrorModel,
            >(x)),
    ensures
        avn_decode_fields(field_trees(fs), fts.subrange(k, fts.len() as int)) == Ok::<
            Seq<(Seq<char>, Option<ValueModel>)>,
            ErrorModel,
        >(fs.subrange(k, fs.len() as int)),
    decreases fts.len() - k,
{
    let sub = fts.subrange(k, fts.len() as int);
    if k < fts.len() {
        assert(fs[k].0 == fts[k].0 && (fs[k].1 is None ==> fts[k].2) && (fs[k].1 matches Some(x)
            ==> avn_decode(avn_tree(x), fts[k].1) == Ok::<ValueModel, ErrorModel>(x)));
        assert forall|i: int, j: int| 0 <= i < j < fs.len() implies #[trigger] fs[i].0
            != #[trigger] fs[j].0 by {
            assert(fs[i].0 == fts[i].0);
            assert(fs[j].0 == fts[j].0);
            assert(fts[i].0 != fts[j].0);
        }
        lemma_lookup_at(fs, k);
        assert(sub[0] == fts[k]);
        assert(sub.drop_first() =~= fts.subrange(k + 1, fts.len() as int));
        lemma_decode_fields_from(fs, fts, k + 1);
        match fs[k].1 {
            Some(x) => {
                assert(avn_tree(x) !is Absent);
            },
            None => {},
        }
        assert(seq![(fs[k].0, fs[k].1)] + fs.subrange(k + 1, fs.len() as int) =~= fs.subrange(
            k,
            fs.len() as int,
        ));
    } else {
        assert(sub =~= Seq::<(Seq<char>, TypeModel, bool)>::empty());
        assert(fs.subrange(k, fs.len() as int) =~= Seq::<(Seq<char>, Option<ValueModel>)>::empty());
    }
}

/// Results that are all successes have no first failure.
pub proof fn lemma_no_failure<A>(
    rs: Seq<Result<A, ErrorModel>>,
    cs: Seq<((Seq<char>, TypeModel, bool), int)>,
    n: int,
)
    requires
        n <= rs.len(),
        forall|q: int| 0 <= q < n ==> #[trigger] rs[q] is Ok,
    ensures
        crate::avn::de::first_failure(rs, cs, n) is None,
    decreases n,
{
    if n > 0 {
        lemma_no_failure(rs, cs, n - 1);
        assert(rs[n - 1] is Ok);
    }
}

/// A SET value whose components each decode back decodes back.
proof fn lemma_avn_set(
    fs: Seq<(Seq<char>, Option<ValueModel>)>,
    cs: Seq<((Seq<char>, TypeModel, bool), int)>,
)
    requires
        fs.len() == cs.len(),
        distinct_names(crate::laws::typed::set_fields(cs)),
        forall|i: int|
            0 <= i < fs.len() ==> #[trigger] fs[i].0 == crate::laws::typed::set_fields(cs)[i].0
                && (fs[i].1 is None ==> crate::laws::typed::set_fields(cs)[i].2) && (
            fs[i].1 matches Some(x) ==> avn_decode(avn_tree(x), crate::laws::typed::set_fields(cs)[i].1)
                == Ok::<ValueModel, ErrorModel>(x)),
    ensures
        crate::avn::de::set_outcome(cs, crate::avn::de::avn_set_results(field_trees(fs), cs)) == Ok::<
            ValueModel,
            ErrorModel,
        >(ValueModel::Sequence(fs)),
{
    let fts = crate::laws::typed::set_fields(cs);
    let ftr = field_trees(fs);
    let rs = crate::avn::de::avn_set_results(ftr, cs);
    crate::avn::de::lemma_set_results(ftr, cs);
    assert forall|i: int, j: int| 0 <= i < j < fs.len() implies #[trigger] fs[i].0
        != #[trigger] fs[j].0 by {
        assert(fs[i].0 == fts[i].0);
        assert(fs[j].0 == fts[j].0);
        assert(fts[i].0 != fts[j].0);
    }
    assert forall|q: int| 0 <= q < rs.len() implies #[trigger] rs[q] == Ok::<
        Option<ValueModel>,
        ErrorModel,
    >(fs[q].1) by {
        lemma_lookup_at(fs, q);
        assert(cs[q].0 == fts[q]);
        match fs[q].1 {
            Some(x) => {
                assert(avn_tree(x) !is Absent);
            },
            None => {},
        }
    }
    lemma_no_failure(rs, cs, rs.len() as int);
    assert forall|i: int| 0 <= i < fs.len() implies (cs[i].0.0, rs[i]->Ok_0) == fs[i] by {
        assert(cs[i].0 == fts[i]);
        assert(fs[i].0 == fts[i].0);
        assert(rs[i] == Ok::<Option<ValueModel>, ErrorModel>(fs[i].1));
    }
    assert(Seq::new(rs.len(), |i: int| (cs[i].0.0, rs[i]->Ok_0)) =~= fs);
}

/// Each tree of a value of the type decodes back as the value.
pub proof fn lemma_avn_decode(v: ValueModel, ty: TypeModel)
    requires
        avn_readable(v),
        of_type(v, ty),
    ensures
        avn_decode(avn_tree(v), ty) == Ok::<ValueModel, ErrorModel>(v),
    decreases v, 1int,
{
    match ty {
        TypeModel::Integer { min, max } => {
            let n = v->Integer_0;
            crate::laws::lexical::law_integer_numeral(n, i128::MIN as int, i128::MAX as int);
        },
        TypeModel::BitString => {
            let bits = v->BitString_0;
            if bits.len() % 4 == 0 {
                crate::laws::lexical::law_pack_bits(bits);
            }
        },
        TypeModel::Sequence(fts) => {
            let fs = v->Sequence_0;
            lemma_fields_typed_at(fs, fts);
            lemma_fields_decode(fs, fts);
            lemma_decode_fields_from(fs, fts, 0);
            assert(fts.subrange(0, fts.len() as int) =~= fts);
            assert(fs.subrange(0, fs.len() as int) =~= fs);
        },
        TypeModel::ObjectIdentifier => {
            crate::laws::avn_reads::lemma_parse_oid(v->ObjectIdentifier_0);
        },
        TypeModel::Real => {
            match v->Real_0 {
                RealModel::Tuple { mantissa, base, exponent } => {
                    crate::laws::avn_reads::lemma_parse_tuple(mantissa, base, exponent);
                },
                _ => {},
            }
        },
        TypeModel::SetType(cs) => {
            let fs = v->Sequence_0;
            let fts = crate::laws::typed::set_fields(cs);
            lemma_fields_typed_at(fs, fts);
            lemma_fields_decode(fs, fts);
            lemma_avn_set(fs, cs);
        },
        TypeModel::SequenceOf(et) => {
            let xs = v->SequenceOf_0;
            lemma_readable_balanced(v);
            crate::laws::avn_reads::lemma_parse_list(xs);
            reveal(crate::laws::avn_reads::list_tree);
            lemma_items_decode(xs, *et);
            lemma_items_at(xs);
            assert forall|j: int| 0 <= j < item_trees(xs).len() implies #[trigger] avn_decode(
                item_trees(xs)[j],
                *et,
            ) == Ok::<ValueModel, ErrorModel>(xs[j]) by {
                assert(crate::avn::enc::item_texts(Codec::Avn, xs)[j] == notation_text(Codec::Avn, xs[j]));
            }
            if xs.len() == 0 {
                assert(Seq::<(Seq<char>, Tree)>::empty().map_values(|p: (Seq<char>, Tree)| p.1)
                    =~= Seq::<Tree>::empty());
                assert(xs =~= Seq::<ValueModel>::empty());
            } else {
                lemma_decode_items_list(item_trees(xs), *et, xs);
            }
        },
        TypeModel::SetOf(et) => {
            let xs = v->SetOf_0;
            lemma_readable_balanced(v);
            crate::laws::avn_reads::lemma_parse_list(xs);
            reveal(crate::laws::avn_reads::list_tree);
            lemma_items_decode(xs, *et);
            lemma_items_at(xs);
            assert forall|j: int| 0 <= j < item_trees(xs).len() implies #[trigger] avn_decode(
                item_trees(xs)[j],
                *et,
            ) == Ok::<ValueModel, ErrorModel>(xs[j]) by {
                assert(crate::avn::enc::item_texts(Codec::Avn, xs)[j] == notation_text(Codec::Avn, xs[j]));
            }
            if xs.len() == 0 {
                assert(Seq::<(Seq<char>, Tree)>::empty().map_values(|p: (Seq<char>, Tree)| p.1)
                    =~= Seq::<Tree>::empty());
                assert(xs =~= Seq::<ValueModel>::empty());
            } else {
                lemma_decode_items_list(item_trees(xs), *et, xs);
            }
        },
        TypeModel::Choice(alts) => {
            let x = *(v->Choice_1);
            let i = crate::avn::de::find_alt(alts, v->Choice_0)->Some_0;
            lemma_avn_decode(x, alts[i].1);
        },
        _ => {},
    }
}

/// Each present component decodes back.
proof fn lemma_fields_decode(
    fs: Seq<(Seq<char>, Option<ValueModel>)>,
    fts: Seq<(Seq<char>, TypeModel, bool)>,
)
    requires
        fields_readable(fs),
        fields_typed(fs, fts),
    ensures
        forall|i: int|
            0 <= i < fs.len() ==> #[trigger] fs[i].0 == fts[i].0 && (fs[i].1 is None ==> fts[i].2)
                && (fs[i].1 matches Some(x) ==> avn_decode(avn_tree(x), fts[i].1) == Ok::<
                ValueModel,
                ErrorModel,
            >(x)),
    decreases fs, 0int,
{
    lemma_fields_typed_at(fs, fts);
    if fs.len() > 0 {
        let fs1 = fs.drop_last();
        let fts1 = fts.drop_last();
        lemma_fields_decode(fs1, fts1);
        let n = fs.len() - 1;
        match fs.last().1 {
            Some(x) => {
                lemma_avn_decode(x, fts.last().1);
            },
            None => {},
        }
        assert forall|i: int| 0 <= i < fs.len() implies #[trigger] fs[i].0 == fts[i].0 && (fs[i].1 is None
            ==> fts[i].2) && (fs[i].1 matches Some(x) ==> avn_decode(avn_tree(x), fts[i].1) == Ok::<
            ValueModel,
            ErrorModel,
        >(x)) by {
            if i < n {
                assert(fs1[i] == fs[i]);
                assert(fts1[i] == fts[i]);
            }
        }
    }
}

/// Each item decodes back.
proof fn lemma_items_decode(xs: Seq<ValueModel>, et: TypeModel)
    requires
        items_readable(xs),
        items_typed(xs, et),
    ensures
        forall|j: int|
            0 <= j < xs.len() ==> #[trigger] avn_decode(avn_tree(xs[j]), et) == Ok::<
                ValueModel,
                ErrorModel,
            >(xs[j]),
    decreases xs, 0int,
{
    if xs.len() > 0 {
        let xs1 = xs.drop_last();
        lemma_items_decode(xs1, et);
        lemma_avn_decode(xs.last(), et);
        assert forall|j: int| 0 <= j < xs.len() implies #[trigger] avn_decode(avn_tree(xs[j]), et)
            == Ok::<ValueModel, ErrorModel>(xs[j]) by {
            if j < xs1.len() {
                assert(xs1[j] == xs[j]);
            }
        }
    }
}

proof fn lemma_ident_plain(s: Seq<char>)
    requires
        ident_text(s),
    ensures
        plain(s),
{
    assert forall|k: int| 0 <= k < s.len() implies inert(#[trigger] s[k], 0) by {
        assert(crate::laws::avn_reads::ident_ascii(s[k]));
    }
}

/// What value notation reads back is balanced text.
pub proof fn lemma_readable_balanced(v: ValueModel)
    requires
        avn_readable(v),
    ensures
        balanced(Codec::Avn, v),
    decreases v,
{
    match v {
        ValueModel::Enumerated(id) => {
            lemma_ident_plain(id);
        },
        ValueModel::Sequence(fs) => {
            lemma_fields_readable_balanced(fs);
        },
        ValueModel::SequenceOf(xs) => {
            lemma_items_readable_balanced(xs);
        },
        ValueModel::SetOf(xs) => {
            lemma_items_readable_balanced(xs);
        },
        ValueModel::Choice(id, x) => {
            lemma_ident_plain(id);
            lemma_readable_balanced(*x);
        },
        _ => {},
    }
}

proof fn lemma_items_readable_balanced(xs: Seq<ValueModel>)
    requires
        items_readable(xs),
    ensures
        items_balanced(Codec::Avn, xs),
    decreases xs,
{
    if xs.len() > 0 {
        lemma_items_readable_balanced(xs.drop_last());
        lemma_readable_balanced(xs.last());
    }
}

proof fn lemma_fields_readable_balanced(fs: Seq<(Seq<char>, Option<ValueModel>)>)
    requires
        fields_readable(fs),
    ensures
        fields_balanced(Codec::Avn, fs),
    decreases fs,
{
    if fs.len() > 0 {
        lemma_fields_readable_balanced(fs.drop_last());
        match fs.last().1 {
            Some(x) => {
                lemma_ident_plain(fs.last().0);
                lemma_readable_balanced(x);
            },
            None => {},
        }
    }
}

/// A text with no `:` before position `p`, where `p` is its end or a `:`
/// not followed by another, does not start with a value assignment.
proof fn lemma_strip_none(t: Seq<char>, p: int)
    requires
        0 <= p <= t.len(),
        forall|k: int| 0 <= k < p ==> #[trigger] t[k] != ':',
        p < t.len() ==> t[p] == ':' && (p + 1 >= t.len() || t[p + 1] != ':'),
    ensures
        strip_assignment(t) == t,
{
    if t.len() >= 1 && 'a' <= t[0] && t[0] <= 'z' {
        let e1 = ref_end(t, 1);
        lemma_ref_end(t, 1);
        if e1 > p {
            assert(ref_char(t[p]));
        }
        let w1 = skip_ws(t, e1);
        lemma_skip_ws(t, e1);
        if w1 > p {
            assert(is_ws(t[p]));
        }
        if w1 > e1 && w1 < t.len() && 'A' <= t[w1] && t[w1] <= 'Z' {
            let e2 = ref_end(t, w1 + 1);
            lemma_ref_end(t, w1 + 1);
            if e2 > p {
                assert(ref_char(t[p]));
            }
            let w2 = skip_ws(t, e2);
            lemma_skip_ws(t, e2);
            if w2 > p {
                assert(is_ws(t[p]));
            }
            if has_at(t, w2, lit_assign()) {
                assert(t.subrange(w2, w2 + 3)[0] == t[w2]);
                assert(t.subrange(w2, w2 + 3)[1] == t[w2 + 1]);
            }
        }
    }
}

/// The value notation written for a value does not start with a value
/// assignment.
pub proof fn lemma_no_assignment(v: ValueModel)
    requires
        avn_readable(v),
    ensures
        strip_assignment(avn_text(v)) == avn_text(v),
{
    let t = avn_text(v);
    match v {
        ValueModel::Enumerated(id) => {
            assert forall|k: int| 0 <= k < t.len() implies #[trigger] t[k] != ':' by {
                assert(ident_ascii(id[k]));
            }
            lemma_strip_none(t, t.len() as int);
        },
        ValueModel::Choice(id, x) => {
            let p = id.len() as int;
            assert forall|k: int| 0 <= k < p implies #[trigger] t[k] != ':' by {
                assert(t[k] == id[k]);
                assert(ident_ascii(id[k]));
            }
            assert(t[p] == ':');
            assert(t[p + 1] == ' ');
            lemma_strip_none(t, p);
        },
        ValueModel::Integer(n) => {
            crate::laws::avn_reads::lemma_parse_int(n);
        },
        ValueModel::Bool(b) => {
            if b {
                assert(t[0] == 'T');
            } else {
                assert(t[0] == 'F');
            }
        },
        ValueModel::Null => {
            assert(t[0] == 'N');
        },
        ValueModel::Real(r) => {
            match r {
                RealModel::PlusInfinity => {
                    assert(t[0] == 'P');
                },
                RealModel::MinusInfinity => {
                    assert(t[0] == 'M');
                },
                RealModel::Tuple { mantissa, base, exponent } => {
                    assert(t[0] == '{');
                },
                _ => {},
            }
        },
        ValueModel::BitString(bits) => {
            if bits.len() % 4 == 0 {
                assert(t[0] == '\'');
            } else {
                assert(t[0] == '\'');
            }
        },
        ValueModel::OctetString(b) => {
            assert(t[0] == '\'');
        },
        ValueModel::ObjectIdentifier(arcs) => {
            assert(t[0] == '{');
        },
        ValueModel::Text(_, x) => {
            assert(t[0] == '"');
        },
        ValueModel::Sequence(fs) => {
            assert(t[0] == '{');
        },
        ValueModel::SequenceOf(xs) => {
            assert(t[0] == '{');
        },
        ValueModel::SetOf(xs) => {
            assert(t[0] == '{');
        },
    }
}

/// A REAL given as a decimal numeral is written as the tuple
/// `{ mantissa, 10, exponent }` of the numeral (see `numeral_tuple`), and
/// reads back as that tuple where the exponent fits an `i32`.
#[verifier::spinoff_prover]
#[verifier::rlimit(80)]
pub proof fn law_avn_real_numeral(t: Seq<char>)
    requires
        i32::MIN <= crate::avn::enc::numeral_tuple(t).1 <= i32::MAX,
    ensures
        avn_decode_text(avn_text(ValueModel::Real(RealModel::Numeral(t))), TypeModel::Real) == Ok::<
            ValueModel,
            ErrorModel,
        >(
            ValueModel::Real(
                RealModel::Tuple {
                    mantissa: crate::avn::enc::numeral_tuple(t).0,
                    base: 10,
                    exponent: crate::avn::enc::numeral_tuple(t).1,
                },
            ),
        ),
{
    let m = crate::avn::enc::numeral_tuple(t).0;
    let e = crate::avn::enc::numeral_tuple(t).1;
    assert(i64::MIN <= m <= i64::MAX);
    let x = crate::avn::enc::tuple_text(m, 10, e);
    assert(avn_text(ValueModel::Real(RealModel::Numeral(t))) == x);
    crate::laws::avn_reads::lemma_parse_tuple(m, 10, e);
    assert(x[0] == '{');
    assert(x.last() == '}');
    lemma_trim_clean(x);
    assert(strip_assignment(x) == x);
}

/// A REAL zero is written `0`, which reads back as the numeral `0`.
pub proof fn law_avn_real_zero()
    ensures
        avn_decode_text(avn_text(ValueModel::Real(RealModel::Zero)), TypeModel::Real) == Ok::<
            ValueModel,
            ErrorModel,
        >(ValueModel::Real(RealModel::Numeral(seq!['0']))),
{
    let x = avn_text(ValueModel::Real(RealModel::Zero));
    assert(x == seq!['0']);
    crate::laws::avn_reads::lemma_parse_int(0);
    assert(crate::text::int_text(0) == x);
    lemma_trim_clean(x);
    assert(strip_assignment(x) == x);
}

/// Decoding the value notation written for a value of a type, as that type,
/// gives the value back (for the values that value notation can carry back,
/// see [`avn_readable`]).
pub proof fn law_avn_round_trip(v: ValueModel, ty: TypeModel)
    requires
        avn_readable(v),
        of_type(v, ty),
    ensures
        avn_decode_text(avn_text(v), ty) == Ok::<ValueModel, ErrorModel>(v),
{
    lemma_readable_balanced(v);
    lemma_avn_parse(v);
    let t = avn_text(v);
    lemma_reads_value(t, avn_tree(v));
    lemma_trim_clean(t);
    lemma_no_assignment(v);
    lemma_avn_decode(v, ty);
}

} // verus!
