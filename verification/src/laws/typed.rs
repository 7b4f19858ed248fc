//! Values of a type: what a decoder can hand back for a type description.
use vstd::prelude::*;

use crate::avn::de::find_alt;
use crate::model::{all_permitted, oid_valid, order_key, ErrorModel, SetComponent, TypeModel, ValueModel};
use crate::avn::de::first_failure;

verus! {

/// The value is one of the type: it has the type's shape, an INTEGER lies in
/// the type's range, an OBJECT IDENTIFIER is valid, a string's characters are
/// permitted for its kind, an ENUMERATED identifier is one of the type's, a
/// SEQUENCE (or SET, whose value is written like a SEQUENCE value) has the
/// type's components in order (absent only where optional) under distinct
/// names, and a CHOICE names the first alternative that its
/// identifier matches up to ASCII case.
pub open spec fn of_type(v: ValueModel, ty: TypeModel) -> bool
    decreases v,
{
    match ty {
        TypeModel::Bool => v is Bool,
        TypeModel::Integer { min, max } => match v {
            ValueModel::Integer(n) => min <= n <= max && i128::MIN <= n <= i128::MAX,
            _ => false,
        },
        TypeModel::Null => v is Null,
        TypeModel::Real => v is Real,
        TypeModel::BitString => v is BitString,
        TypeModel::OctetString => v is OctetString,
        TypeModel::ObjectIdentifier => match v {
            ValueModel::ObjectIdentifier(a) => oid_valid(a),
            _ => false,
        },
        TypeModel::Text(kind) => match v {
            ValueModel::Text(k, s) => k == kind && all_permitted(kind, s),
            _ => false,
        },
        TypeModel::Enumerated(ids) => match v {
            ValueModel::Enumerated(id) => ids.contains(id),
            _ => false,
        },
        TypeModel::Sequence(fts) => match v {
            ValueModel::Sequence(fs) => distinct_names(fts) && fields_typed(fs, fts),
            _ => false,
        },
        TypeModel::SetType(cs) => match v {
            ValueModel::Sequence(fs) => distinct_names(set_fields(cs)) && fields_typed(
                fs,
                set_fields(cs),
            ),
            _ => false,
        },
        TypeModel::SequenceOf(et) => match v {
            ValueModel::SequenceOf(xs) => items_typed(xs, *et),
            _ => false,
        },
        TypeModel::SetOf(et) => match v {
            ValueModel::SetOf(xs) => items_typed(xs, *et),
            _ => false,
        },
        TypeModel::Choice(alts) => match v {
            ValueModel::Choice(id, x) => match find_alt(alts, id) {
                Some(i) => 0 <= i < alts.len() && alts[i].0 == id && of_type(*x, alts[i].1),
                None => false,
            },
            _ => false,
        },
    }
}

/// The component types of a SET type, without their tags.
pub open spec fn set_fields(cs: Seq<((Seq<char>, TypeModel, bool), int)>) -> Seq<
    (Seq<char>, TypeModel, bool),
> {
    Seq::new(cs.len(), |i: int| cs[i].0)
}

/// A root component of a SET is decoded before every extension addition,
/// whatever their tags.
pub proof fn law_roots_before_extensions(root: SetComponent, ext: SetComponent)
    requires
        !root.extension,
        ext.extension,
    ensures
        order_key(root) < order_key(ext),
{
}

/// Two extension additions are decoded in the order of the type: their keys
/// are equal, and the earlier one is taken first.
pub proof fn law_extensions_in_type_order(e1: SetComponent, e2: SetComponent)
    requires
        e1.extension,
        e2.extension,
    ensures
        order_key(e1) == order_key(e2),
{
}

/// The failure that a SET reports is the first in the order of decoding:
/// a failed component with the least key, the earliest where keys are
/// equal; there is none exactly when no component failed.
pub proof fn law_first_failure<A>(
    rs: Seq<Result<A, ErrorModel>>,
    cs: Seq<((Seq<char>, TypeModel, bool), int)>,
    n: int,
)
    requires
        0 <= n <= rs.len(),
        n <= cs.len(),
    ensures
        first_failure(rs, cs, n) is None <==> forall|j: int| 0 <= j < n ==> #[trigger] rs[j] is Ok,
        first_failure(rs, cs, n) matches Some(k) ==> 0 <= k < n && rs[k] is Err && forall|j: int|
            0 <= j < n && #[trigger] rs[j] is Err ==> cs[k].1 < cs[j].1 || (cs[k].1 == cs[j].1
                && k <= j),
    decreases n,
{
    if n > 0 {
        law_first_failure(rs, cs, n - 1);
    }
}

/// The component types of a SEQUENCE or SET type.
pub open spec fn component_types(ty: TypeModel) -> Seq<(Seq<char>, TypeModel, bool)> {
    match ty {
        TypeModel::Sequence(fts) => fts,
        TypeModel::SetType(cs) => set_fields(cs),
        _ => Seq::empty(),
    }
}

/// No two components of a SEQUENCE type share a name.
pub open spec fn distinct_names(fts: Seq<(Seq<char>, TypeModel, bool)>) -> bool {
    forall|i: int, j: int| 0 <= i < j < fts.len() ==> #[trigger] fts[i].0 != #[trigger] fts[j].0
}

pub open spec fn items_typed(xs: Seq<ValueModel>, et: TypeModel) -> bool
    decreases xs,
{
    if xs.len() == 0 {
        true
    } else {
        items_typed(xs.drop_last(), et) && of_type(xs.last(), et)
    }
}

/// The components, in the type's order, each of its component type, absent
/// only where the type makes it optional.
pub open spec fn fields_typed(
    fs: Seq<(Seq<char>, Option<ValueModel>)>,
    fts: Seq<(Seq<char>, TypeModel, bool)>,
) -> bool
    decreases fs,
{
    if fs.len() == 0 {
        fts.len() == 0
    } else {
        &&& fts.len() == fs.len()
        &&& fields_typed(fs.drop_last(), fts.drop_last())
        &&& fs.last().0 == fts.last().0
        &&& match fs.last().1 {
            None => fts.last().2,
            Some(x) => of_type(x, fts.last().1),
        }
    }
}

pub proof fn lemma_items_typed_at(xs: Seq<ValueModel>, et: TypeModel)
    requires
        items_typed(xs, et),
    ensures
        forall|j: int| 0 <= j < xs.len() ==> #[trigger] of_type(xs[j], et),
    decreases xs.len(),
{
    if xs.len() > 0 {
        lemma_items_typed_at(xs.drop_last(), et);
        assert forall|j: int| 0 <= j < xs.len() implies #[trigger] of_type(xs[j], et) by {
            if j < xs.len() - 1 {
                assert(xs.drop_last()[j] == xs[j]);
            }
        }
    }
}

pub proof fn lemma_fields_typed_at(
    fs: Seq<(Seq<char>, Option<ValueModel>)>,
    fts: Seq<(Seq<char>, TypeModel, bool)>,
)
    requires
        fields_typed(fs, fts),
    ensures
        fs.len() == fts.len(),
        forall|i: int|
            0 <= i < fs.len() ==> #[trigger] fs[i].0 == fts[i].0 && (fs[i].1 is None ==> fts[i].2)
                && (fs[i].1 matches Some(x) ==> of_type(x, fts[i].1)),
    decreases fs.len(),
{
    if fs.len() > 0 {
        let fs1 = fs.drop_last();
        let fts1 = fts.drop_last();
        lemma_fields_typed_at(fs1, fts1);
        assert forall|i: int| 0 <= i < fs.len() implies #[trigger] fs[i].0 == fts[i].0 && (fs[i].1 is None
            ==> fts[i].2) && (fs[i].1 matches Some(x) ==> of_type(x, fts[i].1)) by {
            if i < fs.len() - 1 {
                assert(fs1[i] == fs[i]);
                assert(fts1[i] == fts[i]);
                assert(fs1[i].0 == fts1[i].0);
            }
        }
    }
}

} // verus!
