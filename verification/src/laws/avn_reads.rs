//! Value notation reads back: the text written for a value parses as the
//! tree that value stands for.
use vstd::prelude::*;

use crate::avn::de::{
    after_comma, digit_end, has_at, ident_char, ident_end, ident_tail_end, lit_false,
    lit_minus_inf, lit_null, lit_plus_inf, lit_true, named_at, p_bin, p_choice, p_constructed,
    p_fields, p_head, p_hex, p_items, p_oid, p_real_tuple, p_string, p_tail, parse_general, parse_trimmed,
    parse_value, signed_end, value_end, Tree,
};
use crate::avn::enc::{entry_texts, item_texts, join, notation_text, pack_bits};
use crate::laws::lexical::{lemma_digit_end_at, lemma_join_front, lemma_nat_text};
use crate::laws::scan::{inert, lemma_step, passes_at};
use crate::laws::written::{balanced, fields_balanced, items_balanced, plain};
use crate::model::{Codec, RealModel, ValueModel};
use crate::text::{int_text, is_alpha, is_digit, is_multispace, is_ws, nat_text, skip_ms, skip_ws, trim, trim_end};

verus! {

/// The characters of an ASCII identifier after its first.
pub open spec fn ident_ascii(c: char) -> bool {
    is_alpha(c) || is_digit(c) || c == '-' || c == '_'
}

/// An ASCII identifier: a letter or `_`, then letters, digits, `-` and `_`.
pub open spec fn ident_text(s: Seq<char>) -> bool {
    &&& s.len() >= 1
    &&& (is_alpha(s[0]) || s[0] == '_')
    &&& forall|k: int| 0 <= k < s.len() ==> ident_ascii(#[trigger] s[k])
}

/// Text that starts with one of the words `TRUE`, `FALSE`, `NULL`.
pub open spec fn word_prefixed(s: Seq<char>) -> bool {
    has_at(s, 0, lit_true()) || has_at(s, 0, lit_false()) || has_at(s, 0, lit_null())
}

/// Text that starts with `PLUS-INFINITY` or `MINUS-INFINITY`.
pub open spec fn infinity_prefixed(s: Seq<char>) -> bool {
    has_at(s, 0, lit_plus_inf()) || has_at(s, 0, lit_minus_inf())
}

/// A value whose text starts with a bare word that is no CHOICE identifier:
/// as the first item of a list it is first taken for a component name.
pub open spec fn bare_word(v: ValueModel) -> bool {
    match v {
        ValueModel::Bool(_) => true,
        ValueModel::Null => true,
        ValueModel::Enumerated(_) => true,
        ValueModel::Real(RealModel::PlusInfinity) => true,
        ValueModel::Real(RealModel::MinusInfinity) => true,
        _ => false,
    }
}

/// The tree of a written list: a plain list where the general rules read
/// it as one, else its braces kept as text.
#[verifier::opaque]
pub open spec fn list_tree(t: Seq<char>, items: Seq<Tree>) -> Tree {
    match parse_general(t) {
        Some(Tree::Array(_)) => Tree::Array(items),
        _ => Tree::Braces(t),
    }
}

/// The tree that the written value parses as.
pub open spec fn avn_tree(v: ValueModel) -> Tree
    decreases v,
{
    match v {
        ValueModel::Bool(b) => Tree::Bool(b),
        ValueModel::Integer(n) => Tree::Integer(int_text(n)),
        ValueModel::Null => Tree::Null,
        ValueModel::Real(r) => match r {
            RealModel::Tuple { mantissa, base, exponent } => Tree::Braces(
                crate::avn::enc::tuple_text(mantissa, base, exponent),
            ),
            _ => Tree::Real(r),
        },
        ValueModel::BitString(bits) => if bits.len() % 4 == 0 {
            Tree::Bytes(pack_bits(bits))
        } else {
            Tree::BitString(bits)
        },
        ValueModel::OctetString(b) => Tree::Bytes(b),
        ValueModel::ObjectIdentifier(a) => Tree::Braces(crate::avn::enc::avn_oid_text(a)),
        ValueModel::Enumerated(id) => Tree::Identifier(id),
        ValueModel::Text(_, s) => Tree::String(s),
        ValueModel::Sequence(fs) => Tree::Constructed(field_trees(fs)),
        ValueModel::SequenceOf(xs) => if xs.len() == 0 {
            Tree::Constructed(Seq::empty())
        } else {
            list_tree(crate::avn::enc::braces(item_texts(Codec::Avn, xs)), item_trees(xs))
        },
        ValueModel::SetOf(xs) => if xs.len() == 0 {
            Tree::Constructed(Seq::empty())
        } else {
            list_tree(crate::avn::enc::braces(item_texts(Codec::Avn, xs)), item_trees(xs))
        },
        ValueModel::Choice(id, x) => Tree::Choice(id, Box::new(avn_tree(*x))),
    }
}

pub open spec fn item_trees(xs: Seq<ValueModel>) -> Seq<Tree>
    decreases xs,
{
    if xs.len() == 0 {
        Seq::empty()
    } else {
        item_trees(xs.drop_last()).push(avn_tree(xs.last()))
    }
}

/// `(name, tree)` for each present component.
pub open spec fn field_trees(fs: Seq<(Seq<char>, Option<ValueModel>)>) -> Seq<(Seq<char>, Tree)>
    decreases fs,
{
    if fs.len() == 0 {
        Seq::empty()
    } else {
        let rest = field_trees(fs.drop_last());
        match fs.last().1 {
            Some(x) => rest.push((fs.last().0, avn_tree(x))),
            None => rest,
        }
    }
}

/// The present components of a SEQUENCE value.
pub open spec fn present(fs: Seq<(Seq<char>, Option<ValueModel>)>) -> Seq<(Seq<char>, ValueModel)>
    decreases fs.len(),
{
    if fs.len() == 0 {
        Seq::empty()
    } else {
        let rest = present(fs.drop_last());
        match fs.last().1 {
            Some(x) => rest.push((fs.last().0, x)),
            None => rest,
        }
    }
}

/// The values that value notation reads back as themselves. Left out: REAL
/// values written as decimal numerals or as `0` (they read back as
/// numerals), tuples with a negative base, BIT STRING values whose length is
/// four more than a multiple of eight (their hstring reads back padded), an
/// empty OBJECT IDENTIFIER, and identifiers that are not ASCII or start with
/// a literal word.
pub open spec fn avn_readable(v: ValueModel) -> bool
    decreases v,
{
    match v {
        ValueModel::Real(r) => match r {
            RealModel::PlusInfinity => true,
            RealModel::MinusInfinity => true,
            RealModel::Tuple { mantissa, base, exponent } => i64::MIN <= mantissa <= i64::MAX && 0
                <= base <= i32::MAX && i32::MIN <= exponent <= i32::MAX,
            _ => false,
        },
        ValueModel::ObjectIdentifier(a) => a.len() >= 1,
        ValueModel::BitString(bits) => bits.len() % 8 != 4,
        ValueModel::Enumerated(id) => ident_text(id) && !word_prefixed(id) && !infinity_prefixed(
            id,
        ),
        ValueModel::Sequence(fs) => fields_readable(fs),
        ValueModel::SequenceOf(xs) => items_readable(xs),
        ValueModel::SetOf(xs) => items_readable(xs),
        ValueModel::Choice(id, x) => ident_text(id) && !word_prefixed(id) && avn_readable(*x),
        _ => true,
    }
}

pub open spec fn items_readable(xs: Seq<ValueModel>) -> bool
    decreases xs,
{
    if xs.len() == 0 {
        true
    } else {
        items_readable(xs.drop_last()) && avn_readable(xs.last())
    }
}

pub open spec fn fields_readable(fs: Seq<(Seq<char>, Option<ValueModel>)>) -> bool
    decreases fs,
{
    if fs.len() == 0 {
        true
    } else {
        fields_readable(fs.drop_last()) && match fs.last().1 {
            Some(x) => ident_text(fs.last().0) && avn_readable(x),
            None => true,
        }
    }
}

// ----------------------------------------------------------------------------
// Lists, item by item
// ----------------------------------------------------------------------------
pub proof fn lemma_items_at(xs: Seq<ValueModel>)
    ensures
        item_texts(Codec::Avn, xs).len() == xs.len(),
        item_trees(xs).len() == xs.len(),
        items_readable(xs) ==> forall|j: int| 0 <= j < xs.len() ==> #[trigger] avn_readable(xs[j]),
        items_balanced(Codec::Avn, xs) ==> forall|j: int|
            0 <= j < xs.len() ==> #[trigger] balanced(Codec::Avn, xs[j]),
        forall|j: int|
            0 <= j < xs.len() ==> #[trigger] item_texts(Codec::Avn, xs)[j] == notation_text(
                Codec::Avn,
                xs[j],
            ) && item_trees(xs)[j] == avn_tree(xs[j]),
    decreases xs.len(),
{
    if xs.len() > 0 {
        let xs1 = xs.drop_last();
        lemma_items_at(xs1);
        assert forall|j: int| 0 <= j < xs.len() implies #[trigger] item_texts(Codec::Avn, xs)[j]
            == notation_text(Codec::Avn, xs[j]) && item_trees(xs)[j] == avn_tree(xs[j]) by {
            if j < xs1.len() {
                assert(xs1[j] == xs[j]);
                assert(item_texts(Codec::Avn, xs1)[j] == notation_text(Codec::Avn, xs1[j]));
            }
        }
        if items_readable(xs) {
            assert forall|j: int| 0 <= j < xs.len() implies #[trigger] avn_readable(xs[j]) by {
                if j < xs1.len() {
                    assert(xs1[j] == xs[j]);
                    assert(avn_readable(xs1[j]));
                }
            }
        }
        if items_balanced(Codec::Avn, xs) {
            assert forall|j: int| 0 <= j < xs.len() implies #[trigger] balanced(Codec::Avn, xs[j]) by {
                if j < xs1.len() {
                    assert(xs1[j] == xs[j]);
                    assert(balanced(Codec::Avn, xs1[j]));
                }
            }
        }
    }
}

pub proof fn lemma_fields_at(fs: Seq<(Seq<char>, Option<ValueModel>)>)
    ensures
        entry_texts(Codec::Avn, fs).len() == present(fs).len(),
        field_trees(fs).len() == present(fs).len(),
        forall|j: int|
            0 <= j < present(fs).len() ==> #[trigger] entry_texts(Codec::Avn, fs)[j] == present(
                fs,
            )[j].0 + seq![' '] + notation_text(Codec::Avn, present(fs)[j].1) && field_trees(fs)[j]
                == (present(fs)[j].0, avn_tree(present(fs)[j].1)),
        fields_readable(fs) ==> forall|j: int|
            0 <= j < present(fs).len() ==> #[trigger] ident_text(present(fs)[j].0) && avn_readable(
                present(fs)[j].1,
            ),
        fields_balanced(Codec::Avn, fs) ==> forall|j: int|
            0 <= j < present(fs).len() ==> #[trigger] plain(present(fs)[j].0) && balanced(
                Codec::Avn,
                present(fs)[j].1,
            ),
    decreases fs.len(),
{
    if fs.len() > 0 {
        let fs1 = fs.drop_last();
        lemma_fields_at(fs1);
        let p1 = present(fs1);
        let p = present(fs);
        match fs.last().1 {
            Some(x) => {
                assert(p == p1.push((fs.last().0, x)));
                assert forall|j: int| 0 <= j < p.len() implies #[trigger] entry_texts(Codec::Avn, fs)[j]
                    == p[j].0 + seq![' '] + notation_text(Codec::Avn, p[j].1) && field_trees(fs)[j]
                    == (p[j].0, avn_tree(p[j].1)) by {
                    if j < p1.len() {
                        assert(p1[j] == p[j]);
                        assert(entry_texts(Codec::Avn, fs1)[j] == p1[j].0 + seq![' '] + notation_text(
                            Codec::Avn,
                            p1[j].1,
                        ));
                    }
                }
                if fields_readable(fs) {
                    assert forall|j: int| 0 <= j < p.len() implies #[trigger] ident_text(p[j].0)
                        && avn_readable(p[j].1) by {
                        if j < p1.len() {
                            assert(p1[j] == p[j]);
                            assert(ident_text(p1[j].0));
                        }
                    }
                }
                if fields_balanced(Codec::Avn, fs) {
                    assert forall|j: int| 0 <= j < p.len() implies #[trigger] plain(p[j].0) && balanced(
                        Codec::Avn,
                        p[j].1,
                    ) by {
                        if j < p1.len() {
                            assert(p1[j] == p[j]);
                            assert(plain(p1[j].0));
                        }
                    }
                }
            },
            None => {
                assert(p == p1);
            },
        }
    }
}

// ----------------------------------------------------------------------------
// Small facts about the lexical helpers
// ----------------------------------------------------------------------------
/// Text with no whitespace at either end is its own trimmed text, also with a
/// space after it.
pub proof fn lemma_trim_clean(x: Seq<char>)
    requires
        x.len() >= 1,
        !is_ws(x[0]),
        !is_ws(x.last()),
    ensures
        trim(x) == x,
        trim(x + seq![' ']) == x,
{
    let y = x + seq![' '];
    assert(skip_ws(x, 0) == 0);
    assert(trim_end(x, x.len() as int) == x.len());
    assert(x.subrange(0, x.len() as int) =~= x);
    assert(y[0] == x[0]);
    assert(skip_ws(y, 0) == 0);
    assert(y[y.len() - 1] == ' ');
    assert(y[x.len() - 1] == x.last());
    assert(trim_end(y, x.len() as int) == x.len());
    assert(trim_end(y, y.len() as int) == x.len());
    assert(y.subrange(0, x.len() as int) =~= x);
}

/// Text whose first character differs from a word's does not start with it.
pub proof fn lemma_not_at(t: Seq<char>, lit: Seq<char>)
    requires
        t.len() >= 1,
        lit.len() >= 1,
        t[0] != lit[0],
    ensures
        !has_at(t, 0, lit),
{
    if has_at(t, 0, lit) {
        assert(t.subrange(0, lit.len() as int)[0] == t[0]);
    }
}

/// The ASCII identifier characters are identifier characters.
pub proof fn lemma_ident_ascii(c: char)
    ensures
        ident_ascii(c) ==> ident_char(c),
        (c as u32) < 128 && !ident_ascii(c) ==> !ident_char(c),
{
}

/// `ident_tail_end` runs over identifier characters from `i` to `k` and stops
/// at `k`, at the end or at an ASCII character that is none.
pub proof fn lemma_ident_run(t: Seq<char>, i: int, k: int)
    requires
        0 <= i <= k <= t.len(),
        forall|j: int| i <= j < k ==> ident_ascii(#[trigger] t[j]),
        k < t.len() ==> (t[k] as u32) < 128 && !ident_ascii(t[k]),
    ensures
        ident_tail_end(t, i) == k,
    decreases k - i,
{
    if i < k {
        lemma_ident_ascii(t[i]);
        lemma_ident_run(t, i + 1, k);
    } else if k < t.len() {
        lemma_ident_ascii(t[k]);
    }
}

/// An identifier standing at `i`, followed by the end or an ASCII character
/// that cannot continue it, ends where the identifier does.
pub proof fn lemma_ident_at(t: Seq<char>, i: int, id: Seq<char>)
    requires
        ident_text(id),
        0 <= i,
        i + id.len() <= t.len(),
        t.subrange(i, i + id.len()) == id,
        i + id.len() < t.len() ==> (t[i + id.len()] as u32) < 128 && !ident_ascii(
            t[i + id.len()],
        ),
    ensures
        ident_end(t, i) == i + id.len(),
{
    assert forall|j: int| i + 1 <= j < i + id.len() implies ident_ascii(#[trigger] t[j]) by {
        assert(t[j] == id[j - i]);
    }
    assert(t[i] == id[0]);
    lemma_ident_run(t, i + 1, i + id.len());
}

/// The numeral of an integer standing at `a`, followed by a non-digit or the
/// end, is where `signed_end` stops.
pub proof fn lemma_signed_at(t: Seq<char>, a: int, n: int)
    requires
        0 <= a,
        a + int_text(n).len() <= t.len(),
        t.subrange(a, a + int_text(n).len()) == int_text(n),
        a + int_text(n).len() < t.len() ==> !is_digit(t[a + int_text(n).len()]),
    ensures
        signed_end(t, a) == a + int_text(n).len(),
        n >= 0 ==> digit_end(t, a) == a + int_text(n).len(),
        n < 0 ==> t[a] == '-' && digit_end(t, a) == a,
{
    let x = int_text(n);
    let q = a + x.len();
    if n < 0 {
        let m = (-n) as nat;
        lemma_nat_text(m);
        assert(t[a] == x[0]);
        assert forall|j: int| a + 1 <= j < q implies is_digit(#[trigger] t[j]) by {
            assert(t[j] == x[j - a]);
            assert(x[j - a] == nat_text(m)[j - a - 1]);
        }
        if q < t.len() {
            lemma_digit_end_at(t, a + 1, q);
        } else {
            crate::laws::lexical::lemma_digit_end_all(t, a + 1);
        }
    } else {
        lemma_nat_text(n as nat);
        assert forall|j: int| a <= j < q implies is_digit(#[trigger] t[j]) by {
            assert(t[j] == x[j - a]);
        }
        assert(is_digit(t[a]));
        if q < t.len() {
            lemma_digit_end_at(t, a, q);
        } else {
            crate::laws::lexical::lemma_digit_end_all(t, a);
        }
    }
}

// ----------------------------------------------------------------------------
// Lists in braces
// ----------------------------------------------------------------------------
/// The text after a list's `{`: the items from `k` on apart by `, `, then ` }`.
pub open spec fn tail(ts: Seq<Seq<char>>, k: int) -> Seq<char>
    decreases ts.len() - k,
{
    if k < 0 || k >= ts.len() {
        seq![' ', '}']
    } else if k == ts.len() - 1 {
        ts[k] + seq![' ', '}']
    } else {
        ts[k] + seq![',', ' '] + tail(ts, k + 1)
    }
}

pub proof fn lemma_join_tail(ts: Seq<Seq<char>>, k: int)
    requires
        0 <= k < ts.len(),
    ensures
        join(ts.subrange(k, ts.len() as int), seq![',', ' ']) + seq![' ', '}'] == tail(ts, k),
    decreases ts.len() - k,
{
    let sep = seq![',', ' '];
    let sub = ts.subrange(k, ts.len() as int);
    if k == ts.len() - 1 {
        assert(sub.len() == 1);
        assert(join(sub, sep) == sub[0]);
    } else {
        lemma_join_front(sub, sep);
        assert(sub.drop_first() =~= ts.subrange(k + 1, ts.len() as int));
        lemma_join_tail(ts, k + 1);
        assert(join(sub, sep) + seq![' ', '}'] =~= ts[k] + sep + (join(
            ts.subrange(k + 1, ts.len() as int),
            sep,
        ) + seq![' ', '}']));
    }
}

/// A non-empty list in braces is `{` and its tail.
pub proof fn lemma_braces_tail(ts: Seq<Seq<char>>)
    requires
        ts.len() >= 1,
    ensures
        crate::avn::enc::braces(ts) == seq!['{'] + (seq![' '] + tail(ts, 0)),
{
    lemma_join_tail(ts, 0);
    assert(ts.subrange(0, ts.len() as int) =~= ts);
    assert(crate::avn::enc::braces(ts) =~= seq!['{'] + (seq![' '] + (join(ts, seq![',', ' '])
        + seq![' ', '}'])));
}

/// A text that reads as the tree, has no whitespace or closing brace,
/// colon or comma in front, and is passed over whole by the scanner.
pub open spec fn reads_as(x: Seq<char>, tree: Tree) -> bool {
    &&& x.len() >= 1
    &&& !is_ws(x[0])
    &&& !is_ws(x.last())
    &&& x[0] != '}'
    &&& x[0] != ':'
    &&& x[0] != ','
    &&& parse_trimmed(x) == Some(tree)
    &&& forall|w: Seq<char>| (w.len() == 0 || w[0] != '"') ==> #[trigger] passes_at(x, w, 0)
}

pub proof fn lemma_reads_value(x: Seq<char>, tree: Tree)
    requires
        reads_as(x, tree),
    ensures
        parse_value(x) == Some(tree),
        parse_value(x + seq![' ']) == Some(tree),
{
    lemma_trim_clean(x);
}

/// A later suffix of a suffix.
pub proof fn lemma_sub_shift(t: Seq<char>, a: int, b: int, s: Seq<char>)
    requires
        0 <= a <= t.len(),
        t.subrange(a, t.len() as int) == s,
        0 <= b <= s.len(),
    ensures
        t.subrange(a + b, t.len() as int) == s.subrange(b, s.len() as int),
        a + b <= t.len(),
{
    assert(t.subrange(a + b, t.len() as int) =~= s.subrange(b, s.len() as int));
}

/// Where the scanner stops after an item: at the comma that follows it, or
/// at the `}` after the space that ends the list.
proof fn lemma_item_end(x: Seq<char>, tree: Tree, rest: Seq<char>, last: bool)
    requires
        reads_as(x, tree),
        last ==> rest == seq![' ', '}'],
        !last ==> rest.len() >= 1 && rest[0] == ',',
    ensures
        value_end(x + rest, 0, 0, false) == x.len() + if last {
            1int
        } else {
            0int
        },
{
    assert(passes_at(x, rest, 0));
    if last {
        lemma_step(' ', seq!['}'], 0);
        assert(seq![' '] + seq!['}'] =~= rest);
        assert(value_end(seq!['}'], 0, 0, false) == 0);
    } else {
        assert(value_end(rest, 0, 0, false) == 0);
    }
}

/// The start of an item after a space: where the item begins.
proof fn lemma_item_head(t: Seq<char>, pos: int, x: Seq<char>, rest: Seq<char>)
    requires
        1 <= pos,
        pos + 1 + x.len() + rest.len() == t.len(),
        t.subrange(pos, t.len() as int) == seq![' '] + x + rest,
        x.len() >= 1,
        !is_ws(x[0]),
        x[0] != '}',
    ensures
        skip_ws(t, pos) == pos + 1,
        t[pos + 1] != '}',
        t.subrange(pos + 1, t.len() as int) == x + rest,
{
    let u = t.subrange(pos, t.len() as int);
    assert(t[pos] == u[0]);
    assert(t[pos + 1] == u[1]);
    assert(u[1] == x[0]);
    assert(skip_ws(t, pos + 1) == pos + 1);
    lemma_sub_shift(t, pos, 1, u);
    assert(u.subrange(1, u.len() as int) =~= x + rest);
}

/// Reading the items of a list from `pos`, where a space and the tail from
/// item `k` stand, gives the trees of those items.
#[verifier::spinoff_prover]
#[verifier::rlimit(50)]
pub proof fn lemma_p_items_tail(t: Seq<char>, pos: int, ts: Seq<Seq<char>>, rs: Seq<Tree>, k: int)
    requires
        0 <= k < ts.len(),
        ts.len() == rs.len(),
        1 <= pos,
        pos + 1 + tail(ts, k).len() == t.len(),
        t.subrange(pos, t.len() as int) == seq![' '] + tail(ts, k),
        forall|j: int| 0 <= j < ts.len() ==> #[trigger] reads_as(ts[j], rs[j]),
    ensures
        p_items(t, pos) == Some(rs.subrange(k, rs.len() as int)),
    decreases ts.len() - k,
{
    let x = ts[k];
    assert(reads_as(ts[k], rs[k]));
    let last = k == ts.len() - 1;
    let rest = if last {
        seq![' ', '}']
    } else {
        seq![',', ' '] + tail(ts, k + 1)
    };
    assert(tail(ts, k) == ts[k] + rest);
    assert(seq![' '] + tail(ts, k) =~= seq![' '] + x + rest);
    lemma_item_head(t, pos, x, rest);
    let p = pos + 1;
    let w = t.subrange(p, t.len() as int);
    lemma_reads_value(x, rs[k]);
    lemma_item_end(x, rs[k], rest, last);
    if last {
        let e = p + x.len() + 1;
        assert(t.subrange(p, e) =~= w.subrange(0, x.len() + 1int));
        assert(w.subrange(0, x.len() + 1int) =~= x + seq![' ']);
        assert(t[e] == w[x.len() + 1int]);
        assert(t[e] == '}');
        assert(skip_ws(t, e) == e);
        assert(after_comma(t, e) == e);
        assert(p_items(t, e) == Some(Seq::<Tree>::empty()));
        assert(seq![rs[k]] + Seq::<Tree>::empty() =~= rs.subrange(k, rs.len() as int));
    } else {
        let e = p + x.len();
        assert(t.subrange(p, e) =~= w.subrange(0, x.len() as int));
        assert(w.subrange(0, x.len() as int) =~= x);
        assert(t[e] == w[x.len() as int]);
        assert(t[e] == ',');
        assert(skip_ws(t, e) == e);
        assert(after_comma(t, e) == e + 1);
        lemma_sub_shift(t, p, x.len() + 1int, w);
        assert(w.subrange(x.len() + 1int, w.len() as int) =~= seq![' '] + tail(ts, k + 1));
        lemma_p_items_tail(t, e + 1, ts, rs, k + 1);
        assert(seq![rs[k]] + rs.subrange(k + 1, rs.len() as int) =~= rs.subrange(
            k,
            rs.len() as int,
        ));
    }
}

/// The start of a `name value` component after a space: where the name and
/// the value begin.
proof fn lemma_field_head(t: Seq<char>, pos: int, name: Seq<char>, x: Seq<char>, rest: Seq<char>)
    requires
        1 <= pos,
        pos + 2 + name.len() + x.len() + rest.len() == t.len(),
        t.subrange(pos, t.len() as int) == seq![' '] + name + seq![' '] + x + rest,
        ident_text(name),
        x.len() >= 1,
        !is_ws(x[0]),
    ensures
        skip_ws(t, pos) == pos + 1,
        t[pos + 1] != '}',
        ident_end(t, pos + 1) == pos + 1 + name.len(),
        t.subrange(pos + 1, pos + 1 + name.len()) == name,
        skip_ws(t, pos + 1 + name.len()) == pos + 2 + name.len(),
        t.subrange(pos + 2 + name.len(), t.len() as int) == x + rest,
{
    let u = t.subrange(pos, t.len() as int);
    let p = pos + 1;
    let n = name.len() as int;
    let q = p + n;
    assert(t[pos] == u[0]);
    assert(t[p] == u[1]);
    assert(u[1] == name[0]);
    assert(skip_ws(t, p) == p);
    assert(t.subrange(p, q) =~= u.subrange(1, 1 + n));
    assert(u.subrange(1, 1 + n) =~= name);
    assert(t[q] == u[1 + n]);
    assert(u[1 + n] == ' ');
    lemma_ident_at(t, p, name);
    assert(t[q + 1] == u[2 + n]);
    assert(u[2 + n] == x[0]);
    assert(skip_ws(t, q + 1) == q + 1);
    lemma_sub_shift(t, pos, 2 + n, u);
    assert(u.subrange(2 + n, u.len() as int) =~= x + rest);
}

/// Reading `name value` components from `pos`, where a space and the tail
/// from component `k` stand, gives their names and trees.
#[verifier::spinoff_prover]
#[verifier::rlimit(100)]
pub proof fn lemma_p_fields_tail(
    t: Seq<char>,
    pos: int,
    ts: Seq<Seq<char>>,
    xs: Seq<Seq<char>>,
    fr: Seq<(Seq<char>, Tree)>,
    k: int,
)
    requires
        0 <= k < ts.len(),
        ts.len() == xs.len(),
        ts.len() == fr.len(),
        1 <= pos,
        pos + 1 + tail(ts, k).len() == t.len(),
        t.subrange(pos, t.len() as int) == seq![' '] + tail(ts, k),
        forall|j: int|
            0 <= j < ts.len() ==> #[trigger] ts[j] == fr[j].0 + seq![' '] + xs[j] && ident_text(
                fr[j].0,
            ) && reads_as(xs[j], fr[j].1),
    ensures
        p_fields(t, pos) == Some(fr.subrange(k, fr.len() as int)),
    decreases ts.len() - k,
{
    let name = fr[k].0;
    let x = xs[k];
    assert(ts[k] == fr[k].0 + seq![' '] + xs[k] && ident_text(fr[k].0) && reads_as(xs[k], fr[k].1));
    let last = k == ts.len() - 1;
    let rest = if last {
        seq![' ', '}']
    } else {
        seq![',', ' '] + tail(ts, k + 1)
    };
    assert(tail(ts, k) == ts[k] + rest);
    assert(seq![' '] + tail(ts, k) =~= seq![' '] + name + seq![' '] + x + rest);
    lemma_field_head(t, pos, name, x, rest);
    let r = pos + 2 + name.len();
    let v = t.subrange(r, t.len() as int);
    lemma_reads_value(x, fr[k].1);
    lemma_item_end(x, fr[k].1, rest, last);
    if last {
        let e = r + x.len() + 1;
        assert(t.subrange(r, e) =~= v.subrange(0, x.len() + 1int));
        assert(v.subrange(0, x.len() + 1int) =~= x + seq![' ']);
        assert(t[e] == v[x.len() + 1int]);
        assert(t[e] == '}');
        assert(skip_ws(t, e) == e);
        assert(after_comma(t, e) == e);
        assert(p_fields(t, e) == Some(Seq::<(Seq<char>, Tree)>::empty()));
        assert(seq![(name, fr[k].1)] + Seq::<(Seq<char>, Tree)>::empty() =~= fr.subrange(
            k,
            fr.len() as int,
        ));
    } else {
        let e = r + x.len();
        assert(t.subrange(r, e) =~= v.subrange(0, x.len() as int));
        assert(v.subrange(0, x.len() as int) =~= x);
        assert(t[e] == v[x.len() as int]);
        assert(t[e] == ',');
        assert(skip_ws(t, e) == e);
        assert(after_comma(t, e) == e + 1);
        lemma_sub_shift(t, r, x.len() + 1int, v);
        assert(v.subrange(x.len() + 1int, v.len() as int) =~= seq![' '] + tail(ts, k + 1));
        lemma_p_fields_tail(t, e + 1, ts, xs, fr, k + 1);
        assert(seq![(name, fr[k].1)] + fr.subrange(k + 1, fr.len() as int) =~= fr.subrange(
            k,
            fr.len() as int,
        ));
    }
}

// ----------------------------------------------------------------------------
// Each form, read from the start of its own text
// ----------------------------------------------------------------------------
/// A text that starts with none of the first forms' characters is none of them.
proof fn lemma_head_none(t: Seq<char>)
    requires
        t.len() >= 1,
        !is_ws(t[0]),
        !has_at(t, 0, lit_true()),
        !has_at(t, 0, lit_false()),
        !has_at(t, 0, lit_null()),
        t[0] != '\'',
        t[0] != '{',
    ensures
        p_head(t) is None,
        p_constructed(t) is None,
{
    assert(skip_ms(t, 0) == 0);
}

/// A text that starts with a character other than those of the words.
proof fn lemma_no_word(t: Seq<char>)
    requires
        t.len() >= 1,
        t[0] != 'T' && t[0] != 'F' && t[0] != 'N' && t[0] != 'P' && t[0] != 'M',
    ensures
        !has_at(t, 0, lit_true()),
        !has_at(t, 0, lit_false()),
        !has_at(t, 0, lit_null()),
        !has_at(t, 0, lit_plus_inf()),
        !has_at(t, 0, lit_minus_inf()),
{
    lemma_not_at(t, lit_true());
    lemma_not_at(t, lit_false());
    lemma_not_at(t, lit_null());
    lemma_not_at(t, lit_plus_inf());
    lemma_not_at(t, lit_minus_inf());
}

/// A text that does not start with a letter or `_` is no CHOICE value.
proof fn lemma_choice_none(t: Seq<char>)
    requires
        t.len() >= 1,
        !is_ws(t[0]),
        !(is_alpha(t[0]) || t[0] == '_'),
    ensures
        p_choice(t) is None,
{
    assert(skip_ms(t, 0) == 0);
}

pub proof fn lemma_parse_int(n: int)
    ensures
        parse_trimmed(int_text(n)) == Some(Tree::Integer(int_text(n))),
        !is_ws(int_text(n)[0]),
        !is_ws(int_text(n).last()),
        is_digit(int_text(n)[0]) || int_text(n)[0] == '-',
        int_text(n).len() >= 1,
{
    let t = int_text(n);
    crate::laws::lexical::law_integer_numeral(n, n, n);
    if n < 0 {
        lemma_nat_text((-n) as nat);
        assert(t.last() == nat_text((-n) as nat).last());
        assert(is_digit(nat_text((-n) as nat)[nat_text((-n) as nat).len() - 1]));
    } else {
        lemma_nat_text(n as nat);
        assert(is_digit(t[t.len() - 1]));
        assert(is_digit(t[0]));
    }
    lemma_no_word(t);
    lemma_head_none(t);
    lemma_choice_none(t);
    assert(t.subrange(0, t.len() as int) =~= t);
}

proof fn lemma_parse_infinity(plus: bool)
    ensures
        parse_trimmed(if plus {
            lit_plus_inf()
        } else {
            lit_minus_inf()
        }) == Some(Tree::Real(if plus {
            RealModel::PlusInfinity
        } else {
            RealModel::MinusInfinity
        })),
{
    let t = if plus {
        lit_plus_inf()
    } else {
        lit_minus_inf()
    };
    lemma_not_at(t, lit_true());
    lemma_not_at(t, lit_false());
    lemma_not_at(t, lit_null());
    if !plus {
        lemma_not_at(t, lit_plus_inf());
    }
    assert(t.subrange(0, t.len() as int) =~= t);
    lemma_head_none(t);
    assert(skip_ms(t, 0) == 0);
    assert forall|j: int| 1 <= j < t.len() implies ident_ascii(#[trigger] t[j]) by {}
    lemma_ident_run(t, 1, t.len() as int);
    assert(ident_end(t, 0) == t.len());
    assert(skip_ms(t, t.len() as int) == t.len());
    assert(p_choice(t) is None);
}

proof fn lemma_parse_enum(id: Seq<char>)
    requires
        ident_text(id),
        !word_prefixed(id),
        !infinity_prefixed(id),
    ensures
        parse_trimmed(id) == Some(Tree::Identifier(id)),
{
    let t = id;
    lemma_head_none(t);
    assert(skip_ms(t, 0) == 0);
    assert(t.subrange(0, id.len() as int) =~= id);
    lemma_ident_at(t, 0, id);
    assert(skip_ms(t, t.len() as int) == t.len());
    assert(p_choice(t) is None);
    assert(digit_end(t, 0) == 0);
    assert(signed_end(t, 0) == 0);
    assert(t.subrange(0, t.len() as int) =~= t);
}

proof fn lemma_parse_text(s: Seq<char>)
    ensures
        parse_trimmed(crate::avn::enc::quoted(s)) == Some(Tree::String(s)),
{
    let t = crate::avn::enc::quoted(s);
    assert(t[0] == '"');
    lemma_no_word(t);
    lemma_head_none(t);
    lemma_choice_none(t);
    assert(digit_end(t, 0) == 0);
    assert(signed_end(t, 0) == 0);
    crate::laws::lexical::law_quoted_string(s);
}

proof fn lemma_parse_words()
    ensures
        parse_trimmed(lit_true()) == Some(Tree::Bool(true)),
        parse_trimmed(lit_false()) == Some(Tree::Bool(false)),
        parse_trimmed(lit_null()) == Some(Tree::Null),
{
    assert(lit_true().subrange(0, 4) =~= lit_true());
    assert(lit_false().subrange(0, 5) =~= lit_false());
    assert(lit_null().subrange(0, 4) =~= lit_null());
    lemma_not_at(lit_false(), lit_true());
    lemma_not_at(lit_null(), lit_true());
    lemma_not_at(lit_null(), lit_false());
}

/// A bstring does not read as an hstring.
pub proof fn lemma_bin_not_hex(bits: Seq<bool>)
    ensures
        p_hex(crate::avn::enc::bin_text(bits)) is None,
        crate::avn::enc::bin_text(bits)[0] == '\'',
{
    let t = crate::avn::enc::bin_text(bits);
    let g = crate::avn::enc::bin_body(bits);
    crate::laws::lexical::law_bin_body(bits);
    let k = 1 + g.len() as int;
    assert(t[0] == '\'');
    assert forall|j: int| 1 <= j < k implies crate::text::is_hex_digit(#[trigger] t[j]) by {
        assert(t[j] == g[j - 1]);
    }
    assert(t[k] == '\'');
    crate::laws::lexical::lemma_hex_end_at(t, 1, k);
    assert(t[k + 1] == 'B');
    if has_at(t, k, seq!['\'', 'H']) {
        assert(t.subrange(k, k + 2)[1] == t[k + 1]);
    }
}

proof fn lemma_parse_bits(bits: Seq<bool>)
    ensures
        parse_trimmed(crate::avn::enc::bit_string_text(bits)) == Some(
            avn_tree(ValueModel::BitString(bits)),
        ),
{
    let t = crate::avn::enc::bit_string_text(bits);
    if bits.len() % 4 == 0 {
        crate::laws::lexical::law_hstring(pack_bits(bits));
        assert(t[0] == '\'');
        lemma_no_word(t);
    } else {
        lemma_bin_not_hex(bits);
        lemma_no_word(t);
        crate::laws::lexical::law_bstring(bits);
    }
}

proof fn lemma_parse_octets(b: Seq<u8>)
    ensures
        parse_trimmed(crate::avn::enc::hex_text(b)) == Some(Tree::Bytes(b)),
{
    let t = crate::avn::enc::hex_text(b);
    crate::laws::lexical::law_hstring(b);
    assert(t[0] == '\'');
    lemma_no_word(t);
}

pub proof fn lemma_parse_oid(arcs: Seq<u32>)
    requires
        arcs.len() >= 1,
    ensures
        parse_general(crate::avn::enc::avn_oid_text(arcs)) == Some(Tree::Oid(arcs)),
        parse_trimmed(crate::avn::enc::avn_oid_text(arcs)) == Some(
            Tree::Braces(crate::avn::enc::avn_oid_text(arcs)),
        ),
{
    let t = crate::avn::enc::avn_oid_text(arcs);
    crate::laws::lexical::law_avn_oid(arcs);
    assert(t[0] == '{');
    lemma_no_word(t);
    assert(parse_general(t) == Some(Tree::Oid(arcs)));
}

/// The positions in a written REAL tuple.
proof fn lemma_tuple_layout(m: int, b: int, e: int)
    ensures
        ({
            let t = crate::avn::enc::tuple_text(m, b, e);
            let lm = int_text(m).len() as int;
            let lb = int_text(b).len() as int;
            let le = int_text(e).len() as int;
            &&& t.len() == 8 + lm + lb + le
            &&& t[0] == '{' && t[1] == ' '
            &&& t.subrange(2, 2 + lm) == int_text(m)
            &&& t[2 + lm] == ',' && t[3 + lm] == ' '
            &&& t.subrange(4 + lm, 4 + lm + lb) == int_text(b)
            &&& t[4 + lm + lb] == ',' && t[5 + lm + lb] == ' '
            &&& t.subrange(6 + lm + lb, 6 + lm + lb + le) == int_text(e)
            &&& t[6 + lm + lb + le] == ' ' && t[7 + lm + lb + le] == '}'
        }),
{
    let t = crate::avn::enc::tuple_text(m, b, e);
    let lm = int_text(m).len() as int;
    let lb = int_text(b).len() as int;
    let le = int_text(e).len() as int;
    let a1 = seq!['{', ' '] + int_text(m);
    let a2 = a1 + seq![',', ' '];
    let a3 = a2 + int_text(b);
    let a4 = a3 + seq![',', ' '];
    let a5 = a4 + int_text(e);
    assert(t == a5 + seq![' ', '}']);
    assert(t.subrange(2, 2 + lm) =~= int_text(m));
    assert(t.subrange(4 + lm, 4 + lm + lb) =~= int_text(b));
    assert(t.subrange(6 + lm + lb, 6 + lm + lb + le) =~= int_text(e));
}

#[verifier::rlimit(40)]
#[verifier::spinoff_prover]
pub proof fn lemma_parse_tuple(m: int, b: int, e: int)
    requires
        i64::MIN <= m <= i64::MAX,
        0 <= b <= i32::MAX,
        i32::MIN <= e <= i32::MAX,
    ensures
        parse_general(crate::avn::enc::tuple_text(m, b, e)) == Some(
            Tree::Real(RealModel::Tuple { mantissa: m, base: b, exponent: e }),
        ),
        parse_trimmed(crate::avn::enc::tuple_text(m, b, e)) == Some(
            Tree::Braces(crate::avn::enc::tuple_text(m, b, e)),
        ),
{
    let t = crate::avn::enc::tuple_text(m, b, e);
    let lm = int_text(m).len() as int;
    let lb = int_text(b).len() as int;
    let le = int_text(e).len() as int;
    lemma_tuple_layout(m, b, e);
    lemma_parse_int(m);
    lemma_parse_int(b);
    lemma_parse_int(e);
    lemma_no_word(t);
    lemma_signed_at(t, 2, m);
    lemma_signed_at(t, 4 + lm, b);
    lemma_signed_at(t, 6 + lm + lb, e);
    crate::laws::lexical::law_integer_numeral(m, i64::MIN as int, i64::MAX as int);
    crate::laws::lexical::law_integer_numeral(b, i32::MIN as int, i32::MAX as int);
    crate::laws::lexical::law_integer_numeral(e, i32::MIN as int, i32::MAX as int);
    assert(skip_ms(t, 0) == 0);
    assert(skip_ms(t, 2) == 2);
    assert(skip_ms(t, 1) == 2);
    assert(skip_ws(t, 2) == 2);
    // not an OBJECT IDENTIFIER: a comma follows the first number
    assert(skip_ws(t, 2 + lm) == 2 + lm);
    assert(crate::avn::de::p_oid_rest(t, 2 + lm) is None);
    assert(p_oid(t) is None);
    // a REAL tuple
    assert(skip_ms(t, 2 + lm) == 2 + lm);
    assert(skip_ms(t, 4 + lm) == 4 + lm);
    assert(skip_ms(t, 3 + lm) == 4 + lm);
    assert(skip_ms(t, 4 + lm + lb) == 4 + lm + lb);
    assert(skip_ms(t, 6 + lm + lb) == 6 + lm + lb);
    assert(skip_ms(t, 5 + lm + lb) == 6 + lm + lb);
    assert(skip_ms(t, 7 + lm + lb + le) == 7 + lm + lb + le);
    assert(skip_ms(t, 6 + lm + lb + le) == 7 + lm + lb + le);
    assert(p_real_tuple(t) == Some(RealModel::Tuple { mantissa: m, base: b, exponent: e }));
    assert(parse_general(t) == Some(Tree::Real(RealModel::Tuple { mantissa: m, base: b, exponent: e })));
}

/// `{ ` followed by a letter, `_` or `}` is none of the first forms.
proof fn lemma_brace_head_none(t: Seq<char>)
    requires
        t.len() >= 3,
        t[0] == '{',
        t[1] == ' ',
        is_alpha(t[2]) || t[2] == '_' || t[2] == '}',
    ensures
        p_head(t) is None,
{
    lemma_no_word(t);
    assert(skip_ms(t, 0) == 0);
    assert(skip_ms(t, 2) == 2);
    assert(skip_ms(t, 1) == 2);
    assert(skip_ws(t, 2) == 2);
    assert(digit_end(t, 2) == 2);
    assert(signed_end(t, 2) == 2);
}

/// An identifier followed by a colon starts with no literal word when the
/// identifier does not.
proof fn lemma_word_prefix(id: Seq<char>, rest: Seq<char>)
    requires
        ident_text(id),
        !word_prefixed(id),
        rest.len() >= 1,
        rest[0] == ':',
    ensures
        !word_prefixed(id + rest),
{
    let t = id + rest;
    lemma_word_prefix_one(id, rest, lit_true());
    lemma_word_prefix_one(id, rest, lit_false());
    lemma_word_prefix_one(id, rest, lit_null());
}

proof fn lemma_word_prefix_one(id: Seq<char>, rest: Seq<char>, lit: Seq<char>)
    requires
        ident_text(id),
        !has_at(id, 0, lit),
        rest.len() >= 1,
        rest[0] == ':',
        forall|k: int| 0 <= k < lit.len() ==> is_alpha(#[trigger] lit[k]),
    ensures
        !has_at(id + rest, 0, lit),
{
    let t = id + rest;
    if has_at(t, 0, lit) {
        if id.len() >= lit.len() {
            assert(id.subrange(0, lit.len() as int) =~= t.subrange(0, lit.len() as int));
        } else {
            assert(t[id.len() as int] == ':');
            assert(t.subrange(0, lit.len() as int)[id.len() as int] == t[id.len() as int]);
            assert(is_alpha(lit[id.len() as int]));
        }
    }
}

proof fn lemma_words_alpha()
    ensures
        forall|k: int| 0 <= k < lit_true().len() ==> is_alpha(#[trigger] lit_true()[k]),
        forall|k: int| 0 <= k < lit_false().len() ==> is_alpha(#[trigger] lit_false()[k]),
        forall|k: int| 0 <= k < lit_null().len() ==> is_alpha(#[trigger] lit_null()[k]),
{
}

/// `id: value` reads as a CHOICE value when the value's text reads back.
#[verifier::spinoff_prover]
proof fn lemma_parse_choice(id: Seq<char>, xt: Seq<char>, xtree: Tree)
    requires
        ident_text(id),
        !word_prefixed(id),
        reads_as(xt, xtree),
    ensures
        parse_trimmed(id + seq![':', ' '] + xt) == Some(Tree::Choice(id, Box::new(xtree))),
{
    let t = id + seq![':', ' '] + xt;
    let n = id.len() as int;
    lemma_words_alpha();
    assert(id + (seq![':', ' '] + xt) =~= t);
    lemma_word_prefix(id, seq![':', ' '] + xt);
    assert(t[0] == id[0]);
    lemma_head_none(t);
    assert(t.subrange(0, n) =~= id);
    assert(t[n] == ':');
    lemma_ident_at(t, 0, id);
    assert(skip_ms(t, 0) == 0);
    assert(skip_ms(t, n) == n);
    assert(t[n + 1] == ' ');
    assert(t[n + 2] == xt[0]);
    assert(!is_multispace(xt[0]));
    assert(skip_ms(t, n + 2) == n + 2);
    assert(skip_ms(t, n + 1) == n + 2);
    assert(t.subrange(n + 2, t.len() as int) =~= xt);
    lemma_reads_value(xt, xtree);
}

/// A written value that parses as its tree and has clean ends reads as it.
proof fn lemma_reads_intro(v: ValueModel, tree: Tree)
    requires
        balanced(Codec::Avn, v),
        notation_text(Codec::Avn, v).len() >= 1,
        !is_ws(notation_text(Codec::Avn, v)[0]),
        !is_ws(notation_text(Codec::Avn, v).last()),
        notation_text(Codec::Avn, v)[0] != '}',
        notation_text(Codec::Avn, v)[0] != ':',
        notation_text(Codec::Avn, v)[0] != ',',
        parse_trimmed(notation_text(Codec::Avn, v)) == Some(tree),
    ensures
        reads_as(notation_text(Codec::Avn, v), tree),
{
    let t = notation_text(Codec::Avn, v);
    assert forall|w: Seq<char>| (w.len() == 0 || w[0] != '"') implies #[trigger] passes_at(t, w, 0) by {
        crate::laws::written::lemma_value_passes(Codec::Avn, v, w, 0);
    }
}

/// The value's text starts with a letter or `_` only for bare words and
/// CHOICE values.
pub open spec fn lead_ok(v: ValueModel) -> bool {
    !(bare_word(v) || v is Choice) ==> !(is_alpha(notation_text(Codec::Avn, v)[0])
        || notation_text(Codec::Avn, v)[0] == '_')
}

#[verifier::spinoff_prover]
proof fn lemma_reads_bool(b: bool)
    ensures
        reads_as(notation_text(Codec::Avn, ValueModel::Bool(b)), avn_tree(ValueModel::Bool(b))),
        lead_ok(ValueModel::Bool(b)),
{
    lemma_parse_words();
    lemma_reads_intro(ValueModel::Bool(b), avn_tree(ValueModel::Bool(b)));
}

#[verifier::spinoff_prover]
proof fn lemma_reads_null()
    ensures
        reads_as(notation_text(Codec::Avn, ValueModel::Null), avn_tree(ValueModel::Null)),
        lead_ok(ValueModel::Null),
{
    lemma_parse_words();
    lemma_reads_intro(ValueModel::Null, avn_tree(ValueModel::Null));
}

#[verifier::spinoff_prover]
proof fn lemma_reads_integer(n: int)
    ensures
        reads_as(notation_text(Codec::Avn, ValueModel::Integer(n)), avn_tree(ValueModel::Integer(n))),
        lead_ok(ValueModel::Integer(n)),
{
    lemma_parse_int(n);
    lemma_reads_intro(ValueModel::Integer(n), avn_tree(ValueModel::Integer(n)));
}

#[verifier::spinoff_prover]
#[verifier::rlimit(80)]
proof fn lemma_reads_real(r: RealModel)
    requires
        avn_readable(ValueModel::Real(r)),
    ensures
        reads_as(notation_text(Codec::Avn, ValueModel::Real(r)), avn_tree(ValueModel::Real(r))),
        lead_ok(ValueModel::Real(r)),
{
    match r {
        RealModel::PlusInfinity => {
            lemma_parse_infinity(true);
        },
        RealModel::MinusInfinity => {
            lemma_parse_infinity(false);
        },
        RealModel::Tuple { mantissa, base, exponent } => {
            lemma_parse_tuple(mantissa, base, exponent);
            lemma_tuple_layout(mantissa, base, exponent);
        },
        _ => {},
    }
    lemma_reads_intro(ValueModel::Real(r), avn_tree(ValueModel::Real(r)));
}

#[verifier::spinoff_prover]
#[verifier::rlimit(80)]
proof fn lemma_reads_bits(bits: Seq<bool>)
    ensures
        reads_as(
            notation_text(Codec::Avn, ValueModel::BitString(bits)),
            avn_tree(ValueModel::BitString(bits)),
        ),
        lead_ok(ValueModel::BitString(bits)),
{
    let t = crate::avn::enc::bit_string_text(bits);
    lemma_parse_bits(bits);
    if bits.len() % 4 == 0 {
        let h = crate::avn::enc::hex_text(pack_bits(bits));
        assert(h[0] == '\'');
        assert(h.last() == 'H');
    } else {
        let h = crate::avn::enc::bin_text(bits);
        assert(h[0] == '\'');
        assert(h.last() == 'B');
    }
    assert(notation_text(Codec::Avn, ValueModel::BitString(bits)) == t);
    lemma_reads_intro(ValueModel::BitString(bits), avn_tree(ValueModel::BitString(bits)));
}

#[verifier::spinoff_prover]
proof fn lemma_reads_octets(b: Seq<u8>)
    ensures
        reads_as(
            notation_text(Codec::Avn, ValueModel::OctetString(b)),
            avn_tree(ValueModel::OctetString(b)),
        ),
        lead_ok(ValueModel::OctetString(b)),
{
    let h = crate::avn::enc::hex_text(b);
    lemma_parse_octets(b);
    assert(h[0] == '\'');
    assert(h.last() == 'H');
    assert(notation_text(Codec::Avn, ValueModel::OctetString(b)) == h);
    lemma_reads_intro(ValueModel::OctetString(b), avn_tree(ValueModel::OctetString(b)));
}

#[verifier::spinoff_prover]
proof fn lemma_reads_oid(arcs: Seq<u32>)
    requires
        arcs.len() >= 1,
    ensures
        reads_as(
            notation_text(Codec::Avn, ValueModel::ObjectIdentifier(arcs)),
            avn_tree(ValueModel::ObjectIdentifier(arcs)),
        ),
        lead_ok(ValueModel::ObjectIdentifier(arcs)),
{
    lemma_parse_oid(arcs);
    lemma_reads_intro(ValueModel::ObjectIdentifier(arcs), avn_tree(ValueModel::ObjectIdentifier(arcs)));
}

#[verifier::spinoff_prover]
proof fn lemma_reads_enum(id: Seq<char>)
    requires
        avn_readable(ValueModel::Enumerated(id)),
    ensures
        reads_as(
            notation_text(Codec::Avn, ValueModel::Enumerated(id)),
            avn_tree(ValueModel::Enumerated(id)),
        ),
        lead_ok(ValueModel::Enumerated(id)),
{
    lemma_parse_enum(id);
    assert(ident_ascii(id[id.len() - 1]));
    assert(plain(id)) by {
        assert forall|k: int| 0 <= k < id.len() implies inert(#[trigger] id[k], 0) by {
            assert(ident_ascii(id[k]));
        }
    }
    lemma_reads_intro(ValueModel::Enumerated(id), avn_tree(ValueModel::Enumerated(id)));
}

#[verifier::spinoff_prover]
proof fn lemma_reads_text(k: crate::model::StringKind, s: Seq<char>)
    ensures
        reads_as(notation_text(Codec::Avn, ValueModel::Text(k, s)), avn_tree(ValueModel::Text(k, s))),
        lead_ok(ValueModel::Text(k, s)),
{
    lemma_parse_text(s);
    lemma_reads_intro(ValueModel::Text(k, s), avn_tree(ValueModel::Text(k, s)));
}

#[verifier::spinoff_prover]
proof fn lemma_reads_leaf(v: ValueModel)
    requires
        avn_readable(v),
        balanced(Codec::Avn, v),
        !(v is Sequence || v is SequenceOf || v is SetOf || v is Choice),
    ensures
        reads_as(notation_text(Codec::Avn, v), avn_tree(v)),
        lead_ok(v),
{
    match v {
        ValueModel::Bool(b) => lemma_reads_bool(b),
        ValueModel::Integer(n) => lemma_reads_integer(n),
        ValueModel::Null => lemma_reads_null(),
        ValueModel::Real(r) => lemma_reads_real(r),
        ValueModel::BitString(bits) => lemma_reads_bits(bits),
        ValueModel::OctetString(b) => lemma_reads_octets(b),
        ValueModel::ObjectIdentifier(arcs) => lemma_reads_oid(arcs),
        ValueModel::Enumerated(id) => lemma_reads_enum(id),
        ValueModel::Text(k, s) => lemma_reads_text(k, s),
        _ => {},
    }
}

/// Each written value reads back as its tree.
#[verifier::spinoff_prover]
#[verifier::rlimit(100)]
pub proof fn lemma_avn_parse(v: ValueModel)
    requires
        avn_readable(v),
        balanced(Codec::Avn, v),
    ensures
        reads_as(notation_text(Codec::Avn, v), avn_tree(v)),
        lead_ok(v),
    decreases v, 0int,
{
    match v {
        ValueModel::Sequence(fs) => {
            lemma_parse_sequence(fs);
            lemma_reads_intro(v, avn_tree(v));
        },
        ValueModel::SequenceOf(xs) => {
            lemma_parse_list(xs);
            lemma_reads_intro(v, avn_tree(v));
        },
        ValueModel::SetOf(xs) => {
            lemma_parse_list(xs);
            lemma_reads_intro(v, avn_tree(v));
        },
        ValueModel::Choice(id, x) => {
            lemma_avn_parse(*x);
            let xt = notation_text(Codec::Avn, *x);
            lemma_parse_choice(id, xt, avn_tree(*x));
            let t = notation_text(Codec::Avn, v);
            assert(t == id + seq![':', ' '] + xt);
            assert(t[0] == id[0]);
            assert(t.last() == xt.last());
            lemma_reads_intro(v, avn_tree(v));
        },
        _ => {
            lemma_reads_leaf(v);
        },
    }
}

/// The present components each read back.
proof fn lemma_fields_parse(fs: Seq<(Seq<char>, Option<ValueModel>)>)
    requires
        fields_readable(fs),
        fields_balanced(Codec::Avn, fs),
    ensures
        forall|j: int|
            0 <= j < present(fs).len() ==> #[trigger] reads_as(
                notation_text(Codec::Avn, present(fs)[j].1),
                avn_tree(present(fs)[j].1),
            ),
    decreases fs, 0int,
{
    if fs.len() > 0 {
        let fs1 = fs.drop_last();
        lemma_fields_parse(fs1);
        match fs.last().1 {
            Some(x) => {
                lemma_avn_parse(x);
                assert(present(fs) == present(fs1).push((fs.last().0, x)));
            },
            None => {},
        }
    }
}

/// The items each read back.
proof fn lemma_items_parse(xs: Seq<ValueModel>)
    requires
        items_readable(xs),
        items_balanced(Codec::Avn, xs),
    ensures
        forall|j: int|
            0 <= j < xs.len() ==> #[trigger] reads_as(
                notation_text(Codec::Avn, xs[j]),
                avn_tree(xs[j]),
            ),
    decreases xs, 0int,
{
    if xs.len() > 0 {
        let xs1 = xs.drop_last();
        lemma_items_parse(xs1);
        lemma_avn_parse(xs.last());
        assert forall|j: int| 0 <= j < xs.len() implies #[trigger] reads_as(
            notation_text(Codec::Avn, xs[j]),
            avn_tree(xs[j]),
        ) by {
            if j < xs1.len() {
                assert(xs1[j] == xs[j]);
            }
        }
    }
}

/// The value texts of the present components.
pub open spec fn present_texts(fs: Seq<(Seq<char>, Option<ValueModel>)>) -> Seq<Seq<char>> {
    Seq::new(present(fs).len(), |j: int| notation_text(Codec::Avn, present(fs)[j].1))
}

#[verifier::spinoff_prover]
proof fn lemma_sequence_parts(fs: Seq<(Seq<char>, Option<ValueModel>)>)
    requires
        fields_readable(fs),
        fields_balanced(Codec::Avn, fs),
        forall|j: int|
            0 <= j < present(fs).len() ==> #[trigger] reads_as(
                notation_text(Codec::Avn, present(fs)[j].1),
                avn_tree(present(fs)[j].1),
            ),
    ensures
        entry_texts(Codec::Avn, fs).len() == present_texts(fs).len(),
        field_trees(fs).len() == present_texts(fs).len(),
        forall|j: int|
            0 <= j < entry_texts(Codec::Avn, fs).len() ==> #[trigger] entry_texts(Codec::Avn, fs)[j]
                == field_trees(fs)[j].0 + seq![' '] + present_texts(fs)[j] && ident_text(
                field_trees(fs)[j].0,
            ) && reads_as(present_texts(fs)[j], field_trees(fs)[j].1),
{
    lemma_fields_at(fs);
    let ps = present(fs);
    assert(fields_readable(fs));
    assert(forall|j: int| 0 <= j < present(fs).len() ==> #[trigger] ident_text(present(fs)[j].0) && avn_readable(present(fs)[j].1));
    assert forall|j: int| 0 <= j < entry_texts(Codec::Avn, fs).len() implies #[trigger] entry_texts(
        Codec::Avn,
        fs,
    )[j] == field_trees(fs)[j].0 + seq![' '] + present_texts(fs)[j] && ident_text(
        field_trees(fs)[j].0,
    ) && reads_as(present_texts(fs)[j], field_trees(fs)[j].1) by {
        assert(j < present(fs).len());
        assert(ident_text(present(fs)[j].0));
        assert(reads_as(notation_text(Codec::Avn, present(fs)[j].1), avn_tree(present(fs)[j].1)));
        assert(present_texts(fs)[j] == notation_text(Codec::Avn, present(fs)[j].1));
    }
}

/// `{ }` reads as a SEQUENCE value with no components.
proof fn lemma_parse_empty_braces()
    ensures
        parse_trimmed(seq!['{', ' ', '}']) == Some(Tree::Constructed(Seq::empty())),
{
    let t = seq!['{', ' ', '}'];
    lemma_brace_head_none(t);
    assert(skip_ws(t, 2) == 2);
    assert(skip_ws(t, 1) == 2);
}

/// Braces around `name value` components read as those components.
#[verifier::spinoff_prover]
#[verifier::rlimit(100)]
proof fn lemma_parse_fields_braces(
    es: Seq<Seq<char>>,
    xs: Seq<Seq<char>>,
    fr: Seq<(Seq<char>, Tree)>,
)
    requires
        es.len() >= 1,
        es.len() == xs.len(),
        es.len() == fr.len(),
        forall|j: int|
            0 <= j < es.len() ==> #[trigger] es[j] == fr[j].0 + seq![' '] + xs[j] && ident_text(
                fr[j].0,
            ) && reads_as(xs[j], fr[j].1),
    ensures
        parse_trimmed(crate::avn::enc::braces(es)) == Some(Tree::Constructed(fr)),
        crate::avn::enc::braces(es)[0] == '{',
        crate::avn::enc::braces(es).last() == '}',
{
    let t = crate::avn::enc::braces(es);
    let n = es.len();
    lemma_braces_tail(es);
    let name = fr[0].0;
    let x = xs[0];
    assert(es[0] == fr[0].0 + seq![' '] + xs[0] && ident_text(fr[0].0) && reads_as(xs[0], fr[0].1));
    let rest = if n == 1 {
        seq![' ', '}']
    } else {
        seq![',', ' '] + tail(es, 1)
    };
    assert(tail(es, 0) == es[0] + rest);
    assert(t.subrange(1, t.len() as int) =~= seq![' '] + tail(es, 0));
    assert(seq![' '] + tail(es, 0) =~= seq![' '] + name + seq![' '] + x + rest);
    lemma_field_head(t, 1, name, x, rest);
    assert(t[2] == name[0]);
    lemma_brace_head_none(t);
    let r = 3 + name.len() as int;
    assert(t.subrange(r, t.len() as int)[0] == t[r]);
    assert(t[r] == x[0]);
    assert(named_at(t, 2));
    lemma_p_fields_tail(t, 1, es, xs, fr, 0);
    assert(fr.subrange(0, fr.len() as int) =~= fr);
    assert(t.last() == t[t.len() - 1]);
}

/// A SEQUENCE value reads back as its present components.
proof fn lemma_parse_sequence(fs: Seq<(Seq<char>, Option<ValueModel>)>)
    requires
        fields_readable(fs),
        fields_balanced(Codec::Avn, fs),
    ensures
        parse_trimmed(crate::avn::enc::braces(entry_texts(Codec::Avn, fs))) == Some(
            Tree::Constructed(field_trees(fs)),
        ),
        crate::avn::enc::braces(entry_texts(Codec::Avn, fs))[0] == '{',
        crate::avn::enc::braces(entry_texts(Codec::Avn, fs)).last() == '}',
    decreases fs, 1int,
{
    let es = entry_texts(Codec::Avn, fs);
    let fr = field_trees(fs);
    lemma_fields_at(fs);
    lemma_fields_parse(fs);
    if present(fs).len() == 0 {
        lemma_parse_empty_braces();
        assert(fr =~= Seq::<(Seq<char>, Tree)>::empty());
        assert(crate::avn::enc::braces(es) == seq!['{', ' ', '}']);
    } else {
        lemma_sequence_parts(fs);
        lemma_parse_fields_braces(es, present_texts(fs), fr);
    }
}

/// The text of a bare word is an ASCII identifier.
proof fn lemma_bare_text(v: ValueModel)
    requires
        bare_word(v),
        avn_readable(v),
    ensures
        ident_text(notation_text(Codec::Avn, v)),
{
    let x = notation_text(Codec::Avn, v);
    match v {
        ValueModel::Enumerated(id) => {},
        _ => {
            assert forall|k: int| 0 <= k < x.len() implies ident_ascii(#[trigger] x[k]) by {}
        },
    }
}

/// Nothing reads as the empty text.
proof fn lemma_parse_nothing()
    ensures
        parse_value(Seq::<char>::empty()) is None,
{
    let e = Seq::<char>::empty();
    assert(trim(e) =~= e);
    assert(skip_ms(e, 0) == 0);
    assert(ident_end(e, 0) == 0);
    assert(signed_end(e, 0) == 0);
}

/// Braces whose first part is a bare word followed by a comma or by the
/// closing brace hold no `name value` components.
proof fn lemma_no_fields(t: Seq<char>, x: Seq<char>, rest: Seq<char>)
    requires
        t.len() == 2 + x.len() + rest.len(),
        t[0] == '{',
        t[1] == ' ',
        t.subrange(2, t.len() as int) == x + rest,
        ident_text(x),
        rest == seq![' ', '}'] || (rest.len() >= 1 && rest[0] == ','),
    ensures
        p_fields(t, 1) is None,
{
    let n = x.len() as int;
    assert(t[2] == (x + rest)[0]);
    assert(skip_ws(t, 2) == 2);
    assert(skip_ws(t, 1) == 2);
    assert(t.subrange(2, 2 + n) =~= x);
    assert(t[2 + n] == (x + rest)[n]);
    lemma_ident_at(t, 2, x);
    let q = 2 + n;
    let r = skip_ws(t, q);
    if rest[0] == ',' {
        assert(r == q);
    } else {
        assert(t[q + 1] == (x + rest)[n + 1]);
        assert(skip_ws(t, q + 1) == q + 1);
        assert(r == q + 1);
    }
    let w = t.subrange(r, t.len() as int);
    assert(w[0] == t[r]);
    assert(value_end(w, 0, 0, false) == 0);
    assert(t.subrange(r, r) =~= Seq::<char>::empty());
    lemma_parse_nothing();
}

/// A SEQUENCE OF or SET OF value reads back as its items; where the
/// general rules read its braces otherwise, both readings are kept.
#[verifier::spinoff_prover]
#[verifier::rlimit(100)]
pub proof fn lemma_parse_list(xs: Seq<ValueModel>)
    requires
        items_readable(xs),
        items_balanced(Codec::Avn, xs),
    ensures
        parse_trimmed(crate::avn::enc::braces(item_texts(Codec::Avn, xs))) == Some(
            if xs.len() == 0 {
                Tree::Constructed(Seq::empty())
            } else {
                list_tree(crate::avn::enc::braces(item_texts(Codec::Avn, xs)), item_trees(xs))
            },
        ),
        crate::avn::enc::braces(item_texts(Codec::Avn, xs))[0] == '{',
        crate::avn::enc::braces(item_texts(Codec::Avn, xs)).last() == '}',
        xs.len() > 0 ==> p_items(crate::avn::enc::braces(item_texts(Codec::Avn, xs)), 1) == Some(
            item_trees(xs),
        ),
    decreases xs, 1int,
{
    let ts = item_texts(Codec::Avn, xs);
    let t = crate::avn::enc::braces(ts);
    let rs = item_trees(xs);
    lemma_items_at(xs);
    lemma_items_parse(xs);
    if xs.len() == 0 {
        assert(t == seq!['{', ' ', '}']);
        lemma_parse_empty_braces();
    } else {
        assert forall|j: int| 0 <= j < ts.len() implies #[trigger] reads_as(ts[j], rs[j]) by {
            assert(reads_as(notation_text(Codec::Avn, xs[j]), avn_tree(xs[j])));
        }
        lemma_braces_tail(ts);
        let x = ts[0];
        assert(reads_as(ts[0], rs[0]));
        assert(avn_readable(xs[0]));
        let rest = if xs.len() == 1 {
            seq![' ', '}']
        } else {
            seq![',', ' '] + tail(ts, 1)
        };
        assert(tail(ts, 0) == ts[0] + rest);
        assert(t.subrange(1, t.len() as int) =~= seq![' '] + tail(ts, 0));
        assert(seq![' '] + tail(ts, 0) =~= seq![' '] + x + rest);
        lemma_item_head(t, 1, x, rest);
        let u = t.subrange(2, t.len() as int);
        assert(u == x + rest);
        assert(t[2] == x[0]);
        lemma_avn_parse(xs[0]);
        lemma_p_items_tail(t, 1, ts, rs, 0);
        assert(rs.subrange(0, rs.len() as int) =~= rs);
        assert(p_items(t, 1) == Some(rs));
        assert(rest == seq![' ', '}'] || (rest.len() >= 1 && rest[0] == ','));
        lemma_list_head(t, xs[0], x, rest, rs);
        lemma_list_reading(t, rs);
        assert(t.last() == t[t.len() - 1]);
        assert(parse_trimmed(t) == Some(list_tree(t, rs)));
    }
}

/// Braces whose first item is this value read as a list or as no
/// components.
#[verifier::spinoff_prover]
#[verifier::rlimit(60)]
proof fn lemma_list_head(t: Seq<char>, v: ValueModel, x: Seq<char>, rest: Seq<char>, rs: Seq<Tree>)
    requires
        avn_readable(v),
        lead_ok(v),
        x == notation_text(Codec::Avn, v),
        x.len() >= 1,
        t.len() == 2 + x.len() + rest.len(),
        t[0] == '{',
        t[1] == ' ',
        skip_ws(t, 1) == 2,
        t.subrange(2, t.len() as int) == x + rest,
        rest == seq![' ', '}'] || (rest.len() >= 1 && rest[0] == ','),
        p_items(t, 1) == Some(rs),
        t[2] != '}',
    ensures
        p_constructed(t) is None || p_constructed(t) == Some(Tree::Array(rs)),
{
    let u = t.subrange(2, t.len() as int);
    assert(t[2] == u[0]);
    assert(u[0] == x[0]);
    match v {
        ValueModel::Choice(id, y) => {
            let yt = notation_text(Codec::Avn, *y);
            assert(x == id + seq![':', ' '] + yt);
            assert(t.subrange(2, 2 + id.len() as int) =~= u.subrange(0, id.len() as int));
            assert(u.subrange(0, id.len() as int) =~= id);
            assert(t[2 + id.len() as int] == u[id.len() as int]);
            assert(u[id.len() as int] == ':');
            lemma_ident_at(t, 2, id);
            assert(skip_ws(t, 2 + id.len() as int) == 2 + id.len());
            assert(!named_at(t, 2));
        },
        _ => {
            if bare_word(v) {
                lemma_bare_text(v);
                lemma_no_fields(t, x, rest);
            } else {
                assert(!(is_alpha(x[0]) || x[0] == '_'));
                assert(ident_end(t, 2) == 2);
                assert(!named_at(t, 2));
            }
        },
    }
}

/// Braces that read as these items, or whose components cannot be read,
/// parse as the list tree of the items.
#[verifier::spinoff_prover]
proof fn lemma_list_reading(t: Seq<char>, rs: Seq<Tree>)
    requires
        t.len() >= 1,
        t[0] == '{',
        p_constructed(t) is None || p_constructed(t) == Some(Tree::Array(rs)),
    ensures
        parse_trimmed(t) == Some(list_tree(t, rs)),
{
    reveal(list_tree);
    assert(skip_ms(t, 0) == 0);
    assert(ident_end(t, 0) == 0);
    assert(signed_end(t, 0) == 0);
    lemma_no_word(t);
    assert(p_choice(t) is None);
    assert(p_tail(t) is None);
}

} // verus!
