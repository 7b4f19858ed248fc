//! What REAL values written or read as decimal numerals stand for.
use vstd::prelude::*;

use crate::avn::de::{avn_decode_text, strip_assignment};
use crate::avn::enc::{
    avn_text, find_dot, find_exp, numeral_tuple, remove_dots, tuple_text,
};
use crate::model::{ErrorModel, RealModel, TypeModel, ValueModel};
use crate::text::{all_digits, digits_val, int_text, is_digit, trim};

verus! {

/// A decimal integer numeral read as a REAL is that number: the REAL keeps
/// the numeral's own text.
pub proof fn law_avn_integer_as_real(n: int)
    ensures
        avn_decode_text(int_text(n), TypeModel::Real) == Ok::<ValueModel, ErrorModel>(
            ValueModel::Real(RealModel::Numeral(int_text(n))),
        ),
{
    let t = int_text(n);
    crate::laws::avn_reads::lemma_parse_int(n);
    crate::laws::avn_reads::lemma_trim_clean(t);
    assert(trim(t) == t);
    assert(strip_assignment(t) == t);
}

/// The first `E` or `e` of a text is at `k` when one stands there and none
/// before.
proof fn lemma_find_exp_at(t: Seq<char>, k: int)
    requires
        0 <= k < t.len(),
        t[k] == 'E',
        forall|j: int| 0 <= j < k ==> #[trigger] t[j] != 'E' && t[j] != 'e',
    ensures
        find_exp(t) == Some(k),
    decreases t.len(),
{
    if k < t.len() - 1 {
        let t1 = t.drop_last();
        assert forall|j: int| 0 <= j < k implies #[trigger] t1[j] != 'E' && t1[j] != 'e' by {
            assert(t1[j] == t[j]);
        }
        assert(t1[k] == t[k]);
        lemma_find_exp_at(t1, k);
    } else {
        lemma_find_exp_none(t.drop_last());
    }
}

proof fn lemma_find_exp_none(t: Seq<char>)
    requires
        forall|j: int| 0 <= j < t.len() ==> #[trigger] t[j] != 'E' && t[j] != 'e',
    ensures
        find_exp(t) is None,
    decreases t.len(),
{
    if t.len() > 0 {
        let t1 = t.drop_last();
        assert forall|j: int| 0 <= j < t1.len() implies #[trigger] t1[j] != 'E' && t1[j] != 'e' by {
            assert(t1[j] == t[j]);
        }
        lemma_find_exp_none(t1);
        assert(t[t.len() - 1] != 'E');
    }
}

proof fn lemma_find_dot_at(t: Seq<char>, k: int)
    requires
        0 <= k < t.len(),
        t[k] == '.',
        forall|j: int| 0 <= j < k ==> #[trigger] t[j] != '.',
    ensures
        find_dot(t) == Some(k),
    decreases t.len(),
{
    if k < t.len() - 1 {
        let t1 = t.drop_last();
        assert forall|j: int| 0 <= j < k implies #[trigger] t1[j] != '.' by {
            assert(t1[j] == t[j]);
        }
        assert(t1[k] == t[k]);
        lemma_find_dot_at(t1, k);
    } else {
        lemma_find_dot_none(t.drop_last());
    }
}

proof fn lemma_find_dot_none(t: Seq<char>)
    requires
        forall|j: int| 0 <= j < t.len() ==> #[trigger] t[j] != '.',
    ensures
        find_dot(t) is None,
        remove_dots(t) == t,
    decreases t.len(),
{
    if t.len() > 0 {
        let t1 = t.drop_last();
        assert forall|j: int| 0 <= j < t1.len() implies #[trigger] t1[j] != '.' by {
            assert(t1[j] == t[j]);
        }
        lemma_find_dot_none(t1);
        assert(t[t.len() - 1] != '.');
        assert(t1.push(t.last()) =~= t);
    }
}

/// Removing the points of two texts one after the other.
proof fn lemma_remove_dots_concat(x: Seq<char>, y: Seq<char>)
    ensures
        remove_dots(x + y) == remove_dots(x) + remove_dots(y),
    decreases y.len(),
{
    if y.len() == 0 {
        assert(x + y =~= x);
        assert(remove_dots(x) + remove_dots(y) =~= remove_dots(x));
    } else {
        let y1 = y.drop_last();
        lemma_remove_dots_concat(x, y1);
        assert((x + y).drop_last() =~= x + y1);
        assert((x + y).last() == y.last());
        if y.last() == '.' {
        } else {
            assert(remove_dots(x) + remove_dots(y1).push(y.last()) =~= (remove_dots(x)
                + remove_dots(y1)).push(y.last()));
        }
    }
}

pub open spec fn sign_text(neg: bool) -> Seq<char> {
    if neg {
        seq!['-']
    } else {
        Seq::empty()
    }
}

pub open spec fn point_text(f: Seq<char>) -> Seq<char> {
    if f.len() == 0 {
        Seq::empty()
    } else {
        seq!['.'] + f
    }
}

/// The mantissa part `[-]a[.f]`: its digits after the point, and its digits
/// read as one signed integer.
#[verifier::spinoff_prover]
proof fn lemma_mantissa(neg: bool, a: Seq<char>, f: Seq<char>)
    requires
        a.len() >= 1,
        all_digits(a),
        all_digits(f),
        digits_val(a + f) <= i64::MAX,
    ensures
        ({
            let mant = sign_text(neg) + a + point_text(f);
            &&& (match find_dot(mant) {
                Some(d) => mant.len() - d - 1,
                None => 0,
            }) == f.len()
            &&& crate::avn::enc::parse_signed(remove_dots(mant), i64::MIN as int, i64::MAX as int)
                == Some(
                if neg {
                    -(digits_val(a + f) as int)
                } else {
                    digits_val(a + f) as int
                },
            )
        }),
{
    let sg = sign_text(neg);
    let mant = sg + a + point_text(f);
    let head = sg + a;
    assert forall|j: int| 0 <= j < head.len() implies #[trigger] head[j] != '.' by {
        if j >= sg.len() {
            assert(head[j] == a[j - sg.len()]);
            assert(is_digit(a[j - sg.len()]));
        }
    }
    assert forall|j: int| 0 <= j < f.len() implies #[trigger] f[j] != '.' by {
        assert(is_digit(f[j]));
    }
    lemma_find_dot_none(head);
    lemma_find_dot_none(f);
    if f.len() == 0 {
        assert(mant =~= head);
        assert(head + f =~= head);
    } else {
        assert(mant =~= head + seq!['.'] + f);
        assert(mant[head.len() as int] == '.');
        assert forall|j: int| 0 <= j < head.len() implies #[trigger] mant[j] != '.' by {
            assert(mant[j] == head[j]);
        }
        lemma_find_dot_at(mant, head.len() as int);
        lemma_remove_dots_concat(head, seq!['.']);
        lemma_remove_dots_concat(head + seq!['.'], f);
        let dot = seq!['.'];
        assert(dot.drop_last() =~= Seq::<char>::empty());
        assert(remove_dots(Seq::<char>::empty()) =~= Seq::<char>::empty());
        assert(dot.last() == '.');
        assert(remove_dots(dot) == remove_dots(dot.drop_last()));
        assert(remove_dots(dot) =~= Seq::<char>::empty());
        assert(head + Seq::<char>::empty() =~= head);
    }
    assert(remove_dots(mant) =~= sg + (a + f));
    let af = a + f;
    assert forall|j: int| 0 <= j < af.len() implies is_digit(#[trigger] af[j]) by {
        if j < a.len() {
            assert(af[j] == a[j]);
        } else {
            assert(af[j] == f[j - a.len()]);
        }
    }
    if neg {
        assert((sg + af)[0] == '-');
        assert((sg + af).drop_first() =~= af);
    } else {
        assert(sg + af =~= af);
        assert(is_digit(af[0]));
    }
}

/// A numeral `mant E xt` whose mantissa holds no `E`: the `E` is found there.
#[verifier::spinoff_prover]
proof fn lemma_exp_split(neg: bool, a: Seq<char>, f: Seq<char>, x: int)
    requires
        all_digits(a),
        all_digits(f),
    ensures
        ({
            let mant = sign_text(neg) + a + point_text(f);
            let t = numeral(neg, a, f, x);
            &&& find_exp(t) == Some(mant.len() as int)
            &&& t.subrange(0, mant.len() as int) == mant
            &&& t.subrange(mant.len() as int + 1, t.len() as int) == int_text(x)
        }),
{
    let sg = sign_text(neg);
    let dp = point_text(f);
    let mant = sg + a + dp;
    let t = numeral(neg, a, f, x);
    assert(t =~= mant + seq!['E'] + int_text(x));
    let k = mant.len() as int;
    assert forall|j: int| 0 <= j < k implies #[trigger] t[j] != 'E' && t[j] != 'e' by {
        assert(t[j] == mant[j]);
        if j < sg.len() {
        } else if j < sg.len() + a.len() {
            assert(mant[j] == a[j - sg.len()]);
            assert(is_digit(a[j - sg.len()]));
        } else if j == sg.len() + a.len() {
            assert(mant[j] == dp[0]);
        } else {
            assert(mant[j] == dp[j - sg.len() - a.len()]);
            assert(dp[j - sg.len() - a.len()] == f[j - sg.len() - a.len() - 1]);
            assert(is_digit(f[j - sg.len() - a.len() - 1]));
        }
    }
    assert(t[k] == 'E');
    lemma_find_exp_at(t, k);
    assert(t.subrange(0, k) =~= mant);
    assert(t.subrange(k + 1, t.len() as int) =~= int_text(x));
}

/// A decimal numeral as Rust's `{:E}` writes a float: an optional `-`, the
/// digits `a` before the point, the digits `f` after it (the point left out
/// when there are none), `E`, and the exponent `x`.
pub open spec fn numeral(neg: bool, a: Seq<char>, f: Seq<char>, x: int) -> Seq<char> {
    sign_text(neg) + a + point_text(f) + seq!['E'] + int_text(x)
}

/// A REAL given as the numeral `[-]a.fEx` is written as the tuple
/// `{ M, 10, X }` with `M` the digits `a` and `f` read as one integer (negated
/// for `-`) and `X = x - |f|`: so `M * 10^X` is the numeral's value, and a
/// negative exponent gives a negative `X`. (The digits must form an `i64`
/// and `x` an `i32`, as they do for a float.)
pub proof fn law_avn_numeral_tuple(neg: bool, a: Seq<char>, f: Seq<char>, x: int)
    requires
        a.len() >= 1,
        all_digits(a),
        all_digits(f),
        digits_val(a + f) <= i64::MAX,
        i32::MIN <= x <= i32::MAX,
    ensures
        avn_text(ValueModel::Real(RealModel::Numeral(numeral(neg, a, f, x)))) == tuple_text(
            if neg {
                -(digits_val(a + f) as int)
            } else {
                digits_val(a + f) as int
            },
            10,
            x - f.len(),
        ),
{
    lemma_mantissa(neg, a, f);
    lemma_exp_split(neg, a, f, x);
    crate::laws::lexical::law_integer_numeral(x, i32::MIN as int, i32::MAX as int);
}

} // verus!
