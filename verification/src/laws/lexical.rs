//! The lexical forms read back: quoted strings, hstrings, bstrings, numerals
//! and OBJECT IDENTIFIER values.
use vstd::prelude::*;

use crate::avn::de::{
    bin_bits, bin_end, has_at, hex_bytes, hex_end, p_bin, p_hex, p_string, p_string_body,
};
use crate::avn::de::{arc_at, digit_end, p_oid, p_oid_rest, signed_end};
use crate::avn::enc::{
    arc_texts, avn_oid_text, bin_body, bin_text, escape_body, gser_oid_text, hex_body, hex_text,
    join, parse_signed, quoted,
};
use crate::avn::de::unpack_bytes;
use crate::avn::enc::{bit_at, byte_prefix, lemma_pow2_pos, pack_bits, pow2_nat};
use crate::gser::de::{g_oid, g_oid_more};
use vstd::arithmetic::div_mod::{lemma_div_denominator, lemma_fundamental_div_mod_converse};
use crate::text::{is_multispace, is_ws, skip_ms, skip_ws};
use crate::text::{
    all_digits, digit_char, digit_val, digits_val, hex_char, hex_val, int_text, is_bin_digit,
    is_digit, is_hex_digit, nat_text,
};

verus! {

/// Reading a string body at `i` that holds `escape_body(s)` and then a body
/// that reads as `r` gives `s + r`.
proof fn lemma_escape_body_reads(t: Seq<char>, i: int, s: Seq<char>, r: Seq<char>)
    requires
        0 <= i,
        i + escape_body(s).len() <= t.len(),
        t.subrange(i, i + escape_body(s).len()) == escape_body(s),
        p_string_body(t, i + escape_body(s).len()) == Some(r),
    ensures
        p_string_body(t, i) == Some(s + r),
    decreases s.len(),
{
    if s.len() == 0 {
        assert(s + r =~= r);
    } else {
        let s1 = s.drop_last();
        let c = s.last();
        let n1 = escape_body(s1).len() as int;
        let j = i + n1;
        if c == '"' {
            assert(escape_body(s) == escape_body(s1) + seq!['"', '"']);
            assert(t[j] == t.subrange(i, i + escape_body(s).len())[n1]);
            assert(t[j + 1] == t.subrange(i, i + escape_body(s).len())[n1 + 1]);
        } else {
            assert(escape_body(s) == escape_body(s1).push(c));
            assert(t[j] == t.subrange(i, i + escape_body(s).len())[n1]);
        }
        assert(p_string_body(t, j) == Some(seq![c] + r));
        assert(t.subrange(i, j) =~= t.subrange(i, i + escape_body(s).len()).subrange(0, n1));
        assert(escape_body(s).subrange(0, n1) =~= escape_body(s1));
        lemma_escape_body_reads(t, i, s1, seq![c] + r);
        assert(s1 + (seq![c] + r) =~= s + r);
    }
}

/// A quoted string reads back as the string it quotes.
pub proof fn law_quoted_string(s: Seq<char>)
    ensures
        p_string(quoted(s)) == Some(s),
{
    let t = quoted(s);
    let n = escape_body(s).len() as int;
    assert(t.subrange(1, 1 + n) =~= escape_body(s));
    assert(t[1 + n] == '"');
    assert(p_string_body(t, 1 + n) == Some(Seq::<char>::empty()));
    lemma_escape_body_reads(t, 1, s, Seq::empty());
    assert(s + Seq::<char>::empty() =~= s);
}

/// A quoted string followed by text that does not start with `"` reads
/// back as the string it quotes; the text after it is not read.
pub proof fn law_quoted_string_then(s: Seq<char>, rest: Seq<char>)
    requires
        rest.len() == 0 || rest[0] != '"',
    ensures
        p_string(quoted(s) + rest) == Some(s),
{
    let q = quoted(s);
    let t = q + rest;
    let n = escape_body(s).len() as int;
    assert(q.subrange(1, 1 + n) =~= escape_body(s));
    assert(t.subrange(1, 1 + n) =~= escape_body(s));
    assert(t[0] == q[0]);
    assert(t[1 + n] == q[1 + n]);
    assert(t[1 + n] == '"');
    if rest.len() > 0 {
        assert(t[2 + n] == rest[0]);
    }
    assert(p_string_body(t, 1 + n) == Some(Seq::<char>::empty()));
    lemma_escape_body_reads(t, 1, s, Seq::empty());
    assert(s + Seq::<char>::empty() =~= s);
}

/// The hexadecimal digit of a value below 16 reads back as that value.
pub proof fn lemma_hex_char(d: nat)
    requires
        d < 16,
    ensures
        is_hex_digit(hex_char(d)),
        hex_val(hex_char(d)) == d,
        hex_char(d) != '\'',
{
    if d < 10 {
        assert(((d + ('0' as u32)) as char) as u32 == d + 48);
    } else {
        assert((((d - 10) + ('A' as u32)) as char) as u32 == d + 55);
    }
}

/// The digits of an hstring: two upper-case hexadecimal digits per byte,
/// the high half first, the bytes in order.
pub proof fn law_hex_body(b: Seq<u8>)
    ensures
        hex_body(b).len() == 2 * b.len(),
        forall|k: int|
            0 <= k < b.len() ==> #[trigger] hex_body(b)[2 * k] == hex_char((b[k] / 16) as nat)
                && hex_body(b)[2 * k + 1] == hex_char((b[k] % 16) as nat),
    decreases b.len(),
{
    if b.len() > 0 {
        let b1 = b.drop_last();
        law_hex_body(b1);
        assert forall|k: int| 0 <= k < b.len() implies #[trigger] hex_body(b)[2 * k] == hex_char(
            (b[k] / 16) as nat,
        ) && hex_body(b)[2 * k + 1] == hex_char((b[k] % 16) as nat) by {
            if k < b1.len() {
                assert(hex_body(b1)[2 * k] == hex_char((b1[k] / 16) as nat));
            }
        }
    }
}

/// `hex_end` stops at `k` when the digits run from `i` to `k` and `t[k]` is none.
pub proof fn lemma_hex_end_at(t: Seq<char>, i: int, k: int)
    requires
        0 <= i <= k < t.len(),
        forall|j: int| i <= j < k ==> is_hex_digit(#[trigger] t[j]),
        !is_hex_digit(t[k]),
    ensures
        hex_end(t, i) == k,
    decreases k - i,
{
    if i < k {
        lemma_hex_end_at(t, i + 1, k);
    }
}

pub proof fn lemma_hex_body_digits(b: Seq<u8>)
    ensures
        forall|j: int| 0 <= j < hex_body(b).len() ==> is_hex_digit(#[trigger] hex_body(b)[j]),
{
    let h = hex_body(b);
    law_hex_body(b);
    assert forall|j: int| 0 <= j < h.len() implies is_hex_digit(#[trigger] h[j]) by {
        let m = j / 2;
        if j % 2 == 0 {
            assert(h[2 * m] == hex_char((b[m] / 16) as nat));
            lemma_hex_char((b[m] / 16) as nat);
        } else {
            assert(h[2 * m] == hex_char((b[m] / 16) as nat));
            assert(h[2 * m + 1] == hex_char((b[m] % 16) as nat));
            lemma_hex_char((b[m] % 16) as nat);
        }
    }
}

proof fn lemma_hex_body_bytes(b: Seq<u8>)
    ensures
        hex_bytes(hex_body(b)) == Some(b),
{
    let h = hex_body(b);
    law_hex_body(b);

    assert forall|m: int| 0 <= m < b.len() implies (hex_val(h[2 * m]) * 16 + hex_val(
        h[2 * m + 1],
    )) as u8 == b[m] by {
        assert(h[2 * m] == hex_char((b[m] / 16) as nat));
        lemma_hex_char((b[m] / 16) as nat);
        lemma_hex_char((b[m] % 16) as nat);
    }
    assert(Seq::new(h.len() / 2, |m: int| (hex_val(h[2 * m]) * 16 + hex_val(h[2 * m + 1])) as u8)
        =~= b);
}

/// An hstring reads back as the bytes it was written from.
pub proof fn law_hstring(b: Seq<u8>)
    ensures
        p_hex(hex_text(b)) == Some(b),
{
    let t = hex_text(b);
    let h = hex_body(b);
    law_hex_body(b);
    lemma_hex_body_digits(b);
    let k = 1 + h.len() as int;
    assert forall|j: int| 1 <= j < k implies is_hex_digit(#[trigger] t[j]) by {
        assert(t[j] == h[j - 1]);
    }
    lemma_hex_end_at(t, 1, k);
    assert(t.subrange(k, k + 2) =~= seq!['\'', 'H']);
    assert(t.subrange(1, k) =~= h);
    lemma_hex_body_bytes(b);
}

/// The digits of a bstring: one binary digit per bit, the bits in order.
pub proof fn law_bin_body(bits: Seq<bool>)
    ensures
        bin_body(bits).len() == bits.len(),
        forall|k: int|
            0 <= k < bits.len() ==> #[trigger] bin_body(bits)[k] == if bits[k] {
                '1'
            } else {
                '0'
            },
    decreases bits.len(),
{
    if bits.len() > 0 {
        law_bin_body(bits.drop_last());
        assert forall|k: int| 0 <= k < bits.len() implies #[trigger] bin_body(bits)[k] == if bits[k] {
            '1'
        } else {
            '0'
        } by {
            if k < bits.len() - 1 {
                assert(bin_body(bits.drop_last())[k] == bin_body(bits)[k]);
                assert(bits.drop_last()[k] == bits[k]);
            }
        }
    }
}

/// `bin_end` stops at `k` when the binary digits run from `i` to `k` and `t[k]` is none.
proof fn lemma_bin_end_at(t: Seq<char>, i: int, k: int)
    requires
        0 <= i <= k < t.len(),
        forall|j: int| i <= j < k ==> is_bin_digit(#[trigger] t[j]),
        !is_bin_digit(t[k]),
    ensures
        bin_end(t, i) == k,
    decreases k - i,
{
    if i < k {
        lemma_bin_end_at(t, i + 1, k);
    }
}

/// A bstring reads back as the bits it was written from.
pub proof fn law_bstring(bits: Seq<bool>)
    ensures
        p_bin(bin_text(bits)) == Some(bits),
{
    let t = bin_text(bits);
    let h = bin_body(bits);
    law_bin_body(bits);
    let k = 1 + h.len() as int;
    assert forall|j: int| 1 <= j < k implies is_bin_digit(#[trigger] t[j]) by {
        assert(t[j] == h[j - 1]);
    }
    lemma_bin_end_at(t, 1, k);
    assert(t.subrange(k, k + 2) =~= seq!['\'', 'B']);
    assert(t.subrange(1, k) =~= h);
    assert(bin_bits(h) =~= bits);
}

/// The decimal numeral of `n` is a non-empty run of digits worth `n`.
pub proof fn lemma_nat_text(n: nat)
    ensures
        nat_text(n).len() >= 1,
        all_digits(nat_text(n)),
        digits_val(nat_text(n)) == n,
    decreases n,
{
    if n < 10 {
        assert(((n + ('0' as u32)) as char) as u32 == n + 48);
        assert(nat_text(n).drop_last() =~= Seq::<char>::empty());
        assert(digit_val(digit_char(n)) == n);
        assert(nat_text(n).last() == digit_char(n));
        assert(digits_val(nat_text(n).drop_last()) == 0);
        assert(digits_val(nat_text(n)) == digits_val(nat_text(n).drop_last()) * 10 + digit_val(
            nat_text(n).last(),
        ));
    } else {
        lemma_nat_text(n / 10);
        let d = n % 10;
        assert(((d + ('0' as u32)) as char) as u32 == d + 48);
        assert(digit_val(digit_char(d)) == d);
        assert(nat_text(n).drop_last() =~= nat_text(n / 10));
        assert(is_digit(digit_char(d)));
        assert(nat_text(n).last() == digit_char(d));
        assert(digits_val(nat_text(n)) == digits_val(nat_text(n / 10)) * 10 + d);
        assert((n / 10) * 10 + n % 10 == n);
        assert forall|i: int| 0 <= i < nat_text(n).len() implies is_digit(#[trigger] nat_text(n)[i]) by {
            if i < nat_text(n / 10).len() {
                assert(nat_text(n)[i] == nat_text(n / 10)[i]);
            }
        }
    }
}

/// `digit_end` runs to the end of `t` when all of `t` from `i` is digits.
pub proof fn lemma_digit_end_all(t: Seq<char>, i: int)
    requires
        0 <= i <= t.len(),
        forall|j: int| i <= j < t.len() ==> is_digit(#[trigger] t[j]),
    ensures
        digit_end(t, i) == t.len(),
    decreases t.len() - i,
{
    if i < t.len() {
        lemma_digit_end_all(t, i + 1);
    }
}

/// `digit_end` stops at `k` when the digits run from `i` to `k` and `t[k]` is none.
pub proof fn lemma_digit_end_at(t: Seq<char>, i: int, k: int)
    requires
        0 <= i <= k < t.len(),
        forall|j: int| i <= j < k ==> is_digit(#[trigger] t[j]),
        !is_digit(t[k]),
    ensures
        digit_end(t, i) == k,
    decreases k - i,
{
    if i < k {
        lemma_digit_end_at(t, i + 1, k);
    }
}

/// The numeral of an integer is read whole, and as that integer wherever it fits.
pub proof fn law_integer_numeral(n: int, min: int, max: int)
    ensures
        signed_end(int_text(n), 0) == int_text(n).len(),
        min <= n <= max ==> parse_signed(int_text(n), min, max) == Some(n),
{
    let t = int_text(n);
    if n < 0 {
        let m = (-n) as nat;
        lemma_nat_text(m);
        assert(t.drop_first() =~= nat_text(m));
        assert forall|j: int| 1 <= j < t.len() implies is_digit(#[trigger] t[j]) by {
            assert(t[j] == nat_text(m)[j - 1]);
        }
        lemma_digit_end_all(t, 1);
    } else {
        lemma_nat_text(n as nat);
        lemma_digit_end_all(t, 0);
    }
}

/// A joined list is its first item, the separator, and the rest joined.
pub proof fn lemma_join_front(xs: Seq<Seq<char>>, sep: Seq<char>)
    requires
        xs.len() >= 2,
    ensures
        join(xs, sep) == xs[0] + sep + join(xs.drop_first(), sep),
    decreases xs.len(),
{
    if xs.len() == 2 {
        assert(join(xs.drop_last(), sep) == xs.drop_last()[0]);
        assert(xs.drop_last()[0] == xs[0]);
        assert(join(xs.drop_first(), sep) == xs.drop_first()[0]);
        assert(xs.drop_first()[0] == xs[1]);
        assert(join(xs, sep) == join(xs.drop_last(), sep) + sep + xs.last());
        assert(join(xs, sep) =~= xs[0] + sep + join(xs.drop_first(), sep));
    } else {
        let dl = xs.drop_last();
        lemma_join_front(dl, sep);
        assert(xs.drop_first().drop_last() =~= dl.drop_first());
        assert(xs.drop_first().last() == xs.last());
        assert(join(xs.drop_first(), sep) == join(dl.drop_first(), sep) + sep + xs.last());
        assert(join(xs, sep) == join(dl, sep) + sep + xs.last());
        assert(dl[0] == xs[0]);
        assert(join(xs, sep) =~= xs[0] + sep + join(xs.drop_first(), sep));
    }
}

/// The arcs after the first in value notation: ` a` for each, then ` }`.
pub open spec fn spaced_arcs(arcs: Seq<u32>) -> Seq<char>
    decreases arcs.len(),
{
    if arcs.len() == 0 {
        seq![' ', '}']
    } else {
        seq![' '] + nat_text(arcs[0] as nat) + spaced_arcs(arcs.drop_first())
    }
}

/// The arcs after the first in GSER: `.a` for each.
pub open spec fn dotted_arcs(arcs: Seq<u32>) -> Seq<char>
    decreases arcs.len(),
{
    if arcs.len() == 0 {
        Seq::empty()
    } else {
        seq!['.'] + nat_text(arcs[0] as nat) + dotted_arcs(arcs.drop_first())
    }
}

proof fn lemma_spaced_arcs(arcs: Seq<u32>)
    requires
        arcs.len() >= 1,
    ensures
        join(arc_texts(arcs), seq![' ']) + seq![' ', '}'] == nat_text(arcs[0] as nat)
            + spaced_arcs(arcs.drop_first()),
    decreases arcs.len(),
{
    let xs = arc_texts(arcs);
    let sep = seq![' '];
    let close = seq![' ', '}'];
    if arcs.len() == 1 {
        assert(join(xs, sep) == xs[0]);
        assert(spaced_arcs(arcs.drop_first()) == close);
    } else {
        let d = arcs.drop_first();
        lemma_join_front(xs, sep);
        assert(xs.drop_first() =~= arc_texts(d));
        lemma_spaced_arcs(d);
        let j1 = join(arc_texts(d), sep);
        assert(j1 + close == nat_text(d[0] as nat) + spaced_arcs(d.drop_first()));
        assert(spaced_arcs(d) == sep + nat_text(d[0] as nat) + spaced_arcs(d.drop_first()));
        assert(join(xs, sep) == xs[0] + sep + j1);
        assert(xs[0] == nat_text(arcs[0] as nat));
        assert(join(xs, sep) + close =~= xs[0] + sep + (j1 + close));
        assert(sep + (nat_text(d[0] as nat) + spaced_arcs(d.drop_first())) =~= spaced_arcs(d));
    }
}

proof fn lemma_dotted_arcs(arcs: Seq<u32>)
    requires
        arcs.len() >= 1,
    ensures
        gser_oid_text(arcs) == nat_text(arcs[0] as nat) + dotted_arcs(arcs.drop_first()),
    decreases arcs.len(),
{
    let xs = arc_texts(arcs);
    if arcs.len() == 1 {
        assert(join(xs, seq!['.']) == xs[0]);
        assert(nat_text(arcs[0] as nat) + dotted_arcs(arcs.drop_first()) =~= xs[0]);
    } else {
        lemma_join_front(xs, seq!['.']);
        assert(xs.drop_first() =~= arc_texts(arcs.drop_first()));
        lemma_dotted_arcs(arcs.drop_first());
        assert(arcs.drop_first()[0] == arcs[1]);
        assert(gser_oid_text(arcs) =~= nat_text(arcs[0] as nat) + dotted_arcs(arcs.drop_first()));
    }
}

/// The digits of an arc, standing at `p` and followed by a non-digit (or the
/// end), read as that arc.
proof fn lemma_arc_reads(t: Seq<char>, p: int, a: u32)
    requires
        0 <= p,
        p + nat_text(a as nat).len() <= t.len(),
        t.subrange(p, p + nat_text(a as nat).len()) == nat_text(a as nat),
        p + nat_text(a as nat).len() < t.len() ==> !is_digit(t[p + nat_text(a as nat).len()]),
    ensures
        digit_end(t, p) == p + nat_text(a as nat).len(),
        arc_at(t, p, p + nat_text(a as nat).len()) == Some(a),
{
    let n = nat_text(a as nat);
    let q = p + n.len() as int;
    lemma_nat_text(a as nat);
    assert forall|j: int| p <= j < q implies is_digit(#[trigger] t[j]) by {
        assert(t[j] == n[j - p]);
    }
    if q < t.len() {
        lemma_digit_end_at(t, p, q);
    } else {
        lemma_digit_end_all(t, p);
    }
}

proof fn lemma_p_oid_rest(t: Seq<char>, j: int, arcs: Seq<u32>)
    requires
        0 <= j,
        j + spaced_arcs(arcs).len() <= t.len(),
        t.subrange(j, j + spaced_arcs(arcs).len()) == spaced_arcs(arcs),
    ensures
        p_oid_rest(t, j) == Some(arcs),
    decreases arcs.len(),
{
    let w = spaced_arcs(arcs);
    let e = j + w.len();
    assert(t[j] == w[0]);
    assert(t[j + 1] == w[1]);
    if arcs.len() > 0 {
        let a = arcs[0];
        let n = nat_text(a as nat);
        let p = j + 1;
        let q = p + n.len() as int;
        lemma_nat_text(a as nat);
        assert(w[1] == n[0]);
        assert(is_digit(n[0]));
        assert(skip_ws(t, j + 1) == j + 1);
        assert(skip_ws(t, j) == j + 1);
        assert(spaced_arcs(arcs.drop_first()).len() >= 1);
        assert(t.subrange(p, q) =~= w.subrange(1, 1 + n.len() as int));
        assert(w.subrange(1, 1 + n.len() as int) =~= n);
        assert(t[q] == w[1 + n.len() as int]);
        assert(w[1 + n.len() as int] == spaced_arcs(arcs.drop_first())[0]);
        lemma_arc_reads(t, p, a);
        assert(w == seq![' '] + n + spaced_arcs(arcs.drop_first()));
        assert(w.subrange(1 + n.len() as int, w.len() as int) =~= spaced_arcs(arcs.drop_first()));
        assert(t.subrange(q, e) =~= w.subrange(1 + n.len() as int, w.len() as int));
        lemma_p_oid_rest(t, q, arcs.drop_first());
        assert(seq![a] + arcs.drop_first() =~= arcs);
    } else {
        assert(skip_ws(t, j + 1) == j + 1);
        assert(skip_ws(t, j) == j + 1);
    }
}

/// An OBJECT IDENTIFIER written in value notation reads back as its arcs.
pub proof fn law_avn_oid(arcs: Seq<u32>)
    requires
        arcs.len() >= 1,
    ensures
        p_oid(avn_oid_text(arcs)) == Some(arcs),
{
    law_avn_oid_then(arcs, Seq::empty());
    assert(avn_oid_text(arcs) + Seq::<char>::empty() =~= avn_oid_text(arcs));
}

/// An OBJECT IDENTIFIER written in value notation reads back as its arcs
/// whatever text follows it: reading stops at its closing brace.
pub proof fn law_avn_oid_then(arcs: Seq<u32>, more: Seq<char>)
    requires
        arcs.len() >= 1,
    ensures
        p_oid(avn_oid_text(arcs) + more) == Some(arcs),
{
    let x = avn_oid_text(arcs);
    let t = x + more;
    let a = arcs[0];
    let n = nat_text(a as nat);
    lemma_spaced_arcs(arcs);
    lemma_nat_text(a as nat);
    let rest = spaced_arcs(arcs.drop_first());
    assert(x =~= seq!['{', ' '] + (join(arc_texts(arcs), seq![' ']) + seq![' ', '}']));
    assert(x =~= seq!['{', ' '] + n + rest);
    assert(is_digit(n[0]));
    assert(t[0] == x[0]);
    assert(t[1] == x[1]);
    assert(t[2] == x[2]);
    assert(skip_ms(t, 0) == 0);
    assert(skip_ms(t, 2) == 2);
    assert(skip_ms(t, 1) == 2);
    assert(skip_ws(t, 2) == 2);
    assert(t.subrange(2, 2 + n.len() as int) =~= n);
    assert(t[2 + n.len() as int] == x[2 + n.len() as int]);
    assert(x[2 + n.len() as int] == rest[0]);
    lemma_arc_reads(t, 2, a);
    assert(t.subrange(2 + n.len() as int, x.len() as int) =~= rest);
    lemma_p_oid_rest(t, 2 + n.len() as int, arcs.drop_first());
    assert(seq![a] + arcs.drop_first() =~= arcs);
}

proof fn lemma_g_oid_more(t: Seq<char>, j: int, arcs: Seq<u32>)
    requires
        0 <= j,
        j + dotted_arcs(arcs).len() == t.len(),
        t.subrange(j, t.len() as int) == dotted_arcs(arcs),
    ensures
        g_oid_more(t, j) == arcs,
    decreases arcs.len(),
{
    let w = dotted_arcs(arcs);
    if arcs.len() > 0 {
        let a = arcs[0];
        let n = nat_text(a as nat);
        let p = j + 1;
        let q = p + n.len() as int;
        lemma_nat_text(a as nat);
        assert(t[j] == w[0]);
        assert(t.subrange(p, q) =~= w.subrange(1, 1 + n.len() as int));
        assert(w.subrange(1, 1 + n.len() as int) =~= n);
        if q < t.len() {
            assert(t[q] == w[1 + n.len() as int]);
            assert(w[1 + n.len() as int] == dotted_arcs(arcs.drop_first())[0]);
        }
        lemma_arc_reads(t, p, a);
        assert(w == seq!['.'] + n + dotted_arcs(arcs.drop_first()));
        assert(w.subrange(1 + n.len() as int, w.len() as int) =~= dotted_arcs(arcs.drop_first()));
        assert(t.subrange(q, t.len() as int) =~= w.subrange(1 + n.len() as int, w.len() as int));
        lemma_g_oid_more(t, q, arcs.drop_first());
        assert(seq![a] + arcs.drop_first() =~= arcs);
    } else {
        assert(w.len() == 0);
    }
}

/// An OBJECT IDENTIFIER written in GSER reads back as its arcs.
pub proof fn law_gser_oid(arcs: Seq<u32>)
    requires
        arcs.len() >= 1,
    ensures
        g_oid(gser_oid_text(arcs)) == Some(arcs),
{
    let t = gser_oid_text(arcs);
    let a = arcs[0];
    let n = nat_text(a as nat);
    lemma_dotted_arcs(arcs);
    lemma_nat_text(a as nat);
    let rest = dotted_arcs(arcs.drop_first());
    assert(t.subrange(0, n.len() as int) =~= n);
    if n.len() < t.len() {
        assert(t[n.len() as int] == rest[0]);
    }
    lemma_arc_reads(t, 0, a);
    assert(t.subrange(n.len() as int, t.len() as int) =~= rest);
    lemma_g_oid_more(t, n.len() as int, arcs.drop_first());
    assert(seq![a] + arcs.drop_first() =~= arcs);
}

proof fn lemma_byte_prefix_bound(bits: Seq<bool>, k: int, j: int)
    requires
        0 <= j,
    ensures
        byte_prefix(bits, k, j) < pow2_nat(j as nat),
    decreases j,
{
    if j > 0 {
        lemma_byte_prefix_bound(bits, k, j - 1);
        assert(pow2_nat(j as nat) == 2 * pow2_nat((j - 1) as nat));
    }
}

/// Bit `r` of the first `j` bits of byte `k`, counted from the high end.
proof fn lemma_byte_prefix_bit(bits: Seq<bool>, k: int, j: int, r: int)
    requires
        0 <= r < j,
    ensures
        (byte_prefix(bits, k, j) / pow2_nat((j - 1 - r) as nat)) % 2 == if bit_at(bits, 8 * k + r) {
            1nat
        } else {
            0nat
        },
    decreases j,
{
    let p = byte_prefix(bits, k, j - 1);
    let b: nat = if bit_at(bits, 8 * k + j - 1) {
        1
    } else {
        0
    };
    let x = byte_prefix(bits, k, j);
    assert(x == p * 2 + b);
    lemma_fundamental_div_mod_converse(x as int, 2, p as int, b as int);
    if r == j - 1 {
        assert(pow2_nat(0) == 1);
        assert(x / 1 == x);
        assert(x % 2 == b);
    } else {
        let q = pow2_nat((j - 2 - r) as nat);
        lemma_pow2_pos((j - 2 - r) as nat);
        assert(pow2_nat((j - 1 - r) as nat) == 2 * q);
        lemma_div_denominator(x as int, 2, q as int);
        assert(x / 2 == p);
        assert(x / (2 * q) == p / q);
        lemma_byte_prefix_bit(bits, k, j - 1, r);
        assert((j - 1) - 1 - r == j - 2 - r);
    }
}

/// A BIT STRING whose length is a multiple of eight unpacks from its packed
/// bytes as itself.
pub proof fn law_pack_bits(bits: Seq<bool>)
    requires
        bits.len() % 8 == 0,
    ensures
        unpack_bytes(pack_bits(bits)) == bits,
{
    let b = pack_bits(bits);
    let u = unpack_bytes(b);
    assert(b.len() * 8 == bits.len());
    assert forall|i: int| 0 <= i < bits.len() implies u[i] == bits[i] by {
        let k = i / 8;
        let r = i % 8;
        lemma_byte_prefix_bound(bits, k, 8);
        reveal_with_fuel(pow2_nat, 9);
        assert(b[k] as nat == byte_prefix(bits, k, 8));
        lemma_byte_prefix_bit(bits, k, 8, r);
        assert(8 * k + r == i);
    }
    assert(u =~= bits);
}

} // verus!
