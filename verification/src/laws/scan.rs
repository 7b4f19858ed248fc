//! How the scanner that finds where a component value ends walks over
//! written values: each written value is passed over whole.
use vstd::prelude::*;

use crate::avn::de::value_end;
use crate::avn::enc::{escape_body, quoted};

verus! {

/// Scanning `x + w` from its start at depth `d` passes over `x` and goes on in `w`.
pub open spec fn passes_at(x: Seq<char>, w: Seq<char>, d: nat) -> bool {
    value_end(x + w, 0, d, false) == x.len() + value_end(w, 0, d, false)
}

/// A character that the scanner steps over without changing state at depth
/// `d`: no quotation mark, no brace, no comma at depth 0.
pub open spec fn inert(c: char, d: nat) -> bool {
    c != '"' && c != '{' && c != '}' && !(c == ',' && d == 0)
}

/// Scanning from `i` is scanning the rest of the text from its start.
pub proof fn lemma_rebase(u: Seq<char>, i: int, d: nat, s: bool)
    requires
        0 <= i <= u.len(),
    ensures
        value_end(u, i, d, s) == i + value_end(u.subrange(i, u.len() as int), 0, d, s),
    decreases u.len() - i, 2int,
{
    let v = u.subrange(i, u.len() as int);
    if i < u.len() {
        assert(v[0] == u[i]);
        if i + 1 < u.len() {
            assert(v[1] == u[i + 1]);
        }
        if s {
            if u[i] == '"' {
                if i + 1 < u.len() && u[i + 1] == '"' {
                    lemma_rebase(u, i + 2, d, true);
                    lemma_rebase_sub(u, i, 2, d, true);
                } else {
                    lemma_rebase(u, i + 1, d, false);
                    lemma_rebase_sub(u, i, 1, d, false);
                }
            } else {
                lemma_rebase(u, i + 1, d, true);
                lemma_rebase_sub(u, i, 1, d, true);
            }
        } else if u[i] == '"' {
            lemma_rebase(u, i + 1, d, true);
            lemma_rebase_sub(u, i, 1, d, true);
        } else if u[i] == '{' {
            lemma_rebase(u, i + 1, d + 1, false);
            lemma_rebase_sub(u, i, 1, d + 1, false);
        } else if u[i] == '}' {
            if d > 0 {
                lemma_rebase(u, i + 1, (d - 1) as nat, false);
                lemma_rebase_sub(u, i, 1, (d - 1) as nat, false);
            }
        } else if !(u[i] == ',' && d == 0) {
            lemma_rebase(u, i + 1, d, false);
            lemma_rebase_sub(u, i, 1, d, false);
        }
    }
}

/// The step inside `u.subrange(i, ..)` by `k` matches the step in `u` itself.
proof fn lemma_rebase_sub(u: Seq<char>, i: int, k: int, d: nat, s: bool)
    requires
        0 <= i,
        1 <= k <= 2,
        i + k <= u.len(),
        value_end(u, i + k, d, s) == (i + k) + value_end(
            u.subrange(i + k, u.len() as int),
            0,
            d,
            s,
        ),
    ensures
        value_end(u.subrange(i, u.len() as int), k, d, s) == k + value_end(
            u.subrange(i + k, u.len() as int),
            0,
            d,
            s,
        ),
    decreases u.len() - i, 0int,
{
    let v = u.subrange(i, u.len() as int);
    lemma_rebase(v, k, d, s);
    assert(v.subrange(k, v.len() as int) =~= u.subrange(i + k, u.len() as int));
}

/// One inert character is stepped over.
pub proof fn lemma_step(c: char, w: Seq<char>, d: nat)
    requires
        inert(c, d),
    ensures
        passes_at(seq![c], w, d),
{
    let u = seq![c] + w;
    assert(u[0] == c);
    lemma_rebase(u, 1, d, false);
    assert(u.subrange(1, u.len() as int) =~= w);
}

/// An opening brace goes one level down.
pub proof fn lemma_open(w: Seq<char>, d: nat)
    ensures
        value_end(seq!['{'] + w, 0, d, false) == 1 + value_end(w, 0, d + 1, false),
{
    let u = seq!['{'] + w;
    assert(u[0] == '{');
    lemma_rebase(u, 1, d + 1, false);
    assert(u.subrange(1, u.len() as int) =~= w);
}

/// A closing brace below the top level goes one level up.
pub proof fn lemma_close(w: Seq<char>, d: nat)
    requires
        d >= 1,
    ensures
        value_end(seq!['}'] + w, 0, d, false) == 1 + value_end(w, 0, (d - 1) as nat, false),
{
    let u = seq!['}'] + w;
    assert(u[0] == '}');
    lemma_rebase(u, 1, (d - 1) as nat, false);
    assert(u.subrange(1, u.len() as int) =~= w);
}

/// Passing over `x` and then `y` passes over `x + y`.
pub proof fn lemma_passes_concat(x: Seq<char>, y: Seq<char>, w: Seq<char>, d: nat)
    requires
        passes_at(x, y + w, d),
        passes_at(y, w, d),
    ensures
        passes_at(x + y, w, d),
{
    assert(x + (y + w) =~= (x + y) + w);
}

/// A run of inert characters is passed over.
pub proof fn lemma_inert_run(x: Seq<char>, w: Seq<char>, d: nat)
    requires
        forall|k: int| 0 <= k < x.len() ==> inert(#[trigger] x[k], d),
    ensures
        passes_at(x, w, d),
    decreases x.len(),
{
    if x.len() == 0 {
        assert(x + w =~= w);
    } else {
        let x1 = x.drop_first();
        assert forall|k: int| 0 <= k < x1.len() implies inert(#[trigger] x1[k], d) by {
            assert(x1[k] == x[k + 1]);
        }
        lemma_inert_run(x1, w, d);
        lemma_step(x[0], x1 + w, d);
        assert(seq![x[0]] + x1 =~= x);
        lemma_passes_concat(seq![x[0]], x1, w, d);
    }
}

/// Inside a quoted string, an escaped body is passed over.
proof fn lemma_string_body(s: Seq<char>, z: Seq<char>, d: nat)
    ensures
        value_end(escape_body(s) + z, 0, d, true) == escape_body(s).len() + value_end(
            z,
            0,
            d,
            true,
        ),
    decreases s.len(),
{
    if s.len() == 0 {
        assert(escape_body(s) + z =~= z);
    } else {
        let s1 = s.drop_last();
        let c = s.last();
        let part = if c == '"' {
            seq!['"', '"']
        } else {
            seq![c]
        };
        assert(escape_body(s) == escape_body(s1) + part);
        let pz = part + z;
        assert(pz[0] == part[0]);
        if c == '"' {
            assert(pz[1] == '"');
            lemma_rebase(pz, 2, d, true);
            assert(pz.subrange(2, pz.len() as int) =~= z);
        } else {
            lemma_rebase(pz, 1, d, true);
            assert(pz.subrange(1, pz.len() as int) =~= z);
        }
        lemma_string_body(s1, pz, d);
        assert(escape_body(s1) + pz =~= escape_body(s) + z);
    }
}

/// A quoted string followed by anything but a quotation mark is passed over.
pub proof fn lemma_quoted_passes(s: Seq<char>, w: Seq<char>, d: nat)
    requires
        w.len() == 0 || w[0] != '"',
    ensures
        passes_at(quoted(s), w, d),
{
    let e = escape_body(s);
    let u = quoted(s) + w;
    let z = seq!['"'] + w;
    assert(u[0] == '"');
    lemma_rebase(u, 1, d, true);
    assert(u.subrange(1, u.len() as int) =~= e + z);
    lemma_string_body(s, z, d);
    assert(z[0] == '"');
    lemma_rebase(z, 1, d, false);
    assert(z.subrange(1, z.len() as int) =~= w);
}

/// The scanner's state (brace depth, inside a quoted string) before the
/// character at `k`, reading the text from its start one character at a
/// time. (A doubled quotation mark inside a string leaves and re-enters it.)
pub open spec fn scan_state(w: Seq<char>, k: int) -> (nat, bool)
    decreases k,
{
    if k <= 0 || k > w.len() {
        (0, false)
    } else {
        let (d, s) = scan_state(w, k - 1);
        let c = w[k - 1];
        if s {
            (d, c != '"')
        } else if c == '"' {
            (d, true)
        } else if c == '{' {
            (d + 1, false)
        } else if c == '}' {
            (if d > 0 { (d - 1) as nat } else { 0 }, false)
        } else {
            (d, false)
        }
    }
}

/// Whether the character at `k` ends a component value: a comma or a closing
/// brace outside every string and every brace opened after the start.
pub open spec fn ends_value(w: Seq<char>, k: int) -> bool {
    &&& 0 <= k < w.len()
    &&& scan_state(w, k) == (0nat, false)
    &&& (w[k] == ',' || w[k] == '}')
}

proof fn lemma_scan_from(w: Seq<char>, i: int)
    requires
        0 <= i <= w.len(),
    ensures
        i <= value_end(w, i, scan_state(w, i).0, scan_state(w, i).1) <= w.len(),
        forall|k: int|
            i <= k < value_end(w, i, scan_state(w, i).0, scan_state(w, i).1) ==> !#[trigger] ends_value(
                w,
                k,
            ),
        value_end(w, i, scan_state(w, i).0, scan_state(w, i).1) < w.len() ==> ends_value(
            w,
            value_end(w, i, scan_state(w, i).0, scan_state(w, i).1),
        ),
    decreases w.len() - i,
{
    let (d, s) = scan_state(w, i);
    if i < w.len() {
        assert(scan_state(w, i + 1) == {
            let c = w[i];
            if s {
                (d, c != '"')
            } else if c == '"' {
                (d, true)
            } else if c == '{' {
                (d + 1, false)
            } else if c == '}' {
                (if d > 0 { (d - 1) as nat } else { 0nat }, false)
            } else {
                (d, false)
            }
        });
        if s && w[i] == '"' && i + 1 < w.len() && w[i + 1] == '"' {
            assert(scan_state(w, i + 1) == (d, false));
            assert(scan_state(w, i + 2) == (d, true));
            lemma_scan_from(w, i + 2);
        } else if w[i] == '}' && !s && d == 0 {
        } else if w[i] == ',' && !s && d == 0 {
        } else {
            lemma_scan_from(w, i + 1);
        }
    }
}

/// Where a component value ends: the first comma or closing brace outside
/// strings and the braces it opens, or the end of the text.
pub proof fn law_value_end(w: Seq<char>)
    ensures
        0 <= value_end(w, 0, 0, false) <= w.len(),
        forall|k: int| 0 <= k < value_end(w, 0, 0, false) ==> !#[trigger] ends_value(w, k),
        value_end(w, 0, 0, false) < w.len() ==> ends_value(w, value_end(w, 0, 0, false)),
{
    assert(scan_state(w, 0) == (0nat, false));
    lemma_scan_from(w, 0);
}

} // verus!
