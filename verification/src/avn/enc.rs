//! Encoding values into ASN.1 value notation (X.680 clause 17).
//!
//! The same engine writes the Generic String Encoding Rules, which differ
//! only in how OBJECT IDENTIFIER and REAL values are written.
use vstd::prelude::*;

use crate::model::{
    fields_view, lemma_fields_view, lemma_values_view, values_view, Codec, EncodeError,
    EncodeErrorKind, RealModel, RealValue, Value, ValueModel, field_view,
};
use crate::text::{
    all_digits, char_from_digit, chars_of, digits_val, digits_value_upto, hex_char, int_text,
    is_digit, nat_text, push_all, push_int, push_nat, push_str, string_of,
};

verus! {

// ----------------------------------------------------------------------------
// What the notations write
// ----------------------------------------------------------------------------
/// Doubles every quotation mark of `s`.
pub open spec fn escape_body(s: Seq<char>) -> Seq<char>
    decreases s.len(),
{
    if s.len() == 0 {
        Seq::empty()
    } else if s.last() == '"' {
        escape_body(s.drop_last()) + seq!['"', '"']
    } else {
        escape_body(s.drop_last()).push(s.last())
    }
}

/// A quoted string: `"`, the text with its quotation marks doubled, `"`.
pub open spec fn quoted(s: Seq<char>) -> Seq<char> {
    seq!['"'] + escape_body(s) + seq!['"']
}

/// Two upper-case hexadecimal digits per byte.
pub open spec fn hex_body(b: Seq<u8>) -> Seq<char>
    decreases b.len(),
{
    if b.len() == 0 {
        Seq::empty()
    } else {
        hex_body(b.drop_last()) + seq![hex_char((b.last() / 16) as nat), hex_char((b.last() % 16) as nat)]
    }
}

/// An hstring: `'`, the hexadecimal digits, `'H`.
pub open spec fn hex_text(b: Seq<u8>) -> Seq<char> {
    seq!['\''] + hex_body(b) + seq!['\'', 'H']
}

/// One binary digit per bit.
pub open spec fn bin_body(bits: Seq<bool>) -> Seq<char>
    decreases bits.len(),
{
    if bits.len() == 0 {
        Seq::empty()
    } else {
        bin_body(bits.drop_last()).push(if bits.last() { '1' } else { '0' })
    }
}

/// A bstring: `'`, the binary digits, `'B`.
pub open spec fn bin_text(bits: Seq<bool>) -> Seq<char> {
    seq!['\''] + bin_body(bits) + seq!['\'', 'B']
}

/// Whether bit `i` of `bits` is set (bits past the end are clear).
pub open spec fn bit_at(bits: Seq<bool>, i: int) -> bool {
    0 <= i < bits.len() && bits[i]
}

/// The number that the first `j` bits of byte `k` give, first bit most significant.
pub open spec fn byte_prefix(bits: Seq<bool>, k: int, j: int) -> nat
    decreases j,
{
    if j <= 0 {
        0
    } else {
        byte_prefix(bits, k, j - 1) * 2 + if bit_at(bits, 8 * k + j - 1) {
            1nat
        } else {
            0nat
        }
    }
}

/// The bits packed into bytes, first bit in the high bit, the last byte
/// filled up with clear bits.
pub open spec fn pack_bits(bits: Seq<bool>) -> Seq<u8> {
    Seq::new(((bits.len() + 7) / 8) as nat, |k: int| byte_prefix(bits, k, 8) as u8)
}

/// How a BIT STRING is written: as an hstring of its packed bytes when its
/// length is a multiple of four, as a bstring otherwise.
pub open spec fn bit_string_text(bits: Seq<bool>) -> Seq<char> {
    if bits.len() % 4 == 0 {
        hex_text(pack_bits(bits))
    } else {
        bin_text(bits)
    }
}

/// The items joined with a separator between each two.
pub open spec fn join(items: Seq<Seq<char>>, sep: Seq<char>) -> Seq<char>
    decreases items.len(),
{
    if items.len() == 0 {
        Seq::empty()
    } else if items.len() == 1 {
        items[0]
    } else {
        join(items.drop_last(), sep) + sep + items.last()
    }
}

/// The decimal numerals of the arcs.
pub open spec fn arc_texts(arcs: Seq<u32>) -> Seq<Seq<char>> {
    Seq::new(arcs.len(), |i: int| nat_text(arcs[i] as nat))
}

/// An OBJECT IDENTIFIER in value notation: `{ 2 5 15 }`.
pub open spec fn avn_oid_text(arcs: Seq<u32>) -> Seq<char> {
    seq!['{', ' '] + join(arc_texts(arcs), seq![' ']) + seq![' ', '}']
}

/// An OBJECT IDENTIFIER in GSER: `2.5.15`.
pub open spec fn gser_oid_text(arcs: Seq<u32>) -> Seq<char> {
    join(arc_texts(arcs), seq!['.'])
}

/// A list of items in braces: `{ }` when empty, else `{ a, b }`.
pub open spec fn braces(items: Seq<Seq<char>>) -> Seq<char> {
    if items.len() == 0 {
        seq!['{', ' ', '}']
    } else {
        seq!['{', ' '] + join(items, seq![',', ' ']) + seq![' ', '}']
    }
}

/// The first position of `E` or `e` in `t`.
pub open spec fn find_exp(t: Seq<char>) -> Option<int>
    decreases t.len(),
{
    if t.len() == 0 {
        None
    } else {
        match find_exp(t.drop_last()) {
            Some(i) => Some(i),
            None => if t.last() == 'E' || t.last() == 'e' {
                Some(t.len() - 1)
            } else {
                None
            },
        }
    }
}

/// The first position of `.` in `t`.
pub open spec fn find_dot(t: Seq<char>) -> Option<int>
    decreases t.len(),
{
    if t.len() == 0 {
        None
    } else {
        match find_dot(t.drop_last()) {
            Some(i) => Some(i),
            None => if t.last() == '.' {
                Some(t.len() - 1)
            } else {
                None
            },
        }
    }
}

/// `t` with every `.` removed.
pub open spec fn remove_dots(t: Seq<char>) -> Seq<char>
    decreases t.len(),
{
    if t.len() == 0 {
        Seq::empty()
    } else if t.last() == '.' {
        remove_dots(t.drop_last())
    } else {
        remove_dots(t.drop_last()).push(t.last())
    }
}

/// What `str::parse` gives for a signed integer type holding `min..=max`: an
/// optional `+` or `-` and at least one digit, whose value fits.
pub open spec fn parse_signed(s: Seq<char>, min: int, max: int) -> Option<int> {
    let neg = s.len() > 0 && s[0] == '-';
    let body = if s.len() > 0 && (s[0] == '-' || s[0] == '+') {
        s.drop_first()
    } else {
        s
    };
    let v = if neg {
        -(digits_val(body) as int)
    } else {
        digits_val(body) as int
    };
    if body.len() > 0 && all_digits(body) && min <= v <= max {
        Some(v)
    } else {
        None
    }
}

/// The numbers that a decimal numeral such as `3.14E2` gives for the
/// `{ mantissa, 10, exponent }` form: the digits without the point as the
/// mantissa (0 when they do not form an `i64`), and the exponent (0 when it is
/// not an `i32`) lowered by the number of digits after the point.
pub open spec fn numeral_tuple(t: Seq<char>) -> (int, int) {
    let mant = numeral_mantissa_part(t);
    let places = match find_dot(mant) {
        Some(d) => mant.len() - d - 1,
        None => 0,
    };
    let m = match parse_signed(remove_dots(mant), i64::MIN as int, i64::MAX as int) {
        Some(x) => x,
        None => 0,
    };
    (m, numeral_exponent(t) - places)
}

/// The part of a numeral before its `E`.
pub open spec fn numeral_mantissa_part(t: Seq<char>) -> Seq<char> {
    match find_exp(t) {
        Some(e) => t.subrange(0, e),
        None => t,
    }
}

/// The exponent after the `E` of a numeral (0 when absent or not an `i32`).
pub open spec fn numeral_exponent(t: Seq<char>) -> int {
    match find_exp(t) {
        Some(e) => match parse_signed(
            t.subrange(e + 1, t.len() as int),
            i32::MIN as int,
            i32::MAX as int,
        ) {
            Some(x) => x,
            None => 0,
        },
        None => 0,
    }
}

/// `{ m, b, e }`.
pub open spec fn tuple_text(m: int, b: int, e: int) -> Seq<char> {
    seq!['{', ' '] + int_text(m) + seq![',', ' '] + int_text(b) + seq![',', ' '] + int_text(e)
        + seq![' ', '}']
}

pub open spec fn plus_infinity() -> Seq<char> {
    seq!['P', 'L', 'U', 'S', '-', 'I', 'N', 'F', 'I', 'N', 'I', 'T', 'Y']
}

pub open spec fn minus_infinity() -> Seq<char> {
    seq!['M', 'I', 'N', 'U', 'S', '-', 'I', 'N', 'F', 'I', 'N', 'I', 'T', 'Y']
}

/// How a REAL value is written; `None` when the notation has no form for it.
pub open spec fn real_text(codec: Codec, r: RealModel) -> Option<Seq<char>> {
    match r {
        RealModel::PlusInfinity => Some(plus_infinity()),
        RealModel::MinusInfinity => Some(minus_infinity()),
        RealModel::Zero => Some(seq!['0']),
        RealModel::Numeral(t) => match codec {
            Codec::Avn => Some(tuple_text(numeral_tuple(t).0, 10, numeral_tuple(t).1)),
            Codec::Gser => Some(t),
        },
        RealModel::Tuple { mantissa, base, exponent } => match codec {
            Codec::Avn => Some(tuple_text(mantissa, base, exponent)),
            Codec::Gser => None,
        },
    }
}

pub open spec fn true_text() -> Seq<char> {
    seq!['T', 'R', 'U', 'E']
}

pub open spec fn false_text() -> Seq<char> {
    seq!['F', 'A', 'L', 'S', 'E']
}

pub open spec fn null_text() -> Seq<char> {
    seq!['N', 'U', 'L', 'L']
}

/// Whether the notation can write the value (GSER has no tuple form of REAL).
pub open spec fn writable(codec: Codec, v: ValueModel) -> bool
    decreases v,
{
    match v {
        ValueModel::Real(r) => real_text(codec, r) is Some,
        ValueModel::Sequence(fs) => entries_writable(codec, fs),
        ValueModel::SequenceOf(vs) => items_writable(codec, vs),
        ValueModel::SetOf(vs) => items_writable(codec, vs),
        ValueModel::Choice(_, b) => writable(codec, *b),
        _ => true,
    }
}

pub open spec fn items_writable(codec: Codec, vs: Seq<ValueModel>) -> bool
    decreases vs,
{
    if vs.len() == 0 {
        true
    } else {
        items_writable(codec, vs.drop_last()) && writable(codec, vs.last())
    }
}

pub open spec fn entries_writable(codec: Codec, fs: Seq<(Seq<char>, Option<ValueModel>)>) -> bool
    decreases fs,
{
    if fs.len() == 0 {
        true
    } else {
        entries_writable(codec, fs.drop_last()) && match fs.last().1 {
            Some(v) => writable(codec, v),
            None => true,
        }
    }
}

/// The text of a value in the notation.
pub open spec fn notation_text(codec: Codec, v: ValueModel) -> Seq<char>
    decreases v,
{
    match v {
        ValueModel::Bool(b) => if b {
            true_text()
        } else {
            false_text()
        },
        ValueModel::Integer(n) => int_text(n),
        ValueModel::Null => null_text(),
        ValueModel::Real(r) => match real_text(codec, r) {
            Some(t) => t,
            None => Seq::empty(),
        },
        ValueModel::BitString(bits) => bit_string_text(bits),
        ValueModel::OctetString(b) => hex_text(b),
        ValueModel::ObjectIdentifier(arcs) => match codec {
            Codec::Avn => avn_oid_text(arcs),
            Codec::Gser => gser_oid_text(arcs),
        },
        ValueModel::Enumerated(id) => id,
        ValueModel::Text(_, s) => quoted(s),
        ValueModel::Sequence(fs) => braces(entry_texts(codec, fs)),
        ValueModel::SequenceOf(vs) => braces(item_texts(codec, vs)),
        ValueModel::SetOf(vs) => braces(item_texts(codec, vs)),
        ValueModel::Choice(id, b) => id + seq![':', ' '] + notation_text(codec, *b),
    }
}

/// The texts of the items of a SEQUENCE OF or SET OF value.
pub open spec fn item_texts(codec: Codec, vs: Seq<ValueModel>) -> Seq<Seq<char>>
    decreases vs,
{
    if vs.len() == 0 {
        Seq::empty()
    } else {
        item_texts(codec, vs.drop_last()).push(notation_text(codec, vs.last()))
    }
}

/// `name value` for each present component of a SEQUENCE value.
pub open spec fn entry_texts(codec: Codec, fs: Seq<(Seq<char>, Option<ValueModel>)>) -> Seq<
    Seq<char>,
>
    decreases fs,
{
    if fs.len() == 0 {
        Seq::empty()
    } else {
        let rest = entry_texts(codec, fs.drop_last());
        match fs.last().1 {
            Some(v) => rest.push(fs.last().0 + seq![' '] + notation_text(codec, v)),
            None => rest,
        }
    }
}

/// ASN.1 value notation of a value.
pub open spec fn avn_text(v: ValueModel) -> Seq<char> {
    notation_text(Codec::Avn, v)
}

// ----------------------------------------------------------------------------
// The encoder
// ----------------------------------------------------------------------------
/// What an encoder holds: the identifiers of the components still to come,
/// the components of each SEQUENCE being built, and the finished value.
pub struct EncoderModel {
    pub codec: Codec,
    pub stack: Seq<Seq<char>>,
    pub frames: Seq<Seq<Seq<char>>>,
    pub root: Option<Seq<char>>,
}

/// The state after one value's text is placed: as `name text` in the
/// innermost SEQUENCE when a component identifier waits (the identifier is
/// used up even when no SEQUENCE is open, which is an error), as the finished
/// value otherwise. The boolean tells whether that succeeded.
pub open spec fn place(st: EncoderModel, t: Seq<char>) -> (EncoderModel, bool) {
    if st.stack.len() > 0 {
        let name = st.stack.last();
        if st.frames.len() > 0 {
            (
                EncoderModel {
                    stack: st.stack.drop_last(),
                    frames: st.frames.update(
                        st.frames.len() - 1,
                        st.frames.last().push(name + seq![' '] + t),
                    ),
                    ..st
                },
                true,
            )
        } else {
            (EncoderModel { stack: st.stack.drop_last(), ..st }, false)
        }
    } else {
        (EncoderModel { root: Some(t), ..st }, true)
    }
}

/// Writes values as ASN.1 value notation (or, made with [`Encoder::new_gser`],
/// as GSER).
pub struct Encoder {
    codec: Codec,
    /// Identifiers of the components of the SEQUENCE being built, next one last.
    stack: Vec<Vec<char>>,
    /// Components written so far, per SEQUENCE being built.
    constructed_stack: Vec<Vec<Vec<char>>>,
    /// The finished value.
    root_value: Option<Vec<char>>,
}

/// The texts held in a list of character vectors.
pub open spec fn texts_of(v: Seq<Vec<char>>) -> Seq<Seq<char>> {
    Seq::new(v.len(), |i: int| v[i]@)
}

/// The texts held in a list of lists of character vectors.
pub open spec fn frames_of(v: Seq<Vec<Vec<char>>>) -> Seq<Seq<Seq<char>>> {
    Seq::new(v.len(), |i: int| texts_of(v[i]@))
}

impl View for Encoder {
    type V = EncoderModel;

    closed spec fn view(&self) -> EncoderModel {
        EncoderModel {
            codec: self.codec,
            stack: texts_of(self.stack@),
            frames: frames_of(self.constructed_stack@),
            root: match self.root_value {
                Some(r) => Some(r@),
                None => None,
            },
        }
    }
}

impl Encoder {
    /// Creates an encoder for ASN.1 value notation.
    pub fn new() -> (e: Self)
        ensures
            e@ == (EncoderModel {
                codec: Codec::Avn,
                stack: Seq::empty(),
                frames: Seq::empty(),
                root: None,
            }),
    {
        Self::with_codec(Codec::Avn)
    }

    /// Creates an encoder for the Generic String Encoding Rules.
    pub fn new_gser() -> (e: Self)
        ensures
            e@ == (EncoderModel {
                codec: Codec::Gser,
                stack: Seq::empty(),
                frames: Seq::empty(),
                root: None,
            }),
    {
        Self::with_codec(Codec::Gser)
    }

    fn with_codec(codec: Codec) -> (e: Self)
        ensures
            e@ == (EncoderModel { codec, stack: Seq::empty(), frames: Seq::empty(), root: None }),
    {
        let e = Encoder { codec, stack: Vec::new(), constructed_stack: Vec::new(), root_value: None };
        assert(texts_of(e.stack@) =~= Seq::<Seq<char>>::empty());
        assert(frames_of(e.constructed_stack@) =~= Seq::<Seq<Seq<char>>>::empty());
        e
    }

    /// The finished text, consuming the encoder (empty when nothing was written).
    pub fn to_string(self) -> (s: String)
        ensures
            s@ == match self@.root {
                Some(r) => r,
                None => Seq::empty(),
            },
    {
        match self.root_value {
            Some(r) => string_of(r.as_slice()),
            None => String::new(),
        }
    }

    /// Places a finished value: as a component of the SEQUENCE being built
    /// when a component identifier waits, as the result otherwise.
    fn update_root_or_constructed(&mut self, value: Vec<char>) -> (r: Result<(), EncodeError>)
        ensures
            final(self)@ == place(old(self)@, value@).0,
            r is Ok <==> place(old(self)@, value@).1,
            r matches Err(e) ==> e.kind == EncodeErrorKind::InternalStackMismatch && e.codec == old(
                self,
            )@.codec,
    {
        let ghost st = self@;
        match self.stack.pop() {
            Some(field_name) => {
                proof {
                    assert(texts_of(self.stack@) =~= st.stack.drop_last());
                }
                let ghost name_v = field_name@;
                let mut entry = field_name;
                entry.push(' ');
                push_all(&mut entry, value.as_slice());
                assert(name_v == st.stack.last());
                assert(entry@ =~= st.stack.last() + seq![' '] + value@);
                let n = self.constructed_stack.len();
                if n == 0 {
                    return Err(EncodeError { codec: self.codec, kind: EncodeErrorKind::InternalStackMismatch });
                }
                let ghost cs0 = self.constructed_stack@;
                let mut frame = self.constructed_stack.pop().unwrap();
                let ghost entry_v = entry@;
                let ghost frame0 = frame@;
                frame.push(entry);
                self.constructed_stack.push(frame);
                proof {
                    let target = st.frames.update(
                        st.frames.len() - 1,
                        st.frames.last().push(entry_v),
                    );
                    assert(texts_of(frame@) =~= texts_of(frame0).push(entry_v));
                    assert(texts_of(cs0[n - 1]@) == st.frames.last());
                    assert forall|q: int| 0 <= q < target.len() implies #[trigger] frames_of(
                        self.constructed_stack@,
                    )[q] == target[q] by {
                        if q < n - 1 {
                            assert(self.constructed_stack@[q] == cs0[q]);
                        }
                    }
                    assert(frames_of(self.constructed_stack@) =~= target);
                }
                Ok(())
            },
            None => {
                self.root_value = Some(value);
                Ok(())
            },
        }
    }

    /// `"`, the text with its quotation marks doubled, `"`.
    fn escape_string(s: &[char]) -> (r: Vec<char>)
        ensures
            r@ == quoted(s@),
    {
        let mut result: Vec<char> = Vec::new();
        result.push('"');
        let mut i: usize = 0;
        while i < s.len()
            invariant
                i <= s@.len(),
                result@ == seq!['"'] + escape_body(s@.take(i as int)),
            decreases s@.len() - i,
        {
            let c = s[i];
            assert(s@.take(i + 1).drop_last() == s@.take(i as int));
            if c == '"' {
                result.push('"');
                result.push('"');
            } else {
                result.push(c);
            }
            i = i + 1;
        }
        assert(s@.take(s@.len() as int) == s@);
        result.push('"');
        result
    }

    /// The bytes as an hstring: `'01FF'H`.
    fn format_hex_string(bytes: &[u8]) -> (r: Vec<char>)
        ensures
            r@ == hex_text(bytes@),
    {
        let mut result: Vec<char> = Vec::new();
        result.push('\'');
        let mut i: usize = 0;
        while i < bytes.len()
            invariant
                i <= bytes@.len(),
                result@ == seq!['\''] + hex_body(bytes@.take(i as int)),
            decreases bytes@.len() - i,
        {
            let b = bytes[i];
            assert(bytes@.take(i + 1).drop_last() == bytes@.take(i as int));
            result.push(hex_digit_char((b / 16) as u32));
            result.push(hex_digit_char((b % 16) as u32));
            i = i + 1;
        }
        assert(bytes@.take(bytes@.len() as int) == bytes@);
        result.push('\'');
        result.push('H');
        result
    }

    /// The bits as a bstring: `'10101'B`.
    fn format_binary_string(bits: &[bool]) -> (r: Vec<char>)
        ensures
            r@ == bin_text(bits@),
    {
        let mut result: Vec<char> = Vec::new();
        result.push('\'');
        let mut i: usize = 0;
        while i < bits.len()
            invariant
                i <= bits@.len(),
                result@ == seq!['\''] + bin_body(bits@.take(i as int)),
            decreases bits@.len() - i,
        {
            assert(bits@.take(i + 1).drop_last() == bits@.take(i as int));
            result.push(if bits[i] { '1' } else { '0' });
            i = i + 1;
        }
        assert(bits@.take(bits@.len() as int) == bits@);
        result.push('\'');
        result.push('B');
        result
    }

    /// An OBJECT IDENTIFIER: `{ 2 5 15 }` in value notation, `2.5.15` in GSER.
    fn format_oid(codec: Codec, arcs: &[u32]) -> (r: Vec<char>)
        ensures
            r@ == match codec {
                Codec::Avn => avn_oid_text(arcs@),
                Codec::Gser => gser_oid_text(arcs@),
            },
    {
        let sep = match codec {
            Codec::Avn => ' ',
            Codec::Gser => '.',
        };
        let mut body: Vec<char> = Vec::new();
        let mut i: usize = 0;
        while i < arcs.len()
            invariant
                i <= arcs@.len(),
                body@ == join(arc_texts(arcs@.take(i as int)), seq![sep]),
            decreases arcs@.len() - i,
        {
            let ghost before = body@;
            if i > 0 {
                body.push(sep);
            }
            push_nat(&mut body, arcs[i] as u128);
            proof {
                let t = arc_texts(arcs@.take(i + 1));
                assert(t.drop_last() =~= arc_texts(arcs@.take(i as int)));
                assert(t.last() == nat_text(arcs@[i as int] as nat));
                if i == 0 {
                    assert(t.len() == 1);
                }
            }
            i = i + 1;
        }
        assert(arcs@.take(arcs@.len() as int) == arcs@);
        match codec {
            Codec::Avn => {
                let mut result: Vec<char> = Vec::new();
                result.push('{');
                result.push(' ');
                push_all(&mut result, body.as_slice());
                result.push(' ');
                result.push('}');
                assert(result@ =~= avn_oid_text(arcs@));
                result
            },
            Codec::Gser => body,
        }
    }

    /// The packed bytes of a bit string, first bit in the high bit.
    fn pack(bits: &[bool]) -> (r: Vec<u8>)
        ensures
            r@ == pack_bits(bits@),
    {
        let n = bits.len();
        let nbytes = n / 8 + if n % 8 == 0 { 0 } else { 1 };
        let mut out: Vec<u8> = Vec::new();
        let mut k: usize = 0;
        while k < nbytes
            invariant
                n == bits@.len(),
                nbytes == (n + 7) / 8,
                k <= nbytes,
                out@.len() == k,
                forall|q: int| 0 <= q < k ==> out@[q] == byte_prefix(bits@, q, 8) as u8,
            decreases nbytes - k,
        {
            let mut acc: u32 = 0;
            let mut j: usize = 0;
            while j < 8
                invariant
                    n == bits@.len(),
                    k < nbytes,
                    nbytes == (n + 7) / 8,
                    j <= 8,
                    acc == byte_prefix(bits@, k as int, j as int),
                    acc < pow2_nat(j as nat),
                    pow2_nat(j as nat) <= 256,
                decreases 8 - j,
            {
                let idx = 8 * k + j;
                let bit = idx < n && bits[idx];
                proof {
                    assert(bit == bit_at(bits@, 8 * k + j));
                    assert(pow2_nat((j + 1) as nat) == 2 * pow2_nat(j as nat));
                    lemma_pow2_le((j + 1) as nat);
                }
                acc = acc * 2 + if bit { 1 } else { 0 };
                j = j + 1;
            }
            proof {
                assert(pow2_nat(8) == 256) by {
                    reveal_with_fuel(pow2_nat, 9);
                }
            }
            out.push(acc as u8);
            k = k + 1;
        }
        assert(out@ =~= pack_bits(bits@));
        out
    }

    /// The text of a REAL value, when the notation has a form for it.
    fn real_text_exec(codec: Codec, r: &RealValue) -> (t: Option<Vec<char>>)
        ensures
            t matches Some(x) ==> real_text(codec, r@) == Some(x@),
            t is None ==> real_text(codec, r@) is None,
    {
        match r {
            RealValue::PlusInfinity => {
                let mut v: Vec<char> = Vec::new();
                push_str(&mut v, "PLUS-INFINITY");
                proof {
                    reveal_strlit("PLUS-INFINITY");
                }
                assert(v@ =~= plus_infinity());
                Some(v)
            },
            RealValue::MinusInfinity => {
                let mut v: Vec<char> = Vec::new();
                push_str(&mut v, "MINUS-INFINITY");
                proof {
                    reveal_strlit("MINUS-INFINITY");
                }
                assert(v@ =~= minus_infinity());
                Some(v)
            },
            RealValue::Zero => {
                let mut v: Vec<char> = Vec::new();
                v.push('0');
                assert(v@ =~= seq!['0']);
                Some(v)
            },
            RealValue::Numeral(t) => {
                let cs = chars_of(t.as_str());
                match codec {
                    Codec::Avn => {
                        let (m, e) = numeral_tuple_exec(cs.as_slice());
                        Some(format_tuple(m, 10, e))
                    },
                    Codec::Gser => Some(cs),
                }
            },
            RealValue::Tuple { mantissa, base, exponent } => match codec {
                Codec::Avn => Some(format_tuple(*mantissa as i128, *base as i128, *exponent as i128)),
                Codec::Gser => None,
            },
        }
    }

    /// Writes a value at the current place (see [`place`]).
    #[verifier::loop_isolation(false)]
    #[verifier::spinoff_prover]
    #[verifier::rlimit(100)]
    pub fn encode_value(&mut self, v: &Value) -> (r: Result<(), EncodeError>)
        ensures
            writable(old(self)@.codec, v@) ==> final(self)@ == place(
                old(self)@,
                notation_text(old(self)@.codec, v@),
            ).0,
            writable(old(self)@.codec, v@) ==> (r is Ok <==> place(
                old(self)@,
                notation_text(old(self)@.codec, v@),
            ).1),
            !writable(old(self)@.codec, v@) ==> (r matches Err(e) && e.kind
                == EncodeErrorKind::RealEncodingFailed),
            r matches Err(e) ==> e.codec == old(self)@.codec,
            final(self)@.codec == old(self)@.codec,
        decreases v,
    {
        let ghost st = self@;
        let codec = self.codec;
        match v {
            Value::Bool(b) => {
                let mut t: Vec<char> = Vec::new();
                if *b {
                    push_str(&mut t, "TRUE");
                    proof {
                        reveal_strlit("TRUE");
                    }
                    assert(t@ =~= true_text());
                } else {
                    push_str(&mut t, "FALSE");
                    proof {
                        reveal_strlit("FALSE");
                    }
                    assert(t@ =~= false_text());
                }
                self.update_root_or_constructed(t)
            },
            Value::Integer(n) => {
                let mut t: Vec<char> = Vec::new();
                push_int(&mut t, *n);
                assert(t@ =~= int_text(*n as int));
                self.update_root_or_constructed(t)
            },
            Value::Null => {
                let mut t: Vec<char> = Vec::new();
                push_str(&mut t, "NULL");
                proof {
                    reveal_strlit("NULL");
                }
                assert(t@ =~= null_text());
                self.update_root_or_constructed(t)
            },
            Value::Real(r) => {
                match Self::real_text_exec(codec, r) {
                    Some(t) => self.update_root_or_constructed(t),
                    None => Err(EncodeError { codec, kind: EncodeErrorKind::RealEncodingFailed }),
                }
            },
            Value::BitString(bits) => {
                let t = if bits.len() % 4 == 0 {
                    let bytes = Self::pack(bits.as_slice());
                    Self::format_hex_string(bytes.as_slice())
                } else {
                    Self::format_binary_string(bits.as_slice())
                };
                self.update_root_or_constructed(t)
            },
            Value::OctetString(bytes) => {
                let t = Self::format_hex_string(bytes.as_slice());
                self.update_root_or_constructed(t)
            },
            Value::ObjectIdentifier(arcs) => {
                let t = Self::format_oid(codec, arcs.as_slice());
                self.update_root_or_constructed(t)
            },
            Value::Enumerated(id) => {
                let t = chars_of(id.as_str());
                self.update_root_or_constructed(t)
            },
            Value::Text(_, s) => {
                let cs = chars_of(s.as_str());
                let t = Self::escape_string(cs.as_slice());
                self.update_root_or_constructed(t)
            },
            Value::Sequence(fields) => {
                let ghost fv = fields_view(fields@);
                proof {
                    lemma_fields_view(fields@);
                }
                let n = fields.len();
                // component identifiers, first component on top
                let mut k = n;
                while k > 0
                    invariant
                        k <= n == fields@.len(),
                        self@ == (EncoderModel {
                            stack: st.stack + names_rev(fv, k as int, n as int),
                            ..st
                        }),
                    decreases k,
                {
                    k = k - 1;
                    let name = chars_of(fields[k].name.as_str());
                    let ghost before = self.stack@;
                    self.stack.push(name);
                    proof {
                        assert(texts_of(self.stack@) =~= texts_of(before).push(fv[k as int].0));
                        assert(names_rev(fv, k as int, n as int) =~= names_rev(
                            fv,
                            k + 1,
                            n as int,
                        ).push(fv[k as int].0));
                    }
                }
                let ghost before_frames = self.constructed_stack@;
                self.constructed_stack.push(Vec::new());
                proof {
                    assert(texts_of(self.constructed_stack@.last()@) =~= Seq::<Seq<char>>::empty());
                    assert(frames_of(self.constructed_stack@) =~= frames_of(before_frames).push(Seq::empty()));
                    assert(fv.take(0) =~= Seq::<(Seq<char>, Option<ValueModel>)>::empty());
                }
                let mut i: usize = 0;
                while i < n
                    invariant
                        i <= n == fields@.len(),
                        fv == fields_view(fields@),
                        fv.len() == n,
                        forall|q: int| 0 <= q < n ==> #[trigger] fv[q] == field_view(fields@[q]),
                        self@ == (EncoderModel {
                            stack: st.stack + names_rev(fv, i as int, n as int),
                            frames: st.frames.push(entry_texts(codec, fv.take(i as int))),
                            ..st
                        }),
                        entries_writable(codec, fv.take(i as int)),
                    decreases n - i,
                {
                    let ghost pre = self@;
                    proof {
                        assert(fv.take(i + 1).drop_last() =~= fv.take(i as int));
                        assert(names_rev(fv, i as int, n as int) =~= names_rev(
                            fv,
                            i + 1,
                            n as int,
                        ).push(fv[i as int].0));
                    }
                    match &fields[i].value {
                        Some(fval) => {
                            proof {
                                assert(decreases_to!(*v => fields@[i as int].value->Some_0));
                            }
                            let r = self.encode_value(fval);
                            if r.is_err() {
                                proof {
                                    assert(pre.stack.len() > 0);
                                    assert(pre.frames.len() > 0);
                                    if writable(codec, (*fval)@) {
                                        assert(place(pre, notation_text(codec, (*fval)@)).1);
                                    }
                                    if writable(codec, v@) {
                                        assert(fv[i as int] == field_view(fields@[i as int]));
                                        lemma_entries_writable(codec, fv, i as int);
                                    }
                                }
                                return r;
                            }
                            proof {
                                assert(self@.stack =~= st.stack + names_rev(fv, i + 1, n as int));
                                assert(self@.frames =~= st.frames.push(
                                    entry_texts(codec, fv.take(i + 1)),
                                ));
                            }
                        },
                        None => {
                            let ghost before = self.stack@;
                            self.stack.pop();
                            proof {
                                assert(texts_of(self.stack@) =~= texts_of(before).drop_last());
                                assert(self@.stack =~= st.stack + names_rev(fv, i + 1, n as int));
                            }
                        },
                    }
                    i = i + 1;
                }
                proof {
                    assert(fv.take(n as int) =~= fv);
                    assert(names_rev(fv, n as int, n as int) =~= Seq::<Seq<char>>::empty());
                    assert(self@.stack =~= st.stack);
                }
                let ghost framed = self.constructed_stack@;
                assert(frames_of(framed).len() == framed.len());
                let entries = self.constructed_stack.pop().unwrap();
                proof {
                    assert(frames_of(self.constructed_stack@) =~= frames_of(framed).drop_last());
                    assert(frames_of(self.constructed_stack@) =~= st.frames);
                    assert(texts_of(entries@) == frames_of(framed).last());
                }
                let t = braces_exec(&entries);
                self.update_root_or_constructed(t)
            },
            Value::SequenceOf(items) | Value::SetOf(items) => {
                let ghost iv = values_view(items@);
                proof {
                    lemma_values_view(items@);
                }
                let mut texts: Vec<Vec<char>> = Vec::new();
                let mut i: usize = 0;
                while i < items.len()
                    invariant
                        i <= items@.len(),
                        iv == values_view(items@),
                        iv.len() == items@.len(),
                        forall|q: int| 0 <= q < items@.len() ==> #[trigger] iv[q] == items@[q]@,
                        texts_of(texts@) == item_texts(codec, iv.take(i as int)),
                        items_writable(codec, iv.take(i as int)),
                        self@ == st,
                    decreases items@.len() - i,
                {
                    proof {
                        assert(iv.take(i + 1).drop_last() =~= iv.take(i as int));
                        assert(decreases_to!(*v => items@[i as int]));
                    }
                    let mut item_encoder = Encoder::with_codec(codec);
                    let r = item_encoder.encode_value(&items[i]);
                    if r.is_err() {
                        proof {
                            if writable(codec, items@[i as int]@) {
                                assert(place(
                                    EncoderModel { codec, stack: Seq::empty(), frames: Seq::empty(), root: None },
                                    notation_text(codec, items@[i as int]@),
                                ).1);
                            }
                            if writable(codec, v@) {
                                lemma_items_writable(codec, iv, i as int);
                            }
                        }
                        return r;
                    }
                    let t = item_encoder.root_text();
                    let ghost before = texts@;
                    texts.push(t);
                    proof {
                        assert(texts_of(texts@) =~= texts_of(before).push(notation_text(codec, iv[i as int])));
                    }
                    i = i + 1;
                }
                proof {
                    assert(iv.take(items@.len() as int) =~= iv);
                }
                let t = braces_exec(&texts);
                self.update_root_or_constructed(t)
            },
            Value::Choice(id, inner) => {
                let mut value_encoder = Encoder::with_codec(codec);
                let r = value_encoder.encode_value(inner);
                if r.is_err() {
                    return r;
                }
                let inner_text = value_encoder.root_text();
                let mut t = chars_of(id.as_str());
                t.push(':');
                t.push(' ');
                push_all(&mut t, inner_text.as_slice());
                assert(t@ =~= id@ + seq![':', ' '] + notation_text(codec, (**inner)@));
                self.update_root_or_constructed(t)
            },
        }
    }

    /// The finished text, consuming the encoder.
    fn root_text(self) -> (t: Vec<char>)
        ensures
            t@ == match self@.root {
                Some(r) => r,
                None => Seq::empty(),
            },
    {
        match self.root_value {
            Some(r) => r,
            None => Vec::new(),
        }
    }
}

/// The identifiers of components `k..n`, last one first (the order in which
/// they are stacked).
pub open spec fn names_rev(fv: Seq<(Seq<char>, Option<ValueModel>)>, k: int, n: int) -> Seq<
    Seq<char>,
>
    decreases n - k,
{
    if k >= n {
        Seq::empty()
    } else {
        names_rev(fv, k + 1, n).push(fv[k].0)
    }
}

pub proof fn lemma_pow2_pos(j: nat)
    ensures
        pow2_nat(j) >= 1,
    decreases j,
{
    if j > 0 {
        lemma_pow2_pos((j - 1) as nat);
    }
}

pub proof fn lemma_pow2_le(j: nat)
    requires
        j <= 8,
    ensures
        pow2_nat(j) <= 256,
    decreases 8 - j,
{
    if j < 8 {
        lemma_pow2_le(j + 1);
        lemma_pow2_pos(j);
    } else {
        reveal_with_fuel(pow2_nat, 9);
    }
}

/// A notation that can write a list of values can write each of them.
pub proof fn lemma_items_writable(codec: Codec, vs: Seq<ValueModel>, i: int)
    requires
        0 <= i < vs.len(),
        items_writable(codec, vs),
    ensures
        writable(codec, vs[i]),
    decreases vs.len(),
{
    if i < vs.len() - 1 {
        lemma_items_writable(codec, vs.drop_last(), i);
        assert(vs.drop_last()[i] == vs[i]);
    }
}

/// A notation that can write a SEQUENCE value can write each present component.
pub proof fn lemma_entries_writable(codec: Codec, fs: Seq<(Seq<char>, Option<ValueModel>)>, i: int)
    requires
        0 <= i < fs.len(),
        entries_writable(codec, fs),
        fs[i].1 is Some,
    ensures
        writable(codec, fs[i].1->Some_0),
    decreases fs.len(),
{
    if i < fs.len() - 1 {
        lemma_entries_writable(codec, fs.drop_last(), i);
        assert(fs.drop_last()[i] == fs[i]);
    }
}

/// Value notation can write every value.
pub proof fn lemma_avn_writable(v: ValueModel)
    ensures
        writable(Codec::Avn, v),
    decreases v,
{
    match v {
        ValueModel::Sequence(fs) => lemma_avn_entries_writable(fs),
        ValueModel::SequenceOf(vs) => lemma_avn_items_writable(vs),
        ValueModel::SetOf(vs) => lemma_avn_items_writable(vs),
        ValueModel::Choice(_, b) => lemma_avn_writable(*b),
        _ => {},
    }
}

pub proof fn lemma_avn_items_writable(vs: Seq<ValueModel>)
    ensures
        items_writable(Codec::Avn, vs),
    decreases vs,
{
    if vs.len() > 0 {
        lemma_avn_items_writable(vs.drop_last());
        lemma_avn_writable(vs.last());
    }
}

pub proof fn lemma_avn_entries_writable(fs: Seq<(Seq<char>, Option<ValueModel>)>)
    ensures
        entries_writable(Codec::Avn, fs),
    decreases fs,
{
    if fs.len() > 0 {
        lemma_avn_entries_writable(fs.drop_last());
        match fs.last().1 {
            Some(v) => lemma_avn_writable(v),
            None => {},
        }
    }
}

/// 2 to the power `n`.
pub open spec fn pow2_nat(n: nat) -> nat
    decreases n,
{
    if n == 0 {
        1
    } else {
        2 * pow2_nat((n - 1) as nat)
    }
}

/// The upper-case hexadecimal digit for `d < 16`.
fn hex_digit_char(d: u32) -> (c: char)
    requires
        d < 16,
    ensures
        c == hex_char(d as nat),
{
    if d < 10 {
        char_from_digit(d)
    } else if d == 10 {
        'A'
    } else if d == 11 {
        'B'
    } else if d == 12 {
        'C'
    } else if d == 13 {
        'D'
    } else if d == 14 {
        'E'
    } else {
        'F'
    }
}

/// `{ }` or `{ a, b }`.
fn braces_exec(items: &Vec<Vec<char>>) -> (r: Vec<char>)
    ensures
        r@ == braces(texts_of(items@)),
{
    let mut out: Vec<char> = Vec::new();
    out.push('{');
    out.push(' ');
    if items.len() == 0 {
        out.push('}');
        assert(out@ =~= braces(texts_of(items@)));
        return out;
    }
    let ghost its = texts_of(items@);
    let mut i: usize = 0;
    while i < items.len()
        invariant
            i <= items@.len(),
            its == texts_of(items@),
            its.len() == items@.len(),
            out@ == seq!['{', ' '] + join(its.take(i as int), seq![',', ' ']),
        decreases items@.len() - i,
    {
        if i > 0 {
            out.push(',');
            out.push(' ');
        }
        push_all(&mut out, items[i].as_slice());
        proof {
            let t = its.take(i + 1);
            assert(t.drop_last() =~= its.take(i as int));
            assert(t.last() == items@[i as int]@);
            if i == 0 {
                assert(t.len() == 1);
            }
        }
        i = i + 1;
    }
    assert(its.take(items@.len() as int) =~= its);
    out.push(' ');
    out.push('}');
    assert(out@ =~= braces(its));
    out
}

/// `{ m, b, e }`.
fn format_tuple(m: i128, b: i128, e: i128) -> (r: Vec<char>)
    ensures
        r@ == tuple_text(m as int, b as int, e as int),
{
    let mut out: Vec<char> = Vec::new();
    out.push('{');
    out.push(' ');
    push_int(&mut out, m);
    out.push(',');
    out.push(' ');
    push_int(&mut out, b);
    out.push(',');
    out.push(' ');
    push_int(&mut out, e);
    out.push(' ');
    out.push('}');
    assert(out@ =~= tuple_text(m as int, b as int, e as int));
    out
}

/// The value of a numeral as `str::parse` reads it for a signed type holding
/// `min..=max` (see [`parse_signed`]).
#[verifier::loop_isolation(false)]
pub fn parse_signed_exec(s: &[char], min: i128, max: i128) -> (r: Option<i128>)
    ensures
        r matches Some(x) ==> parse_signed(s@, min as int, max as int) == Some(x as int),
        r is None ==> parse_signed(s@, min as int, max as int) is None,
{
    let n = s.len();
    let neg = n > 0 && s[0] == '-';
    let start: usize = if n > 0 && (s[0] == '-' || s[0] == '+') { 1 } else { 0 };
    let ghost body = if s@.len() > 0 && (s@[0] == '-' || s@[0] == '+') {
        s@.drop_first()
    } else {
        s@
    };
    assert(body =~= s@.subrange(start as int, n as int));
    if start >= n {
        assert(body.len() == 0);
        return None;
    }
    let mut k = start;
    while k < n
        invariant
            start <= k <= n == s@.len(),
            body == s@.subrange(start as int, n as int),
            forall|q: int| start <= q < k ==> is_digit(#[trigger] s@[q]),
        decreases n - k,
    {
        if !('0' <= s[k] && s[k] <= '9') {
            proof {
                assert(body[k - start] == s@[k as int]);
                assert(!is_digit(body[k - start]));
                assert(!all_digits(body));
            }
            return None;
        }
        k = k + 1;
    }
    assert forall|q: int| 0 <= q < body.len() implies is_digit(#[trigger] body[q]) by {
        assert(body[q] == s@[q + start]);
    }
    assert(all_digits(body));
    let top: u128 = 0x8000_0000_0000_0000_0000_0000_0000_0000;
    let mag = match digits_value_upto(s, start, n, top) {
        Some(mag) => mag,
        None => {
            return None;
        },
    };
    let v: i128 = if neg {
        if mag == 0 { 0 } else { -((mag - 1) as i128) - 1 }
    } else {
        if mag == top {
            return None;
        }
        mag as i128
    };
    if min <= v && v <= max {
        Some(v)
    } else {
        None
    }
}

/// The `{ mantissa, 10, exponent }` numbers of a decimal numeral (see
/// [`numeral_tuple`]).
pub fn numeral_tuple_exec(t: &[char]) -> (r: (i128, i128))
    ensures
        r.0 as int == numeral_tuple(t@).0,
        r.1 as int == numeral_tuple(t@).1,
{
    let n = t.len();
    // first `E` or `e`
    let mut e: usize = 0;
    while e < n && !(t[e] == 'E' || t[e] == 'e')
        invariant
            e <= n == t@.len(),
            find_exp(t@.take(e as int)) is None,
        decreases n - e,
    {
        assert(t@.take(e + 1).drop_last() == t@.take(e as int));
        e = e + 1;
    }
    proof {
        lemma_find_exp(t@, e as int);
    }
    let (mant_end, exponent): (usize, i128) = if e < n {
        let exp_part = slice_range(t, e + 1, n);
        let x = match parse_signed_exec(exp_part, i32::MIN as i128, i32::MAX as i128) {
            Some(x) => x,
            None => 0,
        };
        (e, x)
    } else {
        (n, 0)
    };
    let mant = slice_range(t, 0, mant_end);
    assert(mant@ == numeral_mantissa_part(t@));
    assert(exponent as int == numeral_exponent(t@));
    // first `.`
    let mut d: usize = 0;
    while d < mant.len() && mant[d] != '.'
        invariant
            d <= mant@.len(),
            find_dot(mant@.take(d as int)) is None,
        decreases mant@.len() - d,
    {
        assert(mant@.take(d + 1).drop_last() == mant@.take(d as int));
        d = d + 1;
    }
    proof {
        lemma_find_dot(mant@, d as int);
    }
    let places: i128 = if d < mant.len() { (mant.len() - d - 1) as i128 } else { 0 };
    let mut digits: Vec<char> = Vec::new();
    let mut i: usize = 0;
    while i < mant.len()
        invariant
            i <= mant@.len(),
            digits@ == remove_dots(mant@.take(i as int)),
        decreases mant@.len() - i,
    {
        assert(mant@.take(i + 1).drop_last() == mant@.take(i as int));
        if mant[i] != '.' {
            digits.push(mant[i]);
        }
        i = i + 1;
    }
    assert(mant@.take(mant@.len() as int) == mant@);
    let m = match parse_signed_exec(digits.as_slice(), i64::MIN as i128, i64::MAX as i128) {
        Some(x) => x,
        None => 0,
    };
    (m, exponent - places)
}

/// `s[a..b]`.
pub fn slice_range(s: &[char], a: usize, b: usize) -> (r: &[char])
    requires
        a <= b <= s@.len(),
    ensures
        r@ == s@.subrange(a as int, b as int),
{
    &s[a..b]
}

pub proof fn lemma_find_exp(t: Seq<char>, e: int)
    requires
        0 <= e <= t.len(),
        find_exp(t.take(e)) is None,
        e < t.len() ==> (t[e] == 'E' || t[e] == 'e'),
    ensures
        e < t.len() ==> find_exp(t) == Some(e),
        e == t.len() ==> find_exp(t) is None,
    decreases t.len() - e,
{
    if e == t.len() {
        assert(t.take(e) == t);
    } else {
        lemma_find_exp_prefix(t, t.len() as int, e);
    }
}

/// Once found in a prefix, the first `E` stays where it is.
pub proof fn lemma_find_exp_prefix(t: Seq<char>, k: int, e: int)
    requires
        0 <= e < k <= t.len(),
        find_exp(t.take(e)) is None,
        t[e] == 'E' || t[e] == 'e',
    ensures
        find_exp(t.take(k)) == Some(e),
        k == t.len() ==> find_exp(t) == Some(e),
    decreases k - e,
{
    if k == e + 1 {
        assert(t.take(k).drop_last() == t.take(e));
    } else {
        lemma_find_exp_prefix(t, k - 1, e);
        assert(t.take(k).drop_last() == t.take(k - 1));
    }
    if k == t.len() {
        assert(t.take(k) == t);
    }
}

pub proof fn lemma_find_dot(t: Seq<char>, d: int)
    requires
        0 <= d <= t.len(),
        find_dot(t.take(d)) is None,
        d < t.len() ==> t[d] == '.',
    ensures
        d < t.len() ==> find_dot(t) == Some(d),
        d == t.len() ==> find_dot(t) is None,
{
    if d == t.len() {
        assert(t.take(d) == t);
    } else {
        lemma_find_dot_prefix(t, t.len() as int, d);
        assert(t.take(t.len() as int) == t);
    }
}

pub proof fn lemma_find_dot_prefix(t: Seq<char>, k: int, d: int)
    requires
        0 <= d < k <= t.len(),
        find_dot(t.take(d)) is None,
        t[d] == '.',
    ensures
        find_dot(t.take(k)) == Some(d),
    decreases k - d,
{
    if k == d + 1 {
        assert(t.take(k).drop_last() == t.take(d));
    } else {
        lemma_find_dot_prefix(t, k - 1, d);
        assert(t.take(k).drop_last() == t.take(k - 1));
    }
}

} // verus!
