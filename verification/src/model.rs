//! The values that the two text notations carry, the type descriptions that
//! steer decoding, and the errors of both directions.
use vstd::prelude::*;

verus! {

/// The ASN.1 character-string types that both notations write as quoted text.
#[derive(Clone, Copy, Debug, PartialEq, Eq, Structural)]
pub enum StringKind {
    Utf8,
    Numeric,
    Printable,
    Visible,
    Ia5,
    General,
    Graphic,
    Teletex,
    Bmp,
}

/// A REAL value as the notations see it.
///
/// `Numeral` holds a decimal numeral such as `3.14E0` or `-12` (the form
/// `{:E}` gives a finite non-zero float); `Tuple` is the `{ mantissa, base,
/// exponent }` form of value notation.
#[derive(Debug, PartialEq)]
pub enum RealValue {
    PlusInfinity,
    MinusInfinity,
    Zero,
    Numeral(String),
    Tuple { mantissa: i64, base: i32, exponent: i32 },
}

/// One named component of a SEQUENCE or SET value; `None` marks an absent
/// optional component.
#[derive(Debug, PartialEq)]
pub struct Field {
    pub name: String,
    pub value: Option<Value>,
}

/// An ASN.1 value, as a derived encoder hands it to a codec and as a codec
/// hands it back.
#[derive(Debug, PartialEq)]
pub enum Value {
    Bool(bool),
    Integer(i128),
    Null,
    Real(RealValue),
    BitString(Vec<bool>),
    OctetString(Vec<u8>),
    ObjectIdentifier(Vec<u32>),
    Enumerated(String),
    Text(StringKind, String),
    Sequence(Vec<Field>),
    SequenceOf(Vec<Value>),
    SetOf(Vec<Value>),
    Choice(String, Box<Value>),
}

/// Mathematical view of a [`RealValue`].
pub enum RealModel {
    PlusInfinity,
    MinusInfinity,
    Zero,
    Numeral(Seq<char>),
    Tuple { mantissa: int, base: int, exponent: int },
}

/// Mathematical view of a [`Value`].
pub enum ValueModel {
    Bool(bool),
    Integer(int),
    Null,
    Real(RealModel),
    BitString(Seq<bool>),
    OctetString(Seq<u8>),
    ObjectIdentifier(Seq<u32>),
    Enumerated(Seq<char>),
    Text(StringKind, Seq<char>),
    Sequence(Seq<(Seq<char>, Option<ValueModel>)>),
    SequenceOf(Seq<ValueModel>),
    SetOf(Seq<ValueModel>),
    Choice(Seq<char>, Box<ValueModel>),
}

impl View for RealValue {
    type V = RealModel;

    open spec fn view(&self) -> RealModel {
        match self {
            RealValue::PlusInfinity => RealModel::PlusInfinity,
            RealValue::MinusInfinity => RealModel::MinusInfinity,
            RealValue::Zero => RealModel::Zero,
            RealValue::Numeral(t) => RealModel::Numeral(t@),
            RealValue::Tuple { mantissa, base, exponent } => RealModel::Tuple {
                mantissa: *mantissa as int,
                base: *base as int,
                exponent: *exponent as int,
            },
        }
    }
}

impl View for Value {
    type V = ValueModel;

    open spec fn view(&self) -> ValueModel
        decreases self,
    {
        match self {
            Value::Bool(b) => ValueModel::Bool(*b),
            Value::Integer(n) => ValueModel::Integer(*n as int),
            Value::Null => ValueModel::Null,
            Value::Real(r) => ValueModel::Real(r@),
            Value::BitString(b) => ValueModel::BitString(b@),
            Value::OctetString(b) => ValueModel::OctetString(b@),
            Value::ObjectIdentifier(a) => ValueModel::ObjectIdentifier(a@),
            Value::Enumerated(s) => ValueModel::Enumerated(s@),
            Value::Text(k, s) => ValueModel::Text(*k, s@),
            Value::Sequence(fs) => ValueModel::Sequence(fields_view(fs@)),
            Value::SequenceOf(vs) => ValueModel::SequenceOf(values_view(vs@)),
            Value::SetOf(vs) => ValueModel::SetOf(values_view(vs@)),
            Value::Choice(id, v) => ValueModel::Choice(id@, Box::new((**v).view())),
        }
    }
}

/// Views of a list of values.
pub open spec fn values_view(s: Seq<Value>) -> Seq<ValueModel>
    decreases s,
{
    if s.len() == 0 {
        Seq::empty()
    } else {
        values_view(s.drop_last()).push(s.last().view())
    }
}

/// Views of the components of a SEQUENCE value.
pub open spec fn fields_view(s: Seq<Field>) -> Seq<(Seq<char>, Option<ValueModel>)>
    decreases s,
{
    if s.len() == 0 {
        Seq::empty()
    } else {
        fields_view(s.drop_last()).push(field_view(s.last()))
    }
}

/// View of one component.
pub open spec fn field_view(f: Field) -> (Seq<char>, Option<ValueModel>)
    decreases f,
{
    (
        f.name@,
        match f.value {
            Some(v) => Some(v.view()),
            None => None,
        },
    )
}

pub proof fn lemma_values_view(s: Seq<Value>)
    ensures
        values_view(s).len() == s.len(),
        forall|i: int| 0 <= i < s.len() ==> #[trigger] values_view(s)[i] == s[i].view(),
    decreases s.len(),
{
    if s.len() > 0 {
        lemma_values_view(s.drop_last());
        assert(values_view(s) == values_view(s.drop_last()).push(s.last().view()));
        assert forall|i: int| 0 <= i < s.len() implies #[trigger] values_view(s)[i] == s[i].view() by {
            if i < s.len() - 1 {
                assert(s.drop_last()[i] == s[i]);
            }
        }
    }
}

pub proof fn lemma_fields_view(s: Seq<Field>)
    ensures
        fields_view(s).len() == s.len(),
        forall|i: int| 0 <= i < s.len() ==> #[trigger] fields_view(s)[i] == field_view(s[i]),
    decreases s.len(),
{
    if s.len() > 0 {
        lemma_fields_view(s.drop_last());
        assert forall|i: int| 0 <= i < s.len() implies #[trigger] fields_view(s)[i] == field_view(s[i]) by {
            if i < s.len() - 1 {
                assert(s.drop_last()[i] == s[i]);
            }
        }
    }
}

/// The type of a SEQUENCE component: its identifier, its type, and whether
/// it may be absent.
pub struct FieldType {
    pub name: String,
    pub ty: AsnType,
    pub optional: bool,
}

/// The class of a tag.
#[derive(Clone, Copy, Debug, PartialEq, Eq, Structural)]
pub enum TagClass {
    Universal,
    Application,
    Context,
    Private,
}

/// A tag: its class and number. Tags are ordered by class (universal,
/// application, context-specific, private), then by number.
#[derive(Clone, Copy, Debug, PartialEq, Eq, Structural)]
pub struct Tag {
    pub class: TagClass,
    pub number: u32,
}

/// The place of a tag in the order of tags.
pub open spec fn tag_key(t: Tag) -> int {
    let rank: int = match t.class {
        TagClass::Universal => 0,
        TagClass::Application => 1,
        TagClass::Context => 2,
        TagClass::Private => 3,
    };
    rank * 0x1_0000_0000 + t.number as int
}

/// [`tag_key`], computed.
pub fn tag_key_exec(t: Tag) -> (k: u64)
    ensures
        k as int == tag_key(t),
{
    let rank: u64 = match t.class {
        TagClass::Universal => 0,
        TagClass::Application => 1,
        TagClass::Context => 2,
        TagClass::Private => 3,
    };
    rank * 0x1_0000_0000 + t.number as u64
}

/// The type of a SET component: a component type, its smallest tag, and
/// whether it is an extension addition (one after the extension marker)
/// rather than a root component.
pub struct SetComponent {
    pub field: FieldType,
    pub tag: Tag,
    pub extension: bool,
}

/// The key that places a SET component in the order in which the components
/// are decoded: root components by their tags, then the extension additions
/// (whose key is above every tag's) in the order of the type.
pub open spec fn order_key(c: SetComponent) -> int {
    if c.extension {
        0x8_0000_0000
    } else {
        tag_key(c.tag)
    }
}

/// [`order_key`], computed.
pub fn order_key_exec(c: &SetComponent) -> (k: u64)
    ensures
        k as int == order_key(*c),
{
    if c.extension {
        0x8_0000_0000
    } else {
        tag_key_exec(c.tag)
    }
}

/// One alternative of a CHOICE type.
pub struct Alternative {
    pub name: String,
    pub ty: AsnType,
}

/// The ASN.1 type that a decoder reads a value as (what a derived decoder
/// knows of the Rust type it fills).
pub enum AsnType {
    Bool,
    /// An INTEGER whose Rust type holds `min..=max`.
    Integer { min: i128, max: i128 },
    Null,
    Real,
    BitString,
    OctetString,
    ObjectIdentifier,
    Text(StringKind),
    /// An ENUMERATED type with these identifiers.
    Enumerated(Vec<String>),
    Sequence(Vec<FieldType>),
    /// A SET type: its components, each with its smallest tag.
    SetType(Vec<SetComponent>),
    SequenceOf(Box<AsnType>),
    SetOf(Box<AsnType>),
    Choice(Vec<Alternative>),
}

/// Mathematical view of an [`AsnType`].
pub enum TypeModel {
    Bool,
    Integer { min: int, max: int },
    Null,
    Real,
    BitString,
    OctetString,
    ObjectIdentifier,
    Text(StringKind),
    Enumerated(Seq<Seq<char>>),
    Sequence(Seq<(Seq<char>, TypeModel, bool)>),
    SetType(Seq<((Seq<char>, TypeModel, bool), int)>),
    SequenceOf(Box<TypeModel>),
    SetOf(Box<TypeModel>),
    Choice(Seq<(Seq<char>, TypeModel)>),
}

impl View for AsnType {
    type V = TypeModel;

    open spec fn view(&self) -> TypeModel
        decreases self,
    {
        match self {
            AsnType::Bool => TypeModel::Bool,
            AsnType::Integer { min, max } => TypeModel::Integer { min: *min as int, max: *max as int },
            AsnType::Null => TypeModel::Null,
            AsnType::Real => TypeModel::Real,
            AsnType::BitString => TypeModel::BitString,
            AsnType::OctetString => TypeModel::OctetString,
            AsnType::ObjectIdentifier => TypeModel::ObjectIdentifier,
            AsnType::Text(k) => TypeModel::Text(*k),
            AsnType::Enumerated(ids) => TypeModel::Enumerated(ids.deep_view()),
            AsnType::Sequence(fs) => TypeModel::Sequence(field_types_view(fs@)),
            AsnType::SetType(cs) => TypeModel::SetType(set_components_view(cs@)),
            AsnType::SequenceOf(t) => TypeModel::SequenceOf(Box::new((**t).view())),
            AsnType::SetOf(t) => TypeModel::SetOf(Box::new((**t).view())),
            AsnType::Choice(alts) => TypeModel::Choice(alternatives_view(alts@)),
        }
    }
}

/// Views of the component types of a SEQUENCE type.
pub open spec fn field_types_view(s: Seq<FieldType>) -> Seq<(Seq<char>, TypeModel, bool)>
    decreases s,
{
    if s.len() == 0 {
        Seq::empty()
    } else {
        field_types_view(s.drop_last()).push(field_type_view(s.last()))
    }
}

pub open spec fn field_type_view(f: FieldType) -> (Seq<char>, TypeModel, bool)
    decreases f,
{
    (f.name@, f.ty.view(), f.optional)
}

/// Views of the components of a SET type, each with its [`order_key`].
pub open spec fn set_components_view(s: Seq<SetComponent>) -> Seq<((Seq<char>, TypeModel, bool), int)>
    decreases s,
{
    if s.len() == 0 {
        Seq::empty()
    } else {
        set_components_view(s.drop_last()).push(set_component_view(s.last()))
    }
}

pub open spec fn set_component_view(c: SetComponent) -> ((Seq<char>, TypeModel, bool), int)
    decreases c,
{
    (field_type_view(c.field), order_key(c))
}

pub proof fn lemma_set_components_view(s: Seq<SetComponent>)
    ensures
        set_components_view(s).len() == s.len(),
        forall|i: int| 0 <= i < s.len() ==> #[trigger] set_components_view(s)[i] == set_component_view(s[i]),
    decreases s.len(),
{
    if s.len() > 0 {
        lemma_set_components_view(s.drop_last());
        assert forall|i: int| 0 <= i < s.len() implies #[trigger] set_components_view(s)[i] == set_component_view(s[i]) by {
            if i < s.len() - 1 {
                assert(s.drop_last()[i] == s[i]);
            }
        }
    }
}

/// Views of the alternatives of a CHOICE type.
pub open spec fn alternatives_view(s: Seq<Alternative>) -> Seq<(Seq<char>, TypeModel)>
    decreases s,
{
    if s.len() == 0 {
        Seq::empty()
    } else {
        alternatives_view(s.drop_last()).push(alternative_view(s.last()))
    }
}

pub open spec fn alternative_view(a: Alternative) -> (Seq<char>, TypeModel)
    decreases a,
{
    (a.name@, a.ty.view())
}

pub proof fn lemma_field_types_view(s: Seq<FieldType>)
    ensures
        field_types_view(s).len() == s.len(),
        forall|i: int| 0 <= i < s.len() ==> #[trigger] field_types_view(s)[i] == field_type_view(s[i]),
    decreases s.len(),
{
    if s.len() > 0 {
        lemma_field_types_view(s.drop_last());
        assert forall|i: int| 0 <= i < s.len() implies #[trigger] field_types_view(s)[i] == field_type_view(s[i]) by {
            if i < s.len() - 1 {
                assert(s.drop_last()[i] == s[i]);
            }
        }
    }
}

pub proof fn lemma_alternatives_view(s: Seq<Alternative>)
    ensures
        alternatives_view(s).len() == s.len(),
        forall|i: int| 0 <= i < s.len() ==> #[trigger] alternatives_view(s)[i] == alternative_view(s[i]),
    decreases s.len(),
{
    if s.len() > 0 {
        lemma_alternatives_view(s.drop_last());
        assert forall|i: int| 0 <= i < s.len() implies #[trigger] alternatives_view(s)[i] == alternative_view(s[i]) by {
            if i < s.len() - 1 {
                assert(s.drop_last()[i] == s[i]);
            }
        }
    }
}

/// Which notation an error comes from.
#[derive(Clone, Copy, Debug, PartialEq, Eq, Structural)]
pub enum Codec {
    Avn,
    Gser,
}

/// Why an encoding failed.
#[derive(Clone, Copy, Debug, PartialEq, Eq, Structural)]
pub enum EncodeErrorKind {
    /// A component value arrived while no SEQUENCE was being built.
    InternalStackMismatch,
    /// The REAL value has no form in this notation.
    RealEncodingFailed,
}

/// An encoding error.
#[derive(Clone, Copy, Debug, PartialEq, Eq, Structural)]
pub struct EncodeError {
    pub codec: Codec,
    pub kind: EncodeErrorKind,
}

/// What kind of value a decoder wanted.
#[derive(Clone, Copy, Debug, PartialEq, Eq, Structural)]
pub enum Expected {
    Boolean,
    Integer,
    Real,
    Null,
    ObjectIdentifier,
    Sequence,
    SetType,
    SequenceOf,
    SetOf,
    OctetString,
    BitString,
    String,
    Enumerated,
    Choice,
}

/// What kind of parsed value a decoder found instead.
#[derive(Clone, Copy, Debug, PartialEq, Eq, Structural)]
pub enum Found {
    Bool,
    Integer,
    Real,
    Null,
    String,
    Bytes,
    BitString,
    Oid,
    Identifier,
    Constructed,
    Array,
    Choice,
    Absent,
}

/// Why a decoding failed.
#[derive(Debug, PartialEq)]
pub enum DecodeErrorKind {
    /// The text does not follow the notation's grammar.
    ParserFail,
    /// No value was left to decode.
    EndOfInput,
    /// The text holds another kind of value than the type asks for.
    TypeMismatch { expected: Expected, found: Found },
    /// No identifier of the ENUMERATED type is this one.
    InvalidEnumDiscriminant { discriminant: String },
    /// No alternative of the CHOICE type has this identifier.
    InvalidChoiceVariant { variant: String },
    /// The arcs do not form an object identifier.
    InvalidOid,
    /// The integer does not fit the type.
    IntegerOverflow,
    /// The text holds a character that the string type does not permit.
    StringConversionFailed { kind: StringKind },
}

/// A decoding error.
#[derive(Debug, PartialEq)]
pub struct DecodeError {
    pub codec: Codec,
    pub kind: DecodeErrorKind,
}

/// Mathematical view of a [`DecodeErrorKind`].
pub enum ErrorModel {
    ParserFail,
    EndOfInput,
    TypeMismatch { expected: Expected, found: Found },
    InvalidEnumDiscriminant(Seq<char>),
    InvalidChoiceVariant(Seq<char>),
    InvalidOid,
    IntegerOverflow,
    StringConversionFailed(StringKind),
}

impl View for DecodeError {
    type V = ErrorModel;

    open spec fn view(&self) -> ErrorModel {
        match &self.kind {
            DecodeErrorKind::ParserFail => ErrorModel::ParserFail,
            DecodeErrorKind::EndOfInput => ErrorModel::EndOfInput,
            DecodeErrorKind::TypeMismatch { expected, found } => ErrorModel::TypeMismatch {
                expected: *expected,
                found: *found,
            },
            DecodeErrorKind::InvalidEnumDiscriminant { discriminant } => ErrorModel::InvalidEnumDiscriminant(
                discriminant@,
            ),
            DecodeErrorKind::InvalidChoiceVariant { variant } => ErrorModel::InvalidChoiceVariant(
                variant@,
            ),
            DecodeErrorKind::InvalidOid => ErrorModel::InvalidOid,
            DecodeErrorKind::IntegerOverflow => ErrorModel::IntegerOverflow,
            DecodeErrorKind::StringConversionFailed { kind } => ErrorModel::StringConversionFailed(
                *kind,
            ),
        }
    }
}

/// Whether a string of this kind may hold the character.
pub open spec fn permitted(kind: StringKind, c: char) -> bool {
    let u = c as u32;
    match kind {
        StringKind::Utf8 => true,
        StringKind::Teletex => true,
        StringKind::Numeric => ('0' <= c && c <= '9') || c == ' ',
        StringKind::Printable => ('A' <= c && c <= 'Z') || ('a' <= c && c <= 'z') || ('0' <= c
            && c <= '9') || c == ' ' || c == '\'' || c == '(' || c == ')' || c == '+' || c == ','
            || c == '-' || c == '.' || c == '/' || c == ':' || c == '=' || c == '?',
        StringKind::Visible => 0x20 <= u && u <= 0x7e,
        StringKind::General => 0x20 <= u && u <= 0x7e,
        StringKind::Graphic => 0x20 <= u && u <= 0x7e,
        StringKind::Ia5 => u <= 0x7f,
        StringKind::Bmp => u <= 0xffff,
    }
}

/// Whether a string of this kind may hold all the characters of `s`.
pub open spec fn all_permitted(kind: StringKind, s: Seq<char>) -> bool {
    forall|i: int| 0 <= i < s.len() ==> permitted(kind, #[trigger] s[i])
}

/// Whether a string of this kind may hold the character.
pub fn permitted_exec(kind: StringKind, c: char) -> (b: bool)
    ensures
        b == permitted(kind, c),
{
    let u = c as u32;
    match kind {
        StringKind::Utf8 => true,
        StringKind::Teletex => true,
        StringKind::Numeric => ('0' <= c && c <= '9') || c == ' ',
        StringKind::Printable => ('A' <= c && c <= 'Z') || ('a' <= c && c <= 'z') || ('0' <= c
            && c <= '9') || c == ' ' || c == '\'' || c == '(' || c == ')' || c == '+' || c == ','
            || c == '-' || c == '.' || c == '/' || c == ':' || c == '=' || c == '?',
        StringKind::Visible => 0x20 <= u && u <= 0x7e,
        StringKind::General => 0x20 <= u && u <= 0x7e,
        StringKind::Graphic => 0x20 <= u && u <= 0x7e,
        StringKind::Ia5 => u <= 0x7f,
        StringKind::Bmp => u <= 0xffff,
    }
}

/// Whether a string of this kind may hold all the characters of `s`.
pub fn all_permitted_exec(kind: StringKind, s: &[char]) -> (b: bool)
    ensures
        b == all_permitted(kind, s@),
{
    let mut i: usize = 0;
    while i < s.len()
        invariant
            i <= s@.len(),
            forall|q: int| 0 <= q < i ==> permitted(kind, #[trigger] s@[q]),
        decreases s@.len() - i,
    {
        if !permitted_exec(kind, s[i]) {
            return false;
        }
        i = i + 1;
    }
    true
}

/// Whether the arcs form an object identifier: at least two arcs, the first
/// at most 2, and the second below 40 when the first is 0 or 1.
pub open spec fn oid_valid(arcs: Seq<u32>) -> bool {
    arcs.len() >= 2 && arcs[0] <= 2 && (arcs[0] < 2 ==> arcs[1] < 40)
}

/// Whether the arcs form an object identifier.
pub fn oid_valid_exec(arcs: &[u32]) -> (b: bool)
    ensures
        b == oid_valid(arcs@),
{
    arcs.len() >= 2 && arcs[0] <= 2 && (arcs[0] >= 2 || arcs[1] < 40)
}

/// The code of `c` with an ASCII upper-case letter made lower-case.
pub open spec fn ascii_lower(c: char) -> u32 {
    if 'A' <= c && c <= 'Z' {
        ((c as u32) + 32) as u32
    } else {
        c as u32
    }
}

/// `str::eq_ignore_ascii_case`.
pub open spec fn eq_ignore_ascii_case(a: Seq<char>, b: Seq<char>) -> bool {
    a.len() == b.len() && forall|i: int|
        0 <= i < a.len() ==> ascii_lower(#[trigger] a[i]) == ascii_lower(b[i])
}

fn ascii_lower_exec(c: char) -> (r: u32)
    ensures
        r == ascii_lower(c),
{
    if 'A' <= c && c <= 'Z' {
        (c as u32) + 32
    } else {
        c as u32
    }
}

/// `str::eq_ignore_ascii_case`.
pub fn eq_ignore_ascii_case_exec(a: &[char], b: &[char]) -> (r: bool)
    ensures
        r == eq_ignore_ascii_case(a@, b@),
{
    if a.len() != b.len() {
        return false;
    }
    let mut i: usize = 0;
    while i < a.len()
        invariant
            i <= a@.len() == b@.len(),
            forall|q: int| 0 <= q < i ==> ascii_lower(#[trigger] a@[q]) == ascii_lower(b@[q]),
        decreases a@.len() - i,
    {
        if ascii_lower_exec(a[i]) != ascii_lower_exec(b[i]) {
            return false;
        }
        i = i + 1;
    }
    true
}

} // verus!
