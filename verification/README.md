# asn1_notation

Verified text codecs for ASN.1 values: ASN.1 value notation (ITU-T X.680
clause 17) and the Generic String Encoding Rules (RFC 3641), written in Verus.

A value (`model::Value`) is encoded to text; a text is decoded as the type
that a `model::AsnType` describes. Every encoder and decoder function states
in its contract exactly what it returns, in terms of spec functions that say
what each notation writes (`avn::enc::notation_text`) and how each decoder
reads (`avn::de::avn_decode_text`, `gser::de::gser_decode_text`).

Value notation accepts a leading value assignment (`name Type ::= value`).
Braces are read as a list of items whenever the type is a SEQUENCE OF or
SET OF, also where they would read as an OBJECT IDENTIFIER or a REAL tuple.
In GSER every part of a constructed value is decoded from its own text. The
root components of a SET are decoded in the order of their tags, then its
extension additions in the order of the type, which decides whose error is
reported.

Layout:

- `src/model.rs` – values, type descriptions, errors and their views.
- `src/text.rs` – character classes, whitespace, decimal numerals.
- `src/avn/enc.rs` – the encoder, shared by both notations.
- `src/avn/de.rs`, `src/gser/de.rs` – the parsers and typed decoders.
- `src/avn/mod.rs`, `src/gser/mod.rs` – `encode` and `decode`.
- `src/laws/` – proofs that what is written reads back: quoted strings,
  hstrings, bstrings, numerals and OBJECT IDENTIFIER values, and whole values
  of a type in each notation (`law_avn_round_trip`, `law_gser_round_trip`),
  with the values that a notation cannot carry back stated exactly; the
  shapes of the written forms (`laws/formats.rs`), where the component scan
  stops (`law_value_end`), and the order in which SET components are decoded
  (`laws/typed.rs`).
- `app/lib.rs` – REAL values to and from floats (float arithmetic stays out
  of the verified library).
