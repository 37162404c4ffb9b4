//! Byte order marks, and decoding and encoding text through `encoding_rs`.
use vstd::prelude::*;

use crate::text::{extend_chars, from_chars, to_chars};
use vstd::utf8::{
    decode_utf8, encode_scalar, encode_utf8, has_width_3_encoding, last_continuation_byte, leading_byte_width_1,
    leading_byte_width_2, leading_byte_width_3, leading_byte_width_4, second_last_continuation_byte,
    third_last_continuation_byte, valid_utf8,
};

verus! {

#[verifier::external_type_specification]
#[verifier::external_body]
pub struct ExEncoding(encoding_rs::Encoding);

/// A character encoding of `encoding_rs`, together with the label it was
/// found by. Only [`charset_for_label`] makes one, so the encoding is always
/// the one that the label stands for.
pub struct Charset {
    label: String,
    enc: &'static encoding_rs::Encoding,
}

impl Charset {
    /// The label the encoding was found by.
    pub closed spec fn spec_label(&self) -> Seq<char> {
        self.label@
    }
}

/// The label of an optional encoding.
pub open spec fn charset_label(c: Option<Charset>) -> Option<Seq<char>> {
    match c {
        Some(c) => Some(c.spec_label()),
        None => None,
    }
}

/// What `encoding_rs::Encoding::for_label` decides of a label: whether it
/// stands for an encoding.
pub uninterp spec fn label_known(label: Seq<char>) -> bool;

/// What `Encoding::name` gives for the encoding a label stands for: its
/// canonical name.
pub uninterp spec fn encoding_name(label: Seq<char>) -> Seq<char>;

/// What `Encoding::decode` (BOM sniffed first) of the encoding a label
/// stands for gives for the bytes: the text, and whether malformed
/// sequences were replaced.
pub uninterp spec fn decode_result(label: Seq<char>, bytes: Seq<u8>) -> (Seq<char>, bool);

/// What `Encoding::decode_without_bom_handling` of the encoding a label
/// stands for gives for the bytes: the text, and whether malformed
/// sequences were replaced.
pub uninterp spec fn decode_no_bom_result(label: Seq<char>, bytes: Seq<u8>) -> (Seq<char>, bool);

/// What `Encoding::encode` of the encoding a label stands for gives for the
/// text: the bytes.
pub uninterp spec fn encode_result(label: Seq<char>, text: Seq<char>) -> Seq<u8>;

/// `encoding_rs::Encoding::for_label` on the bytes of `label`. The crate's
/// label table knows `utf-8`, `utf-16le` and `utf-16be` and holds no
/// `utf-32` label; which other labels it knows is not restated.
#[verifier::external_body]
pub(crate) fn charset_for_label(label: &str) -> (r: Option<Charset>)
    ensures
        r is Some <==> label_known(label@),
        r is Some ==> charset_label(r) == Some(label@),
        label@ == "utf-8"@ ==> r is Some,
        label@ == "utf-16le"@ ==> r is Some,
        label@ == "utf-16be"@ ==> r is Some,
        label@ == "utf-32le"@ ==> r is None,
        label@ == "utf-32be"@ ==> r is None,
{
    encoding_rs::Encoding::for_label(label.as_bytes()).map(|enc| Charset { label: label.to_string(), enc })
}

/// `Encoding::name`: the canonical name. The crate names the encodings of
/// the labels `utf-8`, `utf-16le` and `utf-16be` `UTF-8`, `UTF-16LE` and
/// `UTF-16BE`.
#[verifier::external_body]
pub(crate) fn charset_name(c: &Charset) -> (r: &'static str)
    ensures
        r@ == encoding_name(c.spec_label()),
        c.spec_label() == "utf-8"@ ==> r@ == "UTF-8"@,
        c.spec_label() == "utf-16le"@ ==> r@ == "UTF-16LE"@,
        c.spec_label() == "utf-16be"@ ==> r@ == "UTF-16BE"@,
{
    c.enc.name()
}

/// `Encoding::decode` (with BOM sniffing): the text and whether malformed
/// sequences were replaced. It panics only when the size of its buffer
/// overflows `usize`, which the bound on the length rules out. Under the
/// label `utf-8`, bytes that start with none of the marks `EF BB BF`,
/// `FF FE`, `FE FF` and are valid UTF-8 are borrowed as they are: the text
/// is what they encode, and nothing was replaced; such bytes that are not
/// valid UTF-8 have malformed sequences replaced.
#[verifier::external_body]
fn decode_with(c: &Charset, bytes: &[u8]) -> (r: (String, bool))
    requires
        bytes@.len() < usize::MAX / 16,
    ensures
        (r.0@, r.1) == decode_result(c.spec_label(), bytes@),
        c.spec_label() == "utf-8"@ && !starts_with_web_bom(bytes@) && valid_utf8(bytes@) ==> r.0@
            == decode_utf8(bytes@) && !r.1,
        c.spec_label() == "utf-8"@ && !starts_with_web_bom(bytes@) && !valid_utf8(bytes@) ==> r.1,
{
    let (cow, _, had_errors) = c.enc.decode(bytes);
    (cow.into_owned(), had_errors)
}

/// `Encoding::decode_without_bom_handling`: the text and whether malformed
/// sequences were replaced. It panics only when the size of its buffer
/// overflows `usize`, which the bound on the length rules out.
#[verifier::external_body]
fn decode_no_bom_with(c: &Charset, bytes: &[u8]) -> (r: (String, bool))
    requires
        bytes@.len() < usize::MAX / 16,
    ensures
        (r.0@, r.1) == decode_no_bom_result(c.spec_label(), bytes@),
{
    let (cow, had_errors) = c.enc.decode_without_bom_handling(bytes);
    (cow.into_owned(), had_errors)
}

/// `Encoding::encode`: the bytes (unmappable characters written as HTML
/// numeric character references). It panics only when the size of its
/// buffer overflows `usize`, which the bound on the length rules out. Under
/// the label `utf-8` the bytes are those of the string itself.
#[verifier::external_body]
fn encode_with(c: &Charset, text: &str) -> (r: Vec<u8>)
    requires
        text@.len() < usize::MAX / 64,
    ensures
        r@ == encode_result(c.spec_label(), text@),
        c.spec_label() == "utf-8"@ ==> r@ == encode_utf8(text@),
{
    let (cow, _, _) = c.enc.encode(text);
    cow.into_owned()
}

/// `b` starts with one of the marks that `Encoding::decode` looks for:
/// `EF BB BF`, `FF FE` or `FE FF`.
pub open spec fn starts_with_web_bom(b: Seq<u8>) -> bool {
    ||| b.len() >= 3 && b[0] == 0xEF && b[1] == 0xBB && b[2] == 0xBF
    ||| b.len() >= 2 && b[0] == 0xFF && b[1] == 0xFE
    ||| b.len() >= 2 && b[0] == 0xFE && b[1] == 0xFF
}

/// The text starts with U+FEFF, the character a UTF-8 mark encodes.
pub open spec fn starts_with_mark(t: Seq<char>) -> bool {
    t.len() > 0 && t[0] == '\u{FEFF}'
}

/// The ranges of the bytes of a UTF-8 encoding: leading bytes of one, two,
/// three and four bytes, and continuation bytes.
proof fn lemma_utf8_byte_ranges(s: u32)
    by (bit_vector)
    ensures
        leading_byte_width_1(s) <= 0x7F,
        0xC0 <= leading_byte_width_2(s) <= 0xDF,
        0xE0 <= leading_byte_width_3(s) <= 0xEF,
        0xF0 <= leading_byte_width_4(s) <= 0xF7,
        0x80 <= last_continuation_byte(s) <= 0xBF,
        0x80 <= second_last_continuation_byte(s) <= 0xBF,
        0x80 <= third_last_continuation_byte(s) <= 0xBF,
{
}

/// The three bytes `EF BB BF` encode U+FEFF only.
proof fn lemma_utf8_mark_scalar(s: u32)
    by (bit_vector)
    requires
        0x800 <= s <= 0xFFFF,
        leading_byte_width_3(s) == 0xEF,
        second_last_continuation_byte(s) == 0xBB,
        last_continuation_byte(s) == 0xBF,
    ensures
        s == 0xFEFF,
{
}

/// No byte of a UTF-8 encoding is above `F7`.
proof fn lemma_encode_utf8_bytes(t: Seq<char>)
    ensures
        forall|i: int| 0 <= i < encode_utf8(t).len() ==> #[trigger] encode_utf8(t)[i] <= 0xF7,
    decreases t.len(),
{
    if t.len() > 0 {
        let s = t[0] as u32;
        let e = encode_scalar(s);
        lemma_utf8_byte_ranges(s);
        lemma_encode_utf8_bytes(t.drop_first());
        let rest = encode_utf8(t.drop_first());
        assert(encode_utf8(t) == e + rest);
        assert forall|i: int| 0 <= i < encode_utf8(t).len() implies #[trigger] encode_utf8(t)[i] <= 0xF7 by {
            if i < e.len() {
                assert(encode_utf8(t)[i] == e[i]);
            } else {
                assert(encode_utf8(t)[i] == rest[i - e.len()]);
            }
        }
    }
}

/// Decoding the UTF-8 encoding of a text gives the text back, and the
/// encoding starts with no byte order mark unless the text starts with
/// U+FEFF.
pub proof fn lemma_utf8_round_trip(t: Seq<char>)
    requires
        !starts_with_mark(t),
    ensures
        valid_utf8(encode_utf8(t)),
        decode_utf8(encode_utf8(t)) == t,
        bom_of(encode_utf8(t)).0 is None,
{
    vstd::utf8::encode_utf8_valid_utf8(t);
    vstd::utf8::encode_utf8_decode_utf8(t);
    let b = encode_utf8(t);
    lemma_encode_utf8_bytes(t);
    if t.len() > 0 {
        let s = t[0] as u32;
        let e = encode_scalar(s);
        vstd::utf8::char_is_scalar(t[0]);
        lemma_utf8_byte_ranges(s);
        assert(b == e + encode_utf8(t.drop_first()));
        if b.len() >= 3 && b[0] == 0xEF && b[1] == 0xBB && b[2] == 0xBF {
            assert(b[0] == e[0]);
            assert(has_width_3_encoding(s));
            assert(e.len() == 3);
            assert(b[1] == e[1] && b[2] == e[2]);
            lemma_utf8_mark_scalar(s);
            vstd::utf8::char_u32_cast(t[0], s);
            assert(t[0] == '\u{FEFF}');
        }
        if b.len() >= 4 {
            assert(b[2] <= 0xF7);
        }
        if b.len() >= 2 {
            assert(b[0] <= 0xF7 && b[1] <= 0xF7);
        }
    }
}

/// The encoding that a byte order mark at the start of `b` announces, and
/// the length of the mark.
pub open spec fn bom_of(b: Seq<u8>) -> (Option<Seq<char>>, int) {
    if b.len() >= 4 && b[0] == 0x00 && b[1] == 0x00 && b[2] == 0xFE && b[3] == 0xFF {
        (Some("utf-32be"@), 4)
    } else if b.len() >= 4 && b[0] == 0xFF && b[1] == 0xFE && b[2] == 0x00 && b[3] == 0x00 {
        (Some("utf-32le"@), 4)
    } else if b.len() >= 3 && b[0] == 0xEF && b[1] == 0xBB && b[2] == 0xBF {
        (Some("utf-8"@), 3)
    } else if b.len() >= 2 && b[0] == 0xFE && b[1] == 0xFF {
        (Some("utf-16be"@), 2)
    } else if b.len() >= 2 && b[0] == 0xFF && b[1] == 0xFE {
        (Some("utf-16le"@), 2)
    } else {
        (None, 0)
    }
}

/// The view of an optional string.
pub open spec fn opt_str_view(o: Option<&str>) -> Option<Seq<char>> {
    match o {
        Some(s) => Some(s@),
        None => None,
    }
}

/// Detects a byte order mark: the encoding it announces and its length.
pub fn detect_bom(bytes: &[u8]) -> (r: (Option<&'static str>, usize))
    ensures
        (opt_str_view(r.0), r.1 as int) == bom_of(bytes@),
{
    if bytes.len() >= 4 && bytes[0] == 0x00 && bytes[1] == 0x00 && bytes[2] == 0xFE && bytes[3]
        == 0xFF {
        (Some("utf-32be"), 4)
    } else if bytes.len() >= 4 && bytes[0] == 0xFF && bytes[1] == 0xFE && bytes[2] == 0x00
        && bytes[3] == 0x00 {
        (Some("utf-32le"), 4)
    } else if bytes.len() >= 3 && bytes[0] == 0xEF && bytes[1] == 0xBB && bytes[2] == 0xBF {
        (Some("utf-8"), 3)
    } else if bytes.len() >= 2 && bytes[0] == 0xFE && bytes[1] == 0xFF {
        (Some("utf-16be"), 2)
    } else if bytes.len() >= 2 && bytes[0] == 0xFF && bytes[1] == 0xFE {
        (Some("utf-16le"), 2)
    } else {
        (None, 0)
    }
}

/// Why bytes could not be decoded.
pub enum DecodeError {
    /// The encoding label is unknown (an invalid-input error).
    UnknownEncoding(String),
    /// The bytes are malformed in the encoding (an invalid-data error).
    InvalidData(String),
}

/// The canonical name of the encoding that a byte order mark at the start
/// of `b` announces, for the marks of UTF-8 and UTF-16.
pub open spec fn bom_encoding_name(b: Seq<u8>) -> Seq<char> {
    if b.len() >= 3 && b[0] == 0xEF && b[1] == 0xBB && b[2] == 0xBF {
        "UTF-8"@
    } else if b.len() >= 2 && b[0] == 0xFE && b[1] == 0xFF {
        "UTF-16BE"@
    } else {
        "UTF-16LE"@
    }
}

/// The encoding label used for `bytes` under `input_encoding`: with `auto`
/// and no byte order mark, `utf-8`.
pub open spec fn used_label(bytes: Seq<u8>, input_encoding: Seq<char>) -> Seq<char> {
    if input_encoding == "auto"@ {
        "utf-8"@
    } else {
        input_encoding
    }
}

/// The outcome of decoding `bytes` under `input_encoding`: `Ok` with the
/// text, or the error kind (`true` for an unknown encoding) and message.
pub open spec fn decoded(bytes: Seq<u8>, input_encoding: Seq<char>) -> Result<
    Seq<char>,
    (bool, Seq<char>),
> {
    let bom = bom_of(bytes);
    if input_encoding == "auto"@ && bom.0 is Some {
        let r = decode_no_bom_result(bom.0->0, bytes.skip(bom.1));
        if !label_known(bom.0->0) {
            Err((true, "unknown encoding: "@ + bom.0->0))
        } else if r.1 {
            Err((false, "invalid "@ + bom_encoding_name(bytes) + " data after BOM"@))
        } else {
            Ok(r.0)
        }
    } else {
        let label = used_label(bytes, input_encoding);
        if !label_known(label) {
            Err((true, "unknown encoding: "@ + label))
        } else {
            let r = decode_result(label, bytes);
            if r.1 {
                Err((false, "invalid "@ + label + " data"@))
            } else {
                Ok(r.0)
            }
        }
    }
}

/// The view of a decoding outcome.
pub open spec fn decode_view(r: Result<String, DecodeError>) -> Result<Seq<char>, (bool, Seq<char>)> {
    match r {
        Ok(s) => Ok(s@),
        Err(DecodeError::UnknownEncoding(m)) => Err((true, m@)),
        Err(DecodeError::InvalidData(m)) => Err((false, m@)),
    }
}

/// A UTF-32 byte order mark at the start of `b`.
pub open spec fn has_utf32_bom(b: Seq<u8>) -> bool {
    b.len() >= 4 && ((b[0] == 0x00 && b[1] == 0x00 && b[2] == 0xFE && b[3] == 0xFF) || (b[0]
        == 0xFF && b[1] == 0xFE && b[2] == 0x00 && b[3] == 0x00))
}

/// The concatenation of two strings.
fn concat2(a: &str, b: &str) -> (r: String)
    ensures
        r@ == a@ + b@,
{
    let mut v = to_chars(a);
    extend_chars(&mut v, &to_chars(b));
    from_chars(&v)
}

/// The concatenation of three strings.
fn concat3(a: &str, b: &str, c: &str) -> (r: String)
    ensures
        r@ == a@ + b@ + c@,
{
    let mut v = to_chars(a);
    extend_chars(&mut v, &to_chars(b));
    extend_chars(&mut v, &to_chars(c));
    from_chars(&v)
}

/// Decodes bytes into text. With `input_encoding` `auto`, a byte order mark
/// picks the encoding (and is dropped), else UTF-8 is used; otherwise
/// `input_encoding` is an encoding label. Malformed bytes are an error.
/// A UTF-32 mark under `auto` names an encoding without a label: an
/// unknown-encoding error.
pub fn decode_bytes(bytes: &[u8], input_encoding: &str) -> (r: Result<String, DecodeError>)
    requires
        bytes@.len() < usize::MAX / 16,
    ensures
        input_encoding@ == "auto"@ && has_utf32_bom(bytes@) ==> r matches Err(DecodeError::UnknownEncoding(_)),
        decode_view(r) == decoded(bytes@, input_encoding@),
        (input_encoding@ == "auto"@ || input_encoding@ == "utf-8"@) && bom_of(bytes@).0 is None
            && valid_utf8(bytes@) ==> decode_view(r) == Ok::<Seq<char>, (bool, Seq<char>)>(decode_utf8(bytes@)),
        (input_encoding@ == "auto"@ || input_encoding@ == "utf-8"@) && bom_of(bytes@).0 is None
            && !valid_utf8(bytes@) ==> r matches Err(DecodeError::InvalidData(_)),
        (input_encoding@ == "auto"@ || input_encoding@ == "utf-8"@) ==> forall|t: Seq<char>|
            bytes@ == encode_utf8(t) && !starts_with_mark(t) ==> #[trigger] decode_view(r) == Ok::<
                Seq<char>,
                (bool, Seq<char>),
            >(t),
{
    proof {
        assert forall|t: Seq<char>| bytes@ == encode_utf8(t) && !starts_with_mark(t) implies bom_of(bytes@).0 is None
            && valid_utf8(bytes@) && decode_utf8(bytes@) == t by {
            lemma_utf8_round_trip(t);
        }
    }
    let auto = chars_eq_str(input_encoding, "auto");
    if auto {
        let (bom_enc, bom_len) = detect_bom(bytes);
        match bom_enc {
            Some(enc) => {
                let cs = charset_for_label(enc);
                match cs {
                    Some(cs) => {
                        let rest = slice_skip(bytes, bom_len);
                        let (text, had_errors) = decode_no_bom_with(&cs, rest);
                        if had_errors {
                            return Err(DecodeError::InvalidData(concat3("invalid ", charset_name(&cs), " data after BOM")));
                        } else {
                            return Ok(text);
                        }
                    },
                    None => {
                        return Err(DecodeError::UnknownEncoding(concat2("unknown encoding: ", enc)));
                    },
                }
            },
            None => {},
        }
    }
    let enc_name: &str = if auto {
        "utf-8"
    } else {
        input_encoding
    };
    match charset_for_label(enc_name) {
        None => Err(DecodeError::UnknownEncoding(concat2("unknown encoding: ", enc_name))),
        Some(cs) => {
            let (text, had_errors) = decode_with(&cs, bytes);
            if had_errors {
                Err(DecodeError::InvalidData(concat3("invalid ", enc_name, " data")))
            } else {
                Ok(text)
            }
        },
    }
}

/// What the search reads of a source: its text; nothing when its bytes are
/// not text in their encoding (such a source is skipped silently); the
/// message when the encoding is unknown.
pub open spec fn source_text(bytes: Seq<u8>, input_encoding: Seq<char>) -> Result<Option<Seq<char>>, Seq<char>> {
    match decoded(bytes, input_encoding) {
        Ok(t) => Ok(Some(t)),
        Err((false, _)) => Ok(None),
        Err((true, m)) => Err(m),
    }
}

/// The view of what the search reads of a source.
pub open spec fn source_view(r: Result<Option<String>, String>) -> Result<Option<Seq<char>>, Seq<char>> {
    match r {
        Ok(Some(t)) => Ok(Some(t@)),
        Ok(None) => Ok(None),
        Err(m) => Err(m@),
    }
}

/// Reads a source for the search: its decoded text, `Ok(None)` for bytes
/// that are not text in their encoding (a binary file, skipped silently),
/// or the unknown-encoding message. Under `auto` or `utf-8`, bytes without
/// a byte order mark are skipped exactly when they are not valid UTF-8.
pub fn decode_source(bytes: &[u8], input_encoding: &str) -> (r: Result<Option<String>, String>)
    requires
        bytes@.len() < usize::MAX / 16,
    ensures
        source_view(r) == source_text(bytes@, input_encoding@),
        (input_encoding@ == "auto"@ || input_encoding@ == "utf-8"@) && bom_of(bytes@).0 is None ==> (r matches Ok(
            None,
        ) <==> !valid_utf8(bytes@)),
{
    match decode_bytes(bytes, input_encoding) {
        Ok(t) => Ok(Some(t)),
        Err(DecodeError::InvalidData(_)) => Ok(None),
        Err(DecodeError::UnknownEncoding(m)) => Err(m),
    }
}

/// Whether `a` and `b` hold the same characters.
pub fn chars_eq_str(a: &str, b: &str) -> (r: bool)
    ensures
        r == (a@ == b@),
{
    crate::text::chars_eq(&to_chars(a), &to_chars(b))
}

/// The bytes of `s` from position `n` on.
fn slice_skip(s: &[u8], n: usize) -> (r: &[u8])
    requires
        n <= s.len(),
    ensures
        r@ == s@.skip(n as int),
{
    vstd::slice::slice_subrange(s, n, s.len())
}

/// The label of the encoding used for output under `output_encoding`: an
/// empty or unknown label means `utf-8`.
pub open spec fn output_label(output_encoding: Seq<char>) -> Seq<char> {
    let label = if output_encoding.len() == 0 {
        "utf-8"@
    } else {
        output_encoding
    };
    if label_known(label) {
        label
    } else {
        "utf-8"@
    }
}

/// The two bytes of a UTF-16 code unit, high byte first when `big`.
pub open spec fn unit_bytes(u: int, big: bool) -> Seq<u8> {
    if big {
        seq![(u / 256) as u8, (u % 256) as u8]
    } else {
        seq![(u % 256) as u8, (u / 256) as u8]
    }
}

/// The UTF-16 bytes of one character: one code unit below `0x10000`, else a
/// surrogate pair.
pub open spec fn utf16_char_bytes(c: char, big: bool) -> Seq<u8> {
    let v = (c as u32) as int;
    if v < 0x10000 {
        unit_bytes(v, big)
    } else {
        let w = v - 0x10000;
        unit_bytes(0xD800 + w / 1024, big) + unit_bytes(0xDC00 + w % 1024, big)
    }
}

/// The UTF-16 bytes of a text, big-endian when `big`, without a byte
/// order mark.
pub open spec fn utf16_bytes(t: Seq<char>, big: bool) -> Seq<u8>
    decreases t.len(),
{
    if t.len() == 0 {
        seq![]
    } else {
        utf16_bytes(t.drop_last(), big) + utf16_char_bytes(t.last(), big)
    }
}

/// The bytes of a text in UTF-16, big-endian when `big`.
pub fn utf16_encode(text: &str, big: bool) -> (r: Vec<u8>)
    ensures
        r@ == utf16_bytes(text@, big),
{
    let cs = to_chars(text);
    let mut out: Vec<u8> = Vec::new();
    let mut i: usize = 0;
    while i < cs.len()
        invariant
            i <= cs.len(),
            cs@ == text@,
            out@ == utf16_bytes(cs@.take(i as int), big),
        decreases cs.len() - i,
    {
        assert(cs@.take(i + 1).drop_last() == cs@.take(i as int));
        let v: u32 = cs[i] as u32;
        proof {
            vstd::utf8::char_is_scalar(cs@[i as int]);
        }
        let ghost before = out@;
        if v < 0x10000 {
            push_unit(&mut out, v, big);
        } else {
            let w: u32 = v - 0x10000;
            assert(w < 0x100000);
            push_unit(&mut out, 0xD800 + w / 1024, big);
            push_unit(&mut out, 0xDC00 + w % 1024, big);
        }
        assert(out@ =~= before + utf16_char_bytes(cs@[i as int], big));
        i = i + 1;
    }
    assert(cs@.take(cs.len() as int) == cs@);
    out
}

/// Appends the two bytes of a code unit.
fn push_unit(out: &mut Vec<u8>, u: u32, big: bool)
    requires
        u < 0x10000,
    ensures
        final(out)@ == old(out)@ + unit_bytes(u as int, big),
{
    let hi: u8 = (u / 256) as u8;
    let lo: u8 = (u % 256) as u8;
    if big {
        out.push(hi);
        out.push(lo);
    } else {
        out.push(lo);
        out.push(hi);
    }
    assert(final(out)@ =~= old(out)@ + unit_bytes(u as int, big));
}

/// The bytes written for `text` under `output_encoding`: UTF-16 code units
/// when the encoding is UTF-16 (`Encoding::encode` writes UTF-8 there, as
/// the web's rules ask), else what `Encoding::encode` gives.
pub open spec fn output_bytes(output_encoding: Seq<char>, text: Seq<char>) -> Seq<u8> {
    let label = output_label(output_encoding);
    if encoding_name(label) == "UTF-16LE"@ {
        utf16_bytes(text, false)
    } else if encoding_name(label) == "UTF-16BE"@ {
        utf16_bytes(text, true)
    } else {
        encode_result(label, text)
    }
}

/// Encodes text for output. An empty or unknown `output_encoding` means
/// UTF-8; the UTF-16 encodings give UTF-16 code units.
pub fn encode_text(text: &str, output_encoding: &str) -> (r: Vec<u8>)
    requires
        text@.len() < usize::MAX / 64,
    ensures
        r@ == output_bytes(output_encoding@, text@),
        output_encoding@.len() == 0 || output_encoding@ == "utf-8"@ || !label_known(output_encoding@) ==> r@
            == encode_utf8(text@),
        output_encoding@ == "utf-16le"@ ==> r@ == utf16_bytes(text@, false),
        output_encoding@ == "utf-16be"@ ==> r@ == utf16_bytes(text@, true),
{
    let label: &str = if output_encoding.is_empty() {
        "utf-8"
    } else {
        output_encoding
    };
    let cs = match charset_for_label(label) {
        Some(cs) => cs,
        None => {
            match charset_for_label("utf-8") {
                Some(cs) => cs,
                None => vstd::pervasive::unreached(),
            }
        },
    };
    let name = charset_name(&cs);
    proof {
        reveal_strlit("utf-8");
        reveal_strlit("utf-16le");
        reveal_strlit("utf-16be");
        reveal_strlit("UTF-16LE");
        reveal_strlit("UTF-16BE");
        reveal_strlit("UTF-8");
        assert("UTF-8"@.len() == 5 && "UTF-16LE"@.len() == 8 && "UTF-16BE"@.len() == 8);
        assert("UTF-8"@ != "UTF-16LE"@);
        assert("UTF-8"@ != "UTF-16BE"@);
        assert("UTF-16LE"@ != "UTF-16BE"@) by {
            assert("UTF-16LE"@[6] != "UTF-16BE"@[6]);
        }
    }
    if chars_eq_str(name, "UTF-16LE") {
        utf16_encode(text, false)
    } else if chars_eq_str(name, "UTF-16BE") {
        utf16_encode(text, true)
    } else {
        encode_with(&cs, text)
    }
}

} // verus!
