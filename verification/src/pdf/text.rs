//! The texts in a file.

use super::object::ObjectView;
use super::object::PdfObject;
use crate::types;
use vstd::prelude::*;
use vstd::utf8::decode_utf8;
use vstd::utf8::encode_utf8;
use vstd::utf8::valid_utf8;

verus! {

/// The text that bytes stand for as UTF-8, with replacements for what is none.
pub uninterp spec fn lossy_text(bytes: Seq<u8>) -> Seq<char>;

/// `String::from_utf8_lossy` decodes UTF-8. Valid bytes give the text that they encode;
/// what replaces others is left unsaid, but it depends on the bytes alone.
#[verifier::external_body]
pub(crate) fn from_utf8_lossy(bytes: &Vec<u8>) -> (r: String)
    ensures
        r@ == lossy_text(bytes@),
        valid_utf8(bytes@) ==> r@ == decode_utf8(bytes@),
{
    String::from_utf8_lossy(bytes).into_owned()
}

/// Whether a unit of UTF-16 begins a pair.
pub open spec fn begins_pair(unit: u16) -> bool {
    0xd800 <= unit < 0xdc00
}

/// Whether a unit of UTF-16 ends a pair.
pub open spec fn ends_pair(unit: u16) -> bool {
    0xdc00 <= unit < 0xe000
}

/// The character that a pair of units stands for.
pub open spec fn paired(first: u16, second: u16) -> char {
    (0x10000 + (first - 0xd800) * 0x400 + (second - 0xdc00)) as char
}

/// The text that UTF-16 stands for, unless half of a pair is missing.
pub open spec fn utf16_text(units: Seq<u16>) -> Option<Seq<char>>
    decreases units.len(),
{
    if units.len() == 0 {
        Some(Seq::empty())
    } else if begins_pair(units[0]) {
        if units.len() > 1 && ends_pair(units[1]) {
            match utf16_text(units.skip(2)) {
                Some(rest) => Some(seq![paired(units[0], units[1])] + rest),
                None => None,
            }
        } else {
            None
        }
    } else if ends_pair(units[0]) {
        None
    } else {
        match utf16_text(units.skip(1)) {
            Some(rest) => Some(seq![units[0] as char] + rest),
            None => None,
        }
    }
}

/// `String::from_utf16` decodes UTF-16, and fails where half of a pair is missing.
#[verifier::external_body]
fn from_utf16(units: &Vec<u16>) -> (r: Option<String>)
    ensures
        r is Some <==> utf16_text(units@) is Some,
        r is Some ==> r->0@ == utf16_text(units@)->0,
{
    String::from_utf16(units).ok()
}

/// Whether a string is marked as UTF-16.
pub open spec fn marked(bytes: Seq<u8>) -> bool {
    bytes.len() >= 2 && bytes[0] == 0xfe && bytes[1] == 0xff
}

/// The first `n` units that bytes behind a mark make up.
pub open spec fn units(bytes: Seq<u8>, n: nat) -> Seq<u16> {
    Seq::new(n, |i: int| (bytes[2 + 2 * i] * 0x100 + bytes[3 + 2 * i]) as u16)
}

/// The text that a string stands for: as UTF-16 where it is marked so and its length is
/// even, else as UTF-8.
pub open spec fn text_of(bytes: Seq<u8>) -> Option<Seq<char>> {
    if marked(bytes) && bytes.len() % 2 == 0 {
        utf16_text(units(bytes, ((bytes.len() - 2) / 2) as nat))
    } else {
        Some(lossy_text(bytes))
    }
}

/// The units of UTF-16 that a character is written as.
pub open spec fn char_units(c: char) -> Seq<u16> {
    let v = c as int;
    if v < 0x10000 {
        seq![v as u16]
    } else {
        seq![(0xd800 + (v - 0x10000) / 0x400) as u16, (0xdc00 + (v - 0x10000) % 0x400) as u16]
    }
}

/// The units of UTF-16 that a text is written as.
pub open spec fn utf16_units(text: Seq<char>) -> Seq<u16>
    decreases text.len(),
{
    if text.len() == 0 {
        Seq::empty()
    } else {
        char_units(text[0]) + utf16_units(text.skip(1))
    }
}

/// Units of UTF-16 as bytes, the upper half of each first, behind the mark.
pub open spec fn marked_bytes(units: Seq<u16>) -> Seq<u8> {
    Seq::new(
        2 * units.len() + 2,
        |i: int|
            if i == 0 {
                0xfeu8
            } else if i == 1 {
                0xffu8
            } else if i % 2 == 0 {
                (units[(i - 2) / 2] / 0x100) as u8
            } else {
                (units[(i - 3) / 2] % 0x100) as u8
            },
    )
}

proof fn lemma_char_read_back(c: char)
    ensures
        (c as int) < 0x10000 ==> !begins_pair(c as int as u16) && !ends_pair(c as int as u16)
            && c as int as u16 as char == c,
        (c as int) >= 0x10000 ==> begins_pair(char_units(c)[0]) && ends_pair(char_units(c)[1])
            && paired(char_units(c)[0], char_units(c)[1]) == c,
{
    let v = c as int;
    assert(0 <= v <= 0x10ffff && !(0xd800 <= v < 0xe000));
}

proof fn lemma_utf16_read_back(text: Seq<char>)
    ensures
        utf16_text(utf16_units(text)) == Some(text),
    decreases text.len(),
{
    if text.len() == 0 {
        assert(text =~= Seq::<char>::empty());
    } else {
        let c = text[0];
        let v = c as int;
        let rest = utf16_units(text.skip(1));
        let all = utf16_units(text);
        lemma_utf16_read_back(text.skip(1));
        lemma_char_read_back(c);
        assert(text =~= seq![c] + text.skip(1));
        if v < 0x10000 {
            assert(all[0] == v as u16);
            assert(all.skip(1) =~= rest);
            assert(all[0] as char == c);
        } else {
            assert(all[0] == (0xd800 + (v - 0x10000) / 0x400) as u16);
            assert(all[1] == (0xdc00 + (v - 0x10000) % 0x400) as u16);
            assert(all.skip(2) =~= rest);
            assert(paired(all[0], all[1]) == c);
        }
    }
}

/// A text written as UTF-16 behind the mark is read as it was written; the mark is no part
/// of it.
pub proof fn law_marked_text_is_read_back(text: Seq<char>)
    ensures
        text_of(marked_bytes(utf16_units(text))) == Some(text),
{
    let all = utf16_units(text);
    let bytes = marked_bytes(all);
    lemma_utf16_read_back(text);
    assert(marked(bytes) && bytes.len() % 2 == 0);
    let n = ((bytes.len() - 2) / 2) as nat;
    assert forall|i: int| 0 <= i < n implies units(bytes, n)[i] == all[i] by {
        assert(bytes[2 + 2 * i] == (all[i] / 0x100) as u8);
        assert(bytes[3 + 2 * i] == (all[i] % 0x100) as u8);
    }
    assert(units(bytes, n) =~= all);
}

/// The text that a string stands for.
pub fn decode_bytes(bytes: &Vec<u8>) -> (r: Option<String>)
    ensures
        types::seen_text(r) == text_of(bytes@),
        valid_utf8(bytes@) ==> types::seen_text(r) == Some(decode_utf8(bytes@)),
        forall|text: Seq<char>|
            bytes@ == #[trigger] encode_utf8(text) ==> types::seen_text(r) == Some(text),
        forall|text: Seq<char>|
            bytes@ == marked_bytes(#[trigger] utf16_units(text)) ==> types::seen_text(r) == Some(
                text,
            ),
{
    broadcast use vstd::utf8::encode_utf8_valid_utf8, vstd::utf8::encode_utf8_decode_utf8;

    proof {
        assert(valid_utf8(bytes@) ==> !marked(bytes@));
        assert forall|text: Seq<char>| bytes@ == marked_bytes(#[trigger] utf16_units(text)) implies text_of(
            bytes@,
        ) == Some(text) by {
            law_marked_text_is_read_back(text);
        }
    }
    let n: usize = bytes.len();
    if n >= 2 && bytes[0] == 0xfe && bytes[1] == 0xff && n % 2 == 0 {
        let mut out: Vec<u16> = Vec::new();
        let mut idx: usize = 2;
        let ghost goal = units(bytes@, ((n - 2) / 2) as nat);
        while idx < n
            invariant
                2 <= idx <= n,
                n % 2 == 0,
                idx % 2 == 0,
                n == bytes@.len(),
                goal == units(bytes@, ((n - 2) / 2) as nat),
                out@ =~= goal.take((idx - 2) / 2),
            decreases n - idx,
        {
            let unit: u16 = bytes[idx] as u16 * 0x100 + bytes[idx + 1] as u16;
            assert(goal[(idx - 2) / 2] == unit);
            out.push(unit);
            idx = idx + 2;
        }
        assert(out@ =~= goal);
        from_utf16(&out)
    } else {
        Some(from_utf8_lossy(bytes))
    }
}

/// The text that an object stands for: a string or a name.
pub open spec fn object_text(object: ObjectView) -> Option<Seq<char>> {
    match object {
        ObjectView::Text(bytes, _) => text_of(bytes),
        ObjectView::Name(bytes) => Some(lossy_text(bytes)),
        _ => None,
    }
}

/// The text that an object stands for: a string or a name.
pub fn decode_pdf_string(object: &PdfObject) -> (r: Option<String>)
    ensures
        types::seen_text(r) == object_text(object@),
        object matches PdfObject::Text(bytes, _) ==> (valid_utf8(bytes@) ==> types::seen_text(r)
            == Some(decode_utf8(bytes@))),
        object matches PdfObject::Name(bytes) ==> (valid_utf8(bytes@) ==> types::seen_text(r)
            == Some(decode_utf8(bytes@))),
{
    match object {
        PdfObject::Text(bytes, _) => decode_bytes(bytes),
        PdfObject::Name(bytes) => Some(from_utf8_lossy(bytes)),
        _ => None,
    }
}

/// The text of a name.
pub open spec fn name_text(object: ObjectView) -> Option<Seq<char>> {
    match object {
        ObjectView::Name(bytes) => Some(lossy_text(bytes)),
        _ => None,
    }
}

/// The text of a name.
pub fn obj_to_name_string(object: &PdfObject) -> (r: Option<String>)
    ensures
        types::seen_text(r) == name_text(object@),
        object matches PdfObject::Name(bytes) ==> (valid_utf8(bytes@) ==> types::seen_text(r)
            == Some(decode_utf8(bytes@))),
{
    match object {
        PdfObject::Name(bytes) => Some(from_utf8_lossy(bytes)),
        _ => None,
    }
}

/// What a color space is called: its name, or that of its family.
pub open spec fn space_name(object: ObjectView) -> Seq<char> {
    match object {
        ObjectView::Name(bytes) => lossy_text(bytes),
        ObjectView::Array(items) => if items.len() > 0 {
            match name_text(items[0]) {
                Some(name) => name,
                None => "unknown"@,
            }
        } else {
            "unknown"@
        },
        _ => "unknown"@,
    }
}

/// What a color space is called: its name, or that of its family.
pub fn color_space_name(object: &PdfObject) -> (r: String)
    ensures
        r@ == space_name(object@),
{
    match object {
        PdfObject::Name(bytes) => from_utf8_lossy(bytes),
        PdfObject::Array(items) => {
            proof {
                super::object::lemma_array_view(*items);
            }
            if items.len() > 0 {
                match obj_to_name_string(&items[0]) {
                    Some(name) => name,
                    None => "unknown".to_owned(),
                }
            } else {
                "unknown".to_owned()
            }
        },
        _ => "unknown".to_owned(),
    }
}

/// The bytes that stand for a text in an encoding.
pub uninterp spec fn encoded_text(encoding: Seq<char>, text: Seq<char>) -> Seq<u8>;

/// The text that bytes stand for in an encoding, if the encoding is known.
pub uninterp spec fn decoded_text(encoding: Seq<char>, bytes: Seq<u8>) -> Option<Seq<char>>;

/// `lopdf::Encoding::string_to_bytes` writes a text in the encoding with the given name. What
/// it writes depends on the two alone.
#[verifier::external_body]
pub(crate) fn string_to_bytes(encoding: &str, text: &str) -> (r: Vec<u8>)
    ensures
        r@ == encoded_text(encoding@, text@),
{
    lopdf::Encoding::SimpleEncoding(encoding.as_bytes()).string_to_bytes(text)
}

/// `lopdf::Encoding::bytes_to_string` reads a text in the encoding with the given name. What
/// it reads depends on the two alone.
#[verifier::external_body]
pub(crate) fn bytes_to_string(encoding: &str, bytes: &Vec<u8>) -> (r: Option<String>)
    ensures
        types::seen_text(r) == decoded_text(encoding@, bytes@),
{
    lopdf::Encoding::SimpleEncoding(encoding.as_bytes()).bytes_to_string(bytes).ok()
}

} // verus!
