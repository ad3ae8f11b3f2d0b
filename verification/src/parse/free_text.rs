//! The appearance of a note that comes without one.

use super::numbers::RawBox;
use super::type3;
use crate::float::Float;
use crate::pdf::content;
use crate::pdf::content::read_operations;
use crate::pdf::file;
use crate::pdf::file::FileView;
use crate::pdf::file::PdfFile;
use crate::pdf::object;
use crate::pdf::object::copy_bytes;
use crate::pdf::object::obj_to_f64;
use crate::pdf::object::ContentView;
use crate::pdf::object::DictView;
use crate::pdf::object::Notation;
use crate::pdf::object::ObjectView;
use crate::pdf::object::OperationView;
use crate::pdf::object::PdfContent;
use crate::pdf::object::PdfDictionary;
use crate::pdf::object::PdfObject;
use crate::pdf::object::PdfOperation;
use crate::pdf::object::PlainBytes;
use crate::pdf::text;
use crate::pdf::text::decode_pdf_string;
use crate::pdf::text::bytes_to_string;
use crate::pdf::text::obj_to_name_string;
use crate::pdf::text::string_to_bytes;
use crate::strings;
use crate::types;
use vstd::prelude::*;
use vstd::utf8::decode_utf8;
use vstd::utf8::encode_utf8;
use vstd::utf8::valid_utf8;

verus! {

/// How many bytes the text of a note may have.
pub const MAX_CONTENT_BYTES: usize = 16384;

/// How many bytes its default appearance may have.
pub const MAX_DEFAULT_APPEARANCE_BYTES: usize = 4096;

/// How many of its lines are shown.
pub const MAX_LINES: usize = 256;

/// The bits of one tenth: the smallest size of a font.
pub const SMALLEST: u64 = 0x3fb9_9999_9999_999a;

/// The bits of 512: the largest size of a font.
pub const LARGEST: u64 = 0x4080_0000_0000_0000;

/// The bits of 1.2: the distance of lines for a font of size one.
pub const SPACING: u64 = 0x3ff3_3333_3333_3333;

/// The bits of two: the space around the text.
pub const MARGIN: u64 = 0x4000_0000_0000_0000;

/// The bits of four.
pub const FOUR: u64 = 0x4010_0000_0000_0000;

/// How many bytes a string or a name has.
pub open spec fn encoded_len(object: ObjectView) -> Option<nat> {
    match object {
        ObjectView::Text(bytes, _) => Some(bytes.len()),
        ObjectView::Name(bytes) => Some(bytes.len()),
        _ => None,
    }
}

fn encoded_string_len(object: &PdfObject) -> (r: Option<usize>)
    ensures
        match encoded_len(object@) {
            Some(n) => r matches Some(len) && len == n,
            None => r is None,
        },
{
    match object {
        PdfObject::Text(bytes, _) => Some(bytes.len()),
        PdfObject::Name(bytes) => Some(bytes.len()),
        _ => None,
    }
}

/// The font and its size that an operation sets.
pub open spec fn font_of(op: OperationView) -> Option<(Seq<u8>, Float)> {
    if op.0 == "Tf"@ && op.1.len() == 2 {
        match (op.1[0], object::number(op.1[1])) {
            (ObjectView::Name(key), Some(size)) => Some((key, size)),
            _ => None,
        }
    } else {
        None
    }
}

/// The font and its size that operations set last.
pub open spec fn last_font(ops: Seq<OperationView>) -> Option<(Seq<u8>, Float)>
    decreases ops.len(),
{
    if ops.len() == 0 {
        None
    } else {
        match font_of(ops.last()) {
            Some(found) => Some(found),
            None => last_font(ops.drop_last()),
        }
    }
}

/// The operations of a default appearance. Where an image may begin in it, they are `given`.
pub open spec fn appearance_operations(da: Seq<u8>, given: ContentView) -> Option<
    Seq<OperationView>,
> {
    if object::mentions_image(da) {
        content::operations_of(given)
    } else {
        content::decoded_content(da)
    }
}

/// The font and its size that a default appearance sets.
pub open spec fn default_font(da: Seq<u8>, given: ContentView) -> Option<(Seq<u8>, Float)> {
    match appearance_operations(da, given) {
        Some(ops) => last_font(ops),
        None => None,
    }
}

/// What is seen of a font with its size.
pub open spec fn seen_font(font: Option<(Vec<u8>, Float)>) -> Option<(Seq<u8>, Float)> {
    match font {
        Some((key, size)) => Some((key@, size)),
        None => None,
    }
}

fn find_font(op: &PdfOperation) -> (r: Option<(Vec<u8>, Float)>)
    ensures
        seen_font(r) == font_of(op@),
{
    proof {
        object::lemma_operation_view(*op);
    }
    if !strings::same_text(op.operator.as_str(), "Tf") || op.operands.len() != 2 {
        return None;
    }
    assert(op@.1[0] == op.operands@[0]@ && op@.1[1] == op.operands@[1]@);
    match (&op.operands[0], obj_to_f64(&op.operands[1])) {
        (PdfObject::Name(key), Some(size)) => Some((copy_bytes(key), size)),
        _ => None,
    }
}

/// The font and its size that a default appearance sets. Where an image may begin in it, its
/// operations are `given`.
pub fn parse_default_appearance(da: &Vec<u8>, given: &PdfContent) -> (r: Option<(Vec<u8>, Float)>)
    ensures
        seen_font(r) == default_font(da@, given@),
{
    let ops: Vec<PdfOperation> = match PlainBytes::new(copy_bytes(da)) {
        Some(plain) => match read_operations(&PdfContent::Bytes(plain)) {
            Some(ops) => ops,
            None => {
                return None;
            },
        },
        None => match read_operations(given) {
            Some(ops) => ops,
            None => {
                return None;
            },
        },
    };
    let ghost all = types::seen(ops@);
    let mut at: usize = ops.len();
    assert(all.take(at as int) =~= all);
    while at > 0
        invariant
            at <= ops@.len(),
            all == types::seen(ops@),
            default_font(da@, given@) == last_font(all),
            last_font(all) == last_font(all.take(at as int)),
        decreases at,
    {
        assert(all.take(at as int).last() == ops@[at - 1]@);
        assert(all.take(at as int).drop_last() =~= all.take(at - 1));
        match find_font(&ops[at - 1]) {
            Some(found) => {
                return Some(found);
            },
            None => (),
        }
        at = at - 1;
    }
    None
}

/// Whether a font is one of those that every reader has.
pub open spec fn standard(name: Seq<char>) -> bool {
    ||| name == "Courier"@
    ||| name == "Courier-Bold"@
    ||| name == "Courier-Oblique"@
    ||| name == "Courier-BoldOblique"@
    ||| name == "Helvetica"@
    ||| name == "Helvetica-Bold"@
    ||| name == "Helvetica-Oblique"@
    ||| name == "Helvetica-BoldOblique"@
    ||| name == "Times-Roman"@
    ||| name == "Times-Bold"@
    ||| name == "Times-Italic"@
    ||| name == "Times-BoldItalic"@
}

/// Whether a font is one of those that every reader has.
pub fn is_standard_latin_font(name: &str) -> (r: bool)
    ensures
        r == standard(name@),
{
    strings::same_text(name, "Courier") || strings::same_text(name, "Courier-Bold")
        || strings::same_text(name, "Courier-Oblique") || strings::same_text(
        name,
        "Courier-BoldOblique",
    ) || strings::same_text(name, "Helvetica") || strings::same_text(name, "Helvetica-Bold")
        || strings::same_text(name, "Helvetica-Oblique") || strings::same_text(
        name,
        "Helvetica-BoldOblique",
    ) || strings::same_text(name, "Times-Roman") || strings::same_text(name, "Times-Bold")
        || strings::same_text(name, "Times-Italic") || strings::same_text(name, "Times-BoldItalic")
}

/// The name that a dictionary of fonts gives for the font under a key.
pub open spec fn listed_font(file: FileView, fonts: DictView, key: Seq<u8>) -> Option<Seq<char>> {
    match object::entry(fonts, key) {
        Some(o) => match type3::some_dictionary(file, o) {
            Some(font) => match object::named(font, "BaseFont"@) {
                Some(name) => text::name_text(name),
                None => None,
            },
            None => None,
        },
        None => None,
    }
}

/// The name of the font under a key: the one listed, else the key itself.
pub open spec fn base_font(file: FileView, fonts: DictView, key: Seq<u8>) -> Option<Seq<char>> {
    match listed_font(file, fonts, key) {
        Some(name) => Some(name),
        None => if valid_utf8(key) {
            Some(decode_utf8(key))
        } else {
            None
        },
    }
}

/// A dictionary with an entry whose key is the encoding of a text.
pub open spec fn and_entry(dict: DictView, key: Seq<char>, value: ObjectView) -> DictView {
    object::with_entry(dict, encode_utf8(key), value)
}

/// A name that is the encoding of a text.
pub open spec fn name(of: Seq<char>) -> ObjectView {
    ObjectView::Name(encode_utf8(of))
}

/// The dictionary of a standard font.
pub open spec fn font_dictionary(base: Seq<char>) -> DictView {
    and_entry(
        and_entry(
            and_entry(
                and_entry(Seq::empty(), "Type"@, name("Font"@)),
                "Subtype"@,
                name("Type1"@),
            ),
            "BaseFont"@,
            name(base),
        ),
        "Encoding"@,
        name("WinAnsiEncoding"@),
    )
}

/// The fonts of resources; none where there are none.
pub open spec fn fonts_of(file: FileView, resources: DictView) -> Option<DictView> {
    match object::named(resources, "Font"@) {
        Some(o) => type3::some_dictionary(file, o),
        None => Some(Seq::empty()),
    }
}

/// The resources with a standard font under a key, if the font under it is one.
pub open spec fn with_standard_font(file: FileView, resources: DictView, key: Seq<u8>) -> Option<
    DictView,
> {
    match fonts_of(file, resources) {
        None => None,
        Some(fonts) => match base_font(file, fonts, key) {
            None => None,
            Some(base) => if standard(base) {
                Some(
                    and_entry(
                        resources,
                        "Font"@,
                        ObjectView::Dictionary(
                            object::with_entry(
                                fonts,
                                key,
                                ObjectView::Dictionary(font_dictionary(base)),
                            ),
                        ),
                    ),
                )
            } else {
                None
            },
        },
    }
}

fn find_listed_font(file: &PdfFile, fonts: &PdfDictionary, key: &Vec<u8>) -> (r: Option<String>)
    ensures
        types::seen_text(r) == listed_font(file@, fonts@, key@),
{
    let font: &PdfObject = match fonts.get_bytes(key) {
        Some(o) => o,
        None => {
            return None;
        },
    };
    match file.object_to_dict(font) {
        Ok(font) => match font.get("BaseFont") {
            Some(name) => obj_to_name_string(name),
            None => None,
        },
        Err(_) => None,
    }
}

fn put_name(dict: &mut PdfDictionary, key: &str, value: &str)
    ensures
        final(dict)@ == and_entry(old(dict)@, key@, name(value@)),
{
    dict.set(strings::bytes_of(key), PdfObject::Name(strings::bytes_of(value)));
}

/// The resources with a standard font under a key, if the font under it is one.
pub fn resources_with_standard_font(
    file: &PdfFile,
    page_resources: &PdfDictionary,
    font_key: &Vec<u8>,
) -> (r: Option<PdfDictionary>)
    ensures
        match with_standard_font(file@, page_resources@, font_key@) {
            Some(dict) => r matches Some(found) && found@ == dict,
            None => r is None,
        },
{
    let mut fonts: PdfDictionary = match page_resources.get("Font") {
        Some(o) => match file.object_to_dict(o) {
            Ok(dict) => dict.copy(),
            Err(_) => {
                return None;
            },
        },
        None => PdfDictionary::new(),
    };
    let base: String = match find_listed_font(file, &fonts, font_key) {
        Some(name) => name,
        None => match strings::from_utf8(copy_bytes(font_key)) {
            Some(name) => name,
            None => {
                return None;
            },
        },
    };
    if !is_standard_latin_font(base.as_str()) {
        return None;
    }
    let mut font: PdfDictionary = PdfDictionary::new();
    put_name(&mut font, "Type", "Font");
    put_name(&mut font, "Subtype", "Type1");
    put_name(&mut font, "BaseFont", base.as_str());
    put_name(&mut font, "Encoding", "WinAnsiEncoding");
    fonts.set(copy_bytes(font_key), PdfObject::Dictionary(font));
    let mut resources: PdfDictionary = page_resources.copy();
    resources.set(strings::bytes_of("Font"), PdfObject::Dictionary(fonts));
    Some(resources)
}

/// An appearance: the operations that draw it, and what is said of it.
#[derive(Debug)]
pub struct Appearance {
    pub operations: Vec<PdfOperation>,
    pub dict: PdfDictionary,
}

/// What is seen of an [`Appearance`].
#[verifier::ext_equal]
pub struct AppearanceView {
    pub operations: Seq<OperationView>,
    pub dict: DictView,
}

impl View for Appearance {
    type V = AppearanceView;

    open spec fn view(&self) -> AppearanceView {
        AppearanceView { operations: types::seen(self.operations@), dict: self.dict@ }
    }
}

/// A number as an object.
pub open spec fn single(x: Float) -> ObjectView {
    ObjectView::Real(x.narrowed())
}

/// A line of text, the bytes that stand for it, and what they are read as.
#[derive(Debug)]
pub struct EncodedLine {
    pub line: String,
    pub bytes: Vec<u8>,
    pub back: Option<String>,
}

/// What is seen of an [`EncodedLine`].
pub struct EncodedView {
    pub line: Seq<char>,
    pub bytes: Seq<u8>,
    pub back: Option<Seq<char>>,
}

impl View for EncodedLine {
    type V = EncodedView;

    open spec fn view(&self) -> EncodedView {
        EncodedView {
            line: self.line@,
            bytes: self.bytes@,
            back: types::seen_text(self.back),
        }
    }
}

/// A line in the encoding that appearances are written in.
pub open spec fn encoded_line(line: Seq<char>) -> EncodedView {
    let bytes = text::encoded_text("WinAnsiEncoding"@, line);
    EncodedView { line, bytes, back: text::decoded_text("WinAnsiEncoding"@, bytes) }
}

/// The lines in the encoding that appearances are written in.
pub open spec fn encoded_lines(lines: Seq<Seq<char>>) -> Seq<EncodedView> {
    lines.map_values(|line: Seq<char>| encoded_line(line))
}

/// The operations that show the first `n` lines; none where a line is not read as it was
/// written.
pub open spec fn line_operations(lines: Seq<EncodedView>, n: nat, leading: Float) -> Option<
    Seq<OperationView>,
>
    decreases n,
{
    if n == 0 || n > lines.len() {
        Some(Seq::empty())
    } else {
        match line_operations(lines, (n - 1) as nat, leading) {
            None => None,
            Some(before) => {
                let line = lines[n - 1];
                let moved = if n > 1 {
                    before.push(
                        (
                            "Td"@,
                            seq![
                                ObjectView::Integer(0),
                                ObjectView::Real(leading.narrowed().negated()),
                            ],
                        ),
                    )
                } else {
                    before
                };
                if line.back == Some(line.line) {
                    Some(
                        moved.push(("Tj"@, seq![ObjectView::Text(line.bytes, Notation::Literal)])),
                    )
                } else {
                    None
                }
            },
        }
    }
}

/// The lines of a text that are shown.
pub open spec fn shown_lines(text: Seq<char>) -> Seq<Seq<char>> {
    let lines = strings::lines_of(text);
    if lines.len() > MAX_LINES {
        lines.take(MAX_LINES as int)
    } else {
        lines
    }
}

/// The space around the text.
pub open spec fn padding(width: Float, height: Float) -> Float {
    let four = Float { bits: FOUR };
    (Float { bits: MARGIN }).smaller(width.over(four)).smaller(height.over(four))
}

/// The operations before the first line.
pub open spec fn opening(key: Seq<u8>, size: Float, width: Float, height: Float) -> Seq<
    OperationView,
> {
    let pad = padding(width, height);
    let baseline = height.minus(size).minus(pad).larger(pad);
    seq![
        ("BT"@, Seq::empty()),
        ("Tf"@, seq![ObjectView::Name(key), single(size)]),
        ("Td"@, seq![single(pad), single(baseline)]),
    ]
}

/// Whether a note can have an appearance with the given measures.
pub open spec fn measurable(width: Float, height: Float, size: Float) -> bool {
    let zero = Float { bits: 0 };
    &&& width.finite()
    &&& height.finite()
    &&& zero.less(width)
    &&& zero.less(height)
    &&& size.finite()
    &&& (Float { bits: SMALLEST }).at_most(size)
    &&& size.at_most(Float { bits: LARGEST })
}

/// What is said of an appearance.
pub open spec fn appearance_dictionary(width: Float, height: Float, resources: DictView) -> DictView {
    and_entry(
        and_entry(
            and_entry(
                and_entry(Seq::empty(), "Type"@, name("XObject"@)),
                "Subtype"@,
                name("Form"@),
            ),
            "BBox"@,
            ObjectView::Array(
                seq![
                    ObjectView::Integer(0),
                    ObjectView::Integer(0),
                    single(width),
                    single(height),
                ],
            ),
        ),
        "Resources"@,
        ObjectView::Dictionary(resources),
    )
}

/// The text of a note, if it is neither too long nor empty.
pub open spec fn note_text(annotation: DictView) -> Option<Seq<char>> {
    match object::named(annotation, "Contents"@) {
        None => None,
        Some(o) => match encoded_len(o) {
            None => None,
            Some(n) => if n > MAX_CONTENT_BYTES {
                None
            } else {
                match text::object_text(o) {
                    Some(t) => if t.len() == 0 {
                        None
                    } else {
                        Some(t)
                    },
                    None => None,
                }
            },
        },
    }
}

/// The default appearance of a note, if it is not too long.
pub open spec fn note_appearance(annotation: DictView) -> Option<Seq<u8>> {
    match object::named(annotation, "DA"@) {
        Some(ObjectView::Text(bytes, _)) => if bytes.len() <= MAX_DEFAULT_APPEARANCE_BYTES {
            Some(bytes)
        } else {
            None
        },
        _ => None,
    }
}

/// The appearance with the given lines, font and measures.
pub open spec fn drawn_lines(
    lines: Seq<EncodedView>,
    key: Seq<u8>,
    size: Float,
    width: Float,
    height: Float,
    resources: DictView,
) -> Option<AppearanceView> {
    if !measurable(width, height, size) {
        None
    } else {
        match line_operations(lines, lines.len(), size.times(Float { bits: SPACING })) {
            None => None,
            Some(ops) => if lines.len() == 0 {
                None
            } else {
                Some(
                    AppearanceView {
                        operations: (opening(key, size, width, height) + ops).push(
                            ("ET"@, Seq::empty()),
                        ),
                        dict: appearance_dictionary(width, height, resources),
                    },
                )
            },
        }
    }
}

/// The appearance of a note in the given box.
pub open spec fn synthesized(
    file: FileView,
    annotation: DictView,
    rect: RawBox,
    resources: DictView,
    given: ContentView,
) -> Option<AppearanceView> {
    match note_text(annotation) {
        None => None,
        Some(text) => match note_appearance(annotation) {
            None => None,
            Some(da) => match default_font(da, given) {
                None => None,
                Some((key, size)) => match with_standard_font(file, resources, key) {
                    None => None,
                    Some(all) => drawn_lines(
                        encoded_lines(shown_lines(text)),
                        key,
                        size,
                        rect.2.minus(rect.0).absolute(),
                        rect.3.minus(rect.1).absolute(),
                        all,
                    ),
                },
            },
        },
    }
}

fn find_note_text(annotation: &PdfDictionary) -> (r: Option<String>)
    ensures
        types::seen_text(r) == note_text(annotation@),
{
    let contents: &PdfObject = match annotation.get("Contents") {
        Some(o) => o,
        None => {
            return None;
        },
    };
    match encoded_string_len(contents) {
        None => {
            return None;
        },
        Some(n) => {
            if n > MAX_CONTENT_BYTES {
                return None;
            }
        },
    }
    match decode_pdf_string(contents) {
        Some(t) => {
            if t.as_str().is_empty() {
                None
            } else {
                Some(t)
            }
        },
        None => None,
    }
}

fn operation(operator: &str, operands: Vec<PdfObject>) -> (r: PdfOperation)
    ensures
        r@ == (operator@, types::seen(operands@)),
{
    let r: PdfOperation = PdfOperation { operator: operator.to_owned(), operands };
    proof {
        object::lemma_operation_view(r);
    }
    r
}

fn bare(operator: &str) -> (r: PdfOperation)
    ensures
        r@ == (operator@, Seq::<ObjectView>::empty()),
{
    let none: Vec<PdfObject> = Vec::new();
    assert(types::seen(none@) =~= Seq::<ObjectView>::empty());
    operation(operator, none)
}

fn with_one(operator: &str, a: PdfObject) -> (r: PdfOperation)
    ensures
        r@ == (operator@, seq![a@]),
{
    let mut operands: Vec<PdfObject> = Vec::new();
    operands.push(a);
    assert(types::seen(operands@) =~= seq![a@]);
    operation(operator, operands)
}

fn with_two(operator: &str, a: PdfObject, b: PdfObject) -> (r: PdfOperation)
    ensures
        r@ == (operator@, seq![a@, b@]),
{
    let mut operands: Vec<PdfObject> = Vec::new();
    operands.push(a);
    operands.push(b);
    assert(types::seen(operands@) =~= seq![a@, b@]);
    operation(operator, operands)
}

/// The lines in the encoding that appearances are written in.
fn encode_lines(lines: &Vec<String>) -> (r: Vec<EncodedLine>)
    ensures
        types::seen(r@) == encoded_lines(types::seen(lines@)),
{
    let ghost goal = encoded_lines(types::seen(lines@));
    let mut out: Vec<EncodedLine> = Vec::new();
    for i in 0..lines.len()
        invariant
            goal == encoded_lines(types::seen(lines@)),
            types::seen(out@) =~= goal.take(i as int),
    {
        let line: String = lines[i].clone();
        let bytes: Vec<u8> = string_to_bytes("WinAnsiEncoding", line.as_str());
        let back: Option<String> = bytes_to_string("WinAnsiEncoding", &bytes);
        let encoded: EncodedLine = EncodedLine { line, bytes, back };
        proof {
            types::lemma_seen_push(out@, encoded);
            assert(goal[i as int] == encoded@);
        }
        out.push(encoded);
    }
    assert(goal.take(lines@.len() as int) =~= goal);
    out
}

/// The operations that show the lines; none where a line is not read as it was written.
fn show_lines(lines: &Vec<EncodedLine>, leading: Float) -> (r: Option<Vec<PdfOperation>>)
    ensures
        content::seen_operations(r) == line_operations(
            types::seen(lines@),
            lines@.len(),
            leading,
        ),
{
    let ghost all = types::seen(lines@);
    let n: usize = lines.len();
    let mut out: Vec<PdfOperation> = Vec::new();
    assert(types::seen(out@) =~= Seq::<OperationView>::empty());
    for i in 0..n
        invariant
            n == lines@.len(),
            all == types::seen(lines@),
            line_operations(all, i as nat, leading) == Some(types::seen(out@)),
    {
        let line: &EncodedLine = &lines[i];
        assert(all[i as int] == line@);
        let readable: bool = match &line.back {
            Some(back) => strings::same_text(back.as_str(), line.line.as_str()),
            None => false,
        };
        if !readable {
            proof {
                lemma_line_fails(all, (i + 1) as nat, n as nat, leading);
            }
            return None;
        }
        if i > 0 {
            let step: PdfOperation = with_two(
                "Td",
                PdfObject::Integer(0),
                PdfObject::Real(leading.narrow().neg()),
            );
            proof {
                types::lemma_seen_push(out@, step);
            }
            out.push(step);
        }
        let show: PdfOperation = with_one(
            "Tj",
            PdfObject::Text(copy_bytes(&line.bytes), Notation::Literal),
        );
        proof {
            types::lemma_seen_push(out@, show);
        }
        out.push(show);
    }
    Some(out)
}

proof fn lemma_line_fails(lines: Seq<EncodedView>, k: nat, n: nat, leading: Float)
    requires
        0 < k <= n <= lines.len(),
        line_operations(lines, k, leading) is None,
    ensures
        line_operations(lines, n, leading) is None,
    decreases n,
{
    if k < n {
        lemma_line_fails(lines, k, (n - 1) as nat, leading);
    }
}

fn find_shown_lines(text: &str) -> (r: Vec<String>)
    ensures
        types::seen(r@) == shown_lines(text@),
{
    let mut lines: Vec<String> = strings::lines(text);
    let ghost all = types::seen(lines@);
    assert(all.len() == lines@.len());
    lines.truncate(MAX_LINES);
    assert(types::seen(lines@) =~= shown_lines(text@));
    lines
}

fn describe(width: Float, height: Float, resources: PdfDictionary) -> (r: PdfDictionary)
    ensures
        r@ == appearance_dictionary(width, height, resources@),
{
    let mut dict: PdfDictionary = PdfDictionary::new();
    put_name(&mut dict, "Type", "XObject");
    put_name(&mut dict, "Subtype", "Form");
    let mut bbox: Vec<PdfObject> = Vec::new();
    bbox.push(PdfObject::Integer(0));
    bbox.push(PdfObject::Integer(0));
    bbox.push(PdfObject::Real(width.narrow()));
    bbox.push(PdfObject::Real(height.narrow()));
    assert(types::seen(bbox@) =~= seq![
        ObjectView::Integer(0),
        ObjectView::Integer(0),
        single(width),
        single(height),
    ]);
    proof {
        object::lemma_array_view(bbox);
    }
    dict.set(strings::bytes_of("BBox"), PdfObject::Array(bbox));
    dict.set(strings::bytes_of("Resources"), PdfObject::Dictionary(resources));
    dict
}

/// The appearance with the given lines, font and measures; none where a measure is out of
/// range, where there is no line, or where a line is not read as it was written.
pub fn draw_lines(
    lines: &Vec<EncodedLine>,
    key: Vec<u8>,
    size: Float,
    width: Float,
    height: Float,
    resources: PdfDictionary,
) -> (r: Option<Appearance>)
    ensures
        match drawn_lines(types::seen(lines@), key@, size, width, height, resources@) {
            Some(view) => r matches Some(found) && found@ == view,
            None => r is None,
        },
{
    let zero: Float = Float { bits: 0 };
    if !width.is_finite() || !height.is_finite() || !zero.lt(width) || !zero.lt(height)
        || !size.is_finite() || !(Float { bits: SMALLEST }).le(size) || !size.le(
        Float { bits: LARGEST },
    ) {
        return None;
    }
    let leading: Float = size.mul(Float { bits: SPACING });
    let four: Float = Float { bits: FOUR };
    let pad: Float = (Float { bits: MARGIN }).min(width.div(four)).min(height.div(four));
    let baseline: Float = height.sub(size).sub(pad).max(pad);
    assert(types::seen(lines@).len() == lines@.len());
    let mut shown: Vec<PdfOperation> = match show_lines(lines, leading) {
        Some(ops) => ops,
        None => {
            return None;
        },
    };
    if lines.len() == 0 {
        return None;
    }
    let ghost wanted = opening(key@, size, width, height);
    let mut operations: Vec<PdfOperation> = Vec::new();
    operations.push(bare("BT"));
    operations.push(with_two("Tf", PdfObject::Name(key), PdfObject::Real(size.narrow())));
    operations.push(
        with_two("Td", PdfObject::Real(pad.narrow()), PdfObject::Real(baseline.narrow())),
    );
    assert(types::seen(operations@) =~= wanted);
    proof {
        types::lemma_seen_add(operations@, shown@);
    }
    operations.append(&mut shown);
    let end: PdfOperation = bare("ET");
    proof {
        types::lemma_seen_push(operations@, end);
    }
    operations.push(end);
    Some(Appearance { operations, dict: describe(width, height, resources) })
}

/// The appearance of a note in the given box, in the font that its default appearance names.
/// Where an image may begin in that, its operations are `given`.
pub fn synthesize(
    file: &PdfFile,
    annotation: &PdfDictionary,
    rect: RawBox,
    page_resources: &PdfDictionary,
    given: &PdfContent,
) -> (r: Option<Appearance>)
    ensures
        match synthesized(file@, annotation@, rect, page_resources@, given@) {
            Some(view) => r matches Some(found) && found@ == view,
            None => r is None,
        },
{
    let text: String = match find_note_text(annotation) {
        Some(text) => text,
        None => {
            return None;
        },
    };
    let da: &Vec<u8> = match annotation.get("DA") {
        Some(PdfObject::Text(bytes, _)) => bytes,
        _ => {
            return None;
        },
    };
    if da.len() > MAX_DEFAULT_APPEARANCE_BYTES {
        return None;
    }
    let (key, size) = match parse_default_appearance(da, given) {
        Some(font) => font,
        None => {
            return None;
        },
    };
    let resources: PdfDictionary = match resources_with_standard_font(file, page_resources, &key) {
        Some(resources) => resources,
        None => {
            return None;
        },
    };
    let width: Float = rect.2.sub(rect.0).abs();
    let height: Float = rect.3.sub(rect.1).abs();
    let lines: Vec<EncodedLine> = encode_lines(&find_shown_lines(text.as_str()));
    draw_lines(&lines, key, size, width, height, resources)
}

} // verus!
