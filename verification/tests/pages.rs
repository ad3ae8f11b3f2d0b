use pdfplumber::error::Error;
use pdfplumber::error::FileError;
use pdfplumber::float::convert::Single;
use pdfplumber::float::Float;
use pdfplumber::parse::collector::straight_line_from_path;
use pdfplumber::parse::collector::CollectorOutput;
use pdfplumber::parse::collector::PathOp;
use pdfplumber::parse::document::parse_pages;
use pdfplumber::parse::free_text::draw_lines;
use pdfplumber::parse::free_text::is_standard_latin_font;
use pdfplumber::parse::free_text::parse_default_appearance;
use pdfplumber::parse::free_text::resources_with_standard_font;
use pdfplumber::parse::free_text::synthesize;
use pdfplumber::parse::free_text::EncodedLine;
use pdfplumber::parse::images::collect_images;
use pdfplumber::parse::page::parse_page;
use pdfplumber::parse::page::plan_page;
use pdfplumber::parse::page_geometry::PageGeometry;
use pdfplumber::parse::page_paths;
use pdfplumber::parse::page_paths::close_path;
use pdfplumber::parse::type3;
use pdfplumber::parse::type3::actual_text;
use pdfplumber::parse::type3::font::CodePoint;
use pdfplumber::parse::type3::font::FontEntry;
use pdfplumber::parse::type3::font::FontOutcome;
use pdfplumber::parse::type3::font::Glyph;
use pdfplumber::parse::type3::font::Type3Font;
use pdfplumber::parse::type3::marked_actual_text;
use pdfplumber::parse::type3::same_glyph_slot;
use pdfplumber::parse::type3::MarkedActualText;
use pdfplumber::pdf::content::form_bytes;
use pdfplumber::pdf::content::read_operations;
use pdfplumber::pdf::file::slot_of;
use pdfplumber::pdf::file::PdfFile;
use pdfplumber::pdf::object::Notation;
use pdfplumber::pdf::object::ObjectId;
use pdfplumber::pdf::object::PdfContent;
use pdfplumber::pdf::object::PdfDictionary;
use pdfplumber::pdf::object::PdfObject;
use pdfplumber::pdf::object::PdfOperation;
use pdfplumber::pdf::object::PdfStream;
use pdfplumber::pdf::object::PlainBytes;
use pdfplumber::transform::Transform;
use pdfplumber::types::Char;
use pdfplumber::types::Page;
use pdfplumber::types::PathCommand;
use pdfplumber::types::Point;
use std::collections::HashMap;

fn f(v: f64) -> Float {
    Float { bits: v.to_bits() }
}

fn n(v: Float) -> f64 {
    f64::from_bits(v.bits)
}

fn at(x: f64, y: f64) -> Point {
    Point { x: f(x), y: f(y) }
}

fn xy(p: Point) -> (f64, f64) {
    (n(p.x), n(p.y))
}

fn name(text: &str) -> PdfObject {
    PdfObject::Name(text.as_bytes().to_vec())
}

fn text(bytes: &[u8]) -> PdfObject {
    PdfObject::Text(bytes.to_vec(), Notation::Literal)
}

fn ints(values: &[i64]) -> PdfObject {
    PdfObject::Array(values.iter().map(|v| PdfObject::Integer(*v)).collect())
}

fn dict(entries: Vec<(&str, PdfObject)>) -> PdfDictionary {
    let mut out: PdfDictionary = PdfDictionary::new();
    for (key, value) in entries {
        out.set(key.as_bytes().to_vec(), value);
    }
    out
}

fn content(code: &str) -> PdfContent {
    PdfContent::Bytes(PlainBytes::new(code.as_bytes().to_vec()).unwrap())
}

fn stream(entries: Vec<(&str, PdfObject)>, code: &str) -> PdfObject {
    PdfObject::Stream(PdfStream { dict: dict(entries), content: content(code) })
}

fn file(objects: Vec<(ObjectId, PdfObject)>, contents: Vec<(ObjectId, PdfContent)>) -> PdfFile {
    let mut map: HashMap<u64, PdfObject> = HashMap::new();
    for (id, object) in objects {
        map.insert(slot_of(id), object);
    }
    let mut streams: HashMap<u64, PdfContent> = HashMap::new();
    for (id, c) in contents {
        streams.insert(slot_of(id), c);
    }
    PdfFile { objects: map, trailer: PdfDictionary::new(), contents: streams }
}

fn shown(error: Error) -> String {
    match error {
        Error::Lopdf(e) => format!("{:?}", e),
        Error::Csv(t) => t,
        Error::Type(t, o) => format!("{}{:?}", t, o),
        Error::Message(t) => t,
        other => format!("{:?}", other),
    }
}

fn geometry() -> PageGeometry {
    PageGeometry::from_media_box((f(0.0), f(0.0), f(200.0), f(100.0)), 0, f(1000.0))
}

fn moved(x: f64, y: f64) -> Transform {
    Transform::create_translation(f(x), f(y))
}

#[test]
fn turned_pages_are_measured_as_they_are_shown() {
    let turned = |rotation: i32| {
        PageGeometry::from_media_box((f(210.0), f(105.0), f(10.0), f(5.0)), rotation, f(0.0))
    };
    let upright: PageGeometry = turned(0);
    assert_eq!((n(upright.width), n(upright.height)), (200.0, 100.0));
    assert_eq!(xy(upright.map_raw_point(f(40.0), f(15.0))), (30.0, 90.0));
    let right: PageGeometry = turned(90);
    assert_eq!((n(right.width), n(right.height)), (100.0, 200.0));
    assert_eq!(xy(right.map_raw_point(f(40.0), f(15.0))), (10.0, 30.0));
    assert_eq!(xy(turned(180).map_raw_point(f(40.0), f(15.0))), (170.0, 10.0));
    assert_eq!(xy(turned(270).map_raw_point(f(40.0), f(15.0))), (90.0, 170.0));
    assert_eq!(xy(turned(-360).map_raw_point(f(40.0), f(15.0))), (30.0, 90.0));
    assert_eq!(xy(turned(44).map_raw_point(f(40.0), f(15.0))), (30.0, 90.0));
    let b = right.page_bbox();
    assert_eq!((n(b.x0), n(b.top), n(b.x1), n(b.bottom)), (0.0, 0.0, 100.0, 200.0));
    assert_eq!(n(geometry().doctop(f(5.0))), 1005.0);
}

#[test]
fn characters_stand_on_their_baseline() {
    let mut out: CollectorOutput = CollectorOutput::new(geometry(), 7);
    out.push_char(&moved(10.0, 20.0), f(0.5), f(10.0), "A");
    out.push_char(
        &Transform { m11: f(0.0), m12: f(1.0), m21: f(-1.0), m22: f(0.0), m31: f(50.0), m32: f(50.0) },
        f(-1.0),
        f(10.0),
        "B",
    );
    let (chars, lines, rects, curves) = out.finish();
    assert_eq!((lines.len(), rects.len(), curves.len()), (0, 0, 0));
    let a: &Char = &chars[0];
    let descent: f64 = 10.0 * 0.207;
    let low: f64 = 100.0 - (0.0 + -descent + 20.0);
    let high: f64 = 100.0 - (0.0 + (10.0 - descent) + 20.0);
    assert_eq!((n(a.x0), n(a.x1)), (10.0, 15.0));
    assert_eq!((n(a.top), n(a.bottom)), (high, low));
    assert_eq!((n(a.y0), n(a.y1)), (100.0 - low, 100.0 - high));
    assert_eq!(n(a.doctop), 1000.0 + high);
    assert_eq!((n(a.width), n(a.height)), (5.0, low - high));
    assert_eq!((n(a.adv), n(a.size)), (5.0, ((high - low) * (high - low)).sqrt()));
    assert!(a.upright);
    assert_eq!((a.text.as_str(), a.fontname.as_str(), a.object_type.as_str()), ("A", "unknown", "char"));
    assert_eq!(a.page_number, 7);
    assert_eq!(n(chars[1].adv), 0.0);
    assert!(chars[1].upright);
    assert_eq!(n(chars[1].width), 10.0);
}

#[test]
fn paths_become_rectangles_lines_or_curves() {
    let mut out: CollectorOutput = CollectorOutput::new(geometry(), 1);
    let ctm: Transform = moved(1.0, 2.0);
    out.push_path(&ctm, &Vec::new(), true, false);
    out.push_path(&ctm, &vec![PathOp::Rect(f(10.0), f(20.0), f(-5.0), f(30.0))], false, true);
    out.push_path(&ctm, &vec![PathOp::MoveTo(f(0.0), f(0.0)), PathOp::LineTo(f(9.0), f(0.0))], true, false);
    out.push_path(
        &ctm,
        &vec![
            PathOp::MoveTo(f(0.0), f(0.0)),
            PathOp::CurveTo(f(1.0), f(1.0), f(2.0), f(1.0), f(3.0), f(0.0)),
            PathOp::Close,
        ],
        true,
        true,
    );
    out.push_path(&ctm, &vec![PathOp::Close], true, true);
    out.push_path(
        &ctm,
        &vec![PathOp::Rect(f(0.0), f(0.0), f(1.0), f(1.0)), PathOp::Rect(f(5.0), f(5.0), f(1.0), f(1.0))],
        true,
        false,
    );
    let (chars, lines, rects, curves) = out.finish();
    assert_eq!((chars.len(), lines.len(), rects.len(), curves.len()), (0, 1, 1, 1));
    let r = &rects[0];
    assert_eq!((n(r.x0), n(r.top), n(r.x1), n(r.bottom)), (6.0, 48.0, 11.0, 78.0));
    assert_eq!((n(r.y0), n(r.y1), n(r.doctop)), (22.0, 52.0, 1048.0));
    assert!(!r.stroke && r.fill);
    assert_eq!(r.pts.iter().map(|p| xy(*p)).collect::<Vec<_>>(), vec![(11.0, 78.0), (6.0, 78.0), (6.0, 48.0), (11.0, 48.0)]);
    assert!(matches!(&r.path[0], PathCommand::Rect { x, y, width, height }
        if (n(*x), n(*y), n(*width), n(*height)) == (6.0, 48.0, 5.0, 30.0)));
    let l = &lines[0];
    assert_eq!((n(l.x0), n(l.top), n(l.x1), n(l.bottom)), (1.0, 98.0, 10.0, 98.0));
    assert!(l.stroke && !l.fill);
    let c = &curves[0];
    assert_eq!(c.object_type, "curve");
    assert_eq!(c.pts.len(), 2);
    assert_eq!(c.path.len(), 3);
    assert_eq!((n(c.x0), n(c.x1), n(c.height)), (1.0, 4.0, 0.0));
}

#[test]
fn only_a_single_segment_is_a_straight_line() {
    let m: PathOp = PathOp::MoveTo(f(1.0), f(2.0));
    let l: PathOp = PathOp::LineTo(f(3.0), f(4.0));
    let ends = straight_line_from_path(&vec![m, l]).unwrap();
    assert_eq!((xy(ends.0), xy(ends.1)), ((1.0, 2.0), (3.0, 4.0)));
    assert!(straight_line_from_path(&vec![m, l, PathOp::Close]).is_some());
    assert!(straight_line_from_path(&vec![m, l, l]).is_none());
    assert!(straight_line_from_path(&vec![l, m]).is_none());
    assert!(straight_line_from_path(&vec![m]).is_none());
}

#[test]
fn content_is_read_as_operations() {
    let ops: Vec<PdfOperation> =
        read_operations(&content("q 1 0 0 1 2.5 -3 cm /Im1 Do (te\\)xt) Tj [<41> -250] TJ << /K true >> X Q")).unwrap();
    let names: Vec<&str> = ops.iter().map(|o| o.operator.as_str()).collect();
    assert_eq!(names, vec!["q", "cm", "Do", "Tj", "TJ", "X", "Q"]);
    assert_eq!(ops[1].operands.len(), 6);
    assert!(matches!(&ops[1].operands[4], PdfObject::Real(s) if *s == Single { bits: 2.5f32.to_bits() }));
    assert!(matches!(&ops[1].operands[5], PdfObject::Integer(-3)));
    assert!(matches!(&ops[2].operands[0], PdfObject::Name(b) if b == b"Im1"));
    assert!(matches!(&ops[3].operands[0], PdfObject::Text(b, Notation::Literal) if b == b"te)xt"));
    match &ops[4].operands[0] {
        PdfObject::Array(items) => {
            assert!(matches!(&items[0], PdfObject::Text(b, Notation::Hexadecimal) if b == b"A"));
        }
        other => panic!("{:?}", other),
    }
    assert!(matches!(&ops[5].operands[0], PdfObject::Dictionary(d) if matches!(d.get("K"), Some(PdfObject::Boolean(true)))));
    assert_eq!(read_operations(&content("")).unwrap().len(), 0);
    assert!(read_operations(&PdfContent::Unreadable).is_none());
}

#[test]
fn forms_are_read_without_their_filters() {
    assert_eq!(form_bytes(Some(b"undone".to_vec()), b"raw".to_vec()), b"undone".to_vec());
    assert_eq!(form_bytes(None, b"raw".to_vec()), b"raw".to_vec());
}

#[test]
fn content_that_names_images_is_still_read() {
    let ops: Vec<PdfOperation> = read_operations(&content("(a BI b) Tj (x) Tj")).unwrap();
    assert_eq!(ops.len(), 2);
}

#[test]
fn the_innermost_mark_gives_its_text_once() {
    let mark = |t: &str| Some(MarkedActualText { text: t.to_string(), emitted: false });
    let mut marks = vec![mark("outer"), mark("inner"), None];
    assert_eq!(marked_actual_text(&mut marks, false).as_deref(), Some(""));
    assert_eq!(marked_actual_text(&mut marks, true).as_deref(), Some("inner"));
    assert_eq!(marked_actual_text(&mut marks, true).as_deref(), Some(""));
    assert!(!marks[0].as_ref().unwrap().emitted);
    assert!(marks[1].as_ref().unwrap().emitted);
    assert_eq!(marked_actual_text(&mut vec![None], true), None);
}

fn image_resources() -> (PdfFile, PdfDictionary) {
    let file: PdfFile = file(
        vec![
            ((1, 0), stream(
                vec![
                    ("Subtype", name("Image")),
                    ("Width", PdfObject::Integer(640)),
                    ("Height", PdfObject::Integer(480)),
                    ("BitsPerComponent", PdfObject::Integer(8)),
                    ("ColorSpace", name("DeviceGray")),
                    ("ImageMask", PdfObject::Boolean(true)),
                ],
                "",
            )),
            ((2, 0), stream(
                vec![("Subtype", name("Form")), ("Matrix", ints(&[1, 0, 0, 1, 100, 0]))],
                "/Im Do",
            )),
            ((3, 0), stream(vec![("Subtype", name("Form"))], "/Loop Do")),
            ((4, 0), stream(vec![("Subtype", name("PS"))], "/Loop Do")),
        ],
        Vec::new(),
    );
    let xobjects: PdfDictionary = dict(vec![
        ("Im", PdfObject::Reference((1, 0))),
        ("Fm", PdfObject::Reference((2, 0))),
        ("Loop", PdfObject::Reference((3, 0))),
        ("Ps", PdfObject::Reference((4, 0))),
        ("Lost", PdfObject::Reference((9, 0))),
    ]);
    (file, dict(vec![("XObject", PdfObject::Dictionary(xobjects))]))
}

#[test]
fn images_are_shown_where_the_matrix_puts_them() {
    let (file, resources) = image_resources();
    let code: PdfContent = content("q 50 0 0 40 10 20 cm /Im Do Q /Fm Do 5 Do /None Do /Ps Do Q Q 1 0 0 1 3 4 cm 1 cm /Im Do");
    let images = collect_images(&file, &code, &resources, geometry(), 3).unwrap();
    assert_eq!(images.len(), 3);
    let i = &images[0];
    assert_eq!((n(i.x0), n(i.top), n(i.x1), n(i.bottom)), (10.0, 40.0, 60.0, 80.0));
    assert_eq!((i.page_number, i.name.as_str(), i.srcsize, i.bits), (3, "Im", (640, 480), Some(8)));
    assert_eq!((i.colorspace.as_deref(), i.imagemask), (Some("DeviceGray"), Some(true)));
    assert_eq!(i.object_type, "image");
    assert_eq!((n(images[1].x0), n(images[1].x1)), (100.0, 101.0));
    assert_eq!((n(images[2].x0), n(images[2].top)), (3.0, 95.0));
}

#[test]
fn broken_image_content_is_refused() {
    let (file, resources) = image_resources();
    let run = |code: &str| collect_images(&file, &content(code), &resources, geometry(), 1).unwrap_err();
    assert_eq!(shown(run("/Loop Do")), "cyclic Form XObject reference");
    assert_eq!(shown(run("/Lost Do")), "ObjectNotFound((9, 0))");
    assert_eq!(shown(run("1 0 0 /x 0 0 cm")), "transform operand dNone");
    assert!(matches!(
        collect_images(&file, &PdfContent::Unreadable, &resources, geometry(), 1),
        Err(Error::Lopdf(FileError::InvalidContentStream))
    ));
    let mut many: String = String::new();
    for _ in 0..10001 {
        many.push_str("/Ps Do ");
    }
    assert_eq!(shown(run(&many)), "page exceeds maximum of 10000 XObject invocations");
    let mut most: String = String::new();
    for _ in 0..10000 {
        most.push_str("/Im Do ");
    }
    assert_eq!(collect_images(&file, &content(&most), &resources, geometry(), 1).unwrap().len(), 10000);
}

#[test]
fn forms_may_be_nested_sixty_four_deep() {
    let build = |depth: u32| {
        let mut objects: Vec<(ObjectId, PdfObject)> = Vec::new();
        let mut k: u32 = 1;
        while k <= depth {
            let inner: PdfDictionary = dict(vec![("N", PdfObject::Reference((k + 1, 0)))]);
            objects.push((
                (k, 0),
                stream(
                    vec![
                        ("Subtype", name("Form")),
                        ("Resources", PdfObject::Dictionary(dict(vec![("XObject", PdfObject::Dictionary(inner))]))),
                    ],
                    if k == depth { "" } else { "/N Do" },
                ),
            ));
            k += 1;
        }
        file(objects, Vec::new())
    };
    let first: PdfDictionary = dict(vec![("N", PdfObject::Reference((1, 0)))]);
    let resources: PdfDictionary = dict(vec![("XObject", PdfObject::Dictionary(first))]);
    assert!(collect_images(&build(64), &content("/N Do"), &resources, geometry(), 1).is_ok());
    assert_eq!(
        shown(collect_images(&build(65), &content("/N Do"), &resources, geometry(), 1).unwrap_err()),
        "Form XObject nesting exceeds maximum depth of 64"
    );
    assert!(page_paths::collect(&build(64), &content("/N Do"), &resources, geometry(), 1).is_ok());
    assert!(page_paths::collect(&build(65), &content("/N Do"), &resources, geometry(), 1).is_err());
}

#[test]
fn paths_are_painted_as_operators_say() {
    let (file, resources) = image_resources();
    let code: PdfContent = content(
        "10 10 m 20 10 l S 0 0 5 5 re f 1 1 m 2 2 l 3 1 l s 4 4 m 9 9 l n q 2 0 0 2 0 0 cm 1 1 m 5 1 l B Q \
         0 0 m 1 2 3 4 v 5 6 7 8 y 1 1 2 2 3 3 c h b* 7 m S 0 0 m 0 9 l h S",
    );
    let (lines, rects, curves) = page_paths::collect(&file, &code, &resources, geometry(), 2).unwrap();
    assert_eq!((lines.len(), rects.len(), curves.len()), (3, 1, 2));
    assert_eq!((n(lines[0].x0), n(lines[0].x1), n(lines[0].top)), (10.0, 20.0, 90.0));
    assert!(lines[0].stroke && !lines[0].fill);
    assert_eq!((n(lines[1].x0), n(lines[1].x1), n(lines[1].top)), (2.0, 10.0, 98.0));
    assert!(lines[1].stroke && lines[1].fill);
    assert_eq!(n(lines[2].height), 9.0);
    assert!(rects[0].fill && !rects[0].stroke);
    assert_eq!(curves[0].pts.len(), 3);
    assert!(matches!(curves[0].path.last(), Some(PathCommand::Close)));
    let bent = &curves[1];
    assert_eq!(bent.path.len(), 5);
    assert!(matches!(&bent.path[1], PathCommand::CurveTo { c1, c2, p }
        if (xy(*c1), xy(*c2), xy(*p)) == ((0.0, 100.0), (1.0, 98.0), (3.0, 96.0))));
    assert!(matches!(&bent.path[2], PathCommand::CurveTo { c1, c2, p }
        if (xy(*c1), xy(*c2), xy(*p)) == ((5.0, 94.0), (7.0, 92.0), (7.0, 92.0))));
    assert!(bent.stroke && bent.fill);
    let scaled: Transform = Transform { m11: f(2.0), m12: f(0.0), m21: f(0.0), m22: f(2.0), m31: f(0.0), m32: f(0.0) };
    let (lines, _, _) =
        page_paths::collect_stream(&file, &content("1 1 m 3 1 l S"), &resources, geometry(), 2, scaled).unwrap();
    assert_eq!((n(lines[0].x0), n(lines[0].x1)), (2.0, 6.0));
    assert_eq!(
        shown(page_paths::collect(&file, &content("1 0 0 1 cm"), &resources, geometry(), 1).unwrap_err()),
        "transform expects 6 operands"
    );
    assert_eq!(
        shown(page_paths::collect(&file, &content("/Loop Do"), &resources, geometry(), 1).unwrap_err()),
        "cyclic Form XObject reference"
    );
}

#[test]
fn a_path_is_closed_once() {
    let mut path: Vec<PathOp> = Vec::new();
    close_path(&mut path);
    assert_eq!(path.len(), 0);
    path.push(PathOp::MoveTo(f(0.0), f(0.0)));
    close_path(&mut path);
    close_path(&mut path);
    assert_eq!(path.len(), 2);
    path.push(PathOp::Rect(f(0.0), f(0.0), f(1.0), f(1.0)));
    close_path(&mut path);
    assert_eq!(path.len(), 3);
}

fn type3_font(resources: PdfDictionary) -> Vec<FontEntry> {
    let mut codes: Vec<CodePoint> = Vec::new();
    for code in 0..256 {
        let letter: String = if code == 0x41 { "A".to_string() } else { String::new() };
        let glyph: Glyph = match code {
            0x41 => Glyph::Stream(content("0 0 1000 500 re f 0 0 m 1000 0 l S")),
            0x42 => Glyph::Broken(FileError::ReferenceLimit),
            _ => Glyph::Missing,
        };
        codes.push(CodePoint { text: letter, advance: f(0.5), glyph });
    }
    let matrix: Transform =
        Transform { m11: f(0.001), m12: f(0.0), m21: f(0.0), m22: f(0.001), m31: f(0.0), m32: f(0.0) };
    let font: Type3Font =
        Type3Font::new(codes, "Drawn".to_string(), matrix, PdfDictionary::new()).unwrap();
    vec![
        FontEntry { resources: resources.copy(), name: b"F1".to_vec(), outcome: FontOutcome::Font(font) },
        FontEntry { resources: resources.copy(), name: b"F2".to_vec(), outcome: FontOutcome::Other },
        FontEntry {
            resources,
            name: b"F3".to_vec(),
            outcome: FontOutcome::Broken(FileError::ObjectNotFound((5, 0))),
        },
    ]
}

#[test]
fn a_font_has_all_codes() {
    assert!(Type3Font::new(Vec::new(), String::new(), moved(0.0, 0.0), PdfDictionary::new()).is_none());
}

#[test]
fn drawn_fonts_show_characters_and_paths() {
    let (file, resources) = image_resources();
    let fonts: Vec<FontEntry> = type3_font(resources.copy());
    let code: PdfContent = content(
        "BT /F1 10 Tf 20 30 Td (A ) Tj 2 Tw 1 Tc 50 Tz ( A) Tj [(A) -1000 (A)] TJ ET BT /F2 10 Tf (A) Tj ET",
    );
    let found = type3::collect(&file, &fonts, &code, &resources, geometry(), 6).unwrap();
    assert_eq!(found.chars.len(), 6);
    assert_eq!((found.rects.len(), found.lines.len(), found.curves.len()), (4, 4, 0));
    let starts: Vec<f64> = found.chars.iter().map(|c| n(c.x0)).collect();
    // Two advances of 5, then (5 + 1 + 2) / 2, (5 + 1) / 2, the same and 10 / 2.
    assert_eq!(starts, vec![20.0, 25.0, 30.0, 34.0, 37.0, 45.0]);
    assert_eq!(found.chars[0].text, "A");
    assert_eq!(found.chars[1].text, "");
    assert_eq!(found.chars[0].fontname, "Drawn");
    assert_eq!(found.chars[0].page_number, 6);
    assert_eq!(found.rects[0].object_type, "type3_glyph");
    assert_eq!(found.lines[0].object_type, "type3_glyph");
    assert_eq!((n(found.rects[0].x0), n(found.rects[0].x1)), (20.0, 30.0));
    assert_eq!((n(found.rects[1].x0), n(found.rects[1].x1)), (34.0, 39.0));
}

#[test]
fn text_moves_from_line_to_line() {
    let (file, resources) = image_resources();
    let fonts: Vec<FontEntry> = type3_font(resources.copy());
    let code: PdfContent = content(
        "BT /F1 10 Tf 12 TL 10 80 Td (A) ' (A) ' 5 -10 TD (A) Tj T* (A) Tj 1 2 (A) \" 1 0 0 1 100 50 Tm 3 Ts (A) Tj ET",
    );
    let found = type3::collect(&file, &fonts, &code, &resources, geometry(), 1).unwrap();
    let places: Vec<(f64, f64)> =
        found.lines.iter().map(|l| (n(l.x0), 100.0 - n(l.top))).collect();
    assert_eq!(
        places,
        vec![(10.0, 68.0), (10.0, 56.0), (15.0, 46.0), (15.0, 36.0), (15.0, 26.0), (100.0, 53.0)]
    );
}

#[test]
fn marked_text_replaces_what_is_shown() {
    let (file, _) = image_resources();
    let props: PdfDictionary = dict(vec![(
        "Properties",
        PdfObject::Dictionary(dict(vec![(
            "P",
            PdfObject::Dictionary(dict(vec![("ActualText", text(b"named"))])),
        )])),
    )]);
    let fonts: Vec<FontEntry> = type3_font(props.copy());
    let code: PdfContent = content(
        "BT /F1 10 Tf /Span << /ActualText (fi) >> BDC (AA) Tj /X BMC (A) Tj EMC EMC (A) Tj /Span /P BDC (A) Tj EMC ET",
    );
    let found = type3::collect(&file, &fonts, &code, &props, geometry(), 1).unwrap();
    let texts: Vec<&str> = found.chars.iter().map(|c| c.text.as_str()).collect();
    assert_eq!(texts, vec!["fi", "", "", "A", "named"]);
    assert_eq!(actual_text(&file, &props, &name("P")).as_deref(), Some("named"));
    assert_eq!(actual_text(&file, &props, &name("Q")), None);
    assert_eq!(actual_text(&file, &props, &PdfObject::Null), None);
}

#[test]
fn drawn_fonts_fail_as_their_content_does() {
    let (file, resources) = image_resources();
    let fonts: Vec<FontEntry> = type3_font(resources.copy());
    let run = |code: &str| type3::collect(&file, &fonts, &content(code), &resources, geometry(), 1);
    assert_eq!(shown(run("/F1 10 Tf (B) Tj").unwrap_err()), "ReferenceLimit");
    assert_eq!(shown(run("/F3 10 Tf").unwrap_err()), "ObjectNotFound((5, 0))");
    assert_eq!(shown(run("/Loop Do").unwrap_err()), "cyclic Form XObject reference");
    assert_eq!(shown(run("1 Tm").unwrap_err()), "transform expects 6 operands");
    assert_eq!(run("(A) Tj").unwrap().chars.len(), 0);
    let mut many: String = "/F1 10 Tf ".to_string();
    for _ in 0..200 {
        many.push('(');
        for _ in 0..100 {
            many.push('C');
        }
        many.push_str(") Tj ");
    }
    assert_eq!(run(&many).unwrap().chars.len(), 20000);
    many.push_str("(C) Tj");
    assert_eq!(shown(run(&many).unwrap_err()), "page exceeds maximum of 20000 Type3 glyph invocations");
}

#[test]
fn restoring_brings_back_what_was_saved() {
    let (file, resources) = image_resources();
    let fonts: Vec<FontEntry> = type3_font(resources.copy());
    let code: PdfContent = content(
        "/F1 10 Tf q 20 Ts 2 0 0 2 0 0 cm Q (A) Tj Q (A) Tj",
    );
    let found = type3::collect(&file, &fonts, &code, &resources, geometry(), 1).unwrap();
    assert_eq!(found.chars.len(), 1);
    assert_eq!((n(found.lines[0].x0), n(found.lines[0].top)), (0.0, 100.0));
}

#[test]
fn glyphs_share_a_slot_within_a_tolerance() {
    let mut out: CollectorOutput = CollectorOutput::new(geometry(), 1);
    for x in [10.0, 11.2, 11.4] {
        out.push_char(&moved(x, 20.0), f(0.5), f(10.0), "A");
    }
    let (chars, _, _, _) = out.finish();
    assert!(same_glyph_slot(&chars[1], &chars[0]));
    assert!(!same_glyph_slot(&chars[2], &chars[0]));
    assert!(same_glyph_slot(&chars[0], &chars[0]));
}

#[test]
fn only_twelve_fonts_are_standard() {
    for font in [
        "Courier", "Courier-Bold", "Courier-Oblique", "Courier-BoldOblique", "Helvetica",
        "Helvetica-Bold", "Helvetica-Oblique", "Helvetica-BoldOblique", "Times-Roman", "Times-Bold",
        "Times-Italic", "Times-BoldItalic",
    ] {
        assert!(is_standard_latin_font(font));
    }
    assert!(!is_standard_latin_font("Symbol"));
    assert!(!is_standard_latin_font("helvetica"));
}

#[test]
fn the_last_font_of_an_appearance_counts() {
    let none: PdfContent = PdfContent::Unreadable;
    let da = |code: &str| parse_default_appearance(&code.as_bytes().to_vec(), &none);
    let (key, size) = da("/Helv 12 Tf 0 g /Cour 9.5 Tf").unwrap();
    assert_eq!((key, n(size)), (b"Cour".to_vec(), 9.5));
    let (key, _) = da("/Helv 12 Tf (x) 3 Tf").unwrap();
    assert_eq!(key, b"Helv".to_vec());
    assert!(da("0 g").is_none());
    let (key, _) = da("/BI 12 Tf /ID gs").unwrap();
    assert_eq!(key, b"BI".to_vec());
    assert!(da("BI ID /F 12 Tf").is_none());
    let given: PdfContent = PdfContent::Operations(vec![PdfOperation {
        operator: "Tf".to_string(),
        operands: vec![name("BI"), PdfObject::Integer(12)],
    }]);
    let (key, size) = parse_default_appearance(&b"BI ID /F 12 Tf".to_vec(), &given).unwrap();
    assert_eq!((key, n(size)), (b"BI".to_vec(), 12.0));
}

#[test]
fn standard_fonts_are_added_to_the_resources() {
    let (file, _) = image_resources();
    let listed: PdfDictionary = dict(vec![(
        "Font",
        PdfObject::Dictionary(dict(vec![
            ("F", PdfObject::Dictionary(dict(vec![("BaseFont", name("Times-Bold"))]))),
            ("S", PdfObject::Dictionary(dict(vec![("BaseFont", name("Symbol"))]))),
        ])),
    )]);
    let found: PdfDictionary = resources_with_standard_font(&file, &listed, &b"F".to_vec()).unwrap();
    match found.get("Font") {
        Some(PdfObject::Dictionary(fonts)) => {
            assert_eq!(fonts.entries.len(), 2);
            match fonts.get("F") {
                Some(PdfObject::Dictionary(font)) => {
                    assert!(matches!(font.get("BaseFont"), Some(PdfObject::Name(b)) if b == b"Times-Bold"));
                    assert!(matches!(font.get("Subtype"), Some(PdfObject::Name(b)) if b == b"Type1"));
                    assert!(matches!(font.get("Encoding"), Some(PdfObject::Name(b)) if b == b"WinAnsiEncoding"));
                }
                other => panic!("{:?}", other),
            }
        }
        other => panic!("{:?}", other),
    }
    assert!(resources_with_standard_font(&file, &listed, &b"S".to_vec()).is_none());
    assert!(resources_with_standard_font(&file, &listed, &b"Courier".to_vec()).is_some());
    assert!(resources_with_standard_font(&file, &PdfDictionary::new(), &vec![0xff]).is_none());
    let broken: PdfDictionary = dict(vec![("Font", PdfObject::Integer(1))]);
    assert!(resources_with_standard_font(&file, &broken, &b"Courier".to_vec()).is_none());
}

fn note(words: &[u8], da: &str) -> PdfDictionary {
    dict(vec![("Contents", text(words)), ("DA", text(da.as_bytes()))])
}

#[test]
fn notes_are_drawn_line_by_line() {
    let (file, _) = image_resources();
    let none: PdfContent = PdfContent::Unreadable;
    let rect = (f(10.0), f(20.0), f(110.0), f(60.0));
    let page: PdfDictionary = PdfDictionary::new();
    let drawn = synthesize(&file, &note("one\ntw\u{f6}".as_bytes(), "/Helvetica 10 Tf"), rect, &page, &none).unwrap();
    let names: Vec<&str> = drawn.operations.iter().map(|o| o.operator.as_str()).collect();
    assert_eq!(names, vec!["BT", "Tf", "Td", "Tj", "Td", "Tj", "ET"]);
    let number = |o: &PdfObject| match o {
        PdfObject::Real(s) => f32::from_bits(s.bits),
        PdfObject::Integer(i) => *i as f32,
        other => panic!("{:?}", other),
    };
    assert_eq!(number(&drawn.operations[1].operands[1]), 10.0);
    assert_eq!(number(&drawn.operations[2].operands[0]), 2.0);
    assert_eq!(number(&drawn.operations[2].operands[1]), 28.0);
    assert!(matches!(&drawn.operations[3].operands[0], PdfObject::Text(b, Notation::Literal) if b == b"one"));
    assert_eq!(number(&drawn.operations[4].operands[0]), 0.0);
    assert_eq!(number(&drawn.operations[4].operands[1]), -12.0);
    assert!(matches!(&drawn.operations[5].operands[0], PdfObject::Text(b, _) if b == b"tw\xf6"));
    match drawn.dict.get("BBox") {
        Some(PdfObject::Array(items)) => assert_eq!(items.iter().map(number).collect::<Vec<_>>(), vec![0.0, 0.0, 100.0, 40.0]),
        other => panic!("{:?}", other),
    }
    assert!(matches!(drawn.dict.get("Subtype"), Some(PdfObject::Name(b)) if b == b"Form"));
    assert!(matches!(drawn.dict.get("Resources"), Some(PdfObject::Dictionary(_))));
}

#[test]
fn notes_that_cannot_be_drawn_are_left_alone() {
    let (file, _) = image_resources();
    let none: PdfContent = PdfContent::Unreadable;
    let rect = (f(10.0), f(20.0), f(110.0), f(60.0));
    let page: PdfDictionary = PdfDictionary::new();
    let da: &str = "/Helvetica 10 Tf";
    let drawn = |annotation: PdfDictionary| synthesize(&file, &annotation, rect, &page, &none).is_some();
    assert!(drawn(note(b"x", da)));
    assert!(!drawn(note(b"", da)));
    assert!(!drawn(note("\u{4e2d}".as_bytes(), da)));
    assert!(!drawn(note(b"x", "/Symbol 10 Tf")));
    assert!(!drawn(note(b"x", "/Helvetica 0.05 Tf")));
    assert!(!drawn(note(b"x", "/Helvetica 513 Tf")));
    assert!(drawn(note(b"x", "/Helvetica 512 Tf")));
    assert!(!drawn(dict(vec![("Contents", text(b"x"))])));
    assert!(!drawn(dict(vec![("DA", text(da.as_bytes()))])));
    assert!(!drawn(note(&vec![0x61; 16 * 1024 + 1], da)));
    assert!(drawn(note(&vec![0x61; 16 * 1024], da)));
    let long: String = format!("{}{}", " ".repeat(4096), da);
    assert!(!drawn(note(b"x", &long)));
    let flat = (f(10.0), f(20.0), f(110.0), f(20.0));
    assert!(synthesize(&file, &note(b"x", da), flat, &page, &none).is_none());
    let endless = (f(10.0), f(20.0), f(f64::INFINITY), f(60.0));
    assert!(synthesize(&file, &note(b"x", da), endless, &page, &none).is_none());
    let many: String = "l\n".repeat(300);
    let cut = synthesize(&file, &note(many.as_bytes(), da), rect, &page, &none).unwrap();
    assert_eq!(cut.operations.iter().filter(|o| o.operator == "Tj").count(), 256);
}

#[test]
fn a_line_must_be_read_as_it_was_written() {
    let line = |back: Option<&str>| EncodedLine {
        line: "ab".to_string(),
        bytes: b"ab".to_vec(),
        back: back.map(|s| s.to_string()),
    };
    let draw = |lines: Vec<EncodedLine>| {
        draw_lines(&lines, b"F".to_vec(), f(10.0), f(50.0), f(50.0), PdfDictionary::new())
    };
    assert!(draw(vec![line(Some("ab"))]).is_some());
    assert!(draw(vec![line(Some("ab")), line(Some("a"))]).is_none());
    assert!(draw(vec![line(None)]).is_none());
    assert!(draw(Vec::new()).is_none());
}

fn two_pages() -> PdfFile {
    let tree: PdfDictionary = dict(vec![("MediaBox", ints(&[0, 0, 200, 100]))]);
    let first: PdfDictionary = dict(vec![
        ("Parent", PdfObject::Reference((1, 0))),
        ("Rotate", PdfObject::Integer(450)),
        ("CropBox", ints(&[10, 10, 190, 90])),
        ("TrimBox", ints(&[20, 20, 180, 80])),
    ]);
    let second: PdfDictionary = dict(vec![
        ("Parent", PdfObject::Reference((1, 0))),
        ("Resources", PdfObject::Reference((4, 0))),
    ]);
    let xobjects: PdfDictionary = dict(vec![("Loop", PdfObject::Reference((5, 0)))]);
    let resources: PdfDictionary = dict(vec![("XObject", PdfObject::Dictionary(xobjects))]);
    file(
        vec![
            ((1, 0), PdfObject::Dictionary(tree)),
            ((2, 0), PdfObject::Dictionary(first)),
            ((3, 0), PdfObject::Dictionary(second)),
            ((4, 0), PdfObject::Dictionary(resources)),
            ((5, 0), stream(vec![("Subtype", name("Form"))], "/Loop Do")),
            ((6, 0), PdfObject::Dictionary(PdfDictionary::new())),
        ],
        vec![((3, 0), content("/Loop Do"))],
    )
}

fn with_one_char(mut out: CollectorOutput, page_number: usize) -> Option<CollectorOutput> {
    out.push_char(&moved(10.0, 20.0), f(0.5), f(10.0), &format!("{}", page_number));
    Some(out)
}

#[test]
fn a_page_has_its_boxes_and_its_text() {
    let file: PdfFile = two_pages();
    let page: Page = parse_page(&file, 1, (2, 0), f(50.0), &with_one_char).unwrap();
    assert_eq!((page.page_number, page.rotation, page.is_original), (1, 90, true));
    assert_eq!((n(page.width), n(page.height), n(page.doctop_offset)), (100.0, 200.0, 50.0));
    let b = page.cropbox;
    assert_eq!((n(b.x0), n(b.top), n(b.x1), n(b.bottom)), (10.0, 10.0, 90.0, 190.0));
    let b = page.mediabox;
    assert_eq!((n(b.x0), n(b.top), n(b.x1), n(b.bottom)), (0.0, 0.0, 100.0, 200.0));
    assert!(page.trimbox.is_some() && page.bleedbox.is_none() && page.artbox.is_none());
    assert_eq!(page.chars.len(), 1);
    assert_eq!(page.chars[0].text, "1");
    let failed: Page = parse_page(&file, 1, (2, 0), f(50.0), &|_out, _number| None).unwrap();
    assert_eq!(failed.chars.len(), 0);
}

#[test]
fn nothing_is_extracted_where_forms_do_not_end() {
    let file: PdfFile = two_pages();
    let plan = plan_page(&file, 2, (3, 0), f(0.0)).unwrap();
    assert!(!plan.extracts());
    let page: Page = parse_page(&file, 2, (3, 0), f(0.0), &|_out, _number| panic!("not asked")).unwrap();
    assert_eq!((page.chars.len(), page.images.len()), (0, 0));
    assert_eq!(page.cropbox, page.mediabox);
}

#[test]
fn pages_are_placed_one_below_the_other() {
    let file: PdfFile = two_pages();
    let pages: Vec<Page> =
        parse_pages(&file, &vec![(7, (3, 0)), (2, (2, 0)), (9, (2, 0))], &with_one_char).unwrap();
    let placed: Vec<(usize, f64)> = pages.iter().map(|p| (p.page_number, n(p.doctop_offset))).collect();
    assert_eq!(placed, vec![(2, 0.0), (7, 200.0), (9, 300.0)]);
    assert_eq!(pages[0].chars[0].text, "2");
    assert_eq!(
        shown(parse_pages(&file, &vec![(1, (2, 0)), (2, (6, 0))], &with_one_char).unwrap_err()),
        "page 2 missing MediaBox"
    );
    assert_eq!(
        shown(parse_pages(&file, &vec![(1, (8, 0))], &with_one_char).unwrap_err()),
        "ObjectNotFound((8, 0))"
    );
}
