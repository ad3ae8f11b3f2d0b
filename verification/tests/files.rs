use pdfplumber::error::Error;
use pdfplumber::error::FileError;
use pdfplumber::float::convert::Single;
use pdfplumber::float::Float;
use pdfplumber::parse::annotations::collect_annotations;
use pdfplumber::parse::metadata::extract_metadata;
use pdfplumber::parse::metadata::MetadataValue;
use pdfplumber::parse::numbers::obj_to_box;
use pdfplumber::parse::numbers::transform_from_obj;
use pdfplumber::parse::numbers::transform_from_operands;
use pdfplumber::parse::page_geometry::PageGeometry;
use pdfplumber::pdf::file::slot_of;
use pdfplumber::pdf::file::PdfFile;
use pdfplumber::pdf::object::obj_to_bool;
use pdfplumber::pdf::object::obj_to_f64;
use pdfplumber::pdf::object::obj_to_i64;
use pdfplumber::pdf::object::Notation;
use pdfplumber::pdf::object::ObjectId;
use pdfplumber::pdf::object::PdfDictionary;
use pdfplumber::pdf::object::PdfObject;
use pdfplumber::pdf::object::PlainBytes;
use pdfplumber::pdf::text::color_space_name;
use pdfplumber::pdf::text::decode_bytes;
use pdfplumber::pdf::text::decode_pdf_string;
use pdfplumber::pdf::text::obj_to_name_string;
use std::collections::HashMap;

fn f(v: f64) -> Float {
    Float { bits: v.to_bits() }
}

fn n(v: Float) -> f64 {
    f64::from_bits(v.bits)
}

fn single(v: f32) -> PdfObject {
    PdfObject::Real(Single { bits: v.to_bits() })
}

fn name(text: &str) -> PdfObject {
    PdfObject::Name(text.as_bytes().to_vec())
}

fn text(bytes: &[u8]) -> PdfObject {
    PdfObject::Text(bytes.to_vec(), Notation::Literal)
}

fn ints(values: &[i64]) -> PdfObject {
    PdfObject::Array(values.iter().map(|v| PdfObject::Integer(*v)).collect())
}

fn dict(entries: Vec<(&str, PdfObject)>) -> PdfDictionary {
    let mut out: PdfDictionary = PdfDictionary::new();
    for (key, value) in entries {
        out.set(key.as_bytes().to_vec(), value);
    }
    out
}

fn file(objects: Vec<(ObjectId, PdfObject)>, trailer: PdfDictionary) -> PdfFile {
    let mut map: HashMap<u64, PdfObject> = HashMap::new();
    for (id, object) in objects {
        map.insert(slot_of(id), object);
    }
    PdfFile { objects: map, trailer, contents: HashMap::new() }
}

fn shown(error: Error) -> String {
    match error {
        Error::Lopdf(e) => format!("{:?}", e),
        Error::Csv(t) => t,
        Error::Type(t, o) => format!("{}{:?}", t, o),
        Error::Message(t) => t,
        other => format!("{:?}", other),
    }
}

#[test]
fn a_value_put_under_a_key_is_found_there() {
    let mut d: PdfDictionary = PdfDictionary::new();
    d.set(b"A".to_vec(), PdfObject::Integer(1));
    d.set(b"B".to_vec(), PdfObject::Integer(2));
    d.set(b"A".to_vec(), PdfObject::Integer(3));
    assert_eq!(d.entries.len(), 2);
    assert_eq!(obj_to_i64(d.get("A").unwrap()), Some(3));
    assert_eq!(obj_to_i64(d.get("B").unwrap()), Some(2));
    assert_eq!(obj_to_i64(d.get_bytes(&b"B".to_vec()).unwrap()), Some(2));
    assert!(d.get("C").is_none());
}

#[test]
fn numbers_are_read_as_they_are() {
    assert_eq!(obj_to_f64(&PdfObject::Integer(-7)).map(n), Some(-7.0));
    assert_eq!(obj_to_f64(&single(0.1)).map(n), Some(0.1f32 as f64));
    assert_eq!(obj_to_f64(&PdfObject::Null).map(n), None);
    assert_eq!(obj_to_i64(&single(-2.9)), Some(-2));
    assert_eq!(obj_to_i64(&single(1.0e30)), Some(i64::MAX));
    assert_eq!(obj_to_i64(&single(f32::NAN)), Some(0));
    assert_eq!(obj_to_i64(&name("7")), None);
    assert_eq!(obj_to_bool(&PdfObject::Boolean(true)), Some(true));
    assert_eq!(obj_to_bool(&PdfObject::Integer(1)), None);
}

#[test]
fn texts_are_read_by_their_mark() {
    assert_eq!(decode_bytes(&b"plain".to_vec()).unwrap(), "plain");
    assert_eq!(decode_bytes(&"\u{e9}".as_bytes().to_vec()).unwrap(), "\u{e9}");
    assert_eq!(decode_bytes(&vec![0x61, 0xff, 0x62]).unwrap(), "a\u{fffd}b");
    assert_eq!(decode_bytes(&vec![0xfe, 0xff, 0x00, 0x41, 0x20, 0xac]).unwrap(), "A\u{20ac}");
    assert_eq!(decode_bytes(&vec![0xfe, 0xff, 0xd8, 0x3d, 0xde, 0x00]).unwrap(), "\u{1f600}");
    assert!(decode_bytes(&vec![0xfe, 0xff, 0xd8, 0x3d]).is_none());
    assert!(decode_bytes(&vec![0xfe, 0xff, 0xde, 0x00, 0x00, 0x41]).is_none());
    assert_eq!(decode_bytes(&vec![0xfe, 0xff]).unwrap(), "");
    assert_eq!(decode_bytes(&vec![0xfe, 0xff, 0x41]).unwrap(), "\u{fffd}\u{fffd}A");
    assert_eq!(decode_bytes(&Vec::new()).unwrap(), "");
}

#[test]
fn texts_are_read_back() {
    for text in ["", "plain", "\u{e9}\u{20ac}", "\u{feff}mark", "mixed \u{1f600}\u{ffff}\u{10ffff}"] {
        assert_eq!(decode_bytes(&text.as_bytes().to_vec()).unwrap(), text);
        assert_eq!(
            decode_pdf_string(&PdfObject::Text(text.as_bytes().to_vec(), Notation::Literal)).unwrap(),
            text
        );
        assert_eq!(obj_to_name_string(&name(text)).unwrap(), text);
        let mut bytes: Vec<u8> = vec![0xfe, 0xff];
        for unit in text.encode_utf16() {
            bytes.extend_from_slice(&unit.to_be_bytes());
        }
        assert_eq!(decode_bytes(&bytes).unwrap(), text);
    }
}

#[test]
fn names_and_strings_are_texts() {
    assert_eq!(decode_pdf_string(&text(b"x")).unwrap(), "x");
    assert_eq!(decode_pdf_string(&name("y")).unwrap(), "y");
    assert!(decode_pdf_string(&PdfObject::Integer(1)).is_none());
    assert_eq!(obj_to_name_string(&name("N")).unwrap(), "N");
    assert_eq!(obj_to_name_string(&PdfObject::Name(vec![0x80])).unwrap(), "\u{fffd}");
    assert!(obj_to_name_string(&text(b"N")).is_none());
    assert_eq!(color_space_name(&name("DeviceRGB")), "DeviceRGB");
    assert_eq!(color_space_name(&PdfObject::Array(vec![name("ICCBased"), PdfObject::Reference((1, 0))])), "ICCBased");
    assert_eq!(color_space_name(&PdfObject::Array(Vec::new())), "unknown");
    assert_eq!(color_space_name(&PdfObject::Array(vec![PdfObject::Null])), "unknown");
    assert_eq!(color_space_name(&PdfObject::Null), "unknown");
}

#[test]
fn bytes_with_an_image_are_not_plain() {
    assert!(PlainBytes::new(b"q BI ID EI Q".to_vec()).is_none());
    assert!(PlainBytes::new(b"q B I Q".to_vec()).is_some());
    assert!(PlainBytes::new(b"BI/W 1 ID".to_vec()).is_none());
    assert!(PlainBytes::new(b"(BIRD) Tj /ID gs".to_vec()).is_some());
    assert!(PlainBytes::new(b"ID BI EI".to_vec()).is_some());
    assert!(PlainBytes::new(b"BID".to_vec()).is_some());
    assert_eq!(PlainBytes::new(b"B".to_vec()).unwrap().as_vec(), &b"B".to_vec());
}

#[test]
fn references_are_followed() {
    let file: PdfFile = file(
        vec![
            ((1, 0), PdfObject::Reference((2, 0))),
            ((2, 0), PdfObject::Integer(9)),
            ((3, 0), PdfObject::Reference((3, 0))),
            ((4, 0), PdfObject::Reference((5, 0))),
        ],
        PdfDictionary::new(),
    );
    assert_eq!(obj_to_i64(file.get_object((1, 0)).unwrap()), Some(9));
    assert_eq!(obj_to_i64(file.deref_object(&PdfObject::Reference((2, 0))).unwrap()), Some(9));
    assert_eq!(obj_to_i64(file.deref_object(&PdfObject::Integer(4)).unwrap()), Some(4));
    assert_eq!(shown(file.get_object((3, 0)).unwrap_err()), "ReferenceLimit");
    assert_eq!(shown(file.get_object((4, 0)).unwrap_err()), "ObjectNotFound((5, 0))");
    assert_eq!(shown(file.get_object((2, 1)).unwrap_err()), "ObjectNotFound((2, 1))");
    match file.object_to_dict(&PdfObject::Integer(4)) {
        Err(Error::Type(text, Some(PdfObject::Integer(4)))) => {
            assert_eq!(text, "expected dictionary, got ")
        }
        other => panic!("{:?}", other),
    }
    match file.page_dict((2, 0)) {
        Err(Error::Type(text, Some(PdfObject::Integer(9)))) => {
            assert_eq!(text, "page object is not a dictionary: ")
        }
        other => panic!("{:?}", other),
    }
}

#[test]
fn the_nearest_value_is_inherited() {
    let file: PdfFile = file(
        vec![
            ((1, 0), PdfObject::Dictionary(dict(vec![
                ("Rotate", PdfObject::Integer(90)),
                ("Own", PdfObject::Integer(1)),
            ]))),
            ((2, 0), PdfObject::Dictionary(dict(vec![
                ("Parent", PdfObject::Reference((1, 0))),
                ("Own", PdfObject::Integer(2)),
            ]))),
            ((3, 0), PdfObject::Dictionary(dict(vec![("Parent", PdfObject::Reference((2, 0)))]))),
        ],
        PdfDictionary::new(),
    );
    assert_eq!(obj_to_i64(file.get_inherited_object((3, 0), "Own").unwrap().unwrap()), Some(2));
    assert_eq!(obj_to_i64(file.get_inherited_object((1, 0), "Own").unwrap().unwrap()), Some(1));
    assert_eq!(obj_to_i64(file.get_inherited_object((3, 0), "Rotate").unwrap().unwrap()), Some(90));
    assert!(file.get_inherited_object((3, 0), "MediaBox").unwrap().is_none());
}

#[test]
fn endless_chains_of_parents_are_refused() {
    let circle: PdfFile = file(
        vec![
            ((1, 0), PdfObject::Dictionary(dict(vec![("Parent", PdfObject::Reference((2, 0)))]))),
            ((2, 0), PdfObject::Dictionary(dict(vec![("Parent", PdfObject::Reference((1, 0)))]))),
        ],
        PdfDictionary::new(),
    );
    assert_eq!(
        shown(circle.get_inherited_object((1, 0), "Rotate").unwrap_err()),
        "cyclic page Parent chain"
    );
    let mut objects: Vec<(ObjectId, PdfObject)> = Vec::new();
    let mut i: u32 = 1;
    while i <= 300 {
        objects.push((
            (i, 0),
            PdfObject::Dictionary(dict(vec![("Parent", PdfObject::Reference((i + 1, 0)))])),
        ));
        i += 1;
    }
    objects.push(((301, 0), PdfObject::Dictionary(dict(vec![("Rotate", PdfObject::Integer(0))]))));
    let long: PdfFile = file(objects, PdfDictionary::new());
    assert_eq!(
        shown(long.get_inherited_object((1, 0), "Rotate").unwrap_err()),
        "page Parent chain exceeds maximum depth of 256"
    );
    assert!(long.get_inherited_object((46, 0), "Rotate").unwrap().is_some());
    assert!(long.get_inherited_object((45, 0), "Rotate").is_err());
}

#[test]
fn boxes_have_four_numbers() {
    let b = obj_to_box(&ints(&[0, 1, 612, 792])).unwrap();
    assert_eq!((n(b.0), n(b.1), n(b.2), n(b.3)), (0.0, 1.0, 612.0, 792.0));
    assert!(shown(obj_to_box(&ints(&[0, 1, 612])).unwrap_err()).starts_with("expected bbox array, got "));
    assert!(shown(obj_to_box(&PdfObject::Null).unwrap_err()).starts_with("expected bbox array, got "));
    let odd: PdfObject = PdfObject::Array(vec![
        PdfObject::Integer(0),
        PdfObject::Integer(0),
        name("x"),
        PdfObject::Null,
    ]);
    assert_eq!(shown(obj_to_box(&odd).unwrap_err()), "bbox item 2None");
}

#[test]
fn matrices_have_six_numbers() {
    let m = transform_from_obj(&ints(&[1, 2, 3, 4, 5, 6])).unwrap();
    assert_eq!((n(m.m11), n(m.m12), n(m.m21), n(m.m22), n(m.m31), n(m.m32)), (1.0, 2.0, 3.0, 4.0, 5.0, 6.0));
    assert_eq!(shown(transform_from_operands(&Vec::new()).unwrap_err()), "transform expects 6 operands");
    assert!(shown(transform_from_obj(&PdfObject::Null).unwrap_err()).starts_with("expected transform array, got "));
    let letters: [&str; 6] = ["a", "b", "c", "d", "e", "f"];
    for k in 0..6 {
        let mut operands: Vec<PdfObject> = Vec::new();
        for j in 0..6 {
            operands.push(if j == k { PdfObject::Null } else { PdfObject::Integer(1) });
        }
        assert_eq!(
            shown(transform_from_operands(&operands).unwrap_err()),
            format!("transform operand {}None", letters[k])
        );
    }
}

#[test]
fn metadata_is_read_from_the_trailer() {
    let info: PdfDictionary = dict(vec![
        ("Title", text(b"A title")),
        ("Trapped", name("True")),
        ("Pages", PdfObject::Integer(3)),
        ("Scale", single(0.5)),
        ("Flag", PdfObject::Boolean(false)),
        ("Broken", text(&[0xfe, 0xff, 0xd8, 0x00])),
        ("List", ints(&[1])),
        ("Title", text(b"Another")),
    ]);
    let file: PdfFile = file(
        vec![((1, 0), PdfObject::Dictionary(info))],
        dict(vec![("Info", PdfObject::Reference((1, 0)))]),
    );
    let found = extract_metadata(&file);
    let keys: Vec<&str> = found.iter().map(|e| e.key.as_str()).collect();
    assert_eq!(keys, vec!["Title", "Trapped", "Pages", "Scale", "Flag", "Broken", "List"]);
    assert!(matches!(&found[0].value, MetadataValue::Text(t) if t == "Another"));
    assert!(matches!(&found[1].value, MetadataValue::Text(t) if t == "True"));
    assert!(matches!(&found[2].value, MetadataValue::Integer(3)));
    assert!(matches!(&found[3].value, MetadataValue::Real(v) if n(*v) == 0.5));
    assert!(matches!(&found[4].value, MetadataValue::Boolean(false)));
    assert!(matches!(&found[5].value, MetadataValue::Null));
    assert!(matches!(&found[6].value, MetadataValue::Shown(PdfObject::Array(_))));
}

#[test]
fn a_file_may_say_nothing_about_itself() {
    assert_eq!(extract_metadata(&file(Vec::new(), PdfDictionary::new())).len(), 0);
    let lost: PdfFile = file(Vec::new(), dict(vec![("Info", PdfObject::Reference((1, 0)))]));
    assert_eq!(extract_metadata(&lost).len(), 0);
}

fn geometry() -> PageGeometry {
    PageGeometry::from_media_box((f(0.0), f(0.0), f(200.0), f(100.0)), 0, f(1000.0))
}

#[test]
fn annotations_with_an_address_are_links() {
    let action: PdfDictionary = dict(vec![("URI", text(b"https://example.org"))]);
    let link: PdfDictionary = dict(vec![
        ("Rect", ints(&[10, 20, 30, 50])),
        ("Subtype", name("Link")),
        ("A", PdfObject::Reference((7, 0))),
        ("T", text(b"title")),
    ]);
    let note: PdfDictionary = dict(vec![
        ("Rect", ints(&[30, 50, 10, 20])),
        ("Contents", text(b"hello")),
    ]);
    let file: PdfFile = file(
        vec![
            ((7, 0), PdfObject::Dictionary(action)),
            ((8, 0), PdfObject::Dictionary(link)),
            ((9, 0), PdfObject::Array(vec![
                PdfObject::Reference((8, 0)),
                PdfObject::Integer(5),
                PdfObject::Dictionary(dict(vec![("Rect", ints(&[1, 2]))])),
                PdfObject::Dictionary(PdfDictionary::new()),
                PdfObject::Dictionary(note),
            ])),
        ],
        PdfDictionary::new(),
    );
    let page: PdfDictionary = dict(vec![("Annots", PdfObject::Reference((9, 0)))]);
    let (annots, links) = collect_annotations(&file, &page, geometry(), 4).unwrap();
    assert_eq!(annots.len(), 2);
    assert_eq!(links.len(), 1);
    let a = &annots[0];
    assert_eq!(a.object_type, "annot");
    assert_eq!(a.page_number, 4);
    assert_eq!(a.subtype, "Link");
    assert_eq!(a.uri.as_deref(), Some("https://example.org"));
    assert_eq!(a.title.as_deref(), Some("title"));
    assert_eq!(a.contents, None);
    assert_eq!((n(a.x0), n(a.top), n(a.x1), n(a.bottom)), (10.0, 50.0, 30.0, 80.0));
    assert_eq!((n(a.y0), n(a.y1), n(a.doctop)), (20.0, 50.0, 1050.0));
    assert_eq!((n(a.width), n(a.height)), (20.0, 30.0));
    assert_eq!(links[0].object_type, "hyperlink");
    assert_eq!(links[0].uri, "https://example.org");
    assert_eq!((n(links[0].x0), n(links[0].doctop)), (10.0, 1050.0));
    assert_eq!(annots[1].subtype, "Annot");
    assert_eq!(annots[1].contents.as_deref(), Some("hello"));
    assert_eq!((n(annots[1].x0), n(annots[1].top)), (10.0, 50.0));
}

#[test]
fn lost_annotations_are_an_error() {
    let file: PdfFile = file(Vec::new(), PdfDictionary::new());
    let page: PdfDictionary = dict(vec![("Annots", PdfObject::Array(vec![PdfObject::Reference((1, 0))]))]);
    match collect_annotations(&file, &page, geometry(), 1) {
        Err(Error::Lopdf(FileError::ObjectNotFound(id))) => assert_eq!(id, (1, 0)),
        other => panic!("{:?}", other),
    }
    let (annots, links) = collect_annotations(&file, &PdfDictionary::new(), geometry(), 1).unwrap();
    assert_eq!((annots.len(), links.len()), (0, 0));
    let odd: PdfDictionary = dict(vec![("Annots", PdfObject::Integer(1))]);
    assert_eq!(collect_annotations(&file, &odd, geometry(), 1).unwrap().0.len(), 0);
}
