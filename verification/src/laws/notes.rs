//! What holds of the appearances that are made for notes without one.

use crate::float::laws;
use crate::float::Float;
use crate::parse::free_text;
use crate::parse::free_text::AppearanceView;
use crate::parse::free_text::EncodedView;
use crate::pdf::file::FileView;
use crate::pdf::object;
use crate::pdf::object::ContentView;
use crate::pdf::object::DictView;
use crate::pdf::object::Notation;
use crate::pdf::object::ObjectView;
use crate::pdf::object::OperationView;
use crate::strings;
use vstd::prelude::*;
use vstd::utf8::encode_utf8;

verus! {

/// Whether an operation sets the font under a key, at a size.
pub open spec fn sets_font(op: OperationView, key: Seq<u8>, size: Float) -> bool {
    &&& op.0 == "Tf"@
    &&& op.1.len() == 2
    &&& op.1[0] == ObjectView::Name(key)
    &&& object::number(op.1[1]) == Some(size)
}

/// The font of a note is the one that its default appearance sets last: what was set before
/// does not count, and neither do other operations behind it.
pub proof fn law_last_font_counts(
    before: Seq<OperationView>,
    op: OperationView,
    behind: Seq<OperationView>,
    key: Seq<u8>,
    size: Float,
)
    requires
        sets_font(op, key, size),
        forall|k: int| 0 <= k < behind.len() ==> (#[trigger] behind[k]).0 != "Tf"@,
    ensures
        free_text::last_font(before.push(op) + behind) == Some((key, size)),
    decreases behind.len(),
{
    let all = before.push(op) + behind;
    if behind.len() == 0 {
        assert(all =~= before.push(op));
    } else {
        let fewer = behind.drop_last();
        assert forall|k: int| 0 <= k < fewer.len() implies (#[trigger] fewer[k]).0 != "Tf"@ by {
            assert(fewer[k] == behind[k]);
        }
        law_last_font_counts(before, op, fewer, key, size);
        assert(all.drop_last() =~= before.push(op) + fewer);
        assert(all.last() == behind[behind.len() - 1]);
    }
}

/// Content that sets no font gives a note none.
pub proof fn law_no_font_without_setting(ops: Seq<OperationView>)
    requires
        forall|k: int| 0 <= k < ops.len() ==> (#[trigger] ops[k]).0 != "Tf"@,
    ensures
        free_text::last_font(ops) is None,
    decreases ops.len(),
{
    if ops.len() > 0 {
        let fewer = ops.drop_last();
        assert forall|k: int| 0 <= k < fewer.len() implies (#[trigger] fewer[k]).0 != "Tf"@ by {
            assert(fewer[k] == ops[k]);
        }
        law_no_font_without_setting(fewer);
        assert(ops.last() == ops[ops.len() - 1]);
    }
}

/// Whether a line reads the same once it has been encoded.
pub open spec fn readable(line: EncodedView) -> bool {
    line.back == Some(line.line)
}

/// Whether an operation shows a line.
pub open spec fn shows(op: OperationView, line: EncodedView) -> bool {
    op.0 == "Tj"@ && op.1 == seq![ObjectView::Text(line.bytes, Notation::Literal)]
}

/// Whether an operation goes down by the given distance, and not to the side.
pub open spec fn goes_down(op: OperationView, by: Float) -> bool {
    &&& op.0 == "Td"@
    &&& op.1.len() == 2
    &&& op.1[0] == ObjectView::Integer(0)
    &&& op.1[1] == ObjectView::Real(by.narrowed().negated())
}

/// Whether the `k`-th line, the first one behind `ahead` operations, is gone down to.
pub open spec fn is_below(ops: Seq<OperationView>, ahead: int, k: int, by: Float) -> bool {
    goes_down(ops[2 * k + ahead - 1], by)
}

proof fn lemma_lines_shown(lines: Seq<EncodedView>, n: nat, leading: Float)
    requires
        n <= lines.len(),
    ensures
        free_text::line_operations(lines, n, leading) is Some <==> forall|k: int|
            0 <= k < n ==> readable(#[trigger] lines[k]),
        free_text::line_operations(lines, n, leading) matches Some(ops) ==> {
            &&& n > 0 ==> ops.len() == 2 * n - 1
            &&& n == 0 ==> ops.len() == 0
            &&& forall|k: int| 0 <= k < n ==> shows(ops[2 * k], #[trigger] lines[k])
            &&& forall|k: int| 0 < k < n ==> #[trigger] is_below(ops, 0, k, leading)
        },
    decreases n,
{
    if n > 0 {
        lemma_lines_shown(lines, (n - 1) as nat, leading);
        let before = free_text::line_operations(lines, (n - 1) as nat, leading);
        let after = free_text::line_operations(lines, n, leading);
        if let Some(ops) = after {
            let first = before->0;
            assert forall|k: int| 0 <= k < n implies shows(ops[2 * k], #[trigger] lines[k]) by {
                if k < n - 1 {
                    assert(ops[2 * k] == first[2 * k]);
                }
            }
            assert forall|k: int| 0 < k < n implies #[trigger] is_below(ops, 0, k, leading) by {
                if k < n - 1 {
                    assert(is_below(first, 0, k, leading));
                    assert(ops[2 * k - 1] == first[2 * k - 1]);
                } else {
                    assert(first.len() == 2 * k - 1);
                    assert(ops[2 * k - 1].0 == "Td"@);
                }
            }
        }
        if forall|k: int| 0 <= k < n ==> readable(#[trigger] lines[k]) {
            assert(before is Some);
            assert(readable(lines[n - 1]));
        } else if before is Some {
            assert(!readable(lines[n - 1]));
        }
    }
}

/// The appearance of a note is a text that begins with its font and its place, shows all
/// lines in order, each one leading below the one before, and ends. There is one exactly
/// where there are lines, all of them can be encoded, and the measures are sound.
pub proof fn law_note_shows_its_lines(
    lines: Seq<EncodedView>,
    key: Seq<u8>,
    size: Float,
    width: Float,
    height: Float,
    resources: DictView,
)
    ensures
        ({
            let made = free_text::drawn_lines(lines, key, size, width, height, resources);
            &&& made is Some <==> (free_text::measurable(width, height, size) && lines.len() > 0
                && forall|k: int| 0 <= k < lines.len() ==> readable(#[trigger] lines[k]))
            &&& made matches Some(view) ==> {
                let ops = view.operations;
                let n = lines.len();
                &&& ops.len() == 2 * n + 3
                &&& ops[0].0 == "BT"@
                &&& ops[1].0 == "Tf"@ && ops[1].1 == seq![
                    ObjectView::Name(key),
                    ObjectView::Real(size.narrowed()),
                ]
                &&& ops[2].0 == "Td"@
                &&& ops.last().0 == "ET"@
                &&& forall|k: int| 0 <= k < n ==> shows(ops[2 * k + 3], #[trigger] lines[k])
                &&& forall|k: int|
                    0 < k < n ==> #[trigger] is_below(
                        ops,
                        3,
                        k,
                        size.times(Float { bits: free_text::SPACING }),
                    )
            }
        }),
{
    let leading = size.times(Float { bits: free_text::SPACING });
    lemma_lines_shown(lines, lines.len(), leading);
    let made = free_text::drawn_lines(lines, key, size, width, height, resources);
    if let Some(view) = made {
        let shown = free_text::line_operations(lines, lines.len(), leading)->0;
        let first = free_text::opening(key, size, width, height);
        let ops = view.operations;
        assert(first.len() == 3);
        assert forall|k: int| 0 <= k < lines.len() implies shows(
            ops[2 * k + 3],
            #[trigger] lines[k],
        ) by {
            assert(ops[2 * k + 3] == shown[2 * k]);
        }
        assert forall|k: int| 0 < k < lines.len() implies #[trigger] is_below(
            ops,
            3,
            k,
            leading,
        ) by {
            assert(is_below(shown, 0, k, leading));
            assert(ops[2 * k + 2] == shown[2 * k - 1]);
        }
    }
}

/// The text of a note keeps away from the sides of its box: by no more than a quarter of
/// the width or of the height, and no more than the margin, and its first line stands no
/// lower than that.
pub proof fn law_note_keeps_its_padding(key: Seq<u8>, size: Float, width: Float, height: Float)
    requires
        free_text::measurable(width, height, size),
        !width.over(Float { bits: free_text::FOUR }).nan(),
        !height.over(Float { bits: free_text::FOUR }).nan(),
        !height.minus(size).minus(free_text::padding(width, height)).nan(),
    ensures
        ({
            let pad = free_text::padding(width, height);
            let place = free_text::opening(key, size, width, height)[2].1;
            &&& pad.at_most(width.over(Float { bits: free_text::FOUR }))
            &&& pad.at_most(height.over(Float { bits: free_text::FOUR }))
            &&& pad.at_most(Float { bits: free_text::MARGIN })
            &&& place.len() == 2
            &&& place[0] == ObjectView::Real(pad.narrowed())
            &&& exists|baseline: Float|
                place[1] == ObjectView::Real(#[trigger] baseline.narrowed()) && pad.at_most(
                    baseline,
                ) && (baseline == pad || baseline == height.minus(size).minus(pad))
        }),
{
    let pad = free_text::padding(width, height);
    let baseline = height.minus(size).minus(pad).larger(pad);
    let place = free_text::opening(key, size, width, height)[2].1;
    assert(place[1] == ObjectView::Real(baseline.narrowed()));
    assert(!(Float { bits: free_text::MARGIN }).nan());
}

proof fn lemma_keys_differ()
    ensures
        encode_utf8("Type"@) != encode_utf8("Subtype"@),
        encode_utf8("BBox"@) != encode_utf8("Subtype"@),
        encode_utf8("BBox"@) != encode_utf8("Resources"@),
        encode_utf8("Resources"@) != encode_utf8("Subtype"@),
        encode_utf8("BaseFont"@) != encode_utf8("Subtype"@),
        encode_utf8("BaseFont"@) != encode_utf8("Encoding"@),
        encode_utf8("Encoding"@) != encode_utf8("Subtype"@),
{
    reveal_strlit("Type");
    reveal_strlit("Subtype");
    reveal_strlit("BBox");
    reveal_strlit("Resources");
    reveal_strlit("BaseFont");
    reveal_strlit("Encoding");
    assert("BaseFont"@[0] == 'B' && "Encoding"@[0] == 'E');
    strings::lemma_encoding_tells("Type"@, "Subtype"@);
    strings::lemma_encoding_tells("BBox"@, "Subtype"@);
    strings::lemma_encoding_tells("BBox"@, "Resources"@);
    strings::lemma_encoding_tells("Resources"@, "Subtype"@);
    strings::lemma_encoding_tells("BaseFont"@, "Subtype"@);
    strings::lemma_encoding_tells("BaseFont"@, "Encoding"@);
    strings::lemma_encoding_tells("Encoding"@, "Subtype"@);
}

/// The appearance of a note is a form as large as the box of the note, and has the given
/// resources.
pub proof fn law_note_is_a_form(
    lines: Seq<EncodedView>,
    key: Seq<u8>,
    size: Float,
    width: Float,
    height: Float,
    resources: DictView,
    view: AppearanceView,
)
    requires
        free_text::drawn_lines(lines, key, size, width, height, resources) == Some(view),
    ensures
        object::named(view.dict, "Subtype"@) == Some(ObjectView::Name(encode_utf8("Form"@))),
        object::named(view.dict, "Resources"@) == Some(ObjectView::Dictionary(resources)),
        object::named(view.dict, "BBox"@) matches Some(ObjectView::Array(items)) && {
            &&& items.len() == 4
            &&& items[0] == ObjectView::Integer(0)
            &&& items[1] == ObjectView::Integer(0)
            &&& items[2] == ObjectView::Real(width.narrowed())
            &&& items[3] == ObjectView::Real(height.narrowed())
        },
{
    lemma_keys_differ();
    let a = free_text::and_entry(Seq::empty(), "Type"@, free_text::name("XObject"@));
    let form = free_text::name("Form"@);
    let b = free_text::and_entry(a, "Subtype"@, form);
    let area = ObjectView::Array(
        seq![
            ObjectView::Integer(0),
            ObjectView::Integer(0),
            free_text::single(width),
            free_text::single(height),
        ],
    );
    let c = free_text::and_entry(b, "BBox"@, area);
    let all = ObjectView::Dictionary(resources);
    object::law_entry_found(a, encode_utf8("Subtype"@), form);
    object::law_entry_found(b, encode_utf8("BBox"@), area);
    object::law_entry_found(c, encode_utf8("Resources"@), all);
    object::law_entry_kept(b, encode_utf8("BBox"@), area, encode_utf8("Subtype"@));
    object::law_entry_kept(c, encode_utf8("Resources"@), all, encode_utf8("Subtype"@));
    object::law_entry_kept(c, encode_utf8("Resources"@), all, encode_utf8("BBox"@));
}

/// Resources are given a standard font under the key that asks for one: a Type 1 font under
/// the name that the key stood for. All other fonts and resources stay as they were.
pub proof fn law_standard_font_is_given(
    file: FileView,
    resources: DictView,
    key: Seq<u8>,
    after: DictView,
)
    requires
        free_text::with_standard_font(file, resources, key) == Some(after),
    ensures
        forall|other: Seq<u8>|
            other != encode_utf8("Font"@) ==> #[trigger] object::entry(after, other)
                == object::entry(resources, other),
        object::named(after, "Font"@) matches Some(ObjectView::Dictionary(fonts)) && {
            &&& forall|other: Seq<u8>|
                other != key ==> #[trigger] object::entry(fonts, other) == object::entry(
                    free_text::fonts_of(file, resources)->0,
                    other,
                )
            &&& object::entry(fonts, key) matches Some(ObjectView::Dictionary(font)) && {
                &&& object::named(font, "Subtype"@) == Some(
                    ObjectView::Name(encode_utf8("Type1"@)),
                )
                &&& object::named(font, "Encoding"@) == Some(
                    ObjectView::Name(encode_utf8("WinAnsiEncoding"@)),
                )
                &&& exists|base: Seq<char>|
                    object::named(font, "BaseFont"@) == Some(
                        ObjectView::Name(#[trigger] encode_utf8(base)),
                    ) && free_text::standard(base) && free_text::base_font(
                        file,
                        free_text::fonts_of(file, resources)->0,
                        key,
                    ) == Some(base)
            }
        },
{
    lemma_keys_differ();
    let before = free_text::fonts_of(file, resources)->0;
    let base = free_text::base_font(file, before, key)->0;
    let font = free_text::font_dictionary(base);
    let value = ObjectView::Dictionary(font);
    let fonts = object::with_entry(before, key, value);
    let whole = ObjectView::Dictionary(fonts);
    object::law_entry_found(resources, encode_utf8("Font"@), whole);
    object::law_entry_found(before, key, value);
    assert forall|other: Seq<u8>| other != encode_utf8("Font"@) implies #[trigger] object::entry(
        after,
        other,
    ) == object::entry(resources, other) by {
        object::law_entry_kept(resources, encode_utf8("Font"@), whole, other);
    }
    assert forall|other: Seq<u8>| other != key implies #[trigger] object::entry(fonts, other)
        == object::entry(before, other) by {
        object::law_entry_kept(before, key, value, other);
    }
    let a = free_text::and_entry(Seq::empty(), "Type"@, free_text::name("Font"@));
    let kind = free_text::name("Type1"@);
    let b = free_text::and_entry(a, "Subtype"@, kind);
    let called = free_text::name(base);
    let c = free_text::and_entry(b, "BaseFont"@, called);
    let encoding = free_text::name("WinAnsiEncoding"@);
    object::law_entry_found(a, encode_utf8("Subtype"@), kind);
    object::law_entry_found(b, encode_utf8("BaseFont"@), called);
    object::law_entry_found(c, encode_utf8("Encoding"@), encoding);
    object::law_entry_kept(b, encode_utf8("BaseFont"@), called, encode_utf8("Subtype"@));
    object::law_entry_kept(c, encode_utf8("Encoding"@), encoding, encode_utf8("Subtype"@));
    object::law_entry_kept(c, encode_utf8("Encoding"@), encoding, encode_utf8("BaseFont"@));
    assert(object::named(font, "BaseFont"@) == Some(ObjectView::Name(encode_utf8(base))));
}

/// The appearance of a note is as wide and as high as its box, whichever of its corners are
/// named.
pub proof fn law_note_fills_its_box(
    file: FileView,
    annotation: DictView,
    a: Float,
    b: Float,
    c: Float,
    d: Float,
    resources: DictView,
    given: ContentView,
)
    ensures
        ({
            let made = free_text::synthesized(file, annotation, (a, b, c, d), resources, given);
            &&& made == free_text::synthesized(file, annotation, (c, b, a, d), resources, given)
            &&& made == free_text::synthesized(file, annotation, (a, d, c, b), resources, given)
            &&& made matches Some(view) ==> (object::named(view.dict, "BBox"@) matches Some(
                ObjectView::Array(items),
            ) && {
                &&& items.len() == 4
                &&& items[2] == ObjectView::Real(c.minus(a).absolute().narrowed())
                &&& items[3] == ObjectView::Real(d.minus(b).absolute().narrowed())
            })
        }),
{
    laws::law_distance_is_symmetric(a, c);
    laws::law_distance_is_symmetric(b, d);
    let made = free_text::synthesized(file, annotation, (a, b, c, d), resources, given);
    if let Some(view) = made {
        let text = free_text::note_text(annotation)->0;
        let (key, size) = free_text::default_font(
            free_text::note_appearance(annotation)->0,
            given,
        )->0;
        law_note_is_a_form(
            free_text::encoded_lines(free_text::shown_lines(text)),
            key,
            size,
            c.minus(a).absolute(),
            d.minus(b).absolute(),
            free_text::with_standard_font(file, resources, key)->0,
            view,
        );
    }
}

} // verus!
