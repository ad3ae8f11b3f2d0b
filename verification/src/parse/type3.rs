//! Text in fonts whose glyphs are content of their own.

use super::collector;
use super::collector::CollectorOutput;
use super::forms;
use super::forms::close_form;
use super::forms::find_form;
use super::forms::find_xobject;
use super::forms::OpenForm;
use super::forms::MAX_FORM_XOBJECT_DEPTH;
use super::images;
use super::images::first_name;
use super::numbers;
use super::numbers::transform_from_operands;
use super::page_geometry::PageGeometry;
use super::page_paths;
use super::page_paths::collect_stream;
use crate::error::Error;
use crate::error::ErrorView;
use crate::error::FileError;
use crate::float::Float;
use crate::float::ONE;
use crate::float::ZERO;
use crate::pdf::content;
use crate::pdf::content::read_operations;
use crate::pdf::file;
use crate::pdf::file::FileView;
use crate::pdf::file::PdfFile;
use crate::pdf::object;
use crate::pdf::object::obj_to_f64;
use crate::pdf::object::ContentView;
use crate::pdf::object::DictView;
use crate::pdf::object::ObjectId;
use crate::pdf::object::ObjectView;
use crate::pdf::object::OperationView;
use crate::pdf::object::PdfContent;
use crate::pdf::object::PdfDictionary;
use crate::pdf::object::PdfObject;
use crate::pdf::object::PdfOperation;
use crate::pdf::text;
use crate::pdf::text::decode_pdf_string;
use crate::strings;
use crate::transform::Transform;
use crate::types;
use crate::types::Char;
use crate::types::CharView;
use crate::types::Curve;
use crate::types::DrawnView;
use crate::types::Line;
use crate::types::RectObject;
use font::read_font;
use font::FontEntry;
use font::FontEntryView;
use font::FontView;
use font::Glyph;
use font::GlyphView;
use font::Type3Font;
use vstd::prelude::*;

pub mod font;

verus! {

/// How many glyphs of such fonts a page may show.
pub const MAX_TYPE3_GLYPH_INVOCATIONS_PER_PAGE: usize = 20_000;

/// The bits of a hundred.
pub const HUNDRED: u64 = 0x4059_0000_0000_0000;

/// The bits of a thousand.
pub const THOUSAND: u64 = 0x408f_4000_0000_0000;

/// The bits of the part of its size by which a glyph may miss its slot.
pub const SLOT_SHARE: u64 = 0x3fb4_7ae1_47ae_147b;

/// The bits of the distance by which every glyph may miss its slot.
pub const SLOT_REACH: u64 = 0x3fe0_0000_0000_0000;

/// What is fixed while the content of a page is read.
#[verifier::ext_equal]
pub struct Scene {
    pub file: FileView,
    pub fonts: Seq<FontEntryView>,
    pub geom: PageGeometry,
    pub page_number: usize,
}

/// How text is shown.
pub struct TextView {
    pub font: Option<FontView>,
    pub font_size: Float,
    pub character_spacing: Float,
    pub word_spacing: Float,
    pub horizontal_scaling: Float,
    pub leading: Float,
    pub rise: Float,
    pub text_matrix: Transform,
    pub line_matrix: Transform,
}

impl TextView {
    /// How text is shown at the beginning.
    pub open spec fn plain() -> TextView {
        let zero = Float { bits: ZERO };
        TextView {
            font: None,
            font_size: zero,
            character_spacing: zero,
            word_spacing: zero,
            horizontal_scaling: Float { bits: ONE },
            leading: zero,
            rise: zero,
            text_matrix: Transform::neutral(),
            line_matrix: Transform::neutral(),
        }
    }
}

/// A text that stands for all the text shown within a mark, and whether it has been given.
#[verifier::ext_equal]
pub struct MarkedView {
    pub text: Seq<char>,
    pub emitted: bool,
}

/// What is in effect while content is read.
#[verifier::ext_equal]
pub struct GraphicsView {
    pub ctm: Transform,
    pub text: TextView,
    pub marks: Seq<Option<MarkedView>>,
}

impl GraphicsView {
    /// What is in effect at the beginning.
    pub open spec fn plain() -> GraphicsView {
        GraphicsView {
            ctm: Transform::neutral(),
            text: TextView::plain(),
            marks: Seq::empty(),
        }
    }
}

/// What has been shown so far, and how many glyphs may still be shown.
#[verifier::ext_equal]
pub struct Output {
    pub chars: Seq<CharView>,
    pub lines: Seq<DrawnView>,
    pub rects: Seq<DrawnView>,
    pub curves: Seq<DrawnView>,
    pub budget: nat,
}

/// How far the reading of content has come.
#[verifier::ext_equal]
pub struct Stage {
    pub now: GraphicsView,
    pub saved: Seq<GraphicsView>,
    pub out: Output,
}

/// Why text could not be shown, and how far the showing had come.
pub struct Halt {
    pub error: ErrorView,
    pub now: GraphicsView,
    pub out: Output,
}

/// The place of the innermost mark with a text.
pub open spec fn innermost(marks: Seq<Option<MarkedView>>) -> Option<int>
    decreases marks.len(),
{
    if marks.len() == 0 {
        None
    } else if marks.last() is Some {
        Some(marks.len() - 1)
    } else {
        innermost(marks.drop_last())
    }
}

/// The text that the innermost mark gives: its own, once and only for the first glyph of a
/// string; else none.
pub open spec fn marked_text(marks: Seq<Option<MarkedView>>, first: bool) -> Option<Seq<char>> {
    match innermost(marks) {
        None => None,
        Some(k) => if marks[k]->0.emitted || !first {
            Some(Seq::empty())
        } else {
            Some(marks[k]->0.text)
        },
    }
}

/// The marks once the innermost one has been asked for its text.
pub open spec fn marks_after(marks: Seq<Option<MarkedView>>, first: bool) -> Seq<
    Option<MarkedView>,
> {
    match innermost(marks) {
        None => marks,
        Some(k) => if marks[k]->0.emitted || !first {
            marks
        } else {
            marks.update(k, Some(MarkedView { text: marks[k]->0.text, emitted: true }))
        },
    }
}

/// The text of a mark is given only once.
pub proof fn law_marked_text_once(marks: Seq<Option<MarkedView>>)
    ensures
        marked_text(marks, true) matches Some(_) ==> marked_text(
            marks_after(marks, true),
            true,
        ) == Some(Seq::<char>::empty()),
        marked_text(marks, true) is None ==> marks_after(marks, true) == marks,
{
    lemma_innermost(marks);
    if let Some(k) = innermost(marks) {
        let after = marks_after(marks, true);
        lemma_innermost(after);
        lemma_innermost_kept(marks, after, k);
    }
}

proof fn lemma_innermost(marks: Seq<Option<MarkedView>>)
    ensures
        innermost(marks) matches Some(k) ==> 0 <= k < marks.len() && marks[k] is Some && forall|
            i: int,
        |
            k < i < marks.len() ==> #[trigger] marks[i] is None,
        innermost(marks) is None ==> forall|i: int|
            0 <= i < marks.len() ==> #[trigger] marks[i] is None,
    decreases marks.len(),
{
    if marks.len() > 0 && marks.last() is None {
        let front = marks.drop_last();
        lemma_innermost(front);
        assert forall|i: int| 0 <= i < front.len() implies front[i] == #[trigger] marks[i] by {}
    }
}

proof fn lemma_innermost_kept(
    marks: Seq<Option<MarkedView>>,
    after: Seq<Option<MarkedView>>,
    k: int,
)
    requires
        innermost(marks) == Some(k),
        after.len() == marks.len(),
        forall|i: int| 0 <= i < marks.len() ==> (#[trigger] after[i] is Some == marks[i] is Some),
    ensures
        innermost(after) == Some(k),
{
    lemma_innermost(marks);
    lemma_innermost(after);
    assert(after[k] is Some);
    match innermost(after) {
        None => {},
        Some(j) => {
            assert(marks[j] is Some == after[j] is Some);
            if j < k {
                assert(after[k] is None);
            } else if j > k {
                assert(marks[j] is None);
            }
        },
    }
}

/// The matrix that text is shown with, before its size.
pub open spec fn text_transform(g: GraphicsView, across: Float, up: Float) -> Transform {
    let zero = Float { bits: ZERO };
    (Transform {
        m11: across,
        m12: zero,
        m21: zero,
        m22: up,
        m31: zero,
        m32: g.text.rise,
    }).then_apply(g.text.text_matrix.then_apply(g.ctm))
}

/// Text moved by the given distances.
pub open spec fn shifted(t: TextView, tx: Float, ty: Float) -> TextView {
    TextView { text_matrix: Transform::translation(tx, ty).then_apply(t.text_matrix), ..t }
}

/// The drawn objects, marked as parts of glyphs.
pub open spec fn as_glyph(drawn: Seq<DrawnView>) -> Seq<DrawnView> {
    drawn.map_values(|d: DrawnView| DrawnView { object_type: "type3_glyph"@, ..d })
}

/// What drawing a glyph adds.
pub open spec fn with_glyph(
    scene: Scene,
    font: FontView,
    glyph: GlyphView,
    g: GraphicsView,
    out: Output,
) -> Result<Output, ErrorView> {
    match glyph {
        GlyphView::Missing => Ok(out),
        GlyphView::Broken(e) => Err(ErrorView::Lopdf(e)),
        GlyphView::Stream(content) => match page_paths::paths_in(
            scene.file,
            content,
            font.resources,
            scene.geom,
            scene.page_number,
            font.font_matrix.then_apply(
                text_transform(
                    g,
                    g.text.font_size.times(g.text.horizontal_scaling),
                    g.text.font_size,
                ),
            ),
        ) {
            Err(e) => Err(e),
            Ok(paths) => Ok(
                Output {
                    lines: out.lines + as_glyph(paths.lines),
                    rects: out.rects + as_glyph(paths.rects),
                    curves: out.curves + as_glyph(paths.curves),
                    ..out
                },
            ),
        },
    }
}

/// How far text moves on behind a glyph.
pub open spec fn glyph_advance(t: TextView, code: u8, advance: Float) -> Float {
    let word_spacing = if code == 0x20 {
        t.word_spacing
    } else {
        Float { bits: ZERO }
    };
    advance.times(t.font_size).plus(t.character_spacing).plus(word_spacing).times(
        t.horizontal_scaling,
    )
}

/// What showing a glyph leads to.
pub open spec fn glyph_shown(
    scene: Scene,
    font: FontView,
    code: u8,
    first: bool,
    g: GraphicsView,
    out: Output,
) -> Result<(GraphicsView, Output), Halt> {
    if out.budget == 0 {
        Err(
            Halt {
                error: ErrorView::Message(
                    "page exceeds maximum of 20000 Type3 glyph invocations"@,
                ),
                now: g,
                out,
            },
        )
    } else {
        let point = font.codes[code as int];
        let text = match marked_text(g.marks, first) {
            Some(text) => text,
            None => point.text,
        };
        let shown = collector::shown_char(
            scene.geom,
            scene.page_number,
            text_transform(g, g.text.horizontal_scaling, Float { bits: ONE }),
            point.advance,
            g.text.font_size,
            text,
        );
        let next = Output {
            chars: out.chars.push(CharView { fontname: font.fontname, ..shown }),
            budget: (out.budget - 1) as nat,
            ..out
        };
        match with_glyph(scene, font, point.glyph, g, next) {
            Err(error) => Err(
                Halt {
                    error,
                    now: GraphicsView { marks: marks_after(g.marks, first), ..g },
                    out: next,
                },
            ),
            Ok(drawn) => Ok(
                (
                    GraphicsView {
                        text: shifted(
                            g.text,
                            glyph_advance(g.text, code, point.advance),
                            Float { bits: ZERO },
                        ),
                        marks: marks_after(g.marks, first),
                        ..g
                    },
                    drawn,
                ),
            ),
        }
    }
}

/// What showing the first `n` glyphs of a string leads to.
pub open spec fn glyphs_shown(
    scene: Scene,
    font: FontView,
    bytes: Seq<u8>,
    n: nat,
    g: GraphicsView,
    out: Output,
) -> Result<(GraphicsView, Output), Halt>
    decreases n,
{
    if n == 0 || n > bytes.len() {
        Ok((g, out))
    } else {
        match glyphs_shown(scene, font, bytes, (n - 1) as nat, g, out) {
            Err(e) => Err(e),
            Ok((g1, out1)) => glyph_shown(scene, font, bytes[n - 1], n == 1, g1, out1),
        }
    }
}

/// What showing a string leads to; nothing where no such font is set.
pub open spec fn string_shown(scene: Scene, bytes: Seq<u8>, g: GraphicsView, out: Output) -> Result<
    (GraphicsView, Output),
    Halt,
> {
    match g.text.font {
        None => Ok((g, out)),
        Some(font) => glyphs_shown(scene, font, bytes, bytes.len(), g, out),
    }
}

/// What showing an object leads to, if it is a string.
pub open spec fn object_shown(
    scene: Scene,
    operand: Option<ObjectView>,
    g: GraphicsView,
    out: Output,
) -> Result<(GraphicsView, Output), Halt> {
    match operand {
        Some(ObjectView::Text(bytes, _)) => string_shown(scene, bytes, g, out),
        _ => Ok((g, out)),
    }
}

/// What showing the first `n` items of an array leads to: strings, and adjustments between
/// them.
pub open spec fn items_shown(
    scene: Scene,
    items: Seq<ObjectView>,
    n: nat,
    g: GraphicsView,
    out: Output,
) -> Result<(GraphicsView, Output), Halt>
    decreases n,
{
    if n == 0 || n > items.len() {
        Ok((g, out))
    } else {
        let item = items[n - 1];
        match items_shown(scene, items, (n - 1) as nat, g, out) {
            Err(e) => Err(e),
            Ok((g1, out1)) => match item {
                ObjectView::Text(bytes, _) => string_shown(scene, bytes, g1, out1),
                _ => match object::number(item) {
                    Some(adjustment) => {
                        let tx = adjustment.negated().over(Float { bits: THOUSAND }).times(
                            g1.text.font_size,
                        ).times(g1.text.horizontal_scaling);
                        Ok(
                            (
                                GraphicsView {
                                    text: shifted(g1.text, tx, Float { bits: ZERO }),
                                    ..g1
                                },
                                out1,
                            ),
                        )
                    },
                    None => Ok((g1, out1)),
                },
            },
        }
    }
}

/// The first operand, if there is one.
pub open spec fn first(operands: Seq<ObjectView>) -> Option<ObjectView> {
    if operands.len() > 0 {
        Some(operands[0])
    } else {
        None
    }
}

/// The number that the first operand is, else the one before.
pub open spec fn set_to(before: Float, operands: Seq<ObjectView>) -> Float {
    match page_paths::operand(operands, 0) {
        Some(x) => x,
        None => before,
    }
}

/// The number that an operand is, else zero.
pub open spec fn or_zero(operands: Seq<ObjectView>, at: int) -> Float {
    match page_paths::operand(operands, at) {
        Some(x) => x,
        None => Float { bits: ZERO },
    }
}

/// Text on a new line, moved by the given distances from the beginning of the last.
pub open spec fn moved_line(t: TextView, tx: Float, ty: Float) -> TextView {
    let line = Transform::translation(tx, ty).then_apply(t.line_matrix);
    TextView { line_matrix: line, text_matrix: line, ..t }
}

/// Text on the next line.
pub open spec fn next_line(t: TextView) -> TextView {
    moved_line(t, Float { bits: ZERO }, t.leading.negated())
}

/// How text is shown after an operator that sets nothing else.
pub open spec fn text_set(t: TextView, op: OperationView) -> TextView {
    if op.0 == "BT"@ || op.0 == "ET"@ {
        TextView { text_matrix: Transform::neutral(), line_matrix: Transform::neutral(), ..t }
    } else if op.0 == "Tc"@ {
        TextView { character_spacing: set_to(t.character_spacing, op.1), ..t }
    } else if op.0 == "Tw"@ {
        TextView { word_spacing: set_to(t.word_spacing, op.1), ..t }
    } else if op.0 == "Tz"@ {
        match page_paths::operand(op.1, 0) {
            Some(x) => TextView { horizontal_scaling: x.over(Float { bits: HUNDRED }), ..t },
            None => t,
        }
    } else if op.0 == "TL"@ {
        TextView { leading: set_to(t.leading, op.1), ..t }
    } else if op.0 == "Ts"@ {
        TextView { rise: set_to(t.rise, op.1), ..t }
    } else if op.0 == "Td"@ {
        if op.1.len() < 2 {
            t
        } else {
            moved_line(t, or_zero(op.1, 0), or_zero(op.1, 1))
        }
    } else if op.0 == "TD"@ {
        if op.1.len() < 2 {
            t
        } else {
            moved_line(
                TextView { leading: or_zero(op.1, 1).negated(), ..t },
                or_zero(op.1, 0),
                or_zero(op.1, 1),
            )
        }
    } else if op.0 == "T*"@ {
        next_line(t)
    } else {
        t
    }
}

/// How text is shown after a font has been set.
pub open spec fn font_set(scene: Scene, resources: DictView, t: TextView, operands: Seq<ObjectView>) -> Result<
    TextView,
    ErrorView,
> {
    if operands.len() < 2 {
        Ok(t)
    } else {
        match operands[0] {
            ObjectView::Name(name) => match font::font_for(scene.fonts, resources, name) {
                Err(e) => Err(e),
                Ok(font) => Ok(TextView { font, font_size: or_zero(operands, 1), ..t }),
            },
            _ => Ok(t),
        }
    }
}

/// The dictionary that an object is or leads to, where there is one.
pub open spec fn some_dictionary(file: FileView, object: ObjectView) -> Option<DictView> {
    match file::dictionary_of(file, object) {
        Ok(dict) => Some(dict),
        Err(_) => None,
    }
}

/// The properties of a mark: given with it, or under a name of the resources.
pub open spec fn properties(file: FileView, resources: DictView, object: ObjectView) -> Option<
    DictView,
> {
    match object {
        ObjectView::Dictionary(dict) => Some(dict),
        ObjectView::Reference(_) => some_dictionary(file, object),
        ObjectView::Name(name) => match object::named(resources, "Properties"@) {
            Some(all) => match some_dictionary(file, all) {
                Some(dict) => match object::entry(dict, name) {
                    Some(o) => some_dictionary(file, o),
                    None => None,
                },
                None => None,
            },
            None => None,
        },
        _ => None,
    }
}

/// The text that a mark gives for all the text within it.
pub open spec fn mark_text(file: FileView, resources: DictView, object: ObjectView) -> Option<
    Seq<char>,
> {
    match properties(file, resources, object) {
        Some(dict) => match object::named(dict, "ActualText"@) {
            Some(o) => text::object_text(o),
            None => None,
        },
        None => None,
    }
}

/// The mark that an operator sets.
pub open spec fn mark(file: FileView, resources: DictView, operands: Seq<ObjectView>) -> Option<
    MarkedView,
> {
    if operands.len() > 1 {
        match mark_text(file, resources, operands[1]) {
            Some(text) => Some(MarkedView { text, emitted: false }),
            None => None,
        }
    } else {
        None
    }
}

/// The stage that showing text leads to.
pub open spec fn staged(s: Stage, shown: Result<(GraphicsView, Output), Halt>) -> Result<
    Stage,
    Halt,
> {
    match shown {
        Err(e) => Err(e),
        Ok((now, out)) => Ok(Stage { now, out, ..s }),
    }
}

/// How far the reading has come once an operator other than `Do` has been read.
pub open spec fn acted(scene: Scene, resources: DictView, s: Stage, op: OperationView) -> Result<
    Stage,
    Halt,
> {
    let g = s.now;
    if op.0 == "q"@ {
        Ok(Stage { saved: s.saved.push(g), ..s })
    } else if op.0 == "Q"@ {
        if s.saved.len() > 0 {
            Ok(Stage { now: s.saved.last(), saved: s.saved.drop_last(), ..s })
        } else {
            Ok(Stage { now: GraphicsView::plain(), ..s })
        }
    } else if op.0 == "cm"@ {
        match numbers::matrix(op.1) {
            Ok(m) => Ok(Stage { now: GraphicsView { ctm: m.then_apply(g.ctm), ..g }, ..s }),
            Err(error) => Err(Halt { error, now: g, out: s.out }),
        }
    } else if op.0 == "Tf"@ {
        match font_set(scene, resources, g.text, op.1) {
            Ok(text) => Ok(Stage { now: GraphicsView { text, ..g }, ..s }),
            Err(error) => Err(Halt { error, now: g, out: s.out }),
        }
    } else if op.0 == "Tm"@ {
        match numbers::matrix(op.1) {
            Ok(m) => Ok(
                Stage {
                    now: GraphicsView {
                        text: TextView { text_matrix: m, line_matrix: m, ..g.text },
                        ..g
                    },
                    ..s
                },
            ),
            Err(error) => Err(Halt { error, now: g, out: s.out }),
        }
    } else if op.0 == "Tj"@ {
        staged(s, object_shown(scene, first(op.1), g, s.out))
    } else if op.0 == "TJ"@ {
        match first(op.1) {
            Some(ObjectView::Array(items)) => staged(
                s,
                items_shown(scene, items, items.len(), g, s.out),
            ),
            _ => Ok(s),
        }
    } else if op.0 == "'"@ {
        staged(
            s,
            object_shown(
                scene,
                first(op.1),
                GraphicsView { text: next_line(g.text), ..g },
                s.out,
            ),
        )
    } else if op.0 == "\""@ {
        if op.1.len() >= 3 {
            let spaced = TextView {
                word_spacing: or_zero(op.1, 0),
                character_spacing: or_zero(op.1, 1),
                ..g.text
            };
            staged(
                s,
                object_shown(
                    scene,
                    Some(op.1[2]),
                    GraphicsView { text: next_line(spaced), ..g },
                    s.out,
                ),
            )
        } else {
            Ok(s)
        }
    } else if op.0 == "BDC"@ || op.0 == "BMC"@ {
        Ok(
            Stage {
                now: GraphicsView {
                    marks: g.marks.push(mark(scene.file, resources, op.1)),
                    ..g
                },
                ..s
            },
        )
    } else if op.0 == "EMC"@ {
        Ok(
            Stage {
                now: GraphicsView {
                    marks: if g.marks.len() > 0 {
                        g.marks.drop_last()
                    } else {
                        g.marks
                    },
                    ..g
                },
                ..s
            },
        )
    } else {
        Ok(Stage { now: GraphicsView { text: text_set(g.text, op), ..g }, ..s })
    }
}

/// What is in effect in a form.
pub open spec fn in_form(g: GraphicsView, matrix: Option<Transform>) -> GraphicsView {
    GraphicsView { ctm: page_paths::form_ctm(g.ctm, matrix), ..g }
}

/// The form that the resources have under a name, if any.
pub open spec fn form_named(
    file: FileView,
    resources: DictView,
    name: Seq<char>,
    depth: nat,
    active: Seq<ObjectId>,
) -> Result<Option<forms::FormView>, ErrorView> {
    match forms::xobject(file, resources, name) {
        Err(e) => Err(e),
        Ok(None) => Ok(None),
        Ok(Some(target)) => forms::form_at(file, resources, target, depth, active),
    }
}

/// The ids of the forms being read once the form under a name could not be opened.
pub open spec fn left_by(
    file: FileView,
    resources: DictView,
    name: Seq<char>,
    depth: nat,
    active: Seq<ObjectId>,
) -> Seq<ObjectId> {
    match forms::xobject(file, resources, name) {
        Ok(Some(target)) => forms::left_active_at(file, resources, target, depth, active),
        _ => active,
    }
}

/// A failure in a form as one in the content that uses it: the form is read no more.
pub open spec fn left_form(
    f: forms::Failure<Stage>,
    id: Option<ObjectId>,
) -> forms::Failure<Output> {
    forms::Failure {
        error: f.error,
        at: f.at.out,
        active: forms::deactivated(f.active, id),
    }
}

/// What the use of a form leads to, in the content that uses it.
pub open spec fn back_from_form(s: Stage, result: Result<Output, forms::Failure<Output>>) -> Result<
    Stage,
    forms::Failure<Stage>,
> {
    match result {
        Ok(out) => Ok(Stage { out, ..s }),
        Err(f) => Err(
            forms::Failure { error: f.error, at: Stage { out: f.at, ..s }, active: f.active },
        ),
    }
}

/// What an operator other than `Do` leads to.
pub open spec fn after_acting(
    s: Stage,
    active: Seq<ObjectId>,
    result: Result<Stage, Halt>,
) -> Result<Stage, forms::Failure<Stage>> {
    match result {
        Ok(after) => Ok(after),
        Err(h) => Err(
            forms::Failure {
                error: h.error,
                at: Stage { now: h.now, out: h.out, ..s },
                active,
            },
        ),
    }
}

/// How far the reading has come after the first `n` operations.
pub open spec fn walked(
    scene: Scene,
    ops: Seq<OperationView>,
    n: nat,
    resources: DictView,
    depth: nat,
    active: Seq<ObjectId>,
    start: Stage,
) -> Result<Stage, forms::Failure<Stage>>
    decreases MAX_FORM_XOBJECT_DEPTH - depth, n,
{
    if n == 0 || n > ops.len() {
        Ok(start)
    } else {
        let op = ops[n - 1];
        match walked(scene, ops, (n - 1) as nat, resources, depth, active, start) {
            Err(e) => Err(e),
            Ok(s) => if op.0 == "Do"@ {
                match images::operand_name(op) {
                    None => Ok(s),
                    Some(name) => match form_named(scene.file, resources, name, depth, active) {
                        Err(error) => Err(
                            forms::Failure {
                                error,
                                at: s,
                                active: left_by(scene.file, resources, name, depth, active),
                            },
                        ),
                        Ok(None) => Ok(s),
                        Ok(Some(form)) => if depth < MAX_FORM_XOBJECT_DEPTH {
                            match walked(
                                scene,
                                form.ops,
                                form.ops.len(),
                                form.resources,
                                depth + 1,
                                form.active,
                                Stage {
                                    now: in_form(s.now, form.matrix),
                                    saved: Seq::empty(),
                                    out: s.out,
                                },
                            ) {
                                Ok(inner) => Ok(Stage { out: inner.out, ..s }),
                                Err(f) => back_from_form(s, Err(left_form(f, form.id))),
                            }
                        } else {
                            Ok(s)
                        },
                    },
                }
            } else {
                after_acting(s, active, acted(scene, resources, s, op))
            },
        }
    }
}

/// How far the reading has come once a form has been used.
pub open spec fn finished(
    scene: Scene,
    resources: DictView,
    name: Seq<char>,
    depth: nat,
    active: Seq<ObjectId>,
    now: GraphicsView,
    out: Output,
) -> Result<Output, forms::Failure<Output>> {
    match form_named(scene.file, resources, name, depth, active) {
        Err(error) => Err(
            forms::Failure {
                error,
                at: out,
                active: left_by(scene.file, resources, name, depth, active),
            },
        ),
        Ok(None) => Ok(out),
        Ok(Some(form)) => match walked(
            scene,
            form.ops,
            form.ops.len(),
            form.resources,
            depth + 1,
            form.active,
            Stage { now: in_form(now, form.matrix), saved: Seq::empty(), out },
        ) {
            Ok(inner) => Ok(inner.out),
            Err(f) => Err(left_form(f, form.id)),
        },
    }
}

/// How far the reading has come once one more operation has been read.
#[verifier::opaque]
pub open spec fn stepped(
    scene: Scene,
    op: OperationView,
    resources: DictView,
    depth: nat,
    active: Seq<ObjectId>,
    s: Stage,
) -> Result<Stage, forms::Failure<Stage>> {
    if op.0 == "Do"@ {
        match images::operand_name(op) {
            None => Ok(s),
            Some(name) => back_from_form(
                s,
                finished(scene, resources, name, depth, active, s.now, s.out),
            ),
        }
    } else {
        after_acting(s, active, acted(scene, resources, s, op))
    }
}

/// The reading goes on step by step.
proof fn lemma_step(
    scene: Scene,
    ops: Seq<OperationView>,
    n: nat,
    resources: DictView,
    depth: nat,
    active: Seq<ObjectId>,
    start: Stage,
)
    requires
        0 < n <= ops.len(),
    ensures
        walked(scene, ops, n, resources, depth, active, start) == (match walked(
            scene,
            ops,
            (n - 1) as nat,
            resources,
            depth,
            active,
            start,
        ) {
            Err(e) => Err(e),
            Ok(s) => stepped(scene, ops[n - 1], resources, depth, active, s),
        }),
{
    reveal(stepped);
}

/// Once the reading has failed, it has failed for good.
proof fn lemma_stopped(
    scene: Scene,
    ops: Seq<OperationView>,
    k: nat,
    n: nat,
    resources: DictView,
    depth: nat,
    active: Seq<ObjectId>,
    start: Stage,
)
    requires
        0 < k <= n <= ops.len(),
        walked(scene, ops, k, resources, depth, active, start) is Err,
    ensures
        walked(scene, ops, n, resources, depth, active, start) == walked(
            scene,
            ops,
            k,
            resources,
            depth,
            active,
            start,
        ),
    decreases n,
{
    if k < n {
        lemma_stopped(scene, ops, k, (n - 1) as nat, resources, depth, active, start);
    }
}

/// What content shows in such fonts.
pub open spec fn shown_in(scene: Scene, content: ContentView, resources: DictView) -> Result<
    Output,
    ErrorView,
> {
    match content::operations_of(content) {
        None => Err(ErrorView::Lopdf(FileError::InvalidContentStream)),
        Some(ops) => match walked(
            scene,
            ops,
            ops.len(),
            resources,
            0,
            Seq::empty(),
            Stage {
                now: GraphicsView::plain(),
                saved: Seq::empty(),
                out: Output {
                    chars: Seq::empty(),
                    lines: Seq::empty(),
                    rects: Seq::empty(),
                    curves: Seq::empty(),
                    budget: MAX_TYPE3_GLYPH_INVOCATIONS_PER_PAGE as nat,
                },
            },
        ) {
            Ok(s) => Ok(s.out),
            Err(f) => Err(f.error),
        },
    }
}

/// Whether all that was shown before still comes first, and every further character has
/// been paid for.
#[verifier::opaque]
pub open spec fn shows_on(before: Output, after: Output) -> bool {
    &&& before.chars.is_prefix_of(after.chars)
    &&& before.lines.is_prefix_of(after.lines)
    &&& before.rects.is_prefix_of(after.rects)
    &&& before.curves.is_prefix_of(after.curves)
    &&& after.chars.len() + after.budget == before.chars.len() + before.budget
}

proof fn lemma_shows_on(a: Output, b: Output, c: Output)
    ensures
        shows_on(a, a),
        shows_on(a, b) && shows_on(b, c) ==> shows_on(a, c),
{
    reveal(shows_on);
}

proof fn lemma_glyphs_paid(
    scene: Scene,
    font: FontView,
    bytes: Seq<u8>,
    n: nat,
    g: GraphicsView,
    out: Output,
)
    ensures
        glyphs_shown(scene, font, bytes, n, g, out) matches Ok(after) ==> shows_on(out, after.1),
    decreases n,
{
    lemma_shows_on(out, out, out);
    if 0 < n <= bytes.len() {
        lemma_glyphs_paid(scene, font, bytes, (n - 1) as nat, g, out);
        if let Ok((g1, out1)) = glyphs_shown(scene, font, bytes, (n - 1) as nat, g, out) {
            if let Ok((_, out2)) = glyph_shown(scene, font, bytes[n - 1], n == 1, g1, out1) {
                assert(shows_on(out1, out2)) by {
                    reveal(shows_on);
                }
                lemma_shows_on(out, out1, out2);
            }
        }
    }
}

proof fn lemma_string_paid(scene: Scene, bytes: Seq<u8>, g: GraphicsView, out: Output)
    ensures
        string_shown(scene, bytes, g, out) matches Ok(after) ==> shows_on(out, after.1),
{
    lemma_shows_on(out, out, out);
    if let Some(font) = g.text.font {
        lemma_glyphs_paid(scene, font, bytes, bytes.len(), g, out);
    }
}

proof fn lemma_object_paid(
    scene: Scene,
    operand: Option<ObjectView>,
    g: GraphicsView,
    out: Output,
)
    ensures
        object_shown(scene, operand, g, out) matches Ok(after) ==> shows_on(out, after.1),
{
    lemma_shows_on(out, out, out);
    if let Some(ObjectView::Text(bytes, _)) = operand {
        lemma_string_paid(scene, bytes, g, out);
    }
}

proof fn lemma_items_paid(
    scene: Scene,
    items: Seq<ObjectView>,
    n: nat,
    g: GraphicsView,
    out: Output,
)
    ensures
        items_shown(scene, items, n, g, out) matches Ok(after) ==> shows_on(out, after.1),
    decreases n,
{
    lemma_shows_on(out, out, out);
    if 0 < n <= items.len() {
        lemma_items_paid(scene, items, (n - 1) as nat, g, out);
        if let Ok((g1, out1)) = items_shown(scene, items, (n - 1) as nat, g, out) {
            if let ObjectView::Text(bytes, _) = items[n - 1] {
                lemma_string_paid(scene, bytes, g1, out1);
                if let Ok((_, out2)) = string_shown(scene, bytes, g1, out1) {
                    lemma_shows_on(out, out1, out2);
                }
            }
        }
    }
}

proof fn lemma_acted_paid(scene: Scene, resources: DictView, s: Stage, op: OperationView)
    ensures
        acted(scene, resources, s, op) matches Ok(after) ==> shows_on(s.out, after.out),
{
    let g = s.now;
    let spaced = TextView {
        word_spacing: or_zero(op.1, 0),
        character_spacing: or_zero(op.1, 1),
        ..g.text
    };
    lemma_shows_on(s.out, s.out, s.out);
    lemma_object_paid(scene, first(op.1), g, s.out);
    lemma_object_paid(
        scene,
        first(op.1),
        GraphicsView { text: next_line(g.text), ..g },
        s.out,
    );
    lemma_object_paid(
        scene,
        Some(op.1[2]),
        GraphicsView { text: next_line(spaced), ..g },
        s.out,
    );
    if let Some(ObjectView::Array(items)) = first(op.1) {
        lemma_items_paid(scene, items, items.len(), g, s.out);
    }
}

/// Reading content takes back nothing that was shown, and shows a character for every
/// glyph that it takes from the number of glyphs left.
pub proof fn law_glyphs_are_paid_for(
    scene: Scene,
    ops: Seq<OperationView>,
    n: nat,
    resources: DictView,
    depth: nat,
    active: Seq<ObjectId>,
    start: Stage,
)
    requires
        walked(scene, ops, n, resources, depth, active, start) is Ok,
    ensures
        shows_on(
            start.out,
            walked(scene, ops, n, resources, depth, active, start)->Ok_0.out,
        ),
    decreases MAX_FORM_XOBJECT_DEPTH - depth, n,
{
    lemma_shows_on(start.out, start.out, start.out);
    if 0 < n <= ops.len() {
        let op = ops[n - 1];
        law_glyphs_are_paid_for(scene, ops, (n - 1) as nat, resources, depth, active, start);
        let s = walked(scene, ops, (n - 1) as nat, resources, depth, active, start)->Ok_0;
        let end = walked(scene, ops, n, resources, depth, active, start)->Ok_0;
        lemma_shows_on(start.out, s.out, end.out);
        lemma_shows_on(s.out, s.out, s.out);
        if op.0 == "Do"@ {
            if let Some(name) = images::operand_name(op) {
                if let Ok(Some(form)) = form_named(scene.file, resources, name, depth, active) {
                    if depth < MAX_FORM_XOBJECT_DEPTH {
                        law_glyphs_are_paid_for(
                            scene,
                            form.ops,
                            form.ops.len(),
                            form.resources,
                            depth + 1,
                            form.active,
                            Stage {
                                now: in_form(s.now, form.matrix),
                                saved: Seq::empty(),
                                out: s.out,
                            },
                        );
                    }
                }
            }
        } else {
            lemma_acted_paid(scene, resources, s, op);
        }
    }
}

/// A page shows at most as many characters in such fonts as it may show glyphs.
pub proof fn law_glyphs_are_limited(scene: Scene, content: ContentView, resources: DictView)
    requires
        shown_in(scene, content, resources) is Ok,
    ensures
        shown_in(scene, content, resources)->Ok_0.chars.len()
            <= MAX_TYPE3_GLYPH_INVOCATIONS_PER_PAGE,
{
    reveal(shows_on);
    let ops = content::operations_of(content)->0;
    law_glyphs_are_paid_for(
        scene,
        ops,
        ops.len(),
        resources,
        0,
        Seq::empty(),
        Stage {
            now: GraphicsView::plain(),
            saved: Seq::empty(),
            out: Output {
                chars: Seq::empty(),
                lines: Seq::empty(),
                rects: Seq::empty(),
                curves: Seq::empty(),
                budget: MAX_TYPE3_GLYPH_INVOCATIONS_PER_PAGE as nat,
            },
        },
    );
}

/// Restoring what is in effect undoes what saving it did.
pub proof fn law_restore_undoes_save(
    scene: Scene,
    resources: DictView,
    s: Stage,
    save: OperationView,
    restore: OperationView,
)
    requires
        save.0 == "q"@,
        restore.0 == "Q"@,
    ensures
        acted(scene, resources, s, save) matches Ok(saved) && acted(
            scene,
            resources,
            saved,
            restore,
        ) == Ok::<Stage, Halt>(s),
{
    reveal_strlit("q");
    reveal_strlit("Q");
    assert("q"@[0] == 'q' && "Q"@[0] == 'Q');
    assert(s.saved.push(s.now).drop_last() =~= s.saved);
}

/// How text is shown.
#[derive(Clone, Copy)]
struct TextState<'a> {
    font: Option<&'a Type3Font>,
    font_size: Float,
    character_spacing: Float,
    word_spacing: Float,
    horizontal_scaling: Float,
    leading: Float,
    rise: Float,
    text_matrix: Transform,
    line_matrix: Transform,
}

impl<'a> TextState<'a> {
    spec fn seen(self) -> TextView {
        TextView {
            font: font::seen_font(self.font),
            font_size: self.font_size,
            character_spacing: self.character_spacing,
            word_spacing: self.word_spacing,
            horizontal_scaling: self.horizontal_scaling,
            leading: self.leading,
            rise: self.rise,
            text_matrix: self.text_matrix,
            line_matrix: self.line_matrix,
        }
    }

    fn plain() -> (r: TextState<'a>)
        ensures
            r.seen() == TextView::plain(),
    {
        let zero: Float = Float { bits: ZERO };
        TextState {
            font: None,
            font_size: zero,
            character_spacing: zero,
            word_spacing: zero,
            horizontal_scaling: Float { bits: ONE },
            leading: zero,
            rise: zero,
            text_matrix: Transform::identity(),
            line_matrix: Transform::identity(),
        }
    }

    /// Moves text by the given distances.
    fn translate(&mut self, tx: Float, ty: Float)
        ensures
            final(self).seen() == shifted(old(self).seen(), tx, ty),
    {
        self.text_matrix = self.text_matrix.pre_transform(Transform::create_translation(tx, ty));
    }

    /// Begins a new line, moved by the given distances from the beginning of the last.
    fn move_line(&mut self, tx: Float, ty: Float)
        ensures
            final(self).seen() == moved_line(old(self).seen(), tx, ty),
    {
        self.line_matrix = self.line_matrix.pre_transform(Transform::create_translation(tx, ty));
        self.text_matrix = self.line_matrix;
    }

    /// Begins the next line.
    fn next_text_line(&mut self)
        ensures
            final(self).seen() == next_line(old(self).seen()),
    {
        let down: Float = self.leading.neg();
        self.move_line(Float { bits: ZERO }, down);
    }

    /// Begins the line that the operands tell.
    fn move_text_line(&mut self, operands: &Vec<PdfObject>, set_leading: bool)
        ensures
            final(self).seen() == (if operands@.len() < 2 {
                old(self).seen()
            } else {
                let o = types::seen(operands@);
                let t = old(self).seen();
                moved_line(
                    if set_leading {
                        TextView { leading: or_zero(o, 1).negated(), ..t }
                    } else {
                        t
                    },
                    or_zero(o, 0),
                    or_zero(o, 1),
                )
            }),
    {
        if operands.len() < 2 {
            return;
        }
        let tx: Float = number_or_zero(operands, 0);
        let ty: Float = number_or_zero(operands, 1);
        if set_leading {
            self.leading = ty.neg();
        }
        self.move_line(tx, ty);
    }

    /// Reads an operator that sets nothing but how text is shown.
    fn set(&mut self, op: &PdfOperation)
        ensures
            final(self).seen() == text_set(old(self).seen(), op@),
    {
        proof {
            object::lemma_operation_view(*op);
        }
        let operator: &str = op.operator.as_str();
        if strings::same_text(operator, "BT") || strings::same_text(operator, "ET") {
            self.text_matrix = Transform::identity();
            self.line_matrix = Transform::identity();
        } else if strings::same_text(operator, "Tc") {
            self.character_spacing = number_set(self.character_spacing, &op.operands);
        } else if strings::same_text(operator, "Tw") {
            self.word_spacing = number_set(self.word_spacing, &op.operands);
        } else if strings::same_text(operator, "Tz") {
            if let Some(x) = number_at(&op.operands, 0) {
                self.horizontal_scaling = x.div(Float { bits: HUNDRED });
            }
        } else if strings::same_text(operator, "TL") {
            self.leading = number_set(self.leading, &op.operands);
        } else if strings::same_text(operator, "Ts") {
            self.rise = number_set(self.rise, &op.operands);
        } else if strings::same_text(operator, "Td") {
            self.move_text_line(&op.operands, false);
        } else if strings::same_text(operator, "TD") {
            self.move_text_line(&op.operands, true);
        } else if strings::same_text(operator, "T*") {
            self.next_text_line();
        }
    }
}

fn number_at(operands: &Vec<PdfObject>, at: usize) -> (r: Option<Float>)
    ensures
        r == page_paths::operand(types::seen(operands@), at as int),
{
    if at < operands.len() {
        obj_to_f64(&operands[at])
    } else {
        None
    }
}

fn number_or_zero(operands: &Vec<PdfObject>, at: usize) -> (r: Float)
    ensures
        r == or_zero(types::seen(operands@), at as int),
{
    match number_at(operands, at) {
        Some(x) => x,
        None => Float { bits: ZERO },
    }
}

/// The number that the first operand is, else the one before.
fn number_set(before: Float, operands: &Vec<PdfObject>) -> (r: Float)
    ensures
        r == set_to(before, types::seen(operands@)),
{
    match number_at(operands, 0) {
        Some(x) => x,
        None => before,
    }
}

/// A text that stands for all the text shown within a mark, and whether it has been given.
#[derive(Debug)]
pub struct MarkedActualText {
    pub text: String,
    pub emitted: bool,
}

impl View for MarkedActualText {
    type V = MarkedView;

    open spec fn view(&self) -> MarkedView {
        MarkedView { text: self.text@, emitted: self.emitted }
    }
}

/// What is seen of marks.
pub open spec fn seen_marks(marks: Seq<Option<MarkedActualText>>) -> Seq<Option<MarkedView>> {
    marks.map_values(
        |m: Option<MarkedActualText>|
            match m {
                Some(mark) => Some(mark@),
                None => None,
            },
    )
}

fn copy_marks(marks: &Vec<Option<MarkedActualText>>) -> (r: Vec<Option<MarkedActualText>>)
    ensures
        seen_marks(r@) == seen_marks(marks@),
{
    let mut out: Vec<Option<MarkedActualText>> = Vec::new();
    let n: usize = marks.len();
    for i in 0..n
        invariant
            n == marks@.len(),
            seen_marks(out@) =~= seen_marks(marks@).take(i as int),
    {
        let ghost before = seen_marks(out@);
        let mark: Option<MarkedActualText> = match &marks[i] {
            Some(mark) => Some(MarkedActualText { text: mark.text.clone(), emitted: mark.emitted }),
            None => None,
        };
        out.push(mark);
        assert(seen_marks(out@) =~= before.push(seen_marks(marks@)[i as int]));
    }
    assert(seen_marks(out@) =~= seen_marks(marks@));
    out
}

/// The text that the innermost mark gives: its own, once and only for the first glyph of a
/// string; else none.
pub fn marked_actual_text(marks: &mut Vec<Option<MarkedActualText>>, first_in_show: bool) -> (r: Option<
    String,
>)
    ensures
        types::seen_text(r) == marked_text(seen_marks(old(marks)@), first_in_show),
        seen_marks(final(marks)@) == marks_after(seen_marks(old(marks)@), first_in_show),
{
    let ghost all = seen_marks(marks@);
    let mut at: usize = marks.len();
    assert(all.take(at as int) =~= all);
    while at > 0
        invariant
            at <= marks@.len(),
            marks@ == old(marks)@,
            all == seen_marks(marks@),
            innermost(all) == innermost(all.take(at as int)),
        decreases at,
    {
        assert(all.take(at as int).last() == all[at - 1]);
        assert(all.take(at as int).drop_last() =~= all.take(at - 1));
        let found: Option<String> = match &marks[at - 1] {
            Some(mark) => {
                if mark.emitted || !first_in_show {
                    return Some(String::new());
                }
                Some(mark.text.clone())
            },
            None => None,
        };
        if let Some(text) = found {
            marks.set(at - 1, Some(MarkedActualText { text: text.clone(), emitted: true }));
            assert(seen_marks(marks@) =~= marks_after(all, first_in_show));
            return Some(text);
        }
        at = at - 1;
    }
    assert(all.take(0) =~= Seq::<Option<MarkedView>>::empty());
    None
}

/// What is in effect while content is read.
struct GraphicsState<'a> {
    ctm: Transform,
    text: TextState<'a>,
    actual_text: Vec<Option<MarkedActualText>>,
}

impl<'a> GraphicsState<'a> {
    spec fn seen(self) -> GraphicsView {
        GraphicsView {
            ctm: self.ctm,
            text: self.text.seen(),
            marks: seen_marks(self.actual_text@),
        }
    }

    fn plain() -> (r: GraphicsState<'a>)
        ensures
            r.seen() == GraphicsView::plain(),
    {
        let r: GraphicsState = GraphicsState {
            ctm: Transform::identity(),
            text: TextState::plain(),
            actual_text: Vec::new(),
        };
        assert(seen_marks(r.actual_text@) =~= Seq::<Option<MarkedView>>::empty());
        r
    }

    fn copy(&self) -> (r: GraphicsState<'a>)
        ensures
            r.seen() == self.seen(),
    {
        GraphicsState {
            ctm: self.ctm,
            text: self.text,
            actual_text: copy_marks(&self.actual_text),
        }
    }

    /// The matrix that text is shown with, before its size.
    fn text_matrix(&self, across: Float, up: Float) -> (r: Transform)
        ensures
            r == text_transform(self.seen(), across, up),
    {
        let zero: Float = Float { bits: ZERO };
        let m: Transform = Transform {
            m11: across,
            m12: zero,
            m21: zero,
            m22: up,
            m31: zero,
            m32: self.text.rise,
        };
        m.post_transform(self.text.text_matrix.post_transform(self.ctm))
    }
}

/// What is seen of states that have been saved.
spec fn seen_states(states: Seq<GraphicsState>) -> Seq<GraphicsView> {
    states.map_values(|g: GraphicsState| g.seen())
}

/// The dictionary that an object is or leads to, where there is one.
fn find_dictionary<'a>(file: &'a PdfFile, object: &'a PdfObject) -> (r: Option<&'a PdfDictionary>)
    ensures
        match some_dictionary(file@, object@) {
            Some(dict) => r matches Some(found) && found@ == dict,
            None => r is None,
        },
{
    match file.object_to_dict(object) {
        Ok(dict) => Some(dict),
        Err(_) => None,
    }
}

/// The text that a mark gives for all the text within it.
pub fn actual_text(file: &PdfFile, resources: &PdfDictionary, object: &PdfObject) -> (r: Option<
    String,
>)
    ensures
        types::seen_text(r) == mark_text(file@, resources@, object@),
{
    let properties: &PdfDictionary = match object {
        PdfObject::Dictionary(dict) => dict,
        PdfObject::Reference(_) => match find_dictionary(file, object) {
            Some(dict) => dict,
            None => {
                return None;
            },
        },
        PdfObject::Name(name) => {
            let all: &PdfObject = match resources.get("Properties") {
                Some(all) => all,
                None => {
                    return None;
                },
            };
            let dict: &PdfDictionary = match find_dictionary(file, all) {
                Some(dict) => dict,
                None => {
                    return None;
                },
            };
            let value: &PdfObject = match dict.get_bytes(name) {
                Some(value) => value,
                None => {
                    return None;
                },
            };
            match find_dictionary(file, value) {
                Some(dict) => dict,
                None => {
                    return None;
                },
            }
        },
        _ => {
            return None;
        },
    };
    match properties.get("ActualText") {
        Some(o) => decode_pdf_string(o),
        None => None,
    }
}

fn label_lines(lines: Vec<Line>) -> (r: Vec<Line>)
    ensures
        types::seen(r@) == as_glyph(types::seen(lines@)),
{
    let ghost all = types::seen(lines@);
    let mut lines: Vec<Line> = lines;
    let n: usize = lines.len();
    for i in 0..n
        invariant
            n == lines@.len(),
            n == all.len(),
            types::seen(lines@) =~= as_glyph(all).take(i as int) + all.skip(i as int),
    {
        assert(types::seen(lines@)[i as int] == all[i as int]);
        let ghost before = lines@;
        lines[i].object_type = "type3_glyph".to_owned();
        assert(lines@ =~= before.update(i as int, lines@[i as int]));
        assert(lines@[i as int]@ == as_glyph(all)[i as int]);
        assert(types::seen(lines@) =~= types::seen(before).update(i as int, as_glyph(all)[i as int]));
    }
    assert(types::seen(lines@) =~= as_glyph(all));
    lines
}

fn label_rects(rects: Vec<RectObject>) -> (r: Vec<RectObject>)
    ensures
        types::seen(r@) == as_glyph(types::seen(rects@)),
{
    let ghost all = types::seen(rects@);
    let mut rects: Vec<RectObject> = rects;
    let n: usize = rects.len();
    for i in 0..n
        invariant
            n == rects@.len(),
            n == all.len(),
            types::seen(rects@) =~= as_glyph(all).take(i as int) + all.skip(i as int),
    {
        assert(types::seen(rects@)[i as int] == all[i as int]);
        let ghost before = rects@;
        rects[i].object_type = "type3_glyph".to_owned();
        assert(rects@ =~= before.update(i as int, rects@[i as int]));
        assert(rects@[i as int]@ == as_glyph(all)[i as int]);
        assert(types::seen(rects@) =~= types::seen(before).update(i as int, as_glyph(all)[i as int]));
    }
    assert(types::seen(rects@) =~= as_glyph(all));
    rects
}

fn label_curves(curves: Vec<Curve>) -> (r: Vec<Curve>)
    ensures
        types::seen(r@) == as_glyph(types::seen(curves@)),
{
    let ghost all = types::seen(curves@);
    let mut curves: Vec<Curve> = curves;
    let n: usize = curves.len();
    for i in 0..n
        invariant
            n == curves@.len(),
            n == all.len(),
            types::seen(curves@) =~= as_glyph(all).take(i as int) + all.skip(i as int),
    {
        assert(types::seen(curves@)[i as int] == all[i as int]);
        let ghost before = curves@;
        curves[i].object_type = "type3_glyph".to_owned();
        assert(curves@ =~= before.update(i as int, curves@[i as int]));
        assert(curves@[i as int]@ == as_glyph(all)[i as int]);
        assert(types::seen(curves@) =~= types::seen(before).update(i as int, as_glyph(all)[i as int]));
    }
    assert(types::seen(curves@) =~= as_glyph(all));
    curves
}

struct Type3Walker<'a> {
    file: &'a PdfFile,
    fonts: &'a Vec<FontEntry>,
    geom: PageGeometry,
    page_number: usize,
    chars: CollectorOutput,
    lines: Vec<Line>,
    rects: Vec<RectObject>,
    curves: Vec<Curve>,
    active_forms: Vec<ObjectId>,
    remaining_glyph_invocations: usize,
}

impl<'a> Type3Walker<'a> {
    spec fn scene(self) -> Scene {
        Scene {
            file: self.file@,
            fonts: types::seen(self.fonts@),
            geom: self.geom,
            page_number: self.page_number,
        }
    }

    spec fn sound(self) -> bool {
        self.chars.geom == self.geom && self.chars.page_number == self.page_number
    }

    spec fn output(self) -> Output {
        Output {
            chars: self.chars@.chars,
            lines: types::seen(self.lines@),
            rects: types::seen(self.rects@),
            curves: types::seen(self.curves@),
            budget: self.remaining_glyph_invocations as nat,
        }
    }

    /// Whether nothing but what has been shown is different.
    spec fn goes_on_from(self, before: Type3Walker) -> bool {
        &&& self.scene() == before.scene()
        &&& self.active_forms@ == before.active_forms@
        &&& self.sound()
    }

    fn show_glyph(
        &mut self,
        state: &mut GraphicsState<'a>,
        font: &Type3Font,
        code: u8,
        first_in_show: bool,
    ) -> (r: Result<(), Error>)
        requires
            old(self).sound(),
        ensures
            final(self).goes_on_from(*old(self)),
            match glyph_shown(
                old(self).scene(),
                font@,
                code,
                first_in_show,
                old(state).seen(),
                old(self).output(),
            ) {
                Ok((g, out)) => r is Ok && final(state).seen() == g && final(self).output() == out,
                Err(h) => r matches Err(error) && error@ == h.error && final(state).seen() == h.now
                    && final(self).output() == h.out,
            },
            old(self).remaining_glyph_invocations == 0 ==> *final(self) == *old(self)
                && *final(state) == *old(state),
    {
        let ghost scene = self.scene();
        let ghost g = state.seen();
        let ghost out = self.output();
        if self.remaining_glyph_invocations == 0 {
            return Err(Error::message("page exceeds maximum of 20000 Type3 glyph invocations"));
        }
        self.remaining_glyph_invocations = self.remaining_glyph_invocations - 1;
        let point: &font::CodePoint = font.code(code);
        let glyph_matrix: Transform = font.matrix().post_transform(
            state.text_matrix(
                state.text.font_size.mul(state.text.horizontal_scaling),
                state.text.font_size,
            ),
        );
        let text: String = match marked_actual_text(&mut state.actual_text, first_in_show) {
            Some(text) => text,
            None => point.text.clone(),
        };
        let matrix: Transform = state.text_matrix(
            state.text.horizontal_scaling,
            Float { bits: ONE },
        );
        self.chars.push_char(&matrix, point.advance, state.text.font_size, text.as_str());
        assert(self.chars.chars@.len() == self.chars@.chars.len());
        assert(self.chars@.chars.len() == out.chars.len() + 1);
        let last: usize = self.chars.chars.len() - 1;
        let ghost before = self.chars.chars@;
        self.chars.chars[last].fontname = font.name().clone();
        proof {
            assert(self.chars.chars@ =~= before.update(last as int, self.chars.chars@[last as int]));
            let shown = collector::shown_char(
                scene.geom,
                scene.page_number,
                text_transform(g, g.text.horizontal_scaling, Float { bits: ONE }),
                point.advance,
                g.text.font_size,
                text@,
            );
            assert(types::seen(before) == out.chars.push(shown));
            assert(types::seen(before)[last as int] == before[last as int]@);
            assert(self.chars.chars@[last as int]@ == (CharView {
                fontname: font@.fontname,
                ..shown
            }));
            assert(self.chars@.chars =~= types::seen(before).update(
                last as int,
                self.chars.chars@[last as int]@,
            ));
            assert(self.chars@.chars =~= out.chars.push(
                CharView { fontname: font@.fontname, ..shown },
            ));
        }
        let ghost next = self.output();
        match &point.glyph {
            Glyph::Missing => (),
            Glyph::Broken(e) => {
                return Err(Error::Lopdf(*e));
            },
            Glyph::Stream(content) => {
                match collect_stream(
                    self.file,
                    content,
                    font.glyph_resources(),
                    self.geom,
                    self.page_number,
                    glyph_matrix,
                ) {
                    Ok((lines, rects, curves)) => {
                        let mut lines: Vec<Line> = label_lines(lines);
                        let mut rects: Vec<RectObject> = label_rects(rects);
                        let mut curves: Vec<Curve> = label_curves(curves);
                        proof {
                            types::lemma_seen_add(self.lines@, lines@);
                            types::lemma_seen_add(self.rects@, rects@);
                            types::lemma_seen_add(self.curves@, curves@);
                        }
                        self.lines.append(&mut lines);
                        self.rects.append(&mut rects);
                        self.curves.append(&mut curves);
                    },
                    Err(e) => {
                        return Err(e);
                    },
                }
            },
        }
        assert(with_glyph(scene, font@, point.glyph@, g, next) == Ok::<Output, ErrorView>(
            self.output(),
        ));
        let word_spacing: Float = if code == 0x20 {
            state.text.word_spacing
        } else {
            Float { bits: ZERO }
        };
        let tx: Float = point.advance.mul(state.text.font_size).add(
            state.text.character_spacing,
        ).add(word_spacing).mul(state.text.horizontal_scaling);
        state.text.translate(tx, Float { bits: ZERO });
        Ok(())
    }

    fn show_text(&mut self, state: &mut GraphicsState<'a>, bytes: &Vec<u8>) -> (r: Result<(), Error>)
        requires
            old(self).sound(),
        ensures
            final(self).goes_on_from(*old(self)),
            match string_shown(
                old(self).scene(),
                bytes@,
                old(state).seen(),
                old(self).output(),
            ) {
                Ok((g, out)) => r is Ok && final(state).seen() == g && final(self).output() == out,
                Err(h) => r matches Err(error) && error@ == h.error && final(state).seen() == h.now
                    && final(self).output() == h.out,
            },
    {
        let font: &Type3Font = match state.text.font {
            Some(font) => font,
            None => {
                return Ok(());
            },
        };
        let ghost scene = self.scene();
        let ghost g = state.seen();
        let ghost out = self.output();
        let n: usize = bytes.len();
        for i in 0..n
            invariant
                n == bytes@.len(),
                self.goes_on_from(*old(self)),
                scene == old(self).scene(),
                g == old(state).seen(),
                out == old(self).output(),
                g.text.font == Some(font@),
                glyphs_shown(scene, font@, bytes@, i as nat, g, out) == Ok::<
                    (GraphicsView, Output),
                    Halt,
                >((state.seen(), self.output())),
        {
            let ghost next = glyphs_shown(scene, font@, bytes@, (i + 1) as nat, g, out);
            match self.show_glyph(state, font, bytes[i], i == 0) {
                Ok(()) => (),
                Err(e) => {
                    proof {
                        lemma_glyphs_stopped(scene, font@, bytes@, (i + 1) as nat, n as nat, g, out);
                    }
                    return Err(e);
                },
            }
            assert(next == Ok::<(GraphicsView, Output), Halt>((state.seen(), self.output())));
        }
        Ok(())
    }

    fn show_operand(&mut self, state: &mut GraphicsState<'a>, operand: Option<&PdfObject>) -> (r:
        Result<(), Error>)
        requires
            old(self).sound(),
        ensures
            final(self).goes_on_from(*old(self)),
            match object_shown(
                old(self).scene(),
                object::seen_object(operand),
                old(state).seen(),
                old(self).output(),
            ) {
                Ok((g, out)) => r is Ok && final(state).seen() == g && final(self).output() == out,
                Err(h) => r matches Err(error) && error@ == h.error && final(state).seen() == h.now
                    && final(self).output() == h.out,
            },
    {
        match operand {
            Some(PdfObject::Text(bytes, _)) => self.show_text(state, bytes),
            _ => Ok(()),
        }
    }

    fn show_text_array(&mut self, state: &mut GraphicsState<'a>, items: &Vec<PdfObject>) -> (r:
        Result<(), Error>)
        requires
            old(self).sound(),
        ensures
            final(self).goes_on_from(*old(self)),
            match items_shown(
                old(self).scene(),
                types::seen(items@),
                items@.len(),
                old(state).seen(),
                old(self).output(),
            ) {
                Ok((g, out)) => r is Ok && final(state).seen() == g && final(self).output() == out,
                Err(h) => r matches Err(error) && error@ == h.error && final(state).seen() == h.now
                    && final(self).output() == h.out,
            },
    {
        let ghost scene = self.scene();
        let ghost g = state.seen();
        let ghost out = self.output();
        let ghost all = types::seen(items@);
        let n: usize = items.len();
        for i in 0..n
            invariant
                n == items@.len(),
                all == types::seen(items@),
                self.goes_on_from(*old(self)),
                scene == old(self).scene(),
                g == old(state).seen(),
                out == old(self).output(),
                items_shown(scene, all, i as nat, g, out) == Ok::<
                    (GraphicsView, Output),
                    Halt,
                >((state.seen(), self.output())),
        {
            let ghost next = items_shown(scene, all, (i + 1) as nat, g, out);
            assert(all[i as int] == items@[i as int]@);
            match &items[i] {
                PdfObject::Text(bytes, _) => {
                    match self.show_text(state, bytes) {
                        Ok(()) => (),
                        Err(e) => {
                            proof {
                                lemma_items_stopped(
                                    scene,
                                    all,
                                    (i + 1) as nat,
                                    n as nat,
                                    g,
                                    out,
                                );
                            }
                            return Err(e);
                        },
                    }
                },
                other => {
                    if let Some(adjustment) = obj_to_f64(other) {
                        let tx: Float = adjustment.neg().div(Float { bits: THOUSAND }).mul(
                            state.text.font_size,
                        ).mul(state.text.horizontal_scaling);
                        state.text.translate(tx, Float { bits: ZERO });
                    }
                },
            }
            assert(next == Ok::<(GraphicsView, Output), Halt>((state.seen(), self.output())));
        }
        Ok(())
    }

    fn walk_stream(
        &mut self,
        ops: &Vec<PdfOperation>,
        resources: &PdfDictionary,
        initial: GraphicsState<'a>,
        form_depth: usize,
    ) -> (r: Result<(), Error>)
        requires
            form_depth <= MAX_FORM_XOBJECT_DEPTH,
            old(self).sound(),
        ensures
            final(self).scene() == old(self).scene(),
            final(self).sound(),
            match walked(
                old(self).scene(),
                types::seen(ops@),
                ops@.len(),
                resources@,
                form_depth as nat,
                old(self).active_forms@,
                (Stage { now: initial.seen(), saved: Seq::empty(), out: old(self).output() }),
            ) {
                Ok(s) => r is Ok && final(self).active_forms@ == old(self).active_forms@
                    && final(self).output() == s.out,
                Err(f) => r matches Err(error) && error@ == f.error && final(self).active_forms@
                    == f.active && final(self).output() == f.at.out,
            },
        decreases MAX_FORM_XOBJECT_DEPTH - form_depth, 2int,
    {
        let ghost scene = self.scene();
        let ghost active = self.active_forms@;
        let ghost start = Stage {
            now: initial.seen(),
            saved: Seq::empty(),
            out: self.output(),
        };
        let ghost all = types::seen(ops@);
        let n: usize = ops.len();
        let mut state: GraphicsState<'a> = initial;
        let mut stack: Vec<GraphicsState<'a>> = Vec::new();
        assert(seen_states(stack@) =~= Seq::<GraphicsView>::empty());
        for i in 0..n
            invariant
                n == ops@.len(),
                all == types::seen(ops@),
                form_depth <= MAX_FORM_XOBJECT_DEPTH,
                self.goes_on_from(*old(self)),
                scene == old(self).scene(),
                active == old(self).active_forms@,
                start == (Stage {
                    now: initial.seen(),
                    saved: Seq::empty(),
                    out: old(self).output(),
                }),
                walked(scene, all, i as nat, resources@, form_depth as nat, active, start) == Ok::<
                    Stage,
                    forms::Failure<Stage>,
                >(
                    (Stage {
                        now: state.seen(),
                        saved: seen_states(stack@),
                        out: self.output(),
                    }),
                ),
        {
            proof {
                assert(all[i as int] == ops@[i as int]@);
                lemma_step(
                    scene,
                    all,
                    (i + 1) as nat,
                    resources@,
                    form_depth as nat,
                    active,
                    start,
                );
            }
            match self.step(&ops[i], resources, &mut state, &mut stack, form_depth) {
                Ok(()) => (),
                Err(e) => {
                    proof {
                        lemma_stopped(
                            scene,
                            all,
                            (i + 1) as nat,
                            n as nat,
                            resources@,
                            form_depth as nat,
                            active,
                            start,
                        );
                    }
                    return Err(e);
                },
            }
        }
        Ok(())
    }

    /// Reads one operation.
    #[verifier::rlimit(40)]
    fn step(
        &mut self,
        op: &PdfOperation,
        resources: &PdfDictionary,
        state: &mut GraphicsState<'a>,
        stack: &mut Vec<GraphicsState<'a>>,
        form_depth: usize,
    ) -> (r: Result<(), Error>)
        requires
            form_depth <= MAX_FORM_XOBJECT_DEPTH,
            old(self).sound(),
        ensures
            final(self).scene() == old(self).scene(),
            final(self).sound(),
            match stepped(
                old(self).scene(),
                op@,
                resources@,
                form_depth as nat,
                old(self).active_forms@,
                (Stage {
                    now: old(state).seen(),
                    saved: seen_states(old(stack)@),
                    out: old(self).output(),
                }),
            ) {
                Ok(s) => r is Ok && final(self).active_forms@ == old(self).active_forms@ && s == (
                Stage {
                    now: final(state).seen(),
                    saved: seen_states(final(stack)@),
                    out: final(self).output(),
                }),
                Err(f) => r matches Err(error) && error@ == f.error && final(self).active_forms@
                    == f.active && f.at == (Stage {
                    now: final(state).seen(),
                    saved: seen_states(final(stack)@),
                    out: final(self).output(),
                }),
            },
        decreases MAX_FORM_XOBJECT_DEPTH - form_depth, 1int,
    {
        let operator: &str = op.operator.as_str();
        let ghost s = Stage {
            now: state.seen(),
            saved: seen_states(stack@),
            out: self.output(),
        };
        proof {
            reveal(stepped);
            object::lemma_operation_view(*op);
        }
        if strings::same_text(operator, "Do") {
            match first_name(&op.operands) {
                Some(name) => {
                    assert(images::operand_name(op@) == Some(name@));
                    self.walk_form(resources, name.as_str(), state, form_depth)
                },
                None => {
                    assert(images::operand_name(op@) is None);
                    Ok(())
                },
            }
        } else if strings::same_text(operator, "q") {
            let copy: GraphicsState<'a> = state.copy();
            stack.push(copy);
            assert(seen_states(stack@) =~= s.saved.push(s.now));
            Ok(())
        } else if strings::same_text(operator, "Q") {
            *state = match stack.pop() {
                Some(saved) => saved,
                None => GraphicsState::plain(),
            };
            assert(seen_states(stack@) =~= (if s.saved.len() > 0 {
                s.saved.drop_last()
            } else {
                s.saved
            }));
            Ok(())
        } else {
            self.act(resources, state, op, Ghost(s))
        }
    }

    /// Reads an operator that neither saves nor restores what is in effect, nor uses a form.
    fn act(
        &mut self,
        resources: &PdfDictionary,
        state: &mut GraphicsState<'a>,
        op: &PdfOperation,
        Ghost(s): Ghost<Stage>,
    ) -> (r: Result<(), Error>)
        requires
            old(self).sound(),
            s.now == old(state).seen(),
            s.out == old(self).output(),
            op@.0 != "q"@,
            op@.0 != "Q"@,
        ensures
            final(self).goes_on_from(*old(self)),
            match acted(old(self).scene(), resources@, s, op@) {
                Ok(after) => r is Ok && after == (Stage {
                    now: final(state).seen(),
                    out: final(self).output(),
                    ..s
                }),
                Err(h) => r matches Err(error) && error@ == h.error && final(state).seen() == h.now
                    && final(self).output() == h.out,
            },
    {
        proof {
            object::lemma_operation_view(*op);
        }
        let ghost o = types::seen(op.operands@);
        let operator: &str = op.operator.as_str();
        if strings::same_text(operator, "cm") {
            match transform_from_operands(&op.operands) {
                Ok(m) => {
                    state.ctm = state.ctm.pre_transform(m);
                    Ok(())
                },
                Err(e) => Err(e),
            }
        } else if strings::same_text(operator, "Tf") {
            self.set_font(state, resources, &op.operands)
        } else if strings::same_text(operator, "Tm") {
            match transform_from_operands(&op.operands) {
                Ok(m) => {
                    state.text.text_matrix = m;
                    state.text.line_matrix = m;
                    Ok(())
                },
                Err(e) => Err(e),
            }
        } else if strings::same_text(operator, "Tj") {
            let operand: Option<&PdfObject> = first_operand(&op.operands);
            self.show_operand(state, operand)
        } else if strings::same_text(operator, "TJ") {
            match first_operand(&op.operands) {
                Some(PdfObject::Array(items)) => {
                    proof {
                        object::lemma_array_view(*items);
                    }
                    self.show_text_array(state, items)
                },
                _ => Ok(()),
            }
        } else if strings::same_text(operator, "'") {
            state.text.next_text_line();
            let operand: Option<&PdfObject> = first_operand(&op.operands);
            self.show_operand(state, operand)
        } else if strings::same_text(operator, "\"") {
            if op.operands.len() >= 3 {
                state.text.word_spacing = number_or_zero(&op.operands, 0);
                state.text.character_spacing = number_or_zero(&op.operands, 1);
                state.text.next_text_line();
                assert(o[2] == op.operands@[2]@);
                self.show_operand(state, Some(&op.operands[2]))
            } else {
                Ok(())
            }
        } else if strings::same_text(operator, "BDC") || strings::same_text(operator, "BMC") {
            let text: Option<String> = if op.operands.len() > 1 {
                assert(o[1] == op.operands@[1]@);
                actual_text(self.file, resources, &op.operands[1])
            } else {
                None
            };
            let ghost before = seen_marks(state.actual_text@);
            state.actual_text.push(
                match text {
                    Some(text) => Some(MarkedActualText { text, emitted: false }),
                    None => None,
                },
            );
            assert(seen_marks(state.actual_text@) =~= before.push(
                mark(self.file@, resources@, o),
            ));
            Ok(())
        } else if strings::same_text(operator, "EMC") {
            let ghost before = seen_marks(state.actual_text@);
            state.actual_text.pop();
            assert(seen_marks(state.actual_text@) =~= (if before.len() > 0 {
                before.drop_last()
            } else {
                before
            }));
            Ok(())
        } else {
            state.text.set(op);
            Ok(())
        }
    }

    fn walk_form(
        &mut self,
        resources: &PdfDictionary,
        name: &str,
        state: &GraphicsState<'a>,
        form_depth: usize,
    ) -> (r: Result<(), Error>)
        requires
            form_depth <= MAX_FORM_XOBJECT_DEPTH,
            old(self).sound(),
        ensures
            final(self).scene() == old(self).scene(),
            final(self).sound(),
            match finished(
                old(self).scene(),
                resources@,
                name@,
                form_depth as nat,
                old(self).active_forms@,
                state.seen(),
                old(self).output(),
            ) {
                Ok(out) => r is Ok && final(self).active_forms@ == old(self).active_forms@
                    && final(self).output() == out,
                Err(f) => r matches Err(error) && error@ == f.error && final(self).active_forms@
                    == f.active && final(self).output() == f.at,
            },
        decreases MAX_FORM_XOBJECT_DEPTH - form_depth, 0int,
    {
        let file: &'a PdfFile = self.file;
        let target: &PdfObject = match find_xobject(file, resources, name) {
            Err(e) => {
                return Err(e);
            },
            Ok(None) => {
                return Ok(());
            },
            Ok(Some(target)) => target,
        };
        let form: OpenForm = match find_form(
            file,
            resources,
            target,
            form_depth,
            &mut self.active_forms,
        ) {
            Err(e) => {
                return Err(e);
            },
            Ok(None) => {
                return Ok(());
            },
            Ok(Some(form)) => form,
        };
        let matrix: Transform = match form.matrix {
            Some(m) => m,
            None => Transform::identity(),
        };
        let mut form_state: GraphicsState<'a> = state.copy();
        form_state.ctm = form_state.ctm.pre_transform(matrix);
        proof {
            forms::law_opened_forms_close(
                old(self).file@,
                resources@,
                target@,
                form_depth as nat,
                old(self).active_forms@,
            );
        }
        let result: Result<(), Error> = self.walk_stream(
            &form.ops,
            form.resources,
            form_state,
            form_depth + 1,
        );
        close_form(&mut self.active_forms, form.id);
        result
    }

    fn set_font(
        &self,
        state: &mut GraphicsState<'a>,
        resources: &PdfDictionary,
        operands: &Vec<PdfObject>,
    ) -> (r: Result<(), Error>)
        ensures
            match font_set(
                self.scene(),
                resources@,
                old(state).text.seen(),
                types::seen(operands@),
            ) {
                Ok(text) => r is Ok && final(state).seen() == (GraphicsView {
                    text,
                    ..old(state).seen()
                }),
                Err(e) => r matches Err(error) && error@ == e && final(state).seen() == old(
                    state,
                ).seen(),
            },
    {
        if operands.len() < 2 {
            return Ok(());
        }
        assert(types::seen(operands@)[0] == operands@[0]@);
        let name: &Vec<u8> = match &operands[0] {
            PdfObject::Name(name) => name,
            _ => {
                return Ok(());
            },
        };
        match read_font(self.fonts, resources, name) {
            Ok(font) => {
                state.text.font = font;
            },
            Err(e) => {
                return Err(e);
            },
        }
        state.text.font_size = number_or_zero(operands, 1);
        Ok(())
    }
}

proof fn lemma_glyphs_stopped(
    scene: Scene,
    font: FontView,
    bytes: Seq<u8>,
    k: nat,
    n: nat,
    g: GraphicsView,
    out: Output,
)
    requires
        0 < k <= n <= bytes.len(),
        glyphs_shown(scene, font, bytes, k, g, out) is Err,
    ensures
        glyphs_shown(scene, font, bytes, n, g, out) == glyphs_shown(scene, font, bytes, k, g, out),
    decreases n,
{
    if k < n {
        lemma_glyphs_stopped(scene, font, bytes, k, (n - 1) as nat, g, out);
    }
}

proof fn lemma_items_stopped(
    scene: Scene,
    items: Seq<ObjectView>,
    k: nat,
    n: nat,
    g: GraphicsView,
    out: Output,
)
    requires
        0 < k <= n <= items.len(),
        items_shown(scene, items, k, g, out) is Err,
    ensures
        items_shown(scene, items, n, g, out) == items_shown(scene, items, k, g, out),
    decreases n,
{
    if k < n {
        lemma_items_stopped(scene, items, k, (n - 1) as nat, g, out);
    }
}

fn first_operand(operands: &Vec<PdfObject>) -> (r: Option<&PdfObject>)
    ensures
        object::seen_object(r) == first(types::seen(operands@)),
{
    if operands.len() > 0 {
        Some(&operands[0])
    } else {
        None
    }
}

/// What a page shows in such fonts.
#[derive(Debug)]
pub struct Type3Content {
    pub chars: Vec<Char>,
    pub lines: Vec<Line>,
    pub rects: Vec<RectObject>,
    pub curves: Vec<Curve>,
}

/// What the content of a page shows in such fonts.
pub fn collect(
    file: &PdfFile,
    fonts: &Vec<FontEntry>,
    content: &PdfContent,
    resources: &PdfDictionary,
    geom: PageGeometry,
    page_number: usize,
) -> (r: Result<Type3Content, Error>)
    ensures
        match shown_in(
            (Scene { file: file@, fonts: types::seen(fonts@), geom, page_number }),
            content@,
            resources@,
        ) {
            Ok(out) => r matches Ok(content) && types::seen(content.chars@) == out.chars
                && types::seen(content.lines@) == out.lines && types::seen(content.rects@)
                == out.rects && types::seen(content.curves@) == out.curves,
            Err(e) => r matches Err(error) && error@ == e,
        },
{
    let ops: Vec<PdfOperation> = match read_operations(content) {
        Some(ops) => ops,
        None => {
            return Err(Error::Lopdf(FileError::InvalidContentStream));
        },
    };
    let mut walker: Type3Walker = Type3Walker {
        file,
        fonts,
        geom,
        page_number,
        chars: CollectorOutput::new(geom, page_number),
        lines: Vec::new(),
        rects: Vec::new(),
        curves: Vec::new(),
        active_forms: Vec::new(),
        remaining_glyph_invocations: MAX_TYPE3_GLYPH_INVOCATIONS_PER_PAGE,
    };
    assert(walker.active_forms@ =~= Seq::<ObjectId>::empty());
    assert(walker.chars@.geom == geom && walker.chars@.page_number == page_number);
    assert(walker.output() =~= (Output {
        chars: Seq::empty(),
        lines: Seq::empty(),
        rects: Seq::empty(),
        curves: Seq::empty(),
        budget: MAX_TYPE3_GLYPH_INVOCATIONS_PER_PAGE as nat,
    }));
    match walker.walk_stream(&ops, resources, GraphicsState::plain(), 0) {
        Ok(()) => {
            let (chars, _lines, _rects, _curves) = walker.chars.finish();
            Ok(
                Type3Content {
                    chars,
                    lines: walker.lines,
                    rects: walker.rects,
                    curves: walker.curves,
                },
            )
        },
        Err(e) => Err(e),
    }
}

/// How far a glyph may stand from where another one of size `size` stands.
pub open spec fn slot_tolerance(size: Float) -> Float {
    size.absolute().fused(Float { bits: SLOT_SHARE }, Float { bits: SLOT_REACH })
}

/// Whether one character stands where the other one does, by their left and lower edges.
pub fn same_glyph_slot(candidate: &Char, replacement: &Char) -> (r: bool)
    ensures
        r == (candidate.x0.minus(replacement.x0).absolute().at_most(
            slot_tolerance(replacement.size),
        ) && candidate.bottom.minus(replacement.bottom).absolute().at_most(
            slot_tolerance(replacement.size),
        )),
{
    let tolerance: Float = replacement.size.abs().mul_add(
        Float { bits: SLOT_SHARE },
        Float { bits: SLOT_REACH },
    );
    candidate.x0.sub(replacement.x0).abs().le(tolerance) && candidate.bottom.sub(
        replacement.bottom,
    ).abs().le(tolerance)
}

} // verus!
