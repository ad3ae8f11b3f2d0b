//! What holds of text in fonts whose glyphs are content of their own.

use super::drawing::numbers_are;
use super::images::changes_matrix;
use super::images::uses_stream;
use super::places;
use super::places::nought;
use super::places::together;
use super::places::unit;
use crate::error::ErrorView;
use crate::float::laws::alike;
use crate::float::Float;
use crate::parse::forms;
use crate::parse::forms::Failure;
use crate::parse::forms::FormView;
use crate::parse::page_paths;
use crate::parse::type3;
use crate::parse::type3::font;
use crate::parse::type3::font::FontEntryView;
use crate::parse::type3::font::FontView;
use crate::parse::type3::font::GlyphView;
use crate::parse::type3::GraphicsView;
use crate::parse::type3::Halt;
use crate::parse::type3::MarkedView;
use crate::parse::type3::Output;
use crate::parse::type3::Scene;
use crate::parse::type3::Stage;
use crate::parse::type3::TextView;
use crate::pdf::file;
use crate::pdf::object;
use crate::pdf::object::ContentView;
use crate::pdf::object::DictView;
use crate::pdf::object::Notation;
use crate::pdf::object::ObjectId;
use crate::pdf::object::ObjectView;
use crate::pdf::object::OperationView;
use crate::transform::Transform;
use crate::types::DrawnView;
use vstd::prelude::*;

verus! {

/// What comes of one more operation.
pub open spec fn followed_by(
    scene: Scene,
    resources: DictView,
    r: Result<Stage, Halt>,
    op: OperationView,
) -> Result<Stage, Halt> {
    match r {
        Ok(s) => type3::acted(scene, resources, s, op),
        Err(h) => Err(h),
    }
}

/// A number that tells short operators apart.
spec fn tag(operator: Seq<char>) -> int {
    if operator.len() == 1 {
        operator[0] as int
    } else if operator.len() == 2 {
        1000 * (operator[0] as int) + operator[1] as int
    } else {
        1000000 * (operator[0] as int) + 1000 * (operator[1] as int) + operator[2] as int
    }
}

proof fn lemma_tags()
    ensures
        tag("q"@) == 113,
        tag("Q"@) == 81,
        tag("cm"@) == 99109,
        tag("Tf"@) == 84102,
        tag("Tm"@) == 84109,
        tag("Tj"@) == 84106,
        tag("TJ"@) == 84074,
        tag("'"@) == 39,
        tag("\""@) == 34,
        tag("BDC"@) == 66068067,
        tag("BMC"@) == 66077067,
        tag("EMC"@) == 69077067,
        tag("BT"@) == 66084,
        tag("ET"@) == 69084,
        tag("Tc"@) == 84099,
        tag("Tw"@) == 84119,
        tag("Tz"@) == 84122,
        tag("TL"@) == 84076,
        tag("Ts"@) == 84115,
        tag("Td"@) == 84100,
        tag("TD"@) == 84068,
        tag("T*"@) == 84042,
        tag("Do"@) == 68111,
{
    reveal_strlit("q");
    reveal_strlit("Q");
    reveal_strlit("cm");
    reveal_strlit("Tf");
    reveal_strlit("Tm");
    reveal_strlit("Tj");
    reveal_strlit("TJ");
    reveal_strlit("'");
    reveal_strlit("\"");
    reveal_strlit("BDC");
    reveal_strlit("BMC");
    reveal_strlit("EMC");
    reveal_strlit("BT");
    reveal_strlit("ET");
    reveal_strlit("Tc");
    reveal_strlit("Tw");
    reveal_strlit("Tz");
    reveal_strlit("TL");
    reveal_strlit("Ts");
    reveal_strlit("Td");
    reveal_strlit("TD");
    reveal_strlit("T*");
    reveal_strlit("Do");
}

/// Whether an operation has a string as its only operand.
pub open spec fn shows_string(op: OperationView, bytes: Seq<u8>, notation: Notation) -> bool {
    op.1 == seq![ObjectView::Text(bytes, notation)]
}

/// Moving to the next line while setting the distance of lines does what setting the
/// distance and moving do one after the other.
pub proof fn law_move_and_set_leading(
    scene: Scene,
    resources: DictView,
    s: Stage,
    both: OperationView,
    set: OperationView,
    go: OperationView,
    tx: Float,
    ty: Float,
)
    requires
        both.0 == "TD"@,
        numbers_are(both, seq![tx, ty]),
        set.0 == "TL"@,
        numbers_are(set, seq![ty.negated()]),
        go.0 == "Td"@,
        numbers_are(go, seq![tx, ty]),
    ensures
        type3::acted(scene, resources, s, both) == followed_by(
            scene,
            resources,
            type3::acted(scene, resources, s, set),
            go,
        ),
{
    lemma_tags();
    assert(object::number(both.1[0]) == Some(seq![tx, ty][0]));
    assert(object::number(both.1[1]) == Some(seq![tx, ty][1]));
    assert(object::number(go.1[0]) == Some(seq![tx, ty][0]));
    assert(object::number(go.1[1]) == Some(seq![tx, ty][1]));
    assert(object::number(set.1[0]) == Some(seq![ty.negated()][0]));
}

/// The next line begins below the last by the distance of lines.
pub proof fn law_next_line_is_below(
    scene: Scene,
    resources: DictView,
    s: Stage,
    next: OperationView,
    go: OperationView,
)
    requires
        next.0 == "T*"@,
        go.0 == "Td"@,
        numbers_are(go, seq![nought(), s.now.text.leading.negated()]),
    ensures
        type3::acted(scene, resources, s, next) == type3::acted(scene, resources, s, go),
{
    lemma_tags();
    let two = seq![nought(), s.now.text.leading.negated()];
    assert(object::number(go.1[0]) == Some(two[0]));
    assert(object::number(go.1[1]) == Some(two[1]));
}

/// Showing a string on the next line does what moving there and showing it do one after the
/// other.
pub proof fn law_move_and_show(
    scene: Scene,
    resources: DictView,
    s: Stage,
    both: OperationView,
    next: OperationView,
    show: OperationView,
)
    requires
        both.0 == "'"@,
        next.0 == "T*"@,
        show.0 == "Tj"@,
        both.1 == show.1,
    ensures
        type3::acted(scene, resources, s, both) == followed_by(
            scene,
            resources,
            type3::acted(scene, resources, s, next),
            show,
        ),
{
    lemma_tags();
}

/// Showing a string on the next line while setting the spacings does what setting the
/// spacing of words, that of characters, and showing the string on the next line do one
/// after the other.
pub proof fn law_space_and_show(
    scene: Scene,
    resources: DictView,
    s: Stage,
    all: OperationView,
    words: OperationView,
    characters: OperationView,
    show: OperationView,
    tw: Float,
    tc: Float,
)
    requires
        all.0 == "\""@,
        all.1.len() >= 3,
        numbers_are(all, seq![tw, tc]),
        words.0 == "Tw"@,
        numbers_are(words, seq![tw]),
        characters.0 == "Tc"@,
        numbers_are(characters, seq![tc]),
        show.0 == "'"@,
        show.1.len() > 0,
        show.1[0] == all.1[2],
    ensures
        type3::acted(scene, resources, s, all) == followed_by(
            scene,
            resources,
            followed_by(scene, resources, type3::acted(scene, resources, s, words), characters),
            show,
        ),
{
    lemma_tags();
    assert(object::number(all.1[0]) == Some(seq![tw, tc][0]));
    assert(object::number(all.1[1]) == Some(seq![tw, tc][1]));
    assert(object::number(words.1[0]) == Some(seq![tw][0]));
    assert(object::number(characters.1[0]) == Some(seq![tc][0]));
}

/// Showing a list that is a single string shows that string.
pub proof fn law_list_of_one(
    scene: Scene,
    resources: DictView,
    s: Stage,
    list: OperationView,
    show: OperationView,
    bytes: Seq<u8>,
    notation: Notation,
)
    requires
        list.0 == "TJ"@,
        list.1 == seq![ObjectView::Array(seq![ObjectView::Text(bytes, notation)])],
        show.0 == "Tj"@,
        shows_string(show, bytes, notation),
    ensures
        type3::acted(scene, resources, s, list) == type3::acted(scene, resources, s, show),
{
    lemma_tags();
    let items = seq![ObjectView::Text(bytes, notation)];
    assert(type3::first(list.1) == Some(ObjectView::Array(items)));
    assert(type3::first(show.1) == Some(ObjectView::Text(bytes, notation)));
    assert(items[0] == ObjectView::Text(bytes, notation));
    assert(type3::items_shown(scene, items, 0, s.now, s.out) == Ok::<_, Halt>((s.now, s.out)));
}

proof fn lemma_items_go_on(
    scene: Scene,
    a: Seq<ObjectView>,
    b: Seq<ObjectView>,
    n: nat,
    g: GraphicsView,
    out: Output,
)
    requires
        n <= b.len(),
    ensures
        type3::items_shown(scene, a + b, a.len() + n, g, out) == (match type3::items_shown(
            scene,
            a,
            a.len(),
            g,
            out,
        ) {
            Ok((g1, out1)) => type3::items_shown(scene, b, n, g1, out1),
            Err(h) => Err(h),
        }),
    decreases n,
{
    if n == 0 {
        lemma_same_items(scene, a, a + b, a.len(), g, out);
    } else {
        lemma_items_go_on(scene, a, b, (n - 1) as nat, g, out);
        assert((a + b)[a.len() + n - 1] == b[n - 1]);
    }
}

proof fn lemma_same_items(
    scene: Scene,
    a: Seq<ObjectView>,
    b: Seq<ObjectView>,
    n: nat,
    g: GraphicsView,
    out: Output,
)
    requires
        n <= a.len() && n <= b.len(),
        forall|i: int| 0 <= i < n ==> a[i] == b[i],
    ensures
        type3::items_shown(scene, a, n, g, out) == type3::items_shown(scene, b, n, g, out),
    decreases n,
{
    if n > 0 {
        lemma_same_items(scene, a, b, (n - 1) as nat, g, out);
    }
}

/// Showing a list does what showing its first part and showing the rest of it do one after
/// the other.
pub proof fn law_lists_are_shown_in_parts(
    scene: Scene,
    resources: DictView,
    s: Stage,
    whole: OperationView,
    front: OperationView,
    back: OperationView,
    a: Seq<ObjectView>,
    b: Seq<ObjectView>,
)
    requires
        whole.0 == "TJ"@ && front.0 == "TJ"@ && back.0 == "TJ"@,
        whole.1 == seq![ObjectView::Array(a + b)],
        front.1 == seq![ObjectView::Array(a)],
        back.1 == seq![ObjectView::Array(b)],
    ensures
        type3::acted(scene, resources, s, whole) == followed_by(
            scene,
            resources,
            type3::acted(scene, resources, s, front),
            back,
        ),
{
    lemma_tags();
    assert(type3::first(whole.1) == Some(ObjectView::Array(a + b)));
    assert(type3::first(front.1) == Some(ObjectView::Array(a)));
    assert(type3::first(back.1) == Some(ObjectView::Array(b)));
    lemma_items_go_on(scene, a, b, b.len(), s.now, s.out);
}

/// What a number in a list moves the text by: backwards, in thousandths of its size.
pub open spec fn adjusted(t: TextView, n: Float) -> Float {
    n.negated().over(Float { bits: 0x408f_4000_0000_0000 }).times(t.font_size).times(
        t.horizontal_scaling,
    )
}

/// Whether text goes on at the point `(tx, ty)` of a matrix.
pub open spec fn begins_at(after: Transform, before: Transform, tx: Float, ty: Float) -> bool {
    together(after.image(nought(), nought()), before.image(tx, ty))
}

/// Whether two ways of showing text are the same but for where text goes on.
pub open spec fn same_style(a: TextView, b: TextView) -> bool {
    &&& a.font == b.font
    &&& a.font_size == b.font_size
    &&& a.character_spacing == b.character_spacing
    &&& a.word_spacing == b.word_spacing
    &&& a.horizontal_scaling == b.horizontal_scaling
    &&& a.leading == b.leading
    &&& a.rise == b.rise
}

proof fn lemma_moved(tx: Float, ty: Float, m: Transform)
    requires
        tx.finite() && ty.finite(),
        places::finite(Transform::translation(tx, ty).then_apply(m)),
    ensures
        begins_at(Transform::translation(tx, ty).then_apply(m), m, tx, ty),
{
    places::law_first_then_next(Transform::translation(tx, ty), m);
}

/// A number in a list moves the text along its line, backwards where it is positive, and
/// shows nothing.
pub proof fn law_numbers_move_backwards(
    scene: Scene,
    resources: DictView,
    s: Stage,
    list: OperationView,
    item: ObjectView,
    n: Float,
)
    requires
        list.0 == "TJ"@,
        list.1 == seq![ObjectView::Array(seq![item])],
        object::number(item) == Some(n),
        adjusted(s.now.text, n).finite(),
        places::finite(
            Transform::translation(adjusted(s.now.text, n), nought()).then_apply(
                s.now.text.text_matrix,
            ),
        ),
    ensures
        type3::acted(scene, resources, s, list) matches Ok(t) && {
            &&& t.out == s.out
            &&& t.saved == s.saved
            &&& t.now.ctm == s.now.ctm
            &&& t.now.marks == s.now.marks
            &&& same_style(t.now.text, s.now.text)
            &&& t.now.text.line_matrix == s.now.text.line_matrix
            &&& begins_at(
                t.now.text.text_matrix,
                s.now.text.text_matrix,
                adjusted(s.now.text, n),
                nought(),
            )
        },
{
    lemma_tags();
    let items = seq![item];
    assert(type3::first(list.1) == Some(ObjectView::Array(items)));
    assert(items[0] == item);
    assert(type3::items_shown(scene, items, 0, s.now, s.out) == Ok::<_, Halt>((s.now, s.out)));
    lemma_moved(adjusted(s.now.text, n), nought(), s.now.text.text_matrix);
}

/// How far text goes on behind a glyph: by its width at the size of the text and the spacing
/// of characters, behind a space also that of words, all scaled.
pub open spec fn advance_of(t: TextView, code: u8, width: Float) -> Float {
    if code == 32 {
        width.times(t.font_size).plus(t.character_spacing).plus(t.word_spacing).times(
            t.horizontal_scaling,
        )
    } else {
        width.times(t.font_size).plus(t.character_spacing).plus(nought()).times(
            t.horizontal_scaling,
        )
    }
}

/// Showing a glyph that draws nothing adds one character and takes one from the number of
/// glyphs left. The character stands where the text is, above the line by the rise, in the
/// direction of the text; the next one stands behind it. It has the text of its code, unless
/// a mark gives another, and the name of the font.
pub proof fn law_shown_glyph(
    scene: Scene,
    font: FontView,
    code: u8,
    first: bool,
    g: GraphicsView,
    out: Output,
)
    requires
        out.budget > 0,
        font.codes[code as int].glyph is Missing,
        g.text.horizontal_scaling.finite(),
        g.text.rise.finite(),
        places::finite(g.text.text_matrix.then_apply(g.ctm)),
        advance_of(g.text, code, font.codes[code as int].advance).finite(),
        places::finite(
            Transform::translation(
                advance_of(g.text, code, font.codes[code as int].advance),
                nought(),
            ).then_apply(g.text.text_matrix),
        ),
        type3::glyph_shown(scene, font, code, first, g, out) matches Ok((g1, out1))
            && places::finite(out1.chars.last().matrix),
    ensures
        type3::glyph_shown(scene, font, code, first, g, out) matches Ok((g1, out1)) && {
            let c = out1.chars.last();
            let whole = g.text.text_matrix.then_apply(g.ctm);
            &&& out1.chars.len() == out.chars.len() + 1
            &&& out.chars.is_prefix_of(out1.chars)
            &&& out1.budget == out.budget - 1
            &&& out1.lines == out.lines && out1.rects == out.rects && out1.curves == out.curves
            &&& c.fontname == font.fontname
            &&& (forall|i: int| 0 <= i < g.marks.len() ==> #[trigger] g.marks[i] is None) ==> c.text
                == font.codes[code as int].text
            &&& together(
                c.matrix.image(nought(), nought()),
                whole.image(nought(), g.text.rise),
            )
            &&& alike(c.matrix.m11, g.text.horizontal_scaling.times(whole.m11))
            &&& alike(c.matrix.m12, g.text.horizontal_scaling.times(whole.m12))
            &&& alike(c.matrix.m21, whole.m21)
            &&& alike(c.matrix.m22, whole.m22)
            &&& g1.ctm == g.ctm
            &&& same_style(g1.text, g.text)
            &&& g1.text.line_matrix == g.text.line_matrix
            &&& begins_at(
                g1.text.text_matrix,
                g.text.text_matrix,
                advance_of(g.text, code, font.codes[code as int].advance),
                nought(),
            )
        },
{
    let tx = advance_of(g.text, code, font.codes[code as int].advance);
    lemma_moved(tx, nought(), g.text.text_matrix);
    let whole = g.text.text_matrix.then_apply(g.ctm);
    let th = g.text.horizontal_scaling;
    let own = Transform {
        m11: th,
        m12: nought(),
        m21: nought(),
        m22: unit(),
        m31: nought(),
        m32: g.text.rise,
    };
    places::law_first_then_next(own, whole);
    places::law_small_first_matrix(th, g.text.rise, whole);
    if forall|i: int| 0 <= i < g.marks.len() ==> #[trigger] g.marks[i] is None {
        lemma_no_marks(g.marks);
    }
}

proof fn lemma_no_marks(marks: Seq<Option<MarkedView>>)
    requires
        forall|i: int| 0 <= i < marks.len() ==> #[trigger] marks[i] is None,
    ensures
        type3::innermost(marks) is None,
    decreases marks.len(),
{
    if marks.len() > 0 {
        let front = marks.drop_last();
        assert forall|i: int| 0 <= i < front.len() implies #[trigger] front[i] is None by {
            assert(front[i] == marks[i]);
        }
        lemma_no_marks(front);
        assert(marks[marks.len() - 1] is None);
    }
}

/// A move to another line begins it at `(tx, ty)` of the last line; text goes on there.
pub proof fn law_lines_begin_where_they_are_moved(
    scene: Scene,
    resources: DictView,
    s: Stage,
    go: OperationView,
    tx: Float,
    ty: Float,
)
    requires
        go.0 == "Td"@,
        numbers_are(go, seq![tx, ty]),
        tx.finite() && ty.finite(),
        places::finite(Transform::translation(tx, ty).then_apply(s.now.text.line_matrix)),
    ensures
        type3::acted(scene, resources, s, go) matches Ok(t) && {
            &&& t.out == s.out
            &&& t.now.ctm == s.now.ctm
            &&& t.now.marks == s.now.marks
            &&& same_style(t.now.text, s.now.text)
            &&& t.now.text.text_matrix == t.now.text.line_matrix
            &&& begins_at(t.now.text.line_matrix, s.now.text.line_matrix, tx, ty)
        },
{
    lemma_tags();
    assert(object::number(go.1[0]) == Some(seq![tx, ty][0]));
    assert(object::number(go.1[1]) == Some(seq![tx, ty][1]));
    lemma_moved(tx, ty, s.now.text.line_matrix);
}

/// A matrix for text takes the place of that of the line and of the text; beginning and
/// ending text takes both back to the matrix that moves nothing.
pub proof fn law_text_matrix_is_set(
    scene: Scene,
    resources: DictView,
    s: Stage,
    set: OperationView,
    m: Transform,
)
    requires
        set.1.len() == 6,
        object::number(set.1[0]) == Some(m.m11),
        object::number(set.1[1]) == Some(m.m12),
        object::number(set.1[2]) == Some(m.m21),
        object::number(set.1[3]) == Some(m.m22),
        object::number(set.1[4]) == Some(m.m31),
        object::number(set.1[5]) == Some(m.m32),
    ensures
        set.0 == "Tm"@ ==> (type3::acted(scene, resources, s, set) matches Ok(t) && {
            &&& t.out == s.out
            &&& t.now.ctm == s.now.ctm
            &&& same_style(t.now.text, s.now.text)
            &&& t.now.text.text_matrix == m
            &&& t.now.text.line_matrix == m
        }),
        set.0 == "BT"@ || set.0 == "ET"@ ==> (type3::acted(scene, resources, s, set) matches Ok(t)
            && {
            &&& t.out == s.out
            &&& t.now.ctm == s.now.ctm
            &&& same_style(t.now.text, s.now.text)
            &&& t.now.text.text_matrix == Transform::neutral()
            &&& t.now.text.line_matrix == Transform::neutral()
        }),
{
    lemma_tags();
}

/// Each of the operators that set one number sets that one and leaves the rest; scaling is
/// given in hundredths.
pub proof fn law_settings_are_independent(
    scene: Scene,
    resources: DictView,
    s: Stage,
    op: OperationView,
    x: Float,
)
    requires
        op.0 == "Tc"@ || op.0 == "Tw"@ || op.0 == "Tz"@ || op.0 == "TL"@ || op.0 == "Ts"@,
        numbers_are(op, seq![x]),
    ensures
        type3::acted(scene, resources, s, op) matches Ok(t) && {
            let a = s.now.text;
            let b = t.now.text;
            &&& t.out == s.out && t.saved == s.saved
            &&& t.now.ctm == s.now.ctm && t.now.marks == s.now.marks
            &&& b.font == a.font && b.font_size == a.font_size
            &&& b.text_matrix == a.text_matrix && b.line_matrix == a.line_matrix
            &&& b.character_spacing == if op.0 == "Tc"@ {
                x
            } else {
                a.character_spacing
            }
            &&& b.word_spacing == if op.0 == "Tw"@ {
                x
            } else {
                a.word_spacing
            }
            &&& b.leading == if op.0 == "TL"@ {
                x
            } else {
                a.leading
            }
            &&& b.rise == if op.0 == "Ts"@ {
                x
            } else {
                a.rise
            }
            &&& b.horizontal_scaling == if op.0 == "Tz"@ {
                x.over(Float { bits: 0x4059_0000_0000_0000 })
            } else {
                a.horizontal_scaling
            }
        },
{
    lemma_tags();
    assert(object::number(op.1[0]) == Some(seq![x][0]));
}

/// Ending a mark takes back what beginning it did, and nothing else is different.
pub proof fn law_marks_end(
    scene: Scene,
    resources: DictView,
    s: Stage,
    begin: OperationView,
    end: OperationView,
)
    requires
        begin.0 == "BDC"@ || begin.0 == "BMC"@,
        end.0 == "EMC"@,
    ensures
        followed_by(scene, resources, type3::acted(scene, resources, s, begin), end) == Ok::<_, Halt>(s),
{
    lemma_tags();
    let t = type3::acted(scene, resources, s, begin)->Ok_0;
    assert(t.now.marks.drop_last() =~= s.now.marks);
}

/// A mark with a text that is given with it has that text, not given yet; a mark without
/// properties has none.
pub proof fn law_marks_give_their_text(
    scene: Scene,
    resources: DictView,
    s: Stage,
    begin: OperationView,
    dict: DictView,
    bytes: Seq<u8>,
    notation: Notation,
)
    requires
        begin.0 == "BDC"@,
        begin.1.len() == 2,
        begin.1[1] == ObjectView::Dictionary(dict),
        object::named(dict, "ActualText"@) == Some(ObjectView::Text(bytes, notation)),
        crate::pdf::text::text_of(bytes) is Some,
    ensures
        type3::acted(scene, resources, s, begin) matches Ok(t) && {
            &&& t.now.marks.len() == s.now.marks.len() + 1
            &&& t.now.marks.last() == Some(
                MarkedView { text: crate::pdf::text::text_of(bytes)->0, emitted: false },
            )
            &&& type3::marked_text(t.now.marks, true) == Some(
                crate::pdf::text::text_of(bytes)->0,
            )
            &&& t.out == s.out
        },
{
    lemma_tags();
}

/// A change of the matrix comes first, then what was in effect; text goes on as before.
pub proof fn law_changes_come_first(
    scene: Scene,
    resources: DictView,
    s: Stage,
    change: OperationView,
    m: Transform,
)
    requires
        changes_matrix(change, m),
        places::finite(m),
        places::finite(m.then_apply(s.now.ctm)),
    ensures
        type3::acted(scene, resources, s, change) matches Ok(t) && {
            &&& t.out == s.out && t.saved == s.saved
            &&& t.now.text == s.now.text && t.now.marks == s.now.marks
            &&& begins_at(t.now.ctm, s.now.ctm, m.m31, m.m32)
        },
{
    lemma_tags();
    places::law_first_then_next(m, s.now.ctm);
}

proof fn lemma_content_goes_on(
    scene: Scene,
    first: Seq<OperationView>,
    rest: Seq<OperationView>,
    n: nat,
    resources: DictView,
    depth: nat,
    active: Seq<ObjectId>,
    start: Stage,
    s: Stage,
)
    requires
        n <= rest.len(),
        type3::walked(scene, first, first.len(), resources, depth, active, start) == Ok::<
            _,
            Failure<Stage>,
        >(s),
    ensures
        type3::walked(scene, first + rest, first.len() + n, resources, depth, active, start)
            == type3::walked(scene, rest, n, resources, depth, active, s),
    decreases n,
{
    if n == 0 {
        lemma_same_beginning(
            scene,
            first,
            first + rest,
            first.len(),
            resources,
            depth,
            active,
            start,
        );
    } else {
        lemma_content_goes_on(
            scene,
            first,
            rest,
            (n - 1) as nat,
            resources,
            depth,
            active,
            start,
            s,
        );
        assert((first + rest)[first.len() + n - 1] == rest[n - 1]);
    }
}

proof fn lemma_same_beginning(
    scene: Scene,
    a: Seq<OperationView>,
    b: Seq<OperationView>,
    n: nat,
    resources: DictView,
    depth: nat,
    active: Seq<ObjectId>,
    start: Stage,
)
    requires
        n <= a.len() && n <= b.len(),
        forall|i: int| 0 <= i < n ==> a[i] == b[i],
    ensures
        type3::walked(scene, a, n, resources, depth, active, start) == type3::walked(
            scene,
            b,
            n,
            resources,
            depth,
            active,
            start,
        ),
    decreases n,
{
    if n > 0 {
        lemma_same_beginning(scene, a, b, (n - 1) as nat, resources, depth, active, start);
    }
}

/// A form shows what its content would show in its place, with its matrix as a change of the
/// matrix before it; what was in effect is in effect again behind it.
pub proof fn law_form_is_its_content(
    scene: Scene,
    ops: Seq<OperationView>,
    n: nat,
    resources: DictView,
    depth: nat,
    active: Seq<ObjectId>,
    start: Stage,
    s: Stage,
    name: Seq<char>,
    target: ObjectView,
    dict: DictView,
    form: ContentView,
    opened: FormView,
    change: OperationView,
    m: Transform,
)
    requires
        n < ops.len(),
        type3::walked(scene, ops, n, resources, depth, active, start) == Ok::<_, Failure<Stage>>(s),
        uses_stream(scene.file, resources, ops[n as int], name, target, dict, form, "Form"@),
        forms::opened(scene.file, resources, target, dict, form, depth, active) == Ok::<
            _,
            ErrorView,
        >(opened),
        changes_matrix(change, m),
        opened.matrix == Some(m) || (opened.matrix is None && m == Transform::neutral()),
    ensures
        ({
            let inline = type3::walked(
                scene,
                seq![change] + opened.ops,
                opened.ops.len() + 1,
                opened.resources,
                depth + 1,
                opened.active,
                Stage { saved: Seq::empty(), ..s },
            );
            match type3::walked(scene, ops, n + 1, resources, depth, active, start) {
                Ok(t) => inline matches Ok(inner) && t.out == inner.out && t.now == s.now && t.saved
                    == s.saved,
                Err(f) => inline matches Err(inner) && f.error == inner.error,
            }
        }),
{
    lemma_tags();
    assert(crate::parse::images::operand_name(ops[n as int]) == Some(name));
    assert(forms::subtype(dict) == Some("Form"@));
    let before = Stage { saved: Seq::empty(), ..s };
    let after = Stage {
        now: GraphicsView { ctm: m.then_apply(s.now.ctm), ..s.now },
        saved: Seq::empty(),
        out: s.out,
    };
    let one = seq![change];
    assert(type3::acted(scene, opened.resources, before, change) == Ok::<_, Halt>(after));
    assert(type3::walked(scene, one, 0, opened.resources, depth + 1, opened.active, before)
        == Ok::<_, Failure<Stage>>(before));
    assert(type3::walked(scene, one, 1, opened.resources, depth + 1, opened.active, before)
        == Ok::<_, Failure<Stage>>(after));
    lemma_content_goes_on(
        scene,
        one,
        opened.ops,
        opened.ops.len(),
        opened.resources,
        depth + 1,
        opened.active,
        before,
        after,
    );
}

/// Setting a font sets the one that the resources have under its name, and its size; where
/// text goes on and how it is spaced stays as it was.
pub proof fn law_font_is_set(
    scene: Scene,
    resources: DictView,
    s: Stage,
    set: OperationView,
    name: Seq<u8>,
    size: Float,
    font: Option<FontView>,
)
    requires
        set.0 == "Tf"@,
        set.1.len() == 2,
        set.1[0] == ObjectView::Name(name),
        object::number(set.1[1]) == Some(size),
        font::font_for(scene.fonts, resources, name) == Ok::<_, ErrorView>(font),
    ensures
        type3::acted(scene, resources, s, set) matches Ok(t) && {
            let a = s.now.text;
            let b = t.now.text;
            &&& t.out == s.out && t.saved == s.saved
            &&& t.now.ctm == s.now.ctm && t.now.marks == s.now.marks
            &&& b.font == font
            &&& b.font_size == size
            &&& b.text_matrix == a.text_matrix && b.line_matrix == a.line_matrix
            &&& b.character_spacing == a.character_spacing && b.word_spacing == a.word_spacing
            &&& b.leading == a.leading && b.rise == a.rise
            &&& b.horizontal_scaling == a.horizontal_scaling
        },
{
    lemma_tags();
}

/// The font under a name is the first one that was read for it in the same resources.
pub proof fn law_font_is_found(
    fonts: Seq<FontEntryView>,
    resources: DictView,
    name: Seq<u8>,
    k: int,
)
    requires
        0 <= k < fonts.len(),
        fonts[k].resources == resources && fonts[k].name == name,
        forall|i: int|
            0 <= i < k ==> (#[trigger] fonts[i]).resources != resources || fonts[i].name != name,
    ensures
        font::font_for(fonts, resources, name) == fonts[k].outcome,
    decreases k,
{
    if k > 0 {
        let rest = fonts.skip(1);
        assert(fonts[0].resources != resources || fonts[0].name != name);
        assert forall|i: int| 0 <= i < k - 1 implies (#[trigger] rest[i]).resources != resources
            || rest[i].name != name by {
            assert(rest[i] == fonts[i + 1]);
        }
        assert(rest[k - 1] == fonts[k]);
        law_font_is_found(rest, resources, name, k - 1);
    }
}

/// Whether an object is another one, but for being part of a glyph.
pub open spec fn glyph_part(part: DrawnView, drawn: DrawnView) -> bool {
    &&& part.object_type == "type3_glyph"@
    &&& part.page_number == drawn.page_number
    &&& part.place == drawn.place
    &&& part.pts == drawn.pts
    &&& part.path == drawn.path
    &&& part.stroke == drawn.stroke
    &&& part.fill == drawn.fill
    &&& part.linewidth == drawn.linewidth
}

/// Whether the objects `after` are those `before`, and behind them the ones `drawn`, as parts
/// of a glyph.
pub open spec fn goes_on_with(
    after: Seq<DrawnView>,
    before: Seq<DrawnView>,
    drawn: Seq<DrawnView>,
) -> bool {
    &&& before.is_prefix_of(after)
    &&& after.len() == before.len() + drawn.len()
    &&& forall|i: int|
        0 <= i < drawn.len() ==> glyph_part(after[before.len() + i], #[trigger] drawn[i])
}

/// Drawing a glyph adds what its content draws, each object as part of a glyph, with the
/// matrix of the font before that of the text: scaled to its size, and across as the text
/// is. What was there before stays.
pub proof fn law_glyph_is_drawn(
    scene: Scene,
    font: FontView,
    content: ContentView,
    g: GraphicsView,
    out: Output,
) -> (m: Transform)
    requires
        places::finite(font.font_matrix),
        places::finite(
            font.font_matrix.then_apply(
                (Transform {
                    m11: g.text.font_size.times(g.text.horizontal_scaling),
                    m12: nought(),
                    m21: nought(),
                    m22: g.text.font_size,
                    m31: nought(),
                    m32: g.text.rise,
                }).then_apply(g.text.text_matrix.then_apply(g.ctm)),
            ),
        ),
    ensures
        begins_at(
            m,
            (Transform {
                m11: g.text.font_size.times(g.text.horizontal_scaling),
                m12: nought(),
                m21: nought(),
                m22: g.text.font_size,
                m31: nought(),
                m32: g.text.rise,
            }).then_apply(g.text.text_matrix.then_apply(g.ctm)),
            font.font_matrix.m31,
            font.font_matrix.m32,
        ),
        match page_paths::paths_in(
            scene.file,
            content,
            font.resources,
            scene.geom,
            scene.page_number,
            m,
        ) {
            Ok(paths) => type3::with_glyph(scene, font, GlyphView::Stream(content), g, out) matches Ok(
                after,
            ) && {
                &&& after.chars == out.chars
                &&& after.budget == out.budget
                &&& goes_on_with(after.lines, out.lines, paths.lines)
                &&& goes_on_with(after.rects, out.rects, paths.rects)
                &&& goes_on_with(after.curves, out.curves, paths.curves)
            },
            Err(e) => type3::with_glyph(scene, font, GlyphView::Stream(content), g, out) is Err,
        },
{
    let own = Transform {
        m11: g.text.font_size.times(g.text.horizontal_scaling),
        m12: nought(),
        m21: nought(),
        m22: g.text.font_size,
        m31: nought(),
        m32: g.text.rise,
    };
    let next = own.then_apply(g.text.text_matrix.then_apply(g.ctm));
    let m = font.font_matrix.then_apply(next);
    places::law_first_then_next(font.font_matrix, next);
    m
}

/// The text of a mark is given by the first glyph of a string, once; all other glyphs within
/// the mark have none.
pub proof fn law_marked_glyphs(
    scene: Scene,
    font: FontView,
    code: u8,
    first: bool,
    g: GraphicsView,
    out: Output,
    text: Seq<char>,
    emitted: bool,
)
    requires
        out.budget > 0,
        g.marks.len() > 0,
        g.marks.last() == Some(MarkedView { text, emitted }),
        type3::glyph_shown(scene, font, code, first, g, out) is Ok,
    ensures
        type3::glyph_shown(scene, font, code, first, g, out) matches Ok((g1, out1)) && {
            &&& out1.chars.last().text == if first && !emitted {
                text
            } else {
                Seq::empty()
            }
            &&& g1.marks.len() == g.marks.len()
            &&& g1.marks.last() == Some(MarkedView { text, emitted: emitted || first })
        },
{
    assert(type3::innermost(g.marks) == Some(g.marks.len() - 1));
}

/// Properties under a name of the resources count as if they were given with the mark.
pub proof fn law_named_properties(
    scene: Scene,
    resources: DictView,
    s: Stage,
    by_name: OperationView,
    by_value: OperationView,
    name: Seq<u8>,
    all: DictView,
    dict: DictView,
    listed: ObjectView,
    found: ObjectView,
)
    requires
        by_name.0 == "BDC"@ && by_value.0 == "BDC"@,
        by_name.1.len() == 2 && by_value.1.len() == 2,
        by_name.1[1] == ObjectView::Name(name),
        by_value.1[1] == ObjectView::Dictionary(dict),
        object::named(resources, "Properties"@) == Some(listed),
        file::dictionary_of(scene.file, listed) == Ok::<_, ErrorView>(all),
        object::entry(all, name) == Some(found),
        file::dictionary_of(scene.file, found) == Ok::<_, ErrorView>(dict),
    ensures
        type3::acted(scene, resources, s, by_name) == type3::acted(scene, resources, s, by_value),
{
    lemma_tags();
}

/// Restoring what was never saved takes back to what is in effect when content begins.
pub proof fn law_restore_without_save(
    scene: Scene,
    resources: DictView,
    s: Stage,
    restore: OperationView,
)
    requires
        restore.0 == "Q"@,
        s.saved.len() == 0,
    ensures
        type3::acted(scene, resources, s, restore) matches Ok(t) && {
            &&& t.now.ctm == Transform::neutral()
            &&& t.now.marks.len() == 0
            &&& t.now.text.font is None
            &&& t.now.text.text_matrix == Transform::neutral()
            &&& t.now.text.line_matrix == Transform::neutral()
            &&& t.now.text.horizontal_scaling == unit()
            &&& t.now.text.rise == nought()
            &&& t.now.text.leading == nought()
            &&& t.now.text.character_spacing == nought()
            &&& t.now.text.word_spacing == nought()
            &&& t.out == s.out
        },
{
    lemma_tags();
}

/// A page that may show no more glyphs cannot be read past the next one.
pub proof fn law_glyphs_run_out(
    scene: Scene,
    font: FontView,
    code: u8,
    first: bool,
    g: GraphicsView,
    out: Output,
)
    requires
        out.budget == 0,
    ensures
        type3::glyph_shown(scene, font, code, first, g, out) is Err,
{
}

/// Without such a font, text shows nothing and goes on where it was.
pub proof fn law_no_font_shows_nothing(
    scene: Scene,
    resources: DictView,
    s: Stage,
    show: OperationView,
    bytes: Seq<u8>,
    notation: Notation,
)
    requires
        show.0 == "Tj"@,
        shows_string(show, bytes, notation),
        s.now.text.font is None,
    ensures
        type3::acted(scene, resources, s, show) == Ok::<_, Halt>(s),
{
    lemma_tags();
}

/// A mark without a text of its own, within one that has a text, changes nothing of it.
pub proof fn law_bare_marks_do_not_hide_others(marks: Seq<Option<MarkedView>>, first: bool)
    ensures
        type3::marked_text(marks.push(None), first) == type3::marked_text(marks, first),
        type3::marks_after(marks.push(None), first) == type3::marks_after(marks, first).push(None),
{
    let more = marks.push(None);
    assert(more.drop_last() =~= marks);
    assert(type3::innermost(more) == type3::innermost(marks));
    lemma_innermost_is_one(marks);
    if let Some(k) = type3::innermost(marks) {
        assert(more[k] == marks[k]);
        let text = marks[k]->0.text;
        let given = Some(MarkedView { text, emitted: true });
        assert(more.update(k, given) =~= marks.update(k, given).push(None));
    }
}

proof fn lemma_innermost_is_one(marks: Seq<Option<MarkedView>>)
    ensures
        type3::innermost(marks) matches Some(k) ==> 0 <= k < marks.len() && marks[k] is Some,
    decreases marks.len(),
{
    if marks.len() > 0 {
        lemma_innermost_is_one(marks.drop_last());
        if let Some(k) = type3::innermost(marks.drop_last()) {
            assert(marks.drop_last()[k] == marks[k]);
        }
    }
}

} // verus!
