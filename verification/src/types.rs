//! What a page consists of.

use crate::float::Float;
use crate::transform::Transform;
use vstd::prelude::*;

verus! {

/// What is seen of the items of a sequence.
pub open spec fn seen<T: View>(items: Seq<T>) -> Seq<T::V> {
    Seq::new(items.len(), |i: int| items[i]@)
}

/// The end of what is seen of a longer sequence.
pub proof fn lemma_seen_push<T: View>(items: Seq<T>, item: T)
    ensures
        seen(items.push(item)) == seen(items).push(item@),
{
    assert(seen(items.push(item)) =~= seen(items).push(item@));
}

/// What is seen of two sequences, one behind the other.
pub proof fn lemma_seen_add<T: View>(a: Seq<T>, b: Seq<T>)
    ensures
        seen(a + b) == seen(a) + seen(b),
{
    assert(seen(a + b) =~= seen(a) + seen(b));
}

/// What is seen of a text that may be missing.
pub open spec fn seen_text(text: Option<String>) -> Option<Seq<char>> {
    match text {
        Some(s) => Some(s@),
        None => None,
    }
}

/// What is seen of numbers that may be missing.
pub open spec fn seen_numbers(numbers: Option<Vec<Float>>) -> Option<Seq<Float>> {
    match numbers {
        Some(v) => Some(v@),
        None => None,
    }
}

/// Another copy of a text that may be missing.
pub fn copy_text(text: &Option<String>) -> (r: Option<String>)
    ensures
        seen_text(r) == seen_text(*text),
{
    match text {
        Some(s) => Some(s.clone()),
        None => None,
    }
}

/// Another copy of numbers.
pub fn copy_numbers(numbers: &Vec<Float>) -> (r: Vec<Float>)
    ensures
        r@ == numbers@,
{
    let mut out: Vec<Float> = Vec::new();
    let n: usize = numbers.len();
    for i in 0..n
        invariant
            n == numbers@.len(),
            out@ =~= numbers@.take(i as int),
    {
        out.push(numbers[i]);
    }
    assert(numbers@.take(n as int) =~= numbers@);
    out
}

fn copy_optional_numbers(numbers: &Option<Vec<Float>>) -> (r: Option<Vec<Float>>)
    ensures
        seen_numbers(r) == seen_numbers(*numbers),
{
    match numbers {
        Some(v) => Some(copy_numbers(v)),
        None => None,
    }
}

#[derive(Clone, Copy, PartialEq, Eq, Structural, Debug)]
pub struct Point {
    pub x: Float,
    pub y: Float,
}

/// A rectangle with sides along the axes; `top` is measured downwards.
#[derive(Clone, Copy, PartialEq, Eq, Structural, Debug)]
pub struct BBox {
    pub x0: Float,
    pub top: Float,
    pub x1: Float,
    pub bottom: Float,
}

#[derive(Clone, Copy, PartialEq, Eq, Structural, Debug)]
pub enum Orientation {
    Horizontal,
    Vertical,
}

/// A straight boundary, drawn or inferred.
#[derive(Clone, Debug)]
pub struct Edge {
    pub x0: Float,
    pub top: Float,
    pub x1: Float,
    pub bottom: Float,
    pub width: Float,
    pub height: Float,
    pub orientation: Orientation,
    pub object_type: String,
}

/// What is seen of an [`Edge`].
#[verifier::ext_equal]
pub struct EdgeView {
    pub x0: Float,
    pub top: Float,
    pub x1: Float,
    pub bottom: Float,
    pub width: Float,
    pub height: Float,
    pub orientation: Orientation,
    pub object_type: Seq<char>,
}

impl View for Edge {
    type V = EdgeView;

    open spec fn view(&self) -> EdgeView {
        EdgeView {
            x0: self.x0,
            top: self.top,
            x1: self.x1,
            bottom: self.bottom,
            width: self.width,
            height: self.height,
            orientation: self.orientation,
            object_type: self.object_type@,
        }
    }
}

impl Edge {
    /// Another edge that looks the same.
    pub fn copy(&self) -> (r: Edge)
        ensures
            r@ == self@,
    {
        Edge {
            x0: self.x0,
            top: self.top,
            x1: self.x1,
            bottom: self.bottom,
            width: self.width,
            height: self.height,
            orientation: self.orientation,
            object_type: self.object_type.clone(),
        }
    }
}

/// A run of characters.
#[derive(Clone, Debug)]
pub struct Word {
    pub text: String,
    pub x0: Float,
    pub top: Float,
    pub x1: Float,
    pub bottom: Float,
}

impl Word {
    pub open spec fn bbox(self) -> BBox {
        BBox { x0: self.x0, top: self.top, x1: self.x1, bottom: self.bottom }
    }
}

#[derive(Clone, Debug)]
pub struct Char {
    pub object_type: String,
    pub page_number: usize,
    pub text: String,
    pub x0: Float,
    pub top: Float,
    pub x1: Float,
    pub bottom: Float,
    pub y0: Float,
    pub y1: Float,
    pub doctop: Float,
    pub width: Float,
    pub height: Float,
    pub size: Float,
    pub adv: Float,
    pub upright: bool,
    pub fontname: String,
    pub matrix: Transform,
    pub mcid: Option<i64>,
    pub tag: Option<String>,
    pub ncs: Option<String>,
    pub stroking_color: Option<Vec<Float>>,
    pub non_stroking_color: Option<Vec<Float>>,
}

/// What is seen of a [`Char`].
#[verifier::ext_equal]
pub struct CharView {
    pub object_type: Seq<char>,
    pub page_number: usize,
    pub text: Seq<char>,
    pub place: Place,
    pub size: Float,
    pub adv: Float,
    pub upright: bool,
    pub fontname: Seq<char>,
    pub matrix: Transform,
    pub mcid: Option<i64>,
    pub tag: Option<Seq<char>>,
    pub ncs: Option<Seq<char>>,
    pub stroking_color: Option<Seq<Float>>,
    pub non_stroking_color: Option<Seq<Float>>,
}

/// Where an object lies: measured from the top of its page, from the bottom of it, and
/// from the top of the document.
#[verifier::ext_equal]
pub struct Place {
    pub x0: Float,
    pub top: Float,
    pub x1: Float,
    pub bottom: Float,
    pub y0: Float,
    pub y1: Float,
    pub doctop: Float,
    pub width: Float,
    pub height: Float,
}

impl View for Char {
    type V = CharView;

    open spec fn view(&self) -> CharView {
        CharView {
            object_type: self.object_type@,
            page_number: self.page_number,
            text: self.text@,
            place: Place {
                x0: self.x0,
                top: self.top,
                x1: self.x1,
                bottom: self.bottom,
                y0: self.y0,
                y1: self.y1,
                doctop: self.doctop,
                width: self.width,
                height: self.height,
            },
            size: self.size,
            adv: self.adv,
            upright: self.upright,
            fontname: self.fontname@,
            matrix: self.matrix,
            mcid: self.mcid,
            tag: seen_text(self.tag),
            ncs: seen_text(self.ncs),
            stroking_color: seen_numbers(self.stroking_color),
            non_stroking_color: seen_numbers(self.non_stroking_color),
        }
    }
}

impl Char {
    /// Another character that looks the same.
    pub fn copy(&self) -> (r: Char)
        ensures
            r@ == self@,
    {
        Char {
            object_type: self.object_type.clone(),
            page_number: self.page_number,
            text: self.text.clone(),
            x0: self.x0,
            top: self.top,
            x1: self.x1,
            bottom: self.bottom,
            y0: self.y0,
            y1: self.y1,
            doctop: self.doctop,
            width: self.width,
            height: self.height,
            size: self.size,
            adv: self.adv,
            upright: self.upright,
            fontname: self.fontname.clone(),
            matrix: self.matrix,
            mcid: self.mcid,
            tag: copy_text(&self.tag),
            ncs: copy_text(&self.ncs),
            stroking_color: copy_optional_numbers(&self.stroking_color),
            non_stroking_color: copy_optional_numbers(&self.non_stroking_color),
        }
    }
}

/// A step of a drawn path.
#[derive(Clone, Copy, PartialEq, Eq, Structural, Debug)]
pub enum PathCommand {
    MoveTo(Point),
    LineTo(Point),
    CurveTo { c1: Point, c2: Point, p: Point },
    Rect { x: Float, y: Float, width: Float, height: Float },
    Close,
}

/// A drawn straight line.
#[derive(Clone, Debug)]
pub struct Line {
    pub object_type: String,
    pub page_number: usize,
    pub x0: Float,
    pub top: Float,
    pub x1: Float,
    pub bottom: Float,
    pub y0: Float,
    pub y1: Float,
    pub doctop: Float,
    pub width: Float,
    pub height: Float,
    pub pts: Vec<Point>,
    pub stroke: bool,
    pub fill: bool,
    pub linewidth: Float,
}

/// A drawn rectangle or other path.
#[derive(Clone, Debug)]
pub struct RectObject {
    pub object_type: String,
    pub page_number: usize,
    pub x0: Float,
    pub top: Float,
    pub x1: Float,
    pub bottom: Float,
    pub y0: Float,
    pub y1: Float,
    pub doctop: Float,
    pub width: Float,
    pub height: Float,
    pub pts: Vec<Point>,
    pub path: Vec<PathCommand>,
    pub stroke: bool,
    pub fill: bool,
    pub linewidth: Float,
}

/// A drawn path that is neither a line nor a rectangle.
#[derive(Clone, Debug)]
pub struct Curve {
    pub object_type: String,
    pub page_number: usize,
    pub x0: Float,
    pub top: Float,
    pub x1: Float,
    pub bottom: Float,
    pub y0: Float,
    pub y1: Float,
    pub doctop: Float,
    pub width: Float,
    pub height: Float,
    pub pts: Vec<Point>,
    pub path: Vec<PathCommand>,
    pub stroke: bool,
    pub fill: bool,
    pub linewidth: Float,
}

/// What is seen of a drawn object; a line has no steps.
#[verifier::ext_equal]
pub struct DrawnView {
    pub object_type: Seq<char>,
    pub page_number: usize,
    pub place: Place,
    pub pts: Seq<Point>,
    pub path: Seq<PathCommand>,
    pub stroke: bool,
    pub fill: bool,
    pub linewidth: Float,
}

impl View for Line {
    type V = DrawnView;

    open spec fn view(&self) -> DrawnView {
        DrawnView {
            object_type: self.object_type@,
            page_number: self.page_number,
            place: Place {
                x0: self.x0,
                top: self.top,
                x1: self.x1,
                bottom: self.bottom,
                y0: self.y0,
                y1: self.y1,
                doctop: self.doctop,
                width: self.width,
                height: self.height,
            },
            pts: self.pts@,
            path: Seq::empty(),
            stroke: self.stroke,
            fill: self.fill,
            linewidth: self.linewidth,
        }
    }
}

impl View for RectObject {
    type V = DrawnView;

    open spec fn view(&self) -> DrawnView {
        DrawnView {
            object_type: self.object_type@,
            page_number: self.page_number,
            place: Place {
                x0: self.x0,
                top: self.top,
                x1: self.x1,
                bottom: self.bottom,
                y0: self.y0,
                y1: self.y1,
                doctop: self.doctop,
                width: self.width,
                height: self.height,
            },
            pts: self.pts@,
            path: self.path@,
            stroke: self.stroke,
            fill: self.fill,
            linewidth: self.linewidth,
        }
    }
}

impl View for Curve {
    type V = DrawnView;

    open spec fn view(&self) -> DrawnView {
        DrawnView {
            object_type: self.object_type@,
            page_number: self.page_number,
            place: Place {
                x0: self.x0,
                top: self.top,
                x1: self.x1,
                bottom: self.bottom,
                y0: self.y0,
                y1: self.y1,
                doctop: self.doctop,
                width: self.width,
                height: self.height,
            },
            pts: self.pts@,
            path: self.path@,
            stroke: self.stroke,
            fill: self.fill,
            linewidth: self.linewidth,
        }
    }
}

/// An image that a page shows.
#[derive(Debug)]
pub struct ImageObject {
    pub object_type: String,
    pub page_number: usize,
    pub x0: Float,
    pub top: Float,
    pub x1: Float,
    pub bottom: Float,
    pub y0: Float,
    pub y1: Float,
    pub doctop: Float,
    pub width: Float,
    pub height: Float,
    pub name: String,
    pub srcsize: (u32, u32),
    pub bits: Option<i64>,
    pub colorspace: Option<String>,
    pub imagemask: Option<bool>,
    pub mcid: Option<i64>,
    pub tag: Option<String>,
}

/// What is seen of an [`ImageObject`].
#[verifier::ext_equal]
pub struct ImageView {
    pub object_type: Seq<char>,
    pub page_number: usize,
    pub place: Place,
    pub name: Seq<char>,
    pub srcsize: (u32, u32),
    pub bits: Option<i64>,
    pub colorspace: Option<Seq<char>>,
    pub imagemask: Option<bool>,
    pub mcid: Option<i64>,
    pub tag: Option<Seq<char>>,
}

impl View for ImageObject {
    type V = ImageView;

    open spec fn view(&self) -> ImageView {
        ImageView {
            object_type: self.object_type@,
            page_number: self.page_number,
            place: Place {
                x0: self.x0,
                top: self.top,
                x1: self.x1,
                bottom: self.bottom,
                y0: self.y0,
                y1: self.y1,
                doctop: self.doctop,
                width: self.width,
                height: self.height,
            },
            name: self.name@,
            srcsize: self.srcsize,
            bits: self.bits,
            colorspace: seen_text(self.colorspace),
            imagemask: self.imagemask,
            mcid: self.mcid,
            tag: seen_text(self.tag),
        }
    }
}

/// A note, link or other mark on a page.
#[derive(Clone, Debug)]
pub struct Annotation {
    pub object_type: String,
    pub page_number: usize,
    pub x0: Float,
    pub top: Float,
    pub x1: Float,
    pub bottom: Float,
    pub y0: Float,
    pub y1: Float,
    pub doctop: Float,
    pub width: Float,
    pub height: Float,
    pub subtype: String,
    pub uri: Option<String>,
    pub title: Option<String>,
    pub contents: Option<String>,
}

/// What is seen of an [`Annotation`].
#[verifier::ext_equal]
pub struct AnnotationView {
    pub object_type: Seq<char>,
    pub page_number: usize,
    pub place: Place,
    pub subtype: Seq<char>,
    pub uri: Option<Seq<char>>,
    pub title: Option<Seq<char>>,
    pub contents: Option<Seq<char>>,
}

impl View for Annotation {
    type V = AnnotationView;

    open spec fn view(&self) -> AnnotationView {
        AnnotationView {
            object_type: self.object_type@,
            page_number: self.page_number,
            place: Place {
                x0: self.x0,
                top: self.top,
                x1: self.x1,
                bottom: self.bottom,
                y0: self.y0,
                y1: self.y1,
                doctop: self.doctop,
                width: self.width,
                height: self.height,
            },
            subtype: self.subtype@,
            uri: seen_text(self.uri),
            title: seen_text(self.title),
            contents: seen_text(self.contents),
        }
    }
}

/// An annotation that leads to a resource.
#[derive(Clone, Debug)]
pub struct Hyperlink {
    pub object_type: String,
    pub page_number: usize,
    pub x0: Float,
    pub top: Float,
    pub x1: Float,
    pub bottom: Float,
    pub y0: Float,
    pub y1: Float,
    pub doctop: Float,
    pub width: Float,
    pub height: Float,
    pub uri: String,
}

/// What is seen of a [`Hyperlink`].
#[verifier::ext_equal]
pub struct HyperlinkView {
    pub object_type: Seq<char>,
    pub page_number: usize,
    pub place: Place,
    pub uri: Seq<char>,
}

impl View for Hyperlink {
    type V = HyperlinkView;

    open spec fn view(&self) -> HyperlinkView {
        HyperlinkView {
            object_type: self.object_type@,
            page_number: self.page_number,
            place: Place {
                x0: self.x0,
                top: self.top,
                x1: self.x1,
                bottom: self.bottom,
                y0: self.y0,
                y1: self.y1,
                doctop: self.doctop,
                width: self.width,
                height: self.height,
            },
            uri: self.uri@,
        }
    }
}

/// A page and everything on it.
#[derive(Debug)]
pub struct Page {
    pub page_number: usize,
    pub rotation: i32,
    pub width: Float,
    pub height: Float,
    pub bbox: BBox,
    pub mediabox: BBox,
    pub cropbox: BBox,
    pub trimbox: Option<BBox>,
    pub bleedbox: Option<BBox>,
    pub artbox: Option<BBox>,
    pub doctop_offset: Float,
    pub is_original: bool,
    pub chars: Vec<Char>,
    pub lines: Vec<Line>,
    pub rects: Vec<RectObject>,
    pub curves: Vec<Curve>,
    pub images: Vec<ImageObject>,
    pub annots: Vec<Annotation>,
    pub hyperlinks: Vec<Hyperlink>,
}

/// How text is put together from characters.
#[derive(Clone, Copy, PartialEq, Eq, Structural, Debug)]
pub struct TextOptions {
    pub layout: bool,
    pub layout_width: Option<Float>,
    pub layout_height: Option<Float>,
    pub layout_bbox: Option<BBox>,
}

} // verus!
