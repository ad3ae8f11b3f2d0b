//! Matrices and boxes that objects stand for.

use super::page_geometry::PageGeometry;
use crate::error::Error;
use crate::error::ErrorView;
use crate::float::Float;
use crate::geometry;
use crate::geometry::bbox_from_points;
use crate::pdf::object;
use crate::pdf::object::obj_to_f64;
use crate::pdf::object::ObjectView;
use crate::pdf::object::PdfObject;
use crate::transform::Transform;
use crate::types;
use crate::types::BBox;
use crate::types::Point;
use vstd::prelude::*;

verus! {

/// The number that an object is, or what it was to be.
pub open spec fn number_or(object: ObjectView, what: Seq<char>) -> Result<Float, ErrorView> {
    match object::number(object) {
        Some(x) => Ok(x),
        None => Err(ErrorView::Type(what, None)),
    }
}

fn number_of(object: &PdfObject, what: &str) -> (r: Result<Float, Error>)
    ensures
        match number_or(object@, what@) {
            Ok(x) => r == Ok::<Float, Error>(x),
            Err(e) => r matches Err(error) && error@ == e,
        },
{
    match obj_to_f64(object) {
        Some(x) => Ok(x),
        None => Err(Error::wrong_type(what)),
    }
}

/// The matrix that six operands make up.
pub open spec fn matrix(operands: Seq<ObjectView>) -> Result<Transform, ErrorView> {
    if operands.len() != 6 {
        Err(ErrorView::Message("transform expects 6 operands"@))
    } else {
        match (
            number_or(operands[0], "transform operand a"@),
            number_or(operands[1], "transform operand b"@),
            number_or(operands[2], "transform operand c"@),
            number_or(operands[3], "transform operand d"@),
            number_or(operands[4], "transform operand e"@),
            number_or(operands[5], "transform operand f"@),
        ) {
            (Err(e), _, _, _, _, _) => Err(e),
            (_, Err(e), _, _, _, _) => Err(e),
            (_, _, Err(e), _, _, _) => Err(e),
            (_, _, _, Err(e), _, _) => Err(e),
            (_, _, _, _, Err(e), _) => Err(e),
            (_, _, _, _, _, Err(e)) => Err(e),
            (Ok(m11), Ok(m12), Ok(m21), Ok(m22), Ok(m31), Ok(m32)) => Ok(
                Transform { m11, m12, m21, m22, m31, m32 },
            ),
        }
    }
}

/// What is seen of the result of reading a matrix.
pub open spec fn seen_matrix(r: Result<Transform, Error>) -> Result<Transform, ErrorView> {
    match r {
        Ok(m) => Ok(m),
        Err(e) => Err(e@),
    }
}

/// The matrix that six operands make up.
pub fn transform_from_operands(operands: &Vec<PdfObject>) -> (r: Result<Transform, Error>)
    ensures
        seen_matrix(r) == matrix(types::seen(operands@)),
{
    if operands.len() != 6 {
        return Err(Error::message("transform expects 6 operands"));
    }
    let ghost all = types::seen(operands@);
    assert(all[0] == operands@[0]@ && all[1] == operands@[1]@ && all[2] == operands@[2]@);
    assert(all[3] == operands@[3]@ && all[4] == operands@[4]@ && all[5] == operands@[5]@);
    let m11: Float = match number_of(&operands[0], "transform operand a") {
        Ok(x) => x,
        Err(e) => {
            return Err(e);
        },
    };
    let m12: Float = match number_of(&operands[1], "transform operand b") {
        Ok(x) => x,
        Err(e) => {
            return Err(e);
        },
    };
    let m21: Float = match number_of(&operands[2], "transform operand c") {
        Ok(x) => x,
        Err(e) => {
            return Err(e);
        },
    };
    let m22: Float = match number_of(&operands[3], "transform operand d") {
        Ok(x) => x,
        Err(e) => {
            return Err(e);
        },
    };
    let m31: Float = match number_of(&operands[4], "transform operand e") {
        Ok(x) => x,
        Err(e) => {
            return Err(e);
        },
    };
    let m32: Float = match number_of(&operands[5], "transform operand f") {
        Ok(x) => x,
        Err(e) => {
            return Err(e);
        },
    };
    Ok(Transform { m11, m12, m21, m22, m31, m32 })
}

/// The matrix that an array is.
pub open spec fn matrix_of(object: ObjectView) -> Result<Transform, ErrorView> {
    match object {
        ObjectView::Array(items) => matrix(items),
        _ => Err(ErrorView::Type("expected transform array, got "@, Some(object))),
    }
}

/// The matrix that an array is.
pub fn transform_from_obj(object: &PdfObject) -> (r: Result<Transform, Error>)
    ensures
        seen_matrix(r) == matrix_of(object@),
{
    match object {
        PdfObject::Array(items) => {
            proof {
                object::lemma_array_view(*items);
            }
            transform_from_operands(items)
        },
        _ => Err(Error::wrong_object("expected transform array, got ", object)),
    }
}

/// Two corners of a box.
pub type RawBox = (Float, Float, Float, Float);

/// The box that an array of four numbers is.
pub open spec fn box_of(object: ObjectView) -> Result<RawBox, ErrorView> {
    match object {
        ObjectView::Array(items) => if items.len() == 4 {
            match (
                number_or(items[0], "bbox item 0"@),
                number_or(items[1], "bbox item 1"@),
                number_or(items[2], "bbox item 2"@),
                number_or(items[3], "bbox item 3"@),
            ) {
                (Err(e), _, _, _) => Err(e),
                (_, Err(e), _, _) => Err(e),
                (_, _, Err(e), _) => Err(e),
                (_, _, _, Err(e)) => Err(e),
                (Ok(a), Ok(b), Ok(c), Ok(d)) => Ok((a, b, c, d)),
            }
        } else {
            Err(ErrorView::Type("expected bbox array, got "@, Some(object)))
        },
        _ => Err(ErrorView::Type("expected bbox array, got "@, Some(object))),
    }
}

/// What is seen of the result of reading a box.
pub open spec fn seen_box(r: Result<RawBox, Error>) -> Result<RawBox, ErrorView> {
    match r {
        Ok(b) => Ok(b),
        Err(e) => Err(e@),
    }
}

/// The box that an array of four numbers is.
pub fn obj_to_box(object: &PdfObject) -> (r: Result<RawBox, Error>)
    ensures
        seen_box(r) == box_of(object@),
{
    match object {
        PdfObject::Array(items) => {
            let ghost all = types::seen(items@);
            proof {
                object::lemma_array_view(*items);
            }
            if items.len() != 4 {
                return Err(Error::wrong_object("expected bbox array, got ", object));
            }
            assert(all[0] == items@[0]@ && all[1] == items@[1]@);
            assert(all[2] == items@[2]@ && all[3] == items@[3]@);
            let a: Float = match number_of(&items[0], "bbox item 0") {
                Ok(x) => x,
                Err(e) => {
                    return Err(e);
                },
            };
            let b: Float = match number_of(&items[1], "bbox item 1") {
                Ok(x) => x,
                Err(e) => {
                    return Err(e);
                },
            };
            let c: Float = match number_of(&items[2], "bbox item 2") {
                Ok(x) => x,
                Err(e) => {
                    return Err(e);
                },
            };
            let d: Float = match number_of(&items[3], "bbox item 3") {
                Ok(x) => x,
                Err(e) => {
                    return Err(e);
                },
            };
            Ok((a, b, c, d))
        },
        _ => Err(Error::wrong_object("expected bbox array, got ", object)),
    }
}

/// Where two corners of a box lie on the page.
pub open spec fn box_corners(raw: RawBox, geom: PageGeometry) -> Seq<Point> {
    seq![geom.on_page(raw.0, raw.1), geom.on_page(raw.2, raw.3)]
}

/// The box on the page.
pub open spec fn box_on_page(raw: RawBox, geom: PageGeometry) -> BBox {
    geometry::hull_of_points(box_corners(raw, geom))->0
}

/// The box on the page; two corners always span one.
pub fn raw_box_to_bbox(raw: RawBox, geom: PageGeometry) -> (r: Option<BBox>)
    ensures
        r == Some(box_on_page(raw, geom)),
{
    let mut pts: Vec<Point> = Vec::new();
    pts.push(geom.map_raw_point(raw.0, raw.1));
    pts.push(geom.map_raw_point(raw.2, raw.3));
    assert(pts@ =~= box_corners(raw, geom));
    bbox_from_points(&pts)
}

} // verus!
