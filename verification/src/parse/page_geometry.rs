//! From the coordinates of a file to those of a page as it is shown.

use crate::float::Float;
use crate::types::BBox;
use crate::types::Place;
use crate::types::Point;
use vstd::prelude::*;

verus! {

/// Where a page lies in the coordinates of the file, how it is turned, and where it lies in
/// the document.
#[derive(Clone, Copy, PartialEq, Eq, Structural, Debug)]
pub struct PageGeometry {
    pub raw_x0: Float,
    pub raw_y0: Float,
    pub raw_width: Float,
    pub raw_height: Float,
    pub rotation: i32,
    pub width: Float,
    pub height: Float,
    pub doctop_offset: Float,
}

/// By how many quarters a page is turned.
pub open spec fn quarters(rotation: i32) -> int {
    (rotation as int % 360) / 90
}

fn quarter_turns(rotation: i32) -> (r: u64)
    ensures
        r == quarters(rotation),
{
    let shifted: u64 = (rotation as i64 + 2147483880) as u64;
    assert(shifted as int % 360 == rotation as int % 360) by {
        vstd::arithmetic::div_mod::lemma_mod_multiples_vanish(5965233, rotation as int, 360);
    }
    (shifted % 360) / 90
}

impl PageGeometry {
    /// The geometry of a page with the given box.
    pub open spec fn of_box(media_box: (Float, Float, Float, Float), rotation: i32, offset: Float) -> PageGeometry {
        let x0 = media_box.0.smaller(media_box.2);
        let y0 = media_box.1.smaller(media_box.3);
        let wide = media_box.0.larger(media_box.2).minus(x0);
        let high = media_box.1.larger(media_box.3).minus(y0);
        let sideways = rotation == 90 || rotation == 270;
        PageGeometry {
            raw_x0: x0,
            raw_y0: y0,
            raw_width: wide,
            raw_height: high,
            rotation,
            width: if sideways {
                high
            } else {
                wide
            },
            height: if sideways {
                wide
            } else {
                high
            },
            doctop_offset: offset,
        }
    }

    /// A point after `n` of `turns` quarter turns.
    pub open spec fn turned(self, start: Point, turns: int, n: int) -> Point
        decreases n,
    {
        if n <= 0 {
            start
        } else {
            let p = self.turned(start, turns, n - 1);
            let side = if n - 1 == turns % 2 {
                self.width
            } else {
                self.height
            };
            Point { x: p.y, y: side.minus(p.x) }
        }
    }

    /// Where a point of the file lies on the page, measured from its top left.
    pub open spec fn on_page(self, x: Float, y: Float) -> Point {
        let turns = quarters(self.rotation);
        let p = self.turned(
            Point { x: x.minus(self.raw_x0), y: y.minus(self.raw_y0) },
            turns,
            turns,
        );
        Point { x: p.x, y: self.height.minus(p.y) }
    }

    /// The whole page.
    pub open spec fn whole_page(self) -> BBox {
        BBox {
            x0: Float { bits: 0 },
            top: Float { bits: 0 },
            x1: self.width,
            bottom: self.height,
        }
    }

    /// Where an object with the given rectangle lies.
    pub open spec fn place(self, bbox: BBox) -> Place {
        Place {
            x0: bbox.x0,
            top: bbox.top,
            x1: bbox.x1,
            bottom: bbox.bottom,
            y0: self.height.minus(bbox.bottom),
            y1: self.height.minus(bbox.top),
            doctop: self.doctop_offset.plus(bbox.top),
            width: bbox.wide(),
            height: bbox.high(),
        }
    }

    /// The geometry of a page with the given box.
    pub fn from_media_box(
        media_box: (Float, Float, Float, Float),
        rotation: i32,
        doctop_offset: Float,
    ) -> (r: PageGeometry)
        ensures
            r == PageGeometry::of_box(media_box, rotation, doctop_offset),
    {
        let raw_x0: Float = media_box.0.min(media_box.2);
        let raw_y0: Float = media_box.1.min(media_box.3);
        let raw_x1: Float = media_box.0.max(media_box.2);
        let raw_y1: Float = media_box.1.max(media_box.3);
        let raw_width: Float = raw_x1.sub(raw_x0);
        let raw_height: Float = raw_y1.sub(raw_y0);
        let sideways: bool = rotation == 90 || rotation == 270;
        PageGeometry {
            raw_x0,
            raw_y0,
            raw_width,
            raw_height,
            rotation,
            width: if sideways {
                raw_height
            } else {
                raw_width
            },
            height: if sideways {
                raw_width
            } else {
                raw_height
            },
            doctop_offset,
        }
    }

    /// The whole page.
    pub fn page_bbox(self) -> (r: BBox)
        ensures
            r == self.whole_page(),
    {
        BBox::new(Float { bits: 0 }, Float { bits: 0 }, self.width, self.height)
    }

    /// Where a point of the file lies on the page, measured from its top left.
    pub fn map_raw_point(self, x: Float, y: Float) -> (r: Point)
        ensures
            r == self.on_page(x, y),
    {
        let ghost start = Point { x: x.minus(self.raw_x0), y: y.minus(self.raw_y0) };
        let mut pt: Point = Point { x: x.sub(self.raw_x0), y: y.sub(self.raw_y0) };
        let turns: u64 = quarter_turns(self.rotation);
        for i in 0..turns
            invariant
                turns == quarters(self.rotation),
                pt == self.turned(start, turns as int, i as int),
        {
            let side: Float = if i == turns % 2 {
                self.width
            } else {
                self.height
            };
            pt = Point { x: pt.y, y: side.sub(pt.x) };
        }
        Point { x: pt.x, y: self.height.sub(pt.y) }
    }

    /// How far a height on the page is from the top of the document.
    pub fn doctop(self, top: Float) -> (r: Float)
        ensures
            r == self.doctop_offset.plus(top),
    {
        self.doctop_offset.add(top)
    }
}

} // verus!
