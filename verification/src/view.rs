//! Where things are drawn: the page on the screen, the highlight on the page,
//! and the fixed point of a single word.
use crate::extract::PageInfo;
use crate::geometry;
use crate::geometry::{Pos, Rect};
use crate::single;
use crate::single::Single;
use vstd::prelude::*;

verus! {

/// 0.45, how far from the left the fixed point lies.
pub const ANCHOR_SHARE: u32 = 0x3ee6_6666;

/// 60, how far from the fixed point its guide ticks reach.
pub const TICK_FAR: u32 = 0x4270_0000;

/// 44, how close to the fixed point its guide ticks come.
pub const TICK_NEAR: u32 = 0x4230_0000;

/// 2, by how many PDF points the highlight exceeds its word.
pub const HIGHLIGHT_MARGIN: u32 = 0x4000_0000;

/// A page on the screen.
#[derive(Clone, Copy, Debug, PartialEq, Eq, Structural)]
pub struct PageView {
    /// Where on the screen the page is.
    pub rect: Rect,
    /// Screen points for one PDF point.
    pub scale: Single,
}

/// The page as large as `avail` lets it be, in the middle.
pub open spec fn fitted(avail: Rect, info: PageInfo) -> PageView {
    let scale = single::smaller(
        single::quotient(avail.spec_width(), info.width),
        single::quotient(avail.spec_height(), info.height),
    );
    let size = Pos {
        x: single::product(info.width, scale),
        y: single::product(info.height, scale),
    };
    PageView { rect: Rect::around(avail.spec_center(), size), scale }
}

/// The rectangle `r` of the page, on the screen and a little larger.
pub open spec fn highlighted(view: PageView, r: Rect) -> Rect {
    let place = Rect {
        min: geometry::moved(view.rect.min, geometry::stretched(r.min, view.scale)),
        max: geometry::moved(view.rect.min, geometry::stretched(r.max, view.scale)),
    };
    place.grown(single::product(Single { bits: HIGHLIGHT_MARGIN }, view.scale))
}

/// The point of the page that is at `pos` on the screen.
pub open spec fn on_page(view: PageView, pos: Pos) -> Pos {
    Pos {
        x: single::quotient(single::difference(pos.x, view.rect.min.x), view.scale),
        y: single::quotient(single::difference(pos.y, view.rect.min.y), view.scale),
    }
}

/// The fixed point in `rect`.
pub open spec fn fixed_point(rect: Rect) -> Pos {
    Pos {
        x: single::sum(
            rect.min.x,
            single::product(rect.spec_width(), Single { bits: ANCHOR_SHARE }),
        ),
        y: rect.spec_center().y,
    }
}

/// A step straight down.
pub open spec fn down(k: u32) -> Pos {
    Pos { x: Single { bits: 0 }, y: Single { bits: k } }
}

/// The page as large as `avail` lets it be, in the middle.
pub fn fit_page(avail: Rect, info: PageInfo) -> (r: PageView)
    ensures
        r == fitted(avail, info),
{
    let scale = avail.width().over(info.width).min(avail.height().over(info.height));
    let size = Pos { x: info.width.times(scale), y: info.height.times(scale) };
    PageView { rect: Rect::from_center_size(avail.center(), size), scale }
}

impl PageView {
    /// The rectangle `r` of the page, on the screen and a little larger.
    pub fn highlight(self, r: Rect) -> (h: Rect)
        ensures
            h == highlighted(self, r),
    {
        let place = Rect {
            min: self.rect.min.plus(r.min.times(self.scale)),
            max: self.rect.min.plus(r.max.times(self.scale)),
        };
        place.expand((Single { bits: HIGHLIGHT_MARGIN }).times(self.scale))
    }

    /// The point of the page that is at `pos` on the screen.
    pub fn page_point(self, pos: Pos) -> (p: Pos)
        ensures
            p == on_page(self, pos),
    {
        Pos {
            x: pos.x.minus(self.rect.min.x).over(self.scale),
            y: pos.y.minus(self.rect.min.y).over(self.scale),
        }
    }
}

/// The fixed point in `rect`.
pub fn anchor(rect: Rect) -> (p: Pos)
    ensures
        p == fixed_point(rect),
{
    Pos {
        x: rect.min.x.plus(rect.width().times(Single { bits: ANCHOR_SHARE })),
        y: rect.center().y,
    }
}

/// The ends of the guide ticks above and below `anchor`.
pub fn ticks(anchor: Pos) -> (r: ((Pos, Pos), (Pos, Pos)))
    ensures
        r.0.0 == geometry::moved_back(anchor, down(TICK_FAR)),
        r.0.1 == geometry::moved_back(anchor, down(TICK_NEAR)),
        r.1.0 == geometry::moved(anchor, down(TICK_NEAR)),
        r.1.1 == geometry::moved(anchor, down(TICK_FAR)),
{
    let zero = Single { bits: 0 };
    let far = Pos { x: zero, y: Single { bits: TICK_FAR } };
    let near = Pos { x: zero, y: Single { bits: TICK_NEAR } };
    ((anchor.minus(far), anchor.minus(near)), (anchor.plus(near), anchor.plus(far)))
}

/// The page is scaled as far as both its width and its height fit: by the
/// smaller of the two quotients, whichever it is, and stands around the middle
/// of the room.
pub proof fn the_page_fits_both_ways(avail: Rect, info: PageInfo)
    ensures
        ({
            let v = fitted(avail, info);
            let w = single::quotient(single::difference(avail.max.x, avail.min.x), info.width);
            let h = single::quotient(single::difference(avail.max.y, avail.min.y), info.height);
            &&& v.scale == w || v.scale == h
            &&& !w.nan() && !h.nan() ==> single::at_most(v.scale, w) && single::at_most(v.scale, h)
            &&& w.nan() ==> v.scale == h
            &&& h.nan() && !w.nan() ==> v.scale == w
        }),
{
}

/// The page on the screen measures its own size times the scale, half of it to
/// each side of the middle of the room.
pub proof fn the_page_stands_in_the_middle(avail: Rect, info: PageInfo)
    ensures
        ({
            let v = fitted(avail, info);
            let two = Single { bits: 0x4000_0000 };
            let half = Single { bits: 0x3f00_0000 };
            let x = single::quotient(single::sum(avail.min.x, avail.max.x), two);
            let y = single::quotient(single::sum(avail.min.y, avail.max.y), two);
            let w = single::product(single::product(info.width, v.scale), half);
            let h = single::product(single::product(info.height, v.scale), half);
            &&& v.rect.min.x == single::difference(x, w)
            &&& v.rect.max.x == single::sum(x, w)
            &&& v.rect.min.y == single::difference(y, h)
            &&& v.rect.max.y == single::sum(y, h)
        }),
{
}

/// The highlight of a word is its rectangle, scaled from the corner of the page
/// and two scaled points larger on each side.
pub proof fn the_highlight_lies_over_the_word(view: PageView, r: Rect)
    ensures
        ({
            let h = highlighted(view, r);
            let o = view.rect.min;
            let k = view.scale;
            let margin = single::product((Single { bits: 0x4000_0000 }), k);
            &&& h.min.x == single::difference(single::sum(o.x, single::product(r.min.x, k)), margin)
            &&& h.min.y == single::difference(single::sum(o.y, single::product(r.min.y, k)), margin)
            &&& h.max.x == single::sum(single::sum(o.x, single::product(r.max.x, k)), margin)
            &&& h.max.y == single::sum(single::sum(o.y, single::product(r.max.y, k)), margin)
        }),
{
}

/// A point of the screen is on the page at its distance from the corner of the
/// page, divided by the scale.
pub proof fn a_screen_point_is_scaled_back(view: PageView, pos: Pos)
    ensures
        on_page(view, pos).x == single::quotient(
            single::difference(pos.x, view.rect.min.x),
            view.scale,
        ),
        on_page(view, pos).y == single::quotient(
            single::difference(pos.y, view.rect.min.y),
            view.scale,
        ),
{
}

/// The fixed point lies 0.45 of the width from the left, at half the height.
pub proof fn the_fixed_point_is_left_of_the_middle(rect: Rect)
    ensures
        fixed_point(rect).x == single::sum(
            rect.min.x,
            single::product(
                single::difference(rect.max.x, rect.min.x),
                (Single { bits: 0x3ee6_6666 }),
            ),
        ),
        fixed_point(rect).y == single::quotient(
            single::sum(rect.min.y, rect.max.y),
            (Single { bits: 0x4000_0000 }),
        ),
{
}

/// The guide ticks stand straight above and below the fixed point, from 44 to
/// 60 points away.
pub proof fn ticks_stand_above_and_below(anchor: Pos)
    ensures
        ({
            let zero = Single { bits: 0 };
            let near = Single { bits: 0x4230_0000 };
            let far = Single { bits: 0x4270_0000 };
            &&& down(TICK_NEAR) == (Pos { x: zero, y: near })
            &&& down(TICK_FAR) == (Pos { x: zero, y: far })
            &&& geometry::moved(anchor, down(TICK_FAR)).y == single::sum(anchor.y, far)
            &&& geometry::moved(anchor, down(TICK_NEAR)).y == single::sum(anchor.y, near)
            &&& geometry::moved_back(anchor, down(TICK_FAR)).y == single::difference(anchor.y, far)
            &&& geometry::moved_back(anchor, down(TICK_NEAR)).y == single::difference(
                anchor.y,
                near,
            )
        }),
{
}

} // verus!
