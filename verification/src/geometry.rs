//! Points and rectangles in single precision.
use crate::rounding;
use crate::single;
use crate::single::Single;
use vstd::arithmetic::mul::*;
use vstd::arithmetic::power2::*;
use vstd::prelude::*;

verus! {

/// One half.
pub const HALF: u32 = 0x3f00_0000;

/// Two.
pub const TWO: u32 = 0x4000_0000;

/// A point, or a step from one point to another.
#[derive(Clone, Copy, Debug, PartialEq, Eq, Structural)]
pub struct Pos {
    pub x: Single,
    pub y: Single,
}

/// A rectangle, `y` growing downward.
#[derive(Clone, Copy, Debug, PartialEq, Eq, Structural)]
pub struct Rect {
    pub min: Pos,
    pub max: Pos,
}

/// The point `a` moved by `b`.
pub open spec fn moved(a: Pos, b: Pos) -> Pos {
    Pos { x: single::sum(a.x, b.x), y: single::sum(a.y, b.y) }
}

/// The point `a` moved back by `b`.
pub open spec fn moved_back(a: Pos, b: Pos) -> Pos {
    Pos { x: single::difference(a.x, b.x), y: single::difference(a.y, b.y) }
}

/// Both coordinates of `a` times `k`.
pub open spec fn stretched(a: Pos, k: Single) -> Pos {
    Pos { x: single::product(a.x, k), y: single::product(a.y, k) }
}

/// Half of the way from `a` to `b`.
pub open spec fn midpoint(a: Single, b: Single) -> Single {
    single::quotient(single::sum(a, b), Single { bits: TWO })
}

impl Pos {
    /// The point moved by `step`.
    pub fn plus(self, step: Pos) -> (r: Pos)
        ensures
            r == moved(self, step),
    {
        Pos { x: self.x.plus(step.x), y: self.y.plus(step.y) }
    }

    /// The point moved back by `step`.
    pub fn minus(self, step: Pos) -> (r: Pos)
        ensures
            r == moved_back(self, step),
    {
        Pos { x: self.x.minus(step.x), y: self.y.minus(step.y) }
    }

    /// Both coordinates times `k`.
    pub fn times(self, k: Single) -> (r: Pos)
        ensures
            r == stretched(self, k),
    {
        Pos { x: self.x.times(k), y: self.y.times(k) }
    }
}

impl Rect {
    /// How far the sides are apart.
    pub open spec fn spec_width(self) -> Single {
        single::difference(self.max.x, self.min.x)
    }

    /// How far the top and the bottom are apart.
    pub open spec fn spec_height(self) -> Single {
        single::difference(self.max.y, self.min.y)
    }

    /// The point in the middle.
    pub open spec fn spec_center(self) -> Pos {
        Pos { x: midpoint(self.min.x, self.max.x), y: midpoint(self.min.y, self.max.y) }
    }

    /// The rectangle around `center` that measures `size`.
    pub open spec fn around(center: Pos, size: Pos) -> Rect {
        let half = stretched(size, Single { bits: HALF });
        Rect { min: moved_back(center, half), max: moved(center, half) }
    }

    /// The rectangle grown by `k` on each side.
    pub open spec fn grown(self, k: Single) -> Rect {
        let step = Pos { x: k, y: k };
        Rect { min: moved_back(self.min, step), max: moved(self.max, step) }
    }

    /// Whether `p` lies in the rectangle or on its border.
    pub open spec fn covers(self, p: Pos) -> bool {
        &&& single::at_most(self.min.x, p.x)
        &&& single::at_most(p.x, self.max.x)
        &&& single::at_most(self.min.y, p.y)
        &&& single::at_most(p.y, self.max.y)
    }

    /// How far the sides are apart.
    pub fn width(self) -> (r: Single)
        ensures
            r == self.spec_width(),
    {
        self.max.x.minus(self.min.x)
    }

    /// How far the top and the bottom are apart.
    pub fn height(self) -> (r: Single)
        ensures
            r == self.spec_height(),
    {
        self.max.y.minus(self.min.y)
    }

    /// The point in the middle.
    pub fn center(self) -> (r: Pos)
        ensures
            r == self.spec_center(),
    {
        let two = Single { bits: TWO };
        Pos {
            x: self.min.x.plus(self.max.x).over(two),
            y: self.min.y.plus(self.max.y).over(two),
        }
    }

    /// The rectangle around `center` that measures `size`.
    pub fn from_center_size(center: Pos, size: Pos) -> (r: Rect)
        ensures
            r == Rect::around(center, size),
    {
        let half = size.times(Single { bits: HALF });
        Rect { min: center.minus(half), max: center.plus(half) }
    }

    /// The rectangle grown by `k` on each side.
    pub fn expand(self, k: Single) -> (r: Rect)
        ensures
            r == self.grown(k),
    {
        let step = Pos { x: k, y: k };
        Rect { min: self.min.minus(step), max: self.max.plus(step) }
    }

    /// Whether `p` lies in the rectangle or on its border.
    pub fn contains(self, p: Pos) -> (r: bool)
        ensures
            r == self.covers(p),
    {
        self.min.x.le(p.x) && p.x.le(self.max.x) && self.min.y.le(p.y) && p.y.le(self.max.y)
    }
}

/// Taking nothing or more away does not give more, and adding it does not give
/// less, rounded or not.
proof fn lemma_margin(a: Single, k: Single)
    requires
        !a.nan(),
        k.finite(),
        !k.negative(),
    ensures
        single::at_most(single::difference(a, k), a),
        single::at_most(a, single::sum(a, k)),
{
    let below = single::negation(k);
    single::lemma_number(true, k.pattern());
    rounding::lemma_parts(0, 0);
    lemma_mul_basics(pow2(0) as int);
    lemma_sum_bound(a, below);
    lemma_sum_bound(a, k);
}

/// A sum lies on the side of `a` to which `b` points.
proof fn lemma_sum_bound(a: Single, b: Single)
    requires
        !a.nan(),
        b.finite(),
    ensures
        b.signed() <= 0 ==> single::at_most(single::sum(a, b), a),
        b.signed() >= 0 ==> single::at_most(a, single::sum(a, b)),
{
    let exact = a.signed() + b.signed();
    let m = (if exact < 0 {
        -exact
    } else {
        exact
    }) as nat;
    rounding::lemma_parts(0, 0);
    lemma_mul_basics(pow2(0) as int);
    if a.finite() && exact != 0 {
        let p = rounding::nearest(m, 1);
        rounding::lemma_nearest(m, 1);
        single::lemma_number(exact < 0, p);
        rounding::lemma_bounds(m, 1, a.pattern());
        lemma_mul_basics(a.units() as int);
        if p <= a.pattern() {
            rounding::lemma_increasing(p, a.pattern());
        } else {
            rounding::lemma_increasing(a.pattern(), p);
        }
        rounding::lemma_increasing(0, p);
    }
}

/// A rectangle that is grown still covers what it covered.
pub proof fn growing_keeps_what_is_covered(r: Rect, k: Single, p: Pos)
    requires
        r.covers(p),
        k.finite(),
        !k.negative(),
    ensures
        r.grown(k).covers(p),
{
    lemma_margin(r.min.x, k);
    lemma_margin(r.min.y, k);
    lemma_margin(r.max.x, k);
    lemma_margin(r.max.y, k);
}

/// A rectangle covers the points between its sides and between its top and its
/// bottom, those on the border included, and no others.
pub proof fn a_rectangle_covers_what_lies_in_it(r: Rect, p: Pos)
    ensures
        r.covers(p) <==> {
            &&& !r.min.x.nan() && !r.min.y.nan() && !r.max.x.nan() && !r.max.y.nan()
            &&& !p.x.nan() && !p.y.nan()
            &&& r.min.x.signed() <= p.x.signed() <= r.max.x.signed()
            &&& r.min.y.signed() <= p.y.signed() <= r.max.y.signed()
        },
{
}

/// Growing moves each side outward by the same amount.
pub proof fn growing_moves_every_side(r: Rect, k: Single)
    ensures
        r.grown(k).min.x == single::difference(r.min.x, k),
        r.grown(k).min.y == single::difference(r.min.y, k),
        r.grown(k).max.x == single::sum(r.max.x, k),
        r.grown(k).max.y == single::sum(r.max.y, k),
{
}

/// Width, height and middle of a rectangle.
pub proof fn measures_of_a_rectangle(r: Rect)
    ensures
        r.spec_width() == single::difference(r.max.x, r.min.x),
        r.spec_height() == single::difference(r.max.y, r.min.y),
        r.spec_center().x == single::quotient(
            single::sum(r.min.x, r.max.x),
            (Single { bits: 0x4000_0000 }),
        ),
        r.spec_center().y == single::quotient(
            single::sum(r.min.y, r.max.y),
            (Single { bits: 0x4000_0000 }),
        ),
{
}

/// A rectangle around a point reaches half of its size to each side.
pub proof fn around_reaches_half_to_each_side(center: Pos, size: Pos)
    ensures
        ({
            let r = Rect::around(center, size);
            let half = Single { bits: 0x3f00_0000 };
            &&& r.min.x == single::difference(center.x, single::product(size.x, half))
            &&& r.max.x == single::sum(center.x, single::product(size.x, half))
            &&& r.min.y == single::difference(center.y, single::product(size.y, half))
            &&& r.max.y == single::sum(center.y, single::product(size.y, half))
        }),
{
}

/// Moving and stretching go coordinate by coordinate.
pub proof fn points_move_by_coordinates(a: Pos, b: Pos, k: Single)
    ensures
        moved(a, b).x == single::sum(a.x, b.x),
        moved(a, b).y == single::sum(a.y, b.y),
        moved_back(a, b).x == single::difference(a.x, b.x),
        moved_back(a, b).y == single::difference(a.y, b.y),
        stretched(a, k).x == single::product(a.x, k),
        stretched(a, k).y == single::product(a.y, k),
{
}

} // verus!
