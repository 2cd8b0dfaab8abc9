//! Rectangles on the terminal grid and the placement of floating panels.
use vstd::prelude::*;

verus! {

/// A rectangle of terminal cells.
#[derive(Clone, Copy, Debug, PartialEq, Eq, Structural)]
pub struct Rect {
    pub x: u16,
    pub y: u16,
    pub width: u16,
    pub height: u16,
}

pub open spec fn sat_u16(v: int) -> u16 {
    if v < 0 {
        0
    } else if v > u16::MAX {
        u16::MAX
    } else {
        v as u16
    }
}

impl Rect {
    /// The column after the last, saturating at the grid's edge.
    pub fn right(&self) -> (r: u16)
        ensures
            r == sat_u16(self.x + self.width),
    {
        self.x.saturating_add(self.width)
    }

    /// The row after the last, saturating at the grid's edge.
    pub fn bottom(&self) -> (r: u16)
        ensures
            r == sat_u16(self.y + self.height),
    {
        self.y.saturating_add(self.height)
    }

    /// The rectangle shrunk by the margins on each side, empty where they do
    /// not fit.
    pub fn inner(&self, horizontal: u16, vertical: u16) -> (r: Rect)
        ensures
            r == inner_spec(*self, horizontal, vertical),
    {
        if (self.width as u32) < 2 * (horizontal as u32) || (self.height as u32) < 2 * (
        vertical as u32) {
            Rect { x: 0, y: 0, width: 0, height: 0 }
        } else {
            Rect {
                x: self.x.saturating_add(horizontal),
                y: self.y.saturating_add(vertical),
                width: (self.width - 2 * horizontal) as u16,
                height: (self.height - 2 * vertical) as u16,
            }
        }
    }
}

pub open spec fn inner_spec(r: Rect, horizontal: u16, vertical: u16) -> Rect {
    if r.width < 2 * horizontal || r.height < 2 * vertical {
        Rect { x: 0, y: 0, width: 0, height: 0 }
    } else {
        Rect {
            x: sat_u16(r.x + horizontal),
            y: sat_u16(r.y + vertical),
            width: (r.width - 2 * horizontal) as u16,
            height: (r.height - 2 * vertical) as u16,
        }
    }
}

/// The rectangle centred in `rect` whose sides are `num / den` of its sides.
pub open spec fn center_subrect_spec(rect: Rect, num: u16, den: u16) -> Rect {
    let cx = (rect.x + sat_u16(rect.x + rect.width)) / 2;
    let cy = (rect.y + sat_u16(rect.y + rect.height)) / 2;
    let w = (rect.width as int) * (num as int) / (den as int);
    let h = (rect.height as int) * (num as int) / (den as int);
    Rect { x: (cx - w / 2) as u16, y: (cy - h / 2) as u16, width: w as u16, height: h as u16 }
}

proof fn lemma_scale_down(v: int, num: int, den: int)
    requires
        0 <= v,
        0 <= num <= den,
        0 < den,
    ensures
        0 <= v * num / den <= v,
        v * num <= v * den,
{
    assert(v * num <= v * den) by (nonlinear_arith)
        requires
            0 <= v,
            num <= den,
    ;
    assert(v * num / den <= v) by (nonlinear_arith)
        requires
            0 < den,
            v * num <= v * den,
    ;
    assert(0 <= v * num / den) by (nonlinear_arith)
        requires
            0 < den,
            0 <= v,
            0 <= num,
    ;
}

pub fn center_subrect(rect: Rect, num: u16, den: u16) -> (r: Rect)
    requires
        0 < den,
        num <= den,
    ensures
        r == center_subrect_spec(rect, num, den),
{
    let cx: u32 = (rect.x as u32 + rect.right() as u32) / 2;
    let cy: u32 = (rect.y as u32 + rect.bottom() as u32) / 2;
    proof {
        lemma_scale_down(rect.width as int, num as int, den as int);
        lemma_scale_down(rect.height as int, num as int, den as int);
    }
    proof {
        assert((rect.width as int) * (num as int) <= 65535 * 65535) by (nonlinear_arith)
            requires
                rect.width <= 65535,
                num <= 65535,
        ;
        assert((rect.height as int) * (num as int) <= 65535 * 65535) by (nonlinear_arith)
            requires
                rect.height <= 65535,
                num <= 65535,
        ;
    }
    let w: u64 = (rect.width as u64) * (num as u64) / (den as u64);
    let h: u64 = (rect.height as u64) * (num as u64) / (den as u64);
    Rect {
        x: (cx as u64 - w / 2) as u16,
        y: (cy as u64 - h / 2) as u16,
        width: w as u16,
        height: h as u16,
    }
}

/// Where a panel clings to its parent: to the left or right edge, and to the
/// top or bottom edge.
#[derive(Clone, Copy, Debug, PartialEq, Eq, Structural)]
pub struct Gravity {
    pub right: bool,
    pub bottom: bool,
}

/// A direction of movement on the grid.
#[derive(Clone, Copy, Debug, PartialEq, Eq, Structural)]
pub enum Direction {
    Left,
    Right,
    Top,
    Bottom,
}

impl Gravity {
    pub fn top_left() -> (r: Gravity)
        ensures
            !r.right && !r.bottom,
    {
        Gravity { right: false, bottom: false }
    }

    pub fn top_right() -> (r: Gravity)
        ensures
            r.right && !r.bottom,
    {
        Gravity { right: true, bottom: false }
    }

    /// The gravity that clings to the edge `dir` points at, on that axis.
    pub fn move_to(self, dir: Direction) -> (r: Gravity)
        ensures
            r == match dir {
                Direction::Left => Gravity { right: false, ..self },
                Direction::Right => Gravity { right: true, ..self },
                Direction::Top => Gravity { bottom: false, ..self },
                Direction::Bottom => Gravity { bottom: true, ..self },
            },
    {
        match dir {
            Direction::Left => Gravity { right: false, ..self },
            Direction::Right => Gravity { right: true, ..self },
            Direction::Top => Gravity { bottom: false, ..self },
            Direction::Bottom => Gravity { bottom: true, ..self },
        }
    }
}

/// `rect` cut to at most `width` by `height`, keeping the corner that
/// `gravity` names.
pub open spec fn rect_resize_spec(rect: Rect, gravity: Gravity, width: u16, height: u16) -> Rect {
    let w = if width < rect.width {
        width
    } else {
        rect.width
    };
    let h = if height < rect.height {
        height
    } else {
        rect.height
    };
    Rect {
        x: if gravity.right {
            (sat_u16(rect.x + rect.width) - w) as u16
        } else {
            rect.x
        },
        y: if gravity.bottom {
            (sat_u16(rect.y + rect.height) - h) as u16
        } else {
            rect.y
        },
        width: w,
        height: h,
    }
}

pub fn rect_resize(rect: Rect, gravity: Gravity, width: u16, height: u16) -> (r: Rect)
    ensures
        r == rect_resize_spec(rect, gravity, width, height),
{
    let w = if width < rect.width {
        width
    } else {
        rect.width
    };
    let h = if height < rect.height {
        height
    } else {
        rect.height
    };
    let x = if gravity.right {
        rect.right() - w
    } else {
        rect.x
    };
    let y = if gravity.bottom {
        rect.bottom() - h
    } else {
        rect.y
    };
    Rect { x, y, width: w, height: h }
}

/// One axis of `rect_fit_inside`: the child's start and size moved and cut
/// to lie within the parent's.
pub open spec fn fit_axis(ps: u16, pz: u16, cs: u16, cz: u16) -> (u16, u16) {
    let pe = ps + pz;
    let ce = cs + cz;
    let s1 = if ce >= pe {
        sat_u16(cs - (ce - pe))
    } else {
        cs
    };
    let s2 = if ps >= s1 {
        ps
    } else {
        s1
    };
    let z = if cz >= pz {
        pz
    } else {
        cz
    };
    (s2, z)
}

fn fit_axis_exec(ps: u16, pz: u16, cs: u16, cz: u16) -> (r: (u16, u16))
    ensures
        r == fit_axis(ps, pz, cs, cz),
{
    let pe: u32 = ps as u32 + pz as u32;
    let ce: u32 = cs as u32 + cz as u32;
    let s1: u16 = if ce >= pe {
        let delta = ce - pe;
        if delta >= cs as u32 {
            0
        } else {
            (cs as u32 - delta) as u16
        }
    } else {
        cs
    };
    let s2 = if ps >= s1 {
        ps
    } else {
        s1
    };
    let z = if cz >= pz {
        pz
    } else {
        cz
    };
    (s2, z)
}

/// `child` moved, then cut, to lie within `parent` on both axes.
pub open spec fn rect_fit_inside_spec(parent: Rect, child: Rect) -> Rect {
    let (x, w) = fit_axis(parent.x, parent.width, child.x, child.width);
    let (y, h) = fit_axis(parent.y, parent.height, child.y, child.height);
    Rect { x, y, width: w, height: h }
}

pub fn rect_fit_inside(parent: Rect, child: Rect) -> (r: Rect)
    ensures
        r == rect_fit_inside_spec(parent, child),
{
    let (x, w) = fit_axis_exec(parent.x, parent.width, child.x, child.width);
    let (y, h) = fit_axis_exec(parent.y, parent.height, child.y, child.height);
    Rect { x, y, width: w, height: h }
}

/// A floating panel's place: the corner it clings to and its distance from
/// that corner's edges.
#[derive(Clone, Copy, Debug, PartialEq, Eq, Structural)]
pub struct AnchoredPosition {
    pub anchor: Gravity,
    pub x_displace: u16,
    pub y_displace: u16,
}

pub open spec fn sat_sub(a: u16, b: u16) -> u16 {
    if a >= b {
        (a - b) as u16
    } else {
        0
    }
}

/// The cells of a `width` by `height` panel at `pos` within `parent`.
pub open spec fn to_rect_spec(pos: AnchoredPosition, width: u16, height: u16, parent: Rect) -> Rect {
    let x0 = if pos.anchor.right {
        sat_sub(parent.width, pos.x_displace)
    } else {
        pos.x_displace
    };
    let y0 = if pos.anchor.bottom {
        sat_sub(parent.height, pos.y_displace)
    } else {
        pos.y_displace
    };
    let x = if pos.anchor.right {
        sat_sub(x0, width)
    } else {
        x0
    };
    let y = if pos.anchor.bottom {
        sat_sub(y0, height)
    } else {
        y0
    };
    rect_fit_inside_spec(parent, Rect { x, y, width, height })
}

/// The displacement from one edge after moving `steps` cells in a direction.
pub open spec fn moved_displace(displace: u16, towards_anchor: bool, steps: u16) -> u16 {
    if towards_anchor {
        sat_sub(displace, steps)
    } else {
        sat_u16(displace + steps)
    }
}

/// The gravity and displacement on one axis after re-anchoring: the start
/// edge with its margin where that margin is at least the end margin, the
/// end edge with its margin otherwise.
pub open spec fn nearest_axis(ps: u16, pz: u16, cs: u16, cz: u16) -> (bool, u16) {
    let start_margin = sat_sub(cs, ps);
    let end_margin = sat_sub(sat_u16(ps + pz), sat_u16(cs + cz));
    if start_margin >= end_margin {
        (false, start_margin)
    } else {
        (true, end_margin)
    }
}

fn nearest_axis_exec(ps: u16, pz: u16, cs: u16, cz: u16) -> (r: (bool, u16))
    ensures
        r == nearest_axis(ps, pz, cs, cz),
{
    let start_margin = cs.saturating_sub(ps);
    let end_margin = ps.saturating_add(pz).saturating_sub(cs.saturating_add(cz));
    if start_margin >= end_margin {
        (false, start_margin)
    } else {
        (true, end_margin)
    }
}

impl AnchoredPosition {
    pub fn to_rect(&self, width: u16, height: u16, parent: Rect) -> (r: Rect)
        ensures
            r == to_rect_spec(*self, width, height, parent),
    {
        let x0 = if self.anchor.right {
            parent.width.saturating_sub(self.x_displace)
        } else {
            self.x_displace
        };
        let y0 = if self.anchor.bottom {
            parent.height.saturating_sub(self.y_displace)
        } else {
            self.y_displace
        };
        let mut rect = Rect { x: x0, y: y0, width, height };
        if self.anchor.right {
            rect.x.saturating_sub_assign(width);
        }
        if self.anchor.bottom {
            rect.y.saturating_sub_assign(height);
        }
        rect_fit_inside(parent, rect)
    }

    /// Moves the panel `steps` cells in `dir`: towards its anchor's edge the
    /// displacement shrinks, away from it the displacement grows.
    pub fn move_towards(&mut self, dir: Direction, steps: u16)
        ensures
            final(self).anchor == old(self).anchor,
            match dir {
                Direction::Left | Direction::Right => {
                    &&& final(self).y_displace == old(self).y_displace
                    &&& final(self).x_displace == moved_displace(
                        old(self).x_displace,
                        (dir == Direction::Right) == old(self).anchor.right,
                        steps,
                    )
                },
                Direction::Top | Direction::Bottom => {
                    &&& final(self).x_displace == old(self).x_displace
                    &&& final(self).y_displace == moved_displace(
                        old(self).y_displace,
                        (dir == Direction::Bottom) == old(self).anchor.bottom,
                        steps,
                    )
                },
            },
    {
        match dir {
            Direction::Left | Direction::Right => {
                let dir_is_positive = matches!(dir, Direction::Right);
                if dir_is_positive == self.anchor.right {
                    self.x_displace.saturating_sub_assign(steps);
                } else {
                    self.x_displace.saturating_add_assign(steps);
                }
            },
            Direction::Top | Direction::Bottom => {
                let dir_is_positive = matches!(dir, Direction::Bottom);
                if dir_is_positive == self.anchor.bottom {
                    self.y_displace.saturating_sub_assign(steps);
                } else {
                    self.y_displace.saturating_add_assign(steps);
                }
            },
        }
    }

    /// Re-anchors the panel on each axis from where it is drawn: to the start
    /// edge, at its margin from it, where that margin is at least the margin
    /// from the end edge; to the end edge, at that margin, otherwise.
    pub fn anchor_by_nearest(&mut self, width: u16, height: u16, parent: Rect)
        ensures
            ({
                let child = to_rect_spec(*old(self), width, height, parent);
                let (right, xd) = nearest_axis(parent.x, parent.width, child.x, child.width);
                let (bottom, yd) = nearest_axis(parent.y, parent.height, child.y, child.height);
                *final(self) == AnchoredPosition {
                    anchor: Gravity { right, bottom },
                    x_displace: xd,
                    y_displace: yd,
                }
            }),
    {
        let child = self.to_rect(width, height, parent);
        let (right, xd) = nearest_axis_exec(parent.x, parent.width, child.x, child.width);
        let (bottom, yd) = nearest_axis_exec(parent.y, parent.height, child.y, child.height);
        self.anchor = Gravity { right, bottom };
        self.x_displace = xd;
        self.y_displace = yd;
    }
}

/// Adds in place, stopping at the type's largest value.
pub trait SaturatingAddExt: Sized {
    spec fn sat_add_spec(a: Self, b: Self) -> Self;

    fn saturating_add_assign(&mut self, other: Self)
        ensures
            *final(self) == Self::sat_add_spec(*old(self), other),
    ;
}

/// Subtracts in place, stopping at zero.
pub trait SaturatingSubExt: Sized {
    spec fn sat_sub_spec(a: Self, b: Self) -> Self;

    fn saturating_sub_assign(&mut self, other: Self)
        ensures
            *final(self) == Self::sat_sub_spec(*old(self), other),
    ;
}

impl SaturatingAddExt for u16 {
    open spec fn sat_add_spec(a: u16, b: u16) -> u16 {
        sat_u16(a + b)
    }

    fn saturating_add_assign(&mut self, other: u16) {
        *self = self.saturating_add(other);
    }
}

impl SaturatingSubExt for u16 {
    open spec fn sat_sub_spec(a: u16, b: u16) -> u16 {
        sat_sub(a, b)
    }

    fn saturating_sub_assign(&mut self, other: u16) {
        *self = self.saturating_sub(other);
    }
}

pub open spec fn sat_u8(v: int) -> u8 {
    if v < 0 {
        0
    } else if v > u8::MAX {
        u8::MAX
    } else {
        v as u8
    }
}

impl SaturatingAddExt for u8 {
    open spec fn sat_add_spec(a: u8, b: u8) -> u8 {
        sat_u8(a + b)
    }

    fn saturating_add_assign(&mut self, other: u8) {
        *self = self.saturating_add(other);
    }
}

impl SaturatingSubExt for u8 {
    open spec fn sat_sub_spec(a: u8, b: u8) -> u8 {
        sat_u8(a - b)
    }

    fn saturating_sub_assign(&mut self, other: u8) {
        *self = self.saturating_sub(other);
    }
}

/// Where the warning panel goes when not zoomed: at the top right of the
/// frame less its margins, wide enough for its longest line (at least 50
/// cells or four tenths of the frame) and tall enough for its lines.
pub open spec fn warn_rect_spec(rect: Rect, display_size: usize, max_width: usize) -> Rect {
    let inner = inner_spec(rect, 5, 3);
    let t: int = inner.width as int * 4 / 10;
    let lo: int = if 50 >= t {
        50
    } else {
        t
    };
    let hi: int = sat_u16(sat_u16(max_width as int) + 2) as int;
    let w: int = if lo <= hi {
        lo
    } else {
        hi
    };
    rect_resize_spec(
        inner,
        Gravity { right: true, bottom: false },
        w as u16,
        sat_u16(sat_u16(display_size as int) + 2),
    )
}

pub fn warn_rect(rect: Rect, display_size: usize, max_width: usize) -> (r: Rect)
    ensures
        r == warn_rect_spec(rect, display_size, max_width),
{
    let inner = rect.inner(5, 3);
    let tenths: u16 = ((inner.width as u32) * 4 / 10) as u16;
    let lo: u16 = if 50 >= tenths {
        50
    } else {
        tenths
    };
    let mw: u16 = if max_width > u16::MAX as usize {
        u16::MAX
    } else {
        max_width as u16
    };
    let hi = mw.saturating_add(2);
    let w = if lo <= hi {
        lo
    } else {
        hi
    };
    let ds: u16 = if display_size > u16::MAX as usize {
        u16::MAX
    } else {
        display_size as u16
    };
    rect_resize(inner, Gravity::top_right(), w, ds.saturating_add(2))
}

} // verus!
