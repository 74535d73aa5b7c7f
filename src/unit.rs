//! The plot frame and the point series: what each draws, as a list of
//! drawing operations in canvas units (`UNIT` per pixel).

use vstd::prelude::*;
pub use crate::geometry::{Color, Line2D, PlotError, PlotUnit, Point2D};
pub use crate::label::round;
use crate::label::{UNIT, bound_label, label_fits, lemma_zero_seeded_labels_fit, sig_count, try_round};
use crate::scale::{compute_limits, map_to_pixels, pixel_x, pixel_y};

verus! {

/// One operation on a drawing surface. Positions are in units of
/// `1 / UNIT` pixel, relative to the current origin.
#[derive(Debug, Clone, PartialEq)]
pub enum DrawOp {
    /// Move the origin by an offset.
    Translate(PlotUnit, PlotUnit),
    SetColor(Color),
    SetLineWidth(PlotUnit),
    MoveTo(i128, i128),
    LineTo(i128, i128),
    Stroke,
    Fill,
    /// A full circle path around a centre, with a radius.
    Circle(i128, i128, PlotUnit),
    SetFontSize(PlotUnit),
    /// Text drawn at the current position.
    ShowText(String),
}

pub open spec fn moves_to(op: DrawOp, x: int, y: int) -> bool {
    op matches DrawOp::MoveTo(a, b) && a == x && b == y
}

pub open spec fn lines_to(op: DrawOp, x: int, y: int) -> bool {
    op matches DrawOp::LineTo(a, b) && a == x && b == y
}

pub open spec fn circles(op: DrawOp, x: int, y: int, radius: int) -> bool {
    op matches DrawOp::Circle(a, b, r) && a == x && b == y && r == radius
}

pub open spec fn shows(op: DrawOp, text: Seq<char>) -> bool {
    op matches DrawOp::ShowText(t) && t@ == text
}

/// How a series draws its points.
#[derive(Debug, Clone, Copy, PartialEq, Eq, Structural)]
pub enum SeriesStyle {
    /// A filled circle at each point.
    Marker,
    /// Straight segments joining the points in order.
    Line,
}

#[derive(Debug, Clone, Copy, PartialEq, Eq, Structural)]
pub struct BorderProperty {
    pub color: Color,
    pub width: PlotUnit,
}

impl BorderProperty {
    fn new(color: Color, width: PlotUnit) -> (r: Self)
        ensures
            r.color == color,
            r.width == width,
    {
        Self { color: color, width: width }
    }
}

/// Font size of the axis labels, in pixels.
pub const LABEL_FONT_SIZE: i64 = 24;

/// Distance of the labels from the frame, in pixels.
pub const LABEL_OFFSET: i64 = 50;

/// Radius of a marker, in pixels.
pub const MARKER_RADIUS: i64 = 4;

/// Operations at the start of a series drawing: font, four labels, colour.
pub const LABEL_OPS: usize = 10;

/// Something a plot frame can draw inside itself.
pub trait Drawable {
    /// What drawing on a `width` by `height` canvas gives.
    spec fn drawing(&self, width: int, height: int, r: Result<Seq<DrawOp>, PlotError>) -> bool;

    fn draw(&self, width: i32, height: i32) -> (r: Result<Vec<DrawOp>, PlotError>)
        ensures
            self.drawing(width as int, height as int, ops_view(r)),
    ;
}

pub open spec fn ops_view(r: Result<Vec<DrawOp>, PlotError>) -> Result<Seq<DrawOp>, PlotError> {
    match r {
        Ok(v) => Ok(v@),
        Err(e) => Err(e),
    }
}

#[derive(Debug)]
pub struct Point2DProperty {
    pub data: Vec<Point2D>,
    pub lim_x: (PlotUnit, PlotUnit),
    pub lim_y: (PlotUnit, PlotUnit),
    pub color: Color,
    pub style: SeriesStyle,
}

impl Point2DProperty {
    /// A black line series over `data`, with its limits computed from it.
    /// The axis steps `unit_x` and `unit_y` are accepted and not used.
    pub fn new(data: Vec<Point2D>, unit_x: PlotUnit, unit_y: PlotUnit) -> (r: Self)
        ensures
            r.data@ == data@,
            (r.lim_x.0 as int, r.lim_x.1 as int) == crate::scale::limits_of(crate::scale::xs(data@)),
            (r.lim_y.0 as int, r.lim_y.1 as int) == crate::scale::limits_of(crate::scale::ys(data@)),
            r.lim_x.0 <= 0 <= r.lim_x.1,
            r.lim_y.0 <= 0 <= r.lim_y.1,
            r.color == Color::RGB(0, 0, 0),
            r.style == SeriesStyle::Line,
            r.labels_fit(),
    {
        let (lim_x, lim_y) = compute_limits(&data);
        proof {
            lemma_zero_seeded_labels_fit(lim_x.0 as int, lim_x.1 as int);
            lemma_zero_seeded_labels_fit(lim_y.0 as int, lim_y.1 as int);
        }
        Self { data: data, lim_x: lim_x, lim_y: lim_y, color: Color::RGB(0, 0, 0), style: SeriesStyle::Line }
    }

    /// The digit count of the x labels.
    pub open spec fn sig_x(&self) -> nat {
        sig_count(self.lim_x.1 - self.lim_x.0)
    }

    pub open spec fn sig_y(&self) -> nat {
        sig_count(self.lim_y.1 - self.lim_y.0)
    }

    /// Whether all four labels can be written.
    pub open spec fn labels_fit(&self) -> bool {
        &&& label_fits(self.lim_x.0 as int, self.sig_x())
        &&& label_fits(self.lim_x.1 as int, self.sig_x())
        &&& label_fits(self.lim_y.0 as int, self.sig_y())
        &&& label_fits(self.lim_y.1 as int, self.sig_y())
    }

    /// Whether any point is placed on the canvas: one for markers, two for a
    /// line.
    pub open spec fn places_points(&self) -> bool {
        match self.style {
            SeriesStyle::Marker => self.data@.len() >= 1,
            SeriesStyle::Line => self.data@.len() >= 2,
        }
    }

    /// Whether both axes have a positive extent on a canvas of positive size.
    pub open spec fn has_scale(&self, width: int, height: int) -> bool {
        self.lim_x.0 < self.lim_x.1 && self.lim_y.0 < self.lim_y.1 && width > 0 && height > 0
    }

    pub open spec fn px(&self, k: int, width: int) -> int {
        pixel_x(self.data@[k].x as int, self.lim_x.0 as int, self.lim_x.1 as int, width)
    }

    pub open spec fn py(&self, k: int, height: int) -> int {
        pixel_y(self.data@[k].y as int, self.lim_y.0 as int, self.lim_y.1 as int, height)
    }

    /// The font, the four labels and the series colour.
    pub open spec fn label_ops(&self, width: int, height: int, ops: Seq<DrawOp>) -> bool {
        &&& ops.len() >= LABEL_OPS
        &&& ops[0] == DrawOp::SetFontSize((LABEL_FONT_SIZE * UNIT) as i64)
        &&& moves_to(ops[1], -LABEL_OFFSET * UNIT, 0)
        &&& shows(ops[2], bound_label(self.lim_y.1 as int, self.sig_y()))
        &&& moves_to(ops[3], -LABEL_OFFSET * UNIT, height * UNIT)
        &&& shows(ops[4], bound_label(self.lim_y.0 as int, self.sig_y()))
        &&& moves_to(ops[5], 0, (height + LABEL_OFFSET) * UNIT)
        &&& shows(ops[6], bound_label(self.lim_x.0 as int, self.sig_x()))
        &&& moves_to(ops[7], width * UNIT, (height + LABEL_OFFSET) * UNIT)
        &&& shows(ops[8], bound_label(self.lim_x.1 as int, self.sig_x()))
        &&& ops[9] == DrawOp::SetColor(self.color)
    }

    /// A filled circle at each point, in order.
    pub open spec fn marker_ops(&self, width: int, height: int, ops: Seq<DrawOp>) -> bool {
        &&& ops.len() == LABEL_OPS + 2 * self.data@.len()
        &&& forall|k: int|
            0 <= k < self.data@.len() ==> circles(
                #[trigger] ops[LABEL_OPS + 2 * k],
                self.px(k, width),
                self.py(k, height),
                MARKER_RADIUS * UNIT,
            ) && ops[LABEL_OPS + 2 * k + 1] == DrawOp::Fill
    }

    /// A path through the points in order, stroked; nothing for fewer than
    /// two points.
    pub open spec fn line_ops(&self, width: int, height: int, ops: Seq<DrawOp>) -> bool {
        let n = self.data@.len();
        if n < 2 {
            ops.len() == LABEL_OPS
        } else {
            &&& ops.len() == LABEL_OPS + n + 1
            &&& moves_to(ops[LABEL_OPS as int], self.px(0, width), self.py(0, height))
            &&& forall|k: int|
                1 <= k < n ==> lines_to(
                    #[trigger] ops[LABEL_OPS + k],
                    self.px(k, width),
                    self.py(k, height),
                )
            &&& ops[LABEL_OPS + n] == DrawOp::Stroke
        }
    }
}

impl Drawable for Point2DProperty {
    /// The labels come first and fail where one cannot be written; the
    /// points then fail where an axis has no extent.
    open spec fn drawing(&self, width: int, height: int, r: Result<Seq<DrawOp>, PlotError>) -> bool {
        if !self.labels_fit() {
            r == Err::<Seq<DrawOp>, PlotError>(PlotError::UnplaceableLabel)
        } else if self.places_points() && !self.has_scale(width, height) {
            r == Err::<Seq<DrawOp>, PlotError>(PlotError::DegenerateRange)
        } else {
            match r {
                Ok(ops) => self.label_ops(width, height, ops) && match self.style {
                    SeriesStyle::Marker => self.marker_ops(width, height, ops),
                    SeriesStyle::Line => self.line_ops(width, height, ops),
                },
                Err(_) => false,
            }
        }
    }

    fn draw(&self, width: i32, height: i32) -> (r: Result<Vec<DrawOp>, PlotError>) {
        let (ll_x, ul_x) = self.lim_x;
        let (ll_y, ul_y) = self.lim_y;
        let (ll_xs, ul_xs) = match try_round(ll_x, ul_x) {
            Some(p) => p,
            None => return Err(PlotError::UnplaceableLabel),
        };
        let (ll_ys, ul_ys) = match try_round(ll_y, ul_y) {
            Some(p) => p,
            None => return Err(PlotError::UnplaceableLabel),
        };
        let n = self.data.len();
        let places = match self.style {
            SeriesStyle::Marker => n >= 1,
            SeriesStyle::Line => n >= 2,
        };
        if places && !(ll_x < ul_x && ll_y < ul_y && width > 0 && height > 0) {
            return Err(PlotError::DegenerateRange);
        }
        let w: i128 = width as i128 * 1_000_000;
        let h: i128 = height as i128 * 1_000_000;
        let off: i128 = LABEL_OFFSET as i128 * 1_000_000;
        let mut ops: Vec<DrawOp> = Vec::new();
        ops.push(DrawOp::SetFontSize(LABEL_FONT_SIZE * UNIT));
        ops.push(DrawOp::MoveTo(-off, 0));
        ops.push(DrawOp::ShowText(ul_ys));
        ops.push(DrawOp::MoveTo(-off, h));
        ops.push(DrawOp::ShowText(ll_ys));
        ops.push(DrawOp::MoveTo(0, h + off));
        ops.push(DrawOp::ShowText(ll_xs));
        ops.push(DrawOp::MoveTo(w, h + off));
        ops.push(DrawOp::ShowText(ul_xs));
        ops.push(DrawOp::SetColor(self.color));
        assert(self.label_ops(width as int, height as int, ops@));
        let ghost labels = ops@;
        match self.style {
            SeriesStyle::Marker => {
                let radius: PlotUnit = MARKER_RADIUS * UNIT;
                let mut i: usize = 0;
                while i < n
                    invariant
                        n == self.data@.len(),
                        i <= n,
                        n >= 1 ==> ll_x < ul_x && ll_y < ul_y && width > 0 && height > 0,
                        self.lim_x == (ll_x, ul_x),
                        self.lim_y == (ll_y, ul_y),
                        radius == MARKER_RADIUS * UNIT,
                        ops@.len() == LABEL_OPS + 2 * i,
                        ops@.take(LABEL_OPS as int) == labels,
                        labels.len() == LABEL_OPS,
                        forall|k: int|
                            0 <= k < i ==> circles(
                                #[trigger] ops@[LABEL_OPS + 2 * k],
                                self.px(k, width as int),
                                self.py(k, height as int),
                                MARKER_RADIUS * UNIT,
                            ) && ops@[LABEL_OPS + 2 * k + 1] == DrawOp::Fill,
                    decreases n - i,
                {
                    let (px, py) = match map_to_pixels(self.data[i], self.lim_x, self.lim_y, width, height) {
                        Ok(q) => q,
                        Err(e) => return Err(e),
                    };
                    ops.push(DrawOp::Circle(px, py, radius));
                    ops.push(DrawOp::Fill);
                    assert(ops@.take(LABEL_OPS as int) =~= labels);
                    i = i + 1;
                }
                assert(self.marker_ops(width as int, height as int, ops@));
            },
            SeriesStyle::Line => {
                if n >= 2 {
                    let (px, py) = match map_to_pixels(self.data[0], self.lim_x, self.lim_y, width, height) {
                        Ok(q) => q,
                        Err(e) => return Err(e),
                    };
                    ops.push(DrawOp::MoveTo(px, py));
                    assert(ops@.take(LABEL_OPS as int) =~= labels);
                    let mut i: usize = 1;
                    while i < n
                        invariant
                            n == self.data@.len(),
                            1 <= i <= n,
                            ll_x < ul_x && ll_y < ul_y && width > 0 && height > 0,
                            self.lim_x == (ll_x, ul_x),
                            self.lim_y == (ll_y, ul_y),
                            ops@.len() == LABEL_OPS + i,
                            ops@.take(LABEL_OPS as int) == labels,
                            labels.len() == LABEL_OPS,
                            moves_to(ops@[LABEL_OPS as int], self.px(0, width as int), self.py(0, height as int)),
                            forall|k: int|
                                1 <= k < i ==> lines_to(
                                    #[trigger] ops@[LABEL_OPS + k],
                                    self.px(k, width as int),
                                    self.py(k, height as int),
                                ),
                        decreases n - i,
                    {
                        let (px, py) = match map_to_pixels(self.data[i], self.lim_x, self.lim_y, width, height) {
                            Ok(q) => q,
                            Err(e) => return Err(e),
                        };
                        ops.push(DrawOp::LineTo(px, py));
                        assert(ops@.take(LABEL_OPS as int) =~= labels);
                        i = i + 1;
                    }
                    ops.push(DrawOp::Stroke);
                    assert(ops@.take(LABEL_OPS as int) =~= labels);
                }
                assert(self.line_ops(width as int, height as int, ops@));
            },
        }
        assert(ops@.take(LABEL_OPS as int) == labels);
        assert(self.label_ops(width as int, height as int, ops@)) by {
            assert forall|k: int| 0 <= k < LABEL_OPS implies ops@[k] == labels[k] by {
                assert(ops@.take(LABEL_OPS as int)[k] == ops@[k]);
            }
        }
        Ok(ops)
    }
}


#[derive(Debug)]
pub struct Plot2D<T> {
    pub prop: T,
    pub title: String,
    pub label_x: String,
    pub label_y: String,
    pub border: BorderProperty,
    /// Offset of the frame on the surface, in units of `1 / UNIT` pixel.
    pub x: PlotUnit,
    pub y: PlotUnit,
    /// Size of the frame in pixels.
    pub width: i32,
    pub height: i32,
}

pub type PointPlot = Plot2D<Point2DProperty>;

/// Operations of the frame before its series: offset, border style and the
/// closed border path.
pub const BORDER_OPS: usize = 9;

impl<T> Plot2D<T> {
    /// An 800 by 800 frame at the origin with a black border two pixels wide.
    pub fn new(prop: T) -> (r: Self)
        ensures
            r.prop == prop,
            r.title@.len() == 0,
            r.label_x@.len() == 0,
            r.label_y@.len() == 0,
            r.border == (BorderProperty { color: Color::RGB(0, 0, 0), width: (2 * UNIT) as i64 }),
            r.x == 0,
            r.y == 0,
            r.width == 800,
            r.height == 800,
    {
        Self {
            prop: prop,
            title: String::new(),
            label_x: String::new(),
            label_y: String::new(),
            border: BorderProperty::new(Color::RGB(0, 0, 0), 2 * UNIT),
            x: 0,
            y: 0,
            width: 800,
            height: 800,
        }
    }

    /// The offset, the border colour and width, and the stroked rectangle
    /// from the origin round the frame's size.
    pub open spec fn border_ops(&self, ops: Seq<DrawOp>) -> bool {
        let w = self.width * UNIT;
        let h = self.height * UNIT;
        &&& ops.len() == BORDER_OPS
        &&& ops[0] == DrawOp::Translate(self.x, self.y)
        &&& ops[1] == DrawOp::SetColor(self.border.color)
        &&& ops[2] == DrawOp::SetLineWidth(self.border.width)
        &&& moves_to(ops[3], 0, 0)
        &&& lines_to(ops[4], w, 0)
        &&& lines_to(ops[5], w, h)
        &&& lines_to(ops[6], 0, h)
        &&& lines_to(ops[7], 0, 0)
        &&& ops[8] == DrawOp::Stroke
    }
}

impl<T: Drawable> Plot2D<T> {
    /// The frame's border followed by what its series draws; a failure of
    /// the series is the result.
    pub fn render(&self) -> (r: Result<Vec<DrawOp>, PlotError>)
        ensures
            r matches Ok(ops) ==> ops@.len() >= BORDER_OPS && self.border_ops(ops@.take(BORDER_OPS as int))
                && self.prop.drawing(
                self.width as int,
                self.height as int,
                Ok(ops@.skip(BORDER_OPS as int)),
            ),
            r matches Err(e) ==> self.prop.drawing(
                self.width as int,
                self.height as int,
                Err(e),
            ),
    {
        let w: i128 = self.width as i128 * 1_000_000;
        let h: i128 = self.height as i128 * 1_000_000;
        let mut ops: Vec<DrawOp> = Vec::new();
        ops.push(DrawOp::Translate(self.x, self.y));
        ops.push(DrawOp::SetColor(self.border.color));
        ops.push(DrawOp::SetLineWidth(self.border.width));
        ops.push(DrawOp::MoveTo(0, 0));
        ops.push(DrawOp::LineTo(w, 0));
        ops.push(DrawOp::LineTo(w, h));
        ops.push(DrawOp::LineTo(0, h));
        ops.push(DrawOp::LineTo(0, 0));
        ops.push(DrawOp::Stroke);
        let ghost border = ops@;
        match self.prop.draw(self.width, self.height) {
            Ok(mut series) => {
                let ghost s = series@;
                ops.append(&mut series);
                assert(ops@.take(BORDER_OPS as int) =~= border);
                assert(ops@.skip(BORDER_OPS as int) =~= s);
                Ok(ops)
            },
            Err(e) => Err(e),
        }
    }
}

} // verus!
