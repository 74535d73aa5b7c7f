use rsplot::geometry::{Color, PlotError, Point2D};
use rsplot::label::UNIT;
use rsplot::scale::{compute_limits, map_to_pixels};
use rsplot::unit::{Drawable, DrawOp, Plot2D, Point2DProperty, SeriesStyle};

fn pt(x: i64, y: i64) -> Point2D {
    Point2D { x: x * UNIT, y: y * UNIT }
}

fn text(s: &str) -> DrawOp {
    DrawOp::ShowText(s.to_string())
}

fn border(w: i128, h: i128) -> Vec<DrawOp> {
    let u = UNIT as i128;
    vec![
        DrawOp::Translate(0, 0),
        DrawOp::SetColor(Color::RGB(0, 0, 0)),
        DrawOp::SetLineWidth(2 * UNIT),
        DrawOp::MoveTo(0, 0),
        DrawOp::LineTo(w * u, 0),
        DrawOp::LineTo(w * u, h * u),
        DrawOp::LineTo(0, h * u),
        DrawOp::LineTo(0, 0),
        DrawOp::Stroke,
    ]
}

fn labels(w: i128, h: i128, xs: (&str, &str), ys: (&str, &str)) -> Vec<DrawOp> {
    let u = UNIT as i128;
    vec![
        DrawOp::SetFontSize(24 * UNIT),
        DrawOp::MoveTo(-50 * u, 0),
        text(ys.1),
        DrawOp::MoveTo(-50 * u, h * u),
        text(ys.0),
        DrawOp::MoveTo(0, (h + 50) * u),
        text(xs.0),
        DrawOp::MoveTo(w * u, (h + 50) * u),
        text(xs.1),
        DrawOp::SetColor(Color::RGB(0, 0, 0)),
    ]
}

#[test]
fn limits_hold_zero_and_all_points() {
    assert_eq!(compute_limits(&vec![]), ((0, 0), (0, 0)));
    assert_eq!(
        compute_limits(&vec![pt(32, 40), pt(50, 100)]),
        ((0, 50 * UNIT), (0, 100 * UNIT))
    );
    assert_eq!(
        compute_limits(&vec![pt(-3, 7), pt(2, -9), pt(1, 1)]),
        ((-3 * UNIT, 2 * UNIT), (-9 * UNIT, 7 * UNIT))
    );
    assert_eq!(compute_limits(&vec![pt(5, 5)]), ((0, 5 * UNIT), (0, 5 * UNIT)));
}

#[test]
fn limit_corners_map_to_canvas_corners() {
    let lx = (-2 * UNIT, 6 * UNIT);
    let ly = (-1 * UNIT, 3 * UNIT);
    let u = UNIT as i128;
    assert_eq!(map_to_pixels(pt(-2, -1), lx, ly, 300, 200), Ok((0, 200 * u)));
    assert_eq!(map_to_pixels(pt(6, 3), lx, ly, 300, 200), Ok((300 * u, 0)));
}

#[test]
fn mapping_scales_and_flips() {
    let u = UNIT as i128;
    let lx = (0, 50 * UNIT);
    let ly = (0, 100 * UNIT);
    assert_eq!(map_to_pixels(pt(32, 40), lx, ly, 400, 400), Ok((256 * u, 240 * u)));
    assert_eq!(map_to_pixels(Point2D { x: 1, y: 0 }, (0, 3), (0, 1), 1, 1), Ok((333_333, u)));
    assert_eq!(map_to_pixels(Point2D { x: -1, y: 0 }, (0, 3), (0, 1), 1, 1), Ok((-333_334, u)));
}

#[test]
fn mapping_on_equal_limits_fails() {
    assert_eq!(
        map_to_pixels(pt(1, 1), (0, 0), (0, UNIT), 10, 10),
        Err(PlotError::DegenerateRange)
    );
    assert_eq!(
        map_to_pixels(pt(1, 1), (0, UNIT), (UNIT, UNIT), 10, 10),
        Err(PlotError::DegenerateRange)
    );
}

#[test]
fn new_plot_defaults() {
    let plot = Plot2D::new(Point2DProperty::new(vec![pt(1, 2)], UNIT, UNIT));
    assert_eq!(plot.width, 800);
    assert_eq!(plot.height, 800);
    assert_eq!(plot.x, 0);
    assert_eq!(plot.y, 0);
    assert_eq!(plot.border.color, Color::RGB(0, 0, 0));
    assert_eq!(plot.border.width, 2 * UNIT);
    assert_eq!(plot.title, "");
    assert_eq!(plot.prop.style, SeriesStyle::Line);
    assert_eq!(plot.prop.color, Color::RGB(0, 0, 0));
    assert_eq!(plot.prop.lim_x, (0, UNIT));
    assert_eq!(plot.prop.lim_y, (0, 2 * UNIT));
}

#[test]
fn marker_plot_of_two_points() {
    let mut prop = Point2DProperty::new(vec![pt(32, 40), pt(50, 100)], UNIT, UNIT);
    prop.style = SeriesStyle::Marker;
    assert_eq!(prop.lim_x, (0, 50 * UNIT));
    assert_eq!(prop.lim_y, (0, 100 * UNIT));
    let mut plot = Plot2D::new(prop);
    plot.width = 400;
    plot.height = 400;
    let u = UNIT as i128;
    let mut expected = border(400, 400);
    expected.extend(labels(400, 400, ("0.000000", "5.000000"), ("0.0000000", "10.000000")));
    expected.extend(vec![
        DrawOp::Circle(256 * u, 240 * u, 4 * UNIT),
        DrawOp::Fill,
        DrawOp::Circle(400 * u, 0, 4 * UNIT),
        DrawOp::Fill,
    ]);
    assert_eq!(plot.render(), Ok(expected));
}

#[test]
fn line_plot_of_sampled_sine() {
    let mut data: Vec<Point2D> = (0..629)
        .map(|i| {
            let x = i as f64 * 0.01;
            Point2D { x: (x * 1e6).round() as i64, y: (x.sin() * 1e6).round() as i64 }
        })
        .collect();
    data[0].y = 4 * UNIT;
    let low_y = data.iter().map(|p| p.y).min().unwrap();
    let prop = Point2DProperty::new(data.clone(), UNIT, UNIT);
    assert_eq!(prop.lim_x, (0, 6_280_000));
    assert_eq!(prop.lim_y, (low_y, 4 * UNIT));
    assert!(low_y < -999_000);
    let mut plot = Plot2D::new(prop);
    plot.width = 400;
    plot.height = 400;
    let ops = plot.render().unwrap();
    assert_eq!(ops.len(), 9 + 10 + 629 + 1);
    let u = UNIT as i128;
    let dy = 4 * u - low_y as i128;
    let at = |p: &Point2D| {
        let px = (p.x as i128 * 400 * u).div_euclid(6_280_000);
        let py = 400 * u - ((p.y as i128 - low_y as i128) * 400 * u).div_euclid(dy);
        (px, py)
    };
    let first = at(&data[0]);
    assert_eq!(ops[19], DrawOp::MoveTo(first.0, first.1));
    assert_eq!(first, (0, 0));
    for k in 1..629 {
        let q = at(&data[k]);
        assert_eq!(ops[19 + k], DrawOp::LineTo(q.0, q.1));
    }
    assert_eq!(ops[19 + 629], DrawOp::Stroke);
}

#[test]
fn empty_marker_plot_draws_frame_and_labels() {
    let mut prop = Point2DProperty::new(vec![], UNIT, UNIT);
    prop.style = SeriesStyle::Marker;
    let mut plot = Plot2D::new(prop);
    plot.width = 400;
    plot.height = 400;
    let mut expected = border(400, 400);
    expected.extend(labels(400, 400, ("0.", "0."), ("0.", "0.")));
    assert_eq!(plot.render(), Ok(expected));
}

#[test]
fn single_point_line_plot_draws_no_segment() {
    let plot = Plot2D::new(Point2DProperty::new(vec![pt(5, 5)], UNIT, UNIT));
    let mut expected = border(800, 800);
    expected.extend(labels(800, 800, ("0.000", "5.000"), ("0.000", "5.000")));
    assert_eq!(plot.render(), Ok(expected));
}

#[test]
fn two_point_line_plot_draws_one_segment() {
    let prop = Point2DProperty::new(vec![pt(-1, 1), pt(1, -1)], UNIT, UNIT);
    let u = UNIT as i128;
    let ops = prop.draw(100, 100).unwrap();
    assert_eq!(
        ops[10..].to_vec(),
        vec![DrawOp::MoveTo(0, 0), DrawOp::LineTo(100 * u, 100 * u), DrawOp::Stroke]
    );
}

#[test]
fn flat_axis_fails_only_when_points_are_placed() {
    let mut marker = Point2DProperty::new(vec![pt(0, 5)], UNIT, UNIT);
    marker.style = SeriesStyle::Marker;
    assert_eq!(Plot2D::new(marker).render(), Err(PlotError::DegenerateRange));
    let line = Point2DProperty::new(vec![pt(0, 1), pt(0, 2)], UNIT, UNIT);
    assert_eq!(line.draw(10, 10), Err(PlotError::DegenerateRange));
    let single = Point2DProperty::new(vec![pt(0, 1)], UNIT, UNIT);
    assert!(single.draw(10, 10).is_ok());
}

#[test]
fn canvas_without_size_has_no_scale() {
    let lx = (0, UNIT);
    assert_eq!(map_to_pixels(pt(1, 1), lx, lx, 0, 10), Err(PlotError::DegenerateRange));
    assert_eq!(map_to_pixels(pt(1, 1), lx, lx, 10, -1), Err(PlotError::DegenerateRange));
    let mut marker = Point2DProperty::new(vec![pt(1, 1)], UNIT, UNIT);
    marker.style = SeriesStyle::Marker;
    assert_eq!(marker.draw(0, 0), Err(PlotError::DegenerateRange));
    let empty = Point2DProperty::new(vec![], UNIT, UNIT);
    assert!(empty.draw(0, 0).is_ok());
}

#[test]
fn unwritable_label_fails() {
    let mut prop = Point2DProperty::new(vec![], UNIT, UNIT);
    prop.lim_x = (1_000_000 * UNIT, 1_000_001 * UNIT);
    assert_eq!(prop.draw(10, 10), Err(PlotError::UnplaceableLabel));
}

#[test]
fn frame_offset_and_border_style_lead() {
    let mut plot = Plot2D::new(Point2DProperty::new(vec![], UNIT, UNIT));
    plot.x = 100 * UNIT;
    plot.y = 7;
    plot.border.color = Color::RGBA(1, 2, 3, 4);
    plot.border.width = 3 * UNIT;
    let ops = plot.render().unwrap();
    assert_eq!(ops[0], DrawOp::Translate(100 * UNIT, 7));
    assert_eq!(ops[1], DrawOp::SetColor(Color::RGBA(1, 2, 3, 4)));
    assert_eq!(ops[2], DrawOp::SetLineWidth(3 * UNIT));
    assert_eq!(ops.len(), 19);
}
