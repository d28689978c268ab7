use polyraster::canvas::{canvas_bytes, canvas_height, canvas_width, new_canvas, pixel_at, Canvas};
use polyraster::fill::{fill_polygon, row_crossings};
use polyraster::geom::{flip_y, Color, Point};
use polyraster::line::draw_line;

const WHITE: Color = Color { r: 255, g: 255, b: 255 };
const RED: Color = Color { r: 255, g: 0, b: 0 };

fn pt(x: i32, y: i32) -> Point {
    Point { x, y }
}

fn poly(coords: &[(i32, i32)]) -> Vec<Point> {
    coords.iter().map(|&(x, y)| pt(x, y)).collect()
}

fn count_painted(canvas: &Canvas, color: Color) -> usize {
    let mut count = 0;
    for y in 0..canvas_height(canvas) {
        for x in 0..canvas_width(canvas) {
            if pixel_at(canvas, x, y) == color {
                count += 1;
            }
        }
    }
    count
}

#[test]
fn point_segment_plots_exactly_one_pixel() {
    let mut canvas = new_canvas(20, 20, WHITE);
    draw_line(&mut canvas, pt(5, 7), pt(5, 7), RED);
    for y in 0..20 {
        for x in 0..20 {
            let expected = if (x, y) == (5, 7) { RED } else { WHITE };
            assert_eq!(pixel_at(&canvas, x, y), expected);
        }
    }
}

#[test]
fn point_segment_out_of_bounds_is_skipped() {
    let mut canvas = new_canvas(8, 8, WHITE);
    draw_line(&mut canvas, pt(-3, -3), pt(-3, -3), RED);
    draw_line(&mut canvas, pt(100, 2), pt(100, 2), RED);
    assert_eq!(count_painted(&canvas, RED), 0);
}

#[test]
fn horizontal_segment_plots_its_eleven_pixels() {
    let mut canvas = new_canvas(20, 20, WHITE);
    draw_line(&mut canvas, pt(0, 5), pt(10, 5), RED);
    for x in 0..=10 {
        assert_eq!(pixel_at(&canvas, x, 5), RED);
    }
    assert_eq!(count_painted(&canvas, RED), 11);
}

#[test]
fn diagonal_segment_has_no_stray_pixels() {
    let mut canvas = new_canvas(10, 10, WHITE);
    draw_line(&mut canvas, pt(0, 0), pt(4, 4), RED);
    for i in 0..=4 {
        assert_eq!(pixel_at(&canvas, i, i), RED);
    }
    assert_eq!(count_painted(&canvas, RED), 5);
}

#[test]
fn vertical_segment_is_exact() {
    let mut canvas = new_canvas(10, 10, WHITE);
    draw_line(&mut canvas, pt(3, 8), pt(3, 2), RED);
    for y in 2..=8 {
        assert_eq!(pixel_at(&canvas, 3, y), RED);
    }
    assert_eq!(count_painted(&canvas, RED), 7);
}

#[test]
fn square_fills_its_interior() {
    // The half-open crossing test counts an edge while the scanline is
    // strictly below its lower endpoint, so the bottom row (y = 8) gets no
    // crossings and stays unfilled: the painted block is 2..=8 by 2..=7.
    let mut canvas = new_canvas(12, 12, WHITE);
    fill_polygon(&mut canvas, &poly(&[(2, 2), (2, 8), (8, 8), (8, 2)]), RED);
    for y in 0..12 {
        for x in 0..12 {
            let inside = (2..=8).contains(&x) && (2..=7).contains(&y);
            let expected = if inside { RED } else { WHITE };
            assert_eq!(pixel_at(&canvas, x, y), expected, "at ({x}, {y})");
        }
    }
}

#[test]
fn square_crossings_per_row() {
    let square = poly(&[(2, 2), (2, 8), (8, 8), (8, 2)]);
    assert_eq!(row_crossings(&square, 2), vec![2, 8]);
    assert_eq!(row_crossings(&square, 7), vec![2, 8]);
    assert_eq!(row_crossings(&square, 8), Vec::<i64>::new());
    assert_eq!(row_crossings(&square, 1), Vec::<i64>::new());
}

#[test]
fn triangle_fill_area_and_even_crossings() {
    let tri = poly(&[(0, 0), (10, 0), (5, 10)]);
    let mut canvas = new_canvas(20, 20, WHITE);
    fill_polygon(&mut canvas, &tri, RED);
    // Every scanline meets the boundary an even number of times.
    for y in -2..13 {
        assert_eq!(row_crossings(&tri, y).len() % 2, 0, "row {y}");
    }
    // Interpolation truncates toward zero: floor division would shift the
    // negative-slope intersections left by one.
    assert_eq!(row_crossings(&tri, 1), vec![1, 10]);
    assert_eq!(row_crossings(&tri, 9), vec![5, 6]);
    // The painted count stays within the discretization error of the exact
    // area of 50: at most two boundary pixels on each of the ten rows.
    let painted = count_painted(&canvas, RED);
    assert_eq!(painted, 65);
    assert!(painted.abs_diff(50) <= 20);
}

#[test]
fn reversed_square_fills_the_same_pixels() {
    let mut forward = new_canvas(12, 12, WHITE);
    let mut backward = new_canvas(12, 12, WHITE);
    fill_polygon(&mut forward, &poly(&[(2, 2), (2, 8), (8, 8), (8, 2)]), RED);
    fill_polygon(&mut backward, &poly(&[(8, 2), (8, 8), (2, 8), (2, 2)]), RED);
    assert_eq!(canvas_bytes(forward), canvas_bytes(backward));
}

#[test]
fn polygon_outside_bounds_paints_nothing() {
    let mut canvas = new_canvas(10, 10, WHITE);
    fill_polygon(&mut canvas, &poly(&[(-10, -10), (-5, -10), (-7, -3)]), RED);
    fill_polygon(&mut canvas, &poly(&[(20, 20), (30, 20), (25, 30)]), RED);
    fill_polygon(&mut canvas, &poly(&[(-9, 2), (-4, 2), (-6, 8)]), RED);
    fill_polygon(&mut canvas, &poly(&[(2, 12), (8, 12), (5, 19)]), RED);
    assert_eq!(count_painted(&canvas, RED), 0);
}

#[test]
fn coincident_vertex_pair_changes_nothing() {
    let mut plain = new_canvas(12, 12, WHITE);
    let mut doubled = new_canvas(12, 12, WHITE);
    fill_polygon(&mut plain, &poly(&[(2, 2), (2, 8), (8, 8), (8, 2)]), RED);
    fill_polygon(&mut doubled, &poly(&[(2, 2), (2, 2), (2, 8), (8, 8), (8, 2)]), RED);
    assert_eq!(canvas_bytes(plain), canvas_bytes(doubled));
    // A diagonal coincident pair on a triangle terminates and adds nothing.
    let mut tri = new_canvas(20, 20, WHITE);
    let mut tri_doubled = new_canvas(20, 20, WHITE);
    fill_polygon(&mut tri, &poly(&[(0, 0), (10, 0), (5, 10)]), RED);
    fill_polygon(&mut tri_doubled, &poly(&[(0, 0), (10, 0), (10, 0), (5, 10)]), RED);
    assert_eq!(canvas_bytes(tri), canvas_bytes(tri_doubled));
}

#[test]
fn degenerate_vertex_lists_fill_nothing() {
    let mut canvas = new_canvas(10, 10, WHITE);
    fill_polygon(&mut canvas, &poly(&[]), RED);
    fill_polygon(&mut canvas, &poly(&[(3, 3)]), RED);
    fill_polygon(&mut canvas, &poly(&[(1, 1), (8, 8)]), RED);
    assert_eq!(count_painted(&canvas, RED), 0);
}

#[test]
fn repeated_rendering_is_byte_identical() {
    let scene = || {
        let mut canvas = new_canvas(40, 30, WHITE);
        let tri = poly(&[(3, 3), (30, 5), (16, 25)]);
        fill_polygon(&mut canvas, &tri, Color { r: 0, g: 0, b: 255 });
        for i in 0..tri.len() {
            draw_line(&mut canvas, tri[i], tri[(i + 1) % tri.len()], RED);
        }
        canvas_bytes(canvas)
    };
    assert_eq!(scene(), scene());
}

#[test]
fn flip_y_mirrors_vertically() {
    let flipped = flip_y(&poly(&[(1, 2), (3, 4), (0, 0)]), 10);
    assert_eq!(flipped.len(), 3);
    assert_eq!((flipped[0].x, flipped[0].y), (1, 8));
    assert_eq!((flipped[1].x, flipped[1].y), (3, 6));
    assert_eq!((flipped[2].x, flipped[2].y), (0, 10));
}

#[test]
fn canvas_bytes_layout_is_row_major_rgb() {
    let mut canvas = new_canvas(3, 2, Color { r: 1, g: 2, b: 3 });
    draw_line(&mut canvas, pt(2, 1), pt(2, 1), Color { r: 9, g: 8, b: 7 });
    let bytes = canvas_bytes(canvas);
    assert_eq!(bytes.len(), 18);
    assert_eq!(&bytes[0..3], &[1, 2, 3]);
    let i = 3 * (1 * 3 + 2);
    assert_eq!(&bytes[i..i + 3], &[9, 8, 7]);
}
