use soft_raster::raster::{raster_triangle, Fragment, Triangle, Weights};

fn tri(ax: i32, ay: i32, bx: i32, by: i32, cx: i32, cy: i32) -> Triangle {
    Triangle { ax, ay, bx, by, cx, cy }
}

fn positions(fragments: &[Fragment]) -> Vec<(i32, i32)> {
    fragments.iter().map(|f| (f.x, f.y)).collect()
}

/// The scan conversion written with floating point, pixel by pixel: the
/// yardstick for the integer one.
fn float_scan(width: i32, height: i32, t: &Triangle) -> Vec<(i32, i32)> {
    let mut found = Vec::new();
    if width <= 0 || height <= 0 {
        return found;
    }
    let max_width = width - 1;
    let max_height = height - 1;
    let minx = max_width.min(t.ax).max(0).min(t.bx).max(0).min(t.cx).max(0);
    let miny = max_height.min(t.ay).max(0).min(t.by).max(0).min(t.cy).max(0);
    let maxx = 0.max(t.ax).min(max_width).max(t.bx).min(max_width).max(t.cx).min(max_width);
    let maxy = 0.max(t.ay).min(max_height).max(t.by).min(max_height).max(t.cy).min(max_height);
    let l1x = t.cx as f32 - t.ax as f32;
    let l1y = t.bx as f32 - t.ax as f32;
    let l2x = t.cy as f32 - t.ay as f32;
    let l2y = t.by as f32 - t.ay as f32;
    let uz = (l1x * l2y) - (l1y * l2x);
    if uz.abs() < 1. {
        return found;
    }
    for y in miny..=maxy {
        let l2z = t.ay as f32 - y as f32;
        for x in minx..=maxx {
            let l1z = t.ax as f32 - x as f32;
            let ux = (l1y * l2z) - (l1z * l2y);
            let uy = (l1z * l2x) - (l1x * l2z);
            if 1. - (ux + uy) / uz < 0. {
                continue;
            }
            if uy / uz < 0. {
                continue;
            }
            if ux / uz < 0. {
                continue;
            }
            found.push((x, y));
        }
    }
    found
}

#[test]
fn right_triangle_covers_its_lattice_points() {
    let t = tri(0, 0, 10, 0, 0, 10);
    let fragments = raster_triangle(20, 20, &t);
    assert_eq!(fragments.len(), 66);
    for f in &fragments {
        assert!(f.x >= 0 && f.y >= 0 && f.x + f.y <= 10);
    }
    for y in 0..20 {
        for x in 0..20 {
            let inside = x + y <= 10;
            assert_eq!(fragments.iter().any(|f| f.x == x && f.y == y), inside);
            assert_eq!(t.contains(x, y), inside);
        }
    }
}

#[test]
fn pixel_count_approximates_area() {
    // legs of 100 and 60 pixels: area 3000, and the lattice points of the
    // closed triangle exceed it by less than one row and one column
    let t = tri(5, 7, 105, 7, 5, 67);
    let fragments = raster_triangle(200, 100, &t);
    assert_eq!(fragments.len(), 3091);
    let area = 3000i64;
    let count = fragments.len() as i64;
    assert!((count - area).abs() <= 100 + 60);
    assert_eq!(t.twice_area().abs(), 2 * 3000);
}

#[test]
fn fragments_come_in_row_major_order() {
    let t = tri(2, 1, 9, 4, 3, 8);
    let fragments = raster_triangle(16, 16, &t);
    assert!(!fragments.is_empty());
    for pair in fragments.windows(2) {
        let (p, q) = (pair[0], pair[1]);
        assert!(p.y < q.y || (p.y == q.y && p.x < q.x));
    }
}

#[test]
fn weights_are_exact() {
    let t = tri(0, 0, 10, 0, 0, 10);
    assert_eq!(t.twice_area(), -100);
    let w: Weights = t.weights(1, 1);
    assert_eq!((w.a, w.b, w.c), (-80, -10, -10));
    assert!(w.is_inside());
    let fragments = raster_triangle(20, 20, &t);
    let f = fragments.iter().find(|f| f.x == 3 && f.y == 2).unwrap();
    assert_eq!((f.weights.a, f.weights.b, f.weights.c), (-50, -30, -20));
    // outside: beyond the hypotenuse
    let out = t.weights(6, 6);
    assert_eq!((out.a, out.b, out.c), (20, -60, -60));
    assert!(!out.is_inside());
}

#[test]
fn weights_locate_the_point() {
    let t = tri(-3, 4, 17, -2, 6, 21);
    let d = t.twice_area();
    for y in -5..25 {
        for x in -5..25 {
            let w = t.weights(x, y);
            assert_eq!(w.a + w.b + w.c, d);
            assert_eq!(d * x as i128, w.a * t.ax as i128 + w.b * t.bx as i128 + w.c * t.cx as i128);
            assert_eq!(d * y as i128, w.a * t.ay as i128 + w.b * t.by as i128 + w.c * t.cy as i128);
        }
    }
}

#[test]
fn collinear_corners_rasterize_nothing() {
    assert!(raster_triangle(100, 100, &tri(0, 0, 5, 5, 10, 10)).is_empty());
    assert!(raster_triangle(100, 100, &tri(3, 3, 3, 3, 3, 3)).is_empty());
    assert!(raster_triangle(100, 100, &tri(1, 50, 40, 50, 99, 50)).is_empty());
    assert_eq!(tri(0, 0, 5, 5, 10, 10).twice_area(), 0);
    assert!(!tri(0, 0, 5, 5, 10, 10).contains(5, 5));
}

#[test]
fn extreme_corners_do_not_overflow() {
    let t = tri(i32::MIN, i32::MIN, i32::MAX, i32::MIN, i32::MAX, i32::MAX);
    let fragments = raster_triangle(4, 3, &t);
    // the half plane on and above the diagonal, cut to four columns and
    // three rows
    assert_eq!(
        positions(&fragments),
        vec![(0, 0), (1, 0), (2, 0), (3, 0), (1, 1), (2, 1), (3, 1), (2, 2), (3, 2)]
    );
    let d = t.twice_area();
    assert_eq!(d, -(0xffff_ffffi128 * 0xffff_ffffi128));
    let flat = tri(i32::MIN, 0, 0, 0, i32::MAX, 0);
    assert!(raster_triangle(4, 3, &flat).is_empty());
}

#[test]
fn winding_does_not_change_coverage() {
    let t = tri(2, 1, 30, 9, 11, 27);
    let r = tri(2, 1, 11, 27, 30, 9);
    let one = raster_triangle(40, 40, &t);
    let other = raster_triangle(40, 40, &r);
    assert!(!one.is_empty());
    assert_eq!(positions(&one), positions(&other));
    assert_eq!(t.twice_area(), -r.twice_area());
    for (f, g) in one.iter().zip(other.iter()) {
        assert_eq!(f.weights.a, -g.weights.a);
        assert_eq!(f.weights.b, -g.weights.c);
        assert_eq!(f.weights.c, -g.weights.b);
    }
}

#[test]
fn off_screen_parts_are_clipped() {
    let t = tri(-10, -10, 30, -10, -10, 30);
    let fragments = raster_triangle(8, 8, &t);
    // the whole 8 by 8 screen lies inside the triangle
    assert_eq!(fragments.len(), 64);
    let far = tri(100, 100, 130, 100, 100, 130);
    assert!(raster_triangle(8, 8, &far).is_empty());
    let left = tri(-30, 2, -20, 2, -30, 6);
    assert!(raster_triangle(8, 8, &left).is_empty());
}

#[test]
fn empty_grid_has_no_fragments() {
    let t = tri(0, 0, 10, 0, 0, 10);
    assert!(raster_triangle(0, 10, &t).is_empty());
    assert!(raster_triangle(10, 0, &t).is_empty());
    assert!(raster_triangle(-4, 10, &t).is_empty());
    assert!(raster_triangle(i32::MIN, i32::MIN, &t).is_empty());
    assert!(t.bounds(0, 10).is_none());
    assert!(t.bounds(10, -1).is_none());
}

#[test]
fn bounds_are_clamped_to_the_grid() {
    let t = tri(-5, 3, 12, 40, 7, -2);
    let b = t.bounds(10, 20).unwrap();
    assert_eq!((b.minx, b.miny, b.maxx, b.maxy), (0, 0, 9, 19));
    let inner = tri(2, 3, 6, 4, 4, 9).bounds(10, 20).unwrap();
    assert_eq!((inner.minx, inner.miny, inner.maxx, inner.maxy), (2, 3, 6, 9));
    // a triangle left of the grid is clamped onto its first column
    let left = tri(-9, 1, -3, 2, -5, 5).bounds(10, 20).unwrap();
    assert_eq!((left.minx, left.maxx), (0, 0));
}

#[test]
fn corners_are_covered() {
    let t = tri(4, 4, 12, 6, 7, 15);
    assert!(t.contains(4, 4));
    assert!(t.contains(12, 6));
    assert!(t.contains(7, 15));
    assert!(!t.contains(3, 4));
    assert!(!t.contains(13, 6));
}

#[test]
fn agrees_with_floating_point_scan() {
    let cases = [
        tri(0, 0, 10, 0, 0, 10),
        tri(2, 1, 30, 9, 11, 27),
        tri(2, 1, 11, 27, 30, 9),
        tri(-20, 5, 50, -7, 13, 70),
        tri(31, 31, 0, 31, 31, 0),
        tri(5, 5, 6, 5, 5, 6),
        tri(0, 0, 63, 1, 1, 47),
        tri(10, 10, 10, 30, 30, 10),
        tri(-100, -100, 200, -90, 20, 300),
        tri(3, 3, 9, 9, 6, 6),
        tri(700, 20, 100, 500, 790, 590),
    ];
    for t in cases.iter() {
        for &(w, h) in [(64, 48), (800, 600), (1, 1), (7, 3)].iter() {
            let exact = positions(&raster_triangle(w, h, t));
            assert_eq!(exact, float_scan(w, h, t));
        }
    }
}

#[test]
fn corners_given_as_numbers_are_rounded_toward_zero() {
    let numbers = [342.857f32, 257.142, 457.9, -0.7, -3.2, 1.0e12];
    let t = Triangle::truncate(
        numbers[0].to_bits(),
        numbers[1].to_bits(),
        numbers[2].to_bits(),
        numbers[3].to_bits(),
        numbers[4].to_bits(),
        numbers[5].to_bits(),
    );
    assert_eq!((t.ax, t.ay, t.bx, t.by, t.cx, t.cy), (342, 257, 457, 0, -3, i32::MAX));
    for (corner, number) in [t.ax, t.ay, t.bx, t.by, t.cx, t.cy].iter().zip(numbers.iter()) {
        assert_eq!(*corner, *number as i32);
    }
    let nan = f32::NAN.to_bits();
    let none = Triangle::truncate(nan, nan, nan, nan, nan, nan);
    assert!(raster_triangle(10, 10, &none).is_empty());
}
