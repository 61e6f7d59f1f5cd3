use soft_raster::binary32::{LARGEST, ONE, ZERO};
use soft_raster::raster::Triangle;
use soft_raster::render::{
    clear, clear_depth, depth_test, draw, faces_away, plot, project_triangle, Projected, Sample, FAR,
};

fn frame(width: usize, height: usize) -> (Vec<u8>, Vec<u32>) {
    let mut pixels = vec![7u8; width * height * 4];
    let mut zbuffer = vec![0u32; width * height];
    clear(&mut pixels);
    clear_depth(&mut zbuffer);
    (pixels, zbuffer)
}

fn sample(x: i32, y: i32, depth: f32, colour: (u8, u8, u8)) -> Sample {
    Sample { x, y, depth: depth.to_bits(), red: colour.0, green: colour.1, blue: colour.2 }
}

fn pixel(pixels: &[u8], width: usize, x: usize, y: usize) -> (u8, u8, u8, u8) {
    let i = (y * width + x) * 4;
    (pixels[i], pixels[i + 1], pixels[i + 2], pixels[i + 3])
}

fn projected(facing: f32, inv_w: (f32, f32, f32), screen: Triangle) -> Projected {
    Projected {
        facing: facing.to_bits(),
        inv_w: (inv_w.0.to_bits(), inv_w.1.to_bits(), inv_w.2.to_bits()),
        screen,
    }
}

const RED: (u8, u8, u8) = (200, 10, 20);
const GREEN: (u8, u8, u8) = (15, 210, 25);

#[test]
fn clear_makes_every_pixel_opaque_black() {
    let mut pixels = vec![0x5au8; 4 * 6];
    clear(&mut pixels);
    for p in pixels.chunks(4) {
        assert_eq!(p, [0, 0, 0, 255]);
    }
    let mut none: Vec<u8> = Vec::new();
    clear(&mut none);
    assert!(none.is_empty());
}

#[test]
fn clear_depth_fills_with_the_largest_finite_number() {
    let mut zbuffer = vec![3u32; 10];
    clear_depth(&mut zbuffer);
    assert!(zbuffer.iter().all(|&z| z == FAR));
    assert_eq!(FAR, LARGEST);
    assert_eq!(f32::from_bits(FAR), f32::MAX);
}

#[test]
fn plot_writes_colour_and_depth_and_leaves_alpha() {
    let (mut pixels, mut zbuffer) = frame(4, 3);
    let s = sample(2, 1, 0.25, RED);
    assert!(depth_test(4, 3, &zbuffer, 2, 1, s.depth));
    assert!(plot(4, 3, &mut pixels, &mut zbuffer, &s));
    assert_eq!(pixel(&pixels, 4, 2, 1), (200, 10, 20, 255));
    assert_eq!(zbuffer[1 * 4 + 2], 0.25f32.to_bits());
    for y in 0..3 {
        for x in 0..4 {
            if (x, y) != (2, 1) {
                assert_eq!(pixel(&pixels, 4, x, y), (0, 0, 0, 255));
                assert_eq!(zbuffer[y * 4 + x], FAR);
            }
        }
    }
}

#[test]
fn nearer_sample_is_visible_in_either_order() {
    let near = sample(1, 1, -0.5, RED);
    let far = sample(1, 1, 0.75, GREEN);

    let (mut pixels, mut zbuffer) = frame(3, 3);
    assert!(plot(3, 3, &mut pixels, &mut zbuffer, &near));
    assert!(!plot(3, 3, &mut pixels, &mut zbuffer, &far));
    assert_eq!(pixel(&pixels, 3, 1, 1), (200, 10, 20, 255));
    assert_eq!(zbuffer[4], (-0.5f32).to_bits());

    let (mut pixels2, mut zbuffer2) = frame(3, 3);
    assert!(plot(3, 3, &mut pixels2, &mut zbuffer2, &far));
    assert_eq!(pixel(&pixels2, 3, 1, 1), (15, 210, 25, 255));
    assert!(plot(3, 3, &mut pixels2, &mut zbuffer2, &near));
    assert_eq!(pixels, pixels2);
    assert_eq!(zbuffer, zbuffer2);
}

#[test]
fn later_sample_wins_at_equal_depth() {
    let first = sample(0, 2, 0.5, RED);
    let second = sample(0, 2, 0.5, GREEN);
    let (mut pixels, mut zbuffer) = frame(3, 3);
    draw(3, 3, &mut pixels, &mut zbuffer, &[first, second]);
    assert_eq!(pixel(&pixels, 3, 0, 2), (15, 210, 25, 255));
    let (mut pixels, mut zbuffer) = frame(3, 3);
    draw(3, 3, &mut pixels, &mut zbuffer, &[second, first]);
    assert_eq!(pixel(&pixels, 3, 0, 2), (200, 10, 20, 255));
    // the two zeros are one depth
    let plus = sample(2, 0, 0.0, RED);
    let minus = sample(2, 0, -0.0, GREEN);
    let (mut pixels, mut zbuffer) = frame(3, 3);
    draw(3, 3, &mut pixels, &mut zbuffer, &[plus, minus]);
    assert_eq!(pixel(&pixels, 3, 2, 0), (15, 210, 25, 255));
    assert_eq!(zbuffer[2], (-0.0f32).to_bits());
}

#[test]
fn a_depth_that_is_no_number_never_passes() {
    let (mut pixels, mut zbuffer) = frame(2, 2);
    let s = sample(0, 0, f32::NAN, RED);
    assert!(!depth_test(2, 2, &zbuffer, 0, 0, s.depth));
    assert!(!plot(2, 2, &mut pixels, &mut zbuffer, &s));
    assert_eq!(pixel(&pixels, 2, 0, 0), (0, 0, 0, 255));
    // beyond the cleared depth: infinity fails, the largest finite passes
    assert!(!plot(2, 2, &mut pixels, &mut zbuffer, &sample(0, 0, f32::INFINITY, RED)));
    assert!(plot(2, 2, &mut pixels, &mut zbuffer, &sample(0, 0, f32::MAX, GREEN)));
    assert_eq!(pixel(&pixels, 2, 0, 0), (15, 210, 25, 255));
}

#[test]
fn draw_plots_in_order() {
    let (mut pixels, mut zbuffer) = frame(4, 2);
    let samples = [
        sample(0, 0, 0.9, RED),
        sample(3, 1, 0.1, GREEN),
        sample(0, 0, 0.2, GREEN),
        sample(3, 1, 0.3, RED),
        sample(1, 1, 0.5, RED),
    ];
    draw(4, 2, &mut pixels, &mut zbuffer, &samples);
    assert_eq!(pixel(&pixels, 4, 0, 0), (15, 210, 25, 255));
    assert_eq!(pixel(&pixels, 4, 3, 1), (15, 210, 25, 255));
    assert_eq!(pixel(&pixels, 4, 1, 1), (200, 10, 20, 255));
    assert_eq!(pixel(&pixels, 4, 2, 0), (0, 0, 0, 255));
    assert_eq!(zbuffer[0], 0.2f32.to_bits());
    assert_eq!(zbuffer[7], 0.1f32.to_bits());
    assert_eq!(zbuffer[5], 0.5f32.to_bits());
}

#[test]
fn draw_accepts_buffers_larger_than_the_frame() {
    let mut pixels = vec![9u8; 100];
    let mut zbuffer = vec![FAR; 30];
    draw(2, 2, &mut pixels, &mut zbuffer, &[sample(1, 1, 0.0, RED)]);
    assert_eq!(&pixels[12..16], &[200, 10, 20, 9]);
    assert_eq!(zbuffer[3], ZERO);
    assert!(pixels[16..].iter().all(|&b| b == 9));
}

#[test]
fn back_faces_are_culled_whatever_the_winding() {
    let screen = Triangle { ax: 1, ay: 1, bx: 9, by: 1, cx: 1, cy: 9 };
    let reversed = Triangle { ax: 1, ay: 1, bx: 1, by: 9, cx: 9, cy: 1 };
    let one = (1.0, 1.0, 1.0);
    for &facing in [-1.0f32, -0.0, 0.0, -1.0e-30, f32::NEG_INFINITY].iter() {
        assert!(faces_away(facing.to_bits()));
        assert!(project_triangle(16, 16, &projected(facing, one, screen)).is_empty());
        assert!(project_triangle(16, 16, &projected(facing, one, reversed)).is_empty());
    }
    for &facing in [1.0f32, 1.0e-30, f32::INFINITY, f32::NAN].iter() {
        assert!(!faces_away(facing.to_bits()));
        assert_eq!(project_triangle(16, 16, &projected(facing, one, screen)).len(), 45);
        assert_eq!(project_triangle(16, 16, &projected(facing, one, reversed)).len(), 45);
    }
    assert!(!faces_away(ONE));
}

#[test]
fn corners_behind_the_camera_reject_the_triangle() {
    let screen = Triangle { ax: 1, ay: 1, bx: 9, by: 1, cx: 1, cy: 9 };
    assert_eq!(project_triangle(16, 16, &projected(1.0, (0.5, 2.0, 0.1), screen)).len(), 45);
    assert!(project_triangle(16, 16, &projected(1.0, (-0.5, 2.0, 0.1), screen)).is_empty());
    assert!(project_triangle(16, 16, &projected(1.0, (0.5, 0.0, 0.1), screen)).is_empty());
    assert!(project_triangle(16, 16, &projected(1.0, (0.5, 2.0, -0.0), screen)).is_empty());
    assert!(project_triangle(16, 16, &projected(1.0, (0.5, 2.0, f32::NEG_INFINITY), screen))
        .is_empty());
}

#[test]
fn degenerate_projected_triangle_draws_nothing() {
    let line = Triangle { ax: 0, ay: 0, bx: 4, by: 4, cx: 8, cy: 8 };
    assert!(project_triangle(16, 16, &projected(1.0, (1.0, 1.0, 1.0), line)).is_empty());
    let (mut pixels, mut zbuffer) = frame(16, 16);
    let before = (pixels.clone(), zbuffer.clone());
    draw(16, 16, &mut pixels, &mut zbuffer, &[]);
    assert_eq!((pixels, zbuffer), before);
}

#[test]
fn shaded_sample_cuts_its_channels_to_bytes() {
    let s = Sample::shaded(
        3,
        4,
        0.5f32.to_bits(),
        446.25f32.to_bits(),
        127.999f32.to_bits(),
        (-12.0f32).to_bits(),
    );
    assert_eq!((s.x, s.y, s.depth), (3, 4, 0.5f32.to_bits()));
    assert_eq!((s.red, s.green, s.blue), (255, 127, 0));
    let dark = Sample::shaded(0, 0, 0, f32::NAN.to_bits(), 0.99f32.to_bits(), 1.0f32.to_bits());
    assert_eq!((dark.red, dark.green, dark.blue), (0, 0, 1));
}
