use sound_locator::gui::{
    apply_delta_y, init_box, init_point, init_vector, is_in_box, limit, print_box, print_vector,
    remove_vector, sqrt, Pixel, BACKGROUND_COLOR, FIRST_COLOR, THIRD_COLOR, X_DIM_RES, Y_DIM_RES,
};

fn coords(pixels: &[Pixel]) -> Vec<(u16, u16)> {
    pixels.iter().map(|p| (p.x, p.y)).collect()
}

/// The line drawing written the plain way, step by step.
fn reference_line(dx: i16, dy: i16, fx: i16, fy: i16) -> Vec<(u16, u16)> {
    let clamp = |p: i32, d: i32| -> u16 {
        if p < 0 {
            0
        } else if p >= d {
            (d - 1) as u16
        } else {
            p as u16
        }
    };
    let (dx, dy) = (dx as i32, dy as i32);
    let (mut ssx, mut ssy, mut sdx, mut sdy) = (0, 0, 0, 0);
    if dx < 0 {
        ssx = -1;
        sdx = -1;
    } else if dx > 0 {
        ssx = 1;
        sdx = 1;
    }
    if dy < 0 {
        ssy = -1;
    } else if dy > 0 {
        ssy = 1;
    }
    let mut l = dx.abs();
    let mut s = dy.abs();
    if !(l > s) {
        l = s;
        s = dx.abs();
        sdy = ssy;
        sdx = 0;
    }
    let mut n = l / 2;
    let (mut cx, mut cy) = (fx as i32, fy as i32);
    let mut out = Vec::new();
    for _ in 0..l + 1 {
        out.push((clamp(cx, 480), clamp(cy, 272)));
        n += s;
        if n >= l {
            n -= l;
            cx += ssx;
            cy += ssy;
        } else {
            cx += sdx;
            cy += sdy;
        }
    }
    out
}

#[test]
fn initializers_store_their_arguments() {
    let p = init_point(-3, 7);
    assert_eq!((p.x, p.y), (-3, 7));
    let v = init_vector(126, -4);
    assert_eq!((v.delta_x, v.delta_y, v.last_anchor.x, v.last_anchor.y), (126, -4, 0, 0));
    let b = init_box(init_point(20, 217), 50, 40, THIRD_COLOR);
    assert_eq!((b.start.x, b.start.y, b.length_x, b.length_y, b.color), (20, 217, 50, 40, THIRD_COLOR));
}

#[test]
fn limit_clamps_to_the_display() {
    assert_eq!(limit(-1, X_DIM_RES), 0);
    assert_eq!(limit(-32768, Y_DIM_RES), 0);
    assert_eq!(limit(0, X_DIM_RES), 0);
    assert_eq!(limit(479, X_DIM_RES), 479);
    assert_eq!(limit(480, X_DIM_RES), 479);
    assert_eq!(limit(32767, X_DIM_RES), 479);
    assert_eq!(limit(271, Y_DIM_RES), 271);
    assert_eq!(limit(272, Y_DIM_RES), 271);
    assert_eq!(limit(100, Y_DIM_RES), 100);
}

#[test]
fn limit_reads_a_large_border_as_negative() {
    // 40000 as i16 is -25536: every non-negative position lies past it.
    assert_eq!(limit(5, 40000), -25537);
}

#[test]
fn is_in_box_is_half_open() {
    let b = init_box(init_point(20, 217), 50, 50, THIRD_COLOR);
    assert!(is_in_box(20, 217, &b));
    assert!(is_in_box(69, 266, &b));
    assert!(is_in_box(40, 240, &b));
    assert!(!is_in_box(70, 217, &b));
    assert!(!is_in_box(20, 267, &b));
    assert!(!is_in_box(19, 240, &b));
    assert!(!is_in_box(40, 216, &b));
    let empty = init_box(init_point(5, 5), 0, 10, THIRD_COLOR);
    assert!(!is_in_box(5, 5, &empty));
}

#[test]
fn is_in_box_reads_large_touch_coordinates_as_negative() {
    let b = init_box(init_point(-10, -10), 20, 20, THIRD_COLOR);
    // 65535 as i16 is -1.
    assert!(is_in_box(65535, 65535, &b));
    assert!(!is_in_box(65535, 10, &b));
}

#[test]
fn sqrt_small_values() {
    assert_eq!(sqrt(-5), 0);
    assert_eq!(sqrt(0), 0);
    assert_eq!(sqrt(1), 1);
    assert_eq!(sqrt(2), 1);
    assert_eq!(sqrt(3), 2);
    assert_eq!(sqrt(4), 2);
    assert_eq!(sqrt(8), 2);
    assert_eq!(sqrt(10), 3);
    assert_eq!(sqrt(99), 10);
    assert_eq!(sqrt(120), 11);
    assert_eq!(sqrt(5876), 76);
    assert_eq!(sqrt(15875), 126);
    assert_eq!(sqrt(15876), 126);
    assert_eq!(sqrt(32767), 181);
}

#[test]
fn sqrt_is_exact_on_perfect_squares() {
    for k in 1..=181i16 {
        assert_eq!(sqrt(k * k), k);
    }
}

#[test]
fn sqrt_is_within_one_of_the_root() {
    for a in 1..=i16::MAX {
        let r = sqrt(a) as i32;
        let a = a as i32;
        assert!((r - 1) * (r - 1) <= a && a < (r + 1) * (r + 1), "a = {}, r = {}", a, r);
    }
}

#[test]
fn apply_delta_y_keeps_the_length() {
    let mut v = init_vector(0, 0);
    v.last_anchor = init_point(240, 136);
    apply_delta_y(&mut v, 0);
    assert_eq!((v.delta_x, v.delta_y), (126, 0));
    apply_delta_y(&mut v, 100);
    assert_eq!((v.delta_x, v.delta_y), (76, 100));
    apply_delta_y(&mut v, -50);
    assert_eq!((v.delta_x, v.delta_y), (115, -50));
    apply_delta_y(&mut v, 126);
    assert_eq!((v.delta_x, v.delta_y), (0, 126));
    apply_delta_y(&mut v, -181);
    assert_eq!((v.delta_x, v.delta_y), (0, -181));
    assert_eq!((v.last_anchor.x, v.last_anchor.y), (240, 136));
    for dy in -125..=125i16 {
        apply_delta_y(&mut v, dy);
        let dx = v.delta_x as i32;
        let dy = dy as i32;
        assert!((dx - 1) * (dx - 1) + dy * dy <= 15876 && 15876 < (dx + 1) * (dx + 1) + dy * dy);
    }
}

#[test]
fn print_box_fills_column_by_column() {
    let b = init_box(init_point(3, 4), 2, 3, FIRST_COLOR);
    let pixels = print_box(&b);
    assert_eq!(coords(&pixels), vec![(3, 4), (3, 5), (3, 6), (4, 4), (4, 5), (4, 6)]);
    assert!(pixels.iter().all(|p| p.color == FIRST_COLOR));
}

#[test]
fn print_box_clamps_to_the_display() {
    let b = init_box(init_point(478, -1), 3, 2, FIRST_COLOR);
    let pixels = print_box(&b);
    assert_eq!(coords(&pixels), vec![(478, 0), (478, 0), (479, 0), (479, 0), (479, 0), (479, 0)]);
    let c = init_box(init_point(235, 131), 10, 10, FIRST_COLOR);
    let pixels = print_box(&c);
    assert_eq!(pixels.len(), 100);
    assert!(pixels.iter().all(|p| p.x < X_DIM_RES && p.y < Y_DIM_RES));
}

#[test]
fn print_box_of_empty_or_negative_size_is_empty() {
    assert!(print_box(&init_box(init_point(0, 0), 0, 5, FIRST_COLOR)).is_empty());
    assert!(print_box(&init_box(init_point(0, 0), 5, 0, FIRST_COLOR)).is_empty());
    // 65535 as i16 is -1: the loop over x is empty.
    assert!(print_box(&init_box(init_point(0, 0), 65535, 5, FIRST_COLOR)).is_empty());
}

#[test]
fn print_vector_shallow_line() {
    let mut v = init_vector(4, 2);
    let pixels = print_vector(&mut v, 0, 0, FIRST_COLOR);
    assert_eq!(coords(&pixels), vec![(0, 0), (1, 1), (2, 1), (3, 2), (4, 2)]);
    assert!(pixels.iter().all(|p| p.color == FIRST_COLOR));
    assert_eq!((v.last_anchor.x, v.last_anchor.y, v.delta_x, v.delta_y), (0, 0, 4, 2));
}

#[test]
fn print_vector_steep_and_negative_lines() {
    let mut v = init_vector(-3, 5);
    let pixels = print_vector(&mut v, 10, 10, FIRST_COLOR);
    assert_eq!(coords(&pixels), vec![(10, 10), (9, 11), (9, 12), (8, 13), (8, 14), (7, 15)]);
    let mut w = init_vector(2, -7);
    let pixels = print_vector(&mut w, 1, 1, FIRST_COLOR);
    assert_eq!(
        coords(&pixels),
        vec![(1, 1), (1, 0), (2, 0), (2, 0), (2, 0), (2, 0), (3, 0), (3, 0)]
    );
    let mut d = init_vector(-5, -5);
    let pixels = print_vector(&mut d, 2, 2, FIRST_COLOR);
    assert_eq!(coords(&pixels), vec![(2, 2), (1, 1), (0, 0), (0, 0), (0, 0), (0, 0)]);
}

#[test]
fn print_vector_of_zero_vector_is_one_pixel() {
    let mut v = init_vector(0, 0);
    let pixels = print_vector(&mut v, 7, 8, FIRST_COLOR);
    assert_eq!(coords(&pixels), vec![(7, 8)]);
    assert_eq!((v.last_anchor.x, v.last_anchor.y), (7, 8));
}

#[test]
fn print_vector_horizontal_from_the_centre() {
    let mut v = init_vector(126, 0);
    let pixels = print_vector(&mut v, 240, 136, FIRST_COLOR);
    assert_eq!(pixels.len(), 127);
    for (k, p) in pixels.iter().enumerate() {
        assert_eq!((p.x, p.y), (240 + k as u16, 136));
    }
}

#[test]
fn print_vector_matches_the_plain_algorithm() {
    for dx in -20..=20i16 {
        for dy in -20..=20i16 {
            for &(fx, fy) in &[(240i16, 136i16), (0, 0), (475, 2)] {
                let mut v = init_vector(dx, dy);
                let pixels = print_vector(&mut v, fx, fy, FIRST_COLOR);
                assert_eq!(coords(&pixels), reference_line(dx, dy, fx, fy));
                assert_eq!(pixels.len() as i16, dx.abs().max(dy.abs()) + 1);
            }
        }
    }
}

#[test]
fn remove_vector_repaints_the_last_drawing_in_background() {
    let mut v = init_vector(76, -100);
    let drawn = print_vector(&mut v, 240, 136, FIRST_COLOR);
    let erased = remove_vector(&mut v);
    assert_eq!(coords(&drawn), coords(&erased));
    assert!(erased.iter().all(|p| p.color == BACKGROUND_COLOR));
    assert_eq!((v.delta_x, v.delta_y, v.last_anchor.x, v.last_anchor.y), (76, -100, 240, 136));
}

#[test]
fn remove_vector_of_a_fresh_vector_starts_at_the_origin() {
    let mut v = init_vector(3, 1);
    let erased = remove_vector(&mut v);
    assert_eq!(coords(&erased), vec![(0, 0), (1, 0), (2, 1), (3, 1)]);
}

#[test]
fn lines_run_from_the_anchor_to_anchor_plus_delta_in_touching_steps() {
    for dx in -30..=30i16 {
        for dy in -30..=30i16 {
            let mut v = init_vector(dx, dy);
            let pixels = print_vector(&mut v, 240, 136, FIRST_COLOR);
            let first = pixels[0];
            let last = pixels[pixels.len() - 1];
            assert_eq!((first.x, first.y), (240, 136));
            assert_eq!((last.x as i16, last.y as i16), (240 + dx, 136 + dy));
            for w in pixels.windows(2) {
                assert!((w[1].x as i32 - w[0].x as i32).abs() <= 1);
                assert!((w[1].y as i32 - w[0].y as i32).abs() <= 1);
            }
        }
    }
}
