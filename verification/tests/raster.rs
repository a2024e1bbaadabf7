use quark_sim::raster::{
    drawline, line_in_range, particle_color, pixel_fits, plot, Polarity, HEIGHT, WIDTH,
};

const FRAME_LEN: usize = (WIDTH * HEIGHT * 4) as usize;

fn blank() -> Vec<u8> {
    vec![0u8; FRAME_LEN]
}

fn offset(x: usize, y: usize) -> usize {
    (y * WIDTH as usize + x) * 4
}

fn is_grey(frame: &[u8], x: usize, y: usize) -> bool {
    let o = offset(x, y);
    frame[o] == 128 && frame[o + 1] == 128 && frame[o + 2] == 128 && frame[o + 3] == 100
}

/// The pixels that are grey, in row-major order.
fn grey_pixels(frame: &[u8]) -> Vec<(usize, usize)> {
    let mut out = Vec::new();
    for y in 0..HEIGHT as usize {
        for x in 0..WIDTH as usize {
            if is_grey(frame, x, y) {
                out.push((x, y));
            }
        }
    }
    out
}

fn count_nonzero(frame: &[u8]) -> usize {
    frame.iter().filter(|b| **b != 0).count()
}

#[test]
fn horizontal_line_covers_both_endpoints() {
    let mut f = blank();
    drawline(&mut f, 2, 5, 7, 7);
    assert_eq!(grey_pixels(&f), vec![(2, 7), (3, 7), (4, 7), (5, 7)]);
    assert_eq!(count_nonzero(&f), 16);
}

#[test]
fn shallow_line_rounds_to_nearest_row() {
    let mut f = blank();
    drawline(&mut f, 0, 3, 0, 1);
    assert_eq!(grey_pixels(&f), vec![(0, 0), (1, 0), (2, 1), (3, 1)]);
}

#[test]
fn halfway_rounds_toward_the_target() {
    // At x = 2 the exact line is at y = 0.5, which is rounded up.
    let mut f = blank();
    drawline(&mut f, 0, 4, 0, 1);
    assert_eq!(grey_pixels(&f), vec![(0, 0), (1, 0), (2, 1), (3, 1), (4, 1)]);
}

#[test]
fn steep_line_steps_one_row_at_a_time() {
    let mut f = blank();
    drawline(&mut f, 0, 1, 0, 3);
    assert_eq!(grey_pixels(&f), vec![(0, 0), (0, 1), (1, 2), (1, 3)]);
}

#[test]
fn diagonal_line() {
    let mut f = blank();
    drawline(&mut f, 10, 7, 10, 13);
    assert_eq!(grey_pixels(&f), vec![(10, 10), (9, 11), (8, 12), (7, 13)]);
}

#[test]
fn line_has_one_pixel_per_major_step() {
    let mut f = blank();
    drawline(&mut f, 20, 57, 30, 41);
    let pts = grey_pixels(&f);
    assert_eq!(pts.len(), 38);
    assert!(pts.contains(&(20, 30)));
    assert!(pts.contains(&(57, 41)));
    // consecutive columns, rows never jump by more than one
    for w in pts.windows(2) {
        assert_eq!(w[1].0, w[0].0 + 1);
        assert!(w[1].1 == w[0].1 || w[1].1 == w[0].1 + 1);
    }
}

#[test]
fn degenerate_line_is_one_pixel() {
    let mut f = blank();
    drawline(&mut f, 5, 5, 6, 6);
    assert_eq!(grey_pixels(&f), vec![(5, 6)]);
}

#[test]
fn line_takes_the_short_way_round() {
    // From x = 355 to x = 3 the short way is +8 through the right edge.
    let mut f = blank();
    drawline(&mut f, 355, 3, 4, 4);
    let pts = grey_pixels(&f);
    assert_eq!(pts.len(), 9);
    for x in [355usize, 356, 357, 358, 359, 0, 1, 2, 3] {
        assert!(pts.contains(&(x, 4)));
    }
}

#[test]
fn negative_coordinates_wrap_onto_the_screen() {
    let mut f = blank();
    drawline(&mut f, -2, 0, 1, 1);
    assert_eq!(grey_pixels(&f), vec![(0, 1), (358, 1), (359, 1)]);
}

#[test]
fn rows_wrap_by_the_width_and_hidden_rows_are_skipped() {
    // From y = 0 toward y = 350 the short way is -10, i.e. rows 359..350
    // after wrapping, all below the visible 240 rows.
    let mut f = blank();
    drawline(&mut f, 3, 3, 0, 350);
    assert_eq!(grey_pixels(&f), vec![(3, 0)]);
}

#[test]
fn short_frame_is_left_alone_past_its_end() {
    let mut f = vec![0u8; 10];
    drawline(&mut f, 0, 5, 0, 0);
    // only pixel 0 (bytes 0..4) and pixel 1 (bytes 4..8) fit
    assert_eq!(f, vec![128, 128, 128, 100, 128, 128, 128, 100, 0, 0]);
}

#[test]
fn drawing_leaves_other_bytes_unchanged() {
    let mut f = vec![7u8; FRAME_LEN];
    drawline(&mut f, 0, 1, 0, 0);
    assert_eq!(&f[0..8], &[128, 128, 128, 100, 128, 128, 128, 100]);
    assert!(f[8..].iter().all(|b| *b == 7));
}

#[test]
fn range_check_accepts_screen_points() {
    assert!(line_in_range(0, 359, 0, 239));
    assert!(line_in_range(10, 350, 5, 7));
}

#[test]
fn range_check_rejects_overflowing_endpoints() {
    // The offset saturates at i32::MIN, whose magnitude does not fit.
    assert!(!line_in_range(i32::MAX, i32::MIN, 0, 0));
    // Going the short way round pushes the end past i32::MAX.
    assert!(!line_in_range(i32::MAX - 5, i32::MAX - 300, 0, 0));
    assert!(!line_in_range(0, 0, i32::MIN + 5, i32::MIN + 300));
}

#[test]
fn plot_sets_an_opaque_pixel() {
    let mut f = blank();
    plot(&mut f, 3, 2, (1, 2, 3));
    let o = offset(3, 2);
    assert_eq!(&f[o..o + 4], &[1, 2, 3, 255]);
    assert_eq!(count_nonzero(&f), 4);
}

#[test]
fn plot_ignores_off_screen_pixels() {
    let mut f = blank();
    plot(&mut f, -1, 0, (9, 9, 9));
    plot(&mut f, 360, 0, (9, 9, 9));
    plot(&mut f, 0, 240, (9, 9, 9));
    plot(&mut f, 0, -3, (9, 9, 9));
    assert_eq!(count_nonzero(&f), 0);
}

#[test]
fn colours_by_polarity() {
    assert_eq!(particle_color(Polarity::Positive), (0, 200, 255));
    assert_eq!(particle_color(Polarity::Negative), (255, 50, 50));
    assert_eq!(particle_color(Polarity::Neutral), (255, 255, 255));
}

#[test]
fn pixel_fits_checks_only_on_screen_pixels() {
    assert!(pixel_fits(FRAME_LEN, 359, 239));
    assert!(!pixel_fits(FRAME_LEN - 1, 359, 239));
    assert!(pixel_fits(0, -1, 0));
    assert!(pixel_fits(0, 0, 240));
    assert!(!pixel_fits(0, 0, 0));
    assert!(pixel_fits(4, 0, 0));
}
