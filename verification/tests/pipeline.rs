use clifford::{
    accumulate_scaled, real_from_decimal, render, scale_points, CliffordAttractor, Point,
    RenderConfig, RenderError, PRECISION,
};

fn reference_config() -> RenderConfig {
    RenderConfig {
        a: real_from_decimal("-1.7", PRECISION),
        b: real_from_decimal("1.3", PRECISION),
        c: real_from_decimal("-0.1", PRECISION),
        d: real_from_decimal("-1.2", PRECISION),
        seed: Point {
            x: real_from_decimal("1.0", PRECISION),
            y: real_from_decimal("1.0", PRECISION),
        },
        x_min: real_from_decimal("-2.5", PRECISION),
        x_max: real_from_decimal("2.5", PRECISION),
        y_min: real_from_decimal("-2.5", PRECISION),
        y_max: real_from_decimal("2.5", PRECISION),
        width: 50,
        height: 50,
        iterations: 1000,
        prec: PRECISION,
    }
}

#[test]
fn reference_render_has_full_buffer_in_range() {
    let img = render(&reference_config()).unwrap();
    assert_eq!(img.width, 50);
    assert_eq!(img.height, 50);
    assert_eq!(img.pixels.len(), 50 * 50);
}

#[test]
fn reference_histogram_sums_to_in_window_points() {
    let cfg = reference_config();
    let mut gen = CliffordAttractor {
        point: cfg.seed.duplicate(),
        a: cfg.a.duplicate(),
        b: cfg.b.duplicate(),
        c: cfg.c.duplicate(),
        d: cfg.d.duplicate(),
        prec: cfg.prec,
    };
    let points = gen.take_points(1000);
    assert_eq!(points.len(), 1000);
    let pairs = scale_points(&cfg, &points).unwrap();
    let in_window = pairs
        .iter()
        .filter(|p| p.0 >= 0 && p.0 < 50 && p.1 >= 0 && p.1 < 50)
        .count() as u64;
    let hist = accumulate_scaled(&pairs, 50, 50);
    let total: u64 = hist.counts.iter().sum();
    assert_eq!(total, in_window);
    assert!(total <= 1000);
}

#[test]
fn reference_render_max_pixel_is_least_visited() {
    let cfg = reference_config();
    let mut gen = CliffordAttractor {
        point: cfg.seed.duplicate(),
        a: cfg.a.duplicate(),
        b: cfg.b.duplicate(),
        c: cfg.c.duplicate(),
        d: cfg.d.duplicate(),
        prec: cfg.prec,
    };
    let points = gen.take_points(1000);
    let pairs = scale_points(&cfg, &points).unwrap();
    let hist = accumulate_scaled(&pairs, 50, 50);
    let img = render(&cfg).unwrap();
    // 2500 cells and at most 1000 visits: some cell is empty, so the
    // inverted buffer peaks at full white, exactly on the least-visited
    // (empty) cells.
    let maxpix = *img.pixels.iter().max().unwrap();
    assert_eq!(maxpix, 65535);
    for i in 0..2500 {
        if hist.counts[i] == 0 {
            assert_eq!(img.pixels[i], 65535);
        }
    }
}

#[test]
fn two_renders_with_equal_parameters_are_identical() {
    let first = render(&reference_config()).unwrap();
    let second = render(&reference_config()).unwrap();
    assert_eq!(first.pixels, second.pixels);
}

#[test]
fn zero_iterations_render_is_all_white() {
    let mut cfg = reference_config();
    cfg.iterations = 0;
    cfg.width = 4;
    cfg.height = 3;
    let img = render(&cfg).unwrap();
    assert_eq!(img.pixels, vec![65535; 12]);
}

#[test]
fn zero_dimension_is_rejected() {
    let mut cfg = reference_config();
    cfg.width = 0;
    assert!(matches!(render(&cfg), Err(RenderError::ZeroDimension)));
}

#[test]
fn oversized_dimension_is_rejected() {
    let mut cfg = reference_config();
    cfg.width = (u32::MAX as usize) + 2;
    assert!(matches!(render(&cfg), Err(RenderError::DimensionTooLarge)));
}

#[test]
fn overflowing_cell_count_is_rejected() {
    let mut cfg = reference_config();
    cfg.width = (u32::MAX as usize) + 1;
    cfg.height = (u32::MAX as usize) + 1;
    assert!(matches!(render(&cfg), Err(RenderError::TooManyCells)));
}

#[test]
fn degenerate_window_is_rejected() {
    let mut cfg = reference_config();
    cfg.x_max = real_from_decimal("-2.5", PRECISION);
    assert!(matches!(render(&cfg), Err(RenderError::DegenerateRange)));
}

#[test]
fn non_finite_parameters_fail_scaling() {
    let mut cfg = reference_config();
    cfg.a = real_from_decimal("not a number", PRECISION);
    cfg.width = 4;
    cfg.height = 4;
    cfg.iterations = 3;
    assert!(matches!(render(&cfg), Err(RenderError::ScaleFailed)));
}
