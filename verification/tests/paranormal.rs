use paranormal::color::cell_rgb;
use paranormal::color::hue;
use paranormal::grid::Grid;
use paranormal::grid::GridError;
use paranormal::grid::Window;
use paranormal::pipeline::process;
use paranormal::propagate::step;
use paranormal::stage::angle_mag;
use paranormal::stage::grayscale;
use paranormal::stage::isqrt;
use paranormal::stage::sobel;
use paranormal::stage::Cell;
use paranormal::Rgb;

fn px(r: u8, g: u8, b: u8) -> Rgb {
    Rgb { r, g, b }
}

fn color_grid(w: usize, h: usize, cells: Vec<Rgb>) -> Grid<Rgb> {
    Grid::new(w, h, cells).unwrap()
}

/// The 3x3 neighborhood maximum magnitude of `(x, y)`, scanned dx outer and
/// dy inner with later ties winning, recomputed independently of the library.
fn neighborhood_best(g: &Grid<Cell>, x: usize, y: usize) -> Cell {
    let w = Window { grid: g, x, y };
    let mut best = *w.get(-1, -1);
    for dx in -1..=1i64 {
        for dy in -1..=1i64 {
            let c = *w.get(dx as isize, dy as isize);
            if c.mag >= best.mag {
                best = c;
            }
        }
    }
    best
}

#[test]
fn new_rejects_zero_width() {
    match Grid::<u8>::new(0, 2, vec![]) {
        Err(e) => assert_eq!(e, GridError::InvalidDimensions),
        Ok(_) => panic!("zero width must be rejected"),
    }
}

#[test]
fn new_rejects_zero_height() {
    match Grid::<u8>::new(2, 0, vec![1, 2]) {
        Err(e) => assert_eq!(e, GridError::InvalidDimensions),
        Ok(_) => panic!("zero height must be rejected"),
    }
}

#[test]
fn new_rejects_length_mismatch() {
    match Grid::<u8>::new(2, 2, vec![1, 2, 3]) {
        Err(e) => assert_eq!(e, GridError::InvalidDimensions),
        Ok(_) => panic!("short buffer must be rejected"),
    }
}

#[test]
fn clamped_access_replicates_border() {
    let g = Grid::new(3, 3, vec![0u8, 1, 2, 3, 4, 5, 6, 7, 8]).unwrap();
    assert_eq!(*g.get(1, 1), 4);
    // far out of range clamps to the nearest corner
    assert_eq!(*g.get(7, 9), 8);
    let top_left = Window { grid: &g, x: 0, y: 0 };
    assert_eq!(*top_left.get(-5, -5), 0);
    assert_eq!(*top_left.get(1, 2), 7);
    let bottom_right = Window { grid: &g, x: 2, y: 2 };
    assert_eq!(*bottom_right.get(5, 5), 8);
    assert_eq!(*bottom_right.get(-2, -2), 0);
}

fn double_center(v: Window<'_, u8>) -> u32 {
    (*v.get(0, 0) as u32) * 2
}

#[test]
fn map_keeps_dimensions_and_anchors() {
    let g = Grid::new(3, 2, vec![0u8, 1, 2, 3, 4, 5]).unwrap();
    let m = g.map(double_center);
    assert_eq!(m.width(), 3);
    assert_eq!(m.height(), 2);
    for y in 0..2 {
        for x in 0..3 {
            assert_eq!(*m.get(x, y), (*g.get(x, y) as u32) * 2);
        }
    }
}

#[test]
fn grayscale_sums_channels() {
    let g = color_grid(2, 1, vec![px(1, 2, 3), px(255, 255, 255)]);
    let gi = grayscale(&g);
    assert_eq!(*gi.get(0, 0), 6);
    assert_eq!(*gi.get(1, 0), 765);
}

#[test]
fn sobel_vertical_edge() {
    // left column black, middle mixed, right column white
    let col = |x: usize| match x {
        0 => px(0, 0, 0),
        1 => px(10, 20, 30),
        _ => px(255, 255, 255),
    };
    let mut cells = Vec::new();
    for _y in 0..3 {
        for x in 0..3 {
            cells.push(col(x));
        }
    }
    let g = color_grid(3, 3, cells);
    let gr = sobel(&grayscale(&g));
    // manual convolution at the center: -(0 + 0 + 0) + (765 + 2*765 + 765)
    assert_eq!(*gr.get(1, 1), (3060, 0));
    // at the left border the clamped reads replicate the black column
    assert_eq!(*gr.get(0, 1), (240, 0));
}

#[test]
fn isqrt_exact_values() {
    assert_eq!(isqrt(0), 0);
    assert_eq!(isqrt(15), 3);
    assert_eq!(isqrt(16), 4);
    assert_eq!(isqrt(24), 4);
    assert_eq!(isqrt(1u64 << 40), 1 << 20);
}

#[test]
fn angle_mag_fixed_point_magnitude() {
    let g = Grid::new(1, 1, vec![(3i16, 4i16)]).unwrap();
    let am = angle_mag(&g);
    let c = *am.get(0, 0);
    assert_eq!(c.gx, 3);
    assert_eq!(c.gy, 4);
    // floor(1024 * sqrt(9 + 16)) == 5 * 1024
    assert_eq!(c.mag, 5120);
}

#[test]
fn hue_exact_values() {
    // gradient along +x is hue 0, along +y a quarter turn
    assert_eq!(hue(1, 0, 1), (0, 1));
    assert_eq!(hue(0, 1, 1), (90, 1));
    // scan order folds the numerator over the denominator |gx| + |gy|
    assert_eq!(hue(1, 1, 1), (45 * 2, 2));
}

#[test]
fn hue_opposite_gradients() {
    // an even quotient (ANGLE_CLASS 180) collapses opposite directions
    assert_eq!(hue(1, 1, 2), hue(-1, -1, 2));
    assert_eq!(hue(2, 3, 2), hue(-2, -3, 2));
    assert_eq!(hue(5, 0, 2), hue(-5, 0, 2));
    // an odd quotient (ANGLE_CLASS 360) keeps them apart
    assert_ne!(hue(1, 1, 1), hue(-1, -1, 1));
    assert_ne!(hue(2, 3, 1), hue(-2, -3, 1));
    assert_eq!(hue(2, 3, 1).1, hue(-2, -3, 1).1);
}

#[test]
fn cell_rgb_exact_values() {
    // zero magnitude is black whatever the direction
    assert_eq!(cell_rgb(Cell { gx: 1, gy: 0, mag: 0 }, 1), px(0, 0, 0));
    // half lightness at hue 0 is pure red
    assert_eq!(cell_rgb(Cell { gx: 1, gy: 0, mag: 2350080 }, 1), px(255, 0, 0));
    // half lightness a quarter turn later sits between red and green
    assert_eq!(cell_rgb(Cell { gx: 0, gy: 1, mag: 2350080 }, 1), px(128, 255, 0));
}

#[test]
fn process_uniform_single_frame() {
    let g = color_grid(3, 3, vec![px(100, 150, 200); 9]);
    let frames = process(&g, 180);
    assert_eq!(frames.len(), 1);
    // a zero gradient everywhere renders to black everywhere
    assert_eq!(*frames[0].get(0, 0), px(0, 0, 0));
    assert_eq!(*frames[0].get(2, 2), px(0, 0, 0));
    assert_eq!(*frames[0].get(1, 0), px(0, 0, 0));
}

#[test]
fn process_single_cell_single_frame() {
    let g = color_grid(1, 1, vec![px(200, 10, 30)]);
    let frames = process(&g, 90);
    assert_eq!(frames.len(), 1);
    assert_eq!(frames[0].width(), 1);
    assert_eq!(frames[0].height(), 1);
}

fn diagonal_grid() -> Grid<Rgb> {
    let mut cells = Vec::new();
    for y in 0..4 {
        for x in 0..4 {
            cells.push(if x == y {
                px(255, 255, 255)
            } else {
                px(0, 0, 0)
            });
        }
    }
    color_grid(4, 4, cells)
}

#[test]
fn process_diagonal_spreads_and_decays() {
    let g = diagonal_grid();
    let frames = process(&g, 360);
    assert!(frames.len() >= 2);
    for f in &frames {
        assert_eq!(f.width(), 4);
        assert_eq!(f.height(), 4);
    }
    // the far corner sees no edge in its Sobel window: black in the first
    // frame, lit once the propagation reaches it
    assert_eq!(*frames[0].get(3, 0), px(0, 0, 0));
    assert_ne!(*frames[1].get(3, 0), px(0, 0, 0));

    // the corner adopts exactly the decayed strongest neighbor
    let am = angle_mag(&sobel(&grayscale(&g)));
    assert_eq!(am.get(3, 0).mag, 0);
    let (am1, changed) = step(&am);
    assert!(changed);
    let best = neighborhood_best(&am, 3, 0);
    assert!(best.mag > 0);
    assert_eq!(am1.get(3, 0).mag, best.mag * 9 / 10);
}

#[test]
fn process_reaches_fixed_point() {
    let g = diagonal_grid();
    let frames = process(&g, 360);
    // replay the propagation: one frame per changed iteration plus the start
    let mut cur = angle_mag(&sobel(&grayscale(&g)));
    let mut iterations = 1usize;
    loop {
        let (nxt, changed) = step(&cur);
        if !changed {
            break;
        }
        cur = nxt;
        iterations += 1;
    }
    assert_eq!(frames.len(), iterations);
    // at termination no cell's decayed strongest neighbor beats it
    for y in 0..4 {
        for x in 0..4 {
            let best = neighborhood_best(&cur, x, y);
            assert!(best.mag * 9 / 10 <= cur.get(x, y).mag);
        }
    }
}
