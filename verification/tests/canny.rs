use cctag::filter::canny::{recoded_canny, CannyWorkspace};
use cctag::filter::thinning::{image_iter, thin};
use cctag::image::{I16Plane, Plane};

fn magnitudes(dx: &I16Plane, dy: &I16Plane) -> Plane<i32> {
    let data = dx
        .data
        .iter()
        .zip(dy.data.iter())
        .map(|(&x, &y)| {
            let (x, y) = (x as f32, y as f32);
            (x * x + y * y).sqrt().round_ties_even() as i32
        })
        .collect();
    Plane::from_vec(dx.w, dx.h, data)
}

/// A vertical step edge: strong horizontal gradient in column 3.
fn step(w: usize, h: usize, col: usize, g: i16) -> (I16Plane, I16Plane) {
    let mut dx = Plane::new(w, h);
    let dy = Plane::new(w, h);
    for y in 0..h {
        dx.set(col, y, g);
        dx.set(col - 1, y, g / 2);
        dx.set(col + 1, y, g / 2);
    }
    (dx, dy)
}

#[test]
fn canny_marks_ridge_of_vertical_step() {
    let (dx, dy) = step(8, 6, 3, 100);
    let mag = magnitudes(&dx, &dy);
    let mut edges = Plane::new(0, 0);
    let mut ws = CannyWorkspace::default();
    recoded_canny(&dx, &dy, &mag, 10, 40, &mut edges, &mut ws);
    assert_eq!((edges.w, edges.h), (8, 6));
    for y in 0..6 {
        for x in 0..8 {
            let expect = if x == 3 { 255 } else { 0 };
            assert_eq!(edges.at(x, y), expect, "pixel ({x}, {y})");
        }
    }
}

#[test]
fn canny_weak_ridge_needs_a_seed() {
    // magnitude 30: above low (10) but below high (40) everywhere -> no seed.
    let (dx, dy) = step(8, 6, 3, 30);
    let mag = magnitudes(&dx, &dy);
    let mut edges = Plane::new(0, 0);
    let mut ws = CannyWorkspace::default();
    recoded_canny(&dx, &dy, &mag, 10, 40, &mut edges, &mut ws);
    assert!(edges.data.iter().all(|&v| v == 0));
}

#[test]
fn canny_hysteresis_follows_weak_pixels_from_a_seed() {
    let (mut dx, dy) = step(8, 6, 3, 30);
    dx.set(3, 0, 100); // one strong pixel at the top of the ridge
    let mag = magnitudes(&dx, &dy);
    let mut edges = Plane::new(0, 0);
    let mut ws = CannyWorkspace::default();
    recoded_canny(&dx, &dy, &mag, 10, 40, &mut edges, &mut ws);
    for y in 0..6 {
        assert_eq!(edges.at(3, y), 255, "row {y}");
        assert_eq!(edges.at(2, y), 0);
        assert_eq!(edges.at(4, y), 0);
    }
}

#[test]
fn canny_empty_image() {
    let dx: I16Plane = Plane::new(0, 3);
    let dy: I16Plane = Plane::new(0, 3);
    let mag = Plane::new(0, 3);
    let mut edges = Plane::filled(2, 2, 7u8);
    let mut ws = CannyWorkspace::default();
    recoded_canny(&dx, &dy, &mag, 1, 2, &mut edges, &mut ws);
    assert_eq!((edges.w, edges.h), (0, 3));
    assert!(edges.data.is_empty());
}

#[test]
fn canny_below_low_threshold_is_never_an_edge() {
    let (dx, dy) = step(8, 6, 3, 100);
    let mag = magnitudes(&dx, &dy);
    let mut edges = Plane::new(0, 0);
    let mut ws = CannyWorkspace::default();
    recoded_canny(&dx, &dy, &mag, 200, 400, &mut edges, &mut ws);
    assert!(edges.data.iter().all(|&v| v == 0));
}

#[test]
fn thinning_pass_uses_neighbourhood_index() {
    // a 3x3 block with only the centre and its right neighbour set
    let mut inp = Plane::filled(3, 3, 0u8);
    inp.set(1, 1, 255);
    inp.set(2, 1, 255);
    let mut lut = [0u8; 512];
    lut[16 + 128] = 77;
    let mut out = Plane::filled(3, 3, 5u8);
    image_iter(&inp, &mut out, &lut);
    // only the interior pixel (1, 1) is rewritten
    assert_eq!(out.at(1, 1), 77);
    for (x, y) in [(0, 0), (1, 0), (2, 0), (0, 1), (2, 1), (0, 2), (1, 2), (2, 2)] {
        assert_eq!(out.at(x, y), 5);
    }
}

#[test]
fn thinning_pass_clears_unset_interior_pixels() {
    let inp = Plane::filled(4, 4, 0u8);
    let lut = [255u8; 512];
    let mut out = Plane::filled(4, 4, 9u8);
    image_iter(&inp, &mut out, &lut);
    for y in 0..4 {
        for x in 0..4 {
            let interior = (1..3).contains(&x) && (1..3).contains(&y);
            assert_eq!(out.at(x, y), if interior { 0 } else { 9 });
        }
    }
}

#[test]
fn thin_keeps_border_and_zeroes_temp_border() {
    let mut img = Plane::filled(5, 4, 255u8);
    let mut temp = Plane::filled(2, 2, 9u8);
    let keep = [255u8; 512];
    thin(&mut img, &mut temp, &keep, &keep);
    assert_eq!((temp.w, temp.h), (5, 4));
    for y in 0..4 {
        for x in 0..5 {
            let interior = (1..4).contains(&x) && (1..3).contains(&y);
            assert_eq!(temp.at(x, y), if interior { 255 } else { 0 });
            assert_eq!(img.at(x, y), 255);
        }
    }
    let clear = [0u8; 512];
    thin(&mut img, &mut temp, &clear, &keep);
    for y in 0..4 {
        for x in 0..5 {
            let interior = (1..4).contains(&x) && (1..3).contains(&y);
            assert_eq!(img.at(x, y), if interior { 0 } else { 255 });
        }
    }
}

#[test]
fn canny_raising_thresholds_never_adds_edges() {
    // A pseudo-random gradient field, run at a ladder of thresholds.
    let (w, h) = (12usize, 9usize);
    let mut seed = 12345u32;
    let mut next = || {
        seed = seed.wrapping_mul(1664525).wrapping_add(1013904223);
        ((seed >> 16) % 201) as i16 - 100
    };
    let dx = Plane::from_vec(w, h, (0..w * h).map(|_| next()).collect());
    let dy = Plane::from_vec(w, h, (0..w * h).map(|_| next()).collect());
    let mag = magnitudes(&dx, &dy);
    let run = |low: i32, high: i32| {
        let mut edges = Plane::new(0, 0);
        let mut ws = CannyWorkspace::default();
        recoded_canny(&dx, &dy, &mag, low, high, &mut edges, &mut ws);
        edges
    };
    let ladder = [(0, 20), (10, 20), (10, 60), (40, 60), (40, 120)];
    let mut total = Vec::new();
    for k in 1..ladder.len() {
        let lower = run(ladder[k - 1].0, ladder[k - 1].1);
        let higher = run(ladder[k].0, ladder[k].1);
        for i in 0..w * h {
            assert!(higher.data[i] != 255 || lower.data[i] == 255, "pixel {i} at step {k}");
        }
        total.push(lower.data.iter().filter(|&&v| v == 255).count());
    }
    assert!(total[0] > 0);
}
