use alpha_bleeding::{alpha_bleeding, perform_alpha_bleeding_aux, Raster};

fn raster(width: u32, height: u32, pixels: &[(u8, u8, u8, u8)]) -> Raster {
    let mut data = Vec::new();
    for &(r, g, b, a) in pixels {
        data.push(r);
        data.push(g);
        data.push(b);
        data.push(a);
    }
    Raster::from_raw(width, height, data).unwrap()
}

fn pixels(raster: &Raster) -> Vec<(u8, u8, u8, u8)> {
    let mut out = Vec::new();
    for y in 0..raster.height() {
        for x in 0..raster.width() {
            let p = raster.get_pixel(x, y);
            out.push((p.r, p.g, p.b, p.a));
        }
    }
    out
}

fn bled(width: u32, height: u32, input: &[(u8, u8, u8, u8)]) -> Vec<(u8, u8, u8, u8)> {
    let mut image = raster(width, height, input);
    alpha_bleeding(&mut image);
    pixels(&image)
}

const T: (u8, u8, u8, u8) = (0, 0, 0, 0);

#[test]
fn lib_test_alpha_bleeding() {
    // A red dot in the middle of a transparent 3 x 3 image colours all of it.
    let red = (200, 10, 30, 255);
    let mut image = raster(3, 3, &[T, T, T, T, red, T, T, T, T]);
    alpha_bleeding(&mut image);
    let halo = (200, 10, 30, 0);
    assert_eq!(pixels(&image), vec![halo, halo, halo, halo, red, halo, halo, halo, halo]);
}

#[test]
fn alpha_bleeding_test_alpha_bleeding() {
    let red = (200, 10, 30, 255);
    let source = raster(3, 3, &[T, T, T, T, red, T, T, T, T]);
    let target = perform_alpha_bleeding_aux(&source);
    let halo = (200, 10, 30, 0);
    assert_eq!(pixels(&target), vec![halo, halo, halo, halo, red, halo, halo, halo, halo]);
    assert_eq!(pixels(&source), vec![T, T, T, T, red, T, T, T, T]);
}

#[test]
fn a_row_bleeds_from_both_ends() {
    let out = bled(3, 1, &[(255, 0, 0, 255), (0, 0, 0, 0), (0, 0, 255, 255)]);
    assert_eq!(out, vec![(255, 0, 0, 255), (127, 0, 127, 0), (0, 0, 255, 255)]);
}

#[test]
fn a_diagonal_neighbor_weighs_as_much_as_one_beside() {
    // (0, 0) has (1, 0) beside it and (1, 1) across the corner.
    let out = bled(2, 2, &[T, (200, 0, 0, 255), (9, 9, 9, 0), (0, 200, 0, 255)]);
    assert_eq!(out[0], (100, 100, 0, 0));
    assert_eq!(out[2], (100, 100, 0, 0));
    assert_eq!(out[1], (200, 0, 0, 255));
    assert_eq!(out[3], (0, 200, 0, 255));
}

#[test]
fn the_mean_drops_the_remainder() {
    // (1 + 2) / 2 = 1, (255 + 0 + 0) / 3 = 85, (2 + 2 + 3) / 3 = 2
    let out = bled(3, 1, &[(1, 255, 2, 255), T, (2, 0, 3, 9)]);
    assert_eq!(out[1], (1, 127, 2, 0));
    let out = bled(2, 2, &[T, (255, 2, 0, 1), (0, 2, 0, 1), (0, 3, 255, 1)]);
    assert_eq!(out[0], (85, 2, 85, 0));
}

#[test]
fn any_alpha_above_zero_is_opaque() {
    let out = bled(2, 1, &[(10, 20, 30, 1), (7, 7, 7, 0)]);
    assert_eq!(out, vec![(10, 20, 30, 1), (10, 20, 30, 0)]);
}

#[test]
fn the_colour_of_a_transparent_pixel_is_not_read() {
    let out = bled(3, 1, &[(200, 100, 50, 255), (1, 2, 3, 0), (250, 250, 250, 0)]);
    assert_eq!(out, vec![(200, 100, 50, 255), (200, 100, 50, 0), (200, 100, 50, 0)]);
}

#[test]
fn alpha_is_kept() {
    let input = [(1, 2, 3, 0), (4, 5, 6, 7), (8, 9, 10, 0), (11, 12, 13, 255), T, (1, 1, 1, 128)];
    let out = bled(3, 2, &input);
    for i in 0..input.len() {
        assert_eq!(out[i].3, input[i].3);
    }
}

#[test]
fn opaque_pixels_are_kept() {
    let input = [(1, 2, 3, 0), (4, 5, 6, 7), (8, 9, 10, 0), (11, 12, 13, 255), T, (1, 1, 1, 128)];
    let out = bled(3, 2, &input);
    for i in 0..input.len() {
        if input[i].3 > 0 {
            assert_eq!(out[i], input[i]);
        }
    }
}

#[test]
fn an_opaque_image_is_kept() {
    let input = [(1, 2, 3, 4), (5, 6, 7, 8), (9, 10, 11, 12), (13, 14, 15, 255)];
    assert_eq!(bled(2, 2, &input), input.to_vec());
}

#[test]
fn a_transparent_image_is_kept() {
    let input = [(1, 2, 3, 0), (5, 6, 7, 0), (9, 10, 11, 0), (13, 14, 15, 0)];
    assert_eq!(bled(2, 2, &input), input.to_vec());
}

#[test]
fn an_image_without_pixels_is_kept() {
    assert_eq!(bled(0, 0, &[]), vec![]);
    assert_eq!(bled(4, 0, &[]), vec![]);
    assert_eq!(bled(0, 4, &[]), vec![]);
}

#[test]
fn a_single_pixel_is_kept() {
    assert_eq!(bled(1, 1, &[(1, 2, 3, 0)]), vec![(1, 2, 3, 0)]);
    assert_eq!(bled(1, 1, &[(1, 2, 3, 9)]), vec![(1, 2, 3, 9)]);
}

#[test]
fn bleeding_twice_is_bleeding_once() {
    let input = [
        T, T, T, T, T,
        T, (255, 0, 0, 255), T, T, T,
        T, T, T, (0, 90, 255, 3), T,
        (7, 7, 7, 0), T, T, T, T,
    ];
    let mut image = raster(5, 4, &input);
    alpha_bleeding(&mut image);
    let once = pixels(&image);
    alpha_bleeding(&mut image);
    assert_eq!(pixels(&image), once);
}

#[test]
fn colour_travels_through_pixels_coloured_before() {
    // Two red and one blue pixel: the second column is coloured from the
    // first, the third from the second and the fourth, not from the first.
    let red = (255, 0, 0, 255);
    let blue = (0, 0, 255, 255);
    let out = bled(4, 1, &[red, T, T, blue]);
    assert_eq!(out, vec![red, (255, 0, 0, 0), (0, 0, 255, 0), blue]);
    let out = bled(5, 1, &[red, T, T, T, blue]);
    assert_eq!(out, vec![red, (255, 0, 0, 0), (127, 0, 127, 0), (0, 0, 255, 0), blue]);
}

#[test]
fn a_wave_reads_the_image_as_it_was_before_the_wave() {
    // Both transparent pixels of the first wave read only the opaque pixel
    // between them; the outer ones follow in the second wave.
    let out = bled(5, 1, &[T, T, (90, 60, 30, 200), T, T]);
    assert_eq!(
        out,
        vec![(90, 60, 30, 0), (90, 60, 30, 0), (90, 60, 30, 200), (90, 60, 30, 0), (90, 60, 30, 0)]
    );
    // In a 3 x 2 image with one opaque corner, the far column is coloured in
    // the second wave from both pixels of the middle column.
    let out = bled(3, 2, &[(100, 0, 0, 255), T, T, T, T, T]);
    assert_eq!(out[1], (100, 0, 0, 0));
    assert_eq!(out[3], (100, 0, 0, 0));
    assert_eq!(out[4], (100, 0, 0, 0));
    assert_eq!(out[2], (100, 0, 0, 0));
    assert_eq!(out[5], (100, 0, 0, 0));
}

#[test]
fn spare_samples_are_kept() {
    let mut image =
        Raster::from_raw(2, 1, vec![10, 20, 30, 255, 0, 0, 0, 0, 77, 88, 99]).unwrap();
    alpha_bleeding(&mut image);
    assert_eq!(image.into_raw(), vec![10, 20, 30, 255, 10, 20, 30, 0, 77, 88, 99]);
}

#[test]
fn the_copy_is_bled_and_the_source_is_not() {
    let source = raster(2, 1, &[(10, 20, 30, 255), T]);
    let target = perform_alpha_bleeding_aux(&source);
    assert_eq!(pixels(&source), vec![(10, 20, 30, 255), T]);
    assert_eq!(pixels(&target), vec![(10, 20, 30, 255), (10, 20, 30, 0)]);
}

/// Bleeding written out the plain way: two buffers, one wave after the
/// other over the whole image.
fn bled_plainly(width: usize, height: usize, input: &[(u8, u8, u8, u8)]) -> Vec<(u8, u8, u8, u8)> {
    let mut now = input.to_vec();
    loop {
        let mut then = now.clone();
        let mut changed = false;
        for y in 0..height {
            for x in 0..width {
                if now[y * width + x].3 != 0 {
                    continue;
                }
                let (mut r, mut g, mut b, mut n) = (0u32, 0u32, 0u32, 0u32);
                for dy in [-1i64, 0, 1] {
                    for dx in [-1i64, 0, 1] {
                        let (u, v) = (x as i64 + dx, y as i64 + dy);
                        if (dx, dy) == (0, 0) || u < 0 || v < 0 {
                            continue;
                        }
                        if u >= width as i64 || v >= height as i64 {
                            continue;
                        }
                        let p = now[v as usize * width + u as usize];
                        if p.3 != 0 {
                            r += p.0 as u32;
                            g += p.1 as u32;
                            b += p.2 as u32;
                            n += 1;
                        }
                    }
                }
                if n > 0 {
                    then[y * width + x] = ((r / n) as u8, (g / n) as u8, (b / n) as u8, 255);
                    changed = true;
                }
            }
        }
        now = then;
        if !changed {
            break;
        }
    }
    for i in 0..now.len() {
        now[i].3 = input[i].3;
    }
    now
}

#[test]
fn bleeding_agrees_with_the_plain_way() {
    let mut seed: u32 = 12345;
    let mut draw = move || {
        seed = seed.wrapping_mul(1664525).wrapping_add(1013904223);
        (seed >> 16) as u8
    };
    for round in 0..200usize {
        let width = 1 + round % 7;
        let height = 1 + (round / 7) % 5;
        let mut input = Vec::new();
        for _ in 0..width * height {
            let opaque = draw() % 5 == 0;
            let alpha = if opaque { 1 + draw() % 255 } else { 0 };
            input.push((draw(), draw(), draw(), alpha));
        }
        assert_eq!(
            bled(width as u32, height as u32, &input),
            bled_plainly(width, height, &input)
        );
    }
}
