use alpha_bleeding::{AlphaBleeder, Position, Raster, Rgba};

fn raster(width: u32, height: u32, pixels: &[(u8, u8, u8, u8)]) -> Raster {
    let mut data = Vec::new();
    for &(r, g, b, a) in pixels {
        data.push(r);
        data.push(g);
        data.push(b);
        data.push(a);
    }
    Raster::from_raw(width, height, data).unwrap()
}

fn pixels(raster: &Raster) -> Vec<(u8, u8, u8, u8)> {
    let mut out = Vec::new();
    for y in 0..raster.height() {
        for x in 0..raster.width() {
            let p = raster.get_pixel(x, y);
            out.push((p.r, p.g, p.b, p.a));
        }
    }
    out
}

/// A row of `n` transparent pixels between a red and a blue one, and the
/// number of waves that it takes.
fn waves_of_band(n: u32) -> (u32, Vec<(u8, u8, u8, u8)>) {
    let mut row = vec![(255, 0, 0, 255)];
    for _ in 0..n {
        row.push((0, 0, 0, 0));
    }
    row.push((0, 0, 255, 255));
    let mut image = raster(n + 2, 1, &row);
    let mut bleeder = AlphaBleeder::default();
    let mut next = bleeder.setup(&mut image);
    let mut waves = 0;
    while !next.is_empty() {
        next = bleeder.single_pass(next, &mut image);
        waves += 1;
    }
    bleeder.finalize(&mut image);
    (waves, pixels(&image))
}

const T: (u8, u8, u8, u8) = (0, 0, 0, 0);

#[test]
fn a_band_takes_half_as_many_waves_as_it_is_wide() {
    assert_eq!(waves_of_band(0).0, 0);
    assert_eq!(waves_of_band(1).0, 1);
    assert_eq!(waves_of_band(2).0, 1);
    assert_eq!(waves_of_band(3).0, 2);
    assert_eq!(waves_of_band(4).0, 2);
    assert_eq!(waves_of_band(5).0, 3);
    assert_eq!(waves_of_band(6).0, 3);
    assert_eq!(waves_of_band(7).0, 4);
    assert_eq!(waves_of_band(20).0, 10);
    assert_eq!(waves_of_band(21).0, 11);
}

#[test]
fn the_middle_of_a_band_is_coloured_from_coloured_pixels() {
    let (_, row) = waves_of_band(3);
    assert_eq!(
        row,
        vec![(255, 0, 0, 255), (255, 0, 0, 0), (127, 0, 127, 0), (0, 0, 255, 0), (0, 0, 255, 255)]
    );
    let (_, row) = waves_of_band(5);
    assert_eq!(row[1], (255, 0, 0, 0));
    assert_eq!(row[2], (255, 0, 0, 0));
    assert_eq!(row[3], (127, 0, 127, 0));
    assert_eq!(row[4], (0, 0, 255, 0));
    assert_eq!(row[5], (0, 0, 255, 0));
}

#[test]
fn a_band_between_two_edges_of_an_image_takes_half_its_height() {
    // Opaque first and last row, four transparent rows between.
    let top = (10, 20, 30, 255);
    let bottom = (50, 60, 70, 255);
    let mut input = vec![top; 3];
    input.extend(vec![T; 12]);
    input.extend(vec![bottom; 3]);
    let mut image = raster(3, 6, &input);
    let mut bleeder = AlphaBleeder::default();
    let mut next = bleeder.setup(&mut image);
    assert_eq!(next.len(), 6);
    next = bleeder.single_pass(next, &mut image);
    assert_eq!(next.len(), 6);
    next = bleeder.single_pass(next, &mut image);
    assert!(next.is_empty());
    bleeder.finalize(&mut image);
    let out = pixels(&image);
    for x in 0..3 {
        assert_eq!(out[3 + x], (10, 20, 30, 0));
        assert_eq!(out[6 + x], (10, 20, 30, 0));
        assert_eq!(out[9 + x], (50, 60, 70, 0));
        assert_eq!(out[12 + x], (50, 60, 70, 0));
    }
}

#[test]
fn setup_finds_the_transparent_pixels_beside_opaque_ones() {
    let mut image = raster(4, 1, &[(1, 1, 1, 255), T, T, T]);
    let mut bleeder = AlphaBleeder::default();
    let next = bleeder.setup(&mut image);
    assert_eq!(next, vec![Position { x: 1, y: 0 }]);
    assert!(bleeder.is_pixel_processed(0, 0));
    assert!(bleeder.is_pixel_processed(1, 0));
    assert!(!bleeder.is_pixel_processed(2, 0));
    assert!(!bleeder.is_pixel_processed(3, 0));
    assert_eq!(pixels(&image), vec![(1, 1, 1, 255), T, T, T]);
}

#[test]
fn setup_scans_row_by_row() {
    let mut image = raster(3, 3, &[T, T, T, T, (1, 1, 1, 1), T, T, T, T]);
    let mut bleeder = AlphaBleeder::default();
    let next = bleeder.setup(&mut image);
    assert_eq!(
        next,
        vec![
            Position { x: 0, y: 0 },
            Position { x: 1, y: 0 },
            Position { x: 2, y: 0 },
            Position { x: 0, y: 1 },
            Position { x: 2, y: 1 },
            Position { x: 0, y: 2 },
            Position { x: 1, y: 2 },
            Position { x: 2, y: 2 },
        ]
    );
}

#[test]
fn a_pass_writes_opaque_pixels_and_finalize_clears_them() {
    let mut image = raster(3, 1, &[(10, 20, 30, 40), T, T]);
    let mut bleeder = AlphaBleeder::default();
    let next = bleeder.setup(&mut image);
    let next = bleeder.single_pass(next, &mut image);
    assert_eq!(next, vec![Position { x: 2, y: 0 }]);
    assert_eq!(pixels(&image), vec![(10, 20, 30, 40), (10, 20, 30, 255), T]);
    let next = bleeder.single_pass(next, &mut image);
    assert!(next.is_empty());
    assert_eq!(pixels(&image), vec![(10, 20, 30, 40), (10, 20, 30, 255), (10, 20, 30, 255)]);
    bleeder.finalize(&mut image);
    assert_eq!(pixels(&image), vec![(10, 20, 30, 40), (10, 20, 30, 0), (10, 20, 30, 0)]);
}

#[test]
fn no_pixel_is_queued_twice() {
    // The pixel in the middle of the second wave lies beside all three
    // pixels of the first.
    let mut image = raster(3, 3, &[(1, 1, 1, 1), (1, 1, 1, 1), (1, 1, 1, 1), T, T, T, T, T, T]);
    let mut bleeder = AlphaBleeder::default();
    let next = bleeder.setup(&mut image);
    assert_eq!(next.len(), 3);
    let next = bleeder.single_pass(next, &mut image);
    assert_eq!(
        next,
        vec![Position { x: 0, y: 2 }, Position { x: 1, y: 2 }, Position { x: 2, y: 2 }]
    );
}

#[test]
fn a_bleeder_starts_afresh_on_each_image() {
    let mut bleeder = AlphaBleeder::default();
    let mut first = raster(3, 1, &[(9, 9, 9, 9), T, T]);
    bleeder.execute(&mut first);
    assert_eq!(pixels(&first), vec![(9, 9, 9, 9), (9, 9, 9, 0), (9, 9, 9, 0)]);
    let mut second = raster(1, 2, &[T, (5, 6, 7, 8)]);
    bleeder.execute(&mut second);
    assert_eq!(pixels(&second), vec![(5, 6, 7, 0), (5, 6, 7, 8)]);
    let mut third = raster(3, 1, &[(1, 1, 1, 1), (2, 2, 2, 2), (3, 3, 3, 3)]);
    bleeder.execute(&mut third);
    assert_eq!(pixels(&third), vec![(1, 1, 1, 1), (2, 2, 2, 2), (3, 3, 3, 3)]);
}

#[test]
fn neighbors_of_a_corner_an_edge_and_the_middle() {
    let mut input = Vec::new();
    for i in 0..9u8 {
        input.push((i, i, i, i));
    }
    let image = raster(3, 3, &input);
    let px = |i: u8| Rgba { r: i, g: i, b: i, a: i };
    assert_eq!(
        AlphaBleeder::find_neighbors(&image, 0, 0),
        vec![(px(3), 0, 1), (px(1), 1, 0), (px(4), 1, 1)]
    );
    assert_eq!(
        AlphaBleeder::find_neighbors(&image, 1, 0),
        vec![(px(0), 0, 0), (px(3), 0, 1), (px(4), 1, 1), (px(2), 2, 0), (px(5), 2, 1)]
    );
    assert_eq!(
        AlphaBleeder::find_neighbors(&image, 1, 1),
        vec![
            (px(0), 0, 0),
            (px(3), 0, 1),
            (px(6), 0, 2),
            (px(1), 1, 0),
            (px(7), 1, 2),
            (px(2), 2, 0),
            (px(5), 2, 1),
            (px(8), 2, 2),
        ]
    );
    assert_eq!(
        AlphaBleeder::find_neighbors(&image, 2, 2),
        vec![(px(4), 1, 1), (px(7), 1, 2), (px(5), 2, 1)]
    );
}

#[test]
fn a_single_pixel_has_no_neighbors() {
    let image = raster(1, 1, &[(1, 2, 3, 4)]);
    assert_eq!(AlphaBleeder::find_neighbors(&image, 0, 0), vec![]);
    assert!(!AlphaBleeder::has_opaque_neighbor(&image, 0, 0));
}

#[test]
fn an_opaque_neighbor_is_found_in_any_direction() {
    for at in 0..9usize {
        if at == 4 {
            continue;
        }
        let mut input = vec![T; 9];
        input[at] = (1, 1, 1, 1);
        let image = raster(3, 3, &input);
        assert!(AlphaBleeder::has_opaque_neighbor(&image, 1, 1));
    }
    let mut input = vec![T; 9];
    input[4] = (1, 1, 1, 1);
    let image = raster(3, 3, &input);
    assert!(!AlphaBleeder::has_opaque_neighbor(&image, 1, 1));
    assert!(AlphaBleeder::has_opaque_neighbor(&image, 0, 0));
}

#[test]
fn an_opaque_pixel_two_steps_away_is_no_neighbor() {
    let image = raster(3, 1, &[(1, 1, 1, 1), T, T]);
    assert!(!AlphaBleeder::has_opaque_neighbor(&image, 2, 0));
    assert!(AlphaBleeder::has_opaque_neighbor(&image, 1, 0));
}

#[test]
fn marks_of_a_bleeder() {
    let mut image = raster(3, 2, &[T; 6]);
    let mut bleeder = AlphaBleeder::default();
    let next = bleeder.setup(&mut image);
    assert!(next.is_empty());
    assert_eq!(bleeder.get_pixel_index(0, 0), 0);
    assert_eq!(bleeder.get_pixel_index(2, 0), 2);
    assert_eq!(bleeder.get_pixel_index(1, 1), 4);
    assert!(!bleeder.is_pixel_processed(1, 1));
    bleeder.mark_pixel_processed(1, 1);
    assert!(bleeder.is_pixel_processed(1, 1));
    assert!(!bleeder.is_pixel_processed(1, 0));
    assert!(!bleeder.is_pixel_processed(0, 1));
    bleeder.reset_processed_pixels_map();
    assert!(!bleeder.is_pixel_processed(1, 1));
}

#[test]
fn finalize_clears_what_is_pending_and_nothing_else() {
    let mut image = raster(2, 1, &[T, (1, 2, 3, 4)]);
    let mut bleeder = AlphaBleeder::default();
    let next = bleeder.setup(&mut image);
    assert_eq!(next.len(), 1);
    bleeder.finalize(&mut image);
    assert_eq!(pixels(&image), vec![T, (1, 2, 3, 4)]);
}

#[test]
fn each_wave_reaches_one_step_further() {
    // One opaque pixel in column 1 of row 2 of a 7 x 6 image.
    let mut input = vec![T; 42];
    input[2 * 7 + 1] = (40, 50, 60, 70);
    let mut image = raster(7, 6, &input);
    let mut bleeder = AlphaBleeder::default();
    let mut next = bleeder.setup(&mut image);
    let mut waves = 0i64;
    loop {
        for y in 0..6i64 {
            for x in 0..7i64 {
                let steps = (x - 1).abs().max((y - 2).abs());
                let pixel = image.get_pixel(x as u32, y as u32);
                assert_eq!(pixel.a > 0, steps <= waves);
                assert_eq!(bleeder.is_pixel_processed(x as u32, y as u32), steps <= waves + 1);
            }
        }
        if next.is_empty() {
            break;
        }
        next = bleeder.single_pass(next, &mut image);
        waves += 1;
    }
    assert_eq!(waves, 5);
    bleeder.finalize(&mut image);
    for (i, pixel) in pixels(&image).into_iter().enumerate() {
        if i == 2 * 7 + 1 {
            assert_eq!(pixel, (40, 50, 60, 70));
        } else {
            assert_eq!(pixel, (40, 50, 60, 0));
        }
    }
}

#[test]
fn a_band_of_columns_takes_as_many_waves_as_a_band_of_rows() {
    for n in 0..9u32 {
        let (across, _) = waves_of_band(n);
        let mut input = vec![(1, 2, 3, 4)];
        input.extend(vec![T; n as usize]);
        input.push((5, 6, 7, 8));
        let mut image = raster(1, n + 2, &input);
        let mut bleeder = AlphaBleeder::default();
        let mut next = bleeder.setup(&mut image);
        let mut down = 0;
        while !next.is_empty() {
            next = bleeder.single_pass(next, &mut image);
            down += 1;
        }
        assert_eq!(down, across);
        assert_eq!(down, (n + 1) / 2);
    }
}
