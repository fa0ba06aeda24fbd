use alpha_bleeding::{Raster, Rgba};

#[test]
fn from_raw_reads_pixels_row_by_row() {
    let raster = Raster::from_raw(2, 2, vec![1, 2, 3, 4, 5, 6, 7, 8, 9, 10, 11, 12, 13, 14, 15, 16])
        .unwrap();
    assert_eq!(raster.width(), 2);
    assert_eq!(raster.height(), 2);
    assert_eq!(raster.get_pixel(0, 0), Rgba { r: 1, g: 2, b: 3, a: 4 });
    assert_eq!(raster.get_pixel(1, 0), Rgba { r: 5, g: 6, b: 7, a: 8 });
    assert_eq!(raster.get_pixel(0, 1), Rgba { r: 9, g: 10, b: 11, a: 12 });
    assert_eq!(raster.get_pixel(1, 1), Rgba { r: 13, g: 14, b: 15, a: 16 });
}

#[test]
fn from_raw_keeps_width_and_height_apart() {
    let raster = Raster::from_raw(3, 1, vec![0; 12]).unwrap();
    assert_eq!(raster.width(), 3);
    assert_eq!(raster.height(), 1);
    let raster = Raster::from_raw(1, 3, vec![0; 12]).unwrap();
    assert_eq!(raster.width(), 1);
    assert_eq!(raster.height(), 3);
}

#[test]
fn from_raw_refuses_too_few_samples() {
    assert!(Raster::from_raw(2, 2, vec![0; 15]).is_none());
    assert!(Raster::from_raw(1, 1, vec![]).is_none());
    assert!(Raster::from_raw(u32::MAX, u32::MAX, vec![0; 16]).is_none());
}

#[test]
fn from_raw_takes_an_image_without_pixels() {
    let raster = Raster::from_raw(0, 0, vec![]).unwrap();
    assert_eq!(raster.width(), 0);
    assert_eq!(raster.height(), 0);
    let raster = Raster::from_raw(5, 0, vec![]).unwrap();
    assert_eq!(raster.width(), 5);
    assert_eq!(raster.height(), 0);
    assert_eq!(raster.into_raw(), Vec::<u8>::new());
}

#[test]
fn from_raw_takes_spare_samples() {
    let raster = Raster::from_raw(1, 1, vec![1, 2, 3, 4, 5, 6]).unwrap();
    assert_eq!(raster.get_pixel(0, 0), Rgba { r: 1, g: 2, b: 3, a: 4 });
    assert_eq!(raster.into_raw(), vec![1, 2, 3, 4, 5, 6]);
}

#[test]
fn into_raw_gives_the_samples_back() {
    let data = vec![1, 2, 3, 4, 5, 6, 7, 8];
    let raster = Raster::from_raw(2, 1, data.clone()).unwrap();
    assert_eq!(raster.into_raw(), data);
}

#[test]
fn put_pixel_writes_one_pixel() {
    let mut raster = Raster::from_raw(2, 2, vec![0; 16]).unwrap();
    raster.put_pixel(1, 0, Rgba { r: 9, g: 8, b: 7, a: 6 });
    assert_eq!(raster.get_pixel(1, 0), Rgba { r: 9, g: 8, b: 7, a: 6 });
    assert_eq!(raster.get_pixel(0, 0), Rgba { r: 0, g: 0, b: 0, a: 0 });
    assert_eq!(raster.get_pixel(0, 1), Rgba { r: 0, g: 0, b: 0, a: 0 });
    assert_eq!(raster.get_pixel(1, 1), Rgba { r: 0, g: 0, b: 0, a: 0 });
    assert_eq!(raster.width(), 2);
    assert_eq!(raster.height(), 2);
    assert_eq!(raster.into_raw(), vec![0, 0, 0, 0, 9, 8, 7, 6, 0, 0, 0, 0, 0, 0, 0, 0]);
}

#[test]
fn put_pixel_leaves_spare_samples() {
    let mut raster = Raster::from_raw(1, 1, vec![0, 0, 0, 0, 42, 43]).unwrap();
    raster.put_pixel(0, 0, Rgba { r: 1, g: 2, b: 3, a: 4 });
    assert_eq!(raster.into_raw(), vec![1, 2, 3, 4, 42, 43]);
}

#[test]
fn clone_copies_and_parts() {
    let mut first = Raster::from_raw(2, 1, vec![1, 2, 3, 4, 5, 6, 7, 8]).unwrap();
    let second = first.clone();
    first.put_pixel(0, 0, Rgba { r: 0, g: 0, b: 0, a: 0 });
    assert_eq!(second.width(), 2);
    assert_eq!(second.height(), 1);
    assert_eq!(second.get_pixel(0, 0), Rgba { r: 1, g: 2, b: 3, a: 4 });
    assert_eq!(second.into_raw(), vec![1, 2, 3, 4, 5, 6, 7, 8]);
    assert_eq!(first.into_raw(), vec![0, 0, 0, 0, 5, 6, 7, 8]);
}

#[test]
fn the_samples_of_an_image_crate_buffer_carry_over() {
    let mut buffer = image::RgbaImage::new(2, 2);
    buffer.put_pixel(1, 1, image::Rgba([10, 20, 30, 40]));
    let (width, height) = buffer.dimensions();
    let raster = Raster::from_raw(width, height, buffer.into_raw()).unwrap();
    assert_eq!(raster.get_pixel(1, 1), Rgba { r: 10, g: 20, b: 30, a: 40 });
    assert_eq!(raster.get_pixel(0, 1), Rgba { r: 0, g: 0, b: 0, a: 0 });
}
