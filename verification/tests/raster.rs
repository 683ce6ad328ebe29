use image_of_images::raster::Image;

#[test]
fn from_raw_wants_three_samples_per_pixel() {
    assert!(Image::from_raw(2, 2, vec![0; 12]).is_some());
    assert!(Image::from_raw(2, 2, vec![0; 11]).is_none());
    assert!(Image::from_raw(2, 2, vec![0; 13]).is_none());
    assert!(Image::from_raw(0, 5, Vec::new()).is_some());
    assert!(Image::from_raw(u32::MAX, u32::MAX, Vec::new()).is_none());
}

#[test]
fn blank_image_is_all_zero() {
    let img = Image::blank(3, 2).unwrap();
    assert_eq!(img.dimensions(), (3, 2));
    assert_eq!(img.as_raw(), &vec![0u16; 18]);
}

#[test]
fn pixels_are_stored_row_by_row() {
    let img = Image::from_raw(2, 2, (0..12).collect()).unwrap();
    assert_eq!(img.width(), 2);
    assert_eq!(img.height(), 2);
    assert_eq!(img.get_pixel(0, 0), [0, 1, 2]);
    assert_eq!(img.get_pixel(1, 0), [3, 4, 5]);
    assert_eq!(img.get_pixel(0, 1), [6, 7, 8]);
    assert_eq!(img.get_pixel(1, 1), [9, 10, 11]);
}

#[test]
fn put_pixel_changes_one_pixel() {
    let mut img = Image::from_raw(2, 2, (0..12).collect()).unwrap();
    img.put_pixel(1, 0, [100, 200, 300]);
    assert_eq!(img.into_raw(), vec![0, 1, 2, 100, 200, 300, 6, 7, 8, 9, 10, 11]);
}

#[test]
fn crop_copies_the_window() {
    let img = Image::from_raw(3, 3, (0..27).collect()).unwrap();
    let win = img.crop(1, 1, 2, 2);
    assert_eq!(win.dimensions(), (2, 2));
    assert_eq!(win.as_raw(), &vec![12, 13, 14, 15, 16, 17, 21, 22, 23, 24, 25, 26]);
}

#[test]
fn crop_ends_at_the_edges() {
    let img = Image::from_raw(3, 3, (0..27).collect()).unwrap();
    let win = img.crop(2, 1, 5, 5);
    assert_eq!(win.dimensions(), (1, 2));
    assert_eq!(win.as_raw(), &vec![15, 16, 17, 24, 25, 26]);
    assert_eq!(img.crop(7, 7, 2, 2).dimensions(), (0, 0));
}

#[test]
fn clone_is_equal() {
    let img = Image::from_raw(1, 2, vec![1, 2, 3, 4, 5, 6]).unwrap();
    let copy = img.clone();
    assert_eq!(copy.dimensions(), (1, 2));
    assert_eq!(copy.as_raw(), img.as_raw());
}

#[test]
fn centred_crop_leaves_even_margins() {
    let img = Image::from_raw(4, 1, vec![0, 0, 0, 1, 1, 1, 2, 2, 2, 3, 3, 3]).unwrap();
    assert_eq!(img.crop_centred(2, 1).as_raw(), &vec![1, 1, 1, 2, 2, 2]);
    // an odd margin: the smaller half is on the left
    assert_eq!(img.crop_centred(3, 1).as_raw(), &vec![0, 0, 0, 1, 1, 1, 2, 2, 2]);
    assert_eq!(img.crop_centred(4, 1).as_raw(), img.as_raw());
}
