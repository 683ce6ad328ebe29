use image_of_images::assign::{assign_images, empty_vec_2d};
use image_of_images::compose::{insert_sub_img, insert_sub_imgs};
use image_of_images::fill::{fill, fill_target_img, DedupPolicy, FillError};
use image_of_images::matrix::{calc_errors, scale_err, ErrInfo};
use image_of_images::progress::{progress_channel, Phase, Progress};
use image_of_images::raster::Image;
use image_of_images::score::squared_error;

/// An image of one colour.
fn uniform(width: u32, height: u32, px: [u16; 3]) -> Image {
    let mut data = Vec::new();
    for _ in 0..(width * height) {
        data.extend_from_slice(&px);
    }
    Image::from_raw(width, height, data).unwrap()
}

/// A target of `rows` x `cols` cells of `cw` x `ch` pixels, cell `(i, j)` having the colour
/// `colours[i * cols + j]`.
fn checkered(rows: u32, cols: u32, cw: u32, ch: u32, colours: &[[u16; 3]]) -> Image {
    let mut img = uniform(cols * cw, rows * ch, [0, 0, 0]);
    for i in 0..rows {
        for j in 0..cols {
            let tile = uniform(cw, ch, colours[(i * cols + j) as usize]);
            insert_sub_img(&mut img, &tile, j * cw, i * ch);
        }
    }
    img
}

const RED: [u16; 3] = [60000, 0, 0];
const GREEN: [u16; 3] = [0, 60000, 0];
const BLUE: [u16; 3] = [0, 0, 60000];
const GREY: [u16; 3] = [30000, 30000, 30000];

#[test]
fn identical_candidate_scores_zero() {
    let target = checkered(2, 2, 2, 2, &[RED, GREEN, BLUE, GREY]);
    let cand = uniform(2, 2, BLUE);
    assert_eq!(squared_error(&target, &cand, 0, 2), 0);
    assert_ne!(squared_error(&target, &cand, 0, 0), 0);
}

#[test]
fn score_is_summed_squares_per_pixel() {
    // one pixel: 3^2 + 4^2 + 0^2
    let target = uniform(1, 1, [10, 20, 30]);
    let cand = uniform(1, 1, [13, 16, 30]);
    assert_eq!(squared_error(&target, &cand, 0, 0), 25);
    // two pixels: (25 + 12) / 2, the channel count does not divide
    let target = Image::from_raw(2, 1, vec![10, 20, 30, 1, 1, 1]).unwrap();
    let cand = Image::from_raw(2, 1, vec![13, 16, 30, 3, 3, 3]).unwrap();
    assert_eq!(squared_error(&target, &cand, 0, 0), 18);
}

#[test]
fn score_reads_the_cell_at_its_origin() {
    let target = Image::from_raw(2, 2, vec![0, 0, 0, 5, 5, 5, 7, 7, 7, 9, 9, 9]).unwrap();
    let cand = uniform(1, 1, [0, 0, 0]);
    assert_eq!(squared_error(&target, &cand, 0, 0), 0);
    assert_eq!(squared_error(&target, &cand, 1, 0), 75);
    assert_eq!(squared_error(&target, &cand, 0, 1), 147);
    assert_eq!(squared_error(&target, &cand, 1, 1), 243);
}

#[test]
fn score_of_extreme_channels_does_not_overflow() {
    let target = uniform(3, 3, [65535, 65535, 65535]);
    let cand = uniform(3, 3, [0, 0, 0]);
    assert_eq!(squared_error(&target, &cand, 0, 0), 12_884_508_675);
}

#[test]
fn empty_candidate_scores_zero() {
    let target = uniform(2, 2, RED);
    let cand = Image::from_raw(0, 0, Vec::new()).unwrap();
    assert_eq!(squared_error(&target, &cand, 1, 1), 0);
}

#[test]
fn scaling_maps_onto_the_whole_range() {
    assert_eq!(scale_err(0, 0), 0);
    assert_eq!(scale_err(0, 10), 0);
    assert_eq!(scale_err(10, 10), u64::MAX);
    assert_eq!(scale_err(5, 10), u64::MAX / 2);
    assert_eq!(scale_err(1, 3), u64::MAX / 3);
    assert_eq!(scale_err(4, 3), u64::MAX);
    assert_eq!(scale_err(1, 0), u64::MAX);
}

#[test]
fn scaling_keeps_neighbours_apart() {
    let peak = u64::MAX;
    assert!(scale_err(peak - 1, peak) < scale_err(peak, peak));
    assert!(scale_err(7, 1000) < scale_err(8, 1000));
}

#[test]
fn matrix_is_emitted_cell_by_cell_in_pool_order() {
    let target = checkered(1, 2, 1, 1, &[[0, 0, 0], [10, 0, 0]]);
    let pool = vec![uniform(1, 1, [0, 0, 0]), uniform(1, 1, [10, 0, 0]), uniform(1, 1, [4, 0, 0])];
    let mut progress = Progress::silent();
    let m = calc_errors(&target, &pool, 2, 1, 1, 1, &mut progress);
    assert_eq!(m.len(), 6);
    let pairs: Vec<(u32, u32, usize)> = m.iter().map(|r| (r.i_pos, r.j_pos, r.img_idx)).collect();
    assert_eq!(pairs, vec![(0, 0, 0), (0, 0, 1), (0, 0, 2), (0, 1, 0), (0, 1, 1), (0, 1, 2)]);
    // raw errors: 0, 100, 16 | 100, 0, 36; the peak is 100
    let errs: Vec<u64> = m.iter().map(|r| r.err).collect();
    assert_eq!(
        errs,
        vec![
            0,
            u64::MAX,
            scale_err(16, 100),
            u64::MAX,
            0,
            scale_err(36, 100)
        ]
    );
    assert!(m.iter().all(|r| r.pos_err_min == u64::MAX));
}

#[test]
fn matrix_keeps_the_worst_error_of_each_cell() {
    let target = checkered(1, 2, 1, 1, &[[0, 0, 0], [10, 0, 0]]);
    let pool = vec![uniform(1, 1, [0, 0, 0]), uniform(1, 1, [4, 0, 0])];
    let mut progress = Progress::silent();
    let m = calc_errors(&target, &pool, 2, 1, 1, 1, &mut progress);
    // raw errors: 0, 16 | 100, 36; worst per cell 16 and 100, peak 100
    assert_eq!(m[0].pos_err_min, scale_err(16, 100));
    assert_eq!(m[1].pos_err_min, scale_err(16, 100));
    assert_eq!(m[2].pos_err_min, u64::MAX);
    assert_eq!(m[3].pos_err_min, u64::MAX);
}

#[test]
fn matrix_of_a_perfect_pool_is_all_zero() {
    let target = uniform(2, 2, GREY);
    let pool = vec![uniform(1, 1, GREY), uniform(1, 1, GREY)];
    let mut progress = Progress::silent();
    let m = calc_errors(&target, &pool, 2, 2, 1, 1, &mut progress);
    assert_eq!(m.len(), 8);
    assert!(m.iter().all(|r| r.err == 0 && r.pos_err_min == 0));
}

#[test]
fn matrix_of_an_empty_grid_is_empty() {
    let target = Image::from_raw(0, 0, Vec::new()).unwrap();
    let pool = vec![uniform(1, 1, GREY)];
    let mut progress = Progress::silent();
    assert!(calc_errors(&target, &pool, 0, 0, 1, 1, &mut progress).is_empty());
}

fn record(img_idx: usize, i_pos: u32, j_pos: u32, err: u64) -> ErrInfo {
    ErrInfo { img_idx, i_pos, j_pos, pos_err_min: 0, err }
}

#[test]
fn exact_matches_are_assigned_to_their_cells() {
    let colours = [RED, GREEN, BLUE, GREY];
    let target = checkered(2, 2, 2, 2, &colours);
    let pool: Vec<Image> = colours.iter().map(|c| uniform(2, 2, *c)).collect();
    let mut progress = Progress::silent();
    let errors = calc_errors(&target, &pool, 2, 2, 2, 2, &mut progress);
    let grid = assign_images(errors, 2, 2, 4, true, &mut progress);
    assert_eq!(grid, vec![vec![0, 1], vec![2, 3]]);
}

#[test]
fn exact_matches_rebuild_the_target() {
    let colours = [RED, GREEN, BLUE, GREY];
    let target = checkered(2, 2, 2, 2, &colours);
    let pool: Vec<Image> = colours.iter().rev().map(|c| uniform(2, 2, *c)).collect();
    let mut progress = Progress::silent();
    let out = fill(&target, &pool, 2, 2, 2, 2, DedupPolicy::UseOnce, &mut progress).unwrap();
    assert_eq!(out.dimensions(), (4, 4));
    assert_eq!(out.as_raw(), target.as_raw());
}

#[test]
fn too_few_candidates_is_an_error() {
    let target = checkered(2, 2, 2, 2, &[RED, GREEN, BLUE, GREY]);
    let pool = vec![uniform(2, 2, RED), uniform(2, 2, GREEN), uniform(2, 2, BLUE)];
    let (tx, rx) = progress_channel();
    let mut progress = Progress::new(Some(tx));
    let result = fill(&target, &pool, 2, 2, 2, 2, DedupPolicy::UseOnce, &mut progress);
    assert_eq!(result.err(), Some(FillError::TooFewImages { needed: 4, available: 3 }));
    // nothing was scored
    assert!(rx.try_recv().is_err());
}

#[test]
fn too_few_candidates_is_an_error_even_with_reuse() {
    let target = checkered(2, 2, 2, 2, &[RED, GREEN, BLUE, GREY]);
    let pool = vec![uniform(2, 2, RED)];
    let mut progress = Progress::silent();
    let result = fill(&target, &pool, 2, 2, 2, 2, DedupPolicy::AllowReuse, &mut progress);
    assert_eq!(result.err(), Some(FillError::TooFewImages { needed: 4, available: 1 }));
}

#[test]
fn error_message_suggests_a_smaller_grid() {
    let e = FillError::TooFewImages { needed: 4, available: 3 };
    assert_eq!(
        e.message(),
        "Too few images in directory, try reducing the number of horizontal and/or vertical images"
    );
}

#[test]
fn tie_goes_to_the_earlier_candidate() {
    let target = uniform(1, 1, GREY);
    let pool = vec![uniform(1, 1, RED), uniform(1, 1, RED), uniform(1, 1, RED)];
    let mut progress = Progress::silent();
    let errors = calc_errors(&target, &pool, 1, 1, 1, 1, &mut progress);
    assert_eq!(assign_images(errors, 1, 1, 3, true, &mut progress), vec![vec![0]]);
}

#[test]
fn tie_goes_to_the_earlier_cell() {
    // both cells and both candidates are alike: every error ties
    let errors =
        vec![record(0, 0, 0, 5), record(1, 0, 0, 5), record(0, 0, 1, 5), record(1, 0, 1, 5)];
    let mut progress = Progress::silent();
    assert_eq!(assign_images(errors, 2, 1, 2, true, &mut progress), vec![vec![0, 1]]);
}

#[test]
fn smaller_error_is_served_first() {
    // emission order would give [0, 1]; the errors ask for [1, 0]
    let errors =
        vec![record(0, 0, 0, 9), record(1, 0, 0, 1), record(0, 0, 1, 2), record(1, 0, 1, 8)];
    let mut progress = Progress::silent();
    assert_eq!(assign_images(errors, 2, 1, 2, true, &mut progress), vec![vec![1, 0]]);
}

#[test]
fn greedy_choice_is_not_the_cheapest_total() {
    // the greedy scan commits (cell 0, candidate 0) first and leaves cell 1 with candidate 1
    let errors =
        vec![record(0, 0, 0, 1), record(1, 0, 0, 2), record(0, 0, 1, 3), record(1, 0, 1, 100)];
    let mut progress = Progress::silent();
    assert_eq!(assign_images(errors, 2, 1, 2, true, &mut progress), vec![vec![0, 1]]);
}

#[test]
fn used_candidate_is_skipped() {
    // candidate 0 is best for both cells; cell 1 has to take its second choice
    let errors = vec![
        record(0, 0, 0, 1),
        record(1, 0, 0, 7),
        record(2, 0, 0, 9),
        record(0, 0, 1, 2),
        record(1, 0, 1, 8),
        record(2, 0, 1, 5),
    ];
    let mut progress = Progress::silent();
    assert_eq!(assign_images(errors, 2, 1, 3, true, &mut progress), vec![vec![0, 2]]);
}

#[test]
fn reuse_gives_every_cell_its_best_candidate() {
    let errors = vec![
        record(0, 0, 0, 1),
        record(1, 0, 0, 7),
        record(2, 0, 0, 9),
        record(0, 0, 1, 2),
        record(1, 0, 1, 8),
        record(2, 0, 1, 5),
    ];
    let mut progress = Progress::silent();
    assert_eq!(assign_images(errors, 2, 1, 3, false, &mut progress), vec![vec![0, 0]]);
}

#[test]
fn assignment_is_total_and_injective() {
    // 2 x 3 grid, 7 candidates, pseudo-random errors
    let (rows, cols, n) = (2u32, 3u32, 7usize);
    let mut errors = Vec::new();
    let mut seed: u64 = 12345;
    for i in 0..rows {
        for j in 0..cols {
            for k in 0..n {
                seed = seed.wrapping_mul(6364136223846793005).wrapping_add(1442695040888963407);
                errors.push(record(k, i, j, (seed >> 33) % 50));
            }
        }
    }
    let mut progress = Progress::silent();
    let grid = assign_images(errors, cols, rows, n, true, &mut progress);
    assert_eq!(grid.len(), 2);
    let mut seen = Vec::new();
    for row in &grid {
        assert_eq!(row.len(), 3);
        for &k in row {
            assert!(k < n);
            assert!(!seen.contains(&k));
            seen.push(k);
        }
    }
}

#[test]
fn assignment_is_repeatable() {
    let make = || {
        let mut errors = Vec::new();
        let mut seed: u64 = 99;
        for i in 0..3u32 {
            for j in 0..3u32 {
                for k in 0..10usize {
                    seed = seed.wrapping_mul(6364136223846793005).wrapping_add(1);
                    errors.push(record(k, i, j, (seed >> 40) % 7));
                }
            }
        }
        errors
    };
    let mut progress = Progress::silent();
    let first = assign_images(make(), 3, 3, 10, true, &mut progress);
    let second = assign_images(make(), 3, 3, 10, true, &mut progress);
    assert_eq!(first, second);
}

#[test]
fn assignment_of_an_empty_grid_is_empty() {
    let mut progress = Progress::silent();
    assert_eq!(assign_images(Vec::new(), 0, 0, 3, true, &mut progress), Vec::<Vec<usize>>::new());
    let rows = assign_images(Vec::new(), 0, 2, 3, true, &mut progress);
    assert_eq!(rows, vec![Vec::<usize>::new(), Vec::new()]);
}

#[test]
fn empty_grid_has_the_asked_shape() {
    let grid: Vec<Vec<Option<u8>>> = empty_vec_2d(2, 3);
    assert_eq!(grid, vec![vec![None, None, None], vec![None, None, None]]);
    let none: Vec<Vec<Option<u8>>> = empty_vec_2d(0, 3);
    assert!(none.is_empty());
}

#[test]
fn pasting_overwrites_only_the_window() {
    let mut canvas = uniform(3, 2, [1, 1, 1]);
    let tile = Image::from_raw(2, 1, vec![10, 11, 12, 20, 21, 22]).unwrap();
    insert_sub_img(&mut canvas, &tile, 1, 1);
    assert_eq!(
        canvas.as_raw(),
        &vec![1, 1, 1, 1, 1, 1, 1, 1, 1, 1, 1, 1, 10, 11, 12, 20, 21, 22]
    );
}

#[test]
fn composing_reads_back_cell_by_cell() {
    let a = uniform(2, 1, RED);
    let b = uniform(2, 1, GREEN);
    let c = uniform(2, 1, BLUE);
    let d = uniform(2, 1, GREY);
    let mut canvas = uniform(5, 3, [7, 7, 7]);
    let mut progress = Progress::silent();
    insert_sub_imgs(&mut canvas, &[vec![&a, &b], vec![&c, &d]], &mut progress);
    for (row, col, tile) in [(0u32, 0u32, RED), (0, 1, GREEN), (1, 0, BLUE), (1, 1, GREY)] {
        for x in 0..2 {
            assert_eq!(canvas.get_pixel(col * 2 + x, row), tile);
        }
    }
    // outside the grid nothing changed
    for y in 0..3 {
        assert_eq!(canvas.get_pixel(4, y), [7, 7, 7]);
    }
    for x in 0..5 {
        assert_eq!(canvas.get_pixel(x, 2), [7, 7, 7]);
    }
}

#[test]
fn composing_takes_rows_of_different_length() {
    let a = uniform(1, 1, RED);
    let b = uniform(1, 1, GREEN);
    let mut canvas = uniform(2, 2, [7, 7, 7]);
    let mut progress = Progress::silent();
    insert_sub_imgs(&mut canvas, &[vec![&a], vec![&b, &a]], &mut progress);
    assert_eq!(canvas.get_pixel(0, 0), RED);
    assert_eq!(canvas.get_pixel(1, 0), [7, 7, 7]);
    assert_eq!(canvas.get_pixel(0, 1), GREEN);
    assert_eq!(canvas.get_pixel(1, 1), RED);
}

#[test]
fn mosaic_shows_the_nearest_candidates() {
    let target = checkered(2, 2, 2, 2, &[RED, GREEN, BLUE, GREY]);
    let near = |c: [u16; 3]| [c[0] / 2 + 100, c[1] / 2 + 100, c[2] / 2 + 100];
    let pool = vec![
        uniform(2, 2, near(GREY)),
        uniform(2, 2, near(BLUE)),
        uniform(2, 2, [65535, 65535, 65535]),
        uniform(2, 2, near(GREEN)),
        uniform(2, 2, near(RED)),
    ];
    let mut progress = Progress::silent();
    let out = fill(&target, &pool, 2, 2, 2, 2, DedupPolicy::UseOnce, &mut progress).unwrap();
    for (row, col, k) in [(0u32, 0u32, 4usize), (0, 1, 3), (1, 0, 1), (1, 1, 0)] {
        for y in 0..2 {
            for x in 0..2 {
                assert_eq!(out.get_pixel(col * 2 + x, row * 2 + y), pool[k].get_pixel(x, y));
            }
        }
    }
}

#[test]
fn mosaic_with_reuse_repeats_the_best_candidate() {
    let target = uniform(2, 1, RED);
    let pool = vec![uniform(1, 1, GREEN), uniform(1, 1, RED)];
    let mut progress = Progress::silent();
    let reused = fill(&target, &pool, 1, 2, 1, 1, DedupPolicy::AllowReuse, &mut progress).unwrap();
    assert_eq!(reused.as_raw(), &vec![60000, 0, 0, 60000, 0, 0]);
    let once = fill(&target, &pool, 1, 2, 1, 1, DedupPolicy::UseOnce, &mut progress).unwrap();
    assert_eq!(once.as_raw(), &vec![60000, 0, 0, 0, 60000, 0]);
}

#[test]
fn mosaic_is_repeatable() {
    let target = checkered(2, 2, 1, 1, &[RED, GREEN, RED, GREEN]);
    let pool: Vec<Image> =
        [GREY, RED, GREEN, RED, BLUE, GREEN].iter().map(|c| uniform(1, 1, *c)).collect();
    let mut progress = Progress::silent();
    let a = fill(&target, &pool, 2, 2, 1, 1, DedupPolicy::UseOnce, &mut progress).unwrap();
    let b = fill(&target, &pool, 2, 2, 1, 1, DedupPolicy::UseOnce, &mut progress).unwrap();
    assert_eq!(a.as_raw(), b.as_raw());
}

#[test]
fn mosaic_of_an_empty_grid_is_the_canvas() {
    let target = Image::from_raw(0, 0, Vec::new()).unwrap();
    let pool = vec![uniform(2, 2, RED)];
    let mut progress = Progress::silent();
    let out = fill(&target, &pool, 0, 0, 2, 2, DedupPolicy::UseOnce, &mut progress).unwrap();
    assert_eq!(out.dimensions(), (0, 0));
}

#[test]
fn leftover_edges_are_cut_off_evenly() {
    // 7 x 5 pixels, cells of 2 x 2: three columns and two rows, one pixel cut off at the
    // right and at the bottom (the halves of the paddings round down to 0)
    let mut target = uniform(7, 5, [9, 9, 9]);
    let colours = [RED, GREEN, BLUE, GREY, RED, GREEN];
    for i in 0..2u32 {
        for j in 0..3u32 {
            insert_sub_img(&mut target, &uniform(2, 2, colours[(i * 3 + j) as usize]), j * 2, i * 2);
        }
    }
    let pool: Vec<Image> = colours.iter().map(|c| uniform(2, 2, *c)).collect();
    let mut progress = Progress::silent();
    let out = fill_target_img(target.clone(), &pool, 2, 2, true, &mut progress).unwrap();
    assert_eq!(out.dimensions(), (6, 4));
    assert_eq!(out.as_raw(), target.crop(0, 0, 6, 4).as_raw());
}

#[test]
fn leftover_edges_are_centred() {
    // 5 pixels wide, cells 2 wide: padding 1... and 8 wide with cells of 3: padding 2, left 1
    let mut data = Vec::new();
    for x in 0..8u16 {
        data.extend_from_slice(&[x * 1000, 0, 0]);
    }
    let target = Image::from_raw(8, 1, data).unwrap();
    let pool = vec![
        Image::from_raw(3, 1, vec![1000, 0, 0, 2000, 0, 0, 3000, 0, 0]).unwrap(),
        Image::from_raw(3, 1, vec![4000, 0, 0, 5000, 0, 0, 6000, 0, 0]).unwrap(),
    ];
    let mut progress = Progress::silent();
    let out = fill_target_img(target, &pool, 3, 1, true, &mut progress).unwrap();
    assert_eq!(out.dimensions(), (6, 1));
    assert_eq!(out.get_pixel(0, 0), [1000, 0, 0]);
    assert_eq!(out.get_pixel(5, 0), [6000, 0, 0]);
}

#[test]
fn grid_larger_than_the_pool_is_refused_after_cropping() {
    let target = uniform(5, 5, RED);
    let pool = vec![uniform(2, 2, RED), uniform(2, 2, RED), uniform(2, 2, RED)];
    let mut progress = Progress::silent();
    let result = fill_target_img(target, &pool, 2, 2, true, &mut progress);
    assert_eq!(result.err(), Some(FillError::TooFewImages { needed: 4, available: 3 }));
}

#[test]
fn progress_is_reported_phase_by_phase() {
    let colours = [RED, GREEN];
    let target = checkered(1, 2, 1, 1, &colours);
    let pool: Vec<Image> = colours.iter().map(|c| uniform(1, 1, *c)).collect();
    let (tx, rx) = progress_channel();
    let mut progress = Progress::new(Some(tx));
    fill(&target, &pool, 1, 2, 1, 1, DedupPolicy::UseOnce, &mut progress).unwrap();
    drop(progress);
    let events: Vec<(usize, usize, &'static str)> = rx.try_iter().collect();
    assert_eq!(
        events,
        vec![
            (0, 2, "calculating errors"),
            (1, 2, "calculating errors"),
            (1, 2, "Selecting images for result"),
            (2, 2, "Selecting images for result"),
            (0, 2, "Inserting images in target"),
            (1, 2, "Inserting images in target"),
        ]
    );
}

#[test]
fn progress_survives_a_dropped_receiver() {
    let target = uniform(1, 1, RED);
    let pool = vec![uniform(1, 1, RED)];
    let (tx, rx) = progress_channel();
    drop(rx);
    let mut progress = Progress::new(Some(tx));
    let out = fill(&target, &pool, 1, 1, 1, 1, DedupPolicy::UseOnce, &mut progress).unwrap();
    assert_eq!(out.as_raw(), &vec![60000, 0, 0]);
}

#[test]
fn phase_labels_are_the_reported_texts() {
    assert_eq!(Phase::LoadingImages.label(), "Loading images from disk");
    assert_eq!(Phase::CalculatingErrors.label(), "calculating errors");
    assert_eq!(Phase::SelectingImages.label(), "Selecting images for result");
    assert_eq!(Phase::InsertingImages.label(), "Inserting images in target");
}

#[test]
fn notifications_reach_the_channel() {
    let (tx, rx) = progress_channel();
    let mut progress = Progress::new(Some(tx));
    progress.notify(3, 9, Phase::LoadingImages);
    assert_eq!(rx.try_recv().ok(), Some((3, 9, "Loading images from disk")));
}

#[test]
fn progress_never_waits_for_a_listener() {
    // a channel with room for one message and nobody reading it
    let (tx, rx) = crossbeam::channel::bounded(1);
    let mut progress = Progress::new(Some(tx));
    let target = uniform(2, 1, RED);
    let pool = vec![uniform(1, 1, RED), uniform(1, 1, RED)];
    let out = fill(&target, &pool, 1, 2, 1, 1, DedupPolicy::UseOnce, &mut progress).unwrap();
    assert_eq!(out.dimensions(), (2, 1));
    assert_eq!(rx.try_recv().ok(), Some((0, 2, "calculating errors")));
    assert!(rx.try_recv().is_err());
}
