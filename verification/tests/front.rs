use image_of_images::dialog::{
    finish_events, progress_line, Event, FileDialogType, GuiState, NumInputType, RunNumbers,
};
use image_of_images::matrix::ErrInfo;
use image_of_images::options::MakeImgOfImsOpts;
use image_of_images::paths::{
    file_name_candidate, find_free_filepath, image_pattern, IMAGE_EXTENSIONS,
};
use image_of_images::sample::{limit_images, pick_images};
use image_of_images::text::{decimal_string, keep_numeric, parse_u32, sanitize_number, NumberError};
use std::cmp::Ordering;

#[test]
fn numbers_are_written_in_decimal() {
    assert_eq!(decimal_string(0), "0");
    assert_eq!(decimal_string(7), "7");
    assert_eq!(decimal_string(10), "10");
    assert_eq!(decimal_string(1234567890), "1234567890");
    assert_eq!(decimal_string(usize::MAX), usize::MAX.to_string());
}

#[test]
fn numbers_are_read_from_digits() {
    assert_eq!(parse_u32("0"), Ok(0));
    assert_eq!(parse_u32("40"), Ok(40));
    assert_eq!(parse_u32("+17"), Ok(17));
    assert_eq!(parse_u32("007"), Ok(7));
    assert_eq!(parse_u32("4294967295"), Ok(u32::MAX));
    assert_eq!(parse_u32("00000000000000000000000000004294967295"), Ok(u32::MAX));
}

#[test]
fn unreadable_numbers_say_why() {
    assert_eq!(parse_u32(""), Err(NumberError::Empty));
    assert_eq!(parse_u32("+"), Err(NumberError::InvalidDigit));
    assert_eq!(parse_u32("-3"), Err(NumberError::InvalidDigit));
    assert_eq!(parse_u32("12a"), Err(NumberError::InvalidDigit));
    assert_eq!(parse_u32(" 12"), Err(NumberError::InvalidDigit));
    assert_eq!(parse_u32("١٢"), Err(NumberError::InvalidDigit));
    assert_eq!(parse_u32("4294967296"), Err(NumberError::TooLarge));
    assert_eq!(parse_u32("99999999999999999999999999"), Err(NumberError::TooLarge));
}

#[test]
fn number_errors_read_like_the_standard_ones() {
    assert_eq!(NumberError::Empty.message(), "".parse::<u32>().unwrap_err().to_string());
    assert_eq!(NumberError::InvalidDigit.message(), "x".parse::<u32>().unwrap_err().to_string());
    assert_eq!(
        NumberError::TooLarge.message(),
        "4294967296".parse::<u32>().unwrap_err().to_string()
    );
}

#[test]
fn only_numeric_characters_are_kept() {
    assert_eq!(keep_numeric("a1b2 c3"), "123");
    assert_eq!(keep_numeric("abc"), "");
    assert_eq!(keep_numeric(""), "");
    // numeric, though not a digit of 0 to 9
    assert_eq!(keep_numeric("x٣½"), "٣½");
}

#[test]
fn number_fields_keep_numbers_only() {
    assert_eq!(sanitize_number("12"), "12");
    assert_eq!(sanitize_number("1x2y"), "12");
    assert_eq!(sanitize_number("abc"), "");
    assert_eq!(sanitize_number("4294967295"), "4294967295");
    assert_eq!(sanitize_number("4294967296"), "");
    assert_eq!(sanitize_number("1٣"), "");
}

#[test]
fn first_file_name_has_no_number() {
    assert_eq!(file_name_candidate("result", ".png", 0), "result.png");
    assert_eq!(file_name_candidate("result", ".png", 1), "result(1).png");
    assert_eq!(file_name_candidate("result", ".png", 12), "result(12).png");
}

#[test]
fn free_file_name_is_the_first_not_taken() {
    let none: Vec<String> = Vec::new();
    assert_eq!(find_free_filepath(&none, "result", ".png"), "result.png");
    let taken = vec!["result.png".to_string()];
    assert_eq!(find_free_filepath(&taken, "result", ".png"), "result(1).png");
    let taken = vec![
        "result(2).png".to_string(),
        "other.png".to_string(),
        "result.png".to_string(),
        "result(1).png".to_string(),
        "result(4).png".to_string(),
    ];
    assert_eq!(find_free_filepath(&taken, "result", ".png"), "result(3).png");
    let taken = vec!["result(1).png".to_string()];
    assert_eq!(find_free_filepath(&taken, "result", ".png"), "result.png");
}

#[test]
fn free_file_name_is_found_past_nine() {
    let mut taken = vec!["r.x".to_string()];
    for i in 1..=10 {
        taken.push(format!("r({}).x", i));
    }
    assert_eq!(find_free_filepath(&taken, "r", ".x"), "r(11).x");
}

#[test]
fn image_files_are_found_below_the_folder() {
    assert_eq!(IMAGE_EXTENSIONS, ["png", "jpg", "jpeg"]);
    assert_eq!(image_pattern("pics", "png"), "pics/**/*.png");
}

#[test]
fn without_a_limit_all_images_are_read_in_order() {
    assert_eq!(pick_images(4, None), vec![0, 1, 2, 3]);
    assert_eq!(pick_images(0, None), Vec::<usize>::new());
}

#[test]
fn with_a_limit_some_images_are_read() {
    for limit in [0usize, 1, 3, 5, 9] {
        let picked = pick_images(5, Some(limit));
        assert_eq!(picked.len(), limit.min(5));
        let mut sorted = picked.clone();
        sorted.sort();
        sorted.dedup();
        assert_eq!(sorted.len(), picked.len());
        assert!(picked.iter().all(|&k| k < 5));
    }
}

#[test]
fn with_a_limit_the_order_is_random() {
    // 20 positions in a random order: the ascending order comes out once in 20! runs
    let picked = pick_images(20, Some(20));
    let mut sorted = picked.clone();
    sorted.sort();
    assert_eq!(sorted, (0..20).collect::<Vec<usize>>());
    assert_ne!(picked, sorted);
}

#[test]
fn limit_keeps_the_first() {
    assert_eq!(limit_images(vec![5, 3, 9], 2), vec![5, 3]);
    assert_eq!(limit_images(vec![5, 3, 9], 7), vec![5, 3, 9]);
    assert_eq!(limit_images(vec![5, 3, 9], 0), Vec::<usize>::new());
}

#[test]
fn default_options_are_a_forty_by_forty_grid() {
    let opts = MakeImgOfImsOpts::default();
    assert_eq!(opts.target_width, 1000);
    assert_eq!(opts.num_horizontal_imgs, 40);
    assert_eq!(opts.num_vertical_imgs, 40);
    assert_eq!(opts.max_imgs, None);
    assert!(!opts.no_pop);
    assert!(opts.progress_sender.is_none());
    assert!(opts.pop_used_img());
}

#[test]
fn cell_size_divides_the_target() {
    let opts = MakeImgOfImsOpts::default();
    assert_eq!(opts.cell_size(1000, 750), Some((25, 18)));
    assert_eq!(opts.cell_size(39, 39), Some((0, 0)));
    let none = MakeImgOfImsOpts { num_horizontal_imgs: 0, ..MakeImgOfImsOpts::default() };
    assert_eq!(none.cell_size(1000, 750), None);
    let none = MakeImgOfImsOpts { num_vertical_imgs: 0, ..MakeImgOfImsOpts::default() };
    assert_eq!(none.cell_size(1000, 750), None);
}

fn ranked(pos_err_min: u64, err: u64) -> ErrInfo {
    ErrInfo { img_idx: 0, i_pos: 0, j_pos: 0, pos_err_min, err }
}

#[test]
fn ranking_puts_hard_cells_first() {
    assert_eq!(ranked(9, 5).partial_cmp(&ranked(3, 1)), Some(Ordering::Less));
    assert_eq!(ranked(3, 1).partial_cmp(&ranked(9, 5)), Some(Ordering::Greater));
    assert_eq!(ranked(3, 1).partial_cmp(&ranked(3, 2)), Some(Ordering::Less));
    assert_eq!(ranked(3, 2).partial_cmp(&ranked(3, 1)), Some(Ordering::Greater));
    assert_eq!(ranked(3, 2).partial_cmp(&ranked(3, 2)), Some(Ordering::Equal));
    assert!(ranked(9, 5) < ranked(3, 1));
}

#[test]
fn progress_line_names_phase_and_count() {
    assert_eq!(progress_line("calculating errors", 3, 16), "calculating errors (3/16)");
}

#[test]
fn dialog_result_becomes_matching_event() {
    let e = FileDialogType::TargetImgPath.make_result_event("a.png".to_string());
    assert!(matches!(e, Event::SetTargetImgPath(ref s) if s == "a.png"));
    let e = FileDialogType::InputFolderPath.make_result_event("in".to_string());
    assert!(matches!(e, Event::SetInputFolderPath(ref s) if s == "in"));
    let e = FileDialogType::OutputFolderPath.make_result_event("out".to_string());
    assert!(matches!(e, Event::SetOutputFolderPath(ref s) if s == "out"));
}

#[test]
fn captions_name_the_fields() {
    assert_eq!(FileDialogType::TargetImgPath.label(), "Target image");
    assert_eq!(FileDialogType::InputFolderPath.label(), "Input folder");
    assert_eq!(FileDialogType::OutputFolderPath.label(), "Output folder");
    assert_eq!(NumInputType::NumHorizontalImgs.label(), "Amount of horizontal images");
    assert_eq!(NumInputType::NumVerticalImgs.label(), "Amount of vertical images");
    assert_eq!(NumInputType::TargetImgWidth.label(), "Target image width");
}

#[test]
fn form_starts_with_its_defaults() {
    let state = GuiState::default();
    assert_eq!(state.target_img_path, "");
    assert_eq!(state.input_folder_path, "");
    assert_eq!(state.output_folder_path, "results");
    assert_eq!(state.num_horizontal_imgs, "40");
    assert_eq!(state.num_vertical_imgs, "40");
    assert_eq!(state.target_img_width, "1000");
    assert!(!state.processing);
    assert_eq!(state.process_result, None);
    assert_eq!(state.progress_text, None);
}

#[test]
fn events_change_the_form() {
    let mut state = GuiState::default();
    state.handle_event(Event::SetTargetImgPath("t.png".to_string()));
    state.handle_event(Event::SetInputFolderPath("in".to_string()));
    state.handle_event(Event::SetOutputFolderPath("out".to_string()));
    state.handle_event(Event::SetProgressText(Some("hello".to_string())));
    assert_eq!(state.target_img_path, "t.png");
    assert_eq!(state.input_folder_path, "in");
    assert_eq!(state.output_folder_path, "out");
    assert_eq!(state.progress_text.as_deref(), Some("hello"));
    state.processing = true;
    state.handle_event(Event::ProcessFinished { process_result: Some("out/result.png".to_string()) });
    assert!(!state.processing);
    assert_eq!(state.process_result.as_deref(), Some("out/result.png"));
    assert_eq!(state.progress_text.as_deref(), Some("hello"));
}

#[test]
fn progress_is_shown_while_processing() {
    let mut state = GuiState::default();
    state.handle_progress(2, 10, "Inserting images in target");
    assert_eq!(
        state.progress_text.as_deref(),
        Some("Processing: Inserting images in target (2/10)")
    );
}

#[test]
fn typing_into_a_number_field_is_cleaned_up() {
    let mut state = GuiState::default();
    state.set_number(NumInputType::NumHorizontalImgs, "1a2");
    state.set_number(NumInputType::NumVerticalImgs, "x");
    state.set_number(NumInputType::TargetImgWidth, "99999999999");
    assert_eq!(state.num_horizontal_imgs, "12");
    assert_eq!(state.num_vertical_imgs, "");
    assert_eq!(state.target_img_width, "");
}

#[test]
fn run_starts_with_the_numbers_of_the_form() {
    let mut state = GuiState::default();
    let numbers = state.request_run();
    assert_eq!(
        numbers,
        Some(RunNumbers { num_horizontal_imgs: 40, num_vertical_imgs: 40, target_width: 1000 })
    );
    assert!(state.processing);
    // a second click while the run is under way does nothing
    assert_eq!(state.request_run(), None);
    assert!(state.processing);
    assert_eq!(state.progress_text, None);
}

#[test]
fn run_does_not_start_on_an_empty_field() {
    let mut state = GuiState::default();
    state.set_number(NumInputType::NumVerticalImgs, "");
    assert_eq!(state.read_numbers(), Err(NumberError::Empty));
    assert_eq!(state.request_run(), None);
    assert!(state.processing);
    assert_eq!(
        state.progress_text.as_deref(),
        Some("Error in input fields: cannot parse integer from empty string")
    );
}

#[test]
fn run_ends_with_two_events() {
    let (line, end) = finish_events(None, "out/result.png".to_string());
    assert!(matches!(line, Event::SetProgressText(Some(ref s))
        if s == "Finished creating image, which can be found in the results folder"));
    assert!(
        matches!(end, Event::ProcessFinished { process_result: Some(ref p) } if p == "out/result.png")
    );
    let (line, end) = finish_events(Some("no such file"), "out/result.png".to_string());
    assert!(matches!(line, Event::SetProgressText(Some(ref s))
        if s == "Failed creating image of images: no such file"));
    assert!(matches!(end, Event::ProcessFinished { process_result: None }));
}
