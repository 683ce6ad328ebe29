//! The interactive front end without its windows: its events, the state they act on, and the
//! texts it shows.

use crate::text::{decimal, decimal_string, parse_u32, parsed_u32, sanitize_number, sanitized, NumberError};
use vstd::prelude::*;
use vstd::string::StringExecFns;

verus! {

/// What a file dialog was opened to choose.
#[derive(Debug, Clone, Copy, PartialEq, Eq, Structural)]
pub enum FileDialogType {
    TargetImgPath,
    InputFolderPath,
    OutputFolderPath,
}

/// A number field of the form.
#[derive(Debug, Clone, Copy, PartialEq, Eq, Structural)]
pub enum NumInputType {
    NumHorizontalImgs,
    NumVerticalImgs,
    TargetImgWidth,
}

/// Something the front end has to react to.
#[derive(Debug, Clone)]
pub enum Event {
    SetTargetImgPath(String),
    SetInputFolderPath(String),
    SetOutputFolderPath(String),
    SetProgressText(Option<String>),
    /// A run has ended; `process_result` is the path of the mosaic if one was written.
    ProcessFinished { process_result: Option<String> },
}

impl FileDialogType {
    /// The event that stores `result`, the path chosen in a dialog of this type.
    pub fn make_result_event(self, result: String) -> (event: Event)
        ensures
            event == match self {
                FileDialogType::TargetImgPath => Event::SetTargetImgPath(result),
                FileDialogType::InputFolderPath => Event::SetInputFolderPath(result),
                FileDialogType::OutputFolderPath => Event::SetOutputFolderPath(result),
            },
    {
        match self {
            FileDialogType::TargetImgPath => Event::SetTargetImgPath(result),
            FileDialogType::InputFolderPath => Event::SetInputFolderPath(result),
            FileDialogType::OutputFolderPath => Event::SetOutputFolderPath(result),
        }
    }

    /// The caption of the path field that a dialog of this type fills.
    pub open spec fn label_text(self) -> Seq<char> {
        match self {
            FileDialogType::TargetImgPath => "Target image"@,
            FileDialogType::InputFolderPath => "Input folder"@,
            FileDialogType::OutputFolderPath => "Output folder"@,
        }
    }

    /// The caption of the path field that a dialog of this type fills.
    pub fn label(self) -> (text: &'static str)
        ensures
            text@ == self.label_text(),
    {
        match self {
            FileDialogType::TargetImgPath => "Target image",
            FileDialogType::InputFolderPath => "Input folder",
            FileDialogType::OutputFolderPath => "Output folder",
        }
    }
}

impl NumInputType {
    /// The caption of the number field.
    pub open spec fn label_text(self) -> Seq<char> {
        match self {
            NumInputType::NumHorizontalImgs => "Amount of horizontal images"@,
            NumInputType::NumVerticalImgs => "Amount of vertical images"@,
            NumInputType::TargetImgWidth => "Target image width"@,
        }
    }

    /// The caption of the number field.
    pub fn label(self) -> (text: &'static str)
        ensures
            text@ == self.label_text(),
    {
        match self {
            NumInputType::NumHorizontalImgs => "Amount of horizontal images",
            NumInputType::NumVerticalImgs => "Amount of vertical images",
            NumInputType::TargetImgWidth => "Target image width",
        }
    }
}

/// The line that reports progress on a terminal: the phase, then `(part/total)`.
pub open spec fn progress_line_text(desc: Seq<char>, part: nat, total: nat) -> Seq<char> {
    desc + " ("@ + decimal(part) + "/"@ + decimal(total) + ")"@
}

/// The line that reports progress on a terminal.
pub fn progress_line(desc: &str, part: usize, total: usize) -> (line: String)
    ensures
        line@ == progress_line_text(desc@, part as nat, total as nat),
{
    let done = decimal_string(part);
    let all = decimal_string(total);
    let line = String::from_str(desc).concat(" (").concat(done.as_str()).concat("/").concat(
        all.as_str(),
    ).concat(")");
    line
}

/// The numbers of a run, read from the number fields.
#[derive(Debug, Clone, Copy, PartialEq, Eq, Structural)]
pub struct RunNumbers {
    pub num_horizontal_imgs: u32,
    pub num_vertical_imgs: u32,
    pub target_width: u32,
}

/// What the front end knows and shows.
#[derive(Debug, Clone)]
pub struct GuiState {
    pub target_img_path: String,
    pub input_folder_path: String,
    pub output_folder_path: String,
    pub num_horizontal_imgs: String,
    pub num_vertical_imgs: String,
    pub target_img_width: String,
    /// A run is under way.
    pub processing: bool,
    /// Path of the mosaic that the last run wrote, if it wrote one.
    pub process_result: Option<String>,
    /// The line shown below the form.
    pub progress_text: Option<String>,
}

/// The text of a line, if there is one.
pub open spec fn line_text(line: Option<String>) -> Option<Seq<char>> {
    match line {
        Some(text) => Some(text@),
        None => None,
    }
}

impl Default for GuiState {
    fn default() -> (state: Self)
        ensures
            state.target_img_path@ == Seq::<char>::empty(),
            state.input_folder_path@ == Seq::<char>::empty(),
            state.output_folder_path@ == "results"@,
            state.num_horizontal_imgs@ == "40"@,
            state.num_vertical_imgs@ == "40"@,
            state.target_img_width@ == "1000"@,
            !state.processing,
            state.process_result is None,
            state.progress_text is None,
    {
        GuiState {
            target_img_path: String::new(),
            input_folder_path: String::new(),
            output_folder_path: String::from_str("results"),
            num_horizontal_imgs: String::from_str("40"),
            num_vertical_imgs: String::from_str("40"),
            target_img_width: String::from_str("1000"),
            processing: false,
            process_result: None,
            progress_text: None,
        }
    }
}

impl GuiState {
    /// The state after `event`.
    pub open spec fn after(self, event: Event) -> GuiState {
        match event {
            Event::SetTargetImgPath(path) => GuiState { target_img_path: path, ..self },
            Event::SetInputFolderPath(path) => GuiState { input_folder_path: path, ..self },
            Event::SetOutputFolderPath(path) => GuiState { output_folder_path: path, ..self },
            Event::SetProgressText(text) => GuiState { progress_text: text, ..self },
            Event::ProcessFinished { process_result } => GuiState {
                processing: false,
                process_result,
                ..self
            },
        }
    }

    /// Reacts to `event`.
    pub fn handle_event(&mut self, event: Event)
        ensures
            *final(self) == old(self).after(event),
    {
        match event {
            Event::SetTargetImgPath(path) => {
                self.target_img_path = path;
            },
            Event::SetInputFolderPath(path) => {
                self.input_folder_path = path;
            },
            Event::SetOutputFolderPath(path) => {
                self.output_folder_path = path;
            },
            Event::SetProgressText(text) => {
                self.progress_text = text;
            },
            Event::ProcessFinished { process_result } => {
                self.processing = false;
                self.process_result = process_result;
            },
        }
    }

    /// The line shown while a run is under way: `Processing: `, the phase, then
    /// `(part/total)`.
    pub open spec fn processing_text(desc: Seq<char>, part: nat, total: nat) -> Seq<char> {
        "Processing: "@ + progress_line_text(desc, part, total)
    }

    /// Shows how far the run has come.
    pub fn handle_progress(&mut self, part: usize, total: usize, desc: &str)
        ensures
            line_text(final(self).progress_text) == Some(
                Self::processing_text(desc@, part as nat, total as nat),
            ),
            *final(self) == (GuiState { progress_text: final(self).progress_text, ..*old(self) }),
    {
        let line = progress_line(desc, part, total);
        let text = String::from_str("Processing: ").concat(line.as_str());
        self.progress_text = Some(text);
    }

    /// The text of a number field.
    pub open spec fn number_text(self, field: NumInputType) -> Seq<char> {
        match field {
            NumInputType::NumHorizontalImgs => self.num_horizontal_imgs@,
            NumInputType::NumVerticalImgs => self.num_vertical_imgs@,
            NumInputType::TargetImgWidth => self.target_img_width@,
        }
    }

    /// Takes what was typed into a number field: the field keeps the numeric characters where
    /// they write a number that fits in 32 bits, and is emptied otherwise.
    pub fn set_number(&mut self, field: NumInputType, typed: &str)
        ensures
            final(self).number_text(field) == sanitized(typed@),
            match field {
                NumInputType::NumHorizontalImgs => *final(self) == (GuiState {
                    num_horizontal_imgs: final(self).num_horizontal_imgs,
                    ..*old(self)
                }),
                NumInputType::NumVerticalImgs => *final(self) == (GuiState {
                    num_vertical_imgs: final(self).num_vertical_imgs,
                    ..*old(self)
                }),
                NumInputType::TargetImgWidth => *final(self) == (GuiState {
                    target_img_width: final(self).target_img_width,
                    ..*old(self)
                }),
            },
    {
        let shown = sanitize_number(typed);
        match field {
            NumInputType::NumHorizontalImgs => {
                self.num_horizontal_imgs = shown;
            },
            NumInputType::NumVerticalImgs => {
                self.num_vertical_imgs = shown;
            },
            NumInputType::TargetImgWidth => {
                self.target_img_width = shown;
            },
        }
    }

    /// The numbers that the number fields write, or the error of the first field, in the
    /// order horizontal, vertical, width, that writes none.
    pub open spec fn numbers(self) -> Result<RunNumbers, NumberError> {
        match parsed_u32(self.num_horizontal_imgs@) {
            Err(e) => Err(e),
            Ok(num_horizontal_imgs) => match parsed_u32(self.num_vertical_imgs@) {
                Err(e) => Err(e),
                Ok(num_vertical_imgs) => match parsed_u32(self.target_img_width@) {
                    Err(e) => Err(e),
                    Ok(target_width) => Ok(
                        RunNumbers { num_horizontal_imgs, num_vertical_imgs, target_width },
                    ),
                },
            },
        }
    }

    /// Reads the number fields.
    pub fn read_numbers(&self) -> (numbers: Result<RunNumbers, NumberError>)
        ensures
            numbers == self.numbers(),
    {
        let num_horizontal_imgs = match parse_u32(self.num_horizontal_imgs.as_str()) {
            Ok(n) => n,
            Err(e) => {
                return Err(e);
            },
        };
        let num_vertical_imgs = match parse_u32(self.num_vertical_imgs.as_str()) {
            Ok(n) => n,
            Err(e) => {
                return Err(e);
            },
        };
        let target_width = match parse_u32(self.target_img_width.as_str()) {
            Ok(n) => n,
            Err(e) => {
                return Err(e);
            },
        };
        Ok(RunNumbers { num_horizontal_imgs, num_vertical_imgs, target_width })
    }

    /// The line shown where a number field writes no number.
    pub open spec fn field_error_text(e: NumberError) -> Seq<char> {
        "Error in input fields: "@ + e.message_text()
    }

    /// Reacts to the button that starts a run.
    ///
    /// While a run is under way nothing happens. Otherwise a run counts as under way from now
    /// on; its numbers are returned where the number fields write them, and the error of the
    /// first field that writes none is shown otherwise.
    pub fn request_run(&mut self) -> (numbers: Option<RunNumbers>)
        ensures
            old(self).processing ==> numbers is None && *final(self) == *old(self),
            !old(self).processing ==> match old(self).numbers() {
                Ok(n) => numbers == Some(n) && *final(self) == (GuiState {
                    processing: true,
                    ..*old(self)
                }),
                Err(e) => {
                    &&& numbers is None
                    &&& line_text(final(self).progress_text) == Some(Self::field_error_text(e))
                    &&& *final(self) == (GuiState {
                        processing: true,
                        progress_text: final(self).progress_text,
                        ..*old(self)
                    })
                },
            },
    {
        if self.processing {
            return None;
        }
        self.processing = true;
        match self.read_numbers() {
            Ok(n) => Some(n),
            Err(e) => {
                let text = String::from_str("Error in input fields: ").concat(e.message());
                self.progress_text = Some(text);
                None
            },
        }
    }
}

/// The line shown once a run has written its mosaic.
pub open spec fn success_text() -> Seq<char> {
    "Finished creating image, which can be found in the results folder"@
}

/// The line shown once a run has failed with the error `error`.
pub open spec fn failure_text(error: Seq<char>) -> Seq<char> {
    "Failed creating image of images: "@ + error
}

/// The two events that end a run: the line to show, and the end itself. `failure` is the
/// error of a run that failed; `output_file` is where a run that did not fail wrote.
pub fn finish_events(failure: Option<&str>, output_file: String) -> (events: (Event, Event))
    ensures
        match failure {
            None => {
                &&& events.0 matches Event::SetProgressText(Some(text)) && text@ == success_text()
                &&& events.1 == (Event::ProcessFinished { process_result: Some(output_file) })
            },
            Some(error) => {
                &&& events.0 matches Event::SetProgressText(Some(text)) && text@ == failure_text(
                    error@,
                )
                &&& events.1 == (Event::ProcessFinished { process_result: None })
            },
        },
{
    match failure {
        None => (
            Event::SetProgressText(
                Some(
                    String::from_str(
                        "Finished creating image, which can be found in the results folder",
                    ),
                ),
            ),
            Event::ProcessFinished { process_result: Some(output_file) },
        ),
        Some(error) => (
            Event::SetProgressText(
                Some(String::from_str("Failed creating image of images: ").concat(error)),
            ),
            Event::ProcessFinished { process_result: None },
        ),
    }
}

} // verus!
