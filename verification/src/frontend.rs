//! What the front ends decide: which decoder reads a file, whether a request
//! can be run at all, what the user is told when something goes wrong, and
//! how the pickers and the status line of the window behave.

use vstd::prelude::*;
use crate::text::{chars_of, concat, push_str, same_text, string_of};

verus! {

/// The format of an input file.
#[derive(Clone, Copy, Debug, PartialEq, Eq, Structural)]
pub enum InputFormat {
    /// The XML format, of the extensions `rbxmx` and `rbxlx`.
    Xml,
    /// The binary format, of the extensions `rbxm` and `rbxl`.
    Binary,
}

/// The format that a file extension stands for, if it is a known one. The
/// extension is given without its dot and is taken as it stands: upper case
/// is not recognized.
pub open spec fn format_of(extension: Option<Seq<char>>) -> Option<InputFormat> {
    match extension {
        Some(ext) => if ext == "rbxmx"@ || ext == "rbxlx"@ {
            Some(InputFormat::Xml)
        } else if ext == "rbxm"@ || ext == "rbxl"@ {
            Some(InputFormat::Binary)
        } else {
            None
        },
        None => None,
    }
}

/// The format of the input file with the given extension, if the extension
/// is a known one.
pub fn format_for_extension(extension: Option<&str>) -> (format: Option<InputFormat>)
    ensures
        format == format_of(
            match extension {
                Some(ext) => Some(ext@),
                None => None,
            },
        ),
{
    match extension {
        Some(ext) => if same_text(ext, "rbxmx") || same_text(ext, "rbxlx") {
            Some(InputFormat::Xml)
        } else if same_text(ext, "rbxm") || same_text(ext, "rbxl") {
            Some(InputFormat::Binary)
        } else {
            None
        },
        None => None,
    }
}

/// What can go wrong on the command line. Errors of the decoders and of the
/// system are held by their texts.
#[derive(Debug, PartialEq, Eq)]
pub enum Problem {
    /// The binary decoder gave up.
    BinaryDecodeError(String),
    /// The file has no known extension, or no file was named.
    InvalidFile,
    /// The system refused something: what was being done, and the error.
    IoError(String, String),
    /// The file dialogue was closed without a choice.
    FileDialogueCancel,
    /// The file dialogue failed.
    FileDialogueError(String),
    /// The XML decoder gave up.
    XMLDecodeError(String),
}

/// The mathematical value of a problem.
pub enum ProblemModel {
    BinaryDecodeError(Seq<char>),
    InvalidFile,
    IoError(Seq<char>, Seq<char>),
    FileDialogueCancel,
    FileDialogueError(Seq<char>),
    XMLDecodeError(Seq<char>),
}

impl View for Problem {
    type V = ProblemModel;

    open spec fn view(&self) -> ProblemModel {
        match self {
            Problem::BinaryDecodeError(e) => ProblemModel::BinaryDecodeError(e@),
            Problem::InvalidFile => ProblemModel::InvalidFile,
            Problem::IoError(doing, e) => ProblemModel::IoError(doing@, e@),
            Problem::FileDialogueCancel => ProblemModel::FileDialogueCancel,
            Problem::FileDialogueError(e) => ProblemModel::FileDialogueError(e@),
            Problem::XMLDecodeError(e) => ProblemModel::XMLDecodeError(e@),
        }
    }
}

/// What the user is told of a problem.
pub open spec fn problem_message(p: ProblemModel) -> Seq<char> {
    match p {
        ProblemModel::BinaryDecodeError(e) => "While attempting to decode the place file, at "@ + e
            + " rbx_binary didn't know what to do"@,
        ProblemModel::InvalidFile => "The file provided does not have a recognized file extension"@,
        ProblemModel::IoError(doing, e) => "While attempting to "@ + doing + ", "@ + e,
        ProblemModel::FileDialogueCancel => "Didn't choose a file."@,
        ProblemModel::FileDialogueError(e) => "Something went wrong when choosing a file: "@ + e,
        ProblemModel::XMLDecodeError(e) => "While attempting to decode the place file, at "@ + e
            + " rbx_xml didn't know what to do"@,
    }
}

fn join3(a: &str, b: &str, c: &str) -> (out: String)
    ensures
        out@ == a@ + b@ + c@,
{
    let mut chars = chars_of(a);
    push_str(&mut chars, b);
    push_str(&mut chars, c);
    string_of(&chars)
}

impl Problem {
    /// What the user is told of the problem.
    pub fn message(&self) -> (text: String)
        ensures
            text@ == problem_message(self@),
    {
        match self {
            Problem::BinaryDecodeError(e) => join3(
                "While attempting to decode the place file, at ",
                e.as_str(),
                " rbx_binary didn't know what to do",
            ),
            Problem::InvalidFile => "The file provided does not have a recognized file extension".to_owned(),
            Problem::IoError(doing, e) => {
                let head = join3("While attempting to ", doing.as_str(), ", ");
                concat(head.as_str(), e.as_str())
            },
            Problem::FileDialogueCancel => "Didn't choose a file.".to_owned(),
            Problem::FileDialogueError(e) => concat(
                "Something went wrong when choosing a file: ",
                e.as_str(),
            ),
            Problem::XMLDecodeError(e) => join3(
                "While attempting to decode the place file, at ",
                e.as_str(),
                " rbx_xml didn't know what to do",
            ),
        }
    }
}

/// What can go wrong in the window itself.
#[derive(Debug, PartialEq, Eq)]
pub enum GUIError {
    /// The window could not be run; the error is held by its text.
    Gui(String),
}

impl GUIError {
    /// What the user is told of the error.
    pub fn message(&self) -> (text: String)
        ensures
            match self {
                GUIError::Gui(e) => text@ == "Gui Error: "@ + e@,
            },
    {
        match self {
            GUIError::Gui(e) => concat("Gui Error: ", e.as_str()),
        }
    }
}

/// Why a request made in the window cannot be run, or why it failed.
#[derive(Debug, PartialEq, Eq)]
pub enum RequestError {
    /// No input file was given.
    NoInput,
    /// No output directory was given.
    NoOutput,
    /// The input file could not be opened.
    Open(String),
    /// The XML decoder gave up.
    XmlDecode(String),
    /// The binary decoder gave up.
    BinaryDecode(String),
    /// The input file has no known extension.
    InvalidInput,
}

/// The mathematical value of a request error.
pub enum RequestErrorModel {
    NoInput,
    NoOutput,
    Open(Seq<char>),
    XmlDecode(Seq<char>),
    BinaryDecode(Seq<char>),
    InvalidInput,
}

impl View for RequestError {
    type V = RequestErrorModel;

    open spec fn view(&self) -> RequestErrorModel {
        match self {
            RequestError::NoInput => RequestErrorModel::NoInput,
            RequestError::NoOutput => RequestErrorModel::NoOutput,
            RequestError::Open(e) => RequestErrorModel::Open(e@),
            RequestError::XmlDecode(e) => RequestErrorModel::XmlDecode(e@),
            RequestError::BinaryDecode(e) => RequestErrorModel::BinaryDecode(e@),
            RequestError::InvalidInput => RequestErrorModel::InvalidInput,
        }
    }
}

/// What the window shows for a request error.
pub open spec fn request_message(e: RequestErrorModel) -> Seq<char> {
    match e {
        RequestErrorModel::NoInput => "No Input File Provided"@,
        RequestErrorModel::NoOutput => "No Output File Provided"@,
        RequestErrorModel::Open(e) => "Input File Error: "@ + e,
        RequestErrorModel::XmlDecode(e) => "Input File Decode Error: "@ + e,
        RequestErrorModel::BinaryDecode(e) => "Input File Binary Decode Error: "@ + e,
        RequestErrorModel::InvalidInput => "Invalid Input File"@,
    }
}

impl RequestError {
    /// What the window shows for the error.
    pub fn message(&self) -> (text: String)
        ensures
            text@ == request_message(self@),
    {
        match self {
            RequestError::NoInput => "No Input File Provided".to_owned(),
            RequestError::NoOutput => "No Output File Provided".to_owned(),
            RequestError::Open(e) => concat("Input File Error: ", e.as_str()),
            RequestError::XmlDecode(e) => concat("Input File Decode Error: ", e.as_str()),
            RequestError::BinaryDecode(e) => concat(
                "Input File Binary Decode Error: ",
                e.as_str(),
            ),
            RequestError::InvalidInput => "Invalid Input File".to_owned(),
        }
    }
}

/// Checks the two fields of the window before anything is read: the input is
/// looked at first, then the output, and an empty one is refused.
pub fn check_fields(input: &str, output: &str) -> (r: Result<(), RequestError>)
    ensures
        match r {
            Ok(_) => input@.len() > 0 && output@.len() > 0,
            Err(e) => if input@.len() == 0 {
                e@ == RequestErrorModel::NoInput
            } else {
                output@.len() == 0 && e@ == RequestErrorModel::NoOutput
            },
        },
{
    if input.is_empty() {
        Err(RequestError::NoInput)
    } else if output.is_empty() {
        Err(RequestError::NoOutput)
    } else {
        Ok(())
    }
}

/// The format in which the input file of a request is decoded, once the file
/// is open: the one of its extension, and an error where the extension is
/// not a known one.
pub fn request_format(extension: Option<&str>) -> (r: Result<InputFormat, RequestError>)
    ensures
        match r {
            Ok(format) => format_of(
                match extension {
                    Some(ext) => Some(ext@),
                    None => None,
                },
            ) == Some(format),
            Err(e) => e@ == RequestErrorModel::InvalidInput && format_of(
                match extension {
                    Some(ext) => Some(ext@),
                    None => None,
                },
            ) is None,
        },
{
    match format_for_extension(extension) {
        Some(format) => Ok(format),
        None => Err(RequestError::InvalidInput),
    }
}

/// The state of a picker: the text of its field, and whether a dialogue was
/// opened whose answer has not been taken note of.
#[derive(Debug, PartialEq, Eq)]
pub struct Picker {
    /// The text of the field.
    pub text: String,
    /// Whether the picker holds the receiving end of a dialogue.
    pub waiting: bool,
    /// Whether the picker lets go of the receiving end when an answer comes,
    /// so that its button opens a dialogue again. The file picker does; the
    /// folder picker keeps it.
    pub rearms: bool,
}

/// What happens to a picker.
#[derive(Debug, PartialEq, Eq)]
pub enum PickerEvent {
    /// The button was clicked.
    Clicked,
    /// The dialogue gave a path.
    Picked(String),
}

/// What a picker asks for.
#[derive(Debug, PartialEq, Eq)]
pub enum PickerAction {
    /// Nothing.
    Idle,
    /// Open a dialogue that starts from the given text of the field.
    Open(String),
}

impl Picker {
    /// The picker of the input file.
    pub fn for_file() -> (p: Picker)
        ensures
            p.text@ == Seq::<char>::empty(),
            !p.waiting,
            p.rearms,
    {
        Picker { text: String::new(), waiting: false, rearms: true }
    }

    /// The picker of the output directory.
    pub fn for_folder() -> (p: Picker)
        ensures
            p.text@ == Seq::<char>::empty(),
            !p.waiting,
            !p.rearms,
    {
        Picker { text: String::new(), waiting: false, rearms: false }
    }

    /// Takes one event. A click opens a dialogue unless the picker is
    /// waiting; while it waits, clicks do nothing. A path that the dialogue
    /// gave becomes the text of the field.
    pub fn step(&mut self, event: PickerEvent) -> (action: PickerAction)
        ensures
            final(self).rearms == old(self).rearms,
            match event {
                PickerEvent::Clicked => {
                    &&& final(self).text@ == old(self).text@
                    &&& final(self).waiting
                    &&& if old(self).waiting {
                        action == PickerAction::Idle
                    } else {
                        action matches PickerAction::Open(from) && from@ == old(self).text@
                    }
                },
                PickerEvent::Picked(path) => {
                    &&& final(self).text@ == path@
                    &&& final(self).waiting == (old(self).waiting && !old(self).rearms)
                    &&& action == PickerAction::Idle
                },
            },
    {
        match event {
            PickerEvent::Clicked => {
                if self.waiting {
                    PickerAction::Idle
                } else {
                    self.waiting = true;
                    PickerAction::Open(self.text.clone())
                }
            },
            PickerEvent::Picked(path) => {
                self.text = path;
                if self.rearms {
                    self.waiting = false;
                }
                PickerAction::Idle
            },
        }
    }
}

/// What the status line of the window shows.
#[derive(Debug, PartialEq, Eq)]
pub enum Banner {
    /// Nothing.
    Blank,
    /// An error, in red.
    Error(String),
    /// The word `Success`, in green.
    Success,
}

/// What the window remembers of the requests that were run.
#[derive(Debug, PartialEq, Eq)]
pub struct Status {
    /// The message of the last request, if it failed.
    pub error_msg: Option<String>,
    /// Whether any request succeeded yet.
    pub success: bool,
}

impl Status {
    /// The status before any request.
    pub fn new() -> (s: Status)
        ensures
            s.error_msg is None,
            !s.success,
    {
        Status { error_msg: None, success: false }
    }

    /// Takes note of how a request ended.
    pub fn after_request(&mut self, outcome: Result<(), String>)
        ensures
            match outcome {
                Ok(_) => final(self).error_msg is None && final(self).success,
                Err(e) => final(self).error_msg == Some(e) && final(self).success == old(
                    self,
                ).success,
            },
    {
        match outcome {
            Ok(_) => {
                self.error_msg = None;
                self.success = true;
            },
            Err(e) => {
                self.error_msg = Some(e);
            },
        }
    }

    /// What the status line shows: the error of the last request if it
    /// failed, else `Success` once a request succeeded, else nothing.
    pub fn banner(&self) -> (b: Banner)
        ensures
            match self.error_msg {
                Some(e) => b matches Banner::Error(text) && text@ == e@,
                None => b == if self.success {
                    Banner::Success
                } else {
                    Banner::Blank
                },
            },
    {
        match &self.error_msg {
            Some(e) => Banner::Error(e.clone()),
            None => if self.success {
                Banner::Success
            } else {
                Banner::Blank
            },
        }
    }
}

} // verus!
