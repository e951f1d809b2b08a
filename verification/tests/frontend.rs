use rbxlx_to_rojo::frontend::{
    check_fields, format_for_extension, request_format, Banner, GUIError, InputFormat, Picker,
    PickerAction, PickerEvent, Problem, RequestError, Status,
};

#[test]
fn extensions_pick_the_decoder() {
    assert_eq!(format_for_extension(Some("rbxmx")), Some(InputFormat::Xml));
    assert_eq!(format_for_extension(Some("rbxlx")), Some(InputFormat::Xml));
    assert_eq!(format_for_extension(Some("rbxm")), Some(InputFormat::Binary));
    assert_eq!(format_for_extension(Some("rbxl")), Some(InputFormat::Binary));
    for other in ["", "RBXL", "rbx", "rbxlxx", "xml", "rbxl "] {
        assert_eq!(format_for_extension(Some(other)), None, "{}", other);
    }
    assert_eq!(format_for_extension(None), None);
}

#[test]
fn problems_are_told_in_words() {
    assert_eq!(
        Problem::BinaryDecodeError("byte 12".to_string()).message(),
        "While attempting to decode the place file, at byte 12 rbx_binary didn't know what to do"
    );
    assert_eq!(Problem::InvalidFile.message(), "The file provided does not have a recognized file extension");
    assert_eq!(
        Problem::IoError("read the place file".to_string(), "not found".to_string()).message(),
        "While attempting to read the place file, not found"
    );
    assert_eq!(Problem::FileDialogueCancel.message(), "Didn't choose a file.");
    assert_eq!(
        Problem::FileDialogueError("File Error".to_string()).message(),
        "Something went wrong when choosing a file: File Error"
    );
    assert_eq!(
        Problem::XMLDecodeError("line 3".to_string()).message(),
        "While attempting to decode the place file, at line 3 rbx_xml didn't know what to do"
    );
    assert_eq!(GUIError::Gui("no display".to_string()).message(), "Gui Error: no display");
}

#[test]
fn request_errors_are_told_in_words() {
    assert_eq!(RequestError::NoInput.message(), "No Input File Provided");
    assert_eq!(RequestError::NoOutput.message(), "No Output File Provided");
    assert_eq!(RequestError::Open("denied".to_string()).message(), "Input File Error: denied");
    assert_eq!(RequestError::XmlDecode("bad".to_string()).message(), "Input File Decode Error: bad");
    assert_eq!(RequestError::BinaryDecode("bad".to_string()).message(), "Input File Binary Decode Error: bad");
    assert_eq!(RequestError::InvalidInput.message(), "Invalid Input File");
}

#[test]
fn empty_fields_are_refused_input_first() {
    assert_eq!(check_fields("", ""), Err(RequestError::NoInput));
    assert_eq!(check_fields("", "out"), Err(RequestError::NoInput));
    assert_eq!(check_fields("in.rbxl", ""), Err(RequestError::NoOutput));
    assert_eq!(check_fields("in.rbxl", "out"), Ok(()));
    assert_eq!(request_format(Some("rbxl")), Ok(InputFormat::Binary));
    assert_eq!(request_format(Some("txt")), Err(RequestError::InvalidInput));
    assert_eq!(request_format(None), Err(RequestError::InvalidInput));
}

#[test]
fn the_file_picker_opens_one_dialogue_at_a_time() {
    let mut picker = Picker::for_file();
    picker.text = "old.rbxl".to_string();
    assert_eq!(picker.step(PickerEvent::Clicked), PickerAction::Open("old.rbxl".to_string()));
    assert!(picker.waiting);
    assert_eq!(picker.step(PickerEvent::Clicked), PickerAction::Idle);
    assert_eq!(picker.step(PickerEvent::Picked("new.rbxl".to_string())), PickerAction::Idle);
    assert_eq!(picker.text, "new.rbxl");
    assert!(!picker.waiting);
    assert_eq!(picker.step(PickerEvent::Clicked), PickerAction::Open("new.rbxl".to_string()));
}

#[test]
fn the_folder_picker_keeps_waiting() {
    let mut picker = Picker::for_folder();
    assert_eq!(picker.step(PickerEvent::Clicked), PickerAction::Open(String::new()));
    assert_eq!(picker.step(PickerEvent::Picked("/tmp/out".to_string())), PickerAction::Idle);
    assert_eq!(picker.text, "/tmp/out");
    assert!(picker.waiting);
    assert_eq!(picker.step(PickerEvent::Clicked), PickerAction::Idle);
}

#[test]
fn the_status_line_shows_the_last_error_or_success() {
    let mut status = Status::new();
    assert_eq!(status.banner(), Banner::Blank);
    status.after_request(Err("No Input File Provided".to_string()));
    assert_eq!(status.banner(), Banner::Error("No Input File Provided".to_string()));
    status.after_request(Ok(()));
    assert_eq!(status.banner(), Banner::Success);
    status.after_request(Err("Invalid Input File".to_string()));
    assert_eq!(status.banner(), Banner::Error("Invalid Input File".to_string()));
    assert!(status.success);
}
