use duplicant::setup::{
    check_files, check_globs, plan_output, OutputTarget, SetupError, EXIT_SETUP, EXIT_WRITE,
};

#[test]
fn a_run_needs_a_glob() {
    assert_eq!(check_globs(&vec![]), Err(SetupError::NoGlobs));
    assert_eq!(check_globs(&vec!["*".to_string()]), Ok(()));
    assert_eq!(SetupError::NoGlobs.message(), "error: no globs specified");
}

#[test]
fn a_run_needs_a_file() {
    let none: Vec<u8> = vec![];
    assert_eq!(check_files(&none), Err(SetupError::NoFiles));
    assert_eq!(check_files(&vec![1u8]), Ok(()));
    assert_eq!(
        SetupError::NoFiles.message(),
        "error: no files found - check your globs and try again"
    );
}

#[test]
fn a_dash_means_standard_output() {
    assert!(matches!(plan_output("-".to_string(), false), Ok(OutputTarget::Stdout)));
}

#[test]
fn binary_data_does_not_go_to_a_terminal() {
    assert!(matches!(plan_output("-".to_string(), true), Err(SetupError::StdoutIsTty)));
    assert_eq!(
        SetupError::StdoutIsTty.message(),
        "error: stdout is a tty, refusing to write binary data"
    );
}

#[test]
fn any_other_name_means_a_file() {
    for tty in [false, true] {
        match plan_output("out.bin".to_string(), tty) {
            Ok(OutputTarget::File(name)) => assert_eq!(name, "out.bin"),
            _ => panic!("a file was named"),
        }
        assert!(matches!(plan_output("".to_string(), tty), Ok(OutputTarget::File(_))));
        assert!(matches!(plan_output("--".to_string(), tty), Ok(OutputTarget::File(_))));
    }
}

#[test]
fn exit_statuses() {
    assert_eq!(EXIT_SETUP, 2);
    assert_eq!(EXIT_WRITE, 1);
}
