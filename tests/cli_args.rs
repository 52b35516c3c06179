use dinfo::{check_root, is_hidden_name, keeps_entry, Args, RootError};

fn args_for(path: &str) -> Args {
    Args {
        path: String::from(path),
        top_files: 10,
        top_dirs: 10,
        show_all: false,
        no_color: false,
        show_hidden: false,
    }
}

#[test]
fn test_args_defaults() {
    let args = Args {
        path: String::from("."),
        top_files: 10,
        top_dirs: 10,
        show_all: false,
        no_color: false,
        show_hidden: false,
    };

    assert_eq!(args.path, String::from("."));
    assert_eq!(args.top_files, 10);
    assert_eq!(args.top_dirs, 10);
    assert!(!args.show_all);
    assert!(!args.no_color);
    assert!(!args.show_hidden);
}

#[test]
fn test_validate_path_current_directory() {
    let args = args_for(".");
    assert!(args.validate_path().is_ok());
}

#[test]
fn test_validate_path_nonexistent() {
    let args = args_for("/nonexistent/path/that/should/not/exist");
    assert!(args.validate_path().is_err());
}

#[test]
fn validate_path_nonexistent_is_not_found() {
    let args = args_for("/nonexistent/path/that/should/not/exist");
    assert_eq!(args.validate_path(), Err(RootError::NotFound));
}

#[test]
fn validate_path_on_regular_file_is_not_a_directory() {
    let args = args_for("/etc/passwd");
    assert_eq!(args.validate_path(), Err(RootError::NotADirectory));
}

#[test]
fn check_root_verdicts() {
    assert_eq!(check_root(false, false), Err(RootError::NotFound));
    assert_eq!(check_root(false, true), Err(RootError::NotFound));
    assert_eq!(check_root(true, false), Err(RootError::NotADirectory));
    assert_eq!(check_root(true, true), Ok(()));
}

#[test]
fn hidden_names_start_with_a_dot() {
    assert!(is_hidden_name(".secret"));
    assert!(is_hidden_name("."));
    assert!(!is_hidden_name("visible.txt"));
    assert!(!is_hidden_name("a.b"));
    assert!(!is_hidden_name(""));
}

#[test]
fn hidden_entries_are_pruned_unless_shown() {
    assert!(keeps_entry(".", 0, false));
    assert!(keeps_entry(".secret", 0, false));
    assert!(!keeps_entry(".secret", 1, false));
    assert!(keeps_entry(".secret", 1, true));
    assert!(keeps_entry("visible.txt", 3, false));
}
