use git_raport::git::{get_git_log_arguments, is_git_directory, repository_url_from_output};

#[test]
fn log_arguments_for_a_year_and_author() {
    let args = get_git_log_arguments(2024, &"Jane Doe".to_string());
    assert_eq!(
        args,
        vec![
            "log", "--since", "2024-01-01", "--until", "2024-12-31", "--author", "Jane Doe",
            "--date", "rfc"
        ]
    );
}

#[test]
fn git_directory_name() {
    assert!(is_git_directory(".git"));
    assert!(!is_git_directory("git"));
    assert!(!is_git_directory(".github"));
    assert!(!is_git_directory(""));
}

#[test]
fn remote_url_loses_line_end_and_git_suffix() {
    assert_eq!(
        repository_url_from_output("https://github.com/a/b.git\n"),
        "https://github.com/a/b"
    );
    assert_eq!(
        repository_url_from_output("git@host:a/b.git\r\n"),
        "git@host:a/b"
    );
    assert_eq!(repository_url_from_output("https://host/a/b\n"), "https://host/a/b");
    assert_eq!(repository_url_from_output(""), "");
}
