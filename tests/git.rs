use nabs::git::{parse_diff_output, trim, trim_end, GitError, GitImpl, Mode};

type Command = Vec<String>;

#[test]
fn base_on_feature_branch() {
    let mut actual_command: Option<Command> = None;
    let expected_command = Some(vec![
        "git".to_string(),
        "merge-base".to_string(),
        "main".to_string(),
        "HEAD".to_string(),
    ]);

    let mock_exec = |cmd: Command| -> Result<String, String> {
        actual_command = Some(cmd);

        Ok("abc\n".to_string())
    };

    let mut git = GitImpl::new(mock_exec);

    let actual = git.diff_base(Mode::Feature("main".to_string()));
    let expected = Ok("abc".to_string());

    assert_eq!(actual, expected);
    assert_eq!(actual_command, expected_command);
}

#[test]
fn base_on_main_branch() {
    let mut actual_command: Option<Command> = None;
    let expected_command = None;

    let mock_exec = |cmd: Command| -> Result<String, String> {
        actual_command = Some(cmd);

        Ok("abc\n".to_string())
    };

    let mut git = GitImpl::new(mock_exec);

    let actual = git.diff_base(Mode::Main("HEAD^1".to_string()));
    let expected = Ok("HEAD^1".to_string());

    assert_eq!(actual, expected);
    assert_eq!(actual_command, expected_command);
}

#[test]
fn diff_on_feature_branch() {
    let mut actual_commands: Vec<Command> = vec![];
    let expected_command: Vec<String> = vec![
        "git".into(),
        "diff".into(),
        "--no-commit-id".into(),
        "--name-only".into(),
        "-r".into(),
        "main".into(),
    ];

    let mock_exec = |cmd: Command| -> Result<String, String> {
        actual_commands.push(cmd);

        if actual_commands.len() < 2 {
            Ok("main\n".to_string())
        } else {
            Ok("one\ntwo\nthree\n".to_string())
        }
    };

    let mut git = GitImpl::new(mock_exec);

    let actual = git.diff(Mode::Feature("main".to_string()), vec![]);
    let expected = Ok(vec!["one".to_string(), "two".to_string(), "three".to_string()]);

    assert_eq!(actual, expected);
    assert_eq!(actual_commands[1], expected_command);
}

#[test]
fn diff_on_main_branch() {
    let mut actual_commands: Vec<Command> = vec![];
    let expected_command: Vec<String> = vec![
        "git".into(),
        "diff".into(),
        "--no-commit-id".into(),
        "--name-only".into(),
        "-r".into(),
        "HEAD^1".into(),
    ];

    let mock_exec = |cmd: Command| -> Result<String, String> {
        actual_commands.push(cmd);

        Ok("one\ntwo\nthree\n".to_string())
    };

    let mut git = GitImpl::new(mock_exec);

    let actual = git.diff(Mode::Main("HEAD^1".to_string()), vec![]);
    let expected = Ok(vec!["one".to_string(), "two".to_string(), "three".to_string()]);

    assert_eq!(actual, expected);
    assert_eq!(actual_commands[0], expected_command);
}

#[test]
fn diff_with_files() {
    let mut actual_commands: Vec<Command> = vec![];
    let expected_command: Vec<String> = vec![
        "git".into(),
        "diff".into(),
        "--no-commit-id".into(),
        "--name-only".into(),
        "-r".into(),
        "HEAD^1".into(),
        "--".into(),
        "blah.txt".into(),
        "blah2.txt".into(),
    ];

    let mock_exec = |cmd: Command| -> Result<String, String> {
        actual_commands.push(cmd);

        Ok("one\ntwo\nthree\n".to_string())
    };

    let mut git = GitImpl::new(mock_exec);

    let actual = git.diff(
        Mode::Main("HEAD^1".to_string()),
        vec!["blah.txt".into(), "blah2.txt".into()],
    );
    let expected = Ok(vec!["one".to_string(), "two".to_string(), "three".to_string()]);

    assert_eq!(actual, expected);
    assert_eq!(actual_commands[0], expected_command);
}

#[test]
fn merge_base_failure_names_the_branch() {
    let mock_exec = |_cmd: Command| -> Result<String, String> { Err("no such ref".to_string()) };
    let mut git = GitImpl::new(mock_exec);
    let actual = git.diff_base(Mode::Feature("topic".to_string()));
    assert_eq!(
        actual,
        Err(GitError::MergeBase("topic".to_string(), "no such ref".to_string()))
    );
}

#[test]
fn diff_failure_is_a_diff_error() {
    let mock_exec = |_cmd: Command| -> Result<String, String> { Err("bad".to_string()) };
    let mut git = GitImpl::new(mock_exec);
    let actual = git.diff(Mode::Main("HEAD".to_string()), vec![]);
    assert_eq!(actual, Err(GitError::Diff("bad".to_string())));
}

#[test]
fn repo_root_is_trimmed() {
    let mock_exec = |cmd: Command| -> Result<String, String> {
        assert_eq!(cmd, vec!["git", "rev-parse", "--show-toplevel"]);
        Ok("  /home/me/repo\n".to_string())
    };
    let mut git = GitImpl::new(mock_exec);
    assert_eq!(git.repo_root(), Ok("/home/me/repo".to_string()));

    let failing = |_cmd: Command| -> Result<String, String> { Err("not a repo".to_string()) };
    let mut git = GitImpl::new(failing);
    assert_eq!(git.repo_root(), Err(GitError::CouldntFindRoot("not a repo".to_string())));
}

#[test]
fn empty_diff_means_no_changes() {
    let mock_exec = |_cmd: Command| -> Result<String, String> { Ok("\n".to_string()) };
    let mut git = GitImpl::new(mock_exec);
    assert_eq!(
        git.have_files_changed("HEAD".to_string(), "service".to_string()),
        Ok(false)
    );
    let changed = |_cmd: Command| -> Result<String, String> { Ok("service/a.txt\n".to_string()) };
    let mut git = GitImpl::new(changed);
    assert_eq!(
        git.have_files_changed("HEAD".to_string(), "service".to_string()),
        Ok(true)
    );
}

#[test]
fn diff_output_parsing() {
    assert_eq!(parse_diff_output("a\nb\n\n"), vec!["a".to_string(), "b".to_string()]);
    assert!(parse_diff_output("").is_empty());
    assert_eq!(trim_end("x y \t\n"), "x y".to_string());
    assert_eq!(trim("\u{3000} z \n"), "z".to_string());
}
