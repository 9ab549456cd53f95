use gh_difftool::{Change, Difftool, Error};

#[test]
fn found_difftool_in_config() {
    let tool =
        gh_difftool::get_config_difftool(Some("meld".to_string()), None).unwrap();
    assert_eq!(tool, "meld");
}

#[test]
fn merge_tool_is_the_fallback() {
    let tool =
        gh_difftool::get_config_difftool(None, Some("vimdiff".to_string())).unwrap();
    assert_eq!(tool, "vimdiff");
}

#[test]
fn no_tool_configured_is_an_error() {
    let error = gh_difftool::get_config_difftool(None, None).unwrap_err();
    assert!(matches!(error, Error::NoDifftoolConfigured));
}

#[test]
fn difftool_program_from_config() {
    let available: Vec<bool> = Vec::new();
    let program = gh_difftool::get_difftool_program(
        "makebelieve",
        Some("some/random/path".to_string()),
        &available,
    )
    .unwrap();
    assert_eq!(program, "some/random/path");
}

#[test]
fn lookup_known_tool() {
    let available = vec![true];
    assert_eq!(
        gh_difftool::lookup_known_tool_program("meld", &available).unwrap(),
        "meld"
    );
    let available = vec![true];
    assert_eq!(
        gh_difftool::lookup_known_tool_program("gvimdiff", &available).unwrap(),
        "gvimdiff"
    );
}

#[test]
fn first_available_candidate_wins() {
    let available = vec![false, true];
    assert_eq!(
        gh_difftool::lookup_known_tool_program("bc", &available).unwrap(),
        "bcompare"
    );
}

#[test]
fn none_available_defaults_to_first_candidate() {
    let available = vec![false, false];
    assert_eq!(
        gh_difftool::lookup_known_tool_program("bc", &available).unwrap(),
        "bcomp"
    );
}

#[test]
fn unknown_difftool_is_an_error() {
    let available: Vec<bool> = Vec::new();
    let error = gh_difftool::lookup_known_tool_program("madeup", &available).unwrap_err();
    assert!(matches!(error, Error::UnknownDifftool(t) if t == "madeup"));
}

#[test]
fn difftool_cmd_from_config() {
    let available: Vec<bool> = Vec::new();
    let args = gh_difftool::get_command_args(
        "makebelieve",
        Some("some/random/cmd $LOCAL --middle-arg $REMOTE".to_string()),
        Some("some/random/path".to_string()),
        &available,
    )
    .unwrap();
    assert_eq!(
        args,
        vec![
            "some/random/cmd".to_string(),
            "$LOCAL".to_string(),
            "--middle-arg".to_string(),
            "$REMOTE".to_string()
        ]
    );
}

#[test]
fn difftool_cmd_with_quotes() {
    let available: Vec<bool> = Vec::new();
    let args = gh_difftool::get_command_args(
        "magic",
        Some("\"my cool tool\" $LOCAL $REMOTE".to_string()),
        None,
        &available,
    )
    .unwrap();
    assert_eq!(
        args,
        vec!["my cool tool".to_string(), "$LOCAL".to_string(), "$REMOTE".to_string()]
    );
}

#[test]
fn unparsable_cmd_is_an_error() {
    let available: Vec<bool> = Vec::new();
    let error = gh_difftool::get_command_args(
        "magic",
        Some("unterminated \"quote".to_string()),
        None,
        &available,
    )
    .unwrap_err();
    assert!(matches!(error, Error::BadToolCommand(t) if t == "magic"));
}

#[test]
fn default_template_wraps_the_program() {
    let available: Vec<bool> = Vec::new();
    let args = gh_difftool::get_command_args(
        "bc",
        None,
        Some("/does/not/exist".to_string()),
        &available,
    )
    .unwrap();
    assert_eq!(
        args,
        vec!["/does/not/exist".to_string(), "$LOCAL".to_string(), "$REMOTE".to_string()]
    );
}

#[test]
fn substitution_replaces_both_placeholders() {
    let tool = Difftool::new(
        "makebelieve".to_string(),
        vec![
            "some/random/cmd".to_string(),
            "$LOCAL".to_string(),
            "--middle-arg".to_string(),
            "$REMOTE".to_string(),
        ],
    );
    let args = tool.substituted_args("/tmp/base_a", "/tmp/a");
    assert_eq!(
        args,
        vec![
            "some/random/cmd".to_string(),
            "/tmp/base_a".to_string(),
            "--middle-arg".to_string(),
            "/tmp/a".to_string()
        ]
    );
}

#[test]
fn staged_paths_use_the_source_name() {
    let c = Change {
        filename: "ignore_me".to_string(),
        previous_filename: None,
        contents_url: "sure".to_string(),
        patch: None,
        status: "modified".to_string(),
        sha: "why not".to_string(),
    };
    let staged = gh_difftool::staged_paths("/tmp/root", &c);
    assert!(staged.original.ends_with(&c.filename));
    assert_eq!(staged.original, "/tmp/root/base_ignore_me");
    assert_eq!(staged.new, "/tmp/root/ignore_me");
}

#[test]
fn staged_paths_for_a_renamed_file() {
    let c = Change {
        filename: "ignore_me".to_string(),
        previous_filename: Some("new_filename".to_string()),
        contents_url: "sure".to_string(),
        patch: None,
        status: "renamed".to_string(),
        sha: "why not".to_string(),
    };
    let staged = gh_difftool::staged_paths("/tmp/root", &c);
    assert!(staged.original.ends_with(c.previous_filename.as_ref().unwrap()));
    assert_eq!(staged.original, "/tmp/root/base_new_filename");
    assert_eq!(staged.new, "/tmp/root/ignore_me");
}
