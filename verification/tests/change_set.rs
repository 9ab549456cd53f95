use gh_difftool::{Change, ChangeSet};

fn change(filename: &str, contents_url: &str, patch: Option<&str>, status: &str, sha: &str) -> Change {
    Change {
        filename: filename.to_string(),
        previous_filename: None,
        contents_url: contents_url.to_string(),
        patch: patch.map(|p| p.to_string()),
        status: status.to_string(),
        sha: sha.to_string(),
    }
}

fn filenames_to_changes(filenames: &[&str]) -> Vec<Change> {
    filenames
        .iter()
        .map(|f| change(f, "contents_url", Some("patch"), "modified", "sha"))
        .collect()
}

#[test]
fn filter_files_from_changeset() {
    let mut changeset = ChangeSet {
        changes: vec![
            change("Cargo.toml", "stuff", Some("more_stuff"), "modified", "what is up"),
            change("yes/no/maybe.idk", "sure", Some("why not"), "modified", "why not"),
            change("what/when/where.stuff", "idk", Some("I guess"), "modified", "I guess"),
        ],
    };

    let files: Vec<String> = vec![
        "yes/no/maybe.idk".to_string(),
        "fake/file".to_string(),
        "Cargo.toml".to_string(),
    ];
    changeset.filter_files(&files);

    assert_eq!(
        changeset,
        ChangeSet {
            changes: vec![
                change("Cargo.toml", "stuff", Some("more_stuff"), "modified", "what is up"),
                change("yes/no/maybe.idk", "sure", Some("why not"), "modified", "why not"),
            ]
        }
    );
}

#[test]
fn filter_to_a_single_file() {
    let mut changeset = ChangeSet {
        changes: vec![
            change("Cargo.toml", "stuff", Some("more_stuff"), "modified", "sha1"),
            change("yes/no/maybe.idk", "sure", Some("why not"), "modified", "sha2"),
            change("what/when/where.stuff", "idk", Some("I guess"), "modified", "sha3"),
        ],
    };

    let files: Vec<String> = vec!["Cargo.toml".to_string(), "fake/file".to_string()];
    changeset.filter_files(&files);

    assert_eq!(changeset.changes.len(), 1);
    assert_eq!(changeset.changes[0].filename, "Cargo.toml");
}

#[test]
fn skip_to_first_file() {
    let changes = filenames_to_changes(&["Cargo.toml", "yes/no/maybe.idk", "what/when/where.stuff"]);
    let mut changeset = ChangeSet { changes };
    changeset.skip_to("Cargo.toml").expect("Should be able to skip to");
    assert_eq!(
        changeset,
        ChangeSet {
            changes: filenames_to_changes(&[
                "Cargo.toml",
                "yes/no/maybe.idk",
                "what/when/where.stuff"
            ])
        },
    );
}

#[test]
fn skip_to_middle_file() {
    let changes = filenames_to_changes(&["Cargo.toml", "yes/no/maybe.idk", "what/when/where.stuff"]);
    let mut changeset = ChangeSet { changes };
    changeset.skip_to("yes/no/maybe.idk").expect("Should be able to skip to");
    assert_eq!(
        changeset,
        ChangeSet {
            changes: filenames_to_changes(&["yes/no/maybe.idk", "what/when/where.stuff"])
        },
    );
}

#[test]
fn skip_to_last_file() {
    let changes = filenames_to_changes(&["Cargo.toml", "yes/no/maybe.idk", "what/when/where.stuff"]);
    let mut changeset = ChangeSet { changes };
    changeset.skip_to("what/when/where.stuff").expect("Should be able to skip to");
    assert_eq!(
        changeset,
        ChangeSet {
            changes: filenames_to_changes(&["what/when/where.stuff"])
        },
    );
}

#[test]
fn skip_to_non_existent_file_is_an_error() {
    let changes = filenames_to_changes(&["Cargo.toml", "yes/no/maybe.idk", "what/when/where.stuff"]);
    let mut changeset = ChangeSet { changes };

    let error = changeset.skip_to("foo").expect_err("Should not find file in change");
    assert_eq!(error.message(), "No such path 'foo' in the diff.");
}

#[test]
fn skip_to_twice_is_idempotent() {
    let changes = filenames_to_changes(&["Cargo.toml", "yes/no/maybe.idk", "what/when/where.stuff"]);
    let mut once = ChangeSet { changes };
    once.skip_to("yes/no/maybe.idk").unwrap();
    let mut twice = ChangeSet {
        changes: filenames_to_changes(&["Cargo.toml", "yes/no/maybe.idk", "what/when/where.stuff"]),
    };
    twice.skip_to("yes/no/maybe.idk").unwrap();
    twice.skip_to("yes/no/maybe.idk").unwrap();
    assert_eq!(once, twice);
}

#[test]
fn rotate_to_first_file() {
    let changes = filenames_to_changes(&["Cargo.toml", "yes/no/maybe.idk", "what/when/where.stuff"]);
    let mut changeset = ChangeSet { changes };
    changeset.rotate_to("Cargo.toml").expect("Should be able to rotate to");
    assert_eq!(
        changeset,
        ChangeSet {
            changes: filenames_to_changes(&[
                "Cargo.toml",
                "yes/no/maybe.idk",
                "what/when/where.stuff"
            ])
        },
    );
}

#[test]
fn rotate_to_middle_file() {
    let changes = filenames_to_changes(&["Cargo.toml", "yes/no/maybe.idk", "what/when/where.stuff"]);
    let mut changeset = ChangeSet { changes };
    changeset.rotate_to("yes/no/maybe.idk").expect("Should be able to rotate to");
    assert_eq!(
        changeset,
        ChangeSet {
            changes: filenames_to_changes(&[
                "yes/no/maybe.idk",
                "what/when/where.stuff",
                "Cargo.toml"
            ])
        },
    );
}

#[test]
fn rotate_to_last_file() {
    let changes = filenames_to_changes(&["Cargo.toml", "yes/no/maybe.idk", "what/when/where.stuff"]);
    let mut changeset = ChangeSet { changes };
    changeset.rotate_to("what/when/where.stuff").expect("Should be able to rotate to");
    assert_eq!(
        changeset,
        ChangeSet {
            changes: filenames_to_changes(&[
                "what/when/where.stuff",
                "Cargo.toml",
                "yes/no/maybe.idk"
            ])
        },
    );
}

#[test]
fn rotate_to_non_existent_file_is_an_error() {
    let changes = filenames_to_changes(&["Cargo.toml", "yes/no/maybe.idk", "what/when/where.stuff"]);
    let mut changeset = ChangeSet { changes };

    let error = changeset.rotate_to("baz").expect_err("Should not find file in change");
    assert_eq!(error.message(), "No such path 'baz' in the diff.");
}

#[test]
fn empty_changeset_filters_to_empty() {
    let mut changeset = ChangeSet { changes: Vec::new() };
    let files: Vec<String> = vec!["Cargo.toml".to_string()];
    changeset.filter_files(&files);
    assert_eq!(changeset, ChangeSet { changes: Vec::new() });
}

#[test]
fn empty_changeset_has_nothing_to_skip_to() {
    let mut changeset = ChangeSet { changes: Vec::new() };
    let error = changeset.skip_to("anything").unwrap_err();
    assert_eq!(error.message(), "No such path 'anything' in the diff.");
}

#[test]
fn rotate_single_file_is_a_no_op() {
    let changes = filenames_to_changes(&["Cargo.toml"]);
    let mut changeset = ChangeSet { changes };
    changeset.rotate_to("Cargo.toml").unwrap();
    assert_eq!(changeset, ChangeSet { changes: filenames_to_changes(&["Cargo.toml"]) });
}
