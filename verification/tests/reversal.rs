use gh_difftool::{Change, PatchError, Reconstruction};

fn change(patch: Option<&str>, status: &str, sha: &str) -> Change {
    Change {
        filename: "what/when/where.stuff".to_string(),
        previous_filename: None,
        contents_url: "idk".to_string(),
        patch: patch.map(|p| p.to_string()),
        status: status.to_string(),
        sha: sha.to_string(),
    }
}

#[test]
fn reverse_modified_single_line_change() {
    let newest = "line one\nline changed\nline three\n";
    let diff = "@@ -1,3 +1,3 @@\n line one\n-line two\n+line changed\n line three";
    let c = change(Some(diff), "modified", "I guess");
    let reversed = c.reverse_apply(newest).unwrap();
    assert_eq!(reversed.original, "line one\nline two\nline three\n");
    assert_eq!(reversed.new, newest);
}

#[test]
fn reverse_only_deleting_lines() {
    let newest = "line one\nline two\nline three\n";
    let diff = "@@ -1,2 +1,3 @@\n line one\n+line two\n line three";
    let c = change(Some(diff), "modified", "I guess");
    let reversed = c.reverse_apply(newest).unwrap();
    assert_eq!(reversed.original, "line one\nline three\n");
}

#[test]
fn fail_to_apply_malformed_patch() {
    // The hunk header promises three old-side lines but the body only
    // carries two, so the patch text itself is rejected.
    let diff = "@@ -1,3 +1,3 @@\n line one\n+line changed\n line three";
    let c = change(Some(diff), "modified", "I guess");
    let error = c.reverse_apply("\n").unwrap_err();
    assert_eq!(error, PatchError::Malformed);
}

#[test]
fn fail_to_apply_mismatched_content() {
    let diff = "@@ -1,2 +1,2 @@\n line one\n-line two\n+line changed";
    let c = change(Some(diff), "modified", "I guess");
    let error = c.reverse_apply("something\nelse\n").unwrap_err();
    assert_eq!(error, PatchError::Mismatch);
}

#[test]
fn file_removed() {
    let contents = "\nline one\nline two\nline three\n";
    let diff = "@@ -1,3 +0,0 @@\n-line one\n-line two\n-line three";
    let c = change(Some(diff), "removed", "I guess");
    let reversed = c.reverse_apply(contents).unwrap();
    assert_eq!(reversed.original, contents);
    assert_eq!(reversed.new, "");
}

#[test]
fn no_patch() {
    let contents = "\nline one\nline two\nline three\n";
    let c = Change {
        filename: "what/when/where.stuff".to_string(),
        previous_filename: Some("foo/bar/baz/me.txt".to_string()),
        contents_url: "idk".to_string(),
        patch: None,
        status: "renamed".to_string(),
        sha: "I guess".to_string(),
    };
    let reversed = c.reverse_apply(contents).unwrap();
    assert_eq!(reversed.original, contents);
    assert_eq!(reversed.new, contents);
}

#[test]
fn submodule() {
    let diff = "@@ -1 +1 @@\n-Subproject commit 236682e946bc79ef30288013e144f9794a9f0ff1\n Subproject commit 7c8ba583177b9e14cb85346f52e7b5536935a051";
    let c = Change {
        filename: "a/submodule".to_string(),
        previous_filename: None,
        contents_url: "idk".to_string(),
        patch: Some(diff.to_string()),
        status: "modified".to_string(),
        sha: "7c8ba583177b9e14cb85346f52e7b5536935a051".to_string(),
    };
    let reversed = c.reverse_apply("").unwrap();
    // Exactly the prior commit id, with no trailing line terminator.
    assert_eq!(reversed.original, "236682e946bc79ef30288013e144f9794a9f0ff1");
}

#[test]
fn submodule_commit_sha_requires_matching_trailer() {
    let diff = "@@ -1 +1 @@\n-Subproject commit 236682e946bc79ef30288013e144f9794a9f0ff1\n Subproject commit 7c8ba583177b9e14cb85346f52e7b5536935a051";
    let c = change(Some(diff), "modified", "some other sha");
    assert!(c.get_submodule_commit_sha(diff).is_none());
    assert!(matches!(c.reconstruction(), Reconstruction::Textual));
}

#[test]
fn classification_order_puts_removed_first() {
    let c = change(None, "removed", "sha");
    assert!(matches!(c.reconstruction(), Reconstruction::Removed));
    let c = change(None, "renamed", "sha");
    assert!(matches!(c.reconstruction(), Reconstruction::CopyOnly));
}

#[test]
fn forward_after_reverse_restores_the_new_text() {
    // The reversal round trip on concrete values: reverse-apply, then
    // forward-apply the same patch, and the post-change text comes back.
    let newest = "line one\nline changed\nline three\n";
    let diff = "@@ -1,3 +1,3 @@\n line one\n-line two\n+line changed\n line three";
    let original = gh_difftool::apply_to_text(diff, newest, true).unwrap();
    assert_eq!(original, "line one\nline two\nline three\n");
    let forward = gh_difftool::apply_to_text(diff, &original, false).unwrap();
    assert_eq!(forward, newest);
}

#[test]
fn multi_hunk_patch_applies_in_order() {
    let newest = "a1\nb\nc\nd1\ne\n";
    let diff = "@@ -1,2 +1,2 @@\n-a\n+a1\n b\n@@ -4,2 +4,2 @@\n-d\n+d1\n e";
    let original = gh_difftool::apply_to_text(diff, newest, true).unwrap();
    assert_eq!(original, "a\nb\nc\nd\ne\n");
}

#[test]
fn three_records() {
    // One removed file, one modified file, and one renamed file with no
    // patch, reconstructed record by record.
    let fetched_a = "alpha\n";
    let a = Change {
        filename: "a.txt".to_string(),
        previous_filename: None,
        contents_url: "url-a".to_string(),
        patch: Some("@@ -1 +0,0 @@\n-alpha".to_string()),
        status: "removed".to_string(),
        sha: "sha-a".to_string(),
    };
    let ra = a.reverse_apply(fetched_a).unwrap();
    assert_eq!(ra.original, fetched_a);
    assert_eq!(ra.new, "");

    let fetched_b = "line one\nline changed\nline three\n";
    let b = Change {
        filename: "b.txt".to_string(),
        previous_filename: None,
        contents_url: "url-b".to_string(),
        patch: Some("@@ -1,3 +1,3 @@\n line one\n-line two\n+line changed\n line three".to_string()),
        status: "modified".to_string(),
        sha: "sha-b".to_string(),
    };
    let rb = b.reverse_apply(fetched_b).unwrap();
    assert_eq!(rb.original, "line one\nline two\nline three\n");

    let fetched_c = "gamma\n";
    let c = Change {
        filename: "c.txt".to_string(),
        previous_filename: Some("old.txt".to_string()),
        contents_url: "url-c".to_string(),
        patch: None,
        status: "renamed".to_string(),
        sha: "sha-c".to_string(),
    };
    let rc = c.reverse_apply(fetched_c).unwrap();
    assert_eq!(rc.original, rc.new);
    assert_eq!(rc.original, fetched_c);
    let staged = gh_difftool::staged_paths("/tmp/run", &c);
    assert_eq!(staged.original, "/tmp/run/base_old.txt");
    assert_eq!(staged.new, "/tmp/run/c.txt");
}

#[test]
fn hunk_later_in_the_file() {
    let newest = "one\ntwo\nthree\nfour\nFIVE\nsix\n";
    let diff = "@@ -4,3 +4,3 @@\n four\n-five\n+FIVE\n six";
    let original = gh_difftool::apply_to_text(diff, newest, true).unwrap();
    assert_eq!(original, "one\ntwo\nthree\nfour\nfive\nsix\n");
}

#[test]
fn reverse_of_a_created_file_is_empty() {
    let newest = "alpha\nbeta\n";
    let diff = "@@ -0,0 +1,2 @@\n+alpha\n+beta";
    let original = gh_difftool::apply_to_text(diff, newest, true).unwrap();
    assert_eq!(original, "");
    let forward = gh_difftool::apply_to_text(diff, &original, false).unwrap();
    assert_eq!(forward, newest);
}

#[test]
fn no_newline_marker_lines_are_ignored() {
    let newest = "line one\nline changed\n";
    let diff = "@@ -1,2 +1,2 @@\n line one\n-line two\n+line changed\n\\ No newline at end of file";
    let original = gh_difftool::apply_to_text(diff, newest, true).unwrap();
    assert_eq!(original, "line one\nline two\n");
}
