use base64::Engine as _;
use gh_difftool::{ContentRecord, DecodeError};

fn record(record_type: &str, sha: &str, content: Option<String>) -> ContentRecord {
    ContentRecord {
        record_type: record_type.to_string(),
        sha: sha.to_string(),
        content,
    }
}

#[test]
fn decodes_base64_payload() {
    let contents = "line one\nline two";
    let encoded = base64::engine::general_purpose::STANDARD.encode(contents.as_bytes());
    let rec = record("file", "not used", Some(encoded));
    assert_eq!(gh_difftool::file_contents_from_record(&rec).unwrap(), contents);
}

#[test]
fn strips_injected_line_breaks_before_decoding() {
    // The provider wraps the base64 text in line breaks that are not part
    // of the bytes; line breaks inside the decoded payload survive.
    let contents = "mod gh_interface;\nmod patch;\n\nfn main() {\n    println!(\"Hello, world!\");\n}\n";
    let encoded = base64::engine::general_purpose::STANDARD.encode(contents.as_bytes());
    let mut wrapped = String::new();
    for (i, c) in encoded.chars().enumerate() {
        if i > 0 && i % 60 == 0 {
            wrapped.push('\n');
        }
        wrapped.push(c);
    }
    wrapped.push('\n');
    let rec = record("file", "cb71da67691cdf5f595b4e64d4feaf0bdd7798f6", Some(wrapped));
    assert_eq!(gh_difftool::file_contents_from_record(&rec).unwrap(), contents);
}

#[test]
fn submodule_record_yields_the_identifier() {
    let rec = record("submodule", "7c8ba583177b9e14cb85346f52e7b5536935a051", None);
    assert_eq!(
        gh_difftool::file_contents_from_record(&rec).unwrap(),
        "7c8ba583177b9e14cb85346f52e7b5536935a051"
    );
}

#[test]
fn missing_payload_decodes_to_empty() {
    let rec = record("file", "sha", None);
    assert_eq!(gh_difftool::file_contents_from_record(&rec).unwrap(), "");
}

#[test]
fn invalid_base64_is_an_error() {
    let rec = record("file", "sha", Some("!!!not base64!!!".to_string()));
    assert_eq!(
        gh_difftool::file_contents_from_record(&rec).unwrap_err(),
        DecodeError::InvalidBase64
    );
}

#[test]
fn invalid_text_is_an_error() {
    // 0xff 0xfe is not valid UTF-8.
    let encoded = base64::engine::general_purpose::STANDARD.encode([0xffu8, 0xfeu8]);
    let rec = record("file", "sha", Some(encoded));
    assert_eq!(
        gh_difftool::file_contents_from_record(&rec).unwrap_err(),
        DecodeError::InvalidText
    );
}
