//! Text helpers, the blob store interface, and the health probe.

use pdf_library::blob::BlobStore;
use pdf_library::model::{PdfError, health};
use pdf_library::text::{choose_title, str_contains_ci, trim_str};

#[test]
fn case_insensitive_containment() {
    assert!(str_contains_ci("Hello World", "LO W"));
    assert!(str_contains_ci("Hello World", "hello world"));
    assert!(str_contains_ci("MISGUIDED", "guide"));
    assert!(str_contains_ci("abc", ""));
    assert!(!str_contains_ci("abc", "abcd"));
    assert!(!str_contains_ci("", "a"));
    // case folding is ASCII-only: a non-ASCII letter matches only itself
    assert!(str_contains_ci("Grüße", "rüß"));
}

#[test]
fn trimming_removes_edge_whitespace_only() {
    assert_eq!(trim_str("  spaced out \t\n"), "spaced out");
    assert_eq!(trim_str("untrimmed"), "untrimmed");
    assert_eq!(trim_str(" \t "), "");
    assert_eq!(trim_str(""), "");
}

#[test]
fn title_falls_back_to_the_file_name() {
    let fancy = "  Fancy Title ".to_string();
    assert_eq!(choose_title(Some(&fancy), "f.pdf"), "Fancy Title");
    let blank = "   ".to_string();
    assert_eq!(choose_title(Some(&blank), "f.pdf"), "f.pdf");
    assert_eq!(choose_title(None, "g.pdf"), "g.pdf");
}

#[test]
fn blob_store_keeps_first_write_and_reports_missing_names() {
    let mut bs = BlobStore::new();
    let name = "a.bin".to_string();
    assert!(matches!(bs.read(&name), Err(PdfError::IoError)));
    assert!(bs.write(name.clone(), b"first".to_vec()).is_ok());
    // a second write under the same name never replaces the owner's content
    assert!(bs.write(name.clone(), b"second".to_vec()).is_ok());
    assert_eq!(bs.read(&name).unwrap(), b"first".to_vec());
    assert!(bs.contains(&name));
    assert!(bs.delete(&name).is_ok());
    assert!(!bs.contains(&name));
    // deleting an absent name is an I/O failure
    assert!(matches!(bs.delete(&name), Err(PdfError::IoError)));
}

#[test]
fn health_reports_a_fixed_message() {
    assert_eq!(health().message, "Everything is working fine");
}
