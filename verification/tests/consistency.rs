//! Dual-store consistency: upload compensation, duplicate handling, and
//! delete semantics.

use pdf_library::library::Library;
use pdf_library::model::{PdfUploaded, UploadFault, UploadItem, UploadOutcome, PdfError};

fn staged(title: &str, filename: &str, img: &str) -> PdfUploaded {
    PdfUploaded {
        title: title.to_string(),
        filename: filename.to_string(),
        author: Some("Author".to_string()),
        pages: Some(3),
        img: img.to_string(),
        path: format!("./upload/{}", filename),
    }
}

fn item(title: &str, filename: &str, data: &[u8]) -> UploadItem {
    UploadItem { meta: staged(title, filename, "thumb"), data: data.to_vec() }
}

fn no_fault() -> UploadFault {
    UploadFault { blob: false, insert: false }
}

#[test]
fn upload_then_read_back_base64() {
    let mut lib = Library::new();
    let out = lib.upload(
        vec![item("Hello", "hello.pdf", b"hello")],
        vec![1],
        1000,
        vec![no_fault()],
    );
    assert_eq!(out.len(), 1);
    let id = match &out[0] {
        UploadOutcome::Uploaded(p) => p.id,
        _ => panic!("expected a committed row"),
    };
    assert_eq!(id, 1);
    let dto = lib.get_by_id(1).unwrap();
    assert_eq!(dto.pdf, "aGVsbG8=");
}

#[test]
fn upload_compensation_removes_orphaned_blob() {
    // P4, first half: blob write succeeds, then a forced non-duplicate
    // row-insert failure; the blob must be gone afterwards.
    let mut lib = Library::new();
    let out = lib.upload_item(staged("A", "a.pdf", "t"), b"data".to_vec(), 7, 50, false, true);
    assert!(matches!(out, UploadOutcome::StoreFailure));
    assert!(!lib.has_blob(&"a.pdf".to_string()));
    assert!(matches!(lib.get_pdf_metadata(7), Err(PdfError::NotFound)));
}

#[test]
fn duplicate_upload_leaves_original_blob_untouched() {
    // P4, second half: a duplicate-key failure must leave the original
    // document's blob exactly as it was.
    let mut lib = Library::new();
    let first = lib.upload_item(staged("A", "a.pdf", "t"), b"original".to_vec(), 1, 10, false, false);
    assert!(matches!(first, UploadOutcome::Uploaded(_)));
    let second = lib.upload_item(staged("B", "a.pdf", "t"), b"imposter".to_vec(), 2, 20, false, false);
    assert!(matches!(second, UploadOutcome::Duplicate));
    assert!(lib.has_blob(&"a.pdf".to_string()));
    // the stored content is still the first document's
    let dto = lib.get_by_id(1).unwrap();
    assert_eq!(dto.pdf, "b3JpZ2luYWw=");
    // and the duplicate claimed no row
    assert!(matches!(lib.get_pdf_metadata(2), Err(PdfError::NotFound)));
}

#[test]
fn blob_write_failure_changes_nothing() {
    let mut lib = Library::new();
    let out = lib.upload_item(staged("A", "a.pdf", "t"), b"x".to_vec(), 1, 10, true, false);
    assert!(matches!(out, UploadOutcome::BlobFailure));
    assert!(!lib.has_blob(&"a.pdf".to_string()));
    assert!(matches!(lib.get_pdf_metadata(1), Err(PdfError::NotFound)));
}

#[test]
fn same_name_twice_in_one_batch() {
    // Scenario: two files with the same target name in one batch; exactly
    // one succeeds, the other reports the conflict, and the first file's
    // blob remains readable under its name.
    let mut lib = Library::new();
    let out = lib.upload(
        vec![item("First", "shared.pdf", b"first"), item("Second", "shared.pdf", b"second")],
        vec![1, 2],
        100,
        vec![no_fault(), no_fault()],
    );
    assert_eq!(out.len(), 2);
    assert!(matches!(out[0], UploadOutcome::Uploaded(_)));
    assert!(matches!(out[1], UploadOutcome::Duplicate));
    assert!(lib.has_blob(&"shared.pdf".to_string()));
    let dto = lib.get_by_id(1).unwrap();
    // base64 of "first": the survivor is the first file's content
    assert_eq!(dto.pdf, "Zmlyc3Q=");
}

#[test]
fn batch_failure_does_not_abort_siblings() {
    let mut lib = Library::new();
    let out = lib.upload(
        vec![
            item("A", "a.pdf", b"a"),
            item("B", "b.pdf", b"b"),
            item("C", "c.pdf", b"c"),
        ],
        vec![1, 2, 3],
        100,
        vec![no_fault(), UploadFault { blob: false, insert: true }, no_fault()],
    );
    assert!(matches!(out[0], UploadOutcome::Uploaded(_)));
    assert!(matches!(out[1], UploadOutcome::StoreFailure));
    assert!(matches!(out[2], UploadOutcome::Uploaded(_)));
    assert!(lib.get_pdf_metadata(1).is_ok());
    assert!(matches!(lib.get_pdf_metadata(2), Err(PdfError::NotFound)));
    assert!(lib.get_pdf_metadata(3).is_ok());
    assert!(!lib.has_blob(&"b.pdf".to_string()));
}

#[test]
fn delete_removes_row_and_blob() {
    let mut lib = Library::new();
    lib.upload(vec![item("A", "a.pdf", b"a")], vec![1], 10, vec![no_fault()]);
    assert!(lib.delete(1, false).is_ok());
    assert!(matches!(lib.get_pdf_metadata(1), Err(PdfError::NotFound)));
    assert!(!lib.has_blob(&"a.pdf".to_string()));
}

#[test]
fn delete_with_failed_blob_removal_still_succeeds() {
    // P5: row deletion succeeds, blob deletion is made to fail; the delete
    // must still report success and a later lookup must report NotFound,
    // not a data-integrity failure.
    let mut lib = Library::new();
    lib.upload(vec![item("A", "a.pdf", b"a")], vec![1], 10, vec![no_fault()]);
    assert!(lib.delete(1, true).is_ok());
    assert!(matches!(lib.get_pdf_metadata(1), Err(PdfError::NotFound)));
    // the stray blob is a cleanup nuisance, not an error
    assert!(lib.has_blob(&"a.pdf".to_string()));
}

#[test]
fn delete_of_unknown_id_reports_not_found() {
    let mut lib = Library::new();
    assert!(matches!(lib.delete(42, false), Err(PdfError::NotFound)));
}

#[test]
fn get_by_id_of_unknown_id_reports_not_found() {
    let lib = Library::new();
    assert!(matches!(lib.get_by_id(9), Err(PdfError::NotFound)));
}

#[test]
fn empty_content_encodes_to_the_empty_string() {
    let mut lib = Library::new();
    let out = lib.upload(vec![item("Empty", "empty.pdf", b"")], vec![1], 10, vec![no_fault()]);
    assert!(matches!(out[0], UploadOutcome::Uploaded(_)));
    assert_eq!(lib.get_by_id(1).unwrap().pdf, "");
}
