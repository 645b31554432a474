//! Tag reconciliation: idempotence, tag reuse, deduplication, and the
//! atomic update of fields and relations.

use pdf_library::library::Library;
use pdf_library::model::{PdfError, PdfUpdate, PdfUploaded, UploadFault, UploadItem};

fn item(title: &str, filename: &str) -> UploadItem {
    UploadItem {
        meta: PdfUploaded {
            title: title.to_string(),
            filename: filename.to_string(),
            author: None,
            pages: Some(1),
            img: "img".to_string(),
            path: format!("./upload/{}", filename),
        },
        data: b"pdf".to_vec(),
    }
}

fn no_fault() -> UploadFault {
    UploadFault { blob: false, insert: false }
}

fn update_with_tags(tags: Option<Vec<&str>>) -> PdfUpdate {
    PdfUpdate {
        id: None,
        title: Some("Kept Title".to_string()),
        author: Some("Kept Author".to_string()),
        comments: None,
        tags: tags.map(|ts| ts.into_iter().map(|t| t.to_string()).collect()),
        picture: Some("img".to_string()),
    }
}

fn two_docs() -> Library {
    let mut lib = Library::new();
    let out = lib.upload(
        vec![item("One", "one.pdf"), item("Two", "two.pdf")],
        vec![1, 2],
        100,
        vec![no_fault(), no_fault()],
    );
    assert_eq!(out.len(), 2);
    lib
}

#[test]
fn reconcile_twice_leaves_identical_relation_set() {
    // P1 on concrete values: reconciling to the same tag set twice in
    // succession leaves an identical relation set.
    let mut lib = two_docs();
    let first = lib.update(update_with_tags(Some(vec!["rust", "pdf"])), 1).unwrap();
    let second = lib.update(update_with_tags(Some(vec!["rust", "pdf"])), 1).unwrap();
    assert_eq!(first.tags, Some(vec!["rust".to_string(), "pdf".to_string()]));
    assert_eq!(second.tags, Some(vec!["rust".to_string(), "pdf".to_string()]));
    let meta = lib.get_pdf_metadata(1).unwrap();
    assert_eq!(meta.tags, Some(vec!["rust".to_string(), "pdf".to_string()]));
}

#[test]
fn requesting_an_existing_tag_reuses_its_row() {
    // P2 on concrete values: a name that already exists for another
    // document is reused, and each document still sees its own set.
    let mut lib = two_docs();
    lib.update(update_with_tags(Some(vec!["shared", "only-one"])), 1).unwrap();
    lib.update(update_with_tags(Some(vec!["shared", "only-two"])), 2).unwrap();
    let one = lib.get_pdf_metadata(1).unwrap();
    let two = lib.get_pdf_metadata(2).unwrap();
    assert_eq!(one.tags, Some(vec!["shared".to_string(), "only-one".to_string()]));
    assert_eq!(two.tags, Some(vec!["shared".to_string(), "only-two".to_string()]));
}

#[test]
fn duplicate_names_in_the_request_are_deduplicated() {
    let mut lib = two_docs();
    let dto = lib.update(update_with_tags(Some(vec!["a", "b", "a", "a", "b"])), 1).unwrap();
    assert_eq!(dto.tags, Some(vec!["a".to_string(), "b".to_string()]));
}

#[test]
fn empty_and_absent_tag_lists_clear_the_relations() {
    let mut lib = two_docs();
    lib.update(update_with_tags(Some(vec!["a", "b"])), 1).unwrap();
    let cleared = lib.update(update_with_tags(Some(vec![])), 1).unwrap();
    assert_eq!(cleared.tags, Some(Vec::new()));
    lib.update(update_with_tags(Some(vec!["c"])), 1).unwrap();
    let absent = lib.update(update_with_tags(None), 1).unwrap();
    assert_eq!(absent.tags, Some(Vec::new()));
    let meta = lib.get_pdf_metadata(1).unwrap();
    assert_eq!(meta.tags, Some(Vec::new()));
}

#[test]
fn update_replaces_fields_and_keeps_the_rest() {
    let mut lib = two_docs();
    let dto = lib.update(
        PdfUpdate {
            id: None,
            title: Some("New Title".to_string()),
            author: None,
            comments: Some("A note".to_string()),
            tags: Some(vec!["t".to_string()]),
            picture: Some("newimg".to_string()),
        },
        1,
    )
    .unwrap();
    assert_eq!(dto.id, Some(1));
    assert_eq!(dto.title, Some("New Title".to_string()));
    // an absent author overwrites the stored one
    assert_eq!(dto.author, None);
    assert_eq!(dto.comments, Some("A note".to_string()));
    assert_eq!(dto.picture, Some("newimg".to_string()));
    // the immutable parts survive
    assert_eq!(dto.file_name, "one.pdf");
    assert_eq!(dto.pages, Some(1));
    assert_eq!(dto.uploaded, Some(100));
    // the other document is untouched
    let two = lib.get_pdf_metadata(2).unwrap();
    assert_eq!(two.title, Some("Two".to_string()));
}

#[test]
fn update_of_unknown_id_reports_not_found() {
    let mut lib = two_docs();
    assert!(matches!(
        lib.update(update_with_tags(Some(vec!["x"])), 99),
        Err(PdfError::NotFound)
    ));
    // and nothing changed for the existing documents
    assert_eq!(lib.get_pdf_metadata(1).unwrap().title, Some("One".to_string()));
}
