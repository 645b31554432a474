//! The relational store's row operations: conflicts and creation order.

use pdf_library::model::{PagingDto, PdfError};
use pdf_library::store::RelationalStore;

fn insert(store: &mut RelationalStore, title: &str, filename: &str, id: u128, now: i64) {
    let row = store
        .upload(
            title.to_string(),
            filename.to_string(),
            None,
            Some(1),
            "img".to_string(),
            id,
            now,
        )
        .unwrap();
    assert_eq!(row.id, id);
    assert_eq!(row.title, Some(title.to_string()));
    assert_eq!(row.time_added, now);
}

#[test]
fn duplicate_file_name_is_a_conflict() {
    let mut store = RelationalStore::new();
    insert(&mut store, "A", "same.pdf", 1, 10);
    let second = store.upload(
        "B".to_string(),
        "same.pdf".to_string(),
        None,
        None,
        "img".to_string(),
        2,
        20,
    );
    assert!(matches!(second, Err(PdfError::Conflict)));
    // the original row is untouched
    assert_eq!(store.get_by_id(1).unwrap(), "same.pdf");
    assert!(matches!(store.get_by_id(2), Err(PdfError::NotFound)));
}

#[test]
fn rows_are_ordered_by_creation_time_then_id() {
    let mut store = RelationalStore::new();
    // inserted out of order, with a creation-time tie between 5 and 3
    insert(&mut store, "late", "c.pdf", 9, 300);
    insert(&mut store, "tie-high", "e.pdf", 5, 100);
    insert(&mut store, "early", "a.pdf", 7, 50);
    insert(&mut store, "tie-low", "d.pdf", 3, 100);
    let page = store
        .get_pdfs_paged(&PagingDto { size: Some(10), page: Some(1) })
        .unwrap();
    let ids: Vec<u128> = page.iter().map(|o| o.id.unwrap()).collect();
    assert_eq!(ids, vec![7, 3, 5, 9]);
    assert_eq!(store.total_number_of_pdfs().unwrap(), Some(4));
}

#[test]
fn relation_order_follows_the_request() {
    let mut store = RelationalStore::new();
    insert(&mut store, "A", "a.pdf", 1, 10);
    let tags = store.get_associated_tags_of_pdf(1).unwrap();
    assert_eq!(tags, Vec::<String>::new());
}
