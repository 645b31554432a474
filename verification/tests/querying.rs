//! The query/paging engine: listing, search, validation, and the
//! page-traversal guarantee.

use pdf_library::library::Library;
use pdf_library::model::{
    PagingDto, PdfError, PdfSearchDto, PdfUpdate, PdfUploaded, UploadFault, UploadItem,
};

fn item(title: &str, filename: &str) -> UploadItem {
    UploadItem {
        meta: PdfUploaded {
            title: title.to_string(),
            filename: filename.to_string(),
            author: Some(format!("Author of {}", title)),
            pages: Some(1),
            img: format!("img-{}", filename),
            path: format!("./upload/{}", filename),
        },
        data: b"pdf".to_vec(),
    }
}

fn no_fault() -> UploadFault {
    UploadFault { blob: false, insert: false }
}

fn paging(page: i32, size: i32) -> PagingDto {
    PagingDto { size: Some(size), page: Some(page) }
}

fn search_title(q: &str, page: i32, size: i32) -> PdfSearchDto {
    PdfSearchDto {
        title: Some(q.to_string()),
        author: None,
        tag: None,
        page: Some(page),
        size: Some(size),
    }
}

/// Twelve documents, seven of whose titles contain "guide" in some case.
fn twelve_docs() -> Library {
    let titles = [
        "User GUIDE",        // id 1, matches
        "Cookbook",          // id 2
        "Guided Tour",       // id 3, matches
        "Field guide",       // id 4, matches
        "Reference",         // id 5
        "Misguided Essay",   // id 6, matches
        "Style Guide",       // id 7, matches
        "Notes",             // id 8
        "guide",             // id 9, matches
        "Atlas",             // id 10
        "A Guide To Guides", // id 11, matches
        "Primer",            // id 12
    ];
    let mut items = Vec::new();
    let mut ids = Vec::new();
    let mut faults = Vec::new();
    for (i, t) in titles.iter().enumerate() {
        items.push(item(t, &format!("doc{}.pdf", i + 1)));
        ids.push((i + 1) as u128);
        faults.push(no_fault());
    }
    let mut lib = Library::new();
    let out = lib.upload(items, ids, 500, faults);
    assert_eq!(out.len(), 12);
    lib
}

#[test]
fn listing_an_empty_library() {
    let lib = Library::new();
    let dto = lib.get_all(paging(1, 5)).unwrap();
    assert_eq!(dto.count, Some(0));
    assert_eq!(dto.pdfs_previews.len(), 0);
}

#[test]
fn listing_is_paged_in_creation_order() {
    let lib = twelve_docs();
    let page1 = lib.get_all(paging(1, 5)).unwrap();
    assert_eq!(page1.count, Some(12));
    let ids1: Vec<u128> = page1.pdfs_previews.iter().map(|o| o.id.unwrap()).collect();
    assert_eq!(ids1, vec![1, 2, 3, 4, 5]);
    let page3 = lib.get_all(paging(3, 5)).unwrap();
    let ids3: Vec<u128> = page3.pdfs_previews.iter().map(|o| o.id.unwrap()).collect();
    assert_eq!(ids3, vec![11, 12]);
    let beyond = lib.get_all(paging(4, 5)).unwrap();
    assert_eq!(beyond.pdfs_previews.len(), 0);
    assert_eq!(beyond.count, Some(12));
}

#[test]
fn paging_traversal_visits_every_document_exactly_once() {
    // P3 on concrete values: summing page lengths over pages
    // 1..ceil(total/size) gives exactly the total, each identity once.
    let lib = twelve_docs();
    let size = 5;
    let total = lib.get_all(paging(1, size)).unwrap().count.unwrap();
    assert_eq!(total, 12);
    let pages = (total + (size as i64) - 1) / (size as i64);
    let mut seen: Vec<u128> = Vec::new();
    let mut summed = 0;
    for p in 1..=pages {
        let dto = lib.get_all(paging(p as i32, size)).unwrap();
        assert_eq!(dto.count, Some(total));
        summed += dto.pdfs_previews.len() as i64;
        for o in &dto.pdfs_previews {
            let id = o.id.unwrap();
            assert!(!seen.contains(&id));
            seen.push(id);
        }
    }
    assert_eq!(summed, total);
    assert_eq!(seen.len() as i64, total);
}

#[test]
fn search_by_title_pages_and_counts_over_the_same_predicate() {
    // Scenario: title="guide", page 1 size 5 over a 12-document fixture
    // with 7 matching titles: total 7, first page 5 in creation order,
    // second page the remaining 2.
    let lib = twelve_docs();
    let page1 = lib.search(&search_title("guide", 1, 5)).unwrap();
    assert_eq!(page1.count, Some(7));
    let ids1: Vec<u128> = page1.pdfs_previews.iter().map(|o| o.id.unwrap()).collect();
    assert_eq!(ids1, vec![1, 3, 4, 6, 7]);
    let page2 = lib.search(&search_title("guide", 2, 5)).unwrap();
    assert_eq!(page2.count, Some(7));
    let ids2: Vec<u128> = page2.pdfs_previews.iter().map(|o| o.id.unwrap()).collect();
    assert_eq!(ids2, vec![9, 11]);
}

#[test]
fn search_matches_tags_case_insensitively_without_duplicates() {
    let mut lib = twelve_docs();
    // two tags on one document that both contain the query: the document
    // must still appear once
    lib.update(
        PdfUpdate {
            id: None,
            title: Some("Cookbook".to_string()),
            author: None,
            comments: None,
            tags: Some(vec!["Baking".to_string(), "breadbaking".to_string()]),
            picture: None,
        },
        2,
    )
    .unwrap();
    let dto = lib.search(
        &PdfSearchDto {
            title: None,
            author: None,
            tag: Some("BAKING".to_string()),
            page: Some(1),
            size: Some(10),
        },
    )
    .unwrap();
    assert_eq!(dto.count, Some(1));
    assert_eq!(dto.pdfs_previews.len(), 1);
    assert_eq!(dto.pdfs_previews[0].id, Some(2));
}

#[test]
fn search_by_author_substring() {
    let lib = twelve_docs();
    let dto = lib.search(
        &PdfSearchDto {
            title: None,
            author: Some("of atlas".to_string()),
            tag: None,
            page: Some(1),
            size: Some(10),
        },
    )
    .unwrap();
    assert_eq!(dto.count, Some(1));
    assert_eq!(dto.pdfs_previews[0].id, Some(10));
}

#[test]
fn listing_rejects_missing_or_nonpositive_paging() {
    let lib = twelve_docs();
    assert!(matches!(
        lib.get_all(PagingDto { size: None, page: Some(1) }),
        Err(PdfError::ValidationError)
    ));
    assert!(matches!(
        lib.get_all(PagingDto { size: Some(5), page: None }),
        Err(PdfError::ValidationError)
    ));
    assert!(matches!(lib.get_all(paging(0, 5)), Err(PdfError::ValidationError)));
    assert!(matches!(lib.get_all(paging(1, -3)), Err(PdfError::ValidationError)));
}

#[test]
fn search_rejects_missing_paging_or_missing_filters() {
    let lib = twelve_docs();
    assert!(matches!(
        lib.search(&PdfSearchDto {
            title: Some("x".to_string()),
            author: None,
            tag: None,
            page: None,
            size: Some(5),
        }),
        Err(PdfError::ValidationError)
    ));
    assert!(matches!(
        lib.search(&PdfSearchDto {
            title: None,
            author: None,
            tag: None,
            page: Some(1),
            size: Some(5),
        }),
        Err(PdfError::ValidationError)
    ));
}

#[test]
fn metadata_of_missing_title_never_matches_a_title_filter() {
    let mut lib = twelve_docs();
    // clear a title: the update sets it to NULL
    lib.update(
        PdfUpdate { id: None, title: None, author: None, comments: None, tags: None, picture: None },
        5,
    )
    .unwrap();
    let dto = lib.search(&search_title("reference", 1, 10)).unwrap();
    assert_eq!(dto.count, Some(0));
}
