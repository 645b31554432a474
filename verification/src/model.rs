//! Data model: document rows, tag rows, request/response shapes, and the
//! ghost-level views the contracts are stated over.

use vstd::prelude::*;

verus! {

/// The closed set of failure kinds surfaced by the library.
///
/// Validation failures are reported before any store is touched; `Conflict`
/// is the duplicate-file-name outcome of an upload; `DataIntegrityError`
/// means a metadata row exists whose blob is missing.
#[derive(Clone, Copy, Debug, PartialEq, Eq, Structural)]
pub enum PdfError {
    NotFound,
    Conflict,
    ValidationError,
    StoreError,
    IoError,
    DataIntegrityError,
}

/// A persisted document row. Identifiers are opaque 128-bit values assigned
/// at creation and never reused; timestamps count milliseconds.
pub struct Pdf {
    pub id: u128,
    pub title: Option<String>,
    pub file_name: String,
    pub author: Option<String>,
    pub pages: Option<i32>,
    pub comments: Option<String>,
    pub time_added: i64,
    pub last_accessed: Option<i64>,
    pub picture: Option<String>,
}

/// Ghost-level image of a document row.
pub ghost struct DocMeta {
    pub id: int,
    pub title: Option<Seq<char>>,
    pub file_name: Seq<char>,
    pub author: Option<Seq<char>>,
    pub pages: Option<int>,
    pub comments: Option<Seq<char>>,
    pub time_added: int,
    pub last_accessed: Option<int>,
    pub picture: Option<Seq<char>>,
}

pub open spec fn opt_int_view(o: Option<i32>) -> Option<int> {
    match o {
        Some(v) => Some(v as int),
        None => None,
    }
}

pub open spec fn opt_i64_view(o: Option<i64>) -> Option<int> {
    match o {
        Some(v) => Some(v as int),
        None => None,
    }
}

impl View for Pdf {
    type V = DocMeta;

    open spec fn view(&self) -> DocMeta {
        DocMeta {
            id: self.id as int,
            title: self.title.deep_view(),
            file_name: self.file_name@,
            author: self.author.deep_view(),
            pages: opt_int_view(self.pages),
            comments: self.comments.deep_view(),
            time_added: self.time_added as int,
            last_accessed: opt_i64_view(self.last_accessed),
            picture: self.picture.deep_view(),
        }
    }
}

/// Clones an optional string, preserving its view.
pub fn clone_opt_string(o: &Option<String>) -> (r: Option<String>)
    ensures
        r.deep_view() == o.deep_view(),
{
    match o {
        Some(s) => Some(s.clone()),
        None => None,
    }
}

impl Clone for Pdf {
    fn clone(&self) -> (r: Pdf)
        ensures
            r@ == self@,
    {
        Pdf {
            id: self.id,
            title: clone_opt_string(&self.title),
            file_name: self.file_name.clone(),
            author: clone_opt_string(&self.author),
            pages: self.pages,
            comments: clone_opt_string(&self.comments),
            time_added: self.time_added,
            last_accessed: self.last_accessed,
            picture: clone_opt_string(&self.picture),
        }
    }
}

/// The field values a document row holds after an update: title, author,
/// comments and picture are replaced by the caller's values; everything
/// else is kept.
pub open spec fn update_fields(d: DocMeta, u: UpdateMeta) -> DocMeta {
    DocMeta {
        id: d.id,
        title: u.title,
        file_name: d.file_name,
        author: u.author,
        pages: d.pages,
        comments: u.comments,
        time_added: d.time_added,
        last_accessed: d.last_accessed,
        picture: u.picture,
    }
}

/// The lightweight listing projection of a document row.
pub struct PdfOverview {
    pub id: Option<u128>,
    pub title: Option<String>,
    pub picture: Option<String>,
}

/// Ghost-level image of a listing row.
pub ghost struct OverviewMeta {
    pub id: Option<int>,
    pub title: Option<Seq<char>>,
    pub picture: Option<Seq<char>>,
}

pub open spec fn opt_u128_view(o: Option<u128>) -> Option<int> {
    match o {
        Some(v) => Some(v as int),
        None => None,
    }
}

impl View for PdfOverview {
    type V = OverviewMeta;

    open spec fn view(&self) -> OverviewMeta {
        OverviewMeta {
            id: opt_u128_view(self.id),
            title: self.title.deep_view(),
            picture: self.picture.deep_view(),
        }
    }
}

/// The listing projection of a full row.
pub open spec fn overview_of(d: DocMeta) -> OverviewMeta {
    OverviewMeta { id: Some(d.id), title: d.title, picture: d.picture }
}

/// The views of a vector of listing rows.
pub open spec fn overview_views(v: Seq<PdfOverview>) -> Seq<OverviewMeta> {
    v.map_values(|o: PdfOverview| o@)
}

/// The listing projections of a document table.
pub open spec fn overviews_of(docs: Seq<DocMeta>) -> Seq<OverviewMeta> {
    docs.map_values(|d: DocMeta| overview_of(d))
}

impl Clone for PdfOverview {
    fn clone(&self) -> (r: PdfOverview)
        ensures
            r@ == self@,
    {
        PdfOverview {
            id: self.id,
            title: clone_opt_string(&self.title),
            picture: clone_opt_string(&self.picture),
        }
    }
}

/// Paging parameters: both fields are required and must be positive.
pub struct PagingDto {
    pub size: Option<i32>,
    pub page: Option<i32>,
}

/// Search parameters: optional case-insensitive substring filters plus
/// mandatory paging. At least one filter must be present.
pub struct PdfSearchDto {
    pub title: Option<String>,
    pub author: Option<String>,
    pub tag: Option<String>,
    pub page: Option<i32>,
    pub size: Option<i32>,
}

/// A page of listing rows together with the total count over the same
/// predicate.
pub struct PdfOverviewDto {
    pub pdfs_previews: Vec<PdfOverview>,
    pub count: Option<i64>,
}

/// Full metadata of one document, including its tag set.
pub struct PdfMetadataDto {
    pub id: Option<u128>,
    pub title: Option<String>,
    pub file_name: String,
    pub author: Option<String>,
    pub pages: Option<i32>,
    pub comments: Option<String>,
    pub uploaded: Option<i64>,
    pub last_accessed: Option<i64>,
    pub picture: Option<String>,
    pub tags: Option<Vec<String>>,
}

/// Ghost-level image of a search request.
pub ghost struct SearchMeta {
    pub title: Option<Seq<char>>,
    pub author: Option<Seq<char>>,
    pub tag: Option<Seq<char>>,
    pub page: Option<int>,
    pub size: Option<int>,
}

impl View for PdfSearchDto {
    type V = SearchMeta;

    open spec fn view(&self) -> SearchMeta {
        SearchMeta {
            title: self.title.deep_view(),
            author: self.author.deep_view(),
            tag: self.tag.deep_view(),
            page: opt_int_view(self.page),
            size: opt_int_view(self.size),
        }
    }
}

/// Ghost-level image of a full-metadata response.
pub ghost struct MetadataMeta {
    pub id: Option<int>,
    pub title: Option<Seq<char>>,
    pub file_name: Seq<char>,
    pub author: Option<Seq<char>>,
    pub pages: Option<int>,
    pub comments: Option<Seq<char>>,
    pub uploaded: Option<int>,
    pub last_accessed: Option<int>,
    pub picture: Option<Seq<char>>,
    pub tags: Option<Seq<Seq<char>>>,
}

impl View for PdfMetadataDto {
    type V = MetadataMeta;

    open spec fn view(&self) -> MetadataMeta {
        MetadataMeta {
            id: opt_u128_view(self.id),
            title: self.title.deep_view(),
            file_name: self.file_name@,
            author: self.author.deep_view(),
            pages: opt_int_view(self.pages),
            comments: self.comments.deep_view(),
            uploaded: opt_i64_view(self.uploaded),
            last_accessed: opt_i64_view(self.last_accessed),
            picture: self.picture.deep_view(),
            tags: self.tags.deep_view(),
        }
    }
}

/// The full-metadata response describing a document row and its tag set.
pub open spec fn metadata_of(d: DocMeta, tags: Seq<Seq<char>>) -> MetadataMeta {
    MetadataMeta {
        id: Some(d.id),
        title: d.title,
        file_name: d.file_name,
        author: d.author,
        pages: d.pages,
        comments: d.comments,
        uploaded: Some(d.time_added),
        last_accessed: d.last_accessed,
        picture: d.picture,
        tags: Some(tags),
    }
}

/// A document's content, encoded as base64 text.
pub struct PdfDto {
    pub pdf: String,
}

/// Alternate shape of [`PdfDto`] used by content responses.
pub struct PdfContent {
    pub pdf: String,
}

/// Alternate shape of [`PagingDto`] used by query-string decoding.
pub struct PdfPaging {
    pub size: Option<i32>,
    pub page: Option<i32>,
}

/// Alternate shape of [`PdfSearchDto`] used by query-string decoding.
pub struct Search {
    pub title: Option<String>,
    pub author: Option<String>,
    pub tag: Option<String>,
    pub size: Option<i32>,
    pub page: Option<i32>,
}

/// A count row, as the relational store reports it.
pub struct TotalPageNumber {
    pub count: Option<i64>,
}

/// A tag row: a globally unique name with no owning document.
pub struct Tag {
    pub name: Option<String>,
}

/// The caller-supplied update of a document: replacement field values and
/// the requested tag set. An absent tag list is treated as the empty set.
pub struct PdfUpdate {
    pub id: Option<String>,
    pub title: Option<String>,
    pub author: Option<String>,
    pub comments: Option<String>,
    pub tags: Option<Vec<String>>,
    pub picture: Option<String>,
}

/// Ghost-level image of an update request.
pub ghost struct UpdateMeta {
    pub id: Option<Seq<char>>,
    pub title: Option<Seq<char>>,
    pub author: Option<Seq<char>>,
    pub comments: Option<Seq<char>>,
    pub tags: Option<Seq<Seq<char>>>,
    pub picture: Option<Seq<char>>,
}

impl View for PdfUpdate {
    type V = UpdateMeta;

    open spec fn view(&self) -> UpdateMeta {
        UpdateMeta {
            id: self.id.deep_view(),
            title: self.title.deep_view(),
            author: self.author.deep_view(),
            comments: self.comments.deep_view(),
            tags: self.tags.deep_view(),
            picture: self.picture.deep_view(),
        }
    }
}

/// The tag set an update requests: the given list, or the empty set when
/// the list is absent.
pub open spec fn requested_tags(u: UpdateMeta) -> Seq<Seq<char>> {
    match u.tags {
        Some(t) => t,
        None => Seq::<Seq<char>>::empty(),
    }
}

/// A page of listing rows with a known total.
pub struct PdfOverviewInfo {
    pub pdfs_previews: Vec<PdfOverview>,
    pub count: i64,
}

/// A staged upload: extracted preview metadata plus the staging path.
pub struct PdfUploaded {
    pub title: String,
    pub filename: String,
    pub author: Option<String>,
    pub pages: Option<i32>,
    pub img: String,
    pub path: String,
}

impl Clone for PdfUploaded {
    fn clone(&self) -> (r: PdfUploaded)
        ensures
            r@ == self@,
    {
        PdfUploaded {
            title: self.title.clone(),
            filename: self.filename.clone(),
            author: clone_opt_string(&self.author),
            pages: self.pages,
            img: self.img.clone(),
            path: self.path.clone(),
        }
    }
}

/// Ghost-level image of a staged upload.
pub ghost struct UploadMeta {
    pub title: Seq<char>,
    pub filename: Seq<char>,
    pub author: Option<Seq<char>>,
    pub pages: Option<int>,
    pub img: Seq<char>,
    pub path: Seq<char>,
}

impl View for PdfUploaded {
    type V = UploadMeta;

    open spec fn view(&self) -> UploadMeta {
        UploadMeta {
            title: self.title@,
            filename: self.filename@,
            author: self.author.deep_view(),
            pages: opt_int_view(self.pages),
            img: self.img@,
            path: self.path@,
        }
    }
}

/// A staged upload together with the file's content.
pub struct UploadItem {
    pub meta: PdfUploaded,
    pub data: Vec<u8>,
}

impl View for UploadItem {
    type V = (UploadMeta, Seq<u8>);

    open spec fn view(&self) -> (UploadMeta, Seq<u8>) {
        (self.meta@, self.data@)
    }
}

/// The row that an upload commits: caller metadata plus the assigned
/// identifier and creation time.
pub open spec fn doc_of_upload(m: UploadMeta, id: int, now: int) -> DocMeta {
    DocMeta {
        id: id,
        title: Some(m.title),
        file_name: m.filename,
        author: m.author,
        pages: m.pages,
        comments: None,
        time_added: now,
        last_accessed: None,
        picture: Some(m.img),
    }
}

/// The per-item outcome of a batched upload: the committed row, a
/// duplicate-file-name conflict, a store failure (compensated by removing
/// the orphaned blob), or a blob-write failure (nothing was stored).
pub enum UploadOutcome {
    Uploaded(Pdf),
    Duplicate,
    StoreFailure,
    BlobFailure,
}

/// The store events observed while one item was uploaded: whether the
/// blob write failed, and whether the row insert failed for a reason other
/// than a duplicate file name.
#[derive(Clone, Copy, Debug, PartialEq, Eq, Structural)]
pub struct UploadFault {
    pub blob: bool,
    pub insert: bool,
}

/// The health probe's response body.
pub struct Response {
    pub message: String,
}

/// The body of a rejected request.
pub struct BadRequestError {
    pub msg: String,
}

/// Reports that the service is up.
pub fn health() -> (r: Response)
    ensures
        r.message@ == "Everything is working fine"@,
{
    Response { message: "Everything is working fine".to_owned() }
}

} // verus!
