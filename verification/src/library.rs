//! The dual-store consistency manager: one document library over the
//! relational store and the blob store.
//!
//! Upload and delete are not wrapped in a cross-store transaction — the
//! blob store has none — so they follow a fixed ordering with compensating
//! actions instead. An upload writes the blob first, then inserts the row;
//! if the insert fails for any reason other than a duplicate file name, the
//! orphaned blob is removed. A duplicate name leaves the blob store alone:
//! the existing document legitimately owns that name. A delete removes the
//! row first and the blob second; a failed blob removal is a cleanup
//! nuisance, never surfaced as an error.

use vstd::prelude::*;
use crate::blob::{BlobStore, blob_len_ok, blobs_wf, copy_bytes, find_blob, remove_blob};
use crate::codec::{base64_of, to_base64};
use crate::model::{
    DocMeta, PagingDto, PdfDto, PdfError, PdfMetadataDto, PdfOverviewDto, PdfSearchDto, PdfUpdate,
    PdfUploaded, UploadFault, UploadItem, UploadMeta, UploadOutcome, metadata_of, opt_int_view,
    overview_views, overviews_of, requested_tags, update_fields,
};
use crate::query::{opt_val, page_slice, paging_valid, search_results, search_valid};
use crate::store::{
    RelationalStore, StoreModel, dedup, docs_updated, exists_doc, exists_file_name, find_doc,
    insert_sorted, lemma_delete_completeness, new_doc, reconciled_rels, reconciled_tags,
    rel_not_for, remove_doc, store_wf, tags_of,
};

verus! {

/// Ghost-level image of the whole library: both stores.
pub ghost struct LibraryModel {
    pub docs: Seq<DocMeta>,
    pub tags: Seq<Seq<char>>,
    pub rels: Seq<(int, Seq<char>)>,
    pub blobs: Seq<(Seq<char>, Seq<u8>)>,
}

/// A well-formed library: both stores are well-formed.
pub open spec fn lib_wf(m: LibraryModel) -> bool {
    &&& store_wf(StoreModel { docs: m.docs, tags: m.tags, rels: m.rels })
    &&& blobs_wf(m.blobs)
}

/// The ghost images of a vector of staged uploads.
pub open spec fn item_views(v: Seq<UploadItem>) -> Seq<(UploadMeta, Seq<u8>)> {
    v.map_values(|it: UploadItem| it@)
}

/// What one upload item does to the library, given the store events
/// observed for it. The blob is written first (never replacing an existing
/// blob); a duplicate file name leaves the metadata untouched; a
/// non-duplicate insert failure is compensated by removing the blob again.
pub open spec fn upload_step(
    m: LibraryModel,
    item: (UploadMeta, Seq<u8>),
    id: int,
    now: int,
    f: UploadFault,
) -> LibraryModel {
    let name = item.0.filename;
    let written = if find_blob(m.blobs, name) is Some {
        m.blobs
    } else {
        m.blobs.push((name, item.1))
    };
    if f.blob {
        m
    } else if exists_file_name(m.docs, name) {
        LibraryModel { docs: m.docs, tags: m.tags, rels: m.rels, blobs: written }
    } else if f.insert {
        LibraryModel { docs: m.docs, tags: m.tags, rels: m.rels, blobs: remove_blob(m.blobs, name) }
    } else {
        LibraryModel {
            docs: insert_sorted(
                m.docs,
                new_doc(item.0.title, name, item.0.author, item.0.pages, item.0.img, id, now),
            ),
            tags: m.tags,
            rels: m.rels,
            blobs: written,
        }
    }
}

/// The outcome one upload item must report, given the store events
/// observed for it.
pub open spec fn upload_outcome_ok(
    m: LibraryModel,
    item: (UploadMeta, Seq<u8>),
    id: int,
    now: int,
    f: UploadFault,
    out: UploadOutcome,
) -> bool {
    let name = item.0.filename;
    if f.blob {
        out is BlobFailure
    } else if exists_file_name(m.docs, name) {
        out is Duplicate
    } else if f.insert {
        out is StoreFailure
    } else {
        out matches UploadOutcome::Uploaded(p) && p@ == new_doc(
            item.0.title,
            name,
            item.0.author,
            item.0.pages,
            item.0.img,
            id,
            now,
        )
    }
}

/// The library after a batch of uploads, item by item: each item's outcome
/// is evaluated and compensated in isolation, so one item's failure never
/// rolls back another.
pub open spec fn upload_fold(
    m: LibraryModel,
    items: Seq<(UploadMeta, Seq<u8>)>,
    ids: Seq<u128>,
    now: int,
    faults: Seq<UploadFault>,
    k: int,
) -> LibraryModel
    decreases k,
{
    if k <= 0 {
        m
    } else {
        upload_step(
            upload_fold(m, items, ids, now, faults, k - 1),
            items[k - 1],
            ids[k - 1] as int,
            now,
            faults[k - 1],
        )
    }
}

/// The document library.
pub struct Library {
    store: RelationalStore,
    blobs: BlobStore,
}

impl View for Library {
    type V = LibraryModel;

    closed spec fn view(&self) -> LibraryModel {
        LibraryModel {
            docs: self.store@.docs,
            tags: self.store@.tags,
            rels: self.store@.rels,
            blobs: self.blobs@,
        }
    }
}

impl Library {
    /// Well-formed: both stores are well-formed.
    pub open spec fn wf(&self) -> bool {
        lib_wf(self@)
    }

    /// An empty library.
    pub fn new() -> (r: Library)
        ensures
            r@.docs == Seq::<DocMeta>::empty(),
            r@.tags == Seq::<Seq<char>>::empty(),
            r@.rels == Seq::<(int, Seq<char>)>::empty(),
            r@.blobs == Seq::<(Seq<char>, Seq<u8>)>::empty(),
            r.wf(),
    {
        Library { store: RelationalStore::new(), blobs: BlobStore::new() }
    }

    /// One page of the listing with the total document count, both over
    /// the whole table.
    pub fn get_all(&self, paging: PagingDto) -> (r: Result<PdfOverviewDto, PdfError>)
        requires
            self.wf(),
        ensures
            match r {
                Ok(dto) => {
                    &&& paging_valid(opt_int_view(paging.page), opt_int_view(paging.size))
                    &&& dto.count == Some(self@.docs.len() as i64)
                    &&& overview_views(dto.pdfs_previews@) == page_slice(
                        overviews_of(self@.docs),
                        opt_val(opt_int_view(paging.page)),
                        opt_val(opt_int_view(paging.size)),
                    )
                },
                Err(e) => e == PdfError::ValidationError && !paging_valid(
                    opt_int_view(paging.page),
                    opt_int_view(paging.size),
                ),
            },
    {
        let count = match self.store.total_number_of_pdfs() {
            Ok(c) => c,
            Err(e) => {
                return Err(e);
            },
        };
        let rows = match self.store.get_pdfs_paged(&paging) {
            Ok(v) => v,
            Err(e) => {
                return Err(e);
            },
        };
        Ok(PdfOverviewDto { pdfs_previews: rows, count: count })
    }

    /// The full metadata of one document, including its tag set read back
    /// from the relation table.
    pub fn get_pdf_metadata(&self, pdf_id: u128) -> (r: Result<PdfMetadataDto, PdfError>)
        requires
            self.wf(),
        ensures
            match r {
                Ok(dto) => find_doc(self@.docs, pdf_id as int) matches Some(d) && dto@
                    == metadata_of(d, tags_of(self@.rels, pdf_id as int)),
                Err(e) => e == PdfError::NotFound && find_doc(self@.docs, pdf_id as int) is None,
            },
    {
        let row = match self.store.get_pdf_metadata(pdf_id) {
            Ok(p) => p,
            Err(e) => {
                return Err(e);
            },
        };
        let tag_names = match self.store.get_associated_tags_of_pdf(pdf_id) {
            Ok(v) => v,
            Err(e) => {
                return Err(e);
            },
        };
        Ok(
            PdfMetadataDto {
                id: Some(row.id),
                title: row.title,
                file_name: row.file_name,
                author: row.author,
                pages: row.pages,
                comments: row.comments,
                uploaded: Some(row.time_added),
                last_accessed: row.last_accessed,
                picture: row.picture,
                tags: Some(tag_names),
            },
        )
    }

    /// A document's content, base64-encoded. A missing row is "not found";
    /// a row whose blob is missing is a data-integrity failure, reported
    /// distinctly.
    pub fn get_by_id(&self, pdf_id: u128) -> (r: Result<PdfDto, PdfError>)
        requires
            self.wf(),
        ensures
            match r {
                Ok(dto) => {
                    &&& find_doc(self@.docs, pdf_id as int) matches Some(d) && find_blob(
                        self@.blobs,
                        d.file_name,
                    ) matches Some(bytes) && dto.pdf@ == base64_of(bytes)
                },
                Err(e) => match find_doc(self@.docs, pdf_id as int) {
                    None => e == PdfError::NotFound,
                    Some(d) => e == PdfError::DataIntegrityError && find_blob(
                        self@.blobs,
                        d.file_name,
                    ) is None,
                },
            },
    {
        let name = match self.store.get_by_id(pdf_id) {
            Ok(n) => n,
            Err(_) => {
                return Err(PdfError::NotFound);
            },
        };
        let bytes = match self.blobs.read(&name) {
            Ok(b) => b,
            Err(_) => {
                return Err(PdfError::DataIntegrityError);
            },
        };
        let encoded = to_base64(&bytes);
        Ok(PdfDto { pdf: encoded })
    }

    /// Searches the documents: one page of matches and the total match
    /// count, both over the same predicate.
    pub fn search(&self, search: &PdfSearchDto) -> (r: Result<PdfOverviewDto, PdfError>)
        requires
            self.wf(),
        ensures
            match r {
                Ok(dto) => {
                    let results = search_results(self@.docs, self@.rels, search@);
                    &&& search_valid(search@)
                    &&& dto.count == Some(results.len() as i64)
                    &&& overview_views(dto.pdfs_previews@) == page_slice(
                        overviews_of(results),
                        opt_val(search@.page),
                        opt_val(search@.size),
                    )
                },
                Err(e) => e == PdfError::ValidationError && !search_valid(search@),
            },
    {
        self.store.search(search)
    }

    /// Updates a document's fields and reconciles its tags, atomically;
    /// the blob store is not touched.
    pub fn update(&mut self, update: PdfUpdate, pdf_id: u128) -> (r: Result<
        PdfMetadataDto,
        PdfError,
    >)
        requires
            old(self).wf(),
        ensures
            final(self).wf(),
            final(self)@.blobs == old(self)@.blobs,
            match r {
                Ok(dto) => {
                    let req = requested_tags(update@);
                    &&& find_doc(old(self)@.docs, pdf_id as int) matches Some(d) && dto@
                        == metadata_of(update_fields(d, update@), dedup(req))
                    &&& final(self)@.docs == docs_updated(old(self)@.docs, pdf_id as int, update@)
                    &&& final(self)@.tags == reconciled_tags(old(self)@.tags, req)
                    &&& final(self)@.rels == reconciled_rels(old(self)@.rels, pdf_id as int, req)
                },
                Err(e) => e == PdfError::NotFound && find_doc(
                    old(self)@.docs,
                    pdf_id as int,
                ) is None && final(self)@ == old(self)@,
            },
    {
        self.store.update(update, pdf_id)
    }

    /// Deletes a document: the row and its relations first, the blob only
    /// afterwards. `blob_fault` is the observed outcome of the blob
    /// removal; whatever it is, a delete whose row removal succeeded is
    /// reported as success, and the document is gone — a later metadata
    /// lookup reports "not found".
    pub fn delete(&mut self, pdf_id: u128, blob_fault: bool) -> (r: Result<(), PdfError>)
        requires
            old(self).wf(),
        ensures
            final(self).wf(),
            match r {
                Ok(_) => {
                    &&& find_doc(old(self)@.docs, pdf_id as int) matches Some(d) && (if blob_fault {
                        final(self)@.blobs == old(self)@.blobs
                    } else {
                        final(self)@.blobs == remove_blob(old(self)@.blobs, d.file_name)
                    })
                    &&& final(self)@.docs == remove_doc(old(self)@.docs, pdf_id as int)
                    &&& final(self)@.rels == old(self)@.rels.filter(rel_not_for(pdf_id as int))
                    &&& final(self)@.tags == old(self)@.tags
                    &&& find_doc(final(self)@.docs, pdf_id as int) is None
                },
                Err(e) => e == PdfError::NotFound && find_doc(
                    old(self)@.docs,
                    pdf_id as int,
                ) is None && final(self)@ == old(self)@,
            },
    {
        let name = match self.store.delete(pdf_id) {
            Ok(n) => n,
            Err(e) => {
                return Err(e);
            },
        };
        if !blob_fault {
            let _ = self.blobs.delete(&name);
        }
        proof {
            lemma_delete_completeness(self@.docs, pdf_id as int);
        }
        Ok(())
    }

    /// Whether a blob is stored under the given name.
    pub fn has_blob(&self, name: &String) -> (r: bool)
        ensures
            r == (find_blob(self@.blobs, name@) is Some),
    {
        self.blobs.contains(name)
    }

    /// Uploads one staged item under the write-then-compensate protocol.
    /// The two fault flags are the store events observed for this item.
    pub fn upload_item(
        &mut self,
        item: PdfUploaded,
        data: Vec<u8>,
        pdf_id: u128,
        now: i64,
        blob_fault: bool,
        insert_fault: bool,
    ) -> (out: UploadOutcome)
        requires
            old(self).wf(),
            !exists_doc(old(self)@.docs, pdf_id as int),
            old(self)@.docs.len() + 1 < i64::MAX,
            blob_len_ok(data@),
        ensures
            final(self).wf(),
            final(self)@ == upload_step(
                old(self)@,
                (item@, data@),
                pdf_id as int,
                now as int,
                UploadFault { blob: blob_fault, insert: insert_fault },
            ),
            upload_outcome_ok(
                old(self)@,
                (item@, data@),
                pdf_id as int,
                now as int,
                UploadFault { blob: blob_fault, insert: insert_fault },
                out,
            ),
            // compensation: a non-duplicate insert failure leaves no
            // orphaned blob behind
            (!blob_fault && !exists_file_name(old(self)@.docs, item@.filename) && insert_fault)
                ==> find_blob(final(self)@.blobs, item@.filename) is None,
            // a duplicate file name leaves the owning document's blob
            // untouched
            (!blob_fault && exists_file_name(old(self)@.docs, item@.filename))
                ==> final(self)@.blobs == (if find_blob(old(self)@.blobs, item@.filename) is Some {
                old(self)@.blobs
            } else {
                old(self)@.blobs.push((item@.filename, data@))
            }),
    {
        if blob_fault {
            return UploadOutcome::BlobFailure;
        }
        let ghost before = self@;
        let name = item.filename.clone();
        let _ = self.blobs.write(name, data);
        if self.store.has_file_name(&item.filename) {
            return UploadOutcome::Duplicate;
        }
        if insert_fault {
            let _ = self.blobs.delete(&item.filename);
            proof {
                if find_blob(before.blobs, item@.filename) is None {
                    crate::blob::lemma_find_blob_none(before.blobs, item@.filename);
                    crate::blob::lemma_remove_blob_at(
                        before.blobs.push((item@.filename, data@)),
                        item@.filename,
                        before.blobs.len() as int,
                    );
                    crate::blob::lemma_remove_blob_at(
                        before.blobs,
                        item@.filename,
                        before.blobs.len() as int,
                    );
                    assert(before.blobs.push((item@.filename, data@)).remove(
                        before.blobs.len() as int,
                    ) =~= before.blobs);
                }
            }
            return UploadOutcome::StoreFailure;
        }
        let PdfUploaded { title, filename, author, pages, img, path: _ } = item;
        match self.store.upload(title, filename, author, pages, img, pdf_id, now) {
            Ok(p) => UploadOutcome::Uploaded(p),
            Err(_) => UploadOutcome::StoreFailure,
        }
    }

    /// Uploads a batch of staged items. Items are processed independently,
    /// in order: one item's failure is compensated in isolation and never
    /// aborts or rolls back its siblings. One outcome is reported per item.
    pub fn upload(
        &mut self,
        to_upload: Vec<UploadItem>,
        ids: Vec<u128>,
        now: i64,
        faults: Vec<UploadFault>,
    ) -> (out: Vec<UploadOutcome>)
        requires
            old(self).wf(),
            ids@.len() == to_upload@.len(),
            faults@.len() == to_upload@.len(),
            forall|j: int|
                0 <= j < ids@.len() ==> !exists_doc(old(self)@.docs, #[trigger] ids@[j] as int),
            forall|a: int, b: int| 0 <= a < b < ids@.len() ==> ids@[a] != ids@[b],
            old(self)@.docs.len() + to_upload@.len() < i64::MAX,
            forall|j: int|
                0 <= j < to_upload@.len() ==> blob_len_ok((#[trigger] item_views(to_upload@)[j]).1),
        ensures
            final(self).wf(),
            out@.len() == to_upload@.len(),
            final(self)@ == upload_fold(
                old(self)@,
                item_views(to_upload@),
                ids@,
                now as int,
                faults@,
                to_upload@.len() as int,
            ),
            forall|j: int|
                0 <= j < out@.len() ==> upload_outcome_ok(
                    upload_fold(
                        old(self)@,
                        item_views(to_upload@),
                        ids@,
                        now as int,
                        faults@,
                        j,
                    ),
                    item_views(to_upload@)[j],
                    ids@[j] as int,
                    now as int,
                    faults@[j],
                    #[trigger] out@[j],
                ),
    {
        let ghost m0 = self@;
        let ghost iv = item_views(to_upload@);
        let mut out: Vec<UploadOutcome> = Vec::new();
        let mut k: usize = 0;
        let n = to_upload.len();
        while k < n
            invariant
                k <= n,
                n == to_upload@.len(),
                ids@.len() == n,
                faults@.len() == n,
                iv == item_views(to_upload@),
                self.wf(),
                out@.len() == k,
                self@ == upload_fold(m0, iv, ids@, now as int, faults@, k as int),
                m0.docs.len() + n < i64::MAX,
                self@.docs.len() <= m0.docs.len() + k,
                forall|j: int| 0 <= j < n ==> !exists_doc(m0.docs, #[trigger] ids@[j] as int),
                forall|a: int, b: int| 0 <= a < b < n ==> ids@[a] != ids@[b],
                forall|j: int| 0 <= j < n ==> blob_len_ok((#[trigger] iv[j]).1),
                forall|x: int|
                    #[trigger] exists_doc(self@.docs, x) ==> exists_doc(m0.docs, x) || exists|j: int|
                        0 <= j < k && ids@[j] as int == x,
                forall|j: int|
                    0 <= j < k ==> upload_outcome_ok(
                        upload_fold(m0, iv, ids@, now as int, faults@, j),
                        iv[j],
                        ids@[j] as int,
                        now as int,
                        faults@[j],
                        #[trigger] out@[j],
                    ),
            decreases n - k,
        {
            let ghost cur = self@;
            proof {
                if exists_doc(cur.docs, ids@[k as int] as int) {
                    assert(exists_doc(m0.docs, ids@[k as int] as int) || exists|j: int|
                        0 <= j < k && ids@[j] as int == ids@[k as int] as int);
                    if exists|j: int| 0 <= j < k && ids@[j] as int == ids@[k as int] as int {
                        let j = choose|j: int|
                            0 <= j < k && ids@[j] as int == ids@[k as int] as int;
                        assert(ids@[j] == ids@[k as int]);
                        assert(false);
                    }
                    assert(false);
                }
            }
            let item = to_upload[k].meta.clone();
            let data = copy_bytes(&to_upload[k].data);
            let f = faults[k];
            let o = self.upload_item(item, data, ids[k], now, f.blob, f.insert);
            out.push(o);
            proof {
                assert(iv[k as int] == (to_upload@[k as int].meta@, to_upload@[k as int].data@));
                assert(self@ == upload_step(
                    cur,
                    iv[k as int],
                    ids@[k as int] as int,
                    now as int,
                    faults@[k as int],
                ));
                assert(self@ == upload_fold(m0, iv, ids@, now as int, faults@, k + 1));
                // the new identifier set grows by at most the item's id
                let nd = new_doc(
                    iv[k as int].0.title,
                    iv[k as int].0.filename,
                    iv[k as int].0.author,
                    iv[k as int].0.pages,
                    iv[k as int].0.img,
                    ids@[k as int] as int,
                    now as int,
                );
                if self@.docs != cur.docs {
                    crate::store::lemma_insert_sorted_ids(cur.docs, nd);
                }
                assert forall|x: int| #[trigger] exists_doc(self@.docs, x) implies exists_doc(
                    m0.docs,
                    x,
                ) || exists|j: int| 0 <= j < k + 1 && ids@[j] as int == x by {
                    if self@.docs == cur.docs {
                        assert(exists_doc(cur.docs, x));
                    } else {
                        if x == nd.id {
                            assert(ids@[k as int] as int == x);
                        } else {
                            assert(exists_doc(cur.docs, x));
                        }
                    }
                }
            }
            k += 1;
        }
        out
    }
}

} // verus!
