//! The blob store: named binary objects on a filesystem, modelled as a
//! sequence of (name, content) entries with unique names.
//!
//! Writes never replace an existing blob: an existing name is legitimately
//! owned by an earlier document, and the upload compensation protocol relies
//! on a duplicate write leaving the owner's content untouched.

use vstd::prelude::*;
use crate::model::PdfError;

verus! {

/// One stored blob.
pub struct BlobEntry {
    name: String,
    data: Vec<u8>,
}

/// The blob store.
pub struct BlobStore {
    entries: Vec<BlobEntry>,
}

/// The content stored under a name, if any.
pub open spec fn find_blob(bs: Seq<(Seq<char>, Seq<u8>)>, name: Seq<char>) -> Option<Seq<u8>>
    decreases bs.len(),
{
    if bs.len() == 0 {
        None
    } else if bs[0].0 == name {
        Some(bs[0].1)
    } else {
        find_blob(bs.drop_first(), name)
    }
}

/// The store with the first entry of the given name removed; the store
/// itself when the name is absent.
pub open spec fn remove_blob(bs: Seq<(Seq<char>, Seq<u8>)>, name: Seq<char>) -> Seq<
    (Seq<char>, Seq<u8>),
>
    decreases bs.len(),
{
    if bs.len() == 0 {
        bs
    } else if bs[0].0 == name {
        bs.drop_first()
    } else {
        seq![bs[0]] + remove_blob(bs.drop_first(), name)
    }
}

/// Content small enough that its base64 encoding fits in memory.
pub open spec fn blob_len_ok(d: Seq<u8>) -> bool {
    d.len() + 3 <= 3 * (usize::MAX as int / 4)
}

/// A well-formed blob store: names are unique and every blob's content is
/// small enough to encode.
pub open spec fn blobs_wf(bs: Seq<(Seq<char>, Seq<u8>)>) -> bool {
    &&& forall|i: int, j: int| 0 <= i < j < bs.len() ==> bs[i].0 != bs[j].0
    &&& forall|i: int| 0 <= i < bs.len() ==> blob_len_ok(#[trigger] bs[i].1)
}

/// Characterises `find_blob` by the index of the first matching entry.
pub proof fn lemma_find_blob_at(bs: Seq<(Seq<char>, Seq<u8>)>, name: Seq<char>, i: int)
    requires
        0 <= i <= bs.len(),
        forall|k: int| 0 <= k < i ==> bs[k].0 != name,
        i < bs.len() ==> bs[i].0 == name,
    ensures
        find_blob(bs, name) == if i < bs.len() {
            Some(bs[i].1)
        } else {
            Option::<Seq<u8>>::None
        },
    decreases i,
{
    if i == 0 {
        if bs.len() == 0 {
        } else if bs[0].0 == name {
        } else {
            lemma_find_blob_at(bs.drop_first(), name, 0);
            assert(forall|k: int|
                0 <= k < bs.drop_first().len() ==> bs.drop_first()[k] == bs[k + 1]);
        }
    } else {
        lemma_find_blob_at(bs.drop_first(), name, i - 1);
        assert(forall|k: int| 0 <= k < bs.drop_first().len() ==> bs.drop_first()[k] == bs[k + 1]);
    }
}

/// An unfound name occurs in no entry.
pub proof fn lemma_find_blob_none(bs: Seq<(Seq<char>, Seq<u8>)>, name: Seq<char>)
    requires
        find_blob(bs, name) is None,
    ensures
        forall|k: int| 0 <= k < bs.len() ==> bs[k].0 != name,
    decreases bs.len(),
{
    if bs.len() > 0 {
        assert(bs[0].0 != name);
        lemma_find_blob_none(bs.drop_first(), name);
        assert forall|k: int| 0 <= k < bs.len() implies bs[k].0 != name by {
            if k > 0 {
                assert(bs.drop_first()[k - 1] == bs[k]);
            }
        }
    }
}

/// Characterises `remove_blob` by the index of the first matching entry.
pub proof fn lemma_remove_blob_at(bs: Seq<(Seq<char>, Seq<u8>)>, name: Seq<char>, i: int)
    requires
        0 <= i <= bs.len(),
        forall|k: int| 0 <= k < i ==> bs[k].0 != name,
        i < bs.len() ==> bs[i].0 == name,
    ensures
        remove_blob(bs, name) == if i < bs.len() {
            bs.remove(i)
        } else {
            bs
        },
    decreases i,
{
    if i == 0 {
        if bs.len() == 0 {
        } else if bs[0].0 == name {
            assert(bs.remove(0) =~= bs.drop_first());
        } else {
        }
    } else {
        assert(bs.len() > 0);
        lemma_remove_blob_at(bs.drop_first(), name, i - 1);
        assert(forall|k: int| 0 <= k < bs.drop_first().len() ==> bs.drop_first()[k] == bs[k + 1]);
        if i < bs.len() {
            assert(bs.drop_first()[i - 1].0 == name);
            assert(remove_blob(bs, name) == seq![bs[0]] + bs.drop_first().remove(i - 1));
            assert(seq![bs[0]] + bs.drop_first().remove(i - 1) =~= bs.remove(i));
        } else {
            assert(seq![bs[0]] + bs.drop_first() =~= bs);
        }
    }
}

/// Copies a byte vector.
pub fn copy_bytes(d: &Vec<u8>) -> (r: Vec<u8>)
    ensures
        r@ == d@,
{
    let mut r: Vec<u8> = Vec::new();
    let mut i: usize = 0;
    while i < d.len()
        invariant
            i <= d@.len(),
            r@ == d@.subrange(0, i as int),
        decreases d@.len() - i,
    {
        r.push(d[i]);
        proof {
            assert(d@.subrange(0, i + 1) =~= d@.subrange(0, i as int).push(d@[i as int]));
        }
        i += 1;
    }
    proof {
        assert(d@.subrange(0, d@.len() as int) =~= d@);
    }
    r
}

impl View for BlobStore {
    type V = Seq<(Seq<char>, Seq<u8>)>;

    closed spec fn view(&self) -> Seq<(Seq<char>, Seq<u8>)> {
        self.entries@.map_values(|e: BlobEntry| (e.name@, e.data@))
    }
}

impl BlobStore {
    /// Well-formed: names are unique and every blob's content is small
    /// enough to encode.
    pub open spec fn wf(&self) -> bool {
        blobs_wf(self@)
    }

    /// An empty store.
    pub fn new() -> (r: BlobStore)
        ensures
            r@ == Seq::<(Seq<char>, Seq<u8>)>::empty(),
            r.wf(),
    {
        let r = BlobStore { entries: Vec::new() };
        proof {
            assert(r@ =~= Seq::<(Seq<char>, Seq<u8>)>::empty());
        }
        r
    }

    /// The index of the entry with the given name, if any.
    fn find_index(&self, name: &String) -> (r: Option<usize>)
        ensures
            match r {
                Some(i) => i < self@.len() && self@[i as int].0 == name@ && forall|k: int|
                    0 <= k < i ==> self@[k].0 != name@,
                None => forall|k: int| 0 <= k < self@.len() ==> self@[k].0 != name@,
            },
    {
        let mut i: usize = 0;
        while i < self.entries.len()
            invariant
                i <= self@.len(),
                self@.len() == self.entries@.len(),
                forall|k: int| 0 <= k < i ==> self@[k].0 != name@,
            decreases self@.len() - i,
        {
            if self.entries[i].name.eq(name) {
                return Some(i);
            }
            i += 1;
        }
        None
    }

    /// Whether a blob of the given name is stored.
    pub fn contains(&self, name: &String) -> (r: bool)
        ensures
            r == (find_blob(self@, name@) is Some),
    {
        let idx = self.find_index(name);
        proof {
            match idx {
                Some(i) => lemma_find_blob_at(self@, name@, i as int),
                None => lemma_find_blob_at(self@, name@, self@.len() as int),
            }
        }
        idx.is_some()
    }

    /// Stores content under a name. An absent name is created; an existing
    /// blob is kept untouched, so that a duplicate upload can never destroy
    /// the content owned by an earlier document.
    pub fn write(&mut self, name: String, data: Vec<u8>) -> (r: Result<(), PdfError>)
        requires
            old(self).wf(),
            blob_len_ok(data@),
        ensures
            final(self).wf(),
            r is Ok,
            find_blob(old(self)@, name@) is None ==> final(self)@ == old(self)@.push(
                (name@, data@),
            ),
            find_blob(old(self)@, name@) is Some ==> final(self)@ == old(self)@,
    {
        let idx = self.find_index(&name);
        proof {
            match idx {
                Some(i) => lemma_find_blob_at(self@, name@, i as int),
                None => lemma_find_blob_at(self@, name@, self@.len() as int),
            }
        }
        match idx {
            Some(_) => Ok(()),
            None => {
                let ghost before = self@;
                self.entries.push(BlobEntry { name, data });
                proof {
                    assert(self@ =~= before.push((name@, data@)));
                }
                Ok(())
            },
        }
    }

    /// Reads the content stored under a name; an absent name is an I/O
    /// failure.
    pub fn read(&self, name: &String) -> (r: Result<Vec<u8>, PdfError>)
        requires
            self.wf(),
        ensures
            match r {
                Ok(d) => find_blob(self@, name@) == Some(d@) && blob_len_ok(d@),
                Err(e) => e == PdfError::IoError && find_blob(self@, name@) is None,
            },
    {
        let idx = self.find_index(name);
        proof {
            match idx {
                Some(i) => lemma_find_blob_at(self@, name@, i as int),
                None => lemma_find_blob_at(self@, name@, self@.len() as int),
            }
        }
        match idx {
            Some(i) => Ok(copy_bytes(&self.entries[i].data)),
            None => Err(PdfError::IoError),
        }
    }

    /// Removes the blob of the given name; removing an absent name is an
    /// I/O failure that leaves the store unchanged.
    pub fn delete(&mut self, name: &String) -> (r: Result<(), PdfError>)
        requires
            old(self).wf(),
        ensures
            final(self).wf(),
            final(self)@ == remove_blob(old(self)@, name@),
            find_blob(final(self)@, name@) is None,
            r is Ok <==> find_blob(old(self)@, name@) is Some,
            r is Err ==> r == Err::<(), PdfError>(PdfError::IoError) && final(self)@ == old(
                self,
            )@,
    {
        let idx = self.find_index(name);
        proof {
            match idx {
                Some(i) => {
                    lemma_find_blob_at(self@, name@, i as int);
                    lemma_remove_blob_at(self@, name@, i as int);
                },
                None => {
                    lemma_find_blob_at(self@, name@, self@.len() as int);
                    lemma_remove_blob_at(self@, name@, self@.len() as int);
                },
            }
        }
        match idx {
            Some(i) => {
                let ghost before = self@;
                let ghost gi = i as int;
                self.entries.remove(i);
                proof {
                    assert(self@ =~= before.remove(gi));
                    let after = self@;
                    assert(forall|k: int| 0 <= k < after.len() ==> after[k].0 != name@) by {
                        assert(forall|k: int|
                            0 <= k < after.len() ==> after[k] == if k < gi {
                                before[k]
                            } else {
                                before[k + 1]
                            });
                    }
                    lemma_find_blob_at(after, name@, after.len() as int);
                }
                Ok(())
            },
            None => Err(PdfError::IoError),
        }
    }
}

} // verus!
