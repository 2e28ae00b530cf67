//! The document store: named collections of documents, each document paired
//! with one derived lexical index entry.
//!
//! The store is the library's authoritative model of the data — plain
//! vectors with a well-formedness invariant. Persistence (a database file,
//! a network service) is an integration concern layered on the outside;
//! every rule the store obeys is stated here and proved:
//!
//! * collection names and ids are unique, document ids are unique and
//!   assigned in increasing order;
//! * every document belongs to an existing collection;
//! * there is exactly one lexical index entry per live document, created
//!   and removed in the same step as the document, and its tokens are
//!   always the tokenization of the document's current content;
//! * creation stamps grow strictly with the store's logical clock, so
//!   "newest first" orderings are well defined.

use vstd::prelude::*;
use vstd::string::StringExecFns;
use crate::error::Error;
use crate::similarity::{
    components_bounded, EMBEDDING_COMPONENT_LIMIT, EMBEDDING_LENGTH_LIMIT,
};
use crate::textproc::{spec_tokenize, chars_of, tokenize_chars};
use crate::metadata::{json_wellformed, json_parses};


verus! {

/// The most entries the store accepts in one table.
pub const STORE_CAPACITY: usize = 0x4000_0000;

/// A collection as callers see it: identity, description, and a live
/// document count.
#[derive(Debug, Clone)]
pub struct Collection {
    pub id: i64,
    pub name: String,
    pub description: Option<String>,
    pub document_count: i64,
    pub created_at: u64,
    pub updated_at: u64,
}

impl Collection {
    /// Assembles a collection value from its parts.
    pub fn new(
        id: i64,
        name: String,
        description: Option<String>,
        document_count: i64,
        created_at: u64,
        updated_at: u64,
    ) -> (c: Collection)
        ensures
            c.id == id,
            c.name == name,
            c.description == description,
            c.document_count == document_count,
            c.created_at == created_at,
            c.updated_at == updated_at,
    {
        Collection { id, name, description, document_count, created_at, updated_at }
    }
}

/// A document as callers see it; the collection name is carried for
/// convenience, the collection id is authoritative.
#[derive(Debug, Clone)]
pub struct Document {
    pub id: i64,
    pub collection_id: i64,
    pub collection_name: String,
    pub content: String,
    pub metadata: Option<String>,
    pub created_at: u64,
    pub updated_at: u64,
}

impl Document {
    /// Assembles a document value from its parts.
    pub fn new(
        id: i64,
        collection_id: i64,
        collection_name: String,
        content: String,
        metadata: Option<String>,
        created_at: u64,
        updated_at: u64,
    ) -> (d: Document)
        ensures
            d.id == id,
            d.collection_id == collection_id,
            d.collection_name == collection_name,
            d.content == content,
            d.metadata == metadata,
            d.created_at == created_at,
            d.updated_at == updated_at,
    {
        Document { id, collection_id, collection_name, content, metadata, created_at, updated_at }
    }
}

/// A stored collection row; the document count is always derived, never
/// stored.
pub struct CollectionRec {
    pub id: i64,
    pub name: String,
    pub description: Option<String>,
    pub created_at: u64,
    pub updated_at: u64,
}

/// A stored document row.
pub struct DocumentRec {
    pub id: i64,
    pub collection_id: i64,
    pub content: String,
    pub embedding: Vec<i64>,
    pub metadata: Option<String>,
    pub created_at: u64,
    pub updated_at: u64,
}

/// A lexical index entry: the derived, keyword-searchable form of one
/// document's content.
pub struct IndexEntry {
    pub document_id: i64,
    pub tokens: Vec<Vec<char>>,
}

/// The in-memory document store.
pub struct Database {
    pub collections: Vec<CollectionRec>,
    pub documents: Vec<DocumentRec>,
    pub index: Vec<IndexEntry>,
    pub next_collection_id: i64,
    pub next_document_id: i64,
    pub clock: u64,
}

/// Some collection in `s` carries this name.
pub open spec fn spec_has_coll_named(s: Seq<CollectionRec>, name: Seq<char>) -> bool {
    exists|i: int| 0 <= i < s.len() && #[trigger] s[i].name@ == name
}

/// Some collection in `s` carries this id.
pub open spec fn spec_has_coll_id(s: Seq<CollectionRec>, id: i64) -> bool {
    exists|i: int| 0 <= i < s.len() && #[trigger] s[i].id == id
}

/// The position of the collection with this id (unique under `wf`).
pub open spec fn spec_coll_idx_by_id(s: Seq<CollectionRec>, id: i64) -> int {
    choose|i: int| 0 <= i < s.len() && #[trigger] s[i].id == id
}

/// The name of the collection with this id (unique under `wf`).
pub open spec fn spec_coll_name_of(s: Seq<CollectionRec>, id: i64) -> Seq<char> {
    s[spec_coll_idx_by_id(s, id)].name@
}

/// The position of the collection with this name (unique under `wf`).
pub open spec fn spec_coll_idx_by_name(s: Seq<CollectionRec>, name: Seq<char>) -> int {
    choose|i: int| 0 <= i < s.len() && #[trigger] s[i].name@ == name
}

/// The id of the collection with this name (unique under `wf`).
pub open spec fn spec_coll_id_by_name(s: Seq<CollectionRec>, name: Seq<char>) -> i64 {
    s[spec_coll_idx_by_name(s, name)].id
}

/// Some document in `s` carries this id.
pub open spec fn spec_has_doc_id(s: Seq<DocumentRec>, id: i64) -> bool {
    exists|i: int| 0 <= i < s.len() && #[trigger] s[i].id == id
}

/// The position of the document with this id (unique under `wf`).
pub open spec fn spec_doc_idx_by_id(s: Seq<DocumentRec>, id: i64) -> int {
    choose|i: int| 0 <= i < s.len() && #[trigger] s[i].id == id
}

/// The documents of collection `cid`, in storage order.
pub open spec fn spec_docs_of(docs: Seq<DocumentRec>, cid: i64) -> Seq<DocumentRec> {
    docs.filter(|d: DocumentRec| d.collection_id == cid)
}

/// The live document count of collection `cid`.
pub open spec fn spec_count_docs(docs: Seq<DocumentRec>, cid: i64) -> nat {
    spec_docs_of(docs, cid).len()
}

/// The caller-visible collection `c` faithfully renders the stored row
/// `rec`, with its live document count.
pub open spec fn spec_coll_matches(
    c: Collection,
    rec: CollectionRec,
    docs: Seq<DocumentRec>,
) -> bool {
    &&& c.id == rec.id
    &&& c.name@ == rec.name@
    &&& match (c.description, rec.description) {
        (Some(a), Some(b)) => a@ == b@,
        (None, None) => true,
        _ => false,
    }
    &&& c.document_count == spec_count_docs(docs, rec.id)
    &&& c.created_at == rec.created_at
    &&& c.updated_at == rec.updated_at
}

/// The caller-visible document `d` faithfully renders the stored row
/// `rec`, with its collection's name joined in.
pub open spec fn spec_doc_matches(
    d: Document,
    rec: DocumentRec,
    colls: Seq<CollectionRec>,
) -> bool {
    &&& d.id == rec.id
    &&& d.collection_id == rec.collection_id
    &&& d.collection_name@ == spec_coll_name_of(colls, rec.collection_id)
    &&& d.content@ == rec.content@
    &&& match (d.metadata, rec.metadata) {
        (Some(a), Some(b)) => a@ == b@,
        (None, None) => true,
        _ => false,
    }
    &&& d.created_at == rec.created_at
    &&& d.updated_at == rec.updated_at
}

impl Database {
    /// The store's invariant; every operation preserves it.
    pub open spec fn wf(&self) -> bool {
        &&& forall|i: int, j: int|
            #![trigger self.collections@[i], self.collections@[j]]
            0 <= i < j < self.collections@.len() ==> {
                &&& self.collections@[i].id < self.collections@[j].id
                &&& self.collections@[i].name@ != self.collections@[j].name@
                &&& self.collections@[i].created_at < self.collections@[j].created_at
            }
        &&& forall|i: int|
            0 <= i < self.collections@.len() ==> {
                &&& 1 <= #[trigger] self.collections@[i].id < self.next_collection_id
                &&& self.collections@[i].created_at < self.clock
                &&& self.collections@[i].updated_at < self.clock
            }
        &&& forall|i: int, j: int|
            #![trigger self.documents@[i], self.documents@[j]]
            0 <= i < j < self.documents@.len() ==> {
                &&& self.documents@[i].id < self.documents@[j].id
                &&& self.documents@[i].created_at < self.documents@[j].created_at
            }
        &&& forall|i: int|
            0 <= i < self.documents@.len() ==> {
                &&& 1 <= #[trigger] self.documents@[i].id < self.next_document_id
                &&& spec_has_coll_id(self.collections@, self.documents@[i].collection_id)
                &&& self.documents@[i].created_at < self.clock
                &&& self.documents@[i].updated_at < self.clock
                &&& components_bounded(
                    self.documents@[i].embedding@,
                    EMBEDDING_COMPONENT_LIMIT as int,
                )
                &&& self.documents@[i].embedding@.len() <= EMBEDDING_LENGTH_LIMIT
            }
        &&& self.index@.len() == self.documents@.len()
        &&& forall|i: int|
            0 <= i < self.index@.len() ==> {
                &&& (#[trigger] self.index@[i]).document_id == self.documents@[i].id
                &&& self.index@[i].tokens.deep_view() == spec_tokenize(
                    self.documents@[i].content@,
                )
            }
        &&& 1 <= self.next_collection_id
        &&& 1 <= self.next_document_id
        &&& self.collections@.len() <= STORE_CAPACITY
        &&& self.documents@.len() <= STORE_CAPACITY
    }

    /// Room is left for one more row, one more id, and one more clock tick.
    pub open spec fn spec_has_capacity(&self) -> bool {
        &&& self.next_collection_id < 0x7FFF_FFFF_FFFF_FFFF
        &&& self.next_document_id < 0x7FFF_FFFF_FFFF_FFFF
        &&& self.clock < 0xFFFF_FFFF_FFFF_FFFF
        &&& self.collections@.len() < STORE_CAPACITY
        &&& self.documents@.len() < STORE_CAPACITY
    }

    pub(crate) fn has_capacity(&self) -> (b: bool)
        ensures
            b == self.spec_has_capacity(),
    {
        self.next_collection_id < 0x7FFF_FFFF_FFFF_FFFF && self.next_document_id
            < 0x7FFF_FFFF_FFFF_FFFF && self.clock < 0xFFFF_FFFF_FFFF_FFFF
            && self.collections.len() < STORE_CAPACITY && self.documents.len()
            < STORE_CAPACITY
    }

    /// An empty store.
    pub fn new() -> (db: Database)
        ensures
            db.wf(),
            db.collections@ == Seq::<CollectionRec>::empty(),
            db.documents@ == Seq::<DocumentRec>::empty(),
            db.index@ == Seq::<IndexEntry>::empty(),
            db.spec_has_capacity(),
    {
        let db = Database {
            collections: Vec::new(),
            documents: Vec::new(),
            index: Vec::new(),
            next_collection_id: 1,
            next_document_id: 1,
            clock: 1,
        };
        proof {
            assert(db.collections@ =~= Seq::<CollectionRec>::empty());
            assert(db.documents@ =~= Seq::<DocumentRec>::empty());
            assert(db.index@ =~= Seq::<IndexEntry>::empty());
        }
        db
    }

    /// The position of the collection named `name`, if any.
    pub(crate) fn coll_index_by_name(&self, name: &str) -> (r: Option<usize>)
        ensures
            match r {
                Some(i) => i < self.collections@.len() && self.collections@[i as int].name@
                    == name@,
                None => !spec_has_coll_named(self.collections@, name@),
            },
    {
        let n = self.collections.len();
        let mut i: usize = 0;
        while i < n
            invariant
                0 <= i <= n,
                n == self.collections@.len(),
                forall|j: int| 0 <= j < i ==> #[trigger] self.collections@[j].name@ != name@,
            decreases n - i,
        {
            if crate::textproc::str_eq(self.collections[i].name.as_str(), name) {
                return Some(i);
            }
            i = i + 1;
        }
        None
    }

    /// The position of the collection with id `id`, if any.
    pub(crate) fn coll_index_by_id(&self, id: i64) -> (r: Option<usize>)
        ensures
            match r {
                Some(i) => i < self.collections@.len() && self.collections@[i as int].id == id,
                None => !spec_has_coll_id(self.collections@, id),
            },
    {
        let n = self.collections.len();
        let mut i: usize = 0;
        while i < n
            invariant
                0 <= i <= n,
                n == self.collections@.len(),
                forall|j: int| 0 <= j < i ==> #[trigger] self.collections@[j].id != id,
            decreases n - i,
        {
            if self.collections[i].id == id {
                return Some(i);
            }
            i = i + 1;
        }
        None
    }

    /// The position of the document with id `id`, if any.
    pub(crate) fn doc_index_by_id(&self, id: i64) -> (r: Option<usize>)
        ensures
            match r {
                Some(i) => i < self.documents@.len() && self.documents@[i as int].id == id,
                None => !spec_has_doc_id(self.documents@, id),
            },
    {
        let n = self.documents.len();
        let mut i: usize = 0;
        while i < n
            invariant
                0 <= i <= n,
                n == self.documents@.len(),
                forall|j: int| 0 <= j < i ==> #[trigger] self.documents@[j].id != id,
            decreases n - i,
        {
            if self.documents[i].id == id {
                return Some(i);
            }
            i = i + 1;
        }
        None
    }

    /// Counts the live documents of collection `cid`.
    pub(crate) fn count_documents(&self, cid: i64) -> (c: usize)
        ensures
            c == spec_count_docs(self.documents@, cid),
            c <= self.documents@.len(),
    {
        broadcast use vstd::seq_lib::group_filter_ensures;

        let pred = |d: DocumentRec| d.collection_id == cid;
        let n = self.documents.len();
        let mut c: usize = 0;
        let mut i: usize = 0;
        proof {
            assert(self.documents@.take(0).filter(|d: DocumentRec| d.collection_id == cid)
                =~= Seq::<DocumentRec>::empty());
            reveal(Seq::filter);
        }
        while i < n
            invariant
                0 <= i <= n,
                n == self.documents@.len(),
                c <= i,
                c == self.documents@.take(i as int).filter(
                    |d: DocumentRec| d.collection_id == cid,
                ).len(),
            decreases n - i,
        {
            proof {
                lemma_filter_take_step(self.documents@, i as int, |d: DocumentRec| d.collection_id == cid);
            }
            if self.documents[i].collection_id == cid {
                c = c + 1;
            }
            i = i + 1;
        }
        proof {
            assert(self.documents@.take(n as int) =~= self.documents@);
        }
        c
    }

    /// Renders the stored row at `ci` as a caller-visible collection.
    pub(crate) fn render_collection(&self, ci: usize) -> (c: Collection)
        requires
            self.wf(),
            ci < self.collections@.len(),
        ensures
            spec_coll_matches(c, self.collections@[ci as int], self.documents@),
    {
        let rec = &self.collections[ci];
        let description = match &rec.description {
            Some(d) => Some(d.clone()),
            None => None,
        };
        let count = self.count_documents(rec.id);
        Collection::new(
            rec.id,
            rec.name.clone(),
            description,
            count as i64,
            rec.created_at,
            rec.updated_at,
        )
    }

    /// Creates a collection with a fresh id; fails with `AlreadyExists`
    /// when the name is taken, and with `StorageError` only when the
    /// store's id, clock or row space is exhausted.
    pub fn create_collection(&mut self, name: &str, description: Option<&str>) -> (r: Result<
        i64,
        Error,
    >)
        requires
            old(self).wf(),
        ensures
            final(self).wf(),
            spec_has_coll_named(old(self).collections@, name@) ==> {
                &&& r is Err
                &&& r->Err_0 is AlreadyExists
                &&& *final(self) == *old(self)
            },
            !spec_has_coll_named(old(self).collections@, name@) && !old(
                self,
            ).spec_has_capacity() ==> {
                &&& r is Err
                &&& r->Err_0 is StorageError
                &&& *final(self) == *old(self)
            },
            !spec_has_coll_named(old(self).collections@, name@) && old(
                self,
            ).spec_has_capacity() ==> {
                &&& r is Ok
                &&& r->Ok_0 == old(self).next_collection_id
                &&& final(self).collections@.len() == old(self).collections@.len() + 1
                &&& final(self).collections@.last().id == old(self).next_collection_id
                &&& final(self).collections@.last().name@ == name@
                &&& match (final(self).collections@.last().description, description) {
                    (Some(a), Some(b)) => a@ == b@,
                    (None, None) => true,
                    _ => false,
                }
                &&& final(self).collections@.last().created_at == old(self).clock
                &&& final(self).collections@.last().updated_at == old(self).clock
                &&& final(self).collections@.take(old(self).collections@.len() as int) == old(
                    self,
                ).collections@
                &&& final(self).documents@ == old(self).documents@
                &&& final(self).index@ == old(self).index@
                &&& final(self).next_collection_id == old(self).next_collection_id + 1
                &&& final(self).clock == old(self).clock + 1
            },
    {
        if let Some(_) = self.coll_index_by_name(name) {
            return Err(Error::AlreadyExists(String::from_str("collection name is taken")));
        }
        if !self.has_capacity() {
            return Err(Error::StorageError(String::from_str("store capacity exhausted")));
        }
        let id = self.next_collection_id;
        let desc_owned = match description {
            Some(d) => Some(d.to_owned()),
            None => None,
        };
        let rec = CollectionRec {
            id,
            name: name.to_owned(),
            description: desc_owned,
            created_at: self.clock,
            updated_at: self.clock,
        };
        self.collections.push(rec);
        self.next_collection_id = id + 1;
        self.clock = self.clock + 1;
        proof {
            assert(self.collections@.take(old(self).collections@.len() as int) =~= old(
                self,
            ).collections@);
        }
        Ok(id)
    }

    /// Looks a collection up by name; `NotFound` exactly when no
    /// collection carries the name.
    pub fn get_collection(&self, name: &str) -> (r: Result<Collection, Error>)
        requires
            self.wf(),
        ensures
            r is Ok <==> spec_has_coll_named(self.collections@, name@),
            r matches Ok(c) ==> exists|i: int|
                0 <= i < self.collections@.len() && (#[trigger] self.collections@[i]).name@
                    == name@ && spec_coll_matches(c, self.collections@[i], self.documents@),
            r matches Err(e) ==> e is NotFound,
    {
        match self.coll_index_by_name(name) {
            Some(ci) => Ok(self.render_collection(ci)),
            None => Err(Error::NotFound(String::from_str("collection not found"))),
        }
    }

    /// Looks a collection up by id; `NotFound` exactly when no collection
    /// carries the id.
    pub fn get_collection_by_id(&self, id: i64) -> (r: Result<Collection, Error>)
        requires
            self.wf(),
        ensures
            r is Ok <==> spec_has_coll_id(self.collections@, id),
            r matches Ok(c) ==> exists|i: int|
                0 <= i < self.collections@.len() && (#[trigger] self.collections@[i]).id == id
                    && spec_coll_matches(c, self.collections@[i], self.documents@),
            r matches Err(e) ==> e is NotFound,
    {
        match self.coll_index_by_id(id) {
            Some(ci) => Ok(self.render_collection(ci)),
            None => Err(Error::NotFound(String::from_str("collection not found"))),
        }
    }

    /// Lists every collection, newest first.
    pub fn list_collections(&self) -> (r: Result<Vec<Collection>, Error>)
        requires
            self.wf(),
        ensures
            r is Ok,
            r matches Ok(v) ==> {
                &&& v@.len() == self.collections@.len()
                &&& forall|i: int|
                    0 <= i < v@.len() ==> spec_coll_matches(
                        #[trigger] v@[i],
                        self.collections@[self.collections@.len() - 1 - i],
                        self.documents@,
                    )
            },
    {
        let n = self.collections.len();
        let mut v: Vec<Collection> = Vec::new();
        let mut i: usize = 0;
        while i < n
            invariant
                0 <= i <= n,
                n == self.collections@.len(),
                self.wf(),
                v@.len() == i,
                forall|j: int|
                    0 <= j < i ==> spec_coll_matches(
                        #[trigger] v@[j],
                        self.collections@[n - 1 - j],
                        self.documents@,
                    ),
            decreases n - i,
        {
            let c = self.render_collection(n - 1 - i);
            v.push(c);
            i = i + 1;
        }
        Ok(v)
    }
}

/// A document row passes the optional collection filter.
pub open spec fn spec_doc_in_filter(d: DocumentRec, filt: Option<i64>) -> bool {
    match filt {
        Some(cid) => d.collection_id == cid,
        None => true,
    }
}

/// The documents selected by `listDocuments` before its window is applied:
/// newest first, optionally restricted to one collection.
pub open spec fn spec_selected_docs(docs: Seq<DocumentRec>, filt: Option<i64>) -> Seq<
    DocumentRec,
> {
    docs.reverse().filter(|d: DocumentRec| spec_doc_in_filter(d, filt))
}

/// Whether the given metadata argument is acceptable: absent, or
/// well-formed JSON text.
pub open spec fn spec_metadata_ok(metadata: Option<&str>) -> bool {
    match metadata {
        Some(m) => json_wellformed(m@),
        None => true,
    }
}

impl Database {
    /// Deletes the collection named `name`, cascading to its documents and
    /// their lexical index entries in the same step; returns whether
    /// anything was deleted.
    pub fn delete_collection(&mut self, name: &str) -> (r: Result<bool, Error>)
        requires
            old(self).wf(),
        ensures
            final(self).wf(),
            r is Ok,
            !spec_has_coll_named(old(self).collections@, name@) ==> {
                &&& r->Ok_0 == false
                &&& *final(self) == *old(self)
            },
            spec_has_coll_named(old(self).collections@, name@) ==> {
                &&& r->Ok_0 == true
                &&& exists|ci: int|
                    {
                        &&& 0 <= ci < old(self).collections@.len()
                        &&& (#[trigger] old(self).collections@[ci]).name@ == name@
                        &&& final(self).collections@ == old(self).collections@.remove(ci)
                        &&& final(self).documents@ == old(self).documents@.filter(
                            |d: DocumentRec|
                                d.collection_id != old(self).collections@[ci].id,
                        )
                    }
                &&& final(self).index@.len() == final(self).documents@.len()
                &&& final(self).clock == old(self).clock
                &&& final(self).next_collection_id == old(self).next_collection_id
                &&& final(self).next_document_id == old(self).next_document_id
            },
    {
        let cio = self.coll_index_by_name(name);
        let ci = match cio {
            Some(ci) => ci,
            None => {
                return Ok(false);
            },
        };
        let cid = self.collections[ci].id;
        let ghost orig = *self;
        self.collections.remove(ci);
        let ghost pred = |d: DocumentRec| d.collection_id != orig.collections@[ci as int].id;
        let ghost docs0 = orig.documents@;
        let mut i: usize = 0;
        let ghost mut k: int = 0;
        proof {
            assert(docs0.take(0).filter(pred) =~= Seq::<DocumentRec>::empty());
            assert(self.documents@.take(0) =~= docs0.take(0int).filter(pred));
            assert(self.documents@.skip(0) =~= docs0.skip(0));
            assert(self.index@.skip(0) =~= orig.index@.skip(0));
        }
        while i < self.documents.len()
            invariant
                orig.wf(),
                0 <= i <= self.documents@.len(),
                i <= k <= docs0.len(),
                self.collections@ == orig.collections@.remove(ci as int),
                0 <= ci < orig.collections@.len(),
                orig.collections@[ci as int].id == cid,
                self.documents@.len() == i + docs0.len() - k,
                self.index@.len() == self.documents@.len(),
                self.documents@.take(i as int) == docs0.take(k).filter(pred),
                self.documents@.skip(i as int) == docs0.skip(k),
                self.index@.take(i as int).len() == i,
                forall|t: int|
                    0 <= t < i ==> #[trigger] self.index@[t].document_id
                        == self.documents@[t].id,
                forall|t: int|
                    0 <= t < i ==> #[trigger] self.index@[t].tokens.deep_view()
                        == spec_tokenize(self.documents@[t].content@),
                self.index@.skip(i as int) == orig.index@.skip(k),
                self.next_collection_id == orig.next_collection_id,
                self.next_document_id == orig.next_document_id,
                self.clock == orig.clock,
                docs0 == orig.documents@,
                pred == (|d: DocumentRec| d.collection_id != orig.collections@[ci as int].id),
            decreases docs0.len() - k,
        {
            let ghost pre_docs = self.documents@;
            let ghost pre_index = self.index@;
            proof {
                assert(pre_docs.skip(i as int)[0] == pre_docs[i as int]);
                assert(docs0.skip(k)[0] == docs0[k]);
                assert(pre_docs[i as int] == docs0[k]);
                assert(pre_index.skip(i as int)[0] == pre_index[i as int]);
                assert(orig.index@.skip(k)[0] == orig.index@[k]);
                assert(pre_index[i as int] == orig.index@[k]);
                lemma_filter_take_step(docs0, k, pred);
            }
            if self.documents[i].collection_id == cid {
                self.documents.remove(i);
                self.index.remove(i);
                proof {
                    assert(!pred(docs0[k]));
                    assert(self.documents@ =~= pre_docs.remove(i as int));
                    assert(pre_docs =~= pre_docs.take(i as int) + docs0.skip(k));
                    assert(self.documents@ =~= pre_docs.take(i as int) + docs0.skip(
                        k,
                    ).drop_first());
                    assert(docs0.skip(k).drop_first() =~= docs0.skip(k + 1));
                    assert(self.documents@.take(i as int) =~= pre_docs.take(i as int));
                    assert(self.documents@.take(i as int) =~= docs0.take(k + 1).filter(
                        pred,
                    ));
                    assert(self.documents@.skip(i as int) =~= docs0.skip(k + 1));
                    assert(self.index@ =~= pre_index.remove(i as int));
                    assert(pre_index =~= pre_index.take(i as int) + orig.index@.skip(k));
                    assert(self.index@ =~= pre_index.take(i as int) + orig.index@.skip(
                        k,
                    ).drop_first());
                    assert(orig.index@.skip(k).drop_first() =~= orig.index@.skip(k + 1));
                    assert(self.index@.take(i as int) =~= pre_index.take(i as int));
                    assert(self.index@.skip(i as int) =~= orig.index@.skip(k + 1));
                    assert forall|t: int| 0 <= t < i implies #[trigger] self.index@[t].document_id
                        == self.documents@[t].id && self.index@[t].tokens.deep_view()
                        == spec_tokenize(self.documents@[t].content@) by {
                        assert(self.index@[t] == pre_index[t]);
                        assert(self.documents@[t] == pre_docs[t]);
                    }
                    k = k + 1;
                }
            } else {
                proof {
                    assert(pred(docs0[k]));
                    assert(self.documents@.take(i as int + 1) =~= docs0.take(k).filter(
                        pred,
                    ).push(docs0[k]));
                    assert(self.documents@.take(i as int + 1) =~= docs0.take(k + 1).filter(
                        pred,
                    ));
                    assert forall|j: int|
                        0 <= j < self.documents@.len() - i - 1 implies #[trigger] self.documents@.skip(
                        i as int + 1,
                    )[j] == docs0.skip(k + 1)[j] by {
                        assert(self.documents@.skip(i as int)[j + 1] == docs0.skip(k)[j + 1]);
                    }
                    assert(self.documents@.skip(i as int + 1) =~= docs0.skip(k + 1));
                    assert forall|j: int|
                        0 <= j < self.index@.len() - i - 1 implies #[trigger] self.index@.skip(
                        i as int + 1,
                    )[j] == orig.index@.skip(k + 1)[j] by {
                        assert(self.index@.skip(i as int)[j + 1] == orig.index@.skip(k)[j + 1]);
                    }
                    assert(self.index@.skip(i as int + 1) =~= orig.index@.skip(k + 1));
                    assert(k < docs0.len());
                    assert(self.index@ == pre_index);
                    assert(self.index@[i as int] == orig.index@[k]);
                    assert(self.documents@[i as int] == docs0[k]);
                    assert(orig.index@[k].document_id == orig.documents@[k].id
                        && orig.index@[k].tokens.deep_view() == spec_tokenize(
                        orig.documents@[k].content@,
                    ));
                    assert(self.index@[i as int].document_id == self.documents@[i as int].id);
                    assert(self.index@[i as int].tokens.deep_view() == spec_tokenize(
                        self.documents@[i as int].content@,
                    ));
                    assert forall|t: int| 0 <= t < i + 1 implies
                        #[trigger] self.index@[t].document_id == self.documents@[t].id
                        && self.index@[t].tokens.deep_view() == spec_tokenize(
                        self.documents@[t].content@,
                    ) by {
                        if t < i {
                            assert(self.index@[t] == pre_index[t]);
                            assert(self.documents@[t] == pre_docs[t]);
                        }
                    }
                    k = k + 1;
                }
                i = i + 1;
            }
        }
        proof {
            assert(k == docs0.len());
            assert(self.documents@ =~= self.documents@.take(i as int));
            assert(docs0.take(k) =~= docs0);
            assert(self.index@ =~= self.index@.take(i as int));
            lemma_wf_after_collection_removed(orig, *self, ci as int);
        }
        Ok(true)
    }
}

impl Database {
    /// Adds a document to the collection with id `collection_id`: the
    /// document row and its lexical index entry are created in the same
    /// step. Fails with `NotFound` when the collection is absent, with
    /// `InvalidInput` when the metadata text is not well-formed JSON, and
    /// with `StorageError` only when the store's id, clock or row space is
    /// exhausted.
    pub fn add_document(
        &mut self,
        collection_id: i64,
        content: &str,
        embedding: &[i64],
        metadata: Option<&str>,
    ) -> (r: Result<i64, Error>)
        requires
            old(self).wf(),
            components_bounded(embedding@, EMBEDDING_COMPONENT_LIMIT as int),
            embedding@.len() <= EMBEDDING_LENGTH_LIMIT,
        ensures
            final(self).wf(),
            r is Ok ==> spec_has_coll_id(old(self).collections@, collection_id)
                && spec_metadata_ok(metadata) && old(self).spec_has_capacity(),
            r is Err ==> *final(self) == *old(self),
            !spec_has_coll_id(old(self).collections@, collection_id) ==> {
                &&& r is Err
                &&& r->Err_0 is NotFound
                &&& *final(self) == *old(self)
            },
            spec_has_coll_id(old(self).collections@, collection_id) && !spec_metadata_ok(
                metadata,
            ) ==> {
                &&& r is Err
                &&& r->Err_0 is InvalidInput
                &&& *final(self) == *old(self)
            },
            spec_has_coll_id(old(self).collections@, collection_id) && spec_metadata_ok(
                metadata,
            ) && !old(self).spec_has_capacity() ==> {
                &&& r is Err
                &&& r->Err_0 is StorageError
                &&& *final(self) == *old(self)
            },
            spec_has_coll_id(old(self).collections@, collection_id) && spec_metadata_ok(
                metadata,
            ) && old(self).spec_has_capacity() ==> {
                &&& r is Ok
                &&& r->Ok_0 == old(self).next_document_id
                &&& final(self).documents@.len() == old(self).documents@.len() + 1
                &&& final(self).documents@.take(old(self).documents@.len() as int) == old(
                    self,
                ).documents@
                &&& final(self).documents@.last().id == old(self).next_document_id
                &&& final(self).documents@.last().collection_id == collection_id
                &&& final(self).documents@.last().content@ == content@
                &&& final(self).documents@.last().embedding@ == embedding@
                &&& match (final(self).documents@.last().metadata, metadata) {
                    (Some(a), Some(b)) => a@ == b@,
                    (None, None) => true,
                    _ => false,
                }
                &&& final(self).documents@.last().created_at == old(self).clock
                &&& final(self).documents@.last().updated_at == old(self).clock
                &&& final(self).index@.len() == old(self).index@.len() + 1
                &&& final(self).index@.take(old(self).index@.len() as int) == old(self).index@
                &&& final(self).index@.last().document_id == old(self).next_document_id
                &&& final(self).index@.last().tokens.deep_view() == spec_tokenize(content@)
                &&& final(self).collections@ == old(self).collections@
                &&& final(self).next_document_id == old(self).next_document_id + 1
                &&& final(self).next_collection_id == old(self).next_collection_id
                &&& final(self).clock == old(self).clock + 1
            },
    {
        let cio = self.coll_index_by_id(collection_id);
        if cio.is_none() {
            return Err(Error::NotFound(String::from_str("collection not found")));
        }
        if let Some(m) = metadata {
            if !json_parses(m) {
                return Err(Error::InvalidInput(String::from_str(
                    "metadata is not well-formed JSON",
                )));
            }
        }
        if !self.has_capacity() {
            return Err(Error::StorageError(String::from_str("store capacity exhausted")));
        }
        let id = self.next_document_id;
        let content_chars = chars_of(content);
        let tokens = tokenize_chars(content_chars.as_slice());
        let meta_owned = match metadata {
            Some(m) => Some(m.to_owned()),
            None => None,
        };
        let rec = DocumentRec {
            id,
            collection_id,
            content: content.to_owned(),
            embedding: vstd::slice::slice_to_vec(embedding),
            metadata: meta_owned,
            created_at: self.clock,
            updated_at: self.clock,
        };
        self.documents.push(rec);
        self.index.push(IndexEntry { document_id: id, tokens });
        self.next_document_id = id + 1;
        self.clock = self.clock + 1;
        proof {
            assert(self.documents@.take(old(self).documents@.len() as int) =~= old(
                self,
            ).documents@);
            assert(self.index@.take(old(self).index@.len() as int) =~= old(self).index@);
        }
        Ok(id)
    }

    /// Renders the stored row at `di` as a caller-visible document.
    pub(crate) fn render_document(&self, di: usize) -> (d: Document)
        requires
            self.wf(),
            di < self.documents@.len(),
        ensures
            spec_doc_matches(d, self.documents@[di as int], self.collections@),
    {
        let rec = &self.documents[di];
        proof {
            assert(1 <= self.documents@[di as int].id);
            assert(spec_has_coll_id(self.collections@, self.documents@[di as int].collection_id));
        }
        let cio = self.coll_index_by_id(rec.collection_id);
        let ci = match cio {
            Some(ci) => ci,
            None => vstd::pervasive::unreached(),
        };
        proof {
            let k = spec_coll_idx_by_id(self.collections@, rec.collection_id);
            assert(spec_has_coll_id(self.collections@, rec.collection_id));
            assert(0 <= k < self.collections@.len() && self.collections@[k].id
                == rec.collection_id);
            if k != ci as int {
                assert(self.collections@[k].id != self.collections@[ci as int].id);
            }
        }
        let name = self.collections[ci].name.clone();
        let meta = match &rec.metadata {
            Some(m) => Some(m.clone()),
            None => None,
        };
        Document::new(
            rec.id,
            rec.collection_id,
            name,
            rec.content.clone(),
            meta,
            rec.created_at,
            rec.updated_at,
        )
    }

    /// Looks a document up by id; `NotFound` exactly when no document
    /// carries the id.
    pub fn get_document(&self, document_id: i64) -> (r: Result<Document, Error>)
        requires
            self.wf(),
        ensures
            r is Ok <==> spec_has_doc_id(self.documents@, document_id),
            r matches Ok(d) ==> exists|i: int|
                0 <= i < self.documents@.len() && (#[trigger] self.documents@[i]).id
                    == document_id && spec_doc_matches(d, self.documents@[i], self.collections@),
            r matches Err(e) ==> e is NotFound,
    {
        match self.doc_index_by_id(document_id) {
            Some(di) => Ok(self.render_document(di)),
            None => Err(Error::NotFound(String::from_str("document not found"))),
        }
    }

    /// Lists documents newest first, optionally restricted to one
    /// collection, windowed by `offset` and `limit`.
    pub fn list_documents(&self, collection_id: Option<i64>, limit: i64, offset: i64) -> (r:
        Result<Vec<Document>, Error>)
        requires
            self.wf(),
            0 <= limit,
            0 <= offset,
        ensures
            r is Ok,
            r matches Ok(v) ==> {
                let sel = spec_selected_docs(self.documents@, collection_id);
                &&& v@.len() == if offset >= sel.len() {
                    0int
                } else if offset + limit <= sel.len() {
                    limit as int
                } else {
                    sel.len() - offset
                }
                &&& forall|i: int|
                    0 <= i < v@.len() ==> spec_doc_matches(
                        #[trigger] v@[i],
                        sel[offset + i],
                        self.collections@,
                    )
            },
    {
        broadcast use vstd::seq_lib::group_filter_ensures;

        let ghost pred = |d: DocumentRec| spec_doc_in_filter(d, collection_id);
        let ghost rdocs = self.documents@.reverse();
        let lim: usize = if limit >= STORE_CAPACITY as i64 {
            STORE_CAPACITY
        } else {
            limit as usize
        };
        let off: usize = if offset >= STORE_CAPACITY as i64 {
            STORE_CAPACITY
        } else {
            offset as usize
        };
        let n = self.documents.len();
        let mut v: Vec<Document> = Vec::new();
        let mut m: usize = 0;
        let mut t: usize = 0;
        proof {
            assert(rdocs.take(0).filter(pred) =~= Seq::<DocumentRec>::empty());
        }
        while t < n
            invariant
                self.wf(),
                0 <= t <= n,
                n == self.documents@.len(),
                rdocs == self.documents@.reverse(),
                pred == (|d: DocumentRec| spec_doc_in_filter(d, collection_id)),
                m == rdocs.take(t as int).filter(pred).len(),
                m <= t,
                lim <= STORE_CAPACITY,
                lim == if limit >= STORE_CAPACITY as int {
                    STORE_CAPACITY as int
                } else {
                    limit as int
                },
                off == if offset >= STORE_CAPACITY as int {
                    STORE_CAPACITY as int
                } else {
                    offset as int
                },
                v@.len() == if off >= m {
                    0int
                } else if off + lim <= m {
                    lim as int
                } else {
                    m - off
                },
                forall|i: int|
                    0 <= i < v@.len() ==> spec_doc_matches(
                        #[trigger] v@[i],
                        rdocs.take(t as int).filter(pred)[off + i],
                        self.collections@,
                    ),
            decreases n - t,
        {
            let j = n - 1 - t;
            proof {
                assert(rdocs[t as int] == self.documents@[j as int]);
                lemma_filter_take_step(rdocs, t as int, pred);
            }
            let ghost pre_stream = rdocs.take(t as int).filter(pred);
            let keep = match collection_id {
                Some(cid) => self.documents[j].collection_id == cid,
                None => true,
            };
            if keep {
                proof {
                    assert(pred(rdocs[t as int]));
                    assert(rdocs.take(t as int + 1).filter(pred) == pre_stream.push(
                        rdocs[t as int],
                    ));
                }
                if m >= off && v.len() < lim {
                    let d = self.render_document(j);
                    proof {
                        assert(off + v@.len() == m);
                        assert(pre_stream.push(rdocs[t as int])[off + v@.len() as int]
                            == rdocs[t as int]);
                    }
                    v.push(d);
                }
                m = m + 1;
            } else {
                proof {
                    assert(!pred(rdocs[t as int]));
                }
            }
            proof {
                let s_new = rdocs.take(t as int + 1).filter(pred);
                assert forall|i: int|
                    0 <= i < v@.len() implies spec_doc_matches(
                    #[trigger] v@[i],
                    s_new[off + i],
                    self.collections@,
                ) by {
                    if pred(rdocs[t as int]) {
                        assert(s_new == pre_stream.push(rdocs[t as int]));
                        if off + i < pre_stream.len() {
                            assert(s_new[off + i] == pre_stream[off + i]);
                        } else {
                            assert(s_new[off + i] == rdocs[t as int]);
                        }
                    } else {
                        assert(s_new == pre_stream);
                    }
                }
            }
            t = t + 1;
        }
        proof {
            assert(rdocs.take(n as int) =~= rdocs);
            if offset < STORE_CAPACITY as int && limit < STORE_CAPACITY as int {
                assert(off == offset && lim == limit);
            } else {
                assert(m <= n <= STORE_CAPACITY);
            }
        }
        Ok(v)
    }

    /// Removes the document with id `document_id` and its lexical index
    /// entry in the same step; returns whether anything was deleted.
    pub fn delete_document(&mut self, document_id: i64) -> (r: Result<bool, Error>)
        requires
            old(self).wf(),
        ensures
            final(self).wf(),
            r is Ok,
            !spec_has_doc_id(old(self).documents@, document_id) ==> {
                &&& r->Ok_0 == false
                &&& *final(self) == *old(self)
            },
            spec_has_doc_id(old(self).documents@, document_id) ==> {
                &&& r->Ok_0 == true
                &&& exists|di: int|
                    {
                        &&& 0 <= di < old(self).documents@.len()
                        &&& (#[trigger] old(self).documents@[di]).id == document_id
                        &&& final(self).documents@ == old(self).documents@.remove(di)
                        &&& final(self).index@ == old(self).index@.remove(di)
                    }
                &&& final(self).collections@ == old(self).collections@
                &&& final(self).clock == old(self).clock
                &&& final(self).next_collection_id == old(self).next_collection_id
                &&& final(self).next_document_id == old(self).next_document_id
            },
    {
        let dio = self.doc_index_by_id(document_id);
        let di = match dio {
            Some(di) => di,
            None => {
                return Ok(false);
            },
        };
        self.documents.remove(di);
        self.index.remove(di);
        proof {
            lemma_wf_after_doc_removed(*old(self), *self, di as int);
        }
        Ok(true)
    }

    /// Updates the supplied fields of the document with id `document_id`,
    /// keeping the lexical index entry in step with the content; a call
    /// with nothing supplied is the defined no-op and returns `false`, as
    /// does a call naming an absent document.
    pub fn update_document(
        &mut self,
        document_id: i64,
        content: Option<&str>,
        embedding: Option<&[i64]>,
        metadata: Option<&str>,
    ) -> (r: Result<bool, Error>)
        requires
            old(self).wf(),
            match embedding {
                Some(e) => components_bounded(e@, EMBEDDING_COMPONENT_LIMIT as int)
                    && e@.len() <= EMBEDDING_LENGTH_LIMIT,
                None => true,
            },
        ensures
            final(self).wf(),
            content is None && embedding is None && metadata is None ==> {
                &&& r is Ok
                &&& r->Ok_0 == false
                &&& *final(self) == *old(self)
            },
            !(content is None && embedding is None && metadata is None)
                && !spec_has_doc_id(old(self).documents@, document_id) ==> {
                &&& r is Ok
                &&& r->Ok_0 == false
                &&& *final(self) == *old(self)
            },
            !(content is None && embedding is None && metadata is None) && spec_has_doc_id(
                old(self).documents@,
                document_id,
            ) && !spec_metadata_ok(metadata) ==> {
                &&& r is Err
                &&& r->Err_0 is InvalidInput
                &&& *final(self) == *old(self)
            },
            !(content is None && embedding is None && metadata is None) && spec_has_doc_id(
                old(self).documents@,
                document_id,
            ) && spec_metadata_ok(metadata) && !old(self).spec_has_capacity() ==> {
                &&& r is Err
                &&& r->Err_0 is StorageError
                &&& *final(self) == *old(self)
            },
            !(content is None && embedding is None && metadata is None) && spec_has_doc_id(
                old(self).documents@,
                document_id,
            ) && spec_metadata_ok(metadata) && old(self).spec_has_capacity() ==> {
                let di = spec_doc_idx_by_id(old(self).documents@, document_id);
                &&& r is Ok
                &&& r->Ok_0 == true
                &&& final(self).documents@.len() == old(self).documents@.len()
                &&& forall|i: int|
                    0 <= i < old(self).documents@.len() && i != di
                        ==> #[trigger] final(self).documents@[i] == old(self).documents@[i]
                &&& final(self).documents@[di].id == document_id
                &&& final(self).documents@[di].collection_id == old(
                    self,
                ).documents@[di].collection_id
                &&& final(self).documents@[di].created_at == old(
                    self,
                ).documents@[di].created_at
                &&& final(self).documents@[di].updated_at == old(self).clock
                &&& final(self).documents@[di].content@ == match content {
                    Some(c) => c@,
                    None => old(self).documents@[di].content@,
                }
                &&& final(self).documents@[di].embedding@ == match embedding {
                    Some(e) => e@,
                    None => old(self).documents@[di].embedding@,
                }
                &&& match metadata {
                    Some(m) => {
                        &&& final(self).documents@[di].metadata is Some
                        &&& final(self).documents@[di].metadata->0@ == m@
                    },
                    None => match (final(self).documents@[di].metadata, old(
                        self,
                    ).documents@[di].metadata) {
                        (Some(a), Some(b)) => a@ == b@,
                        (None, None) => true,
                        _ => false,
                    },
                }
                &&& forall|i: int|
                    0 <= i < old(self).index@.len() && i != di ==> #[trigger] final(self).index@[i]
                        == old(self).index@[i]
                &&& final(self).index@.len() == old(self).index@.len()
                &&& final(self).collections@ == old(self).collections@
                &&& final(self).clock == old(self).clock + 1
                &&& final(self).next_collection_id == old(self).next_collection_id
                &&& final(self).next_document_id == old(self).next_document_id
            },
    {
        if content.is_none() && embedding.is_none() && metadata.is_none() {
            return Ok(false);
        }
        let dio = self.doc_index_by_id(document_id);
        let di = match dio {
            Some(di) => di,
            None => {
                return Ok(false);
            },
        };
        if let Some(m) = metadata {
            if !json_parses(m) {
                return Err(Error::InvalidInput(String::from_str(
                    "metadata is not well-formed JSON",
                )));
            }
        }
        if !self.has_capacity() {
            return Err(Error::StorageError(String::from_str("store capacity exhausted")));
        }
        proof {
            let k = spec_doc_idx_by_id(self.documents@, document_id);
            assert(spec_has_doc_id(self.documents@, document_id));
            assert(0 <= k < self.documents@.len() && self.documents@[k].id == document_id);
            if k != di as int {
                assert(self.documents@[k].id != self.documents@[di as int].id);
            }
        }
        let mut rec = self.documents.remove(di);
        let mut entry = self.index.remove(di);
        if let Some(c) = content {
            rec.content = c.to_owned();
            let content_chars = chars_of(c);
            entry.tokens = tokenize_chars(content_chars.as_slice());
        }
        if let Some(e) = embedding {
            rec.embedding = vstd::slice::slice_to_vec(e);
        }
        if let Some(m) = metadata {
            rec.metadata = Some(m.to_owned());
        }
        rec.updated_at = self.clock;
        self.documents.insert(di, rec);
        self.index.insert(di, entry);
        self.clock = self.clock + 1;
        proof {
            assert(self.documents@ =~= old(self).documents@.update(
                di as int,
                self.documents@[di as int],
            ));
            assert(self.index@ =~= old(self).index@.update(di as int, self.index@[di as int]));
            assert forall|i: int| 0 <= i < old(self).documents@.len() && i != di as int
                implies #[trigger] self.documents@[i] == old(self).documents@[i] by {}
        }
        Ok(true)
    }
}

/// Removing one document together with its index entry preserves the store
/// invariant.
proof fn lemma_wf_after_doc_removed(orig: Database, cur: Database, di: int)
    requires
        orig.wf(),
        0 <= di < orig.documents@.len(),
        cur.documents@ == orig.documents@.remove(di),
        cur.index@ == orig.index@.remove(di),
        cur.collections@ == orig.collections@,
        cur.next_collection_id == orig.next_collection_id,
        cur.next_document_id == orig.next_document_id,
        cur.clock == orig.clock,
    ensures
        cur.wf(),
{
    assert forall|i: int| 0 <= i < cur.documents@.len() implies {
        &&& 1 <= (#[trigger] cur.documents@[i]).id < cur.next_document_id
        &&& spec_has_coll_id(cur.collections@, cur.documents@[i].collection_id)
        &&& cur.documents@[i].created_at < cur.clock
        &&& cur.documents@[i].updated_at < cur.clock
        &&& components_bounded(cur.documents@[i].embedding@, EMBEDDING_COMPONENT_LIMIT as int)
        &&& cur.documents@[i].embedding@.len() <= EMBEDDING_LENGTH_LIMIT
    } by {
        if i < di {
            assert(cur.documents@[i] == orig.documents@[i]);
        } else {
            assert(cur.documents@[i] == orig.documents@[i + 1]);
        }
    }
    assert forall|i: int, j: int|
        #![trigger cur.documents@[i], cur.documents@[j]]
        0 <= i < j < cur.documents@.len() implies cur.documents@[i].id < cur.documents@[j].id
        && cur.documents@[i].created_at < cur.documents@[j].created_at by {
        let oi = if i < di { i } else { i + 1 };
        let oj = if j < di { j } else { j + 1 };
        assert(cur.documents@[i] == orig.documents@[oi]);
        assert(cur.documents@[j] == orig.documents@[oj]);
    }
    assert forall|i: int| 0 <= i < cur.index@.len() implies {
        &&& (#[trigger] cur.index@[i]).document_id == cur.documents@[i].id
        &&& cur.index@[i].tokens.deep_view() == spec_tokenize(cur.documents@[i].content@)
    } by {
        if i < di {
            assert(cur.index@[i] == orig.index@[i]);
            assert(cur.documents@[i] == orig.documents@[i]);
        } else {
            assert(cur.index@[i] == orig.index@[i + 1]);
            assert(cur.documents@[i] == orig.documents@[i + 1]);
        }
    }
}

/// Removing a collection and exactly its documents (with their index
/// entries) preserves the store invariant.
proof fn lemma_wf_after_collection_removed(orig: Database, cur: Database, ci: int)
    requires
        orig.wf(),
        0 <= ci < orig.collections@.len(),
        cur.collections@ == orig.collections@.remove(ci),
        cur.documents@ == orig.documents@.filter(
            |d: DocumentRec| d.collection_id != orig.collections@[ci].id,
        ),
        cur.index@.len() == cur.documents@.len(),
        forall|t: int|
            0 <= t < cur.index@.len() ==> #[trigger] cur.index@[t].document_id
                == cur.documents@[t].id && cur.index@[t].tokens.deep_view() == spec_tokenize(
                cur.documents@[t].content@,
            ),
        cur.next_collection_id == orig.next_collection_id,
        cur.next_document_id == orig.next_document_id,
        cur.clock == orig.clock,
    ensures
        cur.wf(),
{
    broadcast use vstd::seq_lib::group_filter_ensures;

    let pred = |d: DocumentRec| d.collection_id != orig.collections@[ci].id;
    let docs = cur.documents@;
    lemma_filter_is_subsequence(orig.documents@, pred);
    let emb = choose|emb: Seq<int>| is_subsequence_embedding(orig.documents@, pred, emb);
    assert(is_subsequence_embedding(orig.documents@, pred, emb));
    assert forall|i: int| 0 <= i < docs.len() implies {
        &&& 1 <= (#[trigger] docs[i]).id < cur.next_document_id
        &&& spec_has_coll_id(cur.collections@, docs[i].collection_id)
        &&& docs[i].created_at < cur.clock
        &&& docs[i].updated_at < cur.clock
        &&& components_bounded(docs[i].embedding@, EMBEDDING_COMPONENT_LIMIT as int)
        &&& docs[i].embedding@.len() <= EMBEDDING_LENGTH_LIMIT
    } by {
        assert(docs[i] == orig.documents@[emb[i]]);
        assert(pred(docs[i]));
        let cj = choose|cj: int|
            0 <= cj < orig.collections@.len() && (#[trigger] orig.collections@[cj]).id
                == docs[i].collection_id;
        assert(cj != ci);
        if cj < ci {
            assert(cur.collections@[cj].id == docs[i].collection_id);
        } else {
            assert(cur.collections@[cj - 1].id == docs[i].collection_id);
        }
    }
    assert forall|i: int, j: int|
        #![trigger docs[i], docs[j]]
        0 <= i < j < docs.len() implies docs[i].id < docs[j].id && docs[i].created_at
        < docs[j].created_at by {
        assert(docs[i] == orig.documents@[emb[i]]);
        assert(docs[j] == orig.documents@[emb[j]]);
    }
}

/// A filtered sequence embeds into its source: each kept element comes from
/// a strictly increasing list of source positions.
pub open spec fn is_subsequence_embedding<A>(
    s: Seq<A>,
    pred: spec_fn(A) -> bool,
    emb: Seq<int>,
) -> bool {
    &&& emb.len() == s.filter(pred).len()
    &&& forall|i: int|
        0 <= i < emb.len() ==> 0 <= #[trigger] emb[i] < s.len() && s.filter(pred)[i] == s[emb[i]]
    &&& forall|i: int, j: int| 0 <= i < j < emb.len() ==> #[trigger] emb[i] < #[trigger] emb[j]
}

/// Every filtered sequence has such an embedding.
pub proof fn lemma_filter_is_subsequence<A>(s: Seq<A>, pred: spec_fn(A) -> bool)
    ensures
        exists|emb: Seq<int>| is_subsequence_embedding(s, pred, emb),
    decreases s.len(),
{
    reveal(Seq::filter);
    if s.len() == 0 {
        let emb = Seq::<int>::empty();
        assert(is_subsequence_embedding(s, pred, emb));
    } else {
        lemma_filter_is_subsequence(s.drop_last(), pred);
        let emb0 = choose|emb: Seq<int>| is_subsequence_embedding(s.drop_last(), pred, emb);
        assert(is_subsequence_embedding(s.drop_last(), pred, emb0));
        assert(forall|i: int|
            0 <= i < emb0.len() ==> s.drop_last()[#[trigger] emb0[i]] == s[emb0[i]]);
        if pred(s.last()) {
            let emb = emb0.push(s.len() - 1);
            assert(s.filter(pred) == s.drop_last().filter(pred).push(s.last()));
            assert forall|i: int|
                0 <= i < emb.len() implies 0 <= #[trigger] emb[i] < s.len() && s.filter(pred)[i]
                == s[emb[i]] by {
                if i < emb.len() - 1 {
                    assert(emb[i] == emb0[i]);
                    assert(s.filter(pred)[i] == s.drop_last().filter(pred)[i]);
                }
            }
            assert(is_subsequence_embedding(s, pred, emb));
        } else {
            assert(s.filter(pred) == s.drop_last().filter(pred));
            assert(is_subsequence_embedding(s, pred, emb0));
        }
    }
}

/// One step of building a filtered prefix: filtering `s.take(i + 1)` adds
/// `s[i]` to the filtered `s.take(i)` exactly when the predicate holds.
pub proof fn lemma_filter_take_step<A>(s: Seq<A>, i: int, pred: spec_fn(A) -> bool)
    requires
        0 <= i < s.len(),
    ensures
        s.take(i + 1).filter(pred) == if pred(s[i]) {
            s.take(i).filter(pred).push(s[i])
        } else {
            s.take(i).filter(pred)
        },
{
    reveal(Seq::filter);
    assert(s.take(i + 1).drop_last() =~= s.take(i));
    assert(s.take(i + 1).last() == s[i]);
}

} // verus!
