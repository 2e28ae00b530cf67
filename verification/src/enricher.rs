//! The retrieval engine: one store behind the three search strategies and
//! the context-building step.
//!
//! The engine works on pre-embedded queries: the embedding provider that
//! turns text into vectors is an external collaborator, so every search
//! that needs the query's embedding takes it as an argument, quantized to
//! the fixed-point integer scale.

use vstd::prelude::*;
use vstd::string::StringExecFns;
use crate::error::Error;
use crate::store::{
    Database, Collection, Document, DocumentRec, spec_has_coll_named, spec_has_coll_id,
    spec_has_doc_id, spec_doc_idx_by_id, spec_coll_matches, spec_coll_name_of,
    spec_selected_docs, spec_metadata_ok, lemma_filter_take_step, is_subsequence_embedding,
    lemma_filter_is_subsequence,
};
use crate::query::{spec_filter_view, spec_cid_in_filter};
use crate::search::{SearchResult, spec_results_sorted, sort_results_desc};
use crate::similarity::{
    spec_cosine, cosine_similarity, components_bounded, EMBEDDING_COMPONENT_LIMIT,
    EMBEDDING_LENGTH_LIMIT,
};

verus! {

/// The retrieval engine: the document store together with the scorers.
pub struct RAGEnricher {
    pub db: Database,
}

/// The documents a semantic search considers and keeps: inside the filter,
/// with cosine similarity at or above the threshold.
pub open spec fn spec_sem_qualifying(
    db: Database,
    qe: Seq<i64>,
    fv: Option<Seq<i64>>,
    threshold: int,
) -> Seq<DocumentRec> {
    db.documents@.filter(|d: DocumentRec| spec_cid_in_filter(d.collection_id, fv)).filter(
        |d: DocumentRec| spec_cosine(qe, d.embedding@) >= threshold,
    )
}

/// Result `r` renders document `d` scored `score`.
pub open spec fn spec_result_renders(
    r: SearchResult,
    d: DocumentRec,
    score: int,
    colls: Seq<crate::store::CollectionRec>,
) -> bool {
    &&& r.document_id == d.id
    &&& r.content@ == d.content@
    &&& r.score == score
    &&& match (r.metadata, d.metadata) {
        (Some(a), Some(b)) => a@ == b@,
        (None, None) => true,
        _ => false,
    }
    &&& r.collection_name@ == spec_coll_name_of(colls, d.collection_id)
}

/// What a semantic search promises of its results `v`: sorted, nothing
/// below the threshold, every result a distinct qualifying document with
/// its exact cosine score, and as many results as the candidates allow
/// within `top_k`.
#[verifier::opaque]
pub open spec fn spec_semantic_results_ok(
    db: Database,
    qe: Seq<i64>,
    fv: Option<Seq<i64>>,
    top_k: int,
    threshold: int,
    v: Seq<SearchResult>,
) -> bool {
    let sel = spec_sem_qualifying(db, qe, fv, threshold);
    &&& spec_results_sorted(v)
    &&& forall|k: int| 0 <= k < v.len() ==> threshold <= (#[trigger] v[k]).score <= 1000
    &&& v.len() == if sel.len() <= top_k {
        sel.len() as int
    } else {
        top_k
    }
    &&& forall|k: int|
        0 <= k < v.len() ==> {
            let d = db.documents@[spec_doc_idx_by_id(db.documents@, (#[trigger] v[k]).document_id)];
            &&& spec_has_doc_id(db.documents@, v[k].document_id)
            &&& spec_cid_in_filter(d.collection_id, fv)
            &&& spec_result_renders(v[k], d, spec_cosine(qe, d.embedding@), db.collections@)
        }
    &&& forall|k1: int, k2: int|
        0 <= k1 < k2 < v.len() ==> (#[trigger] v[k1]).document_id
            != (#[trigger] v[k2]).document_id
    &&& crate::search::spec_ties_in_candidate_order(v)
    &&& forall|i: int|
        0 <= i < sel.len() && !spec_in_results(v, (#[trigger] sel[i]).id) ==> {
            &&& v.len() == top_k
            &&& v.len() > 0 ==> spec_cosine(qe, sel[i].embedding@) <= v[v.len() - 1].score
        }
}

/// A filtered subsequence of documents with strictly increasing ids keeps
/// its ids strictly increasing.
proof fn lemma_filter_ids_increasing(s: Seq<DocumentRec>, pred: spec_fn(DocumentRec) -> bool)
    requires
        forall|i: int, j: int|
            #![trigger s[i], s[j]]
            0 <= i < j < s.len() ==> s[i].id < s[j].id,
    ensures
        forall|i: int, j: int|
            #![trigger s.filter(pred)[i], s.filter(pred)[j]]
            0 <= i < j < s.filter(pred).len() ==> s.filter(pred)[i].id < s.filter(pred)[j].id,
{
    lemma_filter_is_subsequence(s, pred);
    let emb = choose|emb: Seq<int>| is_subsequence_embedding(s, pred, emb);
    assert(is_subsequence_embedding(s, pred, emb));
    assert forall|i: int, j: int|
        0 <= i < j < s.filter(pred).len() implies (#[trigger] s.filter(pred)[i]).id
        < (#[trigger] s.filter(pred)[j]).id by {
        assert(s.filter(pred)[i] == s[emb[i]]);
        assert(s.filter(pred)[j] == s[emb[j]]);
    }
}


impl RAGEnricher {
    /// A fresh engine over an empty store.
    pub fn new() -> (r: RAGEnricher)
        ensures
            r.db.wf(),
            r.db.collections@.len() == 0,
            r.db.documents@.len() == 0,
    {
        RAGEnricher { db: Database::new() }
    }

    /// Creates a collection; see [`Database::create_collection`].
    pub fn create_collection(&mut self, name: &str, description: Option<&str>) -> (r: Result<
        i64,
        Error,
    >)
        requires
            old(self).db.wf(),
        ensures
            final(self).db.wf(),
            spec_has_coll_named(old(self).db.collections@, name@) ==> r is Err && r->Err_0
                is AlreadyExists,
            r is Err ==> *final(self) == *old(self),
            !spec_has_coll_named(old(self).db.collections@, name@) && old(
                self,
            ).db.spec_has_capacity() ==> {
                &&& r is Ok
                &&& r->Ok_0 == old(self).db.next_collection_id
                &&& final(self).db.collections@.len() == old(self).db.collections@.len() + 1
                &&& final(self).db.collections@.take(old(self).db.collections@.len() as int)
                    == old(self).db.collections@
                &&& final(self).db.collections@.last().id == old(self).db.next_collection_id
                &&& final(self).db.collections@.last().name@ == name@
                &&& match (final(self).db.collections@.last().description, description) {
                    (Some(a), Some(b)) => a@ == b@,
                    (None, None) => true,
                    _ => false,
                }
                &&& final(self).db.collections@.last().created_at == old(self).db.clock
                &&& final(self).db.collections@.last().updated_at == old(self).db.clock
                &&& final(self).db.documents@ == old(self).db.documents@
                &&& final(self).db.index@ == old(self).db.index@
            },
    {
        self.db.create_collection(name, description)
    }

    /// Looks a collection up by name; see [`Database::get_collection`].
    pub fn get_collection(&self, name: &str) -> (r: Result<Collection, Error>)
        requires
            self.db.wf(),
        ensures
            r is Ok <==> spec_has_coll_named(self.db.collections@, name@),
            r matches Ok(c) ==> exists|i: int|
                0 <= i < self.db.collections@.len() && (#[trigger] self.db.collections@[i]).name@
                    == name@ && spec_coll_matches(c, self.db.collections@[i], self.db.documents@),
            r matches Err(e) ==> e is NotFound,
    {
        self.db.get_collection(name)
    }

    /// Lists every collection, newest first; see
    /// [`Database::list_collections`].
    pub fn list_collections(&self) -> (r: Result<Vec<Collection>, Error>)
        requires
            self.db.wf(),
        ensures
            r is Ok,
            r matches Ok(v) ==> {
                &&& v@.len() == self.db.collections@.len()
                &&& forall|i: int|
                    0 <= i < v@.len() ==> spec_coll_matches(
                        #[trigger] v@[i],
                        self.db.collections@[self.db.collections@.len() - 1 - i],
                        self.db.documents@,
                    )
            },
    {
        self.db.list_collections()
    }

    /// Deletes a collection with its documents and index entries; see
    /// [`Database::delete_collection`].
    pub fn delete_collection(&mut self, name: &str) -> (r: Result<bool, Error>)
        requires
            old(self).db.wf(),
        ensures
            final(self).db.wf(),
            r is Ok,
            r matches Ok(b) ==> b == spec_has_coll_named(old(self).db.collections@, name@),
            spec_has_coll_named(old(self).db.collections@, name@) ==> exists|ci: int|
                {
                    &&& 0 <= ci < old(self).db.collections@.len()
                    &&& (#[trigger] old(self).db.collections@[ci]).name@ == name@
                    &&& final(self).db.collections@ == old(self).db.collections@.remove(ci)
                    &&& final(self).db.documents@ == old(self).db.documents@.filter(
                        |d: DocumentRec|
                            d.collection_id != old(self).db.collections@[ci].id,
                    )
                },
    {
        self.db.delete_collection(name)
    }

    /// Looks a document up by id; see [`Database::get_document`].
    pub fn get_document(&self, document_id: i64) -> (r: Result<Document, Error>)
        requires
            self.db.wf(),
        ensures
            r is Ok <==> spec_has_doc_id(self.db.documents@, document_id),
            r matches Ok(d) ==> exists|i: int|
                0 <= i < self.db.documents@.len() && (#[trigger] self.db.documents@[i]).id
                    == document_id && crate::store::spec_doc_matches(
                    d,
                    self.db.documents@[i],
                    self.db.collections@,
                ),
            r matches Err(e) ==> e is NotFound,
    {
        self.db.get_document(document_id)
    }

    /// Deletes a document with its index entry; see
    /// [`Database::delete_document`].
    pub fn delete_document(&mut self, document_id: i64) -> (r: Result<bool, Error>)
        requires
            old(self).db.wf(),
        ensures
            final(self).db.wf(),
            r is Ok,
            r matches Ok(b) ==> b == spec_has_doc_id(old(self).db.documents@, document_id),
            final(self).db.collections@ == old(self).db.collections@,
            !spec_has_doc_id(old(self).db.documents@, document_id) ==> *final(self) == *old(
                self,
            ),
            spec_has_doc_id(old(self).db.documents@, document_id) ==> exists|di: int|
                {
                    &&& 0 <= di < old(self).db.documents@.len()
                    &&& (#[trigger] old(self).db.documents@[di]).id == document_id
                    &&& final(self).db.documents@ == old(self).db.documents@.remove(di)
                    &&& final(self).db.index@ == old(self).db.index@.remove(di)
                },
    {
        self.db.delete_document(document_id)
    }

    /// Adds a document to the named collection; the embedding arrives
    /// already computed and quantized.
    pub fn add_document(
        &mut self,
        content: &str,
        collection: &str,
        embedding: &[i64],
        metadata: Option<&str>,
    ) -> (r: Result<i64, Error>)
        requires
            old(self).db.wf(),
            components_bounded(embedding@, EMBEDDING_COMPONENT_LIMIT as int),
            embedding@.len() <= EMBEDDING_LENGTH_LIMIT,
        ensures
            final(self).db.wf(),
            r is Ok ==> spec_has_coll_named(old(self).db.collections@, collection@)
                && spec_metadata_ok(metadata) && old(self).db.spec_has_capacity(),
            r is Err ==> *final(self) == *old(self),
            !spec_has_coll_named(old(self).db.collections@, collection@) ==> {
                &&& r is Err
                &&& r->Err_0 is NotFound
                &&& *final(self) == *old(self)
            },
            spec_has_coll_named(old(self).db.collections@, collection@) && !spec_metadata_ok(
                metadata,
            ) ==> {
                &&& r is Err
                &&& r->Err_0 is InvalidInput
                &&& *final(self) == *old(self)
            },
            spec_has_coll_named(old(self).db.collections@, collection@) && spec_metadata_ok(
                metadata,
            ) && old(self).db.spec_has_capacity() ==> {
                &&& r is Ok
                &&& r->Ok_0 == old(self).db.next_document_id
                &&& final(self).db.documents@.len() == old(self).db.documents@.len() + 1
                &&& final(self).db.documents@.take(old(self).db.documents@.len() as int)
                    == old(self).db.documents@
                &&& final(self).db.documents@.last().id == old(self).db.next_document_id
                &&& final(self).db.documents@.last().content@ == content@
                &&& final(self).db.documents@.last().embedding@ == embedding@
                &&& match (final(self).db.documents@.last().metadata, metadata) {
                    (Some(a), Some(b)) => a@ == b@,
                    (None, None) => true,
                    _ => false,
                }
                &&& spec_coll_name_of(
                    final(self).db.collections@,
                    final(self).db.documents@.last().collection_id,
                ) == collection@
                &&& final(self).db.collections@ == old(self).db.collections@
                &&& final(self).db.next_document_id == old(self).db.next_document_id + 1
                &&& final(self).db.next_collection_id == old(self).db.next_collection_id
                &&& final(self).db.clock == old(self).db.clock + 1
            },
    {
        let ci = match self.db.coll_index_by_name(collection) {
            Some(ci) => ci,
            None => {
                return Err(Error::NotFound(String::from_str("collection not found")));
            },
        };
        let cid = self.db.collections[ci].id;
        let r = self.db.add_document(cid, content, embedding, metadata);
        proof {
            assert(spec_has_coll_id(old(self).db.collections@, cid)) by {
                assert(old(self).db.collections@[ci as int].id == cid);
            }
            if r is Ok {
                let k = crate::store::spec_coll_idx_by_id(self.db.collections@, cid);
                assert(0 <= k < self.db.collections@.len() && self.db.collections@[k].id == cid);
                if k != ci as int {
                    assert(self.db.collections@[k].id != self.db.collections@[ci as int].id);
                }
            }
        }
        r
    }

    /// Updates the supplied fields of a document; see
    /// [`Database::update_document`]. A changed content arrives with its
    /// freshly computed embedding.
    pub fn update_document(
        &mut self,
        document_id: i64,
        content: Option<&str>,
        embedding: Option<&[i64]>,
        metadata: Option<&str>,
    ) -> (r: Result<bool, Error>)
        requires
            old(self).db.wf(),
            match embedding {
                Some(e) => components_bounded(e@, EMBEDDING_COMPONENT_LIMIT as int)
                    && e@.len() <= EMBEDDING_LENGTH_LIMIT,
                None => true,
            },
        ensures
            final(self).db.wf(),
            content is None && embedding is None && metadata is None ==> {
                &&& r is Ok
                &&& r->Ok_0 == false
                &&& *final(self) == *old(self)
            },
            !(content is None && embedding is None && metadata is None)
                && !spec_has_doc_id(old(self).db.documents@, document_id) ==> {
                &&& r is Ok
                &&& r->Ok_0 == false
                &&& *final(self) == *old(self)
            },
            !(content is None && embedding is None && metadata is None) && spec_has_doc_id(
                old(self).db.documents@,
                document_id,
            ) && !spec_metadata_ok(metadata) ==> {
                &&& r is Err
                &&& r->Err_0 is InvalidInput
                &&& *final(self) == *old(self)
            },
            !(content is None && embedding is None && metadata is None) && spec_has_doc_id(
                old(self).db.documents@,
                document_id,
            ) && spec_metadata_ok(metadata) && !old(self).db.spec_has_capacity() ==> {
                &&& r is Err
                &&& r->Err_0 is StorageError
                &&& *final(self) == *old(self)
            },
            !(content is None && embedding is None && metadata is None) && spec_has_doc_id(
                old(self).db.documents@,
                document_id,
            ) && spec_metadata_ok(metadata) && old(self).db.spec_has_capacity() ==> {
                let di = spec_doc_idx_by_id(old(self).db.documents@, document_id);
                &&& r is Ok
                &&& r->Ok_0 == true
                &&& final(self).db.documents@.len() == old(self).db.documents@.len()
                &&& forall|i: int|
                    0 <= i < old(self).db.documents@.len() && i != di
                        ==> #[trigger] final(self).db.documents@[i] == old(
                        self,
                    ).db.documents@[i]
                &&& final(self).db.documents@[di].id == document_id
                &&& final(self).db.documents@[di].collection_id == old(
                    self,
                ).db.documents@[di].collection_id
                &&& final(self).db.documents@[di].created_at == old(
                    self,
                ).db.documents@[di].created_at
                &&& final(self).db.documents@[di].updated_at == old(self).db.clock
                &&& final(self).db.documents@[di].content@ == match content {
                    Some(c) => c@,
                    None => old(self).db.documents@[di].content@,
                }
                &&& final(self).db.documents@[di].embedding@ == match embedding {
                    Some(e) => e@,
                    None => old(self).db.documents@[di].embedding@,
                }
                &&& match metadata {
                    Some(m) => {
                        &&& final(self).db.documents@[di].metadata is Some
                        &&& final(self).db.documents@[di].metadata->0@ == m@
                    },
                    None => match (final(self).db.documents@[di].metadata, old(
                        self,
                    ).db.documents@[di].metadata) {
                        (Some(a), Some(b)) => a@ == b@,
                        (None, None) => true,
                        _ => false,
                    },
                }
                &&& final(self).db.index@.len() == old(self).db.index@.len()
                &&& forall|i: int|
                    0 <= i < old(self).db.index@.len() && i != di ==> #[trigger] final(self).db.index@[i] == old(self).db.index@[i]
                &&& final(self).db.index@[di].tokens.deep_view()
                    == crate::textproc::spec_tokenize(final(self).db.documents@[di].content@)
                &&& final(self).db.collections@ == old(self).db.collections@
                &&& final(self).db.clock == old(self).db.clock + 1
            },
    {
        let r = self.db.update_document(document_id, content, embedding, metadata);
        proof {
            if !(content is None && embedding is None && metadata is None)
                && spec_has_doc_id(old(self).db.documents@, document_id)
                && spec_metadata_ok(metadata) && old(self).db.spec_has_capacity() {
                let di = spec_doc_idx_by_id(old(self).db.documents@, document_id);
                assert(self.db.index@[di].document_id == self.db.documents@[di].id);
            }
        }
        r
    }

    /// Lists documents newest first; see [`Database::list_documents`].
    pub fn list_documents(&self, collection: Option<&str>, limit: i64, offset: i64) -> (r:
        Result<Vec<Document>, Error>)
        requires
            self.db.wf(),
            0 <= limit,
            0 <= offset,
        ensures
            r matches Err(e) ==> e is NotFound && collection is Some && !spec_has_coll_named(
                self.db.collections@,
                collection->0@,
            ),
            collection is Some && !spec_has_coll_named(self.db.collections@, collection->0@)
                ==> r is Err,
            r matches Ok(v) ==> {
                let filt: Option<i64> = match collection {
                    Some(n) => Some(
                        crate::store::spec_coll_id_by_name(self.db.collections@, n@),
                    ),
                    None => None,
                };
                let sel = spec_selected_docs(self.db.documents@, filt);
                &&& v@.len() == if offset >= sel.len() {
                    0int
                } else if offset + limit <= sel.len() {
                    limit as int
                } else {
                    sel.len() - offset
                }
                &&& forall|i: int|
                    0 <= i < v@.len() ==> crate::store::spec_doc_matches(
                        #[trigger] v@[i],
                        sel[offset + i],
                        self.db.collections@,
                    )
            },
    {
        let filt: Option<i64> = match collection {
            Some(name) => {
                match self.db.coll_index_by_name(name) {
                    Some(ci) => Some(self.db.collections[ci].id),
                    None => {
                        return Err(Error::NotFound(String::from_str("collection not found")));
                    },
                }
            },
            None => None,
        };
        let r = self.db.list_documents(filt, limit, offset);
        proof {
            if collection is Some {
                let k = crate::store::spec_coll_idx_by_name(
                    self.db.collections@,
                    collection->0@,
                );
                assert(0 <= k < self.db.collections@.len() && self.db.collections@[k].name@
                    == collection->0@);
            }
        }
        r
    }
}


impl RAGEnricher {
    /// Semantic search: scores every candidate in the filtered collections
    /// by fixed-point cosine similarity against the query embedding,
    /// discards scores below the threshold, and returns the best `top_k`
    /// in non-increasing score order.
    pub fn semantic_search(
        &self,
        query_embedding: &[i64],
        collection_ids: Option<&Vec<i64>>,
        top_k: usize,
        threshold: i64,
    ) -> (r: Result<Vec<SearchResult>, Error>)
        requires
            self.db.wf(),
            components_bounded(query_embedding@, EMBEDDING_COMPONENT_LIMIT as int),
            query_embedding@.len() <= EMBEDDING_LENGTH_LIMIT,
        ensures
            r is Ok,
            r matches Ok(v) ==> spec_semantic_results_ok(
                self.db,
                query_embedding@,
                spec_filter_view(collection_ids),
                top_k as int,
                threshold as int,
                v@,
            ),
    {
        let ghost fv = spec_filter_view(collection_ids);
        let ghost pred1 = |d: DocumentRec| spec_cid_in_filter(d.collection_id, fv);
        let ghost pred2 = |d: DocumentRec| spec_cosine(query_embedding@, d.embedding@)
            >= threshold as int;
        let ghost sel1 = self.db.documents@.filter(pred1);
        let ghost sel2 = sel1.filter(pred2);
        let cands = match self.db.get_all_documents_with_embeddings(collection_ids) {
            Ok(c) => c,
            Err(e) => {
                return Err(e);
            },
        };
        proof {
            lemma_filter_is_subsequence(self.db.documents@, pred1);
            lemma_filter_ids_increasing(self.db.documents@, pred1);
            lemma_filter_ids_increasing(sel1, pred2);
        }
        let ghost emb1 = choose|e: Seq<int>|
            is_subsequence_embedding(self.db.documents@, pred1, e);
        proof {
            assert(is_subsequence_embedding(self.db.documents@, pred1, emb1));
            assert(sel1.take(0).filter(pred2) =~= Seq::<DocumentRec>::empty());
        }
        let n = cands.len();
        let mut results: Vec<SearchResult> = Vec::new();
        let mut i: usize = 0;
        while i < n
            invariant
                self.db.wf(),
                0 <= i <= n,
                components_bounded(query_embedding@, EMBEDDING_COMPONENT_LIMIT as int),
                query_embedding@.len() <= EMBEDDING_LENGTH_LIMIT,
                fv == spec_filter_view(collection_ids),
                pred1 == (|d: DocumentRec| spec_cid_in_filter(d.collection_id, fv)),
                pred2 == (|d: DocumentRec| spec_cosine(query_embedding@, d.embedding@)
                    >= threshold as int),
                sel1 == self.db.documents@.filter(pred1),
                sel2 == sel1.filter(pred2),
                is_subsequence_embedding(self.db.documents@, pred1, emb1),
                n == cands@.len(),
                n == sel1.len(),
                forall|t: int|
                    0 <= t < n ==> {
                        &&& (#[trigger] cands@[t]).0 == sel1[t].id
                        &&& cands@[t].1@ == sel1[t].content@
                        &&& cands@[t].2@ == sel1[t].embedding@
                        &&& cands@[t].3@ == spec_coll_name_of(
                            self.db.collections@,
                            sel1[t].collection_id,
                        )
                    },
                results@.len() == sel1.take(i as int).filter(pred2).len(),
                forall|k: int|
                    0 <= k < results@.len() ==> {
                        let d = sel1.take(i as int).filter(pred2)[k];
                        &&& spec_has_doc_id(self.db.documents@, (#[trigger] results@[k]).document_id)
                        &&& spec_cid_in_filter(d.collection_id, fv)
                        &&& spec_result_renders(
                            results@[k],
                            d,
                            spec_cosine(query_embedding@, d.embedding@),
                            self.db.collections@,
                        )
                        &&& threshold <= results@[k].score <= 1000
                        &&& d == self.db.documents@[spec_doc_idx_by_id(
                            self.db.documents@,
                            results@[k].document_id,
                        )]
                    },
                forall|k1: int, k2: int|
                    0 <= k1 < k2 < results@.len() ==> (#[trigger] results@[k1]).document_id
                        < (#[trigger] results@[k2]).document_id,
            decreases n - i,
        {
            let ghost pre_sel = sel1.take(i as int).filter(pred2);
            proof {
                assert(sel1[i as int] == self.db.documents@[emb1[i as int]]);
                assert(1 <= self.db.documents@[emb1[i as int]].id);
                assert(components_bounded(
                    sel1[i as int].embedding@,
                    EMBEDDING_COMPONENT_LIMIT as int,
                ));
                assert(sel1[i as int].embedding@.len() <= EMBEDDING_LENGTH_LIMIT);
                lemma_filter_take_step(sel1, i as int, pred2);
            }
            let score = cosine_similarity(query_embedding, cands[i].2.as_slice());
            if score >= threshold {
                proof {
                    assert(pred2(sel1[i as int]));
                    assert(sel1.take(i as int + 1).filter(pred2) == pre_sel.push(
                        sel1[i as int],
                    ));
                }
                let ghost prev = results@;
                let dio = self.db.doc_index_by_id(cands[i].0);
                let di = match dio {
                    Some(di) => di,
                    None => {
                        proof {
                            assert(spec_has_doc_id(self.db.documents@, cands@[i as int].0))
                                by {
                                assert(self.db.documents@[emb1[i as int]].id
                                    == cands@[i as int].0);
                            }
                        }
                        vstd::pervasive::unreached()
                    },
                };
                proof {
                    if emb1[i as int] != di as int {
                        assert(self.db.documents@[emb1[i as int]].id
                            != self.db.documents@[di as int].id);
                    }
                    assert(self.db.documents@[di as int] == sel1[i as int]);
                }
                let meta = match &self.db.documents[di].metadata {
                    Some(m) => Some(m.clone()),
                    None => None,
                };
                let row = SearchResult::new(
                    cands[i].0,
                    cands[i].1.clone(),
                    score,
                    meta,
                    cands[i].3.clone(),
                );
                results.push(row);
                proof {
                    let sd = spec_doc_idx_by_id(self.db.documents@, cands@[i as int].0);
                    assert(spec_has_doc_id(self.db.documents@, cands@[i as int].0)) by {
                        assert(self.db.documents@[emb1[i as int]].id == cands@[i as int].0);
                    }
                    assert(0 <= sd < self.db.documents@.len() && self.db.documents@[sd].id
                        == cands@[i as int].0);
                    if sd != emb1[i as int] {
                        assert(self.db.documents@[sd].id
                            != self.db.documents@[emb1[i as int]].id);
                    }
                    assert(self.db.documents@[sd] == sel1[i as int]);
                    assert forall|k1: int, k2: int|
                        0 <= k1 < k2 < results@.len() implies (#[trigger] results@[k1]).document_id
                        < (#[trigger] results@[k2]).document_id by {
                        if k2 == results@.len() - 1 {
                            assert(results@[k1] == prev[k1]);
                            assert(prev[k1].document_id == pre_sel[k1].id);
                            lemma_filter_is_subsequence(sel1.take(i as int), pred2);
                            let embp = choose|e: Seq<int>|
                                is_subsequence_embedding(sel1.take(i as int), pred2, e);
                            assert(is_subsequence_embedding(sel1.take(i as int), pred2, embp));
                            assert(pre_sel[k1] == sel1.take(i as int)[embp[k1]]);
                            assert(sel1.take(i as int)[embp[k1]] == sel1[embp[k1]]);
                            assert(sel1[embp[k1]] == self.db.documents@[emb1[embp[k1]]]);
                            assert(sel1[i as int] == self.db.documents@[emb1[i as int]]);
                            assert(emb1[embp[k1]] < emb1[i as int]);
                            assert(self.db.documents@[emb1[embp[k1]]].id
                                < self.db.documents@[emb1[i as int]].id);
                            assert(results@[k2].document_id == sel1[i as int].id);
                        }
                    }
                }
            } else {
                proof {
                    assert(!pred2(sel1[i as int]));
                }
            }
            proof {
                let s_new = sel1.take(i as int + 1).filter(pred2);
                assert forall|k: int| 0 <= k < results@.len() implies {
                    let d = s_new[k];
                    &&& spec_has_doc_id(self.db.documents@, (#[trigger] results@[k]).document_id)
                    &&& spec_cid_in_filter(d.collection_id, fv)
                    &&& spec_result_renders(
                        results@[k],
                        d,
                        spec_cosine(query_embedding@, d.embedding@),
                        self.db.collections@,
                    )
                    &&& threshold <= results@[k].score <= 1000
                    &&& d == self.db.documents@[spec_doc_idx_by_id(
                        self.db.documents@,
                        results@[k].document_id,
                    )]
                } by {
                    if pred2(sel1[i as int]) {
                        if k < pre_sel.len() {
                            assert(s_new[k] == pre_sel[k]);
                        } else {
                            assert(s_new[k] == sel1[i as int]);
                        }
                    } else {
                        assert(s_new == pre_sel);
                    }
                }
            }
            i = i + 1;
        }
        proof {
            assert(sel1.take(n as int) =~= sel1);
        }
        let ghost unsorted = results@;
        sort_results_desc(&mut results);
        proof {
            lemma_results_permutation_transfer(self.db, query_embedding@, fv, threshold as int, unsorted, results@);
            assert(forall|k1: int, k2: int|
                0 <= k1 < k2 < unsorted.len() ==> (#[trigger] unsorted[k1]).document_id < (
                #[trigger] unsorted[k2]).document_id);
            assert(crate::search::spec_ties_in_candidate_order(results@));
            assert forall|t: int| 0 <= t < sel2.len() implies exists|k: int|
                0 <= k < results@.len() && (#[trigger] results@[k]).document_id
                    == (#[trigger] sel2[t]).id by {
                assert(unsorted[t].document_id == sel2[t].id);
                vstd::seq_lib::to_multiset_contains(unsorted, unsorted[t]);
                vstd::seq_lib::to_multiset_contains(results@, unsorted[t]);
                assert(unsorted.contains(unsorted[t]));
                assert(results@.contains(unsorted[t]));
                let k = choose|k: int| 0 <= k < results@.len() && results@[k] == unsorted[t];
                assert(results@[k].document_id == sel2[t].id);
            }
        }
        while results.len() > top_k
            invariant
                self.db.wf(),
                fv == spec_filter_view(collection_ids),
                pred1 == (|d: DocumentRec| spec_cid_in_filter(d.collection_id, fv)),
                pred2 == (|d: DocumentRec| spec_cosine(query_embedding@, d.embedding@)
                    >= threshold as int),
                sel1 == self.db.documents@.filter(pred1),
                sel2 == sel1.filter(pred2),
                spec_results_sorted(results@),
                crate::search::spec_ties_in_candidate_order(results@),
                forall|k: int|
                    0 <= k < results@.len() ==> threshold <= (#[trigger] results@[k]).score
                        <= 1000,
                forall|k: int|
                    0 <= k < results@.len() ==> {
                        let d = self.db.documents@[spec_doc_idx_by_id(
                            self.db.documents@,
                            (#[trigger] results@[k]).document_id,
                        )];
                        &&& spec_has_doc_id(self.db.documents@, results@[k].document_id)
                        &&& spec_cid_in_filter(d.collection_id, fv)
                        &&& spec_result_renders(
                            results@[k],
                            d,
                            spec_cosine(query_embedding@, d.embedding@),
                            self.db.collections@,
                        )
                    },
                forall|k1: int, k2: int|
                    0 <= k1 < k2 < results@.len() ==> (#[trigger] results@[k1]).document_id
                        != (#[trigger] results@[k2]).document_id,
                sel2.len() >= results@.len(),
                results@.len() >= top_k || results@.len() == sel2.len(),
                forall|t: int|
                    0 <= t < sel2.len() ==> (exists|k: int|
                        0 <= k < results@.len() && (#[trigger] results@[k]).document_id
                            == (#[trigger] sel2[t]).id) || {
                        &&& results@.len() >= top_k
                        &&& results@.len() > 0 ==> spec_cosine(
                            query_embedding@,
                            sel2[t].embedding@,
                        ) <= results@[results@.len() - 1].score
                    },
            decreases results@.len(),
        {
            let ghost pre = results@;
            results.pop();
            proof {
                assert(results@ =~= pre.drop_last());
                assert forall|t: int| 0 <= t < sel2.len() implies (exists|k: int|
                    0 <= k < results@.len() && (#[trigger] results@[k]).document_id
                        == (#[trigger] sel2[t]).id) || {
                    &&& results@.len() >= top_k
                    &&& results@.len() > 0 ==> spec_cosine(
                        query_embedding@,
                        sel2[t].embedding@,
                    ) <= results@[results@.len() - 1].score
                } by {
                    if exists|k: int|
                        0 <= k < pre.len() && (#[trigger] pre[k]).document_id == sel2[t].id {
                        let k = choose|k: int|
                            0 <= k < pre.len() && (#[trigger] pre[k]).document_id
                                == sel2[t].id;
                        if k < pre.len() - 1 {
                            assert(results@[k].document_id == sel2[t].id);
                        } else {
                            lemma_selected_doc_is_the_stored_one(
                                self.db,
                                query_embedding@,
                                fv,
                                threshold as int,
                                t,
                            );
                            assert(pre[k].score == spec_cosine(
                                query_embedding@,
                                sel2[t].embedding@,
                            ));
                            if results@.len() > 0 {
                                assert(pre[pre.len() - 2].score >= pre[pre.len() - 1].score);
                            }
                        }
                    } else {
                        if results@.len() > 0 {
                            assert(pre[pre.len() - 2].score >= pre[pre.len() - 1].score);
                        }
                    }
                }
            }
        }
        proof {
            reveal(spec_semantic_results_ok);
        }
        Ok(results)
    }
}

/// A sorted permutation of semantically scored results keeps every
/// per-result fact: scores, thresholds, renderings and distinct ids.
proof fn lemma_results_permutation_transfer(
    db: Database,
    qe: Seq<i64>,
    fv: Option<Seq<i64>>,
    threshold: int,
    unsorted: Seq<SearchResult>,
    sorted: Seq<SearchResult>,
)
    requires
        sorted.to_multiset() == unsorted.to_multiset(),
        sorted.len() == unsorted.len(),
        forall|k: int|
            0 <= k < unsorted.len() ==> {
                let d = db.documents@[spec_doc_idx_by_id(
                    db.documents@,
                    (#[trigger] unsorted[k]).document_id,
                )];
                &&& spec_has_doc_id(db.documents@, unsorted[k].document_id)
                &&& spec_cid_in_filter(d.collection_id, fv)
                &&& spec_result_renders(unsorted[k], d, spec_cosine(qe, d.embedding@), db.collections@)
                &&& threshold <= unsorted[k].score <= 1000
            },
        forall|k1: int, k2: int|
            0 <= k1 < k2 < unsorted.len() ==> (#[trigger] unsorted[k1]).document_id
                < (#[trigger] unsorted[k2]).document_id,
    ensures
        forall|k: int|
            0 <= k < sorted.len() ==> {
                let d = db.documents@[spec_doc_idx_by_id(
                    db.documents@,
                    (#[trigger] sorted[k]).document_id,
                )];
                &&& spec_has_doc_id(db.documents@, sorted[k].document_id)
                &&& spec_cid_in_filter(d.collection_id, fv)
                &&& spec_result_renders(sorted[k], d, spec_cosine(qe, d.embedding@), db.collections@)
                &&& threshold <= sorted[k].score <= 1000
            },
        forall|k1: int, k2: int|
            0 <= k1 < k2 < sorted.len() ==> (#[trigger] sorted[k1]).document_id
                != (#[trigger] sorted[k2]).document_id,
{
    assert forall|k1: int, k2: int|
        0 <= k1 < k2 < unsorted.len() implies unsorted[k1] != unsorted[k2] by {
        assert(unsorted[k1].document_id < unsorted[k2].document_id);
    }
    assert(unsorted.no_duplicates());
    unsorted.lemma_multiset_has_no_duplicates();
    sorted.lemma_multiset_has_no_duplicates_conv();
    assert forall|k: int| 0 <= k < sorted.len() implies {
        let d = db.documents@[spec_doc_idx_by_id(
            db.documents@,
            (#[trigger] sorted[k]).document_id,
        )];
        &&& spec_has_doc_id(db.documents@, sorted[k].document_id)
        &&& spec_cid_in_filter(d.collection_id, fv)
        &&& spec_result_renders(sorted[k], d, spec_cosine(qe, d.embedding@), db.collections@)
        &&& threshold <= sorted[k].score <= 1000
    } by {
        vstd::seq_lib::to_multiset_contains(sorted, sorted[k]);
        vstd::seq_lib::to_multiset_contains(unsorted, sorted[k]);
        assert(sorted.contains(sorted[k]));
        assert(unsorted.contains(sorted[k]));
        let k0 = choose|k0: int| 0 <= k0 < unsorted.len() && unsorted[k0] == sorted[k];
        assert(unsorted[k0] == sorted[k]);
    }
    assert forall|k1: int, k2: int|
        0 <= k1 < k2 < sorted.len() implies (#[trigger] sorted[k1]).document_id
        != (#[trigger] sorted[k2]).document_id by {
        if sorted[k1].document_id == sorted[k2].document_id {
            vstd::seq_lib::to_multiset_contains(sorted, sorted[k1]);
            vstd::seq_lib::to_multiset_contains(unsorted, sorted[k1]);
            vstd::seq_lib::to_multiset_contains(sorted, sorted[k2]);
            vstd::seq_lib::to_multiset_contains(unsorted, sorted[k2]);
            assert(sorted.contains(sorted[k1]));
            assert(sorted.contains(sorted[k2]));
            assert(unsorted.contains(sorted[k1]));
            assert(unsorted.contains(sorted[k2]));
            let a = choose|a: int| 0 <= a < unsorted.len() && unsorted[a] == sorted[k1];
            let b = choose|b: int| 0 <= b < unsorted.len() && unsorted[b] == sorted[k2];
            if a < b {
                assert(unsorted[a].document_id < unsorted[b].document_id);
            } else if b < a {
                assert(unsorted[b].document_id < unsorted[a].document_id);
            }
            assert(a == b);
            assert(sorted[k1] == sorted[k2]);
            assert(sorted.no_duplicates());
        }
    }
}



/// The raw keyword score the active tier assigns document `d`: the indexed
/// tier's rank when any document token-matches the query, else the
/// fallback's fixed `1.0`.
pub open spec fn spec_keyword_base_raw(
    db: Database,
    q: Seq<char>,
    fv: Option<Seq<i64>>,
    d: DocumentRec,
) -> int {
    if crate::query::spec_any_lex_match(db, q, fv) {
        crate::query::spec_lex_raw(crate::textproc::spec_tokenize(q), crate::textproc::spec_tokenize(d.content@))
    } else {
        1000
    }
}

/// Whether document `d` is found by the active keyword tier.
pub open spec fn spec_keyword_qualifies(
    db: Database,
    q: Seq<char>,
    fv: Option<Seq<i64>>,
    d: DocumentRec,
) -> bool {
    if crate::query::spec_any_lex_match(db, q, fv) {
        crate::query::spec_lex_qualifies(d, crate::textproc::spec_tokenize(q), fv)
    } else {
        crate::query::spec_substr_qualifies(d, q, fv)
    }
}

/// What a keyword search promises of its results `v`: sorted, squashed
/// scores inside `[0, 1)`, every result a distinct document found by the
/// active tier with the squash of its raw score, and every found document
/// represented unless `top_k` is exhausted.
#[verifier::opaque]
pub open spec fn spec_keyword_results_ok(
    db: Database,
    q: Seq<char>,
    fv: Option<Seq<i64>>,
    top_k: int,
    v: Seq<SearchResult>,
) -> bool {
    &&& spec_results_sorted(v)
    &&& v.len() <= top_k
    &&& forall|k: int| 0 <= k < v.len() ==> 0 <= (#[trigger] v[k]).score < 1000
    &&& forall|k: int|
        0 <= k < v.len() ==> {
            let d = db.documents@[spec_doc_idx_by_id(db.documents@, (#[trigger] v[k]).document_id)];
            &&& spec_has_doc_id(db.documents@, v[k].document_id)
            &&& spec_keyword_qualifies(db, q, fv, d)
            &&& spec_result_renders(
                v[k],
                d,
                crate::logistic::spec_squash(spec_keyword_base_raw(db, q, fv, d)),
                db.collections@,
            )
        }
    &&& forall|k1: int, k2: int|
        0 <= k1 < k2 < v.len() ==> (#[trigger] v[k1]).document_id
            != (#[trigger] v[k2]).document_id
    &&& forall|i: int|
        0 <= i < db.documents@.len() && spec_keyword_qualifies(
            db,
            q,
            fv,
            #[trigger] db.documents@[i],
        ) && !spec_in_results(v, db.documents@[i].id) ==> {
            &&& v.len() == top_k
            &&& v.len() > 0 ==> crate::logistic::spec_squash(
                spec_keyword_base_raw(db, q, fv, db.documents@[i]),
            ) <= v[v.len() - 1].score
        }
}

/// A sorted permutation of keyword-scored results keeps every per-result
/// fact and the distinctness of ids.
proof fn lemma_keyword_permutation_transfer(
    db: Database,
    q: Seq<char>,
    fv: Option<Seq<i64>>,
    unsorted: Seq<SearchResult>,
    sorted: Seq<SearchResult>,
)
    requires
        sorted.to_multiset() == unsorted.to_multiset(),
        sorted.len() == unsorted.len(),
        forall|k: int|
            0 <= k < unsorted.len() ==> {
                let d = db.documents@[spec_doc_idx_by_id(
                    db.documents@,
                    (#[trigger] unsorted[k]).document_id,
                )];
                &&& spec_has_doc_id(db.documents@, unsorted[k].document_id)
                &&& spec_keyword_qualifies(db, q, fv, d)
                &&& spec_result_renders(
                    unsorted[k],
                    d,
                    crate::logistic::spec_squash(spec_keyword_base_raw(db, q, fv, d)),
                    db.collections@,
                )
                &&& 0 <= unsorted[k].score < 1000
            },
        forall|k1: int, k2: int|
            0 <= k1 < k2 < unsorted.len() ==> (#[trigger] unsorted[k1]).document_id
                != (#[trigger] unsorted[k2]).document_id,
    ensures
        forall|k: int|
            0 <= k < sorted.len() ==> {
                let d = db.documents@[spec_doc_idx_by_id(
                    db.documents@,
                    (#[trigger] sorted[k]).document_id,
                )];
                &&& spec_has_doc_id(db.documents@, sorted[k].document_id)
                &&& spec_keyword_qualifies(db, q, fv, d)
                &&& spec_result_renders(
                    sorted[k],
                    d,
                    crate::logistic::spec_squash(spec_keyword_base_raw(db, q, fv, d)),
                    db.collections@,
                )
                &&& 0 <= sorted[k].score < 1000
            },
        forall|k1: int, k2: int|
            0 <= k1 < k2 < sorted.len() ==> (#[trigger] sorted[k1]).document_id
                != (#[trigger] sorted[k2]).document_id,
{
    assert forall|k1: int, k2: int|
        0 <= k1 < k2 < unsorted.len() implies unsorted[k1] != unsorted[k2] by {
        assert(unsorted[k1].document_id != unsorted[k2].document_id);
    }
    assert(unsorted.no_duplicates());
    unsorted.lemma_multiset_has_no_duplicates();
    sorted.lemma_multiset_has_no_duplicates_conv();
    assert forall|k: int| 0 <= k < sorted.len() implies {
        let d = db.documents@[spec_doc_idx_by_id(
            db.documents@,
            (#[trigger] sorted[k]).document_id,
        )];
        &&& spec_has_doc_id(db.documents@, sorted[k].document_id)
        &&& spec_keyword_qualifies(db, q, fv, d)
        &&& spec_result_renders(
            sorted[k],
            d,
            crate::logistic::spec_squash(spec_keyword_base_raw(db, q, fv, d)),
            db.collections@,
        )
        &&& 0 <= sorted[k].score < 1000
    } by {
        vstd::seq_lib::to_multiset_contains(sorted, sorted[k]);
        vstd::seq_lib::to_multiset_contains(unsorted, sorted[k]);
        assert(sorted.contains(sorted[k]));
        assert(unsorted.contains(sorted[k]));
        let k0 = choose|k0: int| 0 <= k0 < unsorted.len() && unsorted[k0] == sorted[k];
        assert(unsorted[k0] == sorted[k]);
    }
    assert forall|k1: int, k2: int|
        0 <= k1 < k2 < sorted.len() implies (#[trigger] sorted[k1]).document_id
        != (#[trigger] sorted[k2]).document_id by {
        if sorted[k1].document_id == sorted[k2].document_id {
            vstd::seq_lib::to_multiset_contains(sorted, sorted[k1]);
            vstd::seq_lib::to_multiset_contains(unsorted, sorted[k1]);
            vstd::seq_lib::to_multiset_contains(sorted, sorted[k2]);
            vstd::seq_lib::to_multiset_contains(unsorted, sorted[k2]);
            assert(sorted.contains(sorted[k1]));
            assert(sorted.contains(sorted[k2]));
            assert(unsorted.contains(sorted[k1]));
            assert(unsorted.contains(sorted[k2]));
            let a = choose|a: int| 0 <= a < unsorted.len() && unsorted[a] == sorted[k1];
            let b = choose|b: int| 0 <= b < unsorted.len() && unsorted[b] == sorted[k2];
            if a != b {
                assert(unsorted[a].document_id != unsorted[b].document_id);
            }
            assert(sorted[k1] == sorted[k2]);
            assert(sorted.no_duplicates());
        }
    }
}

impl RAGEnricher {
    /// Keyword search: the two-tier lexical path, every raw score pushed
    /// through the logistic squash, the squashed results in non-increasing
    /// score order, truncated to `top_k`. Because the squash is increasing
    /// in the raw score, this ordering follows the squashed scale, not the
    /// indexed tier's inverted raw ranking; the fallback tier's constant
    /// raw score keeps its recency order either way.
    pub fn keyword_search(&self, query: &str, collection_ids: Option<&Vec<i64>>, top_k: usize)
        -> (r: Result<Vec<SearchResult>, Error>)
        requires
            self.db.wf(),
        ensures
            r is Ok,
            r matches Ok(v) ==> spec_keyword_results_ok(
                self.db,
                query@,
                spec_filter_view(collection_ids),
                top_k as int,
                v@,
            ),
    {
        let ghost fv = spec_filter_view(collection_ids);
        let rows = match self.db.keyword_search(query, collection_ids) {
            Ok(rows) => rows,
            Err(e) => {
                return Err(e);
            },
        };
        let ghost any = crate::query::spec_any_lex_match(self.db, query@, fv);
        proof {
            if !any {
                lemma_substring_rows_docs(self.db, query@, fv, rows@);
            }
        }
        let n = rows.len();
        let mut results: Vec<SearchResult> = Vec::new();
        let mut i: usize = 0;
        while i < n
            invariant
                self.db.wf(),
                0 <= i <= n,
                n == rows@.len(),
                fv == spec_filter_view(collection_ids),
                any == crate::query::spec_any_lex_match(self.db, query@, fv),
                any ==> crate::query::spec_lexical_results_ok(self.db, query@, fv, rows@),
                !any ==> crate::query::spec_substring_results_ok(self.db, query@, fv, rows@),
                !any ==> forall|k: int|
                    0 <= k < rows@.len() ==> {
                        let d = self.db.documents@[spec_doc_idx_by_id(
                            self.db.documents@,
                            (#[trigger] rows@[k]).0,
                        )];
                        &&& spec_has_doc_id(self.db.documents@, rows@[k].0)
                        &&& crate::query::spec_substr_qualifies(d, query@, fv)
                        &&& crate::query::spec_row_renders(rows@[k], d, 1000, self.db.collections@)
                    },
                !any ==> forall|k1: int, k2: int|
                    0 <= k1 < k2 < rows@.len() ==> (#[trigger] rows@[k1]).0
                        != (#[trigger] rows@[k2]).0,
                results@.len() == i,
                forall|k: int|
                    0 <= k < i ==> {
                        let d = self.db.documents@[spec_doc_idx_by_id(
                            self.db.documents@,
                            (#[trigger] results@[k]).document_id,
                        )];
                        &&& results@[k].document_id == rows@[k].0
                        &&& spec_has_doc_id(self.db.documents@, results@[k].document_id)
                        &&& spec_keyword_qualifies(self.db, query@, fv, d)
                        &&& spec_result_renders(
                            results@[k],
                            d,
                            crate::logistic::spec_squash(
                                spec_keyword_base_raw(self.db, query@, fv, d),
                            ),
                            self.db.collections@,
                        )
                        &&& 0 <= results@[k].score < 1000
                    },
            decreases n - i,
        {
            let ghost prev = results@;
            proof {
                let di = spec_doc_idx_by_id(self.db.documents@, rows@[i as int].0);
                assert(spec_has_doc_id(self.db.documents@, rows@[i as int].0));
                assert(0 <= di < self.db.documents@.len());
            }
            let sc = crate::logistic::squash(rows[i].2);
            let dio = self.db.doc_index_by_id(rows[i].0);
            let di = match dio {
                Some(di) => di,
                None => vstd::pervasive::unreached(),
            };
            proof {
                let sd = spec_doc_idx_by_id(self.db.documents@, rows@[i as int].0);
                assert(0 <= sd < self.db.documents@.len() && self.db.documents@[sd].id
                    == rows@[i as int].0);
                if sd != di as int {
                    assert(self.db.documents@[sd].id != self.db.documents@[di as int].id);
                }
            }
            let meta = match &self.db.documents[di].metadata {
                Some(m) => Some(m.clone()),
                None => None,
            };
            let row = SearchResult::new(rows[i].0, rows[i].1.clone(), sc, meta, rows[i].3.clone());
            results.push(row);
            proof {
                assert forall|k: int| 0 <= k < i + 1 implies {
                    let d = self.db.documents@[spec_doc_idx_by_id(
                        self.db.documents@,
                        (#[trigger] results@[k]).document_id,
                    )];
                    &&& results@[k].document_id == rows@[k].0
                    &&& spec_has_doc_id(self.db.documents@, results@[k].document_id)
                    &&& spec_keyword_qualifies(self.db, query@, fv, d)
                    &&& spec_result_renders(
                        results@[k],
                        d,
                        crate::logistic::spec_squash(
                            spec_keyword_base_raw(self.db, query@, fv, d),
                        ),
                        self.db.collections@,
                    )
                    &&& 0 <= results@[k].score < 1000
                } by {
                    if k < i {
                        assert(results@[k] == prev[k]);
                    }
                }
            }
            i = i + 1;
        }
        let ghost unsorted = results@;
        proof {
            assert forall|k1: int, k2: int|
                0 <= k1 < k2 < unsorted.len() implies (#[trigger] unsorted[k1]).document_id
                != (#[trigger] unsorted[k2]).document_id by {
                assert(unsorted[k1].document_id == rows@[k1].0);
                assert(unsorted[k2].document_id == rows@[k2].0);
            }
        }
        sort_results_desc(&mut results);
        proof {
            lemma_keyword_permutation_transfer(self.db, query@, fv, unsorted, results@);
            assert forall|t: int|
                0 <= t < self.db.documents@.len() && spec_keyword_qualifies(
                self.db,
                query@,
                fv,
                #[trigger] self.db.documents@[t],
            ) implies exists|k: int|
                0 <= k < results@.len() && (#[trigger] results@[k]).document_id
                    == self.db.documents@[t].id by {
                if !any {
                    lemma_substring_completeness(self.db, query@, fv, rows@, t);
                }
                let k0 = choose|k0: int|
                    0 <= k0 < rows@.len() && (#[trigger] rows@[k0]).0
                        == self.db.documents@[t].id;
                assert(unsorted[k0].document_id == self.db.documents@[t].id);
                vstd::seq_lib::to_multiset_contains(unsorted, unsorted[k0]);
                vstd::seq_lib::to_multiset_contains(results@, unsorted[k0]);
                assert(unsorted.contains(unsorted[k0]));
                assert(results@.contains(unsorted[k0]));
                let kk = choose|kk: int|
                    0 <= kk < results@.len() && results@[kk] == unsorted[k0];
                assert(results@[kk].document_id == self.db.documents@[t].id);
            }
        }
        while results.len() > top_k
            invariant
                spec_results_sorted(results@),
                forall|k: int| 0 <= k < results@.len() ==> 0 <= (#[trigger] results@[k]).score
                    < 1000,
                forall|k: int|
                    0 <= k < results@.len() ==> {
                        let d = self.db.documents@[spec_doc_idx_by_id(
                            self.db.documents@,
                            (#[trigger] results@[k]).document_id,
                        )];
                        &&& spec_has_doc_id(self.db.documents@, results@[k].document_id)
                        &&& spec_keyword_qualifies(self.db, query@, fv, d)
                        &&& spec_result_renders(
                            results@[k],
                            d,
                            crate::logistic::spec_squash(
                                spec_keyword_base_raw(self.db, query@, fv, d),
                            ),
                            self.db.collections@,
                        )
                    },
                forall|k1: int, k2: int|
                    0 <= k1 < k2 < results@.len() ==> (#[trigger] results@[k1]).document_id
                        != (#[trigger] results@[k2]).document_id,
                self.db.wf(),
                forall|t: int|
                    0 <= t < self.db.documents@.len() && spec_keyword_qualifies(
                        self.db,
                        query@,
                        fv,
                        #[trigger] self.db.documents@[t],
                    ) ==> (exists|k: int|
                        0 <= k < results@.len() && (#[trigger] results@[k]).document_id
                            == self.db.documents@[t].id) || {
                        &&& results@.len() >= top_k
                        &&& results@.len() > 0 ==> crate::logistic::spec_squash(
                            spec_keyword_base_raw(self.db, query@, fv, self.db.documents@[t]),
                        ) <= results@[results@.len() - 1].score
                    },
            decreases results@.len(),
        {
            let ghost pre = results@;
            results.pop();
            proof {
                assert(results@ =~= pre.drop_last());
                assert forall|t: int|
                    0 <= t < self.db.documents@.len() && spec_keyword_qualifies(
                    self.db,
                    query@,
                    fv,
                    #[trigger] self.db.documents@[t],
                ) implies (exists|k: int|
                    0 <= k < results@.len() && (#[trigger] results@[k]).document_id
                        == self.db.documents@[t].id) || {
                    &&& results@.len() >= top_k
                    &&& results@.len() > 0 ==> crate::logistic::spec_squash(
                        spec_keyword_base_raw(self.db, query@, fv, self.db.documents@[t]),
                    ) <= results@[results@.len() - 1].score
                } by {
                    if exists|k: int|
                        0 <= k < pre.len() && (#[trigger] pre[k]).document_id
                            == self.db.documents@[t].id {
                        let k = choose|k: int|
                            0 <= k < pre.len() && (#[trigger] pre[k]).document_id
                                == self.db.documents@[t].id;
                        if k < pre.len() - 1 {
                            assert(results@[k].document_id == self.db.documents@[t].id);
                        } else {
                            let sd = spec_doc_idx_by_id(
                                self.db.documents@,
                                pre[k].document_id,
                            );
                            assert(0 <= sd < self.db.documents@.len()
                                && self.db.documents@[sd].id == pre[k].document_id);
                            if sd != t {
                                assert(self.db.documents@[sd].id
                                    != self.db.documents@[t].id);
                            }
                            assert(pre[k].score == crate::logistic::spec_squash(
                                spec_keyword_base_raw(
                                    self.db,
                                    query@,
                                    fv,
                                    self.db.documents@[t],
                                ),
                            ));
                            if results@.len() > 0 {
                                assert(pre[pre.len() - 2].score >= pre[pre.len() - 1].score);
                            }
                        }
                    } else {
                        if results@.len() > 0 {
                            assert(pre[pre.len() - 2].score >= pre[pre.len() - 1].score);
                        }
                    }
                }
            }
        }
        proof {
            reveal(spec_keyword_results_ok);
        }
        Ok(results)
    }
}

/// Substring rows name real stored documents, with distinct ids.
proof fn lemma_substring_rows_docs(
    db: Database,
    q: Seq<char>,
    fv: Option<Seq<i64>>,
    rows: Seq<crate::query::SearchRow>,
)
    requires
        db.wf(),
        crate::query::spec_substring_results_ok(db, q, fv, rows),
    ensures
        forall|k: int|
            0 <= k < rows.len() ==> {
                let d = db.documents@[spec_doc_idx_by_id(db.documents@, (#[trigger] rows[k]).0)];
                &&& spec_has_doc_id(db.documents@, rows[k].0)
                &&& crate::query::spec_substr_qualifies(d, q, fv)
                &&& crate::query::spec_row_renders(rows[k], d, 1000, db.collections@)
            },
        forall|k1: int, k2: int|
            0 <= k1 < k2 < rows.len() ==> (#[trigger] rows[k1]).0 != (#[trigger] rows[k2]).0,
{
    let pred = |d: DocumentRec| crate::query::spec_substr_qualifies(d, q, fv);
    let rev = db.documents@.reverse();
    let sel = rev.filter(pred);
    lemma_filter_is_subsequence(rev, pred);
    let emb = choose|e: Seq<int>| is_subsequence_embedding(rev, pred, e);
    assert(is_subsequence_embedding(rev, pred, emb));
    let n = db.documents@.len() as int;
    assert forall|k: int| 0 <= k < rows.len() implies {
        let d = db.documents@[spec_doc_idx_by_id(db.documents@, (#[trigger] rows[k]).0)];
        &&& spec_has_doc_id(db.documents@, rows[k].0)
        &&& crate::query::spec_substr_qualifies(d, q, fv)
        &&& crate::query::spec_row_renders(rows[k], d, 1000, db.collections@)
    } by {
        assert(sel[k] == rev[emb[k]]);
        assert(rev[emb[k]] == db.documents@[n - 1 - emb[k]]);
        assert(spec_has_doc_id(db.documents@, rows[k].0)) by {
            assert(db.documents@[n - 1 - emb[k]].id == rows[k].0);
        }
        let sd = spec_doc_idx_by_id(db.documents@, rows[k].0);
        assert(0 <= sd < db.documents@.len() && db.documents@[sd].id == rows[k].0);
        if sd != n - 1 - emb[k] {
            assert(db.documents@[sd].id != db.documents@[n - 1 - emb[k]].id);
        }
        assert(db.documents@[sd] == sel[k]);
        assert(pred(sel[k]));
    }
    assert forall|k1: int, k2: int|
        0 <= k1 < k2 < rows.len() implies (#[trigger] rows[k1]).0 != (#[trigger] rows[k2]).0 by {
        assert(sel[k1] == rev[emb[k1]]);
        assert(sel[k2] == rev[emb[k2]]);
        assert(rev[emb[k1]] == db.documents@[n - 1 - emb[k1]]);
        assert(rev[emb[k2]] == db.documents@[n - 1 - emb[k2]]);
        assert(emb[k1] < emb[k2]);
        assert(db.documents@[n - 1 - emb[k2]].id < db.documents@[n - 1 - emb[k1]].id);
        assert(rows[k1].0 == sel[k1].id);
        assert(rows[k2].0 == sel[k2].id);
    }
}

/// Every document the substring scan qualifies appears among its rows.
proof fn lemma_substring_completeness(
    db: Database,
    q: Seq<char>,
    fv: Option<Seq<i64>>,
    rows: Seq<crate::query::SearchRow>,
    t: int,
)
    requires
        db.wf(),
        crate::query::spec_substring_results_ok(db, q, fv, rows),
        0 <= t < db.documents@.len(),
        crate::query::spec_substr_qualifies(db.documents@[t], q, fv),
    ensures
        exists|k: int| 0 <= k < rows.len() && (#[trigger] rows[k]).0 == db.documents@[t].id,
{
    broadcast use vstd::seq_lib::group_filter_ensures;

    let pred = |d: DocumentRec| crate::query::spec_substr_qualifies(d, q, fv);
    let rev = db.documents@.reverse();
    let sel = rev.filter(pred);
    let n = db.documents@.len() as int;
    assert(rev[n - 1 - t] == db.documents@[t]);
    assert(pred(rev[n - 1 - t]));
    assert(sel.contains(rev[n - 1 - t])) by {
        rev.lemma_filter_contains(pred, n - 1 - t);
    }
    let k = choose|k: int| 0 <= k < sel.len() && sel[k] == rev[n - 1 - t];
    assert(rows[k].0 == sel[k].id);
}


/// Some result in `v` names document `id`.
pub open spec fn spec_in_results(v: Seq<SearchResult>, id: i64) -> bool {
    exists|k: int| 0 <= k < v.len() && (#[trigger] v[k]).document_id == id
}

/// The score `v` assigns document `id`: the first matching result's score,
/// and `0` when the document is absent — a missing method's contribution
/// is zero, never disqualifying.
pub open spec fn spec_score_of(v: Seq<SearchResult>, id: i64) -> int
    decreases v.len(),
{
    if v.len() == 0 {
        0
    } else if v[0].document_id == id {
        v[0].score as int
    } else {
        spec_score_of(v.drop_first(), id)
    }
}

/// The first result in `v` naming document `id`.
pub open spec fn spec_entry_of(v: Seq<SearchResult>, id: i64) -> SearchResult
    decreases v.len(),
{
    if v.len() == 0 {
        vstd::pervasive::arbitrary()
    } else if v[0].document_id == id {
        v[0]
    } else {
        spec_entry_of(v.drop_first(), id)
    }
}

/// The weighted fusion of a semantic and a keyword score, in milli-units:
/// `semantic_weight * semantic + keyword_weight * keyword`, the fixed-point
/// product rounded down.
pub open spec fn spec_combine(sw: int, ss: int, kw: int, ks: int) -> int {
    (sw * ss + kw * ks) / 1000
}

/// In a result list with distinct document ids, looking a result's own id
/// up finds exactly that result.
proof fn lemma_entry_lookup(v: Seq<SearchResult>, k: int)
    requires
        forall|k1: int, k2: int|
            0 <= k1 < k2 < v.len() ==> (#[trigger] v[k1]).document_id
                != (#[trigger] v[k2]).document_id,
        0 <= k < v.len(),
    ensures
        spec_in_results(v, v[k].document_id),
        spec_score_of(v, v[k].document_id) == v[k].score,
        spec_entry_of(v, v[k].document_id) == v[k],
    decreases k,
{
    if k == 0 {
    } else {
        assert(v[0].document_id != v[k].document_id);
        assert(forall|k1: int, k2: int|
            0 <= k1 < k2 < v.drop_first().len() ==> (#[trigger] v.drop_first()[k1]).document_id
                != (#[trigger] v.drop_first()[k2]).document_id) by {
            assert(forall|k1: int|
                0 <= k1 < v.drop_first().len() ==> #[trigger] v.drop_first()[k1] == v[k1 + 1]);
        }
        lemma_entry_lookup(v.drop_first(), k - 1);
        assert(v.drop_first()[k - 1] == v[k]);
    }
}

/// A document named by no result scores zero.
proof fn lemma_score_of_absent(v: Seq<SearchResult>, id: i64)
    requires
        !spec_in_results(v, id),
    ensures
        spec_score_of(v, id) == 0,
    decreases v.len(),
{
    if v.len() > 0 {
        assert(v[0].document_id != id);
        assert(!spec_in_results(v.drop_first(), id)) by {
            if spec_in_results(v.drop_first(), id) {
                let k = choose|k: int|
                    0 <= k < v.drop_first().len() && (#[trigger] v.drop_first()[k]).document_id
                        == id;
                assert(v[k + 1].document_id == id);
            }
        }
        lemma_score_of_absent(v.drop_first(), id);
    }
}

/// The fused entry for `r` is correct with respect to the two candidate
/// lists: its score is the weighted combination of the document's semantic
/// and keyword scores — a document found by only one method contributes
/// zero for the other — and its content comes from whichever list found it.
pub open spec fn spec_fused_entry_ok(
    sem: Seq<SearchResult>,
    kwr: Seq<SearchResult>,
    sw: int,
    kw: int,
    r: SearchResult,
) -> bool {
    let id = r.document_id;
    &&& spec_in_results(sem, id) || spec_in_results(kwr, id)
    &&& r.score == spec_combine(sw, spec_score_of(sem, id), kw, spec_score_of(kwr, id))
    &&& {
        let src = if spec_in_results(sem, id) {
            spec_entry_of(sem, id)
        } else {
            spec_entry_of(kwr, id)
        };
        &&& r.content@ == src.content@
        &&& match (r.metadata, src.metadata) {
            (Some(a), Some(b)) => a@ == b@,
            (None, None) => true,
            _ => false,
        }
        &&& r.collection_name@ == src.collection_name@
    }
}

/// Finds the score a result list assigns a document: whether the document
/// appears, and its score (zero when absent).
fn find_score(v: &Vec<SearchResult>, id: i64) -> (r: (bool, i64))
    ensures
        r.0 == spec_in_results(v@, id),
        r.1 == spec_score_of(v@, id),
{
    let n = v.len();
    let mut i: usize = 0;
    proof {
        assert(v@.skip(0) =~= v@);
    }
    while i < n
        invariant
            0 <= i <= n,
            n == v@.len(),
            forall|k: int| 0 <= k < i ==> (#[trigger] v@[k]).document_id != id,
            spec_score_of(v@, id) == spec_score_of(v@.skip(i as int), id),
        decreases n - i,
    {
        proof {
            assert(v@.skip(i as int)[0] == v@[i as int]);
            assert(v@.skip(i as int).drop_first() =~= v@.skip(i as int + 1));
        }
        if v[i].document_id == id {
            proof {
                assert(spec_in_results(v@, id)) by {
                    assert(v@[i as int].document_id == id);
                }
            }
            return (true, v[i].score);
        }
        i = i + 1;
    }
    proof {
        assert(v@.skip(n as int) =~= Seq::<SearchResult>::empty());
        if spec_in_results(v@, id) {
            let k = choose|k: int| 0 <= k < v@.len() && (#[trigger] v@[k]).document_id == id;
        }
    }
    (false, 0)
}

/// The weighted fusion of two milli-scores.
fn combine(sw: i64, ss: i64, kw: i64, ks: i64) -> (r: i64)
    requires
        0 <= sw <= 1000,
        0 <= ss <= 1000,
        0 <= kw <= 1000,
        0 <= ks <= 1000,
    ensures
        r == spec_combine(sw as int, ss as int, kw as int, ks as int),
        0 <= r <= 2000,
    {
    proof {
        assert(sw * ss <= 1000 * 1000) by (nonlinear_arith)
            requires
                0 <= sw <= 1000,
                0 <= ss <= 1000,
        ;
        assert(kw * ks <= 1000 * 1000) by (nonlinear_arith)
            requires
                0 <= kw <= 1000,
                0 <= ks <= 1000,
        ;
        assert(sw * ss >= 0) by (nonlinear_arith)
            requires
                0 <= sw,
                0 <= ss,
        ;
        assert(kw * ks >= 0) by (nonlinear_arith)
            requires
                0 <= kw,
                0 <= ks,
        ;
        vstd::arithmetic::div_mod::lemma_div_is_ordered(
            sw * ss + kw * ks,
            2_000_000,
            1000,
        );
        vstd::arithmetic::div_mod::lemma_div_pos_is_pos(sw * ss + kw * ks, 1000);
    }
    let t: i64 = sw * ss + kw * ks;
    ((t as u64) / 1000) as i64
}

/// Merges the semantic and keyword candidate lists by document identity
/// and combines each document's two scores by the weighted sum: a document
/// found by both methods gets
/// `semantic_weight * semanticScore + keyword_weight * keywordScore`
/// exactly, and a document found by only one method keeps its single
/// weighted contribution, the missing score standing at zero.
pub fn fuse_candidates(
    semantic: &Vec<SearchResult>,
    keyword: &Vec<SearchResult>,
    semantic_weight: i64,
    keyword_weight: i64,
) -> (out: Vec<SearchResult>)
    requires
        0 <= semantic_weight <= 1000,
        0 <= keyword_weight <= 1000,
        forall|k: int|
            0 <= k < semantic@.len() ==> 0 <= (#[trigger] semantic@[k]).score <= 1000,
        forall|k: int| 0 <= k < keyword@.len() ==> 0 <= (#[trigger] keyword@[k]).score <= 1000,
        forall|k1: int, k2: int|
            0 <= k1 < k2 < semantic@.len() ==> (#[trigger] semantic@[k1]).document_id
                != (#[trigger] semantic@[k2]).document_id,
        forall|k1: int, k2: int|
            0 <= k1 < k2 < keyword@.len() ==> (#[trigger] keyword@[k1]).document_id
                != (#[trigger] keyword@[k2]).document_id,
    ensures
        forall|k: int|
            0 <= k < out@.len() ==> spec_fused_entry_ok(
                semantic@,
                keyword@,
                semantic_weight as int,
                keyword_weight as int,
                #[trigger] out@[k],
            ),
        forall|k: int| 0 <= k < out@.len() ==> 0 <= (#[trigger] out@[k]).score <= 2000,
        forall|k1: int, k2: int|
            0 <= k1 < k2 < out@.len() ==> (#[trigger] out@[k1]).document_id
                != (#[trigger] out@[k2]).document_id,
        forall|k0: int|
            0 <= k0 < semantic@.len() ==> exists|k: int|
                0 <= k < out@.len() && (#[trigger] out@[k]).document_id == (
                #[trigger] semantic@[k0]).document_id,
        forall|k0: int|
            0 <= k0 < keyword@.len() ==> exists|k: int|
                0 <= k < out@.len() && (#[trigger] out@[k]).document_id == (
                #[trigger] keyword@[k0]).document_id,
{
    let ns = semantic.len();
    let nk = keyword.len();
    let mut out: Vec<SearchResult> = Vec::new();
    let mut i: usize = 0;
    while i < ns
        invariant
            0 <= i <= ns,
            ns == semantic@.len(),
            0 <= semantic_weight <= 1000,
            0 <= keyword_weight <= 1000,
            forall|k: int|
                0 <= k < semantic@.len() ==> 0 <= (#[trigger] semantic@[k]).score <= 1000,
            forall|k: int|
                0 <= k < keyword@.len() ==> 0 <= (#[trigger] keyword@[k]).score <= 1000,
            forall|k1: int, k2: int|
                0 <= k1 < k2 < semantic@.len() ==> (#[trigger] semantic@[k1]).document_id
                    != (#[trigger] semantic@[k2]).document_id,
            forall|k1: int, k2: int|
                0 <= k1 < k2 < keyword@.len() ==> (#[trigger] keyword@[k1]).document_id
                    != (#[trigger] keyword@[k2]).document_id,
            out@.len() == i,
            forall|k: int|
                0 <= k < i ==> (#[trigger] out@[k]).document_id == semantic@[k].document_id,
            forall|k: int|
                0 <= k < i ==> spec_fused_entry_ok(
                    semantic@,
                    keyword@,
                    semantic_weight as int,
                    keyword_weight as int,
                    #[trigger] out@[k],
                ),
            forall|k: int| 0 <= k < i ==> 0 <= (#[trigger] out@[k]).score <= 2000,
        decreases ns - i,
    {
        let ghost prev = out@;
        let (_found, ks) = find_score(keyword, semantic[i].document_id);
        proof {
            lemma_entry_lookup(semantic@, i as int);
            if !spec_in_results(keyword@, semantic@[i as int].document_id) {
                lemma_score_of_absent(keyword@, semantic@[i as int].document_id);
            } else {
                lemma_score_of_bounded(keyword@, semantic@[i as int].document_id);
            }
        }
        let sc = combine(semantic_weight, semantic[i].score, keyword_weight, ks);
        let meta = match &semantic[i].metadata {
            Some(m) => Some(m.clone()),
            None => None,
        };
        let row = SearchResult::new(
            semantic[i].document_id,
            semantic[i].content.clone(),
            sc,
            meta,
            semantic[i].collection_name.clone(),
        );
        out.push(row);
        proof {
            assert forall|k: int| 0 <= k < i + 1 implies spec_fused_entry_ok(
                semantic@,
                keyword@,
                semantic_weight as int,
                keyword_weight as int,
                #[trigger] out@[k],
            ) && out@[k].document_id == semantic@[k].document_id && 0 <= out@[k].score
                <= 2000 by {
                if k < i {
                    assert(out@[k] == prev[k]);
                }
            }
        }
        i = i + 1;
    }
    let mut j: usize = 0;
    while j < nk
        invariant
            0 <= j <= nk,
            ns == semantic@.len(),
            nk == keyword@.len(),
            0 <= semantic_weight <= 1000,
            0 <= keyword_weight <= 1000,
            forall|k: int|
                0 <= k < semantic@.len() ==> 0 <= (#[trigger] semantic@[k]).score <= 1000,
            forall|k: int|
                0 <= k < keyword@.len() ==> 0 <= (#[trigger] keyword@[k]).score <= 1000,
            forall|k1: int, k2: int|
                0 <= k1 < k2 < semantic@.len() ==> (#[trigger] semantic@[k1]).document_id
                    != (#[trigger] semantic@[k2]).document_id,
            forall|k1: int, k2: int|
                0 <= k1 < k2 < keyword@.len() ==> (#[trigger] keyword@[k1]).document_id
                    != (#[trigger] keyword@[k2]).document_id,
            out@.len() >= ns,
            forall|k: int|
                0 <= k < ns ==> (#[trigger] out@[k]).document_id == semantic@[k].document_id,
            forall|k: int|
                ns <= k < out@.len() ==> !spec_in_results(
                    semantic@,
                    (#[trigger] out@[k]).document_id,
                ),
            forall|k: int|
                ns <= k < out@.len() ==> exists|jj: int|
                    0 <= jj < j && (#[trigger] out@[k]).document_id
                        == keyword@[jj].document_id,
            forall|k: int|
                0 <= k < out@.len() ==> spec_fused_entry_ok(
                    semantic@,
                    keyword@,
                    semantic_weight as int,
                    keyword_weight as int,
                    #[trigger] out@[k],
                ),
            forall|k: int| 0 <= k < out@.len() ==> 0 <= (#[trigger] out@[k]).score <= 2000,
            forall|k1: int, k2: int|
                0 <= k1 < k2 < out@.len() ==> (#[trigger] out@[k1]).document_id
                    != (#[trigger] out@[k2]).document_id,
            forall|k0: int|
                0 <= k0 < j ==> exists|k: int|
                    0 <= k < out@.len() && (#[trigger] out@[k]).document_id == (
                    #[trigger] keyword@[k0]).document_id,
        decreases nk - j,
    {
        let ghost prev = out@;
        let (found, _s) = find_score(semantic, keyword[j].document_id);
        if !found {
            proof {
                lemma_entry_lookup(keyword@, j as int);
                lemma_score_of_absent(semantic@, keyword@[j as int].document_id);
            }
            let sc = combine(semantic_weight, 0, keyword_weight, keyword[j].score);
            let meta = match &keyword[j].metadata {
                Some(m) => Some(m.clone()),
                None => None,
            };
            let row = SearchResult::new(
                keyword[j].document_id,
                keyword[j].content.clone(),
                sc,
                meta,
                keyword[j].collection_name.clone(),
            );
            out.push(row);
            proof {
                assert forall|k1: int, k2: int|
                    0 <= k1 < k2 < out@.len() implies (#[trigger] out@[k1]).document_id
                    != (#[trigger] out@[k2]).document_id by {
                    if k2 == out@.len() - 1 {
                        assert(out@[k1] == prev[k1]);
                        assert(out@[k2].document_id == keyword@[j as int].document_id);
                        if k1 < ns {
                            assert(prev[k1].document_id == semantic@[k1].document_id);
                            if prev[k1].document_id == out@[k2].document_id {
                                assert(spec_in_results(
                                    semantic@,
                                    keyword@[j as int].document_id,
                                )) by {
                                    assert(semantic@[k1].document_id
                                        == keyword@[j as int].document_id);
                                }
                            }
                        } else {
                            let jj = choose|jj: int|
                                0 <= jj < j && (#[trigger] prev[k1]).document_id
                                    == keyword@[jj].document_id;
                            assert(keyword@[jj].document_id != keyword@[j as int].document_id);
                        }
                    } else {
                        assert(out@[k1] == prev[k1]);
                        assert(out@[k2] == prev[k2]);
                    }
                }
            }
        }
        proof {
            assert forall|k0: int| 0 <= k0 < j + 1 implies exists|k: int|
                0 <= k < out@.len() && (#[trigger] out@[k]).document_id == (
                #[trigger] keyword@[k0]).document_id by {
                if k0 < j {
                    let k = choose|k: int|
                        0 <= k < prev.len() && (#[trigger] prev[k]).document_id
                            == keyword@[k0].document_id;
                    assert(out@[k] == prev[k]);
                } else {
                    if spec_in_results(semantic@, keyword@[j as int].document_id) {
                        let k = choose|k: int|
                            0 <= k < semantic@.len() && (#[trigger] semantic@[k]).document_id
                                == keyword@[j as int].document_id;
                        assert(out@[k].document_id == keyword@[j as int].document_id);
                    } else {
                        assert(out@[out@.len() - 1].document_id
                            == keyword@[j as int].document_id);
                    }
                }
            }
        }
        j = j + 1;
    }
    proof {
        assert forall|k0: int| 0 <= k0 < semantic@.len() implies exists|k: int|
            0 <= k < out@.len() && (#[trigger] out@[k]).document_id == (
            #[trigger] semantic@[k0]).document_id by {
            assert(out@[k0].document_id == semantic@[k0].document_id);
        }
    }
    out
}

/// A result list never scores a present document outside its own score
/// range.
proof fn lemma_score_of_bounded(v: Seq<SearchResult>, id: i64)
    requires
        forall|k: int| 0 <= k < v.len() ==> 0 <= (#[trigger] v[k]).score <= 1000,
        spec_in_results(v, id),
    ensures
        0 <= spec_score_of(v, id) <= 1000,
    decreases v.len(),
{
    if v.len() > 0 {
        if v[0].document_id == id {
        } else {
            assert(spec_in_results(v.drop_first(), id)) by {
                let k = choose|k: int|
                    0 <= k < v.len() && (#[trigger] v[k]).document_id == id;
                assert(v.drop_first()[k - 1].document_id == id);
            }
            assert(forall|k: int|
                0 <= k < v.drop_first().len() ==> 0 <= (#[trigger] v.drop_first()[k]).score
                    <= 1000) by {
                assert(forall|k: int|
                    0 <= k < v.drop_first().len() ==> #[trigger] v.drop_first()[k] == v[k
                        + 1]);
            }
            lemma_score_of_bounded(v.drop_first(), id);
        }
    }
}


/// What the fusion stage promises of the final hybrid results `v` built
/// from candidate lists `sem` and `kwr`: sorted, at most `top_k` entries,
/// every entry a correctly fused distinct document, and every candidate
/// represented unless `top_k` is exhausted.
#[verifier::opaque]
pub open spec fn spec_fused_results_ok(
    sem: Seq<SearchResult>,
    kwr: Seq<SearchResult>,
    sw: int,
    kw: int,
    top_k: int,
    v: Seq<SearchResult>,
) -> bool {
    &&& spec_results_sorted(v)
    &&& v.len() <= top_k
    &&& forall|k: int|
        0 <= k < v.len() ==> spec_fused_entry_ok(sem, kwr, sw, kw, #[trigger] v[k])
    &&& forall|k1: int, k2: int|
        0 <= k1 < k2 < v.len() ==> (#[trigger] v[k1]).document_id
            != (#[trigger] v[k2]).document_id
    &&& forall|k0: int|
        0 <= k0 < sem.len() && !spec_in_results(v, (#[trigger] sem[k0]).document_id) ==> {
            &&& v.len() == top_k
            &&& v.len() > 0 ==> spec_combine(
                sw,
                spec_score_of(sem, sem[k0].document_id),
                kw,
                spec_score_of(kwr, sem[k0].document_id),
            ) <= v[v.len() - 1].score
        }
    &&& forall|k0: int|
        0 <= k0 < kwr.len() && !spec_in_results(v, (#[trigger] kwr[k0]).document_id) ==> {
            &&& v.len() == top_k
            &&& v.len() > 0 ==> spec_combine(
                sw,
                spec_score_of(sem, kwr[k0].document_id),
                kw,
                spec_score_of(kwr, kwr[k0].document_id),
            ) <= v[v.len() - 1].score
        }
}

/// A sorted permutation of fused results keeps every per-entry fact and
/// the distinctness of ids.
proof fn lemma_fused_permutation_transfer(
    sem: Seq<SearchResult>,
    kwr: Seq<SearchResult>,
    sw: int,
    kw: int,
    unsorted: Seq<SearchResult>,
    sorted: Seq<SearchResult>,
)
    requires
        sorted.to_multiset() == unsorted.to_multiset(),
        sorted.len() == unsorted.len(),
        forall|k: int|
            0 <= k < unsorted.len() ==> spec_fused_entry_ok(
                sem,
                kwr,
                sw,
                kw,
                #[trigger] unsorted[k],
            ),
        forall|k1: int, k2: int|
            0 <= k1 < k2 < unsorted.len() ==> (#[trigger] unsorted[k1]).document_id
                != (#[trigger] unsorted[k2]).document_id,
    ensures
        forall|k: int|
            0 <= k < sorted.len() ==> spec_fused_entry_ok(sem, kwr, sw, kw, #[trigger] sorted[k]),
        forall|k1: int, k2: int|
            0 <= k1 < k2 < sorted.len() ==> (#[trigger] sorted[k1]).document_id
                != (#[trigger] sorted[k2]).document_id,
{
    assert forall|k1: int, k2: int|
        0 <= k1 < k2 < unsorted.len() implies unsorted[k1] != unsorted[k2] by {
        assert(unsorted[k1].document_id != unsorted[k2].document_id);
    }
    assert(unsorted.no_duplicates());
    unsorted.lemma_multiset_has_no_duplicates();
    sorted.lemma_multiset_has_no_duplicates_conv();
    assert forall|k: int| 0 <= k < sorted.len() implies spec_fused_entry_ok(
        sem,
        kwr,
        sw,
        kw,
        #[trigger] sorted[k],
    ) by {
        vstd::seq_lib::to_multiset_contains(sorted, sorted[k]);
        vstd::seq_lib::to_multiset_contains(unsorted, sorted[k]);
        assert(sorted.contains(sorted[k]));
        assert(unsorted.contains(sorted[k]));
        let k0 = choose|k0: int| 0 <= k0 < unsorted.len() && unsorted[k0] == sorted[k];
        assert(unsorted[k0] == sorted[k]);
    }
    assert forall|k1: int, k2: int|
        0 <= k1 < k2 < sorted.len() implies (#[trigger] sorted[k1]).document_id
        != (#[trigger] sorted[k2]).document_id by {
        if sorted[k1].document_id == sorted[k2].document_id {
            vstd::seq_lib::to_multiset_contains(sorted, sorted[k1]);
            vstd::seq_lib::to_multiset_contains(unsorted, sorted[k1]);
            vstd::seq_lib::to_multiset_contains(sorted, sorted[k2]);
            vstd::seq_lib::to_multiset_contains(unsorted, sorted[k2]);
            assert(sorted.contains(sorted[k1]));
            assert(sorted.contains(sorted[k2]));
            assert(unsorted.contains(sorted[k1]));
            assert(unsorted.contains(sorted[k2]));
            let a = choose|a: int| 0 <= a < unsorted.len() && unsorted[a] == sorted[k1];
            let b = choose|b: int| 0 <= b < unsorted.len() && unsorted[b] == sorted[k2];
            if a != b {
                assert(unsorted[a].document_id != unsorted[b].document_id);
            }
            assert(sorted[k1] == sorted[k2]);
            assert(sorted.no_duplicates());
        }
    }
}

/// What a hybrid search promises of its results: they are the fusion,
/// ordered and truncated to `top_k`, of one semantic and one keyword
/// candidate list, each drawn with `2 * top_k` slots from the same store,
/// query and filter.
#[verifier::opaque]
pub open spec fn spec_hybrid_results_ok(
    db: Database,
    q: Seq<char>,
    qe: Seq<i64>,
    fv: Option<Seq<i64>>,
    top_k: int,
    threshold: int,
    sw: int,
    kw: int,
    v: Seq<SearchResult>,
) -> bool {
    exists|sem: Seq<SearchResult>, kwr: Seq<SearchResult>|
        {
            &&& #[trigger] spec_semantic_results_ok(db, qe, fv, 2 * top_k, threshold, sem)
            &&& #[trigger] spec_keyword_results_ok(db, q, fv, 2 * top_k, kwr)
            &&& spec_fused_results_ok(sem, kwr, sw, kw, top_k, v)
        }
}

impl RAGEnricher {
    /// Hybrid search: semantic and keyword search run independently, each
    /// over twice `top_k` to reduce the chance that fusion loses true
    /// top-`top_k` members; the candidate sets are merged by document
    /// identity, scores combined by the weighted sum, and the fused list
    /// is returned in non-increasing score order, truncated to `top_k`.
    pub fn hybrid_search(
        &self,
        query: &str,
        query_embedding: &[i64],
        collection_ids: Option<&Vec<i64>>,
        top_k: usize,
        threshold: i64,
        semantic_weight: i64,
        keyword_weight: i64,
    ) -> (r: Result<Vec<SearchResult>, Error>)
        requires
            self.db.wf(),
            components_bounded(query_embedding@, EMBEDDING_COMPONENT_LIMIT as int),
            query_embedding@.len() <= EMBEDDING_LENGTH_LIMIT,
            0 <= threshold <= 1000,
            0 <= semantic_weight <= 1000,
            0 <= keyword_weight <= 1000,
            top_k <= 0x7FFF_FFFF,
        ensures
            r is Ok,
            r matches Ok(v) ==> spec_hybrid_results_ok(
                self.db,
                query@,
                query_embedding@,
                spec_filter_view(collection_ids),
                top_k as int,
                threshold as int,
                semantic_weight as int,
                keyword_weight as int,
                v@,
            ),
    {
        let sem = match self.semantic_search(
            query_embedding,
            collection_ids,
            2 * top_k,
            threshold,
        ) {
            Ok(v) => v,
            Err(e) => {
                return Err(e);
            },
        };
        let kwr = match self.keyword_search(query, collection_ids, 2 * top_k) {
            Ok(v) => v,
            Err(e) => {
                return Err(e);
            },
        };
        proof {
            reveal(spec_semantic_results_ok);
            reveal(spec_keyword_results_ok);
            assert(forall|k: int|
                0 <= k < sem@.len() ==> 0 <= (#[trigger] sem@[k]).score <= 1000);
            assert(forall|k: int|
                0 <= k < kwr@.len() ==> 0 <= (#[trigger] kwr@[k]).score <= 1000);
            assert(forall|k1: int, k2: int|
                0 <= k1 < k2 < sem@.len() ==> (#[trigger] sem@[k1]).document_id
                    != (#[trigger] sem@[k2]).document_id);
            assert(forall|k1: int, k2: int|
                0 <= k1 < k2 < kwr@.len() ==> (#[trigger] kwr@[k1]).document_id
                    != (#[trigger] kwr@[k2]).document_id);
        }
        let ghost gsem = sem@;
        let ghost gkwr = kwr@;
        let fused = finish_hybrid(sem, kwr, semantic_weight, keyword_weight, top_k);
        proof {
            reveal(spec_hybrid_results_ok);
            let fv = spec_filter_view(collection_ids);
            assert(exists|sem2: Seq<SearchResult>, kwr2: Seq<SearchResult>|
                {
                    &&& #[trigger] spec_semantic_results_ok(
                        self.db,
                        query_embedding@,
                        fv,
                        2 * top_k as int,
                        threshold as int,
                        sem2,
                    )
                    &&& #[trigger] spec_keyword_results_ok(
                        self.db,
                        query@,
                        fv,
                        2 * top_k as int,
                        kwr2,
                    )
                    &&& spec_fused_results_ok(
                        sem2,
                        kwr2,
                        semantic_weight as int,
                        keyword_weight as int,
                        top_k as int,
                        fused@,
                    )
                }) by {
                assert(spec_semantic_results_ok(
                    self.db,
                    query_embedding@,
                    fv,
                    2 * top_k as int,
                    threshold as int,
                    gsem,
                ));
                assert(spec_keyword_results_ok(self.db, query@, fv, 2 * top_k as int, gkwr));
                assert(spec_fused_results_ok(
                    gsem,
                    gkwr,
                    semantic_weight as int,
                    keyword_weight as int,
                    top_k as int,
                    fused@,
                ));
            }
        }
        Ok(fused)
    }
}


/// Every candidate represented among the unsorted fused entries stays
/// represented in any permutation of them.
proof fn lemma_fused_membership_transfer(
    cands: Seq<SearchResult>,
    unsorted: Seq<SearchResult>,
    sorted: Seq<SearchResult>,
)
    requires
        sorted.to_multiset() == unsorted.to_multiset(),
        forall|k0: int|
            0 <= k0 < cands.len() ==> exists|k: int|
                0 <= k < unsorted.len() && (#[trigger] unsorted[k]).document_id == (
                #[trigger] cands[k0]).document_id,
    ensures
        forall|k0: int|
            0 <= k0 < cands.len() ==> exists|k: int|
                0 <= k < sorted.len() && (#[trigger] sorted[k]).document_id == (
                #[trigger] cands[k0]).document_id,
{
    assert forall|k0: int| 0 <= k0 < cands.len() implies exists|k: int|
        0 <= k < sorted.len() && (#[trigger] sorted[k]).document_id == (
        #[trigger] cands[k0]).document_id by {
        let u = choose|u: int|
            0 <= u < unsorted.len() && (#[trigger] unsorted[u]).document_id
                == cands[k0].document_id;
        vstd::seq_lib::to_multiset_contains(unsorted, unsorted[u]);
        vstd::seq_lib::to_multiset_contains(sorted, unsorted[u]);
        assert(unsorted.contains(unsorted[u]));
        assert(sorted.contains(unsorted[u]));
        let k = choose|k: int| 0 <= k < sorted.len() && sorted[k] == unsorted[u];
        assert(sorted[k].document_id == cands[k0].document_id);
    }
}


/// Fuses, orders and truncates the two candidate lists into the final
/// hybrid result.
fn finish_hybrid(
    sem: Vec<SearchResult>,
    kwr: Vec<SearchResult>,
    semantic_weight: i64,
    keyword_weight: i64,
    top_k: usize,
) -> (v: Vec<SearchResult>)
    requires
        0 <= semantic_weight <= 1000,
        0 <= keyword_weight <= 1000,
        forall|k: int| 0 <= k < sem@.len() ==> 0 <= (#[trigger] sem@[k]).score <= 1000,
        forall|k: int| 0 <= k < kwr@.len() ==> 0 <= (#[trigger] kwr@[k]).score <= 1000,
        forall|k1: int, k2: int|
            0 <= k1 < k2 < sem@.len() ==> (#[trigger] sem@[k1]).document_id
                != (#[trigger] sem@[k2]).document_id,
        forall|k1: int, k2: int|
            0 <= k1 < k2 < kwr@.len() ==> (#[trigger] kwr@[k1]).document_id
                != (#[trigger] kwr@[k2]).document_id,
    ensures
        spec_fused_results_ok(
            sem@,
            kwr@,
            semantic_weight as int,
            keyword_weight as int,
            top_k as int,
            v@,
        ),
{
    let mut fused = fuse_candidates(&sem, &kwr, semantic_weight, keyword_weight);
    let ghost unsorted = fused@;
    sort_results_desc(&mut fused);
    proof {
        lemma_fused_permutation_transfer(
            sem@,
            kwr@,
            semantic_weight as int,
            keyword_weight as int,
            unsorted,
            fused@,
        );
        lemma_fused_membership_transfer(sem@, unsorted, fused@);
        lemma_fused_membership_transfer(kwr@, unsorted, fused@);
    }
    while fused.len() > top_k
        invariant
            spec_results_sorted(fused@),
            forall|k: int|
                0 <= k < fused@.len() ==> spec_fused_entry_ok(
                    sem@,
                    kwr@,
                    semantic_weight as int,
                    keyword_weight as int,
                    #[trigger] fused@[k],
                ),
            forall|k1: int, k2: int|
                0 <= k1 < k2 < fused@.len() ==> (#[trigger] fused@[k1]).document_id
                    != (#[trigger] fused@[k2]).document_id,
            forall|k0: int|
                0 <= k0 < sem@.len() ==> (exists|k: int|
                    0 <= k < fused@.len() && (#[trigger] fused@[k]).document_id == (
                    #[trigger] sem@[k0]).document_id) || {
                    &&& fused@.len() >= top_k
                    &&& fused@.len() > 0 ==> spec_combine(
                        semantic_weight as int,
                        spec_score_of(sem@, sem@[k0].document_id),
                        keyword_weight as int,
                        spec_score_of(kwr@, sem@[k0].document_id),
                    ) <= fused@[fused@.len() - 1].score
                },
            forall|k0: int|
                0 <= k0 < kwr@.len() ==> (exists|k: int|
                    0 <= k < fused@.len() && (#[trigger] fused@[k]).document_id == (
                    #[trigger] kwr@[k0]).document_id) || {
                    &&& fused@.len() >= top_k
                    &&& fused@.len() > 0 ==> spec_combine(
                        semantic_weight as int,
                        spec_score_of(sem@, kwr@[k0].document_id),
                        keyword_weight as int,
                        spec_score_of(kwr@, kwr@[k0].document_id),
                    ) <= fused@[fused@.len() - 1].score
                },
        decreases fused@.len(),
    {
        let ghost pre = fused@;
        fused.pop();
        proof {
            assert(fused@ =~= pre.drop_last());
            assert forall|k0: int| 0 <= k0 < sem@.len() implies (exists|k: int|
                0 <= k < fused@.len() && (#[trigger] fused@[k]).document_id == (
                #[trigger] sem@[k0]).document_id) || {
                &&& fused@.len() >= top_k
                &&& fused@.len() > 0 ==> spec_combine(
                    semantic_weight as int,
                    spec_score_of(sem@, sem@[k0].document_id),
                    keyword_weight as int,
                    spec_score_of(kwr@, sem@[k0].document_id),
                ) <= fused@[fused@.len() - 1].score
            } by {
                if exists|k: int|
                    0 <= k < pre.len() && (#[trigger] pre[k]).document_id
                        == sem@[k0].document_id {
                    let k = choose|k: int|
                        0 <= k < pre.len() && (#[trigger] pre[k]).document_id
                            == sem@[k0].document_id;
                    if k < pre.len() - 1 {
                        assert(fused@[k].document_id == sem@[k0].document_id);
                    } else {
                        assert(spec_fused_entry_ok(
                            sem@,
                            kwr@,
                            semantic_weight as int,
                            keyword_weight as int,
                            pre[k],
                        ));
                        if fused@.len() > 0 {
                            assert(pre[pre.len() - 2].score >= pre[pre.len() - 1].score);
                        }
                    }
                } else {
                    if fused@.len() > 0 {
                        assert(pre[pre.len() - 2].score >= pre[pre.len() - 1].score);
                    }
                }
            }
            assert forall|k0: int| 0 <= k0 < kwr@.len() implies (exists|k: int|
                0 <= k < fused@.len() && (#[trigger] fused@[k]).document_id == (
                #[trigger] kwr@[k0]).document_id) || {
                &&& fused@.len() >= top_k
                &&& fused@.len() > 0 ==> spec_combine(
                    semantic_weight as int,
                    spec_score_of(sem@, kwr@[k0].document_id),
                    keyword_weight as int,
                    spec_score_of(kwr@, kwr@[k0].document_id),
                ) <= fused@[fused@.len() - 1].score
            } by {
                if exists|k: int|
                    0 <= k < pre.len() && (#[trigger] pre[k]).document_id
                        == kwr@[k0].document_id {
                    let k = choose|k: int|
                        0 <= k < pre.len() && (#[trigger] pre[k]).document_id
                            == kwr@[k0].document_id;
                    if k < pre.len() - 1 {
                        assert(fused@[k].document_id == kwr@[k0].document_id);
                    } else {
                        assert(spec_fused_entry_ok(
                            sem@,
                            kwr@,
                            semantic_weight as int,
                            keyword_weight as int,
                            pre[k],
                        ));
                        if fused@.len() > 0 {
                            assert(pre[pre.len() - 2].score >= pre[pre.len() - 1].score);
                        }
                    }
                } else {
                    if fused@.len() > 0 {
                        assert(pre[pre.len() - 2].score >= pre[pre.len() - 1].score);
                    }
                }
            }
        }
    }
    proof {
        reveal(spec_fused_results_ok);
    }
    fused
}


/// The collection names a search call asks for: one name, a list of
/// names, or none.
pub open spec fn spec_requested_names(
    collection: Option<&str>,
    collections: Option<&Vec<String>>,
) -> Option<Seq<Seq<char>>> {
    match collection {
        Some(n) => Some(seq![n@]),
        None => match collections {
            Some(ns) => Some(Seq::new(ns@.len(), |i: int| ns@[i]@)),
            None => None,
        },
    }
}

/// Every requested collection name is present in the store.
pub open spec fn spec_all_names_exist(
    colls: Seq<crate::store::CollectionRec>,
    req: Option<Seq<Seq<char>>>,
) -> bool {
    match req {
        None => true,
        Some(names) => forall|i: int|
            0 <= i < names.len() ==> spec_has_coll_named(colls, #[trigger] names[i]),
    }
}

/// The ids the requested names resolve to, in order.
pub open spec fn spec_resolved_ids(
    colls: Seq<crate::store::CollectionRec>,
    req: Option<Seq<Seq<char>>>,
) -> Option<Seq<i64>> {
    match req {
        None => None,
        Some(names) => Some(
            Seq::new(
                names.len(),
                |i: int| crate::store::spec_coll_id_by_name(colls, names[i]),
            ),
        ),
    }
}

/// What `search` promises of its results under each mode.
pub open spec fn spec_search_results_ok(
    db: Database,
    q: Seq<char>,
    qe: Seq<i64>,
    rf: Option<Seq<i64>>,
    top_k: int,
    threshold: int,
    mode: crate::search::SearchMode,
    sw: int,
    kw: int,
    v: Seq<SearchResult>,
) -> bool {
    match mode {
        crate::search::SearchMode::Semantic => spec_semantic_results_ok(
            db,
            qe,
            rf,
            top_k,
            threshold,
            v,
        ),
        crate::search::SearchMode::Keyword => spec_keyword_results_ok(db, q, rf, top_k, v),
        crate::search::SearchMode::Hybrid => spec_hybrid_results_ok(
            db,
            q,
            qe,
            rf,
            top_k,
            threshold,
            sw,
            kw,
            v,
        ),
    }
}

/// The hybrid weights a search call uses: the supplied pair, or the
/// default `(0.7, 0.3)`.
pub open spec fn spec_weights(hybrid_weights: Option<(i64, i64)>) -> (int, int) {
    match hybrid_weights {
        Some((a, b)) => (a as int, b as int),
        None => (700int, 300int),
    }
}

impl RAGEnricher {
    /// Resolves the requested collection names to ids, failing with
    /// `NotFound` before any scoring work when a name is absent.
    pub fn get_collection_ids(
        &self,
        collection: Option<&str>,
        collections: Option<&Vec<String>>,
    ) -> (r: Result<Option<Vec<i64>>, Error>)
        requires
            self.db.wf(),
        ensures
            r is Ok <==> spec_all_names_exist(
                self.db.collections@,
                spec_requested_names(collection, collections),
            ),
            r matches Err(e) ==> e is NotFound,
            r matches Ok(f) ==> match f {
                None => spec_requested_names(collection, collections) is None,
                Some(ids) => spec_resolved_ids(
                    self.db.collections@,
                    spec_requested_names(collection, collections),
                ) == Some(ids@),
            },
    {
        let ghost req = spec_requested_names(collection, collections);
        proof {
            if collection is Some {
                assert(req->0 =~= seq![collection->0@]);
                assert(req->0[0] == collection->0@);
                assert(req->0.len() == 1);
            }
        }
        match collection {
            Some(name) => {
                match self.db.coll_index_by_name(name) {
                    Some(ci) => {
                        let mut ids: Vec<i64> = Vec::new();
                        ids.push(self.db.collections[ci].id);
                        proof {
                            let k = crate::store::spec_coll_idx_by_name(
                                self.db.collections@,
                                name@,
                            );
                            assert(0 <= k < self.db.collections@.len()
                                && self.db.collections@[k].name@ == name@);
                            assert(ids@ =~= spec_resolved_ids(self.db.collections@, req)->0);
                            assert forall|j: int| 0 <= j < req->0.len() implies
                                spec_has_coll_named(
                                self.db.collections@,
                                #[trigger] req->0[j],
                            ) by {
                                assert(req->0[j] == name@);
                                assert(self.db.collections@[ci as int].name@ == name@);
                            }
                        }
                        Ok(Some(ids))
                    },
                    None => {
                        proof {
                            assert(!spec_all_names_exist(self.db.collections@, req)) by {
                                assert(req->0[0] == name@);
                            }
                        }
                        Err(Error::NotFound(String::from_str("collection not found")))
                    },
                }
            },
            None => match collections {
                Some(names) => {
                    let n = names.len();
                    let mut ids: Vec<i64> = Vec::new();
                    let mut i: usize = 0;
                    while i < n
                        invariant
                            self.db.wf(),
                            0 <= i <= n,
                            n == names@.len(),
                            req == spec_requested_names(collection, collections),
                            req is Some,
                            req->0.len() == n,
                            forall|j: int| 0 <= j < n ==> #[trigger] req->0[j] == names@[j]@,
                            ids@.len() == i,
                            forall|j: int|
                                0 <= j < i ==> spec_has_coll_named(
                                    self.db.collections@,
                                    #[trigger] req->0[j],
                                ) && ids@[j] == crate::store::spec_coll_id_by_name(
                                    self.db.collections@,
                                    req->0[j],
                                ),
                        decreases n - i,
                    {
                        match self.db.coll_index_by_name(names[i].as_str()) {
                            Some(ci) => {
                                ids.push(self.db.collections[ci].id);
                                proof {
                                    let k = crate::store::spec_coll_idx_by_name(
                                        self.db.collections@,
                                        names@[i as int]@,
                                    );
                                    assert(spec_has_coll_named(
                                        self.db.collections@,
                                        names@[i as int]@,
                                    ));
                                    assert(0 <= k < self.db.collections@.len()
                                        && self.db.collections@[k].name@ == names@[i as int]@);
                                }
                            },
                            None => {
                                proof {
                                    assert(!spec_all_names_exist(self.db.collections@, req))
                                        by {
                                        assert(req->0[i as int] == names@[i as int]@);
                                    }
                                }
                                return Err(Error::NotFound(String::from_str(
                                    "collection not found",
                                )));
                            },
                        }
                        i = i + 1;
                    }
                    proof {
                        assert(ids@ =~= spec_resolved_ids(self.db.collections@, req)->0);
                    }
                    Ok(Some(ids))
                },
                None => Ok(None),
            },
        }
    }

    /// The multi-modal search entry point: resolves the collection filter,
    /// then dispatches to the semantic, keyword or hybrid scorer. Hybrid
    /// weights default to `(0.7, 0.3)` when none are supplied.
    pub fn search(
        &self,
        query: &str,
        query_embedding: &[i64],
        collection: Option<&str>,
        collections: Option<&Vec<String>>,
        top_k: usize,
        threshold: i64,
        mode: crate::search::SearchMode,
        hybrid_weights: Option<(i64, i64)>,
    ) -> (r: Result<Vec<SearchResult>, Error>)
        requires
            self.db.wf(),
            components_bounded(query_embedding@, EMBEDDING_COMPONENT_LIMIT as int),
            query_embedding@.len() <= EMBEDDING_LENGTH_LIMIT,
            0 <= threshold <= 1000,
            match hybrid_weights {
                Some((a, b)) => 0 <= a <= 1000 && 0 <= b <= 1000,
                None => true,
            },
            top_k <= 0x7FFF_FFFF,
        ensures
            r is Ok <==> spec_all_names_exist(
                self.db.collections@,
                spec_requested_names(collection, collections),
            ),
            r matches Err(e) ==> e is NotFound,
            r matches Ok(v) ==> spec_search_results_ok(
                self.db,
                query@,
                query_embedding@,
                spec_resolved_ids(
                    self.db.collections@,
                    spec_requested_names(collection, collections),
                ),
                top_k as int,
                threshold as int,
                mode,
                spec_weights(hybrid_weights).0,
                spec_weights(hybrid_weights).1,
                v@,
            ),
    {
        let ids = match self.get_collection_ids(collection, collections) {
            Ok(ids) => ids,
            Err(e) => {
                return Err(e);
            },
        };
        let filt: Option<&Vec<i64>> = match &ids {
            Some(v) => Some(v),
            None => None,
        };
        proof {
            assert(crate::query::spec_filter_view(filt) == spec_resolved_ids(
                self.db.collections@,
                spec_requested_names(collection, collections),
            ));
        }
        match mode {
            crate::search::SearchMode::Semantic => self.semantic_search(
                query_embedding,
                filt,
                top_k,
                threshold,
            ),
            crate::search::SearchMode::Keyword => self.keyword_search(query, filt, top_k),
            crate::search::SearchMode::Hybrid => {
                let (sw, kw) = match hybrid_weights {
                    Some((a, b)) => (a, b),
                    None => (700, 300),
                };
                self.hybrid_search(
                    query,
                    query_embedding,
                    filt,
                    top_k,
                    threshold,
                    sw,
                    kw,
                )
            },
        }
    }

    /// Runs a search and renders the ranked sources into a context block
    /// ready for prompt injection.
    pub fn enrich(
        &self,
        query: &str,
        query_embedding: &[i64],
        collection: Option<&str>,
        collections: Option<&Vec<String>>,
        top_k: usize,
        threshold: i64,
        mode: crate::search::SearchMode,
        hybrid_weights: Option<(i64, i64)>,
    ) -> (r: Result<crate::search::EnrichResult, Error>)
        requires
            self.db.wf(),
            components_bounded(query_embedding@, EMBEDDING_COMPONENT_LIMIT as int),
            query_embedding@.len() <= EMBEDDING_LENGTH_LIMIT,
            0 <= threshold <= 1000,
            match hybrid_weights {
                Some((a, b)) => 0 <= a <= 1000 && 0 <= b <= 1000,
                None => true,
            },
            top_k <= 0x7FFF_FFFF,
        ensures
            r is Ok <==> spec_all_names_exist(
                self.db.collections@,
                spec_requested_names(collection, collections),
            ),
            r matches Err(e) ==> e is NotFound,
            r matches Ok(er) ==> {
                &&& er.question@ == query@
                &&& er.context@ == crate::search::spec_context(er.sources@)
                &&& spec_search_results_ok(
                    self.db,
                    query@,
                    query_embedding@,
                    spec_resolved_ids(
                        self.db.collections@,
                        spec_requested_names(collection, collections),
                    ),
                    top_k as int,
                    threshold as int,
                    mode,
                    spec_weights(hybrid_weights).0,
                    spec_weights(hybrid_weights).1,
                    er.sources@,
                )
            },
    {
        let sources = match self.search(
            query,
            query_embedding,
            collection,
            collections,
            top_k,
            threshold,
            mode,
            hybrid_weights,
        ) {
            Ok(v) => v,
            Err(e) => {
                return Err(e);
            },
        };
        Ok(crate::search::EnrichResult::new(query.to_owned(), sources))
    }
}


/// The store has room for `n` more documents, ids and clock ticks.
pub open spec fn spec_has_capacity_for(db: Database, n: int) -> bool {
    &&& db.next_document_id + n <= 0x7FFF_FFFF_FFFF_FFFF
    &&& db.clock + n <= 0xFFFF_FFFF_FFFF_FFFF
    &&& db.documents@.len() + n <= crate::store::STORE_CAPACITY
    &&& db.next_collection_id < 0x7FFF_FFFF_FFFF_FFFF
    &&& db.collections@.len() < crate::store::STORE_CAPACITY
}

/// Every metadata text in the optional batch is well-formed JSON.
pub open spec fn spec_batch_metadata_ok(metadata: Option<&Vec<String>>) -> bool {
    match metadata {
        Some(ms) => forall|i: int|
            0 <= i < ms@.len() ==> crate::metadata::json_wellformed(#[trigger] ms@[i]@),
        None => true,
    }
}

impl RAGEnricher {
    /// Adds a batch of documents to the named collection, each with its
    /// precomputed embedding and optional metadata. The batch is not
    /// transactional: when one addition fails, the documents added before
    /// it remain in the store.
    pub fn add_documents(
        &mut self,
        documents: &Vec<String>,
        collection: &str,
        embeddings: &Vec<Vec<i64>>,
        metadata: Option<&Vec<String>>,
    ) -> (r: Result<Vec<i64>, Error>)
        requires
            old(self).db.wf(),
            embeddings@.len() == documents@.len(),
            match metadata {
                Some(ms) => ms@.len() == documents@.len(),
                None => true,
            },
            forall|i: int|
                0 <= i < embeddings@.len() ==> components_bounded(
                    (#[trigger] embeddings@[i])@,
                    EMBEDDING_COMPONENT_LIMIT as int,
                ) && embeddings@[i]@.len() <= EMBEDDING_LENGTH_LIMIT,
        ensures
            final(self).db.wf(),
            final(self).db.collections@ == old(self).db.collections@,
            final(self).db.documents@.len() >= old(self).db.documents@.len(),
            final(self).db.documents@.take(old(self).db.documents@.len() as int) == old(
                self,
            ).db.documents@,
            !spec_has_coll_named(old(self).db.collections@, collection@) ==> {
                &&& r is Err
                &&& r->Err_0 is NotFound
                &&& *final(self) == *old(self)
            },
            r is Err ==> {
                let k = final(self).db.documents@.len() - old(self).db.documents@.len();
                &&& 0 <= k <= documents@.len()
                &&& forall|t: int|
                    0 <= t < k ==> {
                        let d = #[trigger] final(self).db.documents@[old(
                            self,
                        ).db.documents@.len() + t];
                        &&& d.id == old(self).db.next_document_id + t
                        &&& d.content@ == documents@[t]@
                        &&& d.embedding@ == embeddings@[t]@
                        &&& match (d.metadata, metadata) {
                            (Some(a), Some(ms)) => a@ == ms@[t]@,
                            (None, None) => true,
                            _ => false,
                        }
                    }
            },
            spec_has_coll_named(old(self).db.collections@, collection@)
                && spec_batch_metadata_ok(metadata) && spec_has_capacity_for(
                old(self).db,
                documents@.len() as int,
            ) ==> {
                &&& r is Ok
                &&& r->Ok_0@.len() == documents@.len()
                &&& forall|i: int|
                    0 <= i < documents@.len() ==> #[trigger] r->Ok_0@[i] == old(
                        self,
                    ).db.next_document_id + i
                &&& final(self).db.documents@.len() == old(self).db.documents@.len()
                    + documents@.len()
                &&& forall|i: int|
                    0 <= i < documents@.len() ==> {
                        let d = #[trigger] final(self).db.documents@[old(
                            self,
                        ).db.documents@.len() + i];
                        &&& d.id == old(self).db.next_document_id + i
                        &&& d.content@ == documents@[i]@
                        &&& d.embedding@ == embeddings@[i]@
                        &&& match (d.metadata, metadata) {
                            (Some(a), Some(ms)) => a@ == ms@[i]@,
                            (None, None) => true,
                            _ => false,
                        }
                    }
            },
    {
        if self.db.coll_index_by_name(collection).is_none() {
            return Err(Error::NotFound(String::from_str("collection not found")));
        }
        let n = documents.len();
        let mut ids: Vec<i64> = Vec::new();
        let mut i: usize = 0;
        let ghost orig = *old(self);
        while i < n
            invariant
                self.db.wf(),
                spec_has_coll_named(orig.db.collections@, collection@),
                0 <= i <= n,
                n == documents@.len(),
                embeddings@.len() == n,
                match metadata {
                    Some(ms) => ms@.len() == n,
                    None => true,
                },
                forall|t: int|
                    0 <= t < embeddings@.len() ==> components_bounded(
                        (#[trigger] embeddings@[t])@,
                        EMBEDDING_COMPONENT_LIMIT as int,
                    ) && embeddings@[t]@.len() <= EMBEDDING_LENGTH_LIMIT,
                orig == *old(self),
                self.db.collections@ == orig.db.collections@,
                self.db.next_collection_id == orig.db.next_collection_id,
                self.db.documents@.len() == orig.db.documents@.len() + i,
                self.db.documents@.take(orig.db.documents@.len() as int)
                    == orig.db.documents@,
                self.db.next_document_id == orig.db.next_document_id + i,
                self.db.clock == orig.db.clock + i,
                ids@.len() == i,
                forall|t: int|
                    0 <= t < i ==> #[trigger] ids@[t] == orig.db.next_document_id + t,
                forall|t: int|
                    0 <= t < i ==> {
                        let d = #[trigger] self.db.documents@[orig.db.documents@.len() + t];
                        &&& d.id == orig.db.next_document_id + t
                        &&& d.content@ == documents@[t]@
                        &&& d.embedding@ == embeddings@[t]@
                        &&& match (d.metadata, metadata) {
                            (Some(a), Some(ms)) => a@ == ms@[t]@,
                            (None, None) => true,
                            _ => false,
                        }
                    },
            decreases n - i,
        {
            let ghost pre = self.db;
            let meta: Option<&str> = match metadata {
                Some(ms) => Some(ms[i].as_str()),
                None => None,
            };
            let r = self.add_document(
                documents[i].as_str(),
                collection,
                embeddings[i].as_slice(),
                meta,
            );
            let id = match r {
                Ok(id) => id,
                Err(e) => {
                    proof {
                        assert(self.db.documents@.take(orig.db.documents@.len() as int)
                            == orig.db.documents@);
                    }
                    return Err(e);
                },
            };
            ids.push(id);
            proof {
                assert(self.db.documents@.take(orig.db.documents@.len() as int) =~= orig.db.documents@) by {
                    assert(self.db.documents@.take(pre.documents@.len() as int)
                        == pre.documents@);
                    assert(forall|t: int|
                        0 <= t < orig.db.documents@.len() ==> #[trigger] self.db.documents@[t]
                            == pre.documents@[t]);
                }
                assert forall|t: int| 0 <= t < i + 1 implies {
                    let d = #[trigger] self.db.documents@[orig.db.documents@.len() + t];
                    &&& d.id == orig.db.next_document_id + t
                    &&& d.content@ == documents@[t]@
                    &&& d.embedding@ == embeddings@[t]@
                    &&& match (d.metadata, metadata) {
                        (Some(a), Some(ms)) => a@ == ms@[t]@,
                        (None, None) => true,
                        _ => false,
                    }
                } by {
                    if t < i {
                        assert(self.db.documents@[orig.db.documents@.len() + t]
                            == pre.documents@[orig.db.documents@.len() + t]) by {
                            assert(self.db.documents@.take(pre.documents@.len() as int)
                                == pre.documents@);
                        }
                    } else {
                        assert(self.db.documents@[orig.db.documents@.len() + t]
                            == self.db.documents@.last());
                    }
                }
            }
            i = i + 1;
        }
        proof {
            assert(self.db.documents@.take(orig.db.documents@.len() as int)
                == orig.db.documents@);
        }
        Ok(ids)
    }
}


/// The position of the first header equal to `name`, `-1` when absent.
pub open spec fn spec_first_header_idx(headers: Seq<Seq<char>>, name: Seq<char>) -> int
    decreases headers.len(),
{
    if headers.len() == 0 {
        -1
    } else if headers[0] == name {
        0
    } else {
        let r = spec_first_header_idx(headers.drop_first(), name);
        if r == -1 {
            -1
        } else {
            r + 1
        }
    }
}

proof fn lemma_first_idx_found(headers: Seq<Seq<char>>, name: Seq<char>, i: int)
    requires
        0 <= i < headers.len(),
        forall|j: int| 0 <= j < i ==> #[trigger] headers[j] != name,
        headers[i] == name,
    ensures
        spec_first_header_idx(headers, name) == i,
    decreases i,
{
    if i == 0 {
    } else {
        assert(headers[0] != name);
        assert(forall|j: int|
            0 <= j < i - 1 ==> #[trigger] headers.drop_first()[j] == headers[j + 1]);
        lemma_first_idx_found(headers.drop_first(), name, i - 1);
    }
}

proof fn lemma_first_idx_absent(headers: Seq<Seq<char>>, name: Seq<char>)
    requires
        forall|j: int| 0 <= j < headers.len() ==> #[trigger] headers[j] != name,
    ensures
        spec_first_header_idx(headers, name) == -1,
    decreases headers.len(),
{
    if headers.len() > 0 {
        assert(forall|j: int|
            0 <= j < headers.drop_first().len() ==> #[trigger] headers.drop_first()[j]
                == headers[j + 1]);
        lemma_first_idx_absent(headers.drop_first(), name);
    }
}

/// The metadata pairs folded from one row: for each metadata column that
/// exists among the headers and has a cell in the row, the column name
/// with the cell's text.
pub open spec fn spec_meta_pairs(
    headers: Seq<Seq<char>>,
    row: Seq<Seq<char>>,
    cols: Seq<Seq<char>>,
) -> Seq<(Seq<char>, Seq<char>)>
    decreases cols.len(),
{
    if cols.len() == 0 {
        Seq::empty()
    } else {
        let rest = spec_meta_pairs(headers, row, cols.drop_last());
        let idx = spec_first_header_idx(headers, cols.last());
        if 0 <= idx < row.len() {
            rest.push((cols.last(), row[idx]))
        } else {
            rest
        }
    }
}

/// Finds the first header equal to `name`.
fn find_header(headers: &Vec<String>, name: &str) -> (r: Option<usize>)
    ensures
        match r {
            Some(i) => spec_first_header_idx(headers.deep_view(), name@) == i,
            None => spec_first_header_idx(headers.deep_view(), name@) == -1,
        },
{
    let n = headers.len();
    let mut i: usize = 0;
    while i < n
        invariant
            0 <= i <= n,
            n == headers@.len(),
            headers.deep_view().len() == n,
            forall|j: int| 0 <= j < i ==> #[trigger] headers.deep_view()[j] != name@,
        decreases n - i,
    {
        proof {
            assert(headers.deep_view()[i as int] =~= headers@[i as int]@);
        }
        if crate::textproc::str_eq(headers[i].as_str(), name) {
            proof {
                lemma_first_idx_found(headers.deep_view(), name@, i as int);
            }
            return Some(i);
        }
        i = i + 1;
    }
    proof {
        lemma_first_idx_absent(headers.deep_view(), name@);
    }
    None
}

impl RAGEnricher {
    /// The compute half of a tabular import: finds the content column
    /// among the headers — `InvalidInput` exactly when it is missing —
    /// then extracts each row's content and folds the requested metadata
    /// columns into one JSON object per row. Rows too short to hold the
    /// content column are skipped. The caller pairs the contents with
    /// embeddings and hands everything to [`RAGEnricher::add_documents`].
    pub fn prepare_import(
        headers: &Vec<String>,
        rows: &Vec<Vec<String>>,
        content_column: &str,
        metadata_columns: Option<&Vec<String>>,
    ) -> (r: Result<(Vec<String>, Vec<Option<String>>), Error>)
        ensures
            r is Err <==> spec_first_header_idx(headers.deep_view(), content_column@) == -1,
            r matches Err(e) ==> e is InvalidInput,
            r matches Ok(out) ==> {
                let hidx = spec_first_header_idx(headers.deep_view(), content_column@);
                let kept = rows.deep_view().filter(|row: Seq<Seq<char>>| hidx < row.len());
                &&& out.0@.len() == kept.len()
                &&& out.1@.len() == kept.len()
                &&& forall|i: int|
                    0 <= i < kept.len() ==> (#[trigger] out.0@[i])@ == kept[i][hidx]
                &&& forall|i: int|
                    0 <= i < kept.len() ==> match metadata_columns {
                        None => (#[trigger] out.1@[i]) is None,
                        Some(cols) => out.1@[i] is Some && out.1@[i]->0@
                            == crate::metadata::json_object_of(
                            spec_meta_pairs(headers.deep_view(), kept[i], cols.deep_view()),
                        ),
                    }
            },
    {
        let hidx = match find_header(headers, content_column) {
            Some(i) => i,
            None => {
                return Err(Error::InvalidInput(String::from_str(
                    "content column not found",
                )));
            },
        };
        let ghost pred = |row: Seq<Seq<char>>| (hidx as int) < row.len();
        let n = rows.len();
        let mut contents: Vec<String> = Vec::new();
        let mut metas: Vec<Option<String>> = Vec::new();
        let mut i: usize = 0;
        proof {
            assert(rows.deep_view().take(0).filter(pred) =~= Seq::<Seq<Seq<char>>>::empty());
        }
        while i < n
            invariant
                0 <= i <= n,
                n == rows@.len(),
                rows.deep_view().len() == n,
                pred == (|row: Seq<Seq<char>>| (hidx as int) < row.len()),
                hidx as int == spec_first_header_idx(headers.deep_view(), content_column@),
                contents@.len() == rows.deep_view().take(i as int).filter(pred).len(),
                metas@.len() == contents@.len(),
                forall|t: int|
                    0 <= t < contents@.len() ==> (#[trigger] contents@[t])@
                        == rows.deep_view().take(i as int).filter(pred)[t][hidx as int],
                forall|t: int|
                    0 <= t < metas@.len() ==> match metadata_columns {
                        None => (#[trigger] metas@[t]) is None,
                        Some(cols) => metas@[t] is Some && metas@[t]->0@
                            == crate::metadata::json_object_of(
                            spec_meta_pairs(
                                headers.deep_view(),
                                rows.deep_view().take(i as int).filter(pred)[t],
                                cols.deep_view(),
                            ),
                        ),
                    },
            decreases n - i,
        {
            let ghost pre_kept = rows.deep_view().take(i as int).filter(pred);
            proof {
                lemma_filter_take_step(rows.deep_view(), i as int, pred);
                assert(rows.deep_view()[i as int] =~= rows@[i as int].deep_view());
            }
            if hidx < rows[i].len() {
                proof {
                    assert(pred(rows.deep_view()[i as int]));
                    assert(rows.deep_view().take(i as int + 1).filter(pred)
                        == pre_kept.push(rows.deep_view()[i as int]));
                    assert(rows.deep_view()[i as int][hidx as int]
                        =~= rows@[i as int]@[hidx as int]@);
                }
                contents.push(rows[i][hidx].clone());
                let meta: Option<String> = match metadata_columns {
                    Some(cols) => {
                        let mut pairs: Vec<(String, String)> = Vec::new();
                        let m = cols.len();
                        let mut j: usize = 0;
                        proof {
                            assert(pairs.deep_view() =~= spec_meta_pairs(
                                headers.deep_view(),
                                rows.deep_view()[i as int],
                                cols.deep_view().take(0),
                            ));
                        }
                        while j < m
                            invariant
                                0 <= j <= m,
                                m == cols@.len(),
                                cols.deep_view().len() == m,
                                0 <= i < n,
                                n == rows@.len(),
                                rows.deep_view().len() == n,
                                hidx as int == spec_first_header_idx(
                                    headers.deep_view(),
                                    content_column@,
                                ),
                                pairs.deep_view() == spec_meta_pairs(
                                    headers.deep_view(),
                                    rows.deep_view()[i as int],
                                    cols.deep_view().take(j as int),
                                ),
                            decreases m - j,
                        {
                            let ghost pre_pairs = pairs.deep_view();
                            proof {
                                assert(cols.deep_view()[j as int] =~= cols@[j as int]@);
                                assert(cols.deep_view().take(j as int + 1).drop_last()
                                    =~= cols.deep_view().take(j as int));
                                assert(cols.deep_view().take(j as int + 1).last()
                                    == cols.deep_view()[j as int]);
                            }
                            match find_header(headers, cols[j].as_str()) {
                                Some(ci) => {
                                    if ci < rows[i].len() {
                                        proof {
                                            assert(rows.deep_view()[i as int][ci as int]
                                                =~= rows@[i as int]@[ci as int]@);
                                        }
                                        pairs.push((cols[j].clone(), rows[i][ci].clone()));
                                        proof {
                                            assert(pairs.deep_view() =~= pre_pairs.push(
                                                (cols.deep_view()[j as int],
                                                rows.deep_view()[i as int][ci as int]),
                                            ));
                                        }
                                    } else {
                                        proof {
                                            assert(!(0 <= spec_first_header_idx(
                                                headers.deep_view(),
                                                cols.deep_view()[j as int],
                                            ) < rows.deep_view()[i as int].len()));
                                        }
                                    }
                                },
                                None => {
                                    proof {
                                        assert(spec_first_header_idx(
                                            headers.deep_view(),
                                            cols.deep_view()[j as int],
                                        ) == -1);
                                    }
                                },
                            }
                            j = j + 1;
                        }
                        proof {
                            assert(cols.deep_view().take(m as int) =~= cols.deep_view());
                        }
                        Some(crate::metadata::json_object_from_pairs(&pairs))
                    },
                    None => None,
                };
                metas.push(meta);
            } else {
                proof {
                    assert(!pred(rows.deep_view()[i as int]));
                    assert(rows.deep_view().take(i as int + 1).filter(pred) == pre_kept);
                }
            }
            proof {
                let kept_new = rows.deep_view().take(i as int + 1).filter(pred);
                assert forall|t: int| 0 <= t < contents@.len() implies (
                #[trigger] contents@[t])@ == kept_new[t][hidx as int] by {
                    if pred(rows.deep_view()[i as int]) {
                        if t < pre_kept.len() {
                            assert(kept_new[t] == pre_kept[t]);
                        } else {
                            assert(kept_new[t] == rows.deep_view()[i as int]);
                        }
                    } else {
                        assert(kept_new == pre_kept);
                    }
                }
                assert forall|t: int| 0 <= t < metas@.len() implies match metadata_columns {
                    None => (#[trigger] metas@[t]) is None,
                    Some(cols) => metas@[t] is Some && metas@[t]->0@
                        == crate::metadata::json_object_of(
                        spec_meta_pairs(headers.deep_view(), kept_new[t], cols.deep_view()),
                    ),
                } by {
                    if pred(rows.deep_view()[i as int]) {
                        if t < pre_kept.len() {
                            assert(kept_new[t] == pre_kept[t]);
                        } else {
                            assert(kept_new[t] == rows.deep_view()[i as int]);
                        }
                    } else {
                        assert(kept_new == pre_kept);
                    }
                }
            }
            i = i + 1;
        }
        proof {
            assert(rows.deep_view().take(n as int) =~= rows.deep_view());
        }
        Ok((contents, metas))
    }
}


/// Row `row` renders stored document `rec` for export: its id in decimal,
/// its collection's name, its content, its metadata text (empty when
/// absent), and its creation stamp in decimal.
pub open spec fn spec_export_row(
    row: Seq<String>,
    rec: DocumentRec,
    colls: Seq<crate::store::CollectionRec>,
) -> bool {
    &&& row.len() == 5
    &&& row[0]@ == crate::fmt::spec_dec_digits(rec.id as nat)
    &&& row[1]@ == spec_coll_name_of(colls, rec.collection_id)
    &&& row[2]@ == rec.content@
    &&& row[3]@ == match rec.metadata {
        Some(m) => m@,
        None => Seq::<char>::empty(),
    }
    &&& row[4]@ == crate::fmt::spec_dec_digits(rec.created_at as nat)
}

/// Every document `listDocuments` selects is a stored row, so its id is
/// positive.
proof fn lemma_selected_ids_positive(db: Database, filt: Option<i64>)
    requires
        db.wf(),
    ensures
        forall|i: int|
            0 <= i < spec_selected_docs(db.documents@, filt).len() ==> 1 <= (
            #[trigger] spec_selected_docs(db.documents@, filt)[i]).id,
{
    let pred = |d: DocumentRec| crate::store::spec_doc_in_filter(d, filt);
    let rev = db.documents@.reverse();
    let sel = rev.filter(pred);
    lemma_filter_is_subsequence(rev, pred);
    let emb = choose|e: Seq<int>| is_subsequence_embedding(rev, pred, e);
    assert(is_subsequence_embedding(rev, pred, emb));
    let n = db.documents@.len() as int;
    assert forall|i: int| 0 <= i < sel.len() implies 1 <= (#[trigger] sel[i]).id by {
        assert(sel[i] == rev[emb[i]]);
        assert(rev[emb[i]] == db.documents@[n - 1 - emb[i]]);
        assert(1 <= db.documents@[n - 1 - emb[i]].id);
    }
}

impl RAGEnricher {
    /// The compute half of a tabular export: a header row, then one row
    /// per listed document, newest first — id, collection, content,
    /// metadata, creation stamp.
    pub fn export_records(&self, collection: Option<&str>) -> (r: Result<Vec<Vec<String>>, Error>)
        requires
            self.db.wf(),
        ensures
            r matches Err(e) ==> e is NotFound && collection is Some && !spec_has_coll_named(
                self.db.collections@,
                collection->0@,
            ),
            collection is Some && !spec_has_coll_named(self.db.collections@, collection->0@)
                ==> r is Err,
            r matches Ok(v) ==> {
                let filt: Option<i64> = match collection {
                    Some(n) => Some(
                        crate::store::spec_coll_id_by_name(self.db.collections@, n@),
                    ),
                    None => None,
                };
                let sel = spec_selected_docs(self.db.documents@, filt);
                let shown = if sel.len() <= 1_000_000 {
                    sel.len() as int
                } else {
                    1_000_000int
                };
                &&& v@.len() == 1 + shown
                &&& v@[0]@.len() == 5
                &&& v@[0]@[0]@ == "id"@
                &&& v@[0]@[1]@ == "collection"@
                &&& v@[0]@[2]@ == "content"@
                &&& v@[0]@[3]@ == "metadata"@
                &&& v@[0]@[4]@ == "created_at"@
                &&& forall|i: int|
                    0 <= i < shown ==> spec_export_row(
                        (#[trigger] v@[1 + i])@,
                        sel[i],
                        self.db.collections@,
                    )
            },
    {
        let docs = match self.list_documents(collection, 1_000_000, 0) {
            Ok(d) => d,
            Err(e) => {
                return Err(e);
            },
        };
        let ghost filt_g: Option<i64> = match collection {
            Some(n) => Some(crate::store::spec_coll_id_by_name(self.db.collections@, n@)),
            None => None,
        };
        let ghost sel = spec_selected_docs(self.db.documents@, filt_g);
        proof {
            lemma_selected_ids_positive(self.db, filt_g);
        }
        let mut out: Vec<Vec<String>> = Vec::new();
        proof {
            reveal_strlit("id");
            reveal_strlit("collection");
            reveal_strlit("content");
            reveal_strlit("metadata");
            reveal_strlit("created_at");
        }
        let mut header: Vec<String> = Vec::new();
        header.push(String::from_str("id"));
        header.push(String::from_str("collection"));
        header.push(String::from_str("content"));
        header.push(String::from_str("metadata"));
        header.push(String::from_str("created_at"));
        out.push(header);
        let n = docs.len();
        let mut i: usize = 0;
        while i < n
            invariant
                0 <= i <= n,
                n == docs@.len(),
                n <= sel.len(),
                forall|t: int|
                    0 <= t < n ==> crate::store::spec_doc_matches(
                        #[trigger] docs@[t],
                        sel[t],
                        self.db.collections@,
                    ),
                forall|t: int| 0 <= t < sel.len() ==> 1 <= (#[trigger] sel[t]).id,
                out@.len() == 1 + i,
                out@[0]@.len() == 5,
                out@[0]@[0]@ == "id"@,
                out@[0]@[1]@ == "collection"@,
                out@[0]@[2]@ == "content"@,
                out@[0]@[3]@ == "metadata"@,
                out@[0]@[4]@ == "created_at"@,
                forall|t: int|
                    0 <= t < i ==> spec_export_row(
                        (#[trigger] out@[1 + t])@,
                        sel[t],
                        self.db.collections@,
                    ),
            decreases n - i,
        {
            let d = &docs[i];
            proof {
                assert(crate::store::spec_doc_matches(
                    docs@[i as int],
                    sel[i as int],
                    self.db.collections@,
                ));
            }
            let idu: u64 = if d.id >= 0 {
                d.id as u64
            } else {
                0
            };
            let mut row: Vec<String> = Vec::new();
            row.push(crate::fmt::fmt_u64(idu));
            row.push(d.collection_name.clone());
            row.push(d.content.clone());
            let meta = match &d.metadata {
                Some(m) => m.clone(),
                None => String::new(),
            };
            row.push(meta);
            row.push(crate::fmt::fmt_u64(d.created_at));
            proof {
                assert(row@.len() == 5);
                assert(spec_export_row(row@, sel[i as int], self.db.collections@));
            }
            out.push(row);
            i = i + 1;
        }
        proof {
            assert(n as int == if sel.len() <= 1_000_000 {
                sel.len() as int
            } else {
                1_000_000int
            });
        }
        Ok(out)
    }
}


/// Looking up a semantically qualifying candidate's id in the store finds
/// exactly that candidate row.
proof fn lemma_selected_doc_is_the_stored_one(
    db: Database,
    qe: Seq<i64>,
    fv: Option<Seq<i64>>,
    threshold: int,
    t: int,
)
    requires
        db.wf(),
        0 <= t < spec_sem_qualifying(db, qe, fv, threshold).len(),
    ensures
        spec_has_doc_id(db.documents@, spec_sem_qualifying(db, qe, fv, threshold)[t].id),
        db.documents@[spec_doc_idx_by_id(
            db.documents@,
            spec_sem_qualifying(db, qe, fv, threshold)[t].id,
        )] == spec_sem_qualifying(db, qe, fv, threshold)[t],
{
    let pred1 = |d: DocumentRec| spec_cid_in_filter(d.collection_id, fv);
    let pred2 = |d: DocumentRec| spec_cosine(qe, d.embedding@) >= threshold;
    let sel1 = db.documents@.filter(pred1);
    let sel2 = sel1.filter(pred2);
    lemma_filter_is_subsequence(sel1, pred2);
    let emb2 = choose|e: Seq<int>| is_subsequence_embedding(sel1, pred2, e);
    assert(is_subsequence_embedding(sel1, pred2, emb2));
    assert(sel2[t] == sel1[emb2[t]]);
    lemma_filter_is_subsequence(db.documents@, pred1);
    let emb1 = choose|e: Seq<int>| is_subsequence_embedding(db.documents@, pred1, e);
    assert(is_subsequence_embedding(db.documents@, pred1, emb1));
    assert(sel1[emb2[t]] == db.documents@[emb1[emb2[t]]]);
    let pos = emb1[emb2[t]];
    assert(spec_has_doc_id(db.documents@, sel2[t].id)) by {
        assert(db.documents@[pos].id == sel2[t].id);
    }
    let k0 = spec_doc_idx_by_id(db.documents@, sel2[t].id);
    assert(0 <= k0 < db.documents@.len() && db.documents@[k0].id == sel2[t].id);
    if k0 != pos {
        assert(db.documents@[k0].id != db.documents@[pos].id);
    }
}

} // verus!
