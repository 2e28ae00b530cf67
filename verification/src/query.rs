//! The store's candidate-retrieval paths: the embedding scan for the
//! semantic scorer, and the two-tier keyword path — the indexed tier over
//! the lexical index, with the substring scan as its dependable fallback.

use vstd::prelude::*;
use crate::error::Error;
use crate::store::{
    Database, DocumentRec, spec_has_coll_id, spec_coll_name_of, spec_coll_idx_by_id,
    spec_has_doc_id, spec_doc_idx_by_id, lemma_filter_take_step,
};
use crate::textproc::{
    spec_tokenize, spec_count_token, is_substring, chars_of, tokenize_chars, count_token,
    contains_chars,
};

verus! {

/// A raw keyword-search row: document id, content, raw score in
/// milli-units, and collection name.
pub type SearchRow = (i64, String, i64, String);

/// The view of an optional collection-id filter.
pub open spec fn spec_filter_view(filt: Option<&Vec<i64>>) -> Option<Seq<i64>> {
    match filt {
        Some(v) => Some(v@),
        None => None,
    }
}

/// Whether a collection id passes the optional filter: no filter admits
/// everything.
pub open spec fn spec_cid_in_filter(cid: i64, filt: Option<Seq<i64>>) -> bool {
    match filt {
        Some(s) => s.contains(cid),
        None => true,
    }
}

/// The total number of occurrences of the query's tokens among the
/// document's tokens.
pub open spec fn spec_occ_total(qtoks: Seq<Seq<char>>, dtoks: Seq<Seq<char>>) -> nat
    decreases qtoks.len(),
{
    if qtoks.len() == 0 {
        0
    } else {
        spec_occ_total(qtoks.drop_last(), dtoks) + spec_count_token(dtoks, qtoks.last())
    }
}

/// Every query token occurs among the document's tokens.
pub open spec fn spec_all_present(qtoks: Seq<Seq<char>>, dtoks: Seq<Seq<char>>) -> bool {
    forall|t: int| 0 <= t < qtoks.len() ==> spec_count_token(dtoks, #[trigger] qtoks[t]) > 0
}

/// The indexed tier's raw score: occurrence counts on the inverted scale,
/// lower is more relevant, saturated so the milli-value always fits.
pub open spec fn spec_lex_raw(qtoks: Seq<Seq<char>>, dtoks: Seq<Seq<char>>) -> int {
    -1000 * (if spec_occ_total(qtoks, dtoks) > 1_000_000 {
        1_000_000int
    } else {
        spec_occ_total(qtoks, dtoks) as int
    })
}

/// A document qualifies for the indexed tier: it passes the collection
/// filter and holds every token of a non-empty token query.
pub open spec fn spec_lex_qualifies(
    d: DocumentRec,
    qtoks: Seq<Seq<char>>,
    filt: Option<Seq<i64>>,
) -> bool {
    &&& qtoks.len() > 0
    &&& spec_cid_in_filter(d.collection_id, filt)
    &&& spec_all_present(qtoks, spec_tokenize(d.content@))
}

/// A document qualifies for the substring fallback: it passes the
/// collection filter and its content contains the query as a contiguous
/// run of characters.
pub open spec fn spec_substr_qualifies(
    d: DocumentRec,
    q: Seq<char>,
    filt: Option<Seq<i64>>,
) -> bool {
    &&& spec_cid_in_filter(d.collection_id, filt)
    &&& is_substring(q, d.content@)
}

/// Row `r` renders document `d` with raw score `raw`.
pub open spec fn spec_row_renders(
    r: SearchRow,
    d: DocumentRec,
    raw: int,
    colls: Seq<crate::store::CollectionRec>,
) -> bool {
    &&& r.0 == d.id
    &&& r.1@ == d.content@
    &&& r.2 == raw
    &&& r.3@ == spec_coll_name_of(colls, d.collection_id)
}

/// The indexed tier's ranking order: lower raw score first — more relevant
/// first on the inverted scale — with ties going to the newer document.
pub open spec fn spec_row_le(a: SearchRow, b: SearchRow) -> bool {
    a.2 < b.2 || (a.2 == b.2 && a.0 >= b.0)
}

/// The rows stand in the indexed tier's ranking order.
pub open spec fn spec_rows_ranked(v: Seq<SearchRow>) -> bool {
    forall|k1: int, k2: int|
        0 <= k1 < k2 < v.len() ==> spec_row_le(#[trigger] v[k1], #[trigger] v[k2])
}

/// What `lexicalSearch` promises of its result rows `v`: every row renders
/// a distinct qualifying document with the indexed tier's raw score, every
/// qualifying document is represented, and the rows stand in ranking
/// order.
pub open spec fn spec_lexical_results_ok(
    db: Database,
    q: Seq<char>,
    fv: Option<Seq<i64>>,
    v: Seq<SearchRow>,
) -> bool {
    let qtoks = spec_tokenize(q);
    &&& spec_rows_ranked(v)
    &&& forall|k: int|
        0 <= k < v.len() ==> {
            let d = db.documents@[spec_doc_idx_by_id(db.documents@, (#[trigger] v[k]).0)];
            &&& spec_has_doc_id(db.documents@, v[k].0)
            &&& spec_lex_qualifies(d, qtoks, fv)
            &&& spec_row_renders(v[k], d, spec_lex_raw(qtoks, spec_tokenize(d.content@)), db.collections@)
        }
    &&& forall|i: int|
        0 <= i < db.documents@.len() && spec_lex_qualifies(#[trigger] db.documents@[i], qtoks, fv)
            ==> exists|k: int| 0 <= k < v.len() && (#[trigger] v[k]).0 == db.documents@[i].id
    &&& forall|k1: int, k2: int|
        0 <= k1 < k2 < v.len() ==> (#[trigger] v[k1]).0 != (#[trigger] v[k2]).0
}

/// What `substringSearch` promises of its result rows `v`: exactly the
/// documents containing the query literally, newest first, each at the
/// fixed raw score `1.0`.
pub open spec fn spec_substring_results_ok(
    db: Database,
    q: Seq<char>,
    fv: Option<Seq<i64>>,
    v: Seq<SearchRow>,
) -> bool {
    let sel = db.documents@.reverse().filter(
        |d: DocumentRec| spec_substr_qualifies(d, q, fv),
    );
    &&& v.len() == sel.len()
    &&& forall|i: int|
        0 <= i < v.len() ==> spec_row_renders(#[trigger] v[i], sel[i], 1000, db.collections@)
}

/// Some stored document qualifies for the indexed tier.
pub open spec fn spec_any_lex_match(db: Database, q: Seq<char>, fv: Option<Seq<i64>>) -> bool {
    exists|i: int|
        0 <= i < db.documents@.len() && spec_lex_qualifies(
            #[trigger] db.documents@[i],
            spec_tokenize(q),
            fv,
        )
}

/// Compares two rows in the indexed tier's ranking order.
fn row_le(a: &SearchRow, b: &SearchRow) -> (r: bool)
    ensures
        r == spec_row_le(*a, *b),
{
    a.2 < b.2 || (a.2 == b.2 && a.0 >= b.0)
}

/// Sorts rows into the indexed tier's ranking order, keeping exactly the
/// same rows.
fn rank_rows(v: &mut Vec<SearchRow>)
    ensures
        final(v)@.len() == old(v)@.len(),
        final(v)@.to_multiset() == old(v)@.to_multiset(),
        spec_rows_ranked(final(v)@),
{
    broadcast use vstd::seq_lib::group_to_multiset_ensures;

    let n = v.len();
    if n <= 1 {
        return;
    }
    let mut i: usize = 1;
    while i < n
        invariant
            1 <= i <= n,
            n == v@.len(),
            v@.len() == old(v)@.len(),
            v@.to_multiset() == old(v)@.to_multiset(),
            spec_rows_ranked(v@.take(i as int)),
        decreases n - i,
    {
        let mut j: usize = 0;
        while j < i && row_le(&v[j], &v[i])
            invariant
                0 <= j <= i < v@.len(),
                forall|t: int| 0 <= t < j ==> spec_row_le(#[trigger] v@[t], v@[i as int]),
            decreases i - j,
        {
            j = j + 1;
        }
        let ghost pre = v@;
        let x = v.remove(i);
        v.insert(j, x);
        proof {
            broadcast use vstd::multiset::group_multiset_axioms;

            vstd::seq_lib::to_multiset_remove(pre, i as int);
            vstd::seq_lib::to_multiset_insert(pre.remove(i as int), j as int, x);
            vstd::seq_lib::to_multiset_contains(pre, x);
            assert(pre.contains(x)) by {
                assert(pre[i as int] == x);
            }
            assert(v@ == pre.remove(i as int).insert(j as int, x));
            assert(v@.to_multiset() =~= pre.to_multiset());
            assert(forall|t: int| 0 <= t < i ==> pre.take(i as int)[t] == #[trigger] pre[t]);
            if j < i {
                assert(!spec_row_le(pre[j as int], x));
                assert(spec_row_le(x, pre[j as int]));
            }
            assert forall|t: int| j <= t < i implies spec_row_le(x, #[trigger] pre[t]) by {
                assert(pre.take(i as int)[t] == pre[t]);
                if t > j {
                    assert(spec_row_le(pre.take(i as int)[j as int], pre.take(i as int)[t]));
                }
            }
            assert forall|k1: int, k2: int|
                0 <= k1 < k2 < i + 1 implies spec_row_le(#[trigger] v@[k1], #[trigger] v@[k2]) by {
                if k1 < j {
                    assert(v@[k1] == pre[k1]);
                } else if k1 == j {
                    assert(v@[k1] == x);
                } else {
                    assert(v@[k1] == pre[k1 - 1]);
                }
                if k2 < j {
                    assert(v@[k2] == pre[k2]);
                } else if k2 == j {
                    assert(v@[k2] == x);
                } else {
                    assert(v@[k2] == pre[k2 - 1]);
                }
                if k2 < j {
                    assert(spec_row_le(pre.take(i as int)[k1], pre.take(i as int)[k2]));
                } else if k2 == j {
                    assert(spec_row_le(pre[k1], x));
                } else if k1 < j {
                    if k1 < k2 - 1 {
                        assert(spec_row_le(pre.take(i as int)[k1], pre.take(i as int)[k2 - 1]));
                    }
                } else if k1 == j {
                    assert(spec_row_le(x, pre[k2 - 1]));
                } else {
                    assert(spec_row_le(pre.take(i as int)[k1 - 1], pre.take(i as int)[k2 - 1]));
                }
            }
            assert(spec_rows_ranked(v@.take(i as int + 1))) by {
                assert(forall|t: int| 0 <= t < i + 1 ==> v@.take(i as int + 1)[t] == #[trigger] v@[t]);
            }
        }
        i = i + 1;
    }
    proof {
        assert(v@.take(n as int) =~= v@);
    }
}

impl Database {
    /// The name of the collection with id `cid`, which must exist.
    fn collection_name_of(&self, cid: i64) -> (nm: String)
        requires
            self.wf(),
            spec_has_coll_id(self.collections@, cid),
        ensures
            nm@ == spec_coll_name_of(self.collections@, cid),
    {
        let cio = self.coll_index_by_id(cid);
        let ci = match cio {
            Some(ci) => ci,
            None => vstd::pervasive::unreached(),
        };
        proof {
            let k = spec_coll_idx_by_id(self.collections@, cid);
            assert(0 <= k < self.collections@.len() && self.collections@[k].id == cid);
            if k != ci as int {
                assert(self.collections@[k].id != self.collections@[ci as int].id);
            }
        }
        self.collections[ci].name.clone()
    }

    /// Whether `cid` passes the optional collection filter.
    fn cid_selected(&self, cid: i64, filt: Option<&Vec<i64>>) -> (b: bool)
        ensures
            b == spec_cid_in_filter(cid, spec_filter_view(filt)),
    {
        match filt {
            None => true,
            Some(ids) => {
                proof {
                    assert(spec_filter_view(filt) == Some(ids@));
                }
                let n = ids.len();
                let mut i: usize = 0;
                while i < n
                    invariant
                        0 <= i <= n,
                        n == ids@.len(),
                        spec_filter_view(filt) == Some(ids@),
                        forall|j: int| 0 <= j < i ==> ids@[j] != cid,
                    decreases n - i,
                {
                    if ids[i] == cid {
                        proof {
                            assert(ids@.contains(cid)) by {
                                assert(ids@[i as int] == cid);
                            }
                        }
                        return true;
                    }
                    i = i + 1;
                }
                proof {
                    assert(!ids@.contains(cid));
                }
                false
            },
        }
    }

    /// Every stored document with its embedding, in storage order,
    /// restricted to the filtered collections: the semantic scorer's full
    /// candidate scan.
    pub fn get_all_documents_with_embeddings(&self, collection_ids: Option<&Vec<i64>>) -> (r:
        Result<Vec<(i64, String, Vec<i64>, String)>, Error>)
        requires
            self.wf(),
        ensures
            r is Ok,
            r matches Ok(v) ==> {
                let sel = self.documents@.filter(
                    |d: DocumentRec|
                        spec_cid_in_filter(d.collection_id, spec_filter_view(collection_ids)),
                );
                &&& v@.len() == sel.len()
                &&& forall|i: int|
                    0 <= i < v@.len() ==> {
                        &&& (#[trigger] v@[i]).0 == sel[i].id
                        &&& v@[i].1@ == sel[i].content@
                        &&& v@[i].2@ == sel[i].embedding@
                        &&& v@[i].3@ == spec_coll_name_of(self.collections@, sel[i].collection_id)
                    }
            },
    {
        let ghost pred = |d: DocumentRec|
            spec_cid_in_filter(d.collection_id, spec_filter_view(collection_ids));
        let n = self.documents.len();
        let mut v: Vec<(i64, String, Vec<i64>, String)> = Vec::new();
        let mut i: usize = 0;
        proof {
            assert(self.documents@.take(0).filter(pred) =~= Seq::<DocumentRec>::empty());
        }
        while i < n
            invariant
                self.wf(),
                0 <= i <= n,
                n == self.documents@.len(),
                pred == (|d: DocumentRec|
                    spec_cid_in_filter(d.collection_id, spec_filter_view(collection_ids))),
                v@.len() == self.documents@.take(i as int).filter(pred).len(),
                forall|t: int|
                    0 <= t < v@.len() ==> {
                        let sel = self.documents@.take(i as int).filter(pred);
                        &&& (#[trigger] v@[t]).0 == sel[t].id
                        &&& v@[t].1@ == sel[t].content@
                        &&& v@[t].2@ == sel[t].embedding@
                        &&& v@[t].3@ == spec_coll_name_of(self.collections@, sel[t].collection_id)
                    },
            decreases n - i,
        {
            let ghost pre_sel = self.documents@.take(i as int).filter(pred);
            proof {
                lemma_filter_take_step(self.documents@, i as int, pred);
            }
            let keep = self.cid_selected(self.documents[i].collection_id, collection_ids);
            if keep {
                proof {
                    assert(1 <= self.documents@[i as int].id);
                }
                let rec = &self.documents[i];
                let nm = self.collection_name_of(rec.collection_id);
                let row = (
                    rec.id,
                    rec.content.clone(),
                    vstd::slice::slice_to_vec(rec.embedding.as_slice()),
                    nm,
                );
                v.push(row);
                proof {
                    assert(self.documents@.take(i as int + 1).filter(pred) == pre_sel.push(
                        self.documents@[i as int],
                    ));
                }
            }
            proof {
                let sel_new = self.documents@.take(i as int + 1).filter(pred);
                assert forall|t: int| 0 <= t < v@.len() implies {
                    &&& (#[trigger] v@[t]).0 == sel_new[t].id
                    &&& v@[t].1@ == sel_new[t].content@
                    &&& v@[t].2@ == sel_new[t].embedding@
                    &&& v@[t].3@ == spec_coll_name_of(self.collections@, sel_new[t].collection_id)
                } by {
                    if pred(self.documents@[i as int]) {
                        if t < pre_sel.len() {
                            assert(sel_new[t] == pre_sel[t]);
                        } else {
                            assert(sel_new[t] == self.documents@[i as int]);
                        }
                    } else {
                        assert(sel_new == pre_sel);
                    }
                }
            }
            i = i + 1;
        }
        proof {
            assert(self.documents@.take(n as int) =~= self.documents@);
        }
        Ok(v)
    }

    /// The substring fallback: every document whose content contains the
    /// query literally, newest first, each with the fixed raw score `1.0`.
    pub fn substring_search(&self, query: &str, collection_ids: Option<&Vec<i64>>) -> (r:
        Result<Vec<SearchRow>, Error>)
        requires
            self.wf(),
        ensures
            r is Ok,
            r matches Ok(v) ==> spec_substring_results_ok(
                *self,
                query@,
                spec_filter_view(collection_ids),
                v@,
            ),
    {
        let ghost pred = |d: DocumentRec|
            spec_substr_qualifies(d, query@, spec_filter_view(collection_ids));
        let ghost rdocs = self.documents@.reverse();
        let qchars = chars_of(query);
        let n = self.documents.len();
        let mut v: Vec<SearchRow> = Vec::new();
        let mut t: usize = 0;
        proof {
            assert(rdocs.take(0).filter(pred) =~= Seq::<DocumentRec>::empty());
        }
        while t < n
            invariant
                self.wf(),
                0 <= t <= n,
                n == self.documents@.len(),
                rdocs == self.documents@.reverse(),
                qchars@ == query@,
                pred == (|d: DocumentRec|
                    spec_substr_qualifies(d, query@, spec_filter_view(collection_ids))),
                v@.len() == rdocs.take(t as int).filter(pred).len(),
                forall|i: int|
                    0 <= i < v@.len() ==> spec_row_renders(
                        #[trigger] v@[i],
                        rdocs.take(t as int).filter(pred)[i],
                        1000,
                        self.collections@,
                    ),
            decreases n - t,
        {
            let j = n - 1 - t;
            let ghost pre_sel = rdocs.take(t as int).filter(pred);
            proof {
                assert(rdocs[t as int] == self.documents@[j as int]);
                lemma_filter_take_step(rdocs, t as int, pred);
            }
            let in_filter = self.cid_selected(self.documents[j].collection_id, collection_ids);
            if in_filter {
                let cchars = chars_of(self.documents[j].content.as_str());
                if contains_chars(cchars.as_slice(), qchars.as_slice()) {
                    proof {
                        assert(pred(rdocs[t as int]));
                        assert(1 <= self.documents@[j as int].id);
                    }
                    let rec = &self.documents[j];
                    let nm = self.collection_name_of(rec.collection_id);
                    v.push((rec.id, rec.content.clone(), 1000, nm));
                    proof {
                        assert(rdocs.take(t as int + 1).filter(pred) == pre_sel.push(
                            rdocs[t as int],
                        ));
                    }
                }
            }
            proof {
                let sel_new = rdocs.take(t as int + 1).filter(pred);
                assert forall|i: int| 0 <= i < v@.len() implies spec_row_renders(
                    #[trigger] v@[i],
                    sel_new[i],
                    1000,
                    self.collections@,
                ) by {
                    if pred(rdocs[t as int]) {
                        if i < pre_sel.len() {
                            assert(sel_new[i] == pre_sel[i]);
                        } else {
                            assert(sel_new[i] == rdocs[t as int]);
                        }
                    } else {
                        assert(sel_new == pre_sel);
                    }
                }
            }
            t = t + 1;
        }
        proof {
            assert(rdocs.take(n as int) =~= rdocs);
        }
        Ok(v)
    }
}


impl Database {
    /// Scores one indexed document against the query tokens: whether every
    /// query token is present, and the indexed tier's saturated raw score.
    fn lex_score(qtoks: &Vec<Vec<char>>, dtoks: &Vec<Vec<char>>) -> (r: (bool, i64))
        ensures
            r.0 == spec_all_present(qtoks.deep_view(), dtoks.deep_view()),
            r.1 == spec_lex_raw(qtoks.deep_view(), dtoks.deep_view()),
            -1_000_000_000 <= r.1 <= 0,
    {
        let nq = qtoks.len();
        let mut all = true;
        let mut occ: u128 = 0;
        let mut t: usize = 0;
        proof {
            assert(qtoks.deep_view().take(0) =~= Seq::<Seq<char>>::empty());
        }
        while t < nq
            invariant
                0 <= t <= nq,
                nq == qtoks@.len(),
                qtoks.deep_view().len() == qtoks@.len(),
                occ == spec_occ_total(qtoks.deep_view().take(t as int), dtoks.deep_view()),
                occ <= (t as int) * 0xFFFF_FFFF_FFFF_FFFFu128,
                all == spec_all_present(qtoks.deep_view().take(t as int), dtoks.deep_view()),
            decreases nq - t,
        {
            let ghost pre = qtoks.deep_view().take(t as int);
            let ghost pre_all = all;
            proof {
                assert(qtoks.deep_view()[t as int] =~= qtoks@[t as int]@);
            }
            let c = count_token(dtoks, qtoks[t].as_slice());
            if c == 0 {
                all = false;
            }
            proof {
                assert(c <= 0xFFFF_FFFF_FFFF_FFFFu128);
                assert((t as int) * 0xFFFF_FFFF_FFFF_FFFFu128 + 0xFFFF_FFFF_FFFF_FFFFu128
                    == (t as int + 1) * 0xFFFF_FFFF_FFFF_FFFFu128) by (nonlinear_arith);
                assert((t as int + 1) * 0xFFFF_FFFF_FFFF_FFFFu128
                    <= 0xFFFF_FFFF_FFFF_FFFFu128 * 0xFFFF_FFFF_FFFF_FFFFu128)
                    by (nonlinear_arith)
                    requires
                        t as int + 1 <= 0xFFFF_FFFF_FFFF_FFFFu128,
                ;
            }
            occ = occ + (c as u128);
            proof {
                let cur = qtoks.deep_view().take(t as int + 1);
                assert(cur.drop_last() =~= pre);
                assert(cur.last() == qtoks.deep_view()[t as int]);
                assert(spec_occ_total(cur, dtoks.deep_view()) == spec_occ_total(
                    pre,
                    dtoks.deep_view(),
                ) + spec_count_token(dtoks.deep_view(), qtoks.deep_view()[t as int]));
                assert(forall|u: int| 0 <= u < t ==> #[trigger] cur[u] == pre[u]);
                if pre_all && c > 0 {
                    assert forall|u: int| 0 <= u < cur.len() implies spec_count_token(
                        dtoks.deep_view(),
                        #[trigger] cur[u],
                    ) > 0 by {
                        if u < t {
                            assert(cur[u] == pre[u]);
                            assert(spec_count_token(dtoks.deep_view(), pre[u]) > 0);
                        } else {
                            assert(cur[u] == qtoks.deep_view()[t as int]);
                        }
                    }
                    assert(spec_all_present(cur, dtoks.deep_view()));
                } else if !pre_all {
                    let u = choose|u: int|
                        0 <= u < pre.len() && !(spec_count_token(
                            dtoks.deep_view(),
                            #[trigger] pre[u],
                        ) > 0);
                    assert(cur[u] == pre[u]);
                    assert(!spec_all_present(cur, dtoks.deep_view()));
                } else {
                    assert(spec_count_token(dtoks.deep_view(), cur[t as int]) == 0);
                    assert(!spec_all_present(cur, dtoks.deep_view()));
                }
            }
            t = t + 1;
        }
        proof {
            assert(qtoks.deep_view().take(nq as int) =~= qtoks.deep_view());
        }
        let capped: u64 = if occ > 1_000_000 {
            1_000_000
        } else {
            occ as u64
        };
        let raw: i64 = -1000 * (capped as i64);
        (all, raw)
    }

    /// The indexed tier: documents holding every token of the query, ranked
    /// by the index's raw score, most relevant first. A query without
    /// tokens matches nothing.
    pub fn lexical_search(&self, query: &str, collection_ids: Option<&Vec<i64>>) -> (r: Result<
        Vec<SearchRow>,
        Error,
    >)
        requires
            self.wf(),
        ensures
            r is Ok,
            r matches Ok(v) ==> spec_lexical_results_ok(
                *self,
                query@,
                spec_filter_view(collection_ids),
                v@,
            ),
    {
        let ghost fv = spec_filter_view(collection_ids);
        let qchars = chars_of(query);
        let qtoks = tokenize_chars(qchars.as_slice());
        let ghost qtv = spec_tokenize(query@);
        proof {
            assert(qtoks.deep_view() == qtv);
        }
        let mut v: Vec<SearchRow> = Vec::new();
        if qtoks.len() == 0 {
            return Ok(v);
        }
        let n = self.documents.len();
        let mut i: usize = 0;
        while i < n
            invariant
                self.wf(),
                0 <= i <= n,
                n == self.documents@.len(),
                qtoks.deep_view() == qtv,
                qtv.len() > 0,
                fv == spec_filter_view(collection_ids),
                forall|k: int|
                    0 <= k < v@.len() ==> {
                        let d = self.documents@[spec_doc_idx_by_id(
                            self.documents@,
                            (#[trigger] v@[k]).0,
                        )];
                        &&& spec_has_doc_id(self.documents@, v@[k].0)
                        &&& spec_doc_idx_by_id(self.documents@, v@[k].0) < i
                        &&& spec_lex_qualifies(d, qtv, fv)
                        &&& spec_row_renders(
                            v@[k],
                            d,
                            spec_lex_raw(qtv, spec_tokenize(d.content@)),
                            self.collections@,
                        )
                    },
                forall|t: int|
                    0 <= t < i && spec_lex_qualifies(#[trigger] self.documents@[t], qtv, fv)
                        ==> exists|k: int|
                        0 <= k < v@.len() && (#[trigger] v@[k]).0 == self.documents@[t].id,
                forall|k1: int, k2: int|
                    0 <= k1 < k2 < v@.len() ==> (#[trigger] v@[k1]).0 < (#[trigger] v@[k2]).0,
            decreases n - i,
        {
            proof {
                assert(1 <= self.documents@[i as int].id);
                assert(self.index@[i as int].document_id == self.documents@[i as int].id);
            }
            let in_filter = self.cid_selected(self.documents[i].collection_id, collection_ids);
            if in_filter {
                let (all, raw) = Self::lex_score(&qtoks, &self.index[i].tokens);
                if all {
                    let ghost prev = v@;
                    let rec = &self.documents[i];
                    let nm = self.collection_name_of(rec.collection_id);
                    proof {
                        assert(spec_lex_qualifies(self.documents@[i as int], qtv, fv));
                    }
                    v.push((rec.id, rec.content.clone(), raw, nm));
                    proof {
                        let di = spec_doc_idx_by_id(self.documents@, rec.id);
                        assert(spec_has_doc_id(self.documents@, rec.id)) by {
                            assert(self.documents@[i as int].id == rec.id);
                        }
                        assert(0 <= di < self.documents@.len() && self.documents@[di].id
                            == rec.id);
                        if di != i as int {
                            assert(self.documents@[di].id != self.documents@[i as int].id);
                        }
                        assert(di == i as int);
                        assert forall|k1: int, k2: int|
                            0 <= k1 < k2 < v@.len() implies (#[trigger] v@[k1]).0
                            < (#[trigger] v@[k2]).0 by {
                            if k2 == v@.len() - 1 {
                                assert(v@[k1] == prev[k1]);
                                let dk = spec_doc_idx_by_id(self.documents@, prev[k1].0);
                                assert(prev[k1].0 == self.documents@[dk].id);
                                assert(dk < i);
                                assert(self.documents@[dk].id < self.documents@[i as int].id);
                            }
                        }
                        assert forall|t: int|
                            0 <= t < i + 1 && spec_lex_qualifies(
                            #[trigger] self.documents@[t],
                            qtv,
                            fv,
                        ) implies exists|k: int|
                            0 <= k < v@.len() && (#[trigger] v@[k]).0
                                == self.documents@[t].id by {
                            if t < i {
                                let k = choose|k: int|
                                    0 <= k < prev.len() && (#[trigger] prev[k]).0
                                        == self.documents@[t].id;
                                assert(v@[k] == prev[k]);
                            } else {
                                assert(v@[v@.len() - 1].0 == self.documents@[t].id);
                            }
                        }
                    }
                }
            }
            i = i + 1;
        }
        let ghost unsorted = v@;
        rank_rows(&mut v);
        proof {
            assert forall|k1: int, k2: int|
                0 <= k1 < k2 < unsorted.len() implies unsorted[k1] != unsorted[k2] by {
                assert(unsorted[k1].0 < unsorted[k2].0);
            }
            assert(unsorted.no_duplicates());
            unsorted.lemma_multiset_has_no_duplicates();
            v@.lemma_multiset_has_no_duplicates_conv();
            assert forall|k: int| 0 <= k < v@.len() implies {
                let d = self.documents@[spec_doc_idx_by_id(self.documents@, (#[trigger] v@[k]).0)];
                &&& spec_has_doc_id(self.documents@, v@[k].0)
                &&& spec_lex_qualifies(d, qtv, fv)
                &&& spec_row_renders(
                    v@[k],
                    d,
                    spec_lex_raw(qtv, spec_tokenize(d.content@)),
                    self.collections@,
                )
            } by {
                vstd::seq_lib::to_multiset_contains(v@, v@[k]);
                vstd::seq_lib::to_multiset_contains(unsorted, v@[k]);
                assert(v@.contains(v@[k]));
                assert(unsorted.contains(v@[k]));
                let k0 = choose|k0: int| 0 <= k0 < unsorted.len() && unsorted[k0] == v@[k];
                assert(unsorted[k0] == v@[k]);
            }
            assert forall|t: int|
                0 <= t < self.documents@.len() && spec_lex_qualifies(
                #[trigger] self.documents@[t],
                qtv,
                fv,
            ) implies exists|k: int|
                0 <= k < v@.len() && (#[trigger] v@[k]).0 == self.documents@[t].id by {
                let k0 = choose|k0: int|
                    0 <= k0 < unsorted.len() && (#[trigger] unsorted[k0]).0
                        == self.documents@[t].id;
                vstd::seq_lib::to_multiset_contains(unsorted, unsorted[k0]);
                vstd::seq_lib::to_multiset_contains(v@, unsorted[k0]);
                assert(unsorted.contains(unsorted[k0]));
                assert(v@.contains(unsorted[k0]));
                let k = choose|k: int| 0 <= k < v@.len() && v@[k] == unsorted[k0];
                assert(v@[k].0 == self.documents@[t].id);
            }
            assert forall|k1: int, k2: int|
                0 <= k1 < k2 < v@.len() implies (#[trigger] v@[k1]).0 != (#[trigger] v@[k2]).0 by {
                if v@[k1].0 == v@[k2].0 {
                    vstd::seq_lib::to_multiset_contains(v@, v@[k1]);
                    vstd::seq_lib::to_multiset_contains(unsorted, v@[k1]);
                    vstd::seq_lib::to_multiset_contains(v@, v@[k2]);
                    vstd::seq_lib::to_multiset_contains(unsorted, v@[k2]);
                    assert(v@.contains(v@[k1]));
                    assert(v@.contains(v@[k2]));
                    assert(unsorted.contains(v@[k1]));
                    assert(unsorted.contains(v@[k2]));
                    let a = choose|a: int| 0 <= a < unsorted.len() && unsorted[a] == v@[k1];
                    let b = choose|b: int| 0 <= b < unsorted.len() && unsorted[b] == v@[k2];
                    if a < b {
                        assert(unsorted[a].0 < unsorted[b].0);
                    } else if b < a {
                        assert(unsorted[b].0 < unsorted[a].0);
                    }
                    assert(a == b);
                    assert(v@[k1] == v@[k2]);
                    assert(v@.no_duplicates());
                }
            }
        }
        Ok(v)
    }
}


impl Database {
    /// The two-tier keyword path: the indexed tier's rows when it finds
    /// any, else the substring fallback's — the fallback runs exactly when
    /// the indexed tier comes back empty.
    pub fn keyword_search(&self, query: &str, collection_ids: Option<&Vec<i64>>) -> (r: Result<
        Vec<SearchRow>,
        Error,
    >)
        requires
            self.wf(),
        ensures
            r is Ok,
            r matches Ok(v) ==> {
                let fv = spec_filter_view(collection_ids);
                &&& spec_any_lex_match(*self, query@, fv) ==> spec_lexical_results_ok(
                    *self,
                    query@,
                    fv,
                    v@,
                )
                &&& !spec_any_lex_match(*self, query@, fv) ==> spec_substring_results_ok(
                    *self,
                    query@,
                    fv,
                    v@,
                )
            },
    {
        let ghost fv = spec_filter_view(collection_ids);
        let tier1 = match self.lexical_search(query, collection_ids) {
            Ok(v) => v,
            Err(e) => {
                return Err(e);
            },
        };
        if tier1.len() > 0 {
            proof {
                let di = spec_doc_idx_by_id(self.documents@, tier1@[0].0);
                assert(spec_lex_qualifies(
                    self.documents@[di],
                    spec_tokenize(query@),
                    fv,
                ));
                assert(spec_any_lex_match(*self, query@, fv));
            }
            Ok(tier1)
        } else {
            proof {
                if spec_any_lex_match(*self, query@, fv) {
                    let i = choose|i: int|
                        0 <= i < self.documents@.len() && spec_lex_qualifies(
                            #[trigger] self.documents@[i],
                            spec_tokenize(query@),
                            fv,
                        );
                    assert(exists|k: int|
                        0 <= k < tier1@.len() && (#[trigger] tier1@[k]).0
                            == self.documents@[i].id);
                }
                assert(!spec_any_lex_match(*self, query@, fv));
            }
            self.substring_search(query, collection_ids)
        }
    }
}

} // verus!
