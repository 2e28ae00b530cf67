//! Search modes, ranked results, and the context block built from them.

use vstd::prelude::*;
use vstd::string::{StringExecFns, StrSliceExecFns};
use crate::error::Error;
use crate::fmt::{spec_dec_digits, spec_fmt_milli, fmt_u64, fmt_milli};
use crate::textproc::str_eq;

verus! {

/// The three retrieval strategies: embedding similarity, lexical match,
/// and their weighted fusion.
#[derive(Debug, Clone, Copy, PartialEq, Eq, Structural)]
pub enum SearchMode {
    Semantic,
    Keyword,
    Hybrid,
}

impl Default for SearchMode {
    /// Semantic search is the default mode.
    fn default() -> (m: SearchMode)
        ensures
            m == SearchMode::Semantic,
    {
        SearchMode::Semantic
    }
}

impl SearchMode {
    /// Parses a mode tag; an unrecognized tag is rejected with
    /// `InvalidInput` rather than silently defaulted, so misconfiguration
    /// stays visible.
    pub fn parse(s: &str) -> (r: Result<SearchMode, Error>)
        ensures
            s@ == "semantic"@ ==> r == Ok::<SearchMode, Error>(SearchMode::Semantic),
            s@ == "keyword"@ ==> r == Ok::<SearchMode, Error>(SearchMode::Keyword),
            s@ == "hybrid"@ ==> r == Ok::<SearchMode, Error>(SearchMode::Hybrid),
            s@ != "semantic"@ && s@ != "keyword"@ && s@ != "hybrid"@ ==> {
                &&& r is Err
                &&& r->Err_0 is InvalidInput
            },
    {
        proof {
            broadcast use vstd::string::group_string_axioms;

            reveal_strlit("semantic");
            reveal_strlit("keyword");
            reveal_strlit("hybrid");
            assert("semantic"@.len() == 8);
            assert("keyword"@.len() == 7);
            assert("hybrid"@.len() == 6);
        }
        if str_eq(s, "semantic") {
            Ok(SearchMode::Semantic)
        } else if str_eq(s, "keyword") {
            Ok(SearchMode::Keyword)
        } else if str_eq(s, "hybrid") {
            Ok(SearchMode::Hybrid)
        } else {
            Err(Error::InvalidInput(String::from_str("unknown search mode")))
        }
    }
}

/// One ranked result: a document with its score in milli-units.
#[derive(Debug, Clone)]
pub struct SearchResult {
    pub document_id: i64,
    pub content: String,
    pub score: i64,
    pub metadata: Option<String>,
    pub collection_name: String,
}

impl SearchResult {
    /// Assembles a search result from its parts.
    pub fn new(
        document_id: i64,
        content: String,
        score: i64,
        metadata: Option<String>,
        collection_name: String,
    ) -> (r: SearchResult)
        ensures
            r.document_id == document_id,
            r.content == content,
            r.score == score,
            r.metadata == metadata,
            r.collection_name == collection_name,
    {
        SearchResult { document_id, content, score, metadata, collection_name }
    }
}

/// Results stand in non-increasing score order.
pub open spec fn spec_results_sorted(v: Seq<SearchResult>) -> bool {
    forall|k1: int, k2: int|
        0 <= k1 < k2 < v.len() ==> (#[trigger] v[k1]).score >= (#[trigger] v[k2]).score
}

/// Sorts results into non-increasing score order, keeping exactly the same
/// results; results of equal score keep their relative order. The kept
/// order is stated for the callers that need it: when the input stands in
/// strictly increasing document-id order — the candidate order — results
/// of equal score come out with their ids still increasing.
pub fn sort_results_desc(v: &mut Vec<SearchResult>)
    ensures
        final(v)@.len() == old(v)@.len(),
        final(v)@.to_multiset() == old(v)@.to_multiset(),
        spec_results_sorted(final(v)@),
        (forall|k1: int, k2: int|
            0 <= k1 < k2 < old(v)@.len() ==> (#[trigger] old(v)@[k1]).document_id < (
            #[trigger] old(v)@[k2]).document_id) ==> spec_ties_in_candidate_order(final(v)@),
{
    let ghost ids_increasing = forall|k1: int, k2: int|
        0 <= k1 < k2 < old(v)@.len() ==> (#[trigger] old(v)@[k1]).document_id < (
        #[trigger] old(v)@[k2]).document_id;
    let n = v.len();
    if n <= 1 {
        return;
    }
    let mut i: usize = 1;
    while i < n
        invariant
            1 <= i <= n,
            n == v@.len(),
            v@.len() == old(v)@.len(),
            v@.to_multiset() == old(v)@.to_multiset(),
            spec_results_sorted(v@.take(i as int)),
            ids_increasing == (forall|k1: int, k2: int|
                0 <= k1 < k2 < old(v)@.len() ==> (#[trigger] old(v)@[k1]).document_id < (
                #[trigger] old(v)@[k2]).document_id),
            ids_increasing ==> spec_ties_in_candidate_order(v@),
        decreases n - i,
    {
        let mut j: usize = 0;
        while j < i && v[j].score >= v[i].score
            invariant
                0 <= j <= i < v@.len(),
                forall|t: int| 0 <= t < j ==> (#[trigger] v@[t]).score >= v@[i as int].score,
            decreases i - j,
        {
            j = j + 1;
        }
        let ghost pre = v@;
        let x = v.remove(i);
        v.insert(j, x);
        proof {
            broadcast use vstd::multiset::group_multiset_axioms;

            vstd::seq_lib::to_multiset_remove(pre, i as int);
            vstd::seq_lib::to_multiset_insert(pre.remove(i as int), j as int, x);
            vstd::seq_lib::to_multiset_contains(pre, x);
            assert(pre.contains(x)) by {
                assert(pre[i as int] == x);
            }
            assert(v@ == pre.remove(i as int).insert(j as int, x));
            assert(v@.to_multiset() =~= pre.to_multiset());
            assert(forall|t: int| 0 <= t < i ==> pre.take(i as int)[t] == #[trigger] pre[t]);
            if j < i {
                assert(!(pre[j as int].score >= x.score));
            }
            assert forall|t: int| j <= t < i implies x.score >= (#[trigger] pre[t]).score by {
                assert(pre.take(i as int)[t] == pre[t]);
                if t > j {
                    assert(pre.take(i as int)[j as int].score >= pre.take(i as int)[t].score);
                }
            }
            assert forall|k1: int, k2: int|
                0 <= k1 < k2 < i + 1 implies (#[trigger] v@[k1]).score
                >= (#[trigger] v@[k2]).score by {
                if k1 < j {
                    assert(v@[k1] == pre[k1]);
                } else if k1 == j {
                    assert(v@[k1] == x);
                } else {
                    assert(v@[k1] == pre[k1 - 1]);
                }
                if k2 < j {
                    assert(v@[k2] == pre[k2]);
                } else if k2 == j {
                    assert(v@[k2] == x);
                } else {
                    assert(v@[k2] == pre[k2 - 1]);
                }
                if k2 < j {
                    assert(pre.take(i as int)[k1].score >= pre.take(i as int)[k2].score);
                } else if k2 == j {
                    assert(pre[k1].score >= x.score);
                } else if k1 < j {
                    if k1 < k2 - 1 {
                        assert(pre.take(i as int)[k1].score >= pre.take(i as int)[k2
                            - 1].score);
                    }
                } else if k1 == j {
                    assert(x.score >= pre[k2 - 1].score);
                } else {
                    assert(pre.take(i as int)[k1 - 1].score >= pre.take(i as int)[k2
                        - 1].score);
                }
            }
            assert(spec_results_sorted(v@.take(i as int + 1))) by {
                assert(forall|t: int|
                    0 <= t < i + 1 ==> v@.take(i as int + 1)[t] == #[trigger] v@[t]);
            }
            if ids_increasing {
                assert forall|t: int| j <= t < i implies (#[trigger] pre[t]).score
                    < x.score by {
                    assert(pre.take(i as int)[t] == pre[t]);
                    if t > j {
                        assert(pre.take(i as int)[j as int].score >= pre.take(i as int)[t].score);
                    }
                    assert(!(pre[j as int].score >= x.score));
                }
                assert forall|k1: int, k2: int|
                    0 <= k1 < k2 < v@.len() && (#[trigger] v@[k1]).score == (
                #[trigger] v@[k2]).score implies v@[k1].document_id < v@[k2].document_id by {
                    if k1 < j {
                        assert(v@[k1] == pre[k1]);
                    } else if k1 == j {
                        assert(v@[k1] == x);
                    } else if k1 <= i {
                        assert(v@[k1] == pre[k1 - 1]);
                    } else {
                        assert(v@[k1] == pre[k1]);
                    }
                    if k2 < j {
                        assert(v@[k2] == pre[k2]);
                    } else if k2 == j {
                        assert(v@[k2] == x);
                    } else if k2 <= i {
                        assert(v@[k2] == pre[k2 - 1]);
                    } else {
                        assert(v@[k2] == pre[k2]);
                    }
                    assert(x == pre[i as int]);
                    if k1 == j {
                        if k2 <= i {
                            assert(pre[k2 - 1].score < x.score);
                        } else {
                            assert(pre[i as int].score == pre[k2].score
                                ==> pre[i as int].document_id < pre[k2].document_id);
                        }
                    } else if k2 == j {
                        if k1 < j {
                            assert(pre[k1].score == pre[i as int].score
                                ==> pre[k1].document_id < pre[i as int].document_id);
                        }
                    } else {
                        let p1 = if k1 < j { k1 } else if k1 <= i { k1 - 1 } else { k1 };
                        let p2 = if k2 < j { k2 } else if k2 <= i { k2 - 1 } else { k2 };
                        assert(p1 < p2);
                        assert(pre[p1].score == pre[p2].score ==> pre[p1].document_id
                            < pre[p2].document_id);
                    }
                }
            }
        }
        i = i + 1;
    }
    proof {
        assert(v@.take(n as int) =~= v@);
    }
}

/// Results of equal score stand in the candidate order: their document ids
/// increase down the list.
pub open spec fn spec_ties_in_candidate_order(v: Seq<SearchResult>) -> bool {
    forall|k1: int, k2: int|
        0 <= k1 < k2 < v.len() && (#[trigger] v[k1]).score == (#[trigger] v[k2]).score
            ==> v[k1].document_id < v[k2].document_id
}

/// One source block of the context: a header with the 1-based source
/// number, the score to three decimals and the collection name, then the
/// document's content on the next line.
pub open spec fn spec_source_block(i: nat, r: SearchResult) -> Seq<char> {
    "[Source "@ + spec_dec_digits(i) + "] (Score: "@ + spec_fmt_milli(r.score as int)
        + ", Collection: "@ + r.collection_name@ + ")\n"@ + r.content@
}

/// The whole context: the source blocks in order, consecutive blocks
/// separated by one blank line; no sources give the empty context.
pub open spec fn spec_context(sources: Seq<SearchResult>) -> Seq<char>
    decreases sources.len(),
{
    if sources.len() == 0 {
        Seq::empty()
    } else if sources.len() == 1 {
        spec_source_block(1, sources[0])
    } else {
        spec_context(sources.drop_last()) + "\n\n"@ + spec_source_block(
            sources.len(),
            sources.last(),
        )
    }
}

/// An enrichment: the original question, the ranked sources, and the
/// context block rendered from them.
#[derive(Debug, Clone)]
pub struct EnrichResult {
    pub question: String,
    pub context: String,
    pub sources: Vec<SearchResult>,
}

impl EnrichResult {
    /// Renders the ranked sources into the context block and packs the
    /// enrichment together.
    pub fn new(question: String, sources: Vec<SearchResult>) -> (r: EnrichResult)
        ensures
            r.question == question,
            r.sources == sources,
            r.context@ == spec_context(sources@),
    {
        let mut ctx = String::new();
        let n = sources.len();
        let mut i: usize = 0;
        proof {
            assert(ctx@ =~= spec_context(sources@.take(0)));
        }
        while i < n
            invariant
                0 <= i <= n,
                n == sources@.len(),
                ctx@ == spec_context(sources@.take(i as int)),
            decreases n - i,
        {
            let ghost pre = ctx@;
            if i > 0 {
                proof {
                    reveal_strlit("\n\n");
                }
                ctx.append("\n\n");
            }
            proof {
                reveal_strlit("[Source ");
                reveal_strlit("] (Score: ");
                reveal_strlit(", Collection: ");
                reveal_strlit(")\n");
            }
            ctx.append("[Source ");
            let num = fmt_u64((i as u64) + 1);
            ctx.append(num.as_str());
            ctx.append("] (Score: ");
            let sc = fmt_milli(sources[i].score);
            ctx.append(sc.as_str());
            ctx.append(", Collection: ");
            ctx.append(sources[i].collection_name.as_str());
            ctx.append(")\n");
            ctx.append(sources[i].content.as_str());
            proof {
                let cur = sources@.take(i as int + 1);
                assert(cur.drop_last() =~= sources@.take(i as int));
                assert(cur.last() == sources@[i as int]);
                if i == 0 {
                    assert(ctx@ =~= spec_source_block(1, sources@[0]));
                    assert(ctx@ =~= spec_context(cur));
                } else {
                    assert(ctx@ =~= pre + "\n\n"@ + spec_source_block(
                        i as nat + 1,
                        sources@[i as int],
                    ));
                    assert(ctx@ =~= spec_context(cur));
                }
            }
            i = i + 1;
        }
        proof {
            assert(sources@.take(n as int) =~= sources@);
        }
        EnrichResult { question, context: ctx, sources }
    }
}

} // verus!
