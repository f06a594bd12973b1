//! Query evaluation: the exact integer inputs of TF-IDF scoring, and ranking.
//!
//! For a query, `search` tokenizes the prompt with the indexing tokenizer and
//! returns, for every scorable document, the exact integers that the TF-IDF
//! formula consumes: the document's total token count, its per-query-token
//! occurrence counts, the corpus size, and each query token's document count
//! (defaulting to one for tokens absent from the corpus). Documents with no
//! tokens at all are excluded — their term frequency would divide by zero.
//! The floating-point evaluation of the scores happens outside; `rank` then
//! orders externally scored results by a strictly order-preserving integer
//! key, stably and descending.

use vstd::prelude::*;
use crate::chars::string_to_chars;
use crate::index::{
    tc_contains, tc_get, tc_lookup, DocumentRecord, SearchEngineIndex, TokenCount,
};
use crate::tokenizer::{spec_tokens, tokenize, views_of};

verus! {

/// The document count used by IDF for token `t`: the stored count when the
/// token occurs in the corpus, and one otherwise.
pub open spec fn df_or_default(dtc: Seq<TokenCount>, t: Seq<char>) -> nat {
    if tc_contains(dtc, t) {
        tc_lookup(dtc, t)
    } else {
        1
    }
}

/// The documents that can be scored: those with at least one token, in index
/// order.
pub open spec fn spec_candidates(docs: Seq<DocumentRecord>) -> Seq<DocumentRecord>
    decreases docs.len(),
{
    if docs.len() == 0 {
        Seq::empty()
    } else if docs.last().record.total_tokens > 0 {
        spec_candidates(docs.drop_last()).push(docs.last())
    } else {
        spec_candidates(docs.drop_last())
    }
}

proof fn lemma_candidates_take_step(docs: Seq<DocumentRecord>, j: int)
    requires
        0 <= j < docs.len(),
    ensures
        spec_candidates(docs.take(j + 1)) == if docs[j].record.total_tokens > 0 {
            spec_candidates(docs.take(j)).push(docs[j])
        } else {
            spec_candidates(docs.take(j))
        },
{
    assert(docs.take(j + 1).drop_last() =~= docs.take(j));
    assert(docs.take(j + 1).last() == docs[j]);
}

/// Every scorable document has a positive total token count.
pub proof fn lemma_candidates_positive(docs: Seq<DocumentRecord>)
    ensures
        forall|j: int|
            0 <= j < spec_candidates(docs).len() ==> (#[trigger] spec_candidates(
                docs,
            )[j].record.total_tokens) > 0,
    decreases docs.len(),
{
    if docs.len() > 0 {
        lemma_candidates_positive(docs.drop_last());
        let c = spec_candidates(docs);
        let cd = spec_candidates(docs.drop_last());
        assert forall|j: int| 0 <= j < c.len() implies (#[trigger] c[j].record.total_tokens)
            > 0 by {
            if docs.last().record.total_tokens > 0 && j == c.len() - 1 {
                assert(c[j] == docs.last());
            } else {
                assert(c[j] == cd[j]);
            }
        }
    }
}

/// The per-document scoring inputs for one query.
#[derive(Debug, Clone, PartialEq)]
pub struct DocTermCounts {
    pub doc_path: String,
    pub total_tokens: usize,
    pub counts: Vec<usize>,
}

/// Everything the TF-IDF formula reads for one query: the query tokens, the
/// corpus size, each query token's (defaulted) document count, and one entry
/// per scorable document.
#[derive(Debug, Clone, PartialEq)]
pub struct SearchData {
    pub num_docs: usize,
    pub tokens: Vec<String>,
    pub doc_freqs: Vec<usize>,
    pub docs: Vec<DocTermCounts>,
}

/// `e` carries exactly the scoring inputs of document `rec` for the query
/// tokens `toks`.
pub open spec fn doc_entry_matches(e: DocTermCounts, rec: DocumentRecord, toks: Seq<Seq<char>>) -> bool {
    &&& e.doc_path@ == rec.doc_path@
    &&& e.total_tokens == rec.record.total_tokens
    &&& e.counts@.len() == toks.len()
    &&& forall|i: int|
        0 <= i < toks.len() ==> (#[trigger] e.counts@[i]) as nat == rec.record.count_of(toks[i])
}

/// `d` is the scoring data of query `q` against `index`.
pub open spec fn search_data_matches(index: SearchEngineIndex, q: Seq<char>, d: SearchData) -> bool {
    &&& views_of(d.tokens@) == spec_tokens(q)
    &&& d.num_docs == index.documents@.len()
    &&& d.doc_freqs@.len() == spec_tokens(q).len()
    &&& forall|i: int|
        0 <= i < spec_tokens(q).len() ==> (#[trigger] d.doc_freqs@[i]) as nat == df_or_default(
            index.document_token_counts@,
            spec_tokens(q)[i],
        )
    &&& d.docs@.len() == spec_candidates(index.documents@).len()
    &&& forall|j: int|
        0 <= j < d.docs@.len() ==> doc_entry_matches(
            #[trigger] d.docs@[j],
            spec_candidates(index.documents@)[j],
            spec_tokens(q),
        )
}

/// A search engine over one loaded, read-only index.
pub struct SearchEngine {
    pub index: SearchEngineIndex,
}

impl SearchEngine {
    /// Wraps a loaded index for querying.
    pub fn new(index: SearchEngineIndex) -> (r: Self)
        ensures
            r.index == index,
    {
        SearchEngine { index }
    }

    /// Evaluates a query: tokenizes the prompt and gathers, for every
    /// document that can be scored, the exact integer inputs of its TF-IDF
    /// score. Documents whose total token count is zero are excluded.
    pub fn search(&self, prompt: &str) -> (d: SearchData)
        ensures
            search_data_matches(self.index, prompt@, d),
            forall|j: int| 0 <= j < d.docs@.len() ==> (#[trigger] d.docs@[j].total_tokens) > 0,
    {
        let chars = string_to_chars(prompt);
        let tokens = tokenize(&chars);
        let ghost toks = spec_tokens(prompt@);
        let num_docs = self.index.documents.len();

        let nt = tokens.len();
        let mut doc_freqs: Vec<usize> = Vec::new();
        let mut i: usize = 0;
        while i < nt
            invariant
                nt == tokens@.len(),
                views_of(tokens@) == toks,
                i <= nt,
                doc_freqs@.len() == i,
                forall|x: int|
                    0 <= x < i ==> (#[trigger] doc_freqs@[x]) as nat == df_or_default(
                        self.index.document_token_counts@,
                        toks[x],
                    ),
            decreases nt - i,
        {
            proof {
                assert(tokens@[i as int]@ == toks[i as int]);
            }
            let df = match tc_get(&self.index.document_token_counts, &tokens[i]) {
                Some(c) => c,
                None => 1,
            };
            doc_freqs.push(df);
            i = i + 1;
        }

        let nd = self.index.documents.len();
        let mut docs: Vec<DocTermCounts> = Vec::new();
        let mut j: usize = 0;
        proof {
            assert(self.index.documents@.take(0) =~= Seq::<DocumentRecord>::empty());
        }
        while j < nd
            invariant
                nd == self.index.documents@.len(),
                nt == tokens@.len(),
                views_of(tokens@) == toks,
                j <= nd,
                docs@.len() == spec_candidates(self.index.documents@.take(j as int)).len(),
                forall|x: int|
                    0 <= x < docs@.len() ==> doc_entry_matches(
                        #[trigger] docs@[x],
                        spec_candidates(self.index.documents@.take(j as int))[x],
                        toks,
                    ),
            decreases nd - j,
        {
            let doc = &self.index.documents[j];
            proof {
                lemma_candidates_take_step(self.index.documents@, j as int);
            }
            if doc.record.total_tokens > 0 {
                let mut counts: Vec<usize> = Vec::new();
                let mut k: usize = 0;
                while k < nt
                    invariant
                        nt == tokens@.len(),
                        views_of(tokens@) == toks,
                        k <= nt,
                        counts@.len() == k,
                        doc == &self.index.documents@[j as int],
                        forall|x: int|
                            0 <= x < k ==> (#[trigger] counts@[x]) as nat
                                == doc.record.count_of(toks[x]),
                    decreases nt - k,
                {
                    proof {
                        assert(tokens@[k as int]@ == toks[k as int]);
                    }
                    let c = match tc_get(&doc.record.token_counts, &tokens[k]) {
                        Some(c) => c,
                        None => 0,
                    };
                    counts.push(c);
                    k = k + 1;
                }
                let entry = DocTermCounts {
                    doc_path: doc.doc_path.clone(),
                    total_tokens: doc.record.total_tokens,
                    counts,
                };
                docs.push(entry);
            }
            j = j + 1;
        }
        proof {
            assert(self.index.documents@.take(nd as int) =~= self.index.documents@);
            lemma_candidates_positive(self.index.documents@);
        }
        SearchData { num_docs, tokens, doc_freqs, docs }
    }
}

/// The view of one document's scoring inputs.
pub open spec fn doc_term_view(e: DocTermCounts) -> (Seq<char>, nat, Seq<nat>) {
    (e.doc_path@, e.total_tokens as nat, Seq::new(e.counts@.len(), |i: int| e.counts@[i] as nat))
}

/// The full mathematical content of a `SearchData` value.
pub open spec fn search_data_view(d: SearchData) -> (
    Seq<Seq<char>>,
    nat,
    Seq<nat>,
    Seq<(Seq<char>, nat, Seq<nat>)>,
) {
    (
        views_of(d.tokens@),
        d.num_docs as nat,
        Seq::new(d.doc_freqs@.len(), |i: int| d.doc_freqs@[i] as nat),
        Seq::new(d.docs@.len(), |j: int| doc_term_view(d.docs@[j])),
    )
}

/// Law: query evaluation is deterministic. Any two scoring-data values for
/// the same index and query carry the same mathematical content, so repeated
/// searches return the same tokens, counts and candidates.
pub proof fn lemma_search_deterministic(
    index: SearchEngineIndex,
    q: Seq<char>,
    d1: SearchData,
    d2: SearchData,
)
    requires
        search_data_matches(index, q, d1),
        search_data_matches(index, q, d2),
    ensures
        search_data_view(d1) == search_data_view(d2),
{
    assert(Seq::new(d1.doc_freqs@.len(), |i: int| d1.doc_freqs@[i] as nat) =~= Seq::new(
        d2.doc_freqs@.len(),
        |i: int| d2.doc_freqs@[i] as nat,
    ));
    let toks = spec_tokens(q);
    let cands = spec_candidates(index.documents@);
    assert forall|j: int|
        0 <= j < d1.docs@.len() implies doc_term_view(#[trigger] d1.docs@[j]) == doc_term_view(
        d2.docs@[j],
    ) by {
        assert(doc_entry_matches(d1.docs@[j], cands[j], toks));
        assert(doc_entry_matches(d2.docs@[j], cands[j], toks));
        assert(Seq::new(d1.docs@[j].counts@.len(), |i: int| d1.docs@[j].counts@[i] as nat)
            =~= Seq::new(d2.docs@[j].counts@.len(), |i: int| d2.docs@[j].counts@[i] as nat));
    }
    assert(Seq::new(d1.docs@.len(), |j: int| doc_term_view(d1.docs@[j])) =~= Seq::new(
        d2.docs@.len(),
        |j: int| doc_term_view(d2.docs@[j]),
    ));
}

/// Whether the TF-IDF score of a scorable document is positive: some query
/// token occurs in the document and is rarer than the corpus. Each summand
/// `(count / total) * log10(num_docs / doc_freq)` is nonnegative — document
/// counts never exceed the corpus size — so the sum is positive exactly when
/// one summand is, that is when `count > 0` and `doc_freq < num_docs`.
pub open spec fn spec_positive_score(d: DocTermCounts, doc_freqs: Seq<usize>, num_docs: nat) -> bool {
    exists|i: int|
        0 <= i < d.counts@.len() && i < doc_freqs.len() && (#[trigger] d.counts@[i]) > 0
            && doc_freqs[i] < num_docs
}

/// Decides whether a scorable document's TF-IDF score is positive.
pub fn has_positive_score(d: &DocTermCounts, doc_freqs: &Vec<usize>, num_docs: usize) -> (r: bool)
    ensures
        r == spec_positive_score(*d, doc_freqs@, num_docs as nat),
{
    let n = d.counts.len();
    let m = doc_freqs.len();
    let mut i: usize = 0;
    while i < n
        invariant
            n == d.counts@.len(),
            m == doc_freqs@.len(),
            i <= n,
            forall|x: int|
                0 <= x < i ==> !(x < doc_freqs@.len() && (#[trigger] d.counts@[x]) > 0
                    && doc_freqs@[x] < num_docs),
        decreases n - i,
    {
        if i < m && d.counts[i] > 0 && doc_freqs[i] < num_docs {
            return true;
        }
        i = i + 1;
    }
    false
}

/// One ranked result: a document and the order-preserving integer key of its
/// positive floating-point score (for nonnegative scores, the bit pattern of
/// the score orders exactly as the score itself).
#[derive(Debug, Clone, PartialEq)]
pub struct SearchResult {
    pub doc_path: String,
    pub score_key: u32,
}

/// Descending order of score keys.
pub open spec fn sorted_desc(s: Seq<SearchResult>) -> bool {
    forall|i: int, j: int|
        0 <= i < j < s.len() ==> (#[trigger] s[i].score_key) >= (#[trigger] s[j].score_key)
}

/// Where a stable descending insertion puts `e`: after every element whose
/// key is at least `e`'s.
pub open spec fn insert_pos(s: Seq<SearchResult>, e: SearchResult) -> int
    decreases s.len(),
{
    if s.len() == 0 {
        0
    } else if s.last().score_key >= e.score_key {
        s.len() as int
    } else {
        insert_pos(s.drop_last(), e)
    }
}

/// `s` with `e` inserted at its stable descending position.
pub open spec fn spec_insert(s: Seq<SearchResult>, e: SearchResult) -> Seq<SearchResult>
    decreases s.len(),
{
    if s.len() == 0 {
        seq![e]
    } else if s.last().score_key >= e.score_key {
        s.push(e)
    } else {
        spec_insert(s.drop_last(), e).push(s.last())
    }
}

/// Stable insertion sort, descending by score key.
pub open spec fn spec_rank(s: Seq<SearchResult>) -> Seq<SearchResult>
    decreases s.len(),
{
    if s.len() == 0 {
        Seq::empty()
    } else {
        spec_insert(spec_rank(s.drop_last()), s.last())
    }
}

/// The defining properties of `insert_pos`, and the shape of `spec_insert`.
pub proof fn lemma_insert_shape(s: Seq<SearchResult>, e: SearchResult)
    ensures
        0 <= insert_pos(s, e) <= s.len(),
        forall|i: int|
            insert_pos(s, e) <= i < s.len() ==> (#[trigger] s[i].score_key) < e.score_key,
        insert_pos(s, e) > 0 ==> s[insert_pos(s, e) - 1].score_key >= e.score_key,
        spec_insert(s, e) == s.take(insert_pos(s, e)).push(e) + s.skip(insert_pos(s, e)),
    decreases s.len(),
{
    let p = insert_pos(s, e);
    if s.len() == 0 {
        assert(spec_insert(s, e) =~= s.take(0).push(e) + s.skip(0));
    } else if s.last().score_key >= e.score_key {
        assert(spec_insert(s, e) =~= s.take(s.len() as int).push(e) + s.skip(s.len() as int));
    } else {
        lemma_insert_shape(s.drop_last(), e);
        assert forall|i: int| p <= i < s.len() implies (#[trigger] s[i].score_key)
            < e.score_key by {
            if i < s.len() - 1 {
                assert(s.drop_last()[i] == s[i]);
            }
        }
        if p > 0 {
            assert(s.drop_last()[p - 1] == s[p - 1]);
        }
        assert(spec_insert(s, e) == spec_insert(s.drop_last(), e).push(s.last()));
        assert(spec_insert(s, e) =~= s.take(p).push(e) + s.skip(p)) by {
            assert(spec_insert(s.drop_last(), e) == s.drop_last().take(p).push(e)
                + s.drop_last().skip(p));
            assert(s.drop_last().take(p) =~= s.take(p));
        }
    }
}

/// Stable insertion keeps a descending sequence descending.
pub proof fn lemma_insert_sorted(s: Seq<SearchResult>, e: SearchResult)
    requires
        sorted_desc(s),
    ensures
        sorted_desc(spec_insert(s, e)),
{
    lemma_insert_shape(s, e);
    let p = insert_pos(s, e);
    let r = spec_insert(s, e);
    assert(r.len() == s.len() + 1);
    assert forall|i: int, j: int| 0 <= i < j < r.len() implies (#[trigger] r[i].score_key) >= (
    #[trigger] r[j].score_key) by {
        assert(forall|x: int| 0 <= x < p ==> r[x] == s[x]);
        assert(r[p] == e);
        assert(forall|x: int| p < x < r.len() ==> r[x] == s[x - 1]);
        if i < p && j == p {
            assert(s[p - 1].score_key >= e.score_key);
            assert(s[i].score_key >= s[p - 1].score_key);
        }
    }
}

/// Insertion adds exactly one occurrence of the inserted element.
pub proof fn lemma_insert_multiset(s: Seq<SearchResult>, e: SearchResult)
    ensures
        spec_insert(s, e).to_multiset() == s.to_multiset().insert(e),
    decreases s.len(),
{
    broadcast use vstd::seq_lib::group_to_multiset_ensures;

    if s.len() == 0 {
        assert(spec_insert(s, e) =~= Seq::<SearchResult>::empty().push(e));
        assert(Seq::<SearchResult>::empty().push(e).to_multiset() =~= s.to_multiset().insert(e));
    } else if s.last().score_key >= e.score_key {
        assert(s.push(e).to_multiset() =~= s.to_multiset().insert(e));
    } else {
        lemma_insert_multiset(s.drop_last(), e);
        let dl = s.drop_last();
        assert(s =~= dl.push(s.last()));
        assert(s.to_multiset() == dl.push(s.last()).to_multiset());
        assert(dl.push(s.last()).to_multiset() =~= dl.to_multiset().insert(s.last()));
        assert(spec_insert(s, e).to_multiset() =~= spec_insert(dl, e).to_multiset().insert(
            s.last(),
        ));
        assert(dl.to_multiset().insert(e).insert(s.last()) =~= dl.to_multiset().insert(
            s.last(),
        ).insert(e));
    }
}

/// Law: ranking sorts. The ranked sequence is descending by score key and is
/// a permutation of its input.
pub proof fn lemma_rank_props(s: Seq<SearchResult>)
    ensures
        sorted_desc(spec_rank(s)),
        spec_rank(s).to_multiset() == s.to_multiset(),
        spec_rank(s).len() == s.len(),
    decreases s.len(),
{
    broadcast use vstd::seq_lib::group_to_multiset_ensures;

    if s.len() == 0 {
    } else {
        let dl = s.drop_last();
        lemma_rank_props(dl);
        lemma_insert_sorted(spec_rank(dl), s.last());
        lemma_insert_multiset(spec_rank(dl), s.last());
        lemma_insert_shape(spec_rank(dl), s.last());
        assert(s =~= dl.push(s.last()));
        assert(dl.push(s.last()).to_multiset() =~= dl.to_multiset().insert(s.last()));
        assert(spec_rank(s).to_multiset() =~= s.to_multiset());
    }
}

/// Sorts externally scored results: stably, descending by score key. The
/// result is pinned to `spec_rank`, so ranking is deterministic; it is a
/// descending permutation of its input.
pub fn rank(results: Vec<SearchResult>) -> (r: Vec<SearchResult>)
    ensures
        r@ == spec_rank(results@),
        sorted_desc(r@),
        r@.to_multiset() == results@.to_multiset(),
{
    let ghost all = results@;
    let mut input = results;
    let total = input.len();
    let mut out: Vec<SearchResult> = Vec::new();
    let mut k: usize = 0;
    proof {
        assert(all.take(0) =~= Seq::<SearchResult>::empty());
        assert(all.skip(0) =~= all);
    }
    while input.len() > 0
        invariant
            total == all.len(),
            k + input@.len() == all.len(),
            input@ == all.skip(k as int),
            out@ == spec_rank(all.take(k as int)),
        decreases input@.len(),
    {
        let e = input.remove(0);
        proof {
            assert(all.skip(k as int).remove(0) =~= all.skip(k + 1));
            assert(e == all[k as int]);
        }
        let ghost pre = out@;
        let n = out.len();
        let mut p: usize = n;
        while p > 0 && out[p - 1].score_key < e.score_key
            invariant
                n == out@.len(),
                p <= n,
                forall|x: int| p <= x < n ==> (#[trigger] out@[x].score_key) < e.score_key,
            decreases p,
        {
            p = p - 1;
        }
        proof {
            lemma_insert_shape(pre, e);
            let sp = insert_pos(pre, e);
            if p < sp {
                assert(pre[sp - 1].score_key < e.score_key);
            }
            if p > sp {
                assert(pre[p - 1].score_key < e.score_key);
                assert(pre[p - 1].score_key >= e.score_key);
            }
            assert(p as int == sp);
        }
        out.insert(p, e);
        proof {
            assert(out@ =~= pre.take(p as int).push(e) + pre.skip(p as int));
            assert(all.take(k + 1).drop_last() =~= all.take(k as int));
            assert(all.take(k + 1).last() == all[k as int]);
            assert(spec_rank(all.take(k + 1)) == spec_insert(spec_rank(all.take(k as int)), e));
        }
        k = k + 1;
    }
    proof {
        assert(all.take(k as int) =~= all);
        lemma_rank_props(all);
    }
    out
}

} // verus!
