//! Frequency accounting: per-document token counts and the aggregate index.
//!
//! A `DocumentFrequencyRecord` counts how often each token occurs within one
//! document, together with the document's total token count. The
//! `SearchEngineIndex` aggregates one record per document and, across
//! documents, how many distinct documents contain each token. Counts are kept
//! as association lists with pairwise-distinct keys; `tc_lookup` (zero for
//! absent tokens) is their mathematical reading.

use vstd::prelude::*;
use crate::tokenizer::{spec_tokens, tokenize, views_of};

verus! {

/// One token together with an occurrence count.
#[derive(Debug, Clone, PartialEq)]
pub struct TokenCount {
    pub token: String,
    pub count: usize,
}

/// Whether the association list `s` has an entry for `tok`.
pub open spec fn tc_contains(s: Seq<TokenCount>, tok: Seq<char>) -> bool {
    exists|i: int| 0 <= i < s.len() && (#[trigger] s[i].token@) == tok
}

/// The count stored for `tok` in `s`, zero when absent.
pub open spec fn tc_lookup(s: Seq<TokenCount>, tok: Seq<char>) -> nat
    decreases s.len(),
{
    if s.len() == 0 {
        0
    } else if s[0].token@ == tok {
        s[0].count as nat
    } else {
        tc_lookup(s.skip(1), tok)
    }
}

/// The entries of `s` are keyed by pairwise-distinct tokens.
pub open spec fn tc_distinct(s: Seq<TokenCount>) -> bool {
    forall|i: int, j: int| 0 <= i < j < s.len() ==> (#[trigger] s[i].token@) != (#[trigger] s[j].token@)
}

/// Every stored count is at least one.
pub open spec fn tc_positive(s: Seq<TokenCount>) -> bool {
    forall|i: int| 0 <= i < s.len() ==> (#[trigger] s[i].count) >= 1
}

/// The sum of all stored counts.
pub open spec fn tc_sum(s: Seq<TokenCount>) -> nat
    decreases s.len(),
{
    if s.len() == 0 {
        0
    } else {
        s[0].count as nat + tc_sum(s.skip(1))
    }
}

/// The keys of `s`, in order.
pub open spec fn tc_tokens(s: Seq<TokenCount>) -> Seq<Seq<char>> {
    Seq::new(s.len(), |i: int| s[i].token@)
}

/// An absent token looks up to zero.
pub proof fn lemma_tc_lookup_absent(s: Seq<TokenCount>, tok: Seq<char>)
    requires
        !tc_contains(s, tok),
    ensures
        tc_lookup(s, tok) == 0,
    decreases s.len(),
{
    if s.len() > 0 {
        assert(s[0].token@ != tok);
        assert(!tc_contains(s.skip(1), tok)) by {
            assert forall|i: int| 0 <= i < s.skip(1).len() implies (#[trigger] s.skip(
                1,
            )[i].token@) != tok by {
                assert(s.skip(1)[i] == s[i + 1]);
            }
        }
        lemma_tc_lookup_absent(s.skip(1), tok);
    }
}

/// With distinct keys, the entry at `i` is what its token looks up to.
pub proof fn lemma_tc_lookup_at(s: Seq<TokenCount>, i: int)
    requires
        tc_distinct(s),
        0 <= i < s.len(),
    ensures
        tc_lookup(s, s[i].token@) == s[i].count,
    decreases s.len(),
{
    if i > 0 {
        assert(s[0].token@ != s[i].token@);
        assert(tc_distinct(s.skip(1))) by {
            assert forall|a: int, b: int| 0 <= a < b < s.skip(1).len() implies (#[trigger] s.skip(
                1,
            )[a].token@) != (#[trigger] s.skip(1)[b].token@) by {
                assert(s.skip(1)[a] == s[a + 1] && s.skip(1)[b] == s[b + 1]);
            }
        }
        assert(s.skip(1)[i - 1] == s[i]);
        lemma_tc_lookup_at(s.skip(1), i - 1);
    }
}

/// With positive counts, no lookup exceeds the total.
pub proof fn lemma_tc_lookup_le_sum(s: Seq<TokenCount>, tok: Seq<char>)
    ensures
        tc_lookup(s, tok) <= tc_sum(s),
    decreases s.len(),
{
    if s.len() > 0 && s[0].token@ != tok {
        lemma_tc_lookup_le_sum(s.skip(1), tok);
    }
}

/// Distinctness and positivity restricted to a tail.
proof fn lemma_tc_skip_one(s: Seq<TokenCount>)
    requires
        s.len() > 0,
    ensures
        tc_distinct(s) ==> tc_distinct(s.skip(1)),
        tc_positive(s) ==> tc_positive(s.skip(1)),
{
    if tc_distinct(s) {
        assert forall|a: int, b: int| 0 <= a < b < s.skip(1).len() implies (#[trigger] s.skip(
            1,
        )[a].token@) != (#[trigger] s.skip(1)[b].token@) by {
            assert(s.skip(1)[a] == s[a + 1] && s.skip(1)[b] == s[b + 1]);
        }
    }
    if tc_positive(s) {
        assert forall|i: int| 0 <= i < s.skip(1).len() implies (#[trigger] s.skip(1)[i].count)
            >= 1 by {
            assert(s.skip(1)[i] == s[i + 1]);
        }
    }
}

/// How every lookup changes when the entry at `i` is replaced by one with the
/// same token.
pub proof fn lemma_tc_update(s: Seq<TokenCount>, i: int, e: TokenCount)
    requires
        0 <= i < s.len(),
        e.token@ == s[i].token@,
        tc_distinct(s),
    ensures
        forall|t: Seq<char>|
            #[trigger] tc_lookup(s.update(i, e), t) == if t == e.token@ {
                e.count as nat
            } else {
                tc_lookup(s, t)
            },
        tc_distinct(s.update(i, e)),
        tc_sum(s.update(i, e)) == tc_sum(s) - s[i].count + e.count,
    decreases s.len(),
{
    let s2 = s.update(i, e);
    assert(tc_distinct(s2)) by {
        assert forall|a: int, b: int| 0 <= a < b < s2.len() implies (#[trigger] s2[a].token@) != (
        #[trigger] s2[b].token@) by {
            assert(s2[a].token@ == s[a].token@ && s2[b].token@ == s[b].token@);
        }
    }
    if i == 0 {
        assert(s2.skip(1) =~= s.skip(1));
    } else {
        lemma_tc_skip_one(s);
        lemma_tc_update(s.skip(1), i - 1, e);
        assert(s2.skip(1) =~= s.skip(1).update(i - 1, e));
        assert(s2[0] == s[0]);
        assert(s[0].token@ != e.token@);
        assert forall|t: Seq<char>| true implies #[trigger] tc_lookup(s2, t) == (if t == e.token@ {
            e.count as nat
        } else {
            tc_lookup(s, t)
        }) by {
            assert(tc_lookup(s.skip(1).update(i - 1, e), t) == if t == e.token@ {
                e.count as nat
            } else {
                tc_lookup(s.skip(1), t)
            });
        }
    }
}

/// How every lookup changes when a fresh entry is pushed at the end.
pub proof fn lemma_tc_push(s: Seq<TokenCount>, e: TokenCount)
    requires
        !tc_contains(s, e.token@),
    ensures
        forall|t: Seq<char>|
            #[trigger] tc_lookup(s.push(e), t) == if t == e.token@ {
                e.count as nat
            } else {
                tc_lookup(s, t)
            },
        tc_distinct(s) ==> tc_distinct(s.push(e)),
        tc_sum(s.push(e)) == tc_sum(s) + e.count,
    decreases s.len(),
{
    let s2 = s.push(e);
    if s.len() == 0 {
        assert(s2.skip(1) =~= Seq::<TokenCount>::empty());
        assert(s2[0] == e);
    } else {
        assert(s[0].token@ != e.token@);
        assert(!tc_contains(s.skip(1), e.token@)) by {
            assert forall|i: int| 0 <= i < s.skip(1).len() implies (#[trigger] s.skip(
                1,
            )[i].token@) != e.token@ by {
                assert(s.skip(1)[i] == s[i + 1]);
            }
        }
        lemma_tc_push(s.skip(1), e);
        assert(s2.skip(1) =~= s.skip(1).push(e));
        assert(s2[0] == s[0]);
    }
    if tc_distinct(s) {
        assert forall|a: int, b: int| 0 <= a < b < s2.len() implies (#[trigger] s2[a].token@) != (
        #[trigger] s2[b].token@) by {
            if b < s.len() {
                assert(s2[a] == s[a] && s2[b] == s[b]);
            } else {
                assert(s2[b] == e && s2[a] == s[a]);
            }
        }
    }
    assert forall|t: Seq<char>|
        #[trigger] tc_lookup(s2, t) == (if t == e.token@ {
            e.count as nat
        } else {
            tc_lookup(s, t)
        }) by {
        if s.len() == 0 {
            assert(s2[0] == e);
            assert(s2.skip(1) =~= Seq::<TokenCount>::empty());
            assert(tc_lookup(Seq::<TokenCount>::empty(), t) == 0);
        } else {
            assert(tc_lookup(s.skip(1).push(e), t) == if t == e.token@ {
                e.count as nat
            } else {
                tc_lookup(s.skip(1), t)
            });
            assert(s2[0] == s[0]);
            assert(tc_lookup(s2, t) == if s2[0].token@ == t {
                s2[0].count as nat
            } else {
                tc_lookup(s2.skip(1), t)
            });
        }
    }
    assert(tc_sum(s2) == tc_sum(s) + e.count) by {
        if s.len() == 0 {
            assert(s2[0] == e);
            assert(s2.skip(1) =~= Seq::<TokenCount>::empty());
            assert(tc_sum(Seq::<TokenCount>::empty()) == 0);
        } else {
            assert(s2[0] == s[0]);
            assert(tc_sum(s.skip(1).push(e)) == tc_sum(s.skip(1)) + e.count);
            assert(tc_sum(s2) == s2[0].count as nat + tc_sum(s2.skip(1)));
        }
    }
}

/// The first matching entry is what a token looks up to.
pub proof fn lemma_tc_lookup_first(s: Seq<TokenCount>, i: int)
    requires
        0 <= i < s.len(),
        forall|j: int| 0 <= j < i ==> (#[trigger] s[j].token@) != s[i].token@,
    ensures
        tc_lookup(s, s[i].token@) == s[i].count,
    decreases s.len(),
{
    if i > 0 {
        assert(s[0].token@ != s[i].token@);
        assert(s.skip(1)[i - 1] == s[i]);
        assert forall|j: int| 0 <= j < i - 1 implies (#[trigger] s.skip(1)[j].token@) != s.skip(
            1,
        )[i - 1].token@ by {
            assert(s.skip(1)[j] == s[j + 1]);
        }
        lemma_tc_lookup_first(s.skip(1), i - 1);
    }
}

/// Finds the entry for `tok` in `counts`, scanning from the front.
pub fn tc_find(counts: &Vec<TokenCount>, tok: &String) -> (r: Option<usize>)
    ensures
        match r {
            Some(i) => i < counts@.len() && counts@[i as int].token@ == tok@ && forall|j: int|
                0 <= j < i ==> (#[trigger] counts@[j].token@) != tok@,
            None => !tc_contains(counts@, tok@),
        },
{
    let n = counts.len();
    let mut i: usize = 0;
    while i < n
        invariant
            n == counts@.len(),
            i <= n,
            forall|j: int| 0 <= j < i ==> (#[trigger] counts@[j].token@) != tok@,
        decreases n - i,
    {
        if counts[i].token == *tok {
            return Some(i);
        }
        i = i + 1;
    }
    None
}

/// Adds one occurrence of `tok` to `counts`: the stored count grows by one,
/// every other entry is untouched, and a first occurrence appends a fresh
/// entry with count one.
pub fn bump_count(counts: &mut Vec<TokenCount>, tok: &String)
    requires
        tc_distinct(old(counts)@),
        tc_positive(old(counts)@),
        tc_lookup(old(counts)@, tok@) < usize::MAX,
    ensures
        tc_distinct(final(counts)@),
        tc_positive(final(counts)@),
        tc_lookup(final(counts)@, tok@) == tc_lookup(old(counts)@, tok@) + 1,
        forall|t: Seq<char>|
            t != tok@ ==> #[trigger] tc_lookup(final(counts)@, t) == tc_lookup(old(counts)@, t),
        tc_sum(final(counts)@) == tc_sum(old(counts)@) + 1,
        tc_tokens(final(counts)@) == if tc_contains(old(counts)@, tok@) {
            tc_tokens(old(counts)@)
        } else {
            tc_tokens(old(counts)@).push(tok@)
        },
{
    let found = tc_find(counts, tok);
    match found {
        Some(i) => {
            proof {
                lemma_tc_lookup_at(counts@, i as int);
            }
            let c = counts[i].count;
            let t = counts[i].token.clone();
            let e = TokenCount { token: t, count: c + 1 };
            proof {
                lemma_tc_update(counts@, i as int, e);
            }
            counts[i] = e;
            proof {
                assert(tc_positive(counts@)) by {
                    assert forall|j: int| 0 <= j < counts@.len() implies (
                    #[trigger] counts@[j].count) >= 1 by {
                        if j != i {
                            assert(counts@[j] == old(counts)@[j]);
                        }
                    }
                }
                assert(tc_tokens(counts@) =~= tc_tokens(old(counts)@));
            }
        },
        None => {
            let e = TokenCount { token: tok.clone(), count: 1 };
            proof {
                lemma_tc_lookup_absent(counts@, tok@);
                lemma_tc_push(counts@, e);
            }
            counts.push(e);
            proof {
                assert(tc_positive(counts@)) by {
                    assert forall|j: int| 0 <= j < counts@.len() implies (
                    #[trigger] counts@[j].count) >= 1 by {
                        if j < counts@.len() - 1 {
                            assert(counts@[j] == old(counts)@[j]);
                        }
                    }
                }
                assert(tc_tokens(counts@) =~= tc_tokens(old(counts)@).push(tok@));
            }
        },
    }
}

/// The count stored for `tok`, or `None` when no entry holds it.
pub fn tc_get(counts: &Vec<TokenCount>, tok: &String) -> (r: Option<usize>)
    ensures
        match r {
            Some(c) => tc_contains(counts@, tok@) && c as nat == tc_lookup(counts@, tok@),
            None => !tc_contains(counts@, tok@) && tc_lookup(counts@, tok@) == 0,
        },
{
    let found = tc_find(counts, tok);
    match found {
        Some(i) => {
            proof {
                lemma_tc_lookup_first(counts@, i as int);
            }
            Some(counts[i].count)
        },
        None => {
            proof {
                lemma_tc_lookup_absent(counts@, tok@);
            }
            None
        },
    }
}

/// How many of the tokens in `toks` equal `t`.
pub open spec fn occ(toks: Seq<Seq<char>>, t: Seq<char>) -> nat
    decreases toks.len(),
{
    if toks.len() == 0 {
        0
    } else {
        occ(toks.drop_last(), t) + if toks.last() == t {
            1nat
        } else {
            0nat
        }
    }
}

/// Per-document frequency data: each token's occurrence count within the
/// document, and the total number of tokens the document yielded.
#[derive(Debug, Clone, PartialEq)]
pub struct DocumentFrequencyRecord {
    pub token_counts: Vec<TokenCount>,
    pub total_tokens: usize,
}

impl DocumentFrequencyRecord {
    /// Counts are positive, keys distinct, and the total is the sum of all
    /// counts.
    pub open spec fn wf(self) -> bool {
        &&& tc_distinct(self.token_counts@)
        &&& tc_positive(self.token_counts@)
        &&& self.total_tokens == tc_sum(self.token_counts@)
    }

    /// The occurrence count recorded for `tok`, zero when absent.
    pub open spec fn count_of(self, tok: Seq<char>) -> nat {
        tc_lookup(self.token_counts@, tok)
    }

    /// An empty record: no tokens at all.
    pub fn new() -> (r: Self)
        ensures
            r.wf(),
            r.total_tokens == 0,
            r.token_counts@ == Seq::<TokenCount>::empty(),
            forall|t: Seq<char>| #[trigger] r.count_of(t) == 0,
    {
        let r = DocumentFrequencyRecord { token_counts: Vec::new(), total_tokens: 0 };
        proof {
            assert forall|t: Seq<char>| #[trigger] r.count_of(t) == 0 by {
                lemma_tc_lookup_absent(r.token_counts@, t);
            }
        }
        r
    }

    /// Records one more occurrence of `tok`.
    pub fn add_token(&mut self, tok: &String)
        requires
            old(self).wf(),
            old(self).total_tokens < usize::MAX,
        ensures
            final(self).wf(),
            final(self).total_tokens == old(self).total_tokens + 1,
            final(self).count_of(tok@) == old(self).count_of(tok@) + 1,
            forall|t: Seq<char>|
                t != tok@ ==> #[trigger] final(self).count_of(t) == old(self).count_of(t),
    {
        proof {
            lemma_tc_lookup_le_sum(self.token_counts@, tok@);
        }
        bump_count(&mut self.token_counts, tok);
        self.total_tokens = self.total_tokens + 1;
    }

    /// Tokenizes `text` and records every token it yields.
    pub fn add_text(&mut self, text: &Vec<char>)
        requires
            old(self).wf(),
            old(self).total_tokens + text@.len() <= usize::MAX,
        ensures
            final(self).wf(),
            final(self).total_tokens == old(self).total_tokens + spec_tokens(text@).len(),
            forall|t: Seq<char>|
                #[trigger] final(self).count_of(t) == old(self).count_of(t) + occ(
                    spec_tokens(text@),
                    t,
                ),
    {
        let ghost all = spec_tokens(text@);
        proof {
            lemma_spec_tokens_len_le(text@);
            assert forall|t: Seq<char>| #[trigger] occ(all.take(0), t) == 0 by {
                assert(all.take(0) =~= Seq::<Seq<char>>::empty());
            }
        }
        let toks = tokenize(text);
        let n = toks.len();
        let mut k: usize = 0;
        while k < n
            invariant
                n == all.len(),
                views_of(toks@) == all,
                toks@.len() == all.len(),
                all.len() <= text@.len(),
                k <= n,
                self.wf(),
                old(self).total_tokens + text@.len() <= usize::MAX,
                self.total_tokens == old(self).total_tokens + k,
                forall|t: Seq<char>|
                    #[trigger] self.count_of(t) == old(self).count_of(t) + occ(all.take(k as int), t),
            decreases n - k,
        {
            proof {
                assert(toks@[k as int]@ == all[k as int]);
            }
            let ghost prev = *self;
            self.add_token(&toks[k]);
            proof {
                lemma_occ_take_step(all, k as int);
                assert forall|t: Seq<char>|
                    #[trigger] self.count_of(t) == old(self).count_of(t) + occ(
                        all.take(k + 1),
                        t,
                    ) by {
                    if t == all[k as int] {
                        assert(self.count_of(t) == prev.count_of(t) + 1);
                    } else {
                        assert(self.count_of(t) == prev.count_of(t));
                    }
                }
            }
            k = k + 1;
        }
        proof {
            assert(all.take(n as int) =~= all);
        }
    }
}

/// Tokenization never yields more tokens than there are characters.
pub proof fn lemma_spec_tokens_len_le(s: Seq<char>)
    ensures
        spec_tokens(s).len() <= s.len(),
    decreases s.len(),
{
    crate::tokenizer::lemma_run_len(s, crate::tokenizer::TokenCharKind::Whitespace);
    let ws = crate::tokenizer::run_len(s, crate::tokenizer::TokenCharKind::Whitespace) as int;
    let rest = s.skip(ws);
    if rest.len() != 0 {
        crate::tokenizer::lemma_token_len_bounds(rest);
        let n = crate::tokenizer::spec_token_len(rest) as int;
        lemma_spec_tokens_len_le(rest.skip(n));
    }
}

/// Extending a token prefix by one token adds one occurrence of that token.
pub proof fn lemma_occ_take_step(toks: Seq<Seq<char>>, k: int)
    requires
        0 <= k < toks.len(),
    ensures
        forall|t: Seq<char>|
            #[trigger] occ(toks.take(k + 1), t) == occ(toks.take(k), t) + if toks[k] == t {
                1nat
            } else {
                0nat
            },
{
    assert(toks.take(k + 1) =~= toks.take(k).push(toks[k]));
    assert forall|t: Seq<char>|
        #[trigger] occ(toks.take(k + 1), t) == occ(toks.take(k), t) + (if toks[k] == t {
            1nat
        } else {
            0nat
        }) by {
        assert(toks.take(k + 1).drop_last() =~= toks.take(k));
        assert(toks.take(k + 1).last() == toks[k]);
    }
}


/// The total number of characters over all text segments.
pub open spec fn total_chars(segs: Seq<String>) -> nat
    decreases segs.len(),
{
    if segs.len() == 0 {
        0
    } else {
        total_chars(segs.drop_last()) + segs.last()@.len()
    }
}

/// The total number of tokens over all text segments.
pub open spec fn segs_token_total(segs: Seq<String>) -> nat
    decreases segs.len(),
{
    if segs.len() == 0 {
        0
    } else {
        segs_token_total(segs.drop_last()) + spec_tokens(segs.last()@).len()
    }
}

/// How often token `t` occurs over all text segments.
pub open spec fn segs_occ(segs: Seq<String>, t: Seq<char>) -> nat
    decreases segs.len(),
{
    if segs.len() == 0 {
        0
    } else {
        segs_occ(segs.drop_last(), t) + occ(spec_tokens(segs.last()@), t)
    }
}

/// Extending a segment prefix by one segment adds that segment's characters,
/// tokens and occurrences.
proof fn lemma_segs_take_step(segs: Seq<String>, k: int)
    requires
        0 <= k < segs.len(),
    ensures
        total_chars(segs.take(k + 1)) == total_chars(segs.take(k)) + segs[k]@.len(),
        segs_token_total(segs.take(k + 1)) == segs_token_total(segs.take(k)) + spec_tokens(
            segs[k]@,
        ).len(),
        forall|t: Seq<char>|
            #[trigger] segs_occ(segs.take(k + 1), t) == segs_occ(segs.take(k), t) + occ(
                spec_tokens(segs[k]@),
                t,
            ),
{
    assert(segs.take(k + 1).drop_last() =~= segs.take(k));
    assert(segs.take(k + 1).last() == segs[k]);
}

/// No segment prefix holds more characters than the whole.
proof fn lemma_total_chars_take_le(segs: Seq<String>, k: int)
    requires
        0 <= k <= segs.len(),
    ensures
        total_chars(segs.take(k)) <= total_chars(segs),
    decreases segs.len() - k,
{
    if k == segs.len() {
        assert(segs.take(k) =~= segs);
    } else {
        lemma_segs_take_step(segs, k);
        lemma_total_chars_take_le(segs, k + 1);
    }
}

/// Token totals never exceed character totals.
proof fn lemma_segs_token_total_le(segs: Seq<String>)
    ensures
        segs_token_total(segs) <= total_chars(segs),
    decreases segs.len(),
{
    if segs.len() > 0 {
        lemma_segs_token_total_le(segs.drop_last());
        lemma_spec_tokens_len_le(segs.last()@);
    }
}

/// Builds the frequency record of one document from its plain-text segments:
/// every segment is tokenized and every token counted.
pub fn get_tokens_freq_within_doc(segments: &Vec<String>) -> (r: DocumentFrequencyRecord)
    requires
        total_chars(segments@) <= usize::MAX,
    ensures
        r.wf(),
        r.total_tokens == segs_token_total(segments@),
        forall|t: Seq<char>| #[trigger] r.count_of(t) == segs_occ(segments@, t),
{
    let mut r = DocumentFrequencyRecord::new();
    let n = segments.len();
    let mut k: usize = 0;
    proof {
        assert(segments@.take(0) =~= Seq::<String>::empty());
    }
    while k < n
        invariant
            n == segments@.len(),
            k <= n,
            total_chars(segments@) <= usize::MAX,
            r.wf(),
            r.total_tokens == segs_token_total(segments@.take(k as int)),
            forall|t: Seq<char>| #[trigger] r.count_of(t) == segs_occ(segments@.take(k as int), t),
        decreases n - k,
    {
        proof {
            lemma_segs_take_step(segments@, k as int);
            lemma_segs_token_total_le(segments@.take(k as int));
            lemma_total_chars_take_le(segments@, k + 1);
        }
        let text = crate::chars::string_to_chars(segments[k].as_str());
        r.add_text(&text);
        k = k + 1;
    }
    proof {
        assert(segments@.take(n as int) =~= segments@);
    }
    r
}

/// One indexed document: its identifying path and its frequency record.
#[derive(Debug, Clone, PartialEq)]
pub struct DocumentRecord {
    pub doc_path: String,
    pub record: DocumentFrequencyRecord,
}

/// Whether some document in `docs` has path `p`.
pub open spec fn doc_contains(docs: Seq<DocumentRecord>, p: Seq<char>) -> bool {
    exists|i: int| 0 <= i < docs.len() && (#[trigger] docs[i].doc_path@) == p
}

/// How many documents of `docs` contain token `tok` at least once.
pub open spec fn docs_containing(docs: Seq<DocumentRecord>, tok: Seq<char>) -> nat
    decreases docs.len(),
{
    if docs.len() == 0 {
        0
    } else {
        docs_containing(docs.drop_last(), tok) + if tc_contains(
            docs.last().record.token_counts@,
            tok,
        ) {
            1nat
        } else {
            0nat
        }
    }
}

/// No token is contained in more documents than there are.
pub proof fn lemma_docs_containing_le(docs: Seq<DocumentRecord>, tok: Seq<char>)
    ensures
        docs_containing(docs, tok) <= docs.len(),
    decreases docs.len(),
{
    if docs.len() > 0 {
        lemma_docs_containing_le(docs.drop_last(), tok);
    }
}

/// A token contained in the document at `i` is contained in at least one
/// document.
pub proof fn lemma_docs_containing_pos(docs: Seq<DocumentRecord>, tok: Seq<char>, i: int)
    requires
        0 <= i < docs.len(),
        tc_contains(docs[i].record.token_counts@, tok),
    ensures
        docs_containing(docs, tok) >= 1,
    decreases docs.len(),
{
    if i < docs.len() - 1 {
        assert(docs.drop_last()[i] == docs[i]);
        lemma_docs_containing_pos(docs.drop_last(), tok, i);
    }
}

/// The aggregate index: one frequency record per document, and for each token
/// the number of distinct documents containing it.
#[derive(Debug, Clone, PartialEq)]
pub struct SearchEngineIndex {
    pub documents: Vec<DocumentRecord>,
    pub document_token_counts: Vec<TokenCount>,
}

impl SearchEngineIndex {
    /// Every record is well formed, paths are distinct, and the
    /// cross-document table counts, for every token, exactly the documents
    /// whose record contains it.
    pub open spec fn wf(self) -> bool {
        &&& forall|i: int|
            0 <= i < self.documents@.len() ==> (#[trigger] self.documents@[i].record).wf()
        &&& forall|i: int, j: int|
            0 <= i < j < self.documents@.len() ==> (#[trigger] self.documents@[i].doc_path@) != (
            #[trigger] self.documents@[j].doc_path@)
        &&& tc_distinct(self.document_token_counts@)
        &&& tc_positive(self.document_token_counts@)
        &&& forall|t: Seq<char>|
            #[trigger] tc_lookup(self.document_token_counts@, t) == docs_containing(
                self.documents@,
                t,
            )
    }

    /// An empty index with no documents.
    pub fn new() -> (r: Self)
        ensures
            r.wf(),
            r.documents@ == Seq::<DocumentRecord>::empty(),
            r.document_token_counts@ == Seq::<TokenCount>::empty(),
    {
        let r = SearchEngineIndex { documents: Vec::new(), document_token_counts: Vec::new() };
        proof {
            assert forall|t: Seq<char>|
                #[trigger] tc_lookup(r.document_token_counts@, t) == docs_containing(
                    r.documents@,
                    t,
                ) by {
                assert(tc_lookup(r.document_token_counts@, t) == 0);
                assert(docs_containing(r.documents@, t) == 0);
            }
        }
        r
    }

    /// Whether a document with this path is already indexed.
    pub fn contains_doc(&self, path: &String) -> (r: bool)
        ensures
            r == doc_contains(self.documents@, path@),
    {
        let n = self.documents.len();
        let mut i: usize = 0;
        while i < n
            invariant
                n == self.documents@.len(),
                i <= n,
                forall|j: int| 0 <= j < i ==> (#[trigger] self.documents@[j].doc_path@) != path@,
            decreases n - i,
        {
            if self.documents[i].doc_path == *path {
                return true;
            }
            i = i + 1;
        }
        false
    }

    /// Counts each of the record's tokens as contained in one more document:
    /// its cross-document count grows by exactly one, however often the token
    /// occurs within the record.
    pub fn update_token_freq_across_docs(&mut self, record: &DocumentFrequencyRecord)
        requires
            tc_distinct(record.token_counts@),
            tc_distinct(old(self).document_token_counts@),
            tc_positive(old(self).document_token_counts@),
            forall|t: Seq<char>|
                tc_contains(record.token_counts@, t) ==> #[trigger] tc_lookup(
                    old(self).document_token_counts@,
                    t,
                ) < usize::MAX,
        ensures
            tc_distinct(final(self).document_token_counts@),
            tc_positive(final(self).document_token_counts@),
            forall|t: Seq<char>|
                #[trigger] tc_lookup(final(self).document_token_counts@, t) == tc_lookup(
                    old(self).document_token_counts@,
                    t,
                ) + if tc_contains(record.token_counts@, t) {
                    1nat
                } else {
                    0nat
                },
            final(self).documents == old(self).documents,
    {
        let ghost rec = record.token_counts@;
        let ghost dtc0 = old(self).document_token_counts@;
        let n = record.token_counts.len();
        let mut k: usize = 0;
        proof {
            assert forall|t: Seq<char>| !tc_contains(rec.take(0), t) by {
                assert(rec.take(0) =~= Seq::<TokenCount>::empty());
            }
        }
        while k < n
            invariant
                n == rec.len(),
                rec == record.token_counts@,
                tc_distinct(rec),
                k <= n,
                tc_distinct(self.document_token_counts@),
                tc_positive(self.document_token_counts@),
                self.documents == old(self).documents,
                forall|t: Seq<char>|
                    tc_contains(rec, t) ==> #[trigger] tc_lookup(dtc0, t) < usize::MAX,
                dtc0 == old(self).document_token_counts@,
                forall|t: Seq<char>|
                    #[trigger] tc_lookup(self.document_token_counts@, t) == tc_lookup(dtc0, t)
                        + if tc_contains(rec.take(k as int), t) {
                        1nat
                    } else {
                        0nat
                    },
            decreases n - k,
        {
            let ghost pre = self.document_token_counts@;
            let ghost tokv = rec[k as int].token@;
            proof {
                lemma_tc_contains_take_step(rec, k as int);
                // the token at k is not among the earlier ones
                assert(!tc_contains(rec.take(k as int), tokv)) by {
                    if tc_contains(rec.take(k as int), tokv) {
                        let i = choose|i: int|
                            0 <= i < rec.take(k as int).len() && rec.take(k as int)[i].token@
                                == tokv;
                        assert(rec[i].token@ == rec[k as int].token@);
                    }
                }
                assert(tc_contains(rec, tokv));
                assert(tc_lookup(pre, tokv) == tc_lookup(dtc0, tokv));
            }
            bump_count(&mut self.document_token_counts, &record.token_counts[k].token);
            proof {
                assert forall|t: Seq<char>|
                    #[trigger] tc_lookup(self.document_token_counts@, t) == tc_lookup(dtc0, t) + (
                if tc_contains(rec.take(k + 1), t) {
                    1nat
                } else {
                    0nat
                }) by {
                    if t == tokv {
                        assert(tc_lookup(self.document_token_counts@, t) == tc_lookup(pre, t) + 1);
                    } else {
                        assert(tc_lookup(self.document_token_counts@, t) == tc_lookup(pre, t));
                    }
                }
            }
            k = k + 1;
        }
        proof {
            assert(rec.take(n as int) =~= rec);
        }
    }

    /// Folds one document into the index: its record is appended and every
    /// token it contains is counted as appearing in one more document.
    pub fn add_document(&mut self, doc_path: String, record: DocumentFrequencyRecord)
        requires
            old(self).wf(),
            record.wf(),
            !doc_contains(old(self).documents@, doc_path@),
            old(self).documents@.len() < usize::MAX,
        ensures
            final(self).wf(),
            final(self).documents@ == old(self).documents@.push(
                (DocumentRecord { doc_path, record }),
            ),
    {
        proof {
            assert forall|t: Seq<char>|
                tc_contains(record.token_counts@, t) implies #[trigger] tc_lookup(
                self.document_token_counts@,
                t,
            ) < usize::MAX by {
                lemma_docs_containing_le(self.documents@, t);
            }
        }
        let ghost docs0 = old(self).documents@;
        let ghost dtc0 = old(self).document_token_counts@;
        self.update_token_freq_across_docs(&record);
        let entry = DocumentRecord { doc_path, record };
        self.documents.push(entry);
        proof {
            let docs1 = self.documents@;
            assert(docs1.drop_last() =~= docs0);
            assert(docs1.last() == entry);
            assert forall|i: int|
                0 <= i < docs1.len() implies (#[trigger] docs1[i].record).wf() by {
                if i < docs0.len() {
                    assert(docs1[i] == docs0[i]);
                } else {
                    assert(docs1[i] == entry);
                }
            }
            assert forall|i: int, j: int|
                0 <= i < j < docs1.len() implies (#[trigger] docs1[i].doc_path@) != (
            #[trigger] docs1[j].doc_path@) by {
                if j < docs0.len() {
                    assert(docs1[i] == docs0[i] && docs1[j] == docs0[j]);
                } else {
                    assert(docs1[j] == entry);
                    assert(docs1[i] == docs0[i]);
                    assert(!doc_contains(docs0, doc_path@));
                }
            }
            assert forall|t: Seq<char>|
                #[trigger] tc_lookup(self.document_token_counts@, t) == docs_containing(
                    docs1,
                    t,
                ) by {
                assert(docs_containing(docs1, t) == docs_containing(docs0, t) + if tc_contains(
                    record.token_counts@,
                    t,
                ) {
                    1nat
                } else {
                    0nat
                });
            }
        }
    }
}

/// Law: in a well-formed index, a token's cross-document count never exceeds
/// the number of documents.
pub proof fn lemma_doc_count_bounded(x: SearchEngineIndex, tok: Seq<char>)
    requires
        x.wf(),
    ensures
        tc_lookup(x.document_token_counts@, tok) <= x.documents@.len(),
{
    lemma_docs_containing_le(x.documents@, tok);
}

/// Law: in a well-formed index, every token contained in some document's
/// record has a cross-document count of at least one.
pub proof fn lemma_doc_count_positive(x: SearchEngineIndex, tok: Seq<char>, i: int)
    requires
        x.wf(),
        0 <= i < x.documents@.len(),
        tc_contains(x.documents@[i].record.token_counts@, tok),
    ensures
        tc_lookup(x.document_token_counts@, tok) >= 1,
{
    lemma_docs_containing_pos(x.documents@, tok, i);
}

/// Whether a token prefix of length `k + 1` contains `t`, in terms of the
/// prefix of length `k` and the entry at `k`.
proof fn lemma_tc_contains_take_step(s: Seq<TokenCount>, k: int)
    requires
        0 <= k < s.len(),
    ensures
        forall|t: Seq<char>|
            #[trigger] tc_contains(s.take(k + 1), t) == (tc_contains(s.take(k), t) || s[k].token@
                == t),
{
    assert forall|t: Seq<char>|
        #[trigger] tc_contains(s.take(k + 1), t) == (tc_contains(s.take(k), t) || s[k].token@
            == t) by {
        let tk1 = s.take(k + 1);
        let tk = s.take(k);
        if tc_contains(tk1, t) {
            let i = choose|i: int| 0 <= i < tk1.len() && tk1[i].token@ == t;
            if i < k {
                assert(tk[i] == tk1[i]);
                assert(tc_contains(tk, t));
            } else {
                assert(tk1[k] == s[k]);
            }
        }
        if tc_contains(tk, t) {
            let i = choose|i: int| 0 <= i < tk.len() && tk[i].token@ == t;
            assert(tk1[i] == tk[i]);
            assert(tc_contains(tk1, t));
        }
        if s[k].token@ == t {
            assert(tk1[k] == s[k]);
            assert(tc_contains(tk1, t));
        }
    }
}

} // verus!
