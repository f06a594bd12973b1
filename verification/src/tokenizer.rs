//! Tokenization of document and query text.
//!
//! The tokenizer partitions a character sequence: it repeatedly skips leading
//! whitespace and then yields one token — the maximal alphanumeric run when
//! the next character is alphabetic, the maximal numeric run when it is
//! numeric, and otherwise the single character itself. Every token is folded
//! to upper case before it is yielded. `spec_tokens` is the mathematical
//! account of this process, and every executable entry point is proved
//! against it.

use vstd::prelude::*;
use crate::chars::{
    chars_to_string, is_alphabetic_char, is_alphanumeric_char, is_numeric_char,
    is_whitespace_char, to_upper_char,
};

verus! {

/// The three character classes that delimit token runs.
#[derive(Clone, Copy, PartialEq, Eq, Structural, Debug)]
pub enum TokenCharKind {
    Whitespace,
    Alphanumeric,
    Numeric,
}

impl TokenCharKind {
    /// The class as a predicate on characters.
    pub open spec fn spec_holds(self, c: char) -> bool {
        match self {
            TokenCharKind::Whitespace => is_whitespace_char(c),
            TokenCharKind::Alphanumeric => is_alphanumeric_char(c),
            TokenCharKind::Numeric => is_numeric_char(c),
        }
    }

    /// Decides membership of `c` in the class.
    pub fn holds(self, c: char) -> (r: bool)
        ensures
            r == self.spec_holds(c),
    {
        match self {
            TokenCharKind::Whitespace => c.is_whitespace(),
            TokenCharKind::Alphanumeric => c.is_alphanumeric(),
            TokenCharKind::Numeric => c.is_numeric(),
        }
    }
}

/// Length of the maximal prefix of `s` whose characters all belong to `k`.
pub open spec fn run_len(s: Seq<char>, k: TokenCharKind) -> nat
    decreases s.len(),
{
    if s.len() == 0 || !k.spec_holds(s[0]) {
        0
    } else {
        1 + run_len(s.skip(1), k)
    }
}

/// The defining properties of `run_len`: it is a prefix length, everything in
/// the prefix belongs to the class, and the run is maximal.
pub proof fn lemma_run_len(s: Seq<char>, k: TokenCharKind)
    ensures
        run_len(s, k) <= s.len(),
        forall|j: int| 0 <= j < run_len(s, k) ==> k.spec_holds(s[j]),
        run_len(s, k) < s.len() ==> !k.spec_holds(s[run_len(s, k) as int]),
    decreases s.len(),
{
    if s.len() > 0 && k.spec_holds(s[0]) {
        lemma_run_len(s.skip(1), k);
        assert forall|j: int| 0 <= j < run_len(s, k) implies k.spec_holds(s[j]) by {
            if j > 0 {
                assert(s.skip(1)[j - 1] == s[j]);
            }
        }
        if run_len(s, k) < s.len() {
            assert(s.skip(1)[run_len(s, k) - 1] == s[run_len(s, k) as int]);
        }
    }
}

/// A prefix of characters all in the class, followed by a character outside it
/// (or the end of the sequence), pins the value of `run_len`.
pub proof fn lemma_run_len_from_prefix(s: Seq<char>, k: TokenCharKind, i: int)
    requires
        0 <= i <= s.len(),
        forall|j: int| 0 <= j < i ==> k.spec_holds(s[j]),
        i < s.len() ==> !k.spec_holds(s[i]),
    ensures
        run_len(s, k) == i,
{
    lemma_run_len(s, k);
    if run_len(s, k) < i {
        assert(k.spec_holds(s[run_len(s, k) as int]));
    }
}

/// `s` with every character folded to upper case.
pub open spec fn upper_seq(s: Seq<char>) -> Seq<char> {
    Seq::new(s.len(), |i: int| to_upper_char(s[i]))
}

/// How many characters the next token takes from `s`, once leading whitespace
/// has already been removed. Zero only when `s` is empty.
pub open spec fn spec_token_len(s: Seq<char>) -> nat {
    if s.len() == 0 {
        0
    } else if is_alphabetic_char(s[0]) {
        run_len(s, TokenCharKind::Alphanumeric)
    } else if is_numeric_char(s[0]) {
        run_len(s, TokenCharKind::Numeric)
    } else {
        1
    }
}

pub proof fn lemma_token_len_bounds(s: Seq<char>)
    requires
        s.len() > 0,
    ensures
        1 <= spec_token_len(s) <= s.len(),
{
    lemma_run_len(s, TokenCharKind::Alphanumeric);
    lemma_run_len(s, TokenCharKind::Numeric);
}

/// The tokens of `s`: skip leading whitespace, yield the upper-cased next
/// token, and continue with the rest.
pub open spec fn spec_tokens(s: Seq<char>) -> Seq<Seq<char>>
    decreases s.len(),
    via spec_tokens_decreases
{
    let rest = s.skip(run_len(s, TokenCharKind::Whitespace) as int);
    if rest.len() == 0 {
        Seq::empty()
    } else {
        let n = spec_token_len(rest);
        seq![upper_seq(rest.take(n as int))] + spec_tokens(rest.skip(n as int))
    }
}

#[via_fn]
proof fn spec_tokens_decreases(s: Seq<char>) {
    lemma_run_len(s, TokenCharKind::Whitespace);
    let rest = s.skip(run_len(s, TokenCharKind::Whitespace) as int);
    if rest.len() != 0 {
        lemma_token_len_bounds(rest);
    }
}

/// The views of a sequence of strings.
pub open spec fn views_of(s: Seq<String>) -> Seq<Seq<char>> {
    Seq::new(s.len(), |i: int| s[i]@)
}

/// The subsequence of non-whitespace characters of `s`.
pub open spec fn non_ws(s: Seq<char>) -> Seq<char>
    decreases s.len(),
{
    if s.len() == 0 {
        Seq::empty()
    } else if is_whitespace_char(s[0]) {
        non_ws(s.skip(1))
    } else {
        seq![s[0]] + non_ws(s.skip(1))
    }
}

/// No character of `s` is classified both as whitespace and as alphanumeric.
/// The real Unicode character classes are disjoint in this way; the statement
/// is needed because the classes are opaque names here.
pub open spec fn classification_consistent(s: Seq<char>) -> bool {
    forall|i: int|
        0 <= i < s.len() ==> !(is_whitespace_char(#[trigger] s[i]) && is_alphanumeric_char(s[i]))
}

/// Every character of `w` is alphanumeric.
pub open spec fn all_alphanumeric(w: Seq<char>) -> bool {
    forall|j: int| 0 <= j < w.len() ==> is_alphanumeric_char(#[trigger] w[j])
}

/// Every character of `w` is numeric.
pub open spec fn all_numeric(w: Seq<char>) -> bool {
    forall|j: int| 0 <= j < w.len() ==> is_numeric_char(#[trigger] w[j])
}

/// A token has one of three shapes: it is the upper-case image of a non-empty
/// character run that is alphanumeric and starts alphabetic, all numeric, or a
/// single character.
pub open spec fn token_shaped(tok: Seq<char>) -> bool {
    exists|w: Seq<char>|
        {
            &&& tok == #[trigger] upper_seq(w)
            &&& w.len() > 0
            &&& ((is_alphabetic_char(w[0]) && all_alphanumeric(w)) || all_numeric(w) || w.len()
                == 1)
        }
}

/// Law: every token that tokenization yields is non-empty and well shaped.
pub proof fn lemma_token_shapes(s: Seq<char>)
    ensures
        forall|i: int| 0 <= i < spec_tokens(s).len() ==> #[trigger] spec_tokens(s)[i].len() > 0,
        forall|i: int| 0 <= i < spec_tokens(s).len() ==> token_shaped(#[trigger] spec_tokens(s)[i]),
    decreases s.len(),
{
    lemma_run_len(s, TokenCharKind::Whitespace);
    let ws = run_len(s, TokenCharKind::Whitespace) as int;
    let rest = s.skip(ws);
    if rest.len() != 0 {
        lemma_token_len_bounds(rest);
        let n = spec_token_len(rest) as int;
        let w = rest.take(n);
        let tail = rest.skip(n);
        lemma_run_len(rest, TokenCharKind::Alphanumeric);
        lemma_run_len(rest, TokenCharKind::Numeric);
        assert(w.len() == n && forall|j: int| 0 <= j < n ==> w[j] == rest[j]);
        assert(token_shaped(upper_seq(w))) by {
            if is_alphabetic_char(rest[0]) {
                assert(all_alphanumeric(w));
            } else if is_numeric_char(rest[0]) {
                assert(all_numeric(w));
            } else {
                assert(w.len() == 1);
            }
        }
        lemma_token_shapes(tail);
        assert forall|i: int| 0 <= i < spec_tokens(s).len() implies #[trigger] spec_tokens(
            s,
        )[i].len() > 0 && token_shaped(spec_tokens(s)[i]) by {
            if i == 0 {
                assert(spec_tokens(s)[0] == upper_seq(w));
            } else {
                assert(spec_tokens(s)[i] == spec_tokens(tail)[i - 1]);
            }
        }
    }
}

/// A prefix of non-whitespace characters passes through `non_ws` unchanged.
proof fn lemma_non_ws_prefix(s: Seq<char>, n: int)
    requires
        0 <= n <= s.len(),
        forall|j: int| 0 <= j < n ==> !is_whitespace_char(#[trigger] s[j]),
    ensures
        non_ws(s) == s.take(n) + non_ws(s.skip(n)),
    decreases n,
{
    if n == 0 {
        assert(s.skip(0) =~= s);
        assert(s.take(0) + non_ws(s) =~= non_ws(s));
    } else {
        lemma_non_ws_prefix(s.skip(1), n - 1);
        assert(s.skip(1).skip(n - 1) =~= s.skip(n));
        assert(seq![s[0]] + (s.skip(1).take(n - 1) + non_ws(s.skip(n))) =~= s.take(n) + non_ws(
            s.skip(n),
        ));
    }
}

/// `upper_seq` distributes over concatenation.
proof fn lemma_upper_seq_add(a: Seq<char>, b: Seq<char>)
    ensures
        upper_seq(a + b) == upper_seq(a) + upper_seq(b),
{
    assert(upper_seq(a + b) =~= upper_seq(a) + upper_seq(b));
}

/// Law: tokenization partitions its input. Concatenating all yielded tokens
/// gives exactly the input's non-whitespace characters, in order, folded to
/// upper case.
pub proof fn lemma_tokenizer_partition(s: Seq<char>)
    requires
        classification_consistent(s),
    ensures
        spec_tokens(s).flatten() == upper_seq(non_ws(s)),
    decreases s.len(),
{
    if s.len() == 0 {
        assert(s.skip(0) =~= s);
        assert(spec_tokens(s).flatten() =~= upper_seq(non_ws(s)));
    } else if is_whitespace_char(s[0]) {
        let s1 = s.skip(1);
        assert(classification_consistent(s1)) by {
            assert forall|i: int| 0 <= i < s1.len() implies !(is_whitespace_char(#[trigger] s1[i])
                && is_alphanumeric_char(s1[i])) by {
                assert(s1[i] == s[i + 1]);
            }
        }
        lemma_tokenizer_partition(s1);
        lemma_run_len(s1, TokenCharKind::Whitespace);
        let ws = run_len(s, TokenCharKind::Whitespace) as int;
        assert(ws == 1 + run_len(s1, TokenCharKind::Whitespace));
        assert(s.skip(ws) =~= s1.skip(ws - 1));
        assert(spec_tokens(s) == spec_tokens(s1));
    } else {
        lemma_run_len(s, TokenCharKind::Whitespace);
        assert(run_len(s, TokenCharKind::Whitespace) == 0);
        let rest = s.skip(0);
        assert(rest =~= s);
        lemma_token_len_bounds(s);
        let n = spec_token_len(s) as int;
        let w = s.take(n);
        let tail = s.skip(n);
        lemma_run_len(s, TokenCharKind::Alphanumeric);
        lemma_run_len(s, TokenCharKind::Numeric);
        // every character the token takes is non-whitespace
        assert forall|j: int| 0 <= j < n implies !is_whitespace_char(#[trigger] s[j]) by {
            if is_alphabetic_char(s[0]) {
                assert(is_alphanumeric_char(s[j]));
            } else if is_numeric_char(s[0]) {
                assert(is_numeric_char(s[j]));
                assert(is_alphanumeric_char(s[j]));
            } else {
                assert(j == 0);
                assert(is_alphanumeric_char(s[0]) || !is_whitespace_char(s[0]));
            }
        }
        lemma_non_ws_prefix(s, n);
        assert(classification_consistent(tail)) by {
            assert forall|i: int| 0 <= i < tail.len() implies !(is_whitespace_char(
                #[trigger] tail[i],
            ) && is_alphanumeric_char(tail[i])) by {
                assert(tail[i] == s[i + n]);
            }
        }
        lemma_tokenizer_partition(tail);
        let toks = spec_tokens(s);
        assert(toks == seq![upper_seq(w)] + spec_tokens(tail));
        assert(toks.len() > 0);
        assert(toks.first() == upper_seq(w));
        assert(toks.drop_first() =~= spec_tokens(tail));
        assert(toks.flatten() == upper_seq(w) + spec_tokens(tail).flatten());
        lemma_upper_seq_add(w, non_ws(tail));
        assert(spec_tokens(s).flatten() == upper_seq(non_ws(s)));
    }
}

/// A cursor over a character sequence that yields one token per step.
pub struct Tokenizer<'a> {
    content: &'a Vec<char>,
    pos: usize,
}

impl<'a> Tokenizer<'a> {
    /// The cursor never points past the end of the content.
    pub closed spec fn wf(self) -> bool {
        self.pos <= self.content@.len()
    }

    /// The characters not yet consumed.
    pub closed spec fn remaining(self) -> Seq<char> {
        self.content@.skip(self.pos as int)
    }

    /// Construct a new Tokenizer over the given characters.
    pub fn new(content: &'a Vec<char>) -> (t: Self)
        ensures
            t.wf(),
            t.remaining() == content@,
    {
        let t = Tokenizer { content, pos: 0 };
        proof {
            assert(t.remaining() =~= content@);
        }
        t
    }

    /// Chops the first `n` remaining characters and returns them.
    pub fn chop(&mut self, n: usize) -> (r: Vec<char>)
        requires
            old(self).wf(),
            n <= old(self).remaining().len(),
        ensures
            final(self).wf(),
            r@ == old(self).remaining().take(n as int),
            final(self).remaining() == old(self).remaining().skip(n as int),
    {
        let content = self.content;
        let start = self.pos;
        let len = content.len();
        let ghost rem = old(self).remaining();
        let mut r: Vec<char> = Vec::new();
        let mut i: usize = 0;
        while i < n
            invariant
                len == content@.len(),
                start + n <= len,
                rem == content@.skip(start as int),
                i <= n,
                r@ == rem.take(i as int),
            decreases n - i,
        {
            let c = content[start + i];
            r.push(c);
            proof {
                assert(rem[i as int] == content@[start + i]);
                assert(rem.take(i + 1) =~= rem.take(i as int).push(rem[i as int]));
            }
            i = i + 1;
        }
        self.pos = start + n;
        proof {
            assert(final(self).remaining() =~= old(self).remaining().skip(n as int));
        }
        r
    }

    /// Chops the maximal leading run of characters in class `kind`.
    pub fn chop_while(&mut self, kind: TokenCharKind) -> (r: Vec<char>)
        requires
            old(self).wf(),
        ensures
            final(self).wf(),
            r@ == old(self).remaining().take(run_len(old(self).remaining(), kind) as int),
            final(self).remaining() == old(self).remaining().skip(
                run_len(old(self).remaining(), kind) as int,
            ),
    {
        let content = self.content;
        let start = self.pos;
        let len = content.len();
        let ghost rem = old(self).remaining();
        let mut i: usize = 0;
        loop
            invariant
                len == content@.len(),
                start <= len,
                rem == content@.skip(start as int),
                i <= rem.len(),
                forall|j: int| 0 <= j < i ==> kind.spec_holds(rem[j]),
            ensures
                i <= rem.len(),
                forall|j: int| 0 <= j < i ==> kind.spec_holds(rem[j]),
                i < rem.len() ==> !kind.spec_holds(rem[i as int]),
            decreases rem.len() - i,
        {
            if start + i == len {
                break;
            }
            proof {
                assert(rem[i as int] == content@[start + i]);
            }
            let c = content[start + i];
            if !kind.holds(c) {
                break;
            }
            i = i + 1;
        }
        proof {
            lemma_run_len_from_prefix(rem, kind, i as int);
        }
        self.chop(i)
    }

    /// Yields the next token, folded to upper case, or `None` when only
    /// whitespace (or nothing) remains.
    pub fn next_token(&mut self) -> (r: Option<String>)
        requires
            old(self).wf(),
        ensures
            final(self).wf(),
            match r {
                None => spec_tokens(old(self).remaining()).len() == 0 && final(self).remaining().len() == 0,
                Some(tok) => {
                    &&& spec_tokens(old(self).remaining()).len() > 0
                    &&& tok@ == spec_tokens(old(self).remaining())[0]
                    &&& spec_tokens(final(self).remaining()) == spec_tokens(
                        old(self).remaining(),
                    ).skip(1)
                    &&& final(self).remaining().len() < old(self).remaining().len()
                },
            },
    {
        let ghost orig = old(self).remaining();
        self.chop_while(TokenCharKind::Whitespace);
        let ghost rest = self.remaining();
        proof {
            lemma_run_len(orig, TokenCharKind::Whitespace);
        }

        if self.pos == self.content.len() {
            proof {
                assert(rest.len() == 0);
            }
            return None;
        }

        proof {
            assert(rest.len() > 0);
            assert(rest[0] == self.content@[self.pos as int]);
        }
        let c0 = self.content[self.pos];
        let chopped: Vec<char> = if c0.is_alphabetic() {
            self.chop_while(TokenCharKind::Alphanumeric)
        } else if c0.is_numeric() {
            self.chop_while(TokenCharKind::Numeric)
        } else {
            self.chop(1)
        };
        proof {
            lemma_token_len_bounds(rest);
            assert(chopped@ == rest.take(spec_token_len(rest) as int));
            assert(self.remaining() == rest.skip(spec_token_len(rest) as int));
        }

        let mut up: Vec<char> = Vec::new();
        let mut k: usize = 0;
        while k < chopped.len()
            invariant
                k <= chopped.len(),
                up@.len() == k,
                forall|j: int| 0 <= j < k ==> up@[j] == to_upper_char(chopped@[j]),
            decreases chopped.len() - k,
        {
            let c = chopped[k].to_ascii_uppercase();
            up.push(c);
            k = k + 1;
        }
        proof {
            assert(up@ =~= upper_seq(chopped@));
        }
        let tok = chars_to_string(&up);
        proof {
            let n = spec_token_len(rest) as int;
            assert(spec_tokens(orig) == seq![upper_seq(rest.take(n))] + spec_tokens(
                rest.skip(n),
            ));
            assert(spec_tokens(orig)[0] == upper_seq(rest.take(n)));
            assert(spec_tokens(orig).skip(1) =~= spec_tokens(rest.skip(n)));
        }
        Some(tok)
    }
}

/// Tokenizes a character sequence in full.
pub fn tokenize(content: &Vec<char>) -> (r: Vec<String>)
    ensures
        views_of(r@) == spec_tokens(content@),
{
    let ghost all = spec_tokens(content@);
    let mut t = Tokenizer::new(content);
    let mut out: Vec<String> = Vec::new();
    proof {
        assert(views_of(out@) =~= all.take(0));
        assert(spec_tokens(t.remaining()) =~= all.skip(0));
    }
    loop
        invariant
            t.wf(),
            all == spec_tokens(content@),
            out@.len() <= all.len(),
            views_of(out@) == all.take(out@.len() as int),
            spec_tokens(t.remaining()) == all.skip(out@.len() as int),
        decreases t.remaining().len(),
    {
        let ghost m = out@.len() as int;
        let next = t.next_token();
        match next {
            None => {
                proof {
                    assert(all.skip(m).len() == 0);
                    assert(views_of(out@) =~= all);
                }
                return out;
            },
            Some(tok) => {
                proof {
                    assert(all.skip(m).len() > 0);
                    assert(all.skip(m)[0] == all[m]);
                    assert(all.skip(m).skip(1) =~= all.skip(m + 1));
                }
                out.push(tok);
                proof {
                    assert(views_of(out@) =~= all.take(m + 1));
                }
            },
        }
    }
}

} // verus!
