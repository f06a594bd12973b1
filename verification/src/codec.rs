//! Index persistence: a self-describing JSON-shaped text format.
//!
//! `save` renders an index as one object with a `documents` map (document
//! path to frequency record) and a `document_token_counts` map, with strings
//! quoted (quotes and backslashes escaped) and counts in decimal. `load`
//! parses exactly that grammar and fails on anything else. The emitter
//! (`emit_index`) and the parser (`sparse_index`) are both written out as
//! spec functions, the executable code is proved to implement them, and the
//! round-trip law — parsing an emitted index yields that index — is proved of
//! the pair.

use vstd::prelude::*;
use vstd::string::StrSliceExecFns;
use crate::chars::{chars_to_string, string_to_chars};
use crate::index::{DocumentFrequencyRecord, DocumentRecord, SearchEngineIndex, TokenCount};

verus! {

// ---------------------------------------------------------------------------
// Views: the mathematical content of an index.
// ---------------------------------------------------------------------------

/// The (token, count) pairs of a count list.
pub open spec fn pairs_of(s: Seq<TokenCount>) -> Seq<(Seq<char>, nat)> {
    Seq::new(s.len(), |i: int| (s[i].token@, s[i].count as nat))
}

/// The mathematical content of a frequency record.
pub open spec fn rec_view(r: DocumentFrequencyRecord) -> (Seq<(Seq<char>, nat)>, nat) {
    (pairs_of(r.token_counts@), r.total_tokens as nat)
}

/// The mathematical content of one indexed document.
pub open spec fn doc_view(d: DocumentRecord) -> (Seq<char>, (Seq<(Seq<char>, nat)>, nat)) {
    (d.doc_path@, rec_view(d.record))
}

/// The mathematical content of a whole index: its documents in order, and the
/// cross-document counts in order.
pub open spec fn index_view(x: SearchEngineIndex) -> (
    Seq<(Seq<char>, (Seq<(Seq<char>, nat)>, nat))>,
    Seq<(Seq<char>, nat)>,
) {
    (
        Seq::new(x.documents@.len(), |i: int| doc_view(x.documents@[i])),
        pairs_of(x.document_token_counts@),
    )
}

// ---------------------------------------------------------------------------
// The emitter, as spec functions.
// ---------------------------------------------------------------------------

/// Whether `c` must be escaped inside a quoted string.
pub open spec fn needs_escape(c: char) -> bool {
    c == '"' || c == '\\'
}

/// The body of a quoted string: every quote and backslash is preceded by a
/// backslash.
pub open spec fn emit_escape(s: Seq<char>) -> Seq<char>
    decreases s.len(),
{
    if s.len() == 0 {
        Seq::empty()
    } else {
        (if needs_escape(s[0]) {
            seq!['\\', s[0]]
        } else {
            seq![s[0]]
        }) + emit_escape(s.skip(1))
    }
}

/// A quoted, escaped string.
pub open spec fn emit_string(s: Seq<char>) -> Seq<char> {
    seq!['"'] + emit_escape(s) + seq!['"']
}

/// The decimal digit characters.
pub open spec fn digit_char(d: nat) -> char {
    if d == 0 {
        '0'
    } else if d == 1 {
        '1'
    } else if d == 2 {
        '2'
    } else if d == 3 {
        '3'
    } else if d == 4 {
        '4'
    } else if d == 5 {
        '5'
    } else if d == 6 {
        '6'
    } else if d == 7 {
        '7'
    } else if d == 8 {
        '8'
    } else {
        '9'
    }
}

/// `n` in decimal, most significant digit first.
pub open spec fn emit_nat(n: nat) -> Seq<char>
    decreases n,
{
    if n < 10 {
        seq![digit_char(n)]
    } else {
        emit_nat(n / 10).push(digit_char(n % 10))
    }
}

/// One `"token":count` entry.
pub open spec fn emit_count_entry(e: TokenCount) -> Seq<char> {
    emit_string(e.token@) + seq![':'] + emit_nat(e.count as nat)
}

/// Comma-separated count entries.
pub open spec fn emit_count_entries(s: Seq<TokenCount>) -> Seq<char>
    decreases s.len(),
{
    if s.len() == 0 {
        Seq::empty()
    } else if s.len() == 1 {
        emit_count_entry(s[0])
    } else {
        emit_count_entry(s[0]) + seq![','] + emit_count_entries(s.skip(1))
    }
}

/// A `{...}` object of count entries.
pub open spec fn emit_counts(s: Seq<TokenCount>) -> Seq<char> {
    seq!['{'] + emit_count_entries(s) + seq!['}']
}

/// One frequency record as an object with its two fields.
pub open spec fn emit_record(r: DocumentFrequencyRecord) -> Seq<char> {
    "{\"token_counts\":"@ + emit_counts(r.token_counts@) + ",\"total_tokens\":"@ + emit_nat(
        r.total_tokens as nat,
    ) + seq!['}']
}

/// One `"path":record` entry.
pub open spec fn emit_doc_entry(d: DocumentRecord) -> Seq<char> {
    emit_string(d.doc_path@) + seq![':'] + emit_record(d.record)
}

/// Comma-separated document entries.
pub open spec fn emit_doc_entries(s: Seq<DocumentRecord>) -> Seq<char>
    decreases s.len(),
{
    if s.len() == 0 {
        Seq::empty()
    } else if s.len() == 1 {
        emit_doc_entry(s[0])
    } else {
        emit_doc_entry(s[0]) + seq![','] + emit_doc_entries(s.skip(1))
    }
}

/// A `{...}` object of document entries.
pub open spec fn emit_doc_map(s: Seq<DocumentRecord>) -> Seq<char> {
    seq!['{'] + emit_doc_entries(s) + seq!['}']
}

/// A whole index as one object with its two maps.
pub open spec fn emit_index(x: SearchEngineIndex) -> Seq<char> {
    "{\"documents\":"@ + emit_doc_map(x.documents@) + ",\"document_token_counts\":"@
        + emit_counts(x.document_token_counts@) + seq!['}']
}

// ---------------------------------------------------------------------------
// The emitter, executable.
// ---------------------------------------------------------------------------

/// Appends a literal to the output.
fn push_lit(out: &mut Vec<char>, lit: &str)
    ensures
        final(out)@ == old(out)@ + lit@,
{
    let n = lit.unicode_len();
    let mut i: usize = 0;
    while i < n
        invariant
            n == lit@.len(),
            i <= n,
            out@ == old(out)@ + lit@.take(i as int),
        decreases n - i,
    {
        let c = lit.get_char(i);
        out.push(c);
        proof {
            assert(old(out)@ + lit@.take(i + 1) =~= (old(out)@ + lit@.take(i as int)).push(
                lit@[i as int],
            ));
        }
        i = i + 1;
    }
    proof {
        assert(old(out)@ + lit@.take(n as int) =~= old(out)@ + lit@);
    }
}

/// The decimal digit character for `d`.
fn digit_char_exec(d: usize) -> (c: char)
    requires
        d < 10,
    ensures
        c == digit_char(d as nat),
{
    if d == 0 {
        '0'
    } else if d == 1 {
        '1'
    } else if d == 2 {
        '2'
    } else if d == 3 {
        '3'
    } else if d == 4 {
        '4'
    } else if d == 5 {
        '5'
    } else if d == 6 {
        '6'
    } else if d == 7 {
        '7'
    } else if d == 8 {
        '8'
    } else {
        '9'
    }
}

/// Appends `n` in decimal to the output.
fn push_nat(out: &mut Vec<char>, n: usize)
    ensures
        final(out)@ == old(out)@ + emit_nat(n as nat),
    decreases n,
{
    if n < 10 {
        let c = digit_char_exec(n);
        out.push(c);
        proof {
            assert(out@ =~= old(out)@ + emit_nat(n as nat));
        }
    } else {
        push_nat(out, n / 10);
        let c = digit_char_exec(n % 10);
        out.push(c);
        proof {
            assert(out@ =~= old(out)@ + emit_nat(n as nat));
        }
    }
}

/// `emit_escape` distributes over concatenation.
proof fn lemma_emit_escape_add(a: Seq<char>, b: Seq<char>)
    ensures
        emit_escape(a + b) == emit_escape(a) + emit_escape(b),
    decreases a.len(),
{
    if a.len() == 0 {
        assert(a + b =~= b);
        assert(emit_escape(a) + emit_escape(b) =~= emit_escape(b));
    } else {
        lemma_emit_escape_add(a.skip(1), b);
        assert((a + b).skip(1) =~= a.skip(1) + b);
        assert((a + b)[0] == a[0]);
        assert(emit_escape(a + b) =~= emit_escape(a) + emit_escape(b));
    }
}

/// Appends the quoted, escaped form of `s` to the output.
fn push_string(out: &mut Vec<char>, s: &String)
    ensures
        final(out)@ == old(out)@ + emit_string(s@),
{
    out.push('"');
    let ghost base = out@;
    let n = s.as_str().unicode_len();
    let mut i: usize = 0;
    proof {
        assert(out@ =~= base + emit_escape(s@.take(0)));
    }
    while i < n
        invariant
            n == s@.len(),
            i <= n,
            out@ == base + emit_escape(s@.take(i as int)),
        decreases n - i,
    {
        let c = s.as_str().get_char(i);
        if c == '"' || c == '\\' {
            out.push('\\');
            out.push(c);
        } else {
            out.push(c);
        }
        proof {
            assert(s@.take(i + 1) =~= s@.take(i as int) + seq![s@[i as int]]);
            lemma_emit_escape_add(s@.take(i as int), seq![s@[i as int]]);
            assert(emit_escape(seq![s@[i as int]]) =~= if needs_escape(s@[i as int]) {
                seq!['\\', s@[i as int]]
            } else {
                seq![s@[i as int]]
            }) by {
                assert(seq![s@[i as int]].skip(1) =~= Seq::<char>::empty());
                assert(emit_escape(Seq::<char>::empty()) == Seq::<char>::empty());
                assert(seq![s@[i as int]][0] == s@[i as int]);
            }
            assert(out@ =~= base + emit_escape(s@.take(i + 1)));
        }
        i = i + 1;
    }
    out.push('"');
    proof {
        assert(s@.take(n as int) =~= s@);
        assert(out@ =~= old(out)@ + emit_string(s@));
    }
}

/// Appending one entry to a non-empty entry list appends a comma and the
/// entry's text.
proof fn lemma_count_entries_push(s: Seq<TokenCount>, e: TokenCount)
    requires
        s.len() >= 1,
    ensures
        emit_count_entries(s.push(e)) == emit_count_entries(s) + seq![','] + emit_count_entry(e),
    decreases s.len(),
{
    if s.len() == 1 {
        assert(s.push(e)[0] == s[0]);
        assert(s.push(e).skip(1) =~= seq![e]);
        assert(emit_count_entries(seq![e]) == emit_count_entry(e)) by {
            assert(seq![e][0] == e);
        }
        assert(emit_count_entries(s.push(e)) =~= emit_count_entries(s) + seq![',']
            + emit_count_entry(e));
    } else {
        lemma_count_entries_push(s.skip(1), e);
        assert(s.push(e).skip(1) =~= s.skip(1).push(e));
        assert(s.push(e)[0] == s[0]);
        assert(emit_count_entries(s.push(e)) =~= emit_count_entries(s) + seq![',']
            + emit_count_entry(e));
    }
}

/// Appends the `{...}` object of `counts` to the output.
fn push_counts(out: &mut Vec<char>, counts: &Vec<TokenCount>)
    ensures
        final(out)@ == old(out)@ + emit_counts(counts@),
{
    out.push('{');
    let ghost base = out@;
    let n = counts.len();
    let mut i: usize = 0;
    proof {
        assert(counts@.take(0) =~= Seq::<TokenCount>::empty());
    }
    while i < n
        invariant
            n == counts@.len(),
            i <= n,
            out@ == base + emit_count_entries(counts@.take(i as int)),
        decreases n - i,
    {
        if i > 0 {
            out.push(',');
        }
        push_string(out, &counts[i].token);
        out.push(':');
        push_nat(out, counts[i].count);
        proof {
            let pre = counts@.take(i as int);
            assert(counts@.take(i + 1) =~= pre.push(counts@[i as int]));
            if i == 0 {
                assert(emit_count_entries(counts@.take(1)) == emit_count_entry(counts@[0])) by {
                    assert(counts@.take(1)[0] == counts@[0]);
                }
            } else {
                lemma_count_entries_push(pre, counts@[i as int]);
            }
            assert(out@ =~= base + emit_count_entries(counts@.take(i + 1)));
        }
        i = i + 1;
    }
    out.push('}');
    proof {
        assert(counts@.take(n as int) =~= counts@);
        assert(out@ =~= old(out)@ + emit_counts(counts@));
    }
}

/// Appends one frequency record to the output.
fn push_record(out: &mut Vec<char>, r: &DocumentFrequencyRecord)
    ensures
        final(out)@ == old(out)@ + emit_record(*r),
{
    push_lit(out, "{\"token_counts\":");
    push_counts(out, &r.token_counts);
    push_lit(out, ",\"total_tokens\":");
    push_nat(out, r.total_tokens);
    out.push('}');
    proof {
        assert(out@ =~= old(out)@ + emit_record(*r));
    }
}

/// Appending one document entry to a non-empty entry list appends a comma and
/// the entry's text.
proof fn lemma_doc_entries_push(s: Seq<DocumentRecord>, e: DocumentRecord)
    requires
        s.len() >= 1,
    ensures
        emit_doc_entries(s.push(e)) == emit_doc_entries(s) + seq![','] + emit_doc_entry(e),
    decreases s.len(),
{
    if s.len() == 1 {
        assert(s.push(e)[0] == s[0]);
        assert(s.push(e).skip(1) =~= seq![e]);
        assert(emit_doc_entries(seq![e]) == emit_doc_entry(e)) by {
            assert(seq![e][0] == e);
        }
        assert(emit_doc_entries(s.push(e)) =~= emit_doc_entries(s) + seq![','] + emit_doc_entry(
            e,
        ));
    } else {
        lemma_doc_entries_push(s.skip(1), e);
        assert(s.push(e).skip(1) =~= s.skip(1).push(e));
        assert(s.push(e)[0] == s[0]);
        assert(emit_doc_entries(s.push(e)) =~= emit_doc_entries(s) + seq![','] + emit_doc_entry(
            e,
        ));
    }
}

impl SearchEngineIndex {
    /// Renders the whole index in its persisted text format.
    pub fn save(&self) -> (s: String)
        ensures
            s@ == emit_index(*self),
    {
        let mut out: Vec<char> = Vec::new();
        push_lit(&mut out, "{\"documents\":");
        out.push('{');
        let ghost base = out@;
        let n = self.documents.len();
        let mut i: usize = 0;
        proof {
            assert(self.documents@.take(0) =~= Seq::<DocumentRecord>::empty());
        }
        while i < n
            invariant
                n == self.documents@.len(),
                i <= n,
                out@ == base + emit_doc_entries(self.documents@.take(i as int)),
            decreases n - i,
        {
            if i > 0 {
                out.push(',');
            }
            push_string(&mut out, &self.documents[i].doc_path);
            out.push(':');
            push_record(&mut out, &self.documents[i].record);
            proof {
                let pre = self.documents@.take(i as int);
                assert(self.documents@.take(i + 1) =~= pre.push(self.documents@[i as int]));
                if i == 0 {
                    assert(emit_doc_entries(self.documents@.take(1)) == emit_doc_entry(
                        self.documents@[0],
                    )) by {
                        assert(self.documents@.take(1)[0] == self.documents@[0]);
                    }
                } else {
                    lemma_doc_entries_push(pre, self.documents@[i as int]);
                }
                assert(out@ =~= base + emit_doc_entries(self.documents@.take(i + 1)));
            }
            i = i + 1;
        }
        out.push('}');
        push_lit(&mut out, ",\"document_token_counts\":");
        push_counts(&mut out, &self.document_token_counts);
        out.push('}');
        proof {
            assert(self.documents@.take(n as int) =~= self.documents@);
            assert(out@ =~= emit_index(*self));
        }
        chars_to_string(&out)
    }
}


// ---------------------------------------------------------------------------
// The parser, as spec functions.
// ---------------------------------------------------------------------------

/// Whether `c` is a decimal digit.
pub open spec fn is_digit(c: char) -> bool {
    48 <= c as u32 && c as u32 <= 57
}

/// The value of a decimal digit character.
pub open spec fn digit_val(c: char) -> nat {
    (c as u32 - 48) as nat
}

/// Consumes the exact literal `lit` at `pos`.
pub open spec fn sparse_lit(v: Seq<char>, pos: int, lit: Seq<char>) -> Option<int> {
    if 0 <= pos && pos + lit.len() <= v.len() && v.subrange(pos, pos + lit.len()) == lit {
        Some(pos + lit.len())
    } else {
        None
    }
}

/// Consumes a string body up to and including its closing quote, undoing
/// escapes: a backslash takes the following character literally.
pub open spec fn sparse_str_body(v: Seq<char>, i: int) -> Option<(Seq<char>, int)>
    decreases v.len() - i,
{
    if i < 0 || i >= v.len() {
        None
    } else if v[i] == '"' {
        Some((Seq::empty(), i + 1))
    } else if v[i] == '\\' {
        if i + 1 >= v.len() {
            None
        } else {
            match sparse_str_body(v, i + 2) {
                Some((s, j)) => Some((seq![v[i + 1]] + s, j)),
                None => None,
            }
        }
    } else {
        match sparse_str_body(v, i + 1) {
            Some((s, j)) => Some((seq![v[i]] + s, j)),
            None => None,
        }
    }
}

/// Consumes a quoted string at `pos`.
pub open spec fn sparse_string(v: Seq<char>, pos: int) -> Option<(Seq<char>, int)> {
    if 0 <= pos < v.len() && v[pos] == '"' {
        sparse_str_body(v, pos + 1)
    } else {
        None
    }
}

/// Consumes the maximal digit run from `i`, accumulating onto `acc`; fails on
/// a value that does not fit the machine's word.
pub open spec fn sparse_nat_body(v: Seq<char>, i: int, acc: nat) -> Option<(nat, int)>
    decreases v.len() - i,
{
    if i < 0 || i >= v.len() || !is_digit(v[i]) {
        Some((acc, i))
    } else if acc * 10 + digit_val(v[i]) > usize::MAX {
        None
    } else {
        sparse_nat_body(v, i + 1, acc * 10 + digit_val(v[i]))
    }
}

/// Consumes a decimal number at `pos`: at least one digit, fitting the
/// machine's word.
pub open spec fn sparse_nat(v: Seq<char>, pos: int) -> Option<(nat, int)> {
    if 0 <= pos < v.len() && is_digit(v[pos]) {
        sparse_nat_body(v, pos, 0)
    } else {
        None
    }
}

/// Consumes `"token":count` entries separated by commas, up to and including
/// the closing brace.
pub open spec fn sparse_count_entries(v: Seq<char>, i: int) -> Option<
    (Seq<(Seq<char>, nat)>, int),
>
    decreases v.len() - i,
{
    match sparse_string(v, i) {
        None => None,
        Some((tok, j1)) => if !(i < j1 <= v.len()) {
            None
        } else if !(j1 < v.len() && v[j1] == ':') {
            None
        } else {
            match sparse_nat(v, j1 + 1) {
                None => None,
                Some((c, j2)) => if !(j1 < j2 <= v.len()) {
                    None
                } else if j2 < v.len() && v[j2] == ',' {
                    match sparse_count_entries(v, j2 + 1) {
                        None => None,
                        Some((rest, j3)) => Some((seq![(tok, c)] + rest, j3)),
                    }
                } else if j2 < v.len() && v[j2] == '}' {
                    Some((seq![(tok, c)], j2 + 1))
                } else {
                    None
                },
            }
        },
    }
}

/// Consumes a whole `{...}` object of count entries.
pub open spec fn sparse_counts(v: Seq<char>, pos: int) -> Option<(Seq<(Seq<char>, nat)>, int)> {
    if !(0 <= pos < v.len() && v[pos] == '{') {
        None
    } else if pos + 1 < v.len() && v[pos + 1] == '}' {
        Some((Seq::empty(), pos + 2))
    } else {
        sparse_count_entries(v, pos + 1)
    }
}

/// Consumes one frequency record object.
pub open spec fn sparse_record(v: Seq<char>, pos: int) -> Option<
    ((Seq<(Seq<char>, nat)>, nat), int),
> {
    match sparse_lit(v, pos, "{\"token_counts\":"@) {
        None => None,
        Some(p1) => match sparse_counts(v, p1) {
            None => None,
            Some((pairs, p2)) => match sparse_lit(v, p2, ",\"total_tokens\":"@) {
                None => None,
                Some(p3) => match sparse_nat(v, p3) {
                    None => None,
                    Some((n, p4)) => if p4 < v.len() && v[p4] == '}' {
                        Some(((pairs, n), p4 + 1))
                    } else {
                        None
                    },
                },
            },
        },
    }
}

/// Consumes `"path":record` entries separated by commas, up to and including
/// the closing brace.
pub open spec fn sparse_doc_entries(v: Seq<char>, i: int) -> Option<
    (Seq<(Seq<char>, (Seq<(Seq<char>, nat)>, nat))>, int),
>
    decreases v.len() - i,
{
    match sparse_string(v, i) {
        None => None,
        Some((path, j1)) => if !(i < j1 <= v.len()) {
            None
        } else if !(j1 < v.len() && v[j1] == ':') {
            None
        } else {
            match sparse_record(v, j1 + 1) {
                None => None,
                Some((rv, j2)) => if !(j1 < j2 <= v.len()) {
                    None
                } else if j2 < v.len() && v[j2] == ',' {
                    match sparse_doc_entries(v, j2 + 1) {
                        None => None,
                        Some((rest, j3)) => Some((seq![(path, rv)] + rest, j3)),
                    }
                } else if j2 < v.len() && v[j2] == '}' {
                    Some((seq![(path, rv)], j2 + 1))
                } else {
                    None
                },
            }
        },
    }
}

/// Consumes a whole `{...}` object of document entries.
pub open spec fn sparse_doc_map(v: Seq<char>, pos: int) -> Option<
    (Seq<(Seq<char>, (Seq<(Seq<char>, nat)>, nat))>, int),
> {
    if !(0 <= pos < v.len() && v[pos] == '{') {
        None
    } else if pos + 1 < v.len() && v[pos + 1] == '}' {
        Some((Seq::empty(), pos + 2))
    } else {
        sparse_doc_entries(v, pos + 1)
    }
}

/// Consumes a whole persisted index.
pub open spec fn sparse_index(v: Seq<char>) -> Option<
    ((Seq<(Seq<char>, (Seq<(Seq<char>, nat)>, nat))>, Seq<(Seq<char>, nat)>), int),
> {
    match sparse_lit(v, 0, "{\"documents\":"@) {
        None => None,
        Some(p1) => match sparse_doc_map(v, p1) {
            None => None,
            Some((docs, p2)) => match sparse_lit(v, p2, ",\"document_token_counts\":"@) {
                None => None,
                Some(p3) => match sparse_counts(v, p3) {
                    None => None,
                    Some((counts, p4)) => if p4 < v.len() && v[p4] == '}' {
                        Some(((docs, counts), p4 + 1))
                    } else {
                        None
                    },
                },
            },
        },
    }
}

/// The result of parsing a persisted index that must span the whole input.
pub open spec fn sparse_index_full(v: Seq<char>) -> Option<
    (Seq<(Seq<char>, (Seq<(Seq<char>, nat)>, nat))>, Seq<(Seq<char>, nat)>),
> {
    match sparse_index(v) {
        Some((w, p)) => if p == v.len() {
            Some(w)
        } else {
            None
        },
        None => None,
    }
}


// ---------------------------------------------------------------------------
// The parser, executable.
// ---------------------------------------------------------------------------

/// Loading fails on input that the persisted-index grammar does not produce.
#[derive(Clone, Copy, Debug, PartialEq, Eq, Structural)]
pub enum LoadError {
    Malformed,
}

/// Consumes the exact literal `lit` at `pos`.
fn parse_lit(v: &Vec<char>, pos: usize, lit: &str) -> (r: Option<usize>)
    ensures
        match r {
            Some(p) => sparse_lit(v@, pos as int, lit@) == Some(p as int),
            None => sparse_lit(v@, pos as int, lit@) is None,
        },
{
    let n = lit.unicode_len();
    let len = v.len();
    if pos > len || n > len - pos {
        return None;
    }
    let mut i: usize = 0;
    while i < n
        invariant
            n == lit@.len(),
            len == v@.len(),
            pos + n <= len,
            i <= n,
            forall|j: int| 0 <= j < i ==> v@[pos + j] == lit@[j],
        decreases n - i,
    {
        let c = v[pos + i];
        if c != lit.get_char(i) {
            proof {
                assert(v@.subrange(pos as int, pos + lit@.len())[i as int] == v@[pos + i]);
            }
            return None;
        }
        i = i + 1;
    }
    proof {
        assert(v@.subrange(pos as int, pos + lit@.len()) =~= lit@);
    }
    Some(pos + n)
}

/// Consumes a string body up to its closing quote, undoing escapes.
fn parse_str_body(v: &Vec<char>, i: usize) -> (r: Option<(Vec<char>, usize)>)
    ensures
        match r {
            Some((s, j)) => sparse_str_body(v@, i as int) == Some((s@, j as int)),
            None => sparse_str_body(v@, i as int) is None,
        },
    decreases v@.len() - i,
{
    if i >= v.len() {
        return None;
    }
    let c = v[i];
    if c == '"' {
        let out: Vec<char> = Vec::new();
        proof {
            assert(out@ =~= Seq::<char>::empty());
        }
        Some((out, i + 1))
    } else if c == '\\' {
        if i + 1 >= v.len() {
            return None;
        }
        match parse_str_body(v, i + 2) {
            Some((tail, j)) => {
                let mut out = tail;
                let e = v[i + 1];
                out.insert(0, e);
                proof {
                    assert(out@ =~= seq![v@[i + 1]] + out@.skip(1));
                }
                Some((out, j))
            },
            None => None,
        }
    } else {
        match parse_str_body(v, i + 1) {
            Some((tail, j)) => {
                let mut out = tail;
                out.insert(0, c);
                proof {
                    assert(out@ =~= seq![v@[i as int]] + out@.skip(1));
                }
                Some((out, j))
            },
            None => None,
        }
    }
}

/// Consumes a quoted string at `pos`.
fn parse_string(v: &Vec<char>, pos: usize) -> (r: Option<(String, usize)>)
    ensures
        match r {
            Some((s, j)) => sparse_string(v@, pos as int) == Some((s@, j as int)),
            None => sparse_string(v@, pos as int) is None,
        },
{
    if pos >= v.len() {
        return None;
    }
    if v[pos] != '"' {
        return None;
    }
    match parse_str_body(v, pos + 1) {
        Some((chars, j)) => Some((chars_to_string(&chars), j)),
        None => None,
    }
}

/// Consumes a decimal number at `pos`.
fn parse_nat(v: &Vec<char>, pos: usize) -> (r: Option<(usize, usize)>)
    ensures
        match r {
            Some((n, j)) => sparse_nat(v@, pos as int) == Some((n as nat, j as int)),
            None => sparse_nat(v@, pos as int) is None,
        },
{
    let len = v.len();
    if pos >= len {
        return None;
    }
    let c0 = v[pos] as u32;
    if !(48 <= c0 && c0 <= 57) {
        return None;
    }
    let mut i: usize = pos;
    let mut acc: usize = 0;
    loop
        invariant
            len == v@.len(),
            pos <= i <= len,
            sparse_nat_body(v@, pos as int, 0) == sparse_nat_body(v@, i as int, acc as nat),
        ensures
            pos <= i <= len,
            sparse_nat_body(v@, pos as int, 0) == Some((acc as nat, i as int)),
        decreases len - i,
    {
        if i >= len {
            break;
        }
        let u = v[i] as u32;
        if !(48 <= u && u <= 57) {
            proof {
                assert(!is_digit(v@[i as int]));
            }
            break;
        }
        let d = (v[i] as u32 - 48) as usize;
        proof {
            assert(is_digit(v@[i as int]));
            assert(digit_val(v@[i as int]) == d as nat);
        }
        if acc > (usize::MAX - d) / 10 {
            proof {
                assert((acc as nat) * 10 + (d as nat) > usize::MAX) by (nonlinear_arith)
                    requires
                        acc > (usize::MAX - d) / 10,
                        d < 10,
                ;
            }
            return None;
        }
        proof {
            assert((acc as nat) * 10 + (d as nat) <= usize::MAX) by (nonlinear_arith)
                requires
                    acc <= (usize::MAX - d) / 10,
                    d < 10,
            ;
        }
        acc = acc * 10 + d;
        i = i + 1;
    }
    Some((acc, i))
}

/// Consumes count entries up to and including the closing brace.
fn parse_count_entries(v: &Vec<char>, i: usize) -> (r: Option<(Vec<TokenCount>, usize)>)
    ensures
        match r {
            Some((s, j)) => sparse_count_entries(v@, i as int) == Some((pairs_of(s@), j as int)),
            None => sparse_count_entries(v@, i as int) is None,
        },
    decreases v@.len() - i,
{
    let (tok, j1) = match parse_string(v, i) {
        Some(x) => x,
        None => {
            return None;
        },
    };
    proof {
        lemma_sparse_string_pos(v@, i as int);
    }
    if !(j1 < v.len()) {
        return None;
    }
    if v[j1] != ':' {
        return None;
    }
    let (c, j2) = match parse_nat(v, j1 + 1) {
        Some(x) => x,
        None => {
            return None;
        },
    };
    proof {
        lemma_sparse_nat_pos(v@, j1 + 1);
    }
    let entry = TokenCount { token: tok, count: c };
    if j2 < v.len() && v[j2] == ',' {
        match parse_count_entries(v, j2 + 1) {
            Some((rest, j3)) => {
                let mut out = rest;
                out.insert(0, entry);
                proof {
                    assert(pairs_of(out@) =~= seq![(entry.token@, entry.count as nat)] + pairs_of(
                        out@.skip(1),
                    ));
                }
                Some((out, j3))
            },
            None => None,
        }
    } else if j2 < v.len() && v[j2] == '}' {
        let mut out: Vec<TokenCount> = Vec::new();
        out.push(entry);
        proof {
            assert(pairs_of(out@) =~= seq![(entry.token@, entry.count as nat)]);
        }
        Some((out, j2 + 1))
    } else {
        None
    }
}

/// Consumes a `{...}` object of count entries.
fn parse_counts(v: &Vec<char>, pos: usize) -> (r: Option<(Vec<TokenCount>, usize)>)
    ensures
        match r {
            Some((s, j)) => sparse_counts(v@, pos as int) == Some((pairs_of(s@), j as int)),
            None => sparse_counts(v@, pos as int) is None,
        },
{
    if !(pos < v.len()) {
        return None;
    }
    if v[pos] != '{' {
        return None;
    }
    if pos + 1 < v.len() && v[pos + 1] == '}' {
        let out: Vec<TokenCount> = Vec::new();
        proof {
            assert(pairs_of(out@) =~= Seq::<(Seq<char>, nat)>::empty());
        }
        Some((out, pos + 2))
    } else {
        parse_count_entries(v, pos + 1)
    }
}

/// Consumes one frequency record object.
fn parse_record(v: &Vec<char>, pos: usize) -> (r: Option<(DocumentFrequencyRecord, usize)>)
    ensures
        match r {
            Some((rec, j)) => sparse_record(v@, pos as int) == Some((rec_view(rec), j as int)),
            None => sparse_record(v@, pos as int) is None,
        },
{
    let p1 = match parse_lit(v, pos, "{\"token_counts\":") {
        Some(x) => x,
        None => {
            return None;
        },
    };
    let (counts, p2) = match parse_counts(v, p1) {
        Some(x) => x,
        None => {
            return None;
        },
    };
    let p3 = match parse_lit(v, p2, ",\"total_tokens\":") {
        Some(x) => x,
        None => {
            return None;
        },
    };
    let (n, p4) = match parse_nat(v, p3) {
        Some(x) => x,
        None => {
            return None;
        },
    };
    if p4 < v.len() && v[p4] == '}' {
        let rec = DocumentFrequencyRecord { token_counts: counts, total_tokens: n };
        Some((rec, p4 + 1))
    } else {
        None
    }
}

/// Consumes document entries up to and including the closing brace.
fn parse_doc_entries(v: &Vec<char>, i: usize) -> (r: Option<(Vec<DocumentRecord>, usize)>)
    ensures
        match r {
            Some((s, j)) => sparse_doc_entries(v@, i as int) == Some((docs_view(s@), j as int)),
            None => sparse_doc_entries(v@, i as int) is None,
        },
    decreases v@.len() - i,
{
    let (path, j1) = match parse_string(v, i) {
        Some(x) => x,
        None => {
            return None;
        },
    };
    proof {
        lemma_sparse_string_pos(v@, i as int);
    }
    if !(j1 < v.len()) {
        return None;
    }
    if v[j1] != ':' {
        return None;
    }
    let (rec, j2) = match parse_record(v, j1 + 1) {
        Some(x) => x,
        None => {
            return None;
        },
    };
    proof {
        lemma_sparse_record_pos(v@, j1 + 1);
    }
    let entry = DocumentRecord { doc_path: path, record: rec };
    if j2 < v.len() && v[j2] == ',' {
        match parse_doc_entries(v, j2 + 1) {
            Some((rest, j3)) => {
                let mut out = rest;
                out.insert(0, entry);
                proof {
                    assert(docs_view(out@) =~= seq![doc_view(out@[0])] + docs_view(out@.skip(1)));
                }
                Some((out, j3))
            },
            None => None,
        }
    } else if j2 < v.len() && v[j2] == '}' {
        let mut out: Vec<DocumentRecord> = Vec::new();
        out.push(entry);
        proof {
            assert(docs_view(out@) =~= seq![doc_view(out@[0])]);
        }
        Some((out, j2 + 1))
    } else {
        None
    }
}

/// The views of a sequence of indexed documents.
pub open spec fn docs_view(s: Seq<DocumentRecord>) -> Seq<
    (Seq<char>, (Seq<(Seq<char>, nat)>, nat)),
> {
    Seq::new(s.len(), |i: int| doc_view(s[i]))
}

/// Consumes a `{...}` object of document entries.
fn parse_doc_map(v: &Vec<char>, pos: usize) -> (r: Option<(Vec<DocumentRecord>, usize)>)
    ensures
        match r {
            Some((s, j)) => sparse_doc_map(v@, pos as int) == Some((docs_view(s@), j as int)),
            None => sparse_doc_map(v@, pos as int) is None,
        },
{
    if !(pos < v.len()) {
        return None;
    }
    if v[pos] != '{' {
        return None;
    }
    if pos + 1 < v.len() && v[pos + 1] == '}' {
        let out: Vec<DocumentRecord> = Vec::new();
        proof {
            assert(docs_view(out@) =~= Seq::<(Seq<char>, (Seq<(Seq<char>, nat)>, nat))>::empty());
        }
        Some((out, pos + 2))
    } else {
        parse_doc_entries(v, pos + 1)
    }
}

// ---------------------------------------------------------------------------
// Position lemmas: every successful parse advances.
// ---------------------------------------------------------------------------

proof fn lemma_sparse_str_body_pos(v: Seq<char>, i: int)
    ensures
        sparse_str_body(v, i) matches Some((s, j)) ==> i < j <= v.len(),
    decreases v.len() - i,
{
    if 0 <= i < v.len() {
        if v[i] == '"' {
        } else if v[i] == '\\' {
            if i + 1 < v.len() {
                lemma_sparse_str_body_pos(v, i + 2);
            }
        } else {
            lemma_sparse_str_body_pos(v, i + 1);
        }
    }
}

proof fn lemma_sparse_string_pos(v: Seq<char>, pos: int)
    ensures
        sparse_string(v, pos) matches Some((s, j)) ==> pos < j <= v.len(),
{
    if 0 <= pos < v.len() && v[pos] == '"' {
        lemma_sparse_str_body_pos(v, pos + 1);
    }
}

proof fn lemma_sparse_nat_body_pos(v: Seq<char>, i: int, acc: nat)
    ensures
        sparse_nat_body(v, i, acc) matches Some((n, j)) ==> i <= j <= v.len() || j == i,
    decreases v.len() - i,
{
    if !(i < 0 || i >= v.len() || !is_digit(v[i])) {
        if !(acc * 10 + digit_val(v[i]) > usize::MAX) {
            lemma_sparse_nat_body_pos(v, i + 1, acc * 10 + digit_val(v[i]));
        }
    }
}

proof fn lemma_sparse_nat_pos(v: Seq<char>, pos: int)
    ensures
        sparse_nat(v, pos) matches Some((n, j)) ==> pos < j <= v.len(),
{
    if 0 <= pos < v.len() && is_digit(v[pos]) {
        if !(0 * 10 + digit_val(v[pos]) > usize::MAX) {
            lemma_sparse_nat_body_pos(v, pos + 1, 0 * 10 + digit_val(v[pos]));
        }
    }
}

proof fn lemma_sparse_record_pos(v: Seq<char>, pos: int)
    ensures
        sparse_record(v, pos) matches Some((w, j)) ==> pos < j <= v.len(),
{
    match sparse_lit(v, pos, "{\"token_counts\":"@) {
        None => {},
        Some(p1) => {
            reveal_strlit("{\"token_counts\":");
            match sparse_counts(v, p1) {
                None => {},
                Some((pairs, p2)) => {
                    lemma_sparse_counts_pos(v, p1);
                    match sparse_lit(v, p2, ",\"total_tokens\":"@) {
                        None => {},
                        Some(p3) => {
                            reveal_strlit(",\"total_tokens\":");
                            lemma_sparse_nat_pos(v, p3);
                        },
                    }
                },
            }
        },
    }
}

proof fn lemma_sparse_count_entries_pos(v: Seq<char>, i: int)
    ensures
        sparse_count_entries(v, i) matches Some((s, j)) ==> i < j <= v.len(),
    decreases v.len() - i,
{
    match sparse_string(v, i) {
        None => {},
        Some((tok, j1)) => {
            if i < j1 <= v.len() && j1 < v.len() && v[j1] == ':' {
                match sparse_nat(v, j1 + 1) {
                    None => {},
                    Some((c, j2)) => {
                        if j1 < j2 <= v.len() {
                            if j2 < v.len() && v[j2] == ',' {
                                lemma_sparse_count_entries_pos(v, j2 + 1);
                            }
                        }
                    },
                }
            }
        },
    }
}

proof fn lemma_sparse_counts_pos(v: Seq<char>, pos: int)
    ensures
        sparse_counts(v, pos) matches Some((s, j)) ==> pos < j <= v.len(),
{
    if 0 <= pos < v.len() && v[pos] == '{' {
        if !(pos + 1 < v.len() && v[pos + 1] == '}') {
            lemma_sparse_count_entries_pos(v, pos + 1);
        }
    }
}

// ---------------------------------------------------------------------------
// Loading.
// ---------------------------------------------------------------------------

impl SearchEngineIndex {
    /// Parses a persisted index. Fails, with nothing partial, on any input
    /// that is not exactly the persisted form of one index.
    pub fn load(s: &str) -> (r: Result<SearchEngineIndex, LoadError>)
        ensures
            match r {
                Ok(ix) => sparse_index_full(s@) == Some(index_view(ix)),
                Err(e) => sparse_index_full(s@) is None,
            },
    {
        let v = string_to_chars(s);
        let p1 = match parse_lit(&v, 0, "{\"documents\":") {
            Some(x) => x,
            None => {
                return Err(LoadError::Malformed);
            },
        };
        let (docs, p2) = match parse_doc_map(&v, p1) {
            Some(x) => x,
            None => {
                return Err(LoadError::Malformed);
            },
        };
        let p3 = match parse_lit(&v, p2, ",\"document_token_counts\":") {
            Some(x) => x,
            None => {
                return Err(LoadError::Malformed);
            },
        };
        let (counts, p4) = match parse_counts(&v, p3) {
            Some(x) => x,
            None => {
                return Err(LoadError::Malformed);
            },
        };
        if !(p4 < v.len() && v[p4] == '}') {
            return Err(LoadError::Malformed);
        }
        if p4 + 1 != v.len() {
            return Err(LoadError::Malformed);
        }
        let ix = SearchEngineIndex { documents: docs, document_token_counts: counts };
        proof {
            assert(index_view(ix) == (docs_view(ix.documents@), pairs_of(
                ix.document_token_counts@,
            ))) by {
                assert(Seq::new(ix.documents@.len(), |i: int| doc_view(ix.documents@[i]))
                    =~= docs_view(ix.documents@));
            }
        }
        Ok(ix)
    }
}


// ---------------------------------------------------------------------------
// Round trip: parsing an emitted index yields that index.
// ---------------------------------------------------------------------------

/// Powers of ten.
pub open spec fn pow10(k: nat) -> nat
    decreases k,
{
    if k == 0 {
        1
    } else {
        10 * pow10((k - 1) as nat)
    }
}

/// Every character of an emitted number is a digit.
proof fn lemma_emit_nat_digits(n: nat)
    ensures
        emit_nat(n).len() >= 1,
        forall|k: int| 0 <= k < emit_nat(n).len() ==> is_digit(#[trigger] emit_nat(n)[k]),
    decreases n,
{
    assert(forall|d: nat| d < 10 ==> is_digit(#[trigger] digit_char(d)));
    if n >= 10 {
        lemma_emit_nat_digits(n / 10);
        assert forall|k: int| 0 <= k < emit_nat(n).len() implies is_digit(
            #[trigger] emit_nat(n)[k],
        ) by {
            if k < emit_nat(n / 10).len() {
                assert(emit_nat(n)[k] == emit_nat(n / 10)[k]);
            } else {
                assert(emit_nat(n)[k] == digit_char(n % 10));
            }
        }
    }
}

/// Consuming an emitted number folds its value onto the accumulator.
proof fn lemma_sparse_nat_body_emit(v: Seq<char>, i: int, n: nat, acc: nat)
    requires
        0 <= i,
        i + emit_nat(n).len() <= v.len(),
        v.subrange(i, i + emit_nat(n).len()) == emit_nat(n),
        acc * pow10(emit_nat(n).len()) + n <= usize::MAX,
    ensures
        sparse_nat_body(v, i, acc) == sparse_nat_body(
            v,
            i + emit_nat(n).len(),
            acc * pow10(emit_nat(n).len()) + n,
        ),
    decreases n,
{
    assert(forall|d: nat|
        d < 10 ==> is_digit(#[trigger] digit_char(d)) && digit_val(digit_char(d)) == d);
    let all = emit_nat(n);
    if n < 10 {
        assert(v[i] == all[0]);
        assert(all[0] == digit_char(n));
        assert(pow10(0) == 1);
        assert(pow10(1) == 10);
        assert(acc * 10 + n <= usize::MAX);
        assert(sparse_nat_body(v, i, acc) == sparse_nat_body(v, i + 1, acc * 10 + n));
    } else {
        let head = emit_nat(n / 10);
        let hl = head.len() as int;
        assert(all == head.push(digit_char(n % 10)));
        assert(v.subrange(i, i + hl) =~= head) by {
            assert forall|k: int| 0 <= k < hl implies v.subrange(i, i + hl)[k] == head[k] by {
                assert(v.subrange(i, i + all.len())[k] == head[k]);
            }
        }
        let acc2 = acc * pow10(head.len()) + n / 10;
        assert(acc * pow10(all.len()) + n == acc2 * 10 + n % 10) by (nonlinear_arith)
            requires
                pow10(all.len()) == 10 * pow10(head.len()),
                n == 10 * (n / 10) + n % 10,
                acc2 == acc * pow10(head.len()) + n / 10,
                n >= 10,
        {
        }
        assert(pow10(all.len()) == 10 * pow10(head.len())) by {
            assert(all.len() == head.len() + 1);
        }
        assert(n == 10 * (n / 10) + n % 10) by (nonlinear_arith)
            requires
                n >= 10,
        {
        }
        assert(acc2 <= acc2 * 10) by (nonlinear_arith)
            requires
                acc2 >= 0,
        {
        }
        lemma_sparse_nat_body_emit(v, i, n / 10, acc);
        assert(v[i + hl] == all[hl]);
        assert(all[hl] == digit_char(n % 10));
        assert(sparse_nat_body(v, i + hl, acc2) == sparse_nat_body(
            v,
            i + hl + 1,
            acc2 * 10 + n % 10,
        ));
    }
}

/// Parsing an emitted number, followed by a non-digit, yields its value.
proof fn lemma_sparse_nat_emit(v: Seq<char>, pos: int, n: nat)
    requires
        0 <= pos,
        pos + emit_nat(n).len() <= v.len(),
        v.subrange(pos, pos + emit_nat(n).len()) == emit_nat(n),
        n <= usize::MAX,
        pos + emit_nat(n).len() < v.len() ==> !is_digit(v[pos + emit_nat(n).len()]),
    ensures
        sparse_nat(v, pos) == Some((n, pos + emit_nat(n).len())),
{
    lemma_emit_nat_digits(n);
    assert(v[pos] == emit_nat(n)[0]);
    assert(is_digit(v[pos]));
    assert(pow10(emit_nat(n).len()) >= 1) by {
        lemma_pow10_pos(emit_nat(n).len());
    }
    assert(0 * pow10(emit_nat(n).len()) + n <= usize::MAX);
    lemma_sparse_nat_body_emit(v, pos, n, 0);
    assert(sparse_nat_body(v, pos + emit_nat(n).len(), n) == Some((
        n,
        pos + emit_nat(n).len(),
    )));
}

proof fn lemma_pow10_pos(k: nat)
    ensures
        pow10(k) >= 1,
    decreases k,
{
    if k > 0 {
        lemma_pow10_pos((k - 1) as nat);
    }
}

/// Parsing an emitted string body plus closing quote yields the original
/// characters.
proof fn lemma_sparse_str_body_emit(v: Seq<char>, i: int, text: Seq<char>)
    requires
        0 <= i,
        i + emit_escape(text).len() + 1 <= v.len(),
        v.subrange(i, i + emit_escape(text).len() + 1) == emit_escape(text) + seq!['"'],
    ensures
        sparse_str_body(v, i) == Some((text, i + emit_escape(text).len() + 1)),
    decreases text.len(),
{
    let e = emit_escape(text);
    if text.len() == 0 {
        assert(v[i] == (e + seq!['"'])[0]);
        assert(v[i] == '"');
    } else if needs_escape(text[0]) {
        let tail = emit_escape(text.skip(1));
        assert(e == seq!['\\', text[0]] + tail);
        assert(v[i] == (e + seq!['"'])[0]);
        assert(v[i] == '\\');
        assert(v[i + 1] == (e + seq!['"'])[1]);
        assert(v[i + 1] == text[0]);
        assert(v.subrange(i + 2, i + 2 + tail.len() + 1) =~= tail + seq!['"']) by {
            assert forall|k: int| 0 <= k < tail.len() + 1 implies v.subrange(
                i + 2,
                i + 2 + tail.len() + 1,
            )[k] == (tail + seq!['"'])[k] by {
                assert(v.subrange(i, i + e.len() + 1)[k + 2] == (e + seq!['"'])[k + 2]);
            }
        }
        lemma_sparse_str_body_emit(v, i + 2, text.skip(1));
        assert(seq![v[i + 1]] + text.skip(1) =~= text);
    } else {
        let tail = emit_escape(text.skip(1));
        assert(e == seq![text[0]] + tail);
        assert(v[i] == (e + seq!['"'])[0]);
        assert(v[i] == text[0]);
        assert(v[i] != '"' && v[i] != '\\');
        assert(v.subrange(i + 1, i + 1 + tail.len() + 1) =~= tail + seq!['"']) by {
            assert forall|k: int| 0 <= k < tail.len() + 1 implies v.subrange(
                i + 1,
                i + 1 + tail.len() + 1,
            )[k] == (tail + seq!['"'])[k] by {
                assert(v.subrange(i, i + e.len() + 1)[k + 1] == (e + seq!['"'])[k + 1]);
            }
        }
        lemma_sparse_str_body_emit(v, i + 1, text.skip(1));
        assert(seq![v[i]] + text.skip(1) =~= text);
    }
}

/// Parsing an emitted quoted string yields the original characters.
proof fn lemma_sparse_string_emit(v: Seq<char>, pos: int, text: Seq<char>)
    requires
        0 <= pos,
        pos + emit_string(text).len() <= v.len(),
        v.subrange(pos, pos + emit_string(text).len()) == emit_string(text),
    ensures
        sparse_string(v, pos) == Some((text, pos + emit_string(text).len())),
{
    let e = emit_escape(text);
    assert(v[pos] == emit_string(text)[0]);
    assert(v[pos] == '"');
    assert(v.subrange(pos + 1, pos + 1 + e.len() + 1) =~= e + seq!['"']) by {
        assert forall|k: int| 0 <= k < e.len() + 1 implies v.subrange(
            pos + 1,
            pos + 1 + e.len() + 1,
        )[k] == (e + seq!['"'])[k] by {
            assert(v.subrange(pos, pos + emit_string(text).len())[k + 1] == emit_string(text)[k
                + 1]);
            assert(emit_string(text)[k + 1] == (e + seq!['"'])[k]);
        }
    }
    lemma_sparse_str_body_emit(v, pos + 1, text);
}

/// A subrange equality passes to any inner subrange.
proof fn lemma_subrange_within(v: Seq<char>, pos: int, w: Seq<char>, a: int, b: int)
    requires
        0 <= pos,
        pos + w.len() <= v.len(),
        v.subrange(pos, pos + w.len()) == w,
        0 <= a <= b <= w.len(),
    ensures
        v.subrange(pos + a, pos + b) == w.subrange(a, b),
{
    assert(v.subrange(pos + a, pos + b) =~= w.subrange(a, b)) by {
        assert forall|k: int| 0 <= k < b - a implies v.subrange(pos + a, pos + b)[k] == w.subrange(
            a,
            b,
        )[k] by {
            assert(v.subrange(pos, pos + w.len())[a + k] == w[a + k]);
        }
    }
}


/// A non-empty entry list begins with a quote.
proof fn lemma_count_entries_first(s: Seq<TokenCount>)
    requires
        s.len() >= 1,
    ensures
        emit_count_entries(s).len() >= 1,
        emit_count_entries(s)[0] == '"',
{
    assert(emit_count_entry(s[0])[0] == '"');
}

/// A non-empty document entry list begins with a quote.
proof fn lemma_doc_entries_first(s: Seq<DocumentRecord>)
    requires
        s.len() >= 1,
    ensures
        emit_doc_entries(s).len() >= 1,
        emit_doc_entries(s)[0] == '"',
{
    assert(emit_doc_entry(s[0])[0] == '"');
}

/// Parsing emitted count entries plus closing brace yields the original
/// pairs.
proof fn lemma_sparse_count_entries_emit(v: Seq<char>, i: int, s: Seq<TokenCount>)
    requires
        s.len() >= 1,
        0 <= i,
        i + emit_count_entries(s).len() + 1 <= v.len(),
        v.subrange(i, i + emit_count_entries(s).len() + 1) == emit_count_entries(s) + seq!['}'],
    ensures
        sparse_count_entries(v, i) == Some((pairs_of(s), i + emit_count_entries(s).len() + 1)),
    decreases s.len(),
{
    let all = emit_count_entries(s) + seq!['}'];
    let es = emit_string(s[0].token@);
    let en = emit_nat(s[0].count as nat);
    let e0 = emit_count_entry(s[0]);
    assert(e0 == es + seq![':'] + en);
    lemma_emit_nat_digits(s[0].count as nat);
    if s.len() == 1 {
        assert(emit_count_entries(s) == e0);
    } else {
        assert(emit_count_entries(s) == e0 + seq![','] + emit_count_entries(s.skip(1)));
    }
    // the quoted token
    lemma_subrange_within(v, i, all, 0, es.len() as int);
    assert(all.subrange(0, es.len() as int) =~= es);
    lemma_sparse_string_emit(v, i, s[0].token@);
    let j1 = i + es.len();
    // the colon
    assert(v[j1] == all[es.len() as int]);
    assert(all[es.len() as int] == ':');
    // the count
    lemma_subrange_within(v, i, all, es.len() as int + 1, es.len() as int + 1 + en.len());
    assert(all.subrange(es.len() as int + 1, es.len() as int + 1 + en.len()) =~= en);
    let j2 = j1 + 1 + en.len();
    assert(v[j2] == all[es.len() as int + 1 + en.len()]);
    if s.len() == 1 {
        assert(all[es.len() as int + 1 + en.len()] == '}');
        lemma_sparse_nat_emit(v, j1 + 1, s[0].count as nat);
        assert(sparse_count_entries(v, i) == Some((seq![(s[0].token@, s[0].count as nat)], j2
            + 1)));
        assert(seq![(s[0].token@, s[0].count as nat)] =~= pairs_of(s));
    } else {
        assert(all[es.len() as int + 1 + en.len()] == ',');
        assert(!is_digit(','));
        lemma_sparse_nat_emit(v, j1 + 1, s[0].count as nat);
        let rest = emit_count_entries(s.skip(1));
        lemma_subrange_within(v, i, all, e0.len() as int + 1, all.len() as int);
        assert(all.subrange(e0.len() as int + 1, all.len() as int) =~= rest + seq!['}']);
        lemma_sparse_count_entries_emit(v, j2 + 1, s.skip(1));
        assert(seq![(s[0].token@, s[0].count as nat)] + pairs_of(s.skip(1)) =~= pairs_of(s));
    }
}

/// Parsing an emitted counts object yields the original pairs.
proof fn lemma_sparse_counts_emit(v: Seq<char>, pos: int, s: Seq<TokenCount>)
    requires
        0 <= pos,
        pos + emit_counts(s).len() <= v.len(),
        v.subrange(pos, pos + emit_counts(s).len()) == emit_counts(s),
    ensures
        sparse_counts(v, pos) == Some((pairs_of(s), pos + emit_counts(s).len())),
{
    let all = emit_counts(s);
    assert(v[pos] == all[0]);
    assert(all[0] == '{');
    if s.len() == 0 {
        assert(v[pos + 1] == all[1]);
        assert(all[1] == '}');
        assert(pairs_of(s) =~= Seq::<(Seq<char>, nat)>::empty());
    } else {
        lemma_count_entries_first(s);
        assert(v[pos + 1] == all[1]);
        assert(all[1] == '"');
        lemma_subrange_within(v, pos, all, 1, all.len() as int);
        assert(all.subrange(1, all.len() as int) =~= emit_count_entries(s) + seq!['}']);
        lemma_sparse_count_entries_emit(v, pos + 1, s);
    }
}

/// Parsing an emitted record object yields the original record's content.
proof fn lemma_sparse_record_emit(v: Seq<char>, pos: int, r: DocumentFrequencyRecord)
    requires
        0 <= pos,
        pos + emit_record(r).len() <= v.len(),
        v.subrange(pos, pos + emit_record(r).len()) == emit_record(r),
    ensures
        sparse_record(v, pos) == Some((rec_view(r), pos + emit_record(r).len())),
{
    let all = emit_record(r);
    let l1 = "{\"token_counts\":"@;
    let ec = emit_counts(r.token_counts@);
    let l2 = ",\"total_tokens\":"@;
    let en = emit_nat(r.total_tokens as nat);
    assert(all == l1 + ec + l2 + en + seq!['}']);
    lemma_emit_nat_digits(r.total_tokens as nat);
    lemma_subrange_within(v, pos, all, 0, l1.len() as int);
    assert(all.subrange(0, l1.len() as int) =~= l1);
    assert(sparse_lit(v, pos, l1) == Some(pos + l1.len()));
    let p1 = pos + l1.len();
    lemma_subrange_within(v, pos, all, l1.len() as int, l1.len() as int + ec.len());
    assert(all.subrange(l1.len() as int, l1.len() as int + ec.len()) =~= ec);
    lemma_sparse_counts_emit(v, p1, r.token_counts@);
    let p2 = p1 + ec.len();
    lemma_subrange_within(v, pos, all, l1.len() as int + ec.len(), l1.len() as int + ec.len() + l2.len());
    assert(all.subrange(l1.len() as int + ec.len(), l1.len() as int + ec.len() + l2.len()) =~= l2);
    assert(sparse_lit(v, p2, l2) == Some(p2 + l2.len()));
    let p3 = p2 + l2.len();
    lemma_subrange_within(
        v,
        pos,
        all,
        l1.len() as int + ec.len() + l2.len(),
        l1.len() as int + ec.len() + l2.len() + en.len(),
    );
    assert(all.subrange(
        l1.len() as int + ec.len() + l2.len(),
        l1.len() as int + ec.len() + l2.len() + en.len(),
    ) =~= en);
    let p4 = p3 + en.len();
    assert(v[p4] == all[l1.len() as int + ec.len() + l2.len() + en.len()]);
    assert(all[l1.len() as int + ec.len() + l2.len() + en.len()] == '}');
    assert(!is_digit('}'));
    lemma_sparse_nat_emit(v, p3, r.total_tokens as nat);
}

/// Parsing emitted document entries plus closing brace yields the original
/// documents' content.
proof fn lemma_sparse_doc_entries_emit(v: Seq<char>, i: int, s: Seq<DocumentRecord>)
    requires
        s.len() >= 1,
        0 <= i,
        i + emit_doc_entries(s).len() + 1 <= v.len(),
        v.subrange(i, i + emit_doc_entries(s).len() + 1) == emit_doc_entries(s) + seq!['}'],
    ensures
        sparse_doc_entries(v, i) == Some((docs_view(s), i + emit_doc_entries(s).len() + 1)),
    decreases s.len(),
{
    let all = emit_doc_entries(s) + seq!['}'];
    let es = emit_string(s[0].doc_path@);
    let er = emit_record(s[0].record);
    let e0 = emit_doc_entry(s[0]);
    assert(e0 == es + seq![':'] + er);
    if s.len() == 1 {
        assert(emit_doc_entries(s) == e0);
    } else {
        assert(emit_doc_entries(s) == e0 + seq![','] + emit_doc_entries(s.skip(1)));
    }
    lemma_subrange_within(v, i, all, 0, es.len() as int);
    assert(all.subrange(0, es.len() as int) =~= es);
    lemma_sparse_string_emit(v, i, s[0].doc_path@);
    let j1 = i + es.len();
    assert(v[j1] == all[es.len() as int]);
    assert(all[es.len() as int] == ':');
    lemma_subrange_within(v, i, all, es.len() as int + 1, es.len() as int + 1 + er.len());
    assert(all.subrange(es.len() as int + 1, es.len() as int + 1 + er.len()) =~= er);
    lemma_sparse_record_emit(v, j1 + 1, s[0].record);
    let j2 = j1 + 1 + er.len();
    assert(v[j2] == all[es.len() as int + 1 + er.len()]);
    if s.len() == 1 {
        assert(all[es.len() as int + 1 + er.len()] == '}');
        assert(sparse_doc_entries(v, i) == Some((seq![(s[0].doc_path@, rec_view(s[0].record))],
            j2 + 1)));
        assert(seq![(s[0].doc_path@, rec_view(s[0].record))] =~= docs_view(s));
    } else {
        assert(all[es.len() as int + 1 + er.len()] == ',');
        let rest = emit_doc_entries(s.skip(1));
        lemma_subrange_within(v, i, all, e0.len() as int + 1, all.len() as int);
        assert(all.subrange(e0.len() as int + 1, all.len() as int) =~= rest + seq!['}']);
        lemma_sparse_doc_entries_emit(v, j2 + 1, s.skip(1));
        assert(seq![(s[0].doc_path@, rec_view(s[0].record))] + docs_view(s.skip(1)) =~= docs_view(
            s,
        ));
    }
}

/// Parsing an emitted document map yields the original documents' content.
proof fn lemma_sparse_doc_map_emit(v: Seq<char>, pos: int, s: Seq<DocumentRecord>)
    requires
        0 <= pos,
        pos + emit_doc_map(s).len() <= v.len(),
        v.subrange(pos, pos + emit_doc_map(s).len()) == emit_doc_map(s),
    ensures
        sparse_doc_map(v, pos) == Some((docs_view(s), pos + emit_doc_map(s).len())),
{
    let all = emit_doc_map(s);
    assert(v[pos] == all[0]);
    assert(all[0] == '{');
    if s.len() == 0 {
        assert(v[pos + 1] == all[1]);
        assert(all[1] == '}');
        assert(docs_view(s) =~= Seq::<(Seq<char>, (Seq<(Seq<char>, nat)>, nat))>::empty());
    } else {
        lemma_doc_entries_first(s);
        assert(v[pos + 1] == all[1]);
        assert(all[1] == '"');
        lemma_subrange_within(v, pos, all, 1, all.len() as int);
        assert(all.subrange(1, all.len() as int) =~= emit_doc_entries(s) + seq!['}']);
        lemma_sparse_doc_entries_emit(v, pos + 1, s);
    }
}

/// Law: the persisted form round-trips. Parsing what `save` emits for any
/// index yields exactly that index's documents, counts and totals.
pub proof fn lemma_save_load_round_trip(x: SearchEngineIndex)
    ensures
        sparse_index_full(emit_index(x)) == Some(index_view(x)),
{
    let v = emit_index(x);
    let l0 = "{\"documents\":"@;
    let dm = emit_doc_map(x.documents@);
    let l3 = ",\"document_token_counts\":"@;
    let ec = emit_counts(x.document_token_counts@);
    assert(v == l0 + dm + l3 + ec + seq!['}']);
    assert(v.subrange(0, v.len() as int) =~= v);
    lemma_subrange_within(v, 0, v, 0, l0.len() as int);
    assert(v.subrange(0, l0.len() as int) =~= l0);
    assert(sparse_lit(v, 0, l0) == Some(l0.len() as int));
    let p1 = l0.len() as int;
    lemma_subrange_within(v, 0, v, p1, p1 + dm.len());
    assert(v.subrange(p1, p1 + dm.len()) =~= dm);
    lemma_sparse_doc_map_emit(v, p1, x.documents@);
    let p2 = p1 + dm.len();
    lemma_subrange_within(v, 0, v, p2, p2 + l3.len());
    assert(v.subrange(p2, p2 + l3.len()) =~= l3);
    assert(sparse_lit(v, p2, l3) == Some(p2 + l3.len()));
    let p3 = p2 + l3.len();
    lemma_subrange_within(v, 0, v, p3, p3 + ec.len());
    assert(v.subrange(p3, p3 + ec.len()) =~= ec);
    lemma_sparse_counts_emit(v, p3, x.document_token_counts@);
    let p4 = p3 + ec.len();
    assert(v[p4] == '}');
    assert(p4 + 1 == v.len());
    assert(sparse_index(v) == Some(((docs_view(x.documents@), pairs_of(
        x.document_token_counts@,
    )), p4 + 1)));
    assert(index_view(x) == (docs_view(x.documents@), pairs_of(x.document_token_counts@))) by {
        assert(Seq::new(x.documents@.len(), |i: int| doc_view(x.documents@[i])) =~= docs_view(
            x.documents@,
        ));
    }
}

} // verus!
