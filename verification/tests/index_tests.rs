use search_engine::get_tokens_freq_within_doc;
use search_engine::index::TokenCount;
use search_engine::DocumentFrequencyRecord;
use search_engine::SearchEngineIndex;

fn record_of(text: &str) -> DocumentFrequencyRecord {
    get_tokens_freq_within_doc(&vec![String::from(text)])
}

fn count_in(counts: &[TokenCount], token: &str) -> usize {
    counts
        .iter()
        .find(|e| e.token == token)
        .map(|e| e.count)
        .unwrap_or(0)
}

#[test]
fn record_counts_tokens() {
    let rec = record_of("the cat sat on the mat");
    assert_eq!(count_in(&rec.token_counts, "THE"), 2);
    assert_eq!(count_in(&rec.token_counts, "CAT"), 1);
    assert_eq!(count_in(&rec.token_counts, "MAT"), 1);
    assert_eq!(count_in(&rec.token_counts, "DOG"), 0);
    assert_eq!(rec.total_tokens, 6);
}

#[test]
fn record_total_is_sum_of_counts() {
    let texts = ["", "one", "a a a b c", "x 1 ! x 2 ? x"];
    for text in texts.iter() {
        let rec = record_of(text);
        let sum: usize = rec.token_counts.iter().map(|e| e.count).sum();
        assert_eq!(rec.total_tokens, sum);
        for e in rec.token_counts.iter() {
            assert!(e.count >= 1);
        }
    }
}

#[test]
fn record_of_empty_text_is_empty() {
    let rec = record_of("");
    assert_eq!(rec.total_tokens, 0);
    assert!(rec.token_counts.is_empty());
}

#[test]
fn record_accumulates_over_segments() {
    let rec = get_tokens_freq_within_doc(&vec![
        String::from("cat dog"),
        String::from("cat bird"),
    ]);
    assert_eq!(count_in(&rec.token_counts, "CAT"), 2);
    assert_eq!(count_in(&rec.token_counts, "DOG"), 1);
    assert_eq!(count_in(&rec.token_counts, "BIRD"), 1);
    assert_eq!(rec.total_tokens, 4);
}

#[test]
fn record_add_token_and_text() {
    let mut rec = DocumentFrequencyRecord::new();
    assert_eq!(rec.total_tokens, 0);
    rec.add_token(&String::from("CAT"));
    rec.add_token(&String::from("CAT"));
    rec.add_token(&String::from("DOG"));
    assert_eq!(count_in(&rec.token_counts, "CAT"), 2);
    assert_eq!(count_in(&rec.token_counts, "DOG"), 1);
    assert_eq!(rec.total_tokens, 3);
    let text: Vec<char> = "dog dog".chars().collect();
    rec.add_text(&text);
    assert_eq!(count_in(&rec.token_counts, "DOG"), 3);
    assert_eq!(rec.total_tokens, 5);
}

#[test]
fn document_count_not_occurrence_count() {
    // a token occurring ten times in one document and nowhere else counts as
    // contained in exactly one document
    let mut ix = SearchEngineIndex::new();
    ix.add_document(
        String::from("a.xhtml"),
        record_of("cat cat cat cat cat cat cat cat cat cat"),
    );
    ix.add_document(String::from("b.xhtml"), record_of("dog"));
    assert_eq!(count_in(&ix.document_token_counts, "CAT"), 1);
    assert_eq!(count_in(&ix.document_token_counts, "DOG"), 1);
}

#[test]
fn document_counts_across_documents() {
    let mut ix = SearchEngineIndex::new();
    ix.add_document(String::from("a"), record_of("the cat sat"));
    ix.add_document(String::from("b"), record_of("the cat ran"));
    ix.add_document(String::from("c"), record_of("a dog"));
    assert_eq!(count_in(&ix.document_token_counts, "THE"), 2);
    assert_eq!(count_in(&ix.document_token_counts, "CAT"), 2);
    assert_eq!(count_in(&ix.document_token_counts, "SAT"), 1);
    assert_eq!(count_in(&ix.document_token_counts, "DOG"), 1);
    assert_eq!(count_in(&ix.document_token_counts, "BIRD"), 0);
    assert_eq!(ix.documents.len(), 3);
}

#[test]
fn contains_doc_reports_membership() {
    let mut ix = SearchEngineIndex::new();
    assert!(!ix.contains_doc(&String::from("a")));
    ix.add_document(String::from("a"), record_of("x"));
    assert!(ix.contains_doc(&String::from("a")));
    assert!(!ix.contains_doc(&String::from("b")));
}

#[test]
fn update_token_freq_bumps_each_token_once() {
    let mut ix = SearchEngineIndex::new();
    let rec = record_of("cat cat dog");
    ix.update_token_freq_across_docs(&rec);
    assert_eq!(count_in(&ix.document_token_counts, "CAT"), 1);
    assert_eq!(count_in(&ix.document_token_counts, "DOG"), 1);
    ix.update_token_freq_across_docs(&rec);
    assert_eq!(count_in(&ix.document_token_counts, "CAT"), 2);
    assert_eq!(count_in(&ix.document_token_counts, "DOG"), 2);
}
