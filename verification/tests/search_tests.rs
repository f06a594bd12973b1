use search_engine::get_tokens_freq_within_doc;
use search_engine::rank;
use search_engine::search_engine::has_positive_score;
use search_engine::DocumentFrequencyRecord;
use search_engine::SearchData;
use search_engine::SearchEngine;
use search_engine::SearchEngineIndex;
use search_engine::SearchResult;

fn record_of(text: &str) -> DocumentFrequencyRecord {
    get_tokens_freq_within_doc(&vec![String::from(text)])
}

fn engine_of(docs: &[(&str, &str)]) -> SearchEngine {
    let mut ix = SearchEngineIndex::new();
    for (path, text) in docs.iter() {
        ix.add_document(String::from(*path), record_of(text));
    }
    SearchEngine::new(ix)
}

/// The floating-point half of scoring that a caller of the library performs:
/// evaluate each candidate's TF-IDF score, keep the positive ones, and rank.
fn ranked_scores(data: &SearchData) -> Vec<(String, f32)> {
    let mut scored: Vec<SearchResult> = Vec::new();
    for doc in data.docs.iter() {
        let mut importance: f32 = 0.0;
        for (i, count) in doc.counts.iter().enumerate() {
            let tf = *count as f32 / doc.total_tokens as f32;
            let idf = f32::log10(data.num_docs as f32 / data.doc_freqs[i] as f32);
            importance += tf * idf;
        }
        if importance > 0.0 {
            scored.push(SearchResult {
                doc_path: doc.doc_path.clone(),
                score_key: importance.to_bits(),
            });
        }
    }
    rank(scored)
        .into_iter()
        .map(|r| (r.doc_path, f32::from_bits(r.score_key)))
        .collect()
}

#[test]
fn end_to_end_two_documents() {
    let engine = engine_of(&[("a", "the cat sat"), ("b", "the cat ran")]);

    // "cat" occurs in both documents, so its inverse document frequency is
    // log10(2/2) = 0: every score is zero and the result set is empty
    let cat = engine.search("cat");
    assert_eq!(cat.num_docs, 2);
    assert_eq!(cat.tokens, vec!["CAT"]);
    assert_eq!(cat.doc_freqs, vec![2]);
    assert_eq!(cat.docs.len(), 2);
    assert_eq!(ranked_scores(&cat), Vec::<(String, f32)>::new());

    // "sat" occurs only in document a, so a scores (1/3) * log10(2) > 0 and
    // b scores zero
    let sat = engine.search("sat");
    assert_eq!(sat.doc_freqs, vec![1]);
    let ranked = ranked_scores(&sat);
    assert_eq!(ranked.len(), 1);
    assert_eq!(ranked[0].0, "a");
    let expected = (1.0f32 / 3.0f32) * f32::log10(2.0f32);
    assert!(ranked[0].1 > 0.0);
    assert!((ranked[0].1 - expected).abs() < 1e-7);
}

#[test]
fn search_collects_exact_term_data() {
    let engine = engine_of(&[("a", "cat cat dog"), ("b", "dog")]);
    let data = engine.search("cat dog bird");
    assert_eq!(data.tokens, vec!["CAT", "DOG", "BIRD"]);
    assert_eq!(data.num_docs, 2);
    // document counts, with the default of one for the unseen token
    assert_eq!(data.doc_freqs, vec![1, 2, 1]);
    assert_eq!(data.docs.len(), 2);
    assert_eq!(data.docs[0].doc_path, "a");
    assert_eq!(data.docs[0].total_tokens, 3);
    assert_eq!(data.docs[0].counts, vec![2, 1, 0]);
    assert_eq!(data.docs[1].doc_path, "b");
    assert_eq!(data.docs[1].total_tokens, 1);
    assert_eq!(data.docs[1].counts, vec![0, 1, 0]);
}

#[test]
fn repeated_query_tokens_amplify() {
    let engine = engine_of(&[("a", "rare word"), ("b", "other text")]);
    let once = engine.search("rare");
    let twice = engine.search("rare rare");
    let s1 = ranked_scores(&once);
    let s2 = ranked_scores(&twice);
    assert_eq!(s1.len(), 1);
    assert_eq!(s2.len(), 1);
    assert!((s2[0].1 - 2.0 * s1[0].1).abs() < 1e-7);
}

#[test]
fn zero_token_documents_never_scored() {
    let engine = engine_of(&[("empty", ""), ("full", "cat")]);
    let queries = ["cat", "", "empty ! 12"];
    for q in queries.iter() {
        let data = engine.search(q);
        assert!(data.docs.iter().all(|d| d.doc_path != "empty"));
        assert!(data.docs.iter().all(|d| d.total_tokens > 0));
        assert!(ranked_scores(&data).iter().all(|(p, _)| p != "empty"));
    }
}

#[test]
fn search_is_deterministic() {
    let engine = engine_of(&[("a", "the cat sat"), ("b", "cat nap"), ("c", "dog")]);
    let first = engine.search("cat dog");
    let second = engine.search("cat dog");
    assert_eq!(first, second);
    assert_eq!(ranked_scores(&first), ranked_scores(&second));
}

#[test]
fn ranking_orders_descending() {
    let engine = engine_of(&[
        ("often", "fish fish fish filler"),
        ("once", "fish filler filler filler"),
        ("never", "filler filler"),
    ]);
    let data = engine.search("fish");
    let ranked = ranked_scores(&data);
    assert_eq!(ranked.len(), 2);
    assert_eq!(ranked[0].0, "often");
    assert_eq!(ranked[1].0, "once");
    assert!(ranked[0].1 > ranked[1].1);
}

#[test]
fn rank_sorts_descending_and_keeps_ties_stable() {
    let input = vec![
        SearchResult { doc_path: String::from("b"), score_key: 5 },
        SearchResult { doc_path: String::from("a"), score_key: 5 },
        SearchResult { doc_path: String::from("c"), score_key: 7 },
        SearchResult { doc_path: String::from("d"), score_key: 1 },
    ];
    let out = rank(input);
    let paths: Vec<&str> = out.iter().map(|r| r.doc_path.as_str()).collect();
    assert_eq!(paths, vec!["c", "b", "a", "d"]);
    let keys: Vec<u32> = out.iter().map(|r| r.score_key).collect();
    assert_eq!(keys, vec![7, 5, 5, 1]);
}

#[test]
fn rank_of_empty_is_empty() {
    assert_eq!(rank(Vec::new()), Vec::<SearchResult>::new());
}

#[test]
fn positive_score_predicate() {
    let engine = engine_of(&[("a", "the cat sat"), ("b", "the cat ran")]);
    let cat = engine.search("cat");
    // "cat" is in every document: no positive score is possible
    assert!(!has_positive_score(&cat.docs[0], &cat.doc_freqs, cat.num_docs));
    let sat = engine.search("sat");
    assert!(has_positive_score(&sat.docs[0], &sat.doc_freqs, sat.num_docs));
    assert!(!has_positive_score(&sat.docs[1], &sat.doc_freqs, sat.num_docs));
}
