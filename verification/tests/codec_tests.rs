use search_engine::get_tokens_freq_within_doc;
use search_engine::DocumentFrequencyRecord;
use search_engine::LoadError;
use search_engine::SearchEngineIndex;

fn record_of(text: &str) -> DocumentFrequencyRecord {
    get_tokens_freq_within_doc(&vec![String::from(text)])
}

fn two_doc_index() -> SearchEngineIndex {
    let mut ix = SearchEngineIndex::new();
    ix.add_document(String::from("a.xhtml"), record_of("the cat sat"));
    ix.add_document(String::from("b.xhtml"), record_of("the cat ran"));
    ix
}

#[test]
fn save_empty_index_exact_text() {
    let ix = SearchEngineIndex::new();
    assert_eq!(ix.save(), "{\"documents\":{},\"document_token_counts\":{}}");
}

#[test]
fn save_one_document_exact_text() {
    let mut ix = SearchEngineIndex::new();
    ix.add_document(String::from("a"), record_of("x y"));
    assert_eq!(
        ix.save(),
        "{\"documents\":{\"a\":{\"token_counts\":{\"X\":1,\"Y\":1},\"total_tokens\":2}},\"document_token_counts\":{\"X\":1,\"Y\":1}}"
    );
}

#[test]
fn round_trip_two_documents_with_shared_token() {
    let ix = two_doc_index();
    let text = ix.save();
    let loaded = SearchEngineIndex::load(&text).unwrap();
    assert_eq!(loaded, ix);
}

#[test]
fn round_trip_empty_index() {
    let ix = SearchEngineIndex::new();
    let loaded = SearchEngineIndex::load(&ix.save()).unwrap();
    assert_eq!(loaded, ix);
}

#[test]
fn round_trip_document_with_zero_tokens() {
    let mut ix = SearchEngineIndex::new();
    ix.add_document(String::from("empty.xhtml"), record_of(""));
    ix.add_document(String::from("full.xhtml"), record_of("words here"));
    let loaded = SearchEngineIndex::load(&ix.save()).unwrap();
    assert_eq!(loaded, ix);
}

#[test]
fn round_trip_escaped_characters() {
    // a path with quotes and backslashes, and tokens that are single symbol
    // characters, must survive the trip
    let mut ix = SearchEngineIndex::new();
    ix.add_document(String::from("dir\\a \"quoted\".xhtml"), record_of("x\"y \\ z"));
    let text = ix.save();
    let loaded = SearchEngineIndex::load(&text).unwrap();
    assert_eq!(loaded, ix);
}

#[test]
fn load_hand_written_text() {
    let text = "{\"documents\":{\"a\":{\"token_counts\":{\"X\":1,\"Y\":1},\"total_tokens\":2}},\"document_token_counts\":{\"X\":1,\"Y\":1}}";
    let loaded = SearchEngineIndex::load(text).unwrap();
    let mut ix = SearchEngineIndex::new();
    ix.add_document(String::from("a"), record_of("x y"));
    assert_eq!(loaded, ix);
}

#[test]
fn load_rejects_malformed_input() {
    let bad = [
        "",
        "{}",
        "junk",
        "{\"documents\":{}}",
        "{\"documents\":{},\"document_token_counts\":{}",
        "{\"documents\":{},\"document_token_counts\":{}} ",
        " {\"documents\":{},\"document_token_counts\":{}}",
        "{\"documents\":{\"a\":{\"token_counts\":{},\"total_tokens\":}},\"document_token_counts\":{}}",
        "{\"documents\":{\"a\":1},\"document_token_counts\":{}}",
    ];
    for text in bad.iter() {
        assert_eq!(SearchEngineIndex::load(text), Err(LoadError::Malformed));
    }
}

#[test]
fn load_rejects_truncations_of_valid_text() {
    let full = two_doc_index().save();
    for cut in 0..full.len() {
        let prefix: String = full.chars().take(cut).collect();
        assert!(SearchEngineIndex::load(&prefix).is_err());
    }
}

#[test]
fn load_parses_word_sized_totals_only() {
    let ok = "{\"documents\":{\"a\":{\"token_counts\":{},\"total_tokens\":18446744073709551615}},\"document_token_counts\":{}}";
    let loaded = SearchEngineIndex::load(ok).unwrap();
    assert_eq!(loaded.documents[0].record.total_tokens, usize::MAX);
    let too_big = "{\"documents\":{\"a\":{\"token_counts\":{},\"total_tokens\":18446744073709551616}},\"document_token_counts\":{}}";
    assert_eq!(SearchEngineIndex::load(too_big), Err(LoadError::Malformed));
}
