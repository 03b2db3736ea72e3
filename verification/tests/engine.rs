//! End-to-end tests of the search engine: indexing, the query modes,
//! ranking, snippets, the cache, persistence and synchronization.

use infospark::doc::Document;
use infospark::errors::IndexError;
use infospark::index::InvertedIndex;
use infospark::score::{log10_scaled, term_score, tf_comp_scaled};
use infospark::sync::ScannedFile;
use infospark::tokenizer::tokenize;
use infospark::SCORE_SCALE;

fn doc(id: u32, path: &str, content: &str, tags: &[&str]) -> Document {
    Document {
        id,
        path: path.to_string(),
        content: content.to_string(),
        title: String::new(),
        tags: tags.iter().map(|t| t.to_string()).collect(),
        num_tokens: 0,
        modified_time: 7,
    }
}

fn file(path: &str, mtime: u64, content: &str) -> ScannedFile {
    ScannedFile {
        path: path.to_string(),
        modified_time: mtime,
        content: content.to_string(),
    }
}

#[test]
fn tokenizer_stems_and_drops_stop_words() {
    let toks = tokenize("The Apple is running");
    // "the" and "is" are stop words; the rest is stemmed and lowercased.
    assert_eq!(toks.len(), 2);
    assert_eq!(toks[0], "appl");
    assert_eq!(toks[1], "run");
    assert!(tokenize("").is_empty());
}

#[test]
fn empty_and_degenerate_queries_return_nothing() {
    let mut idx = InvertedIndex::new();
    idx.add_document(doc(1, "a.txt", "apple banana", &[]));
    assert!(idx.search("").is_empty());
    assert!(idx.search("#").is_empty());
    assert!(idx.search("# ").is_empty());
    // A query of stop words alone produces no terms.
    assert!(idx.search("the is a").is_empty());
    // An unknown term beyond the fuzzy threshold finds nothing.
    assert!(idx.search("zzzzzzzzzz").is_empty());
}

#[test]
fn keyword_search_finds_and_ranks() {
    let mut idx = InvertedIndex::new();
    idx.add_document(doc(1, "a.txt", "cat dog", &[]));
    idx.add_document(doc(2, "b.txt", "cat cat", &[]));
    idx.add_document(doc(3, "c.txt", "banana tree", &[]));
    let r = idx.search("cat");
    assert_eq!(r.len(), 2);
    // Both documents have two tokens; the one with the higher term
    // frequency never scores lower, and ranks first.
    assert_eq!(r[0].doc.id, 2);
    assert_eq!(r[1].doc.id, 1);
    assert!(r[0].score >= r[1].score);
}

#[test]
fn keyword_search_is_a_conjunction() {
    let mut idx = InvertedIndex::new();
    idx.add_document(doc(1, "a.txt", "cat dog", &[]));
    idx.add_document(doc(2, "b.txt", "cat banana", &[]));
    let r = idx.search("cat dog");
    assert_eq!(r.len(), 1);
    assert_eq!(r[0].doc.id, 1);
}

#[test]
fn phrase_search_requires_adjacent_order() {
    let mut idx = InvertedIndex::new();
    idx.add_document(doc(1, "a.txt", "machine learning is fun", &[]));
    idx.add_document(doc(2, "b.txt", "learning machines daily", &[]));
    let r = idx.search("\"machine learning\"");
    assert_eq!(r.len(), 1);
    assert_eq!(r[0].doc.id, 1);
    // One aligned occurrence: the score is the match count, scaled.
    assert_eq!(r[0].score, SCORE_SCALE as u128);
}

#[test]
fn phrase_match_count_ranks() {
    let mut idx = InvertedIndex::new();
    idx.add_document(doc(1, "a.txt", "cat dog cat dog", &[]));
    idx.add_document(doc(2, "b.txt", "cat dog banana", &[]));
    let r = idx.search("\"cat dog\"");
    assert_eq!(r.len(), 2);
    assert_eq!(r[0].doc.id, 1);
    assert_eq!(r[0].score, 2 * SCORE_SCALE as u128);
    assert_eq!(r[1].doc.id, 2);
    assert_eq!(r[1].score, SCORE_SCALE as u128);
}

#[test]
fn fuzzy_fallback_halves_the_score() {
    let mut idx = InvertedIndex::new();
    idx.add_document(doc(1, "a.txt", "apple pie", &[]));
    let exact = idx.search("apple");
    assert_eq!(exact.len(), 1);
    let fuzzy = idx.search("aple");
    assert_eq!(fuzzy.len(), 1);
    assert_eq!(fuzzy[0].doc.id, 1);
    assert_eq!(fuzzy[0].score, exact[0].score / 2);
    assert!(fuzzy[0].score > 0);
}

#[test]
fn wildcard_terms_expand_to_indexed_tokens() {
    let mut idx = InvertedIndex::new();
    idx.add_document(doc(1, "a.txt", "banana tree", &[]));
    idx.add_document(doc(2, "b.txt", "cherry tree", &[]));
    let r = idx.search("bana*");
    assert_eq!(r.len(), 1);
    assert_eq!(r[0].doc.id, 1);
}

#[test]
fn tag_query_returns_exactly_the_tagged_documents() {
    let mut idx = InvertedIndex::new();
    idx.add_document(doc(1, "a.txt", "apple #project alpha", &["project"]));
    idx.add_document(doc(2, "b.txt", "banana beta", &["notes"]));
    idx.add_document(doc(3, "c.txt", "cherry gamma", &["project", "notes"]));
    let r = idx.search("#project");
    assert_eq!(r.len(), 2);
    let mut ids: Vec<u32> = r.iter().map(|x| x.doc.id).collect();
    ids.sort();
    assert_eq!(ids, vec![1, 3]);
    for x in &r {
        assert_eq!(x.score, SCORE_SCALE as u128);
        assert_eq!(x.snippet, "...");
    }
    // Tag lookups are normalized: case and surrounding space do not matter.
    let r2 = idx.search("#  PROJECT ");
    assert_eq!(r2.len(), 2);
    assert!(idx.search("#missing").is_empty());
}

#[test]
fn snippet_frames_a_window_around_the_first_match() {
    let mut idx = InvertedIndex::new();
    idx.add_document(doc(1, "a.txt", "the apple tree", &[]));
    let r = idx.search("apple");
    assert_eq!(r.len(), 1);
    assert_eq!(r[0].snippet, "...the apple tree...");
}

#[test]
fn snippet_falls_back_to_the_leading_characters() {
    let mut idx = InvertedIndex::new();
    let long = "banana ".repeat(40);
    idx.add_document(doc(1, "a.txt", &long, &["note"]));
    // A tag hit carries a placeholder snippet; a keyword hit on a long
    // document clips the window.
    let r = idx.search("banana");
    assert_eq!(r.len(), 1);
    assert!(r[0].snippet.starts_with("..."));
    assert!(r[0].snippet.ends_with("..."));
    assert!(r[0].snippet.chars().count() <= long.chars().count() + 6);
}

#[test]
fn highlights_mark_word_boundary_occurrences() {
    let mut idx = InvertedIndex::new();
    // The stem "banana" occurs as a standalone word, so it is emphasized.
    idx.add_document(doc(1, "a.txt", "eat banana treat banana crumble", &[]));
    let r = idx.search("banana");
    assert_eq!(r.len(), 1);
    assert_eq!(r[0].highlights.len(), 2);
    let snippet: Vec<char> = r[0].snippet.chars().collect();
    for (start, len) in &r[0].highlights {
        let word: String = snippet[*start..*start + *len].iter().collect();
        assert_eq!(word, "banana");
    }
}

#[test]
fn cache_returns_identical_results_until_a_mutation() {
    let mut idx = InvertedIndex::new();
    idx.add_document(doc(1, "a.txt", "apple banana", &[]));
    let first = idx.search("apple");
    let second = idx.search("apple");
    assert_eq!(first.len(), second.len());
    assert_eq!(first[0].doc.id, second[0].doc.id);
    assert_eq!(first[0].score, second[0].score);
    assert_eq!(first[0].snippet, second[0].snippet);
    idx.add_document(doc(2, "b.txt", "apple apple apple", &[]));
    let third = idx.search("apple");
    assert_eq!(third.len(), 2);
}

#[test]
fn add_then_remove_restores_the_serialized_state() {
    let mut idx = InvertedIndex::new();
    idx.add_document(doc(1, "a.txt", "apple #project", &["project"]));
    let before = idx.to_serialized_data().unwrap();
    idx.add_document(doc(2, "b.txt", "banana #extra", &["extra"]));
    let removed = idx.remove_document(2).unwrap();
    assert_eq!(removed.id, 2);
    let after = idx.to_serialized_data().unwrap();
    // The counter and cache are not serialized, so the blobs are equal:
    // no token, tag or posting introduced by the document remains.
    assert_eq!(before, after);
    assert!(idx.search("banana").is_empty());
    assert!(idx.search("#extra").is_empty());
    assert!(idx.remove_document(2).is_none());
}

#[test]
fn serialization_round_trip_reproduces_the_index() {
    let mut idx = InvertedIndex::new();
    idx.add_document(doc(1, "a.txt", "apple crumble with spice", &["sweet"]));
    idx.add_document(doc(5, "b.txt", "banana bread", &["sweet", "bread"]));
    let bytes = idx.to_serialized_data().unwrap();
    let mut idx2 = InvertedIndex::from_serialized_data(&bytes).unwrap();
    assert_eq!(idx2.total_documents(), 2);
    assert_eq!(idx2.next_id(), 6);
    let r1 = idx.search("banana");
    let r2 = idx2.search("banana");
    assert_eq!(r1.len(), r2.len());
    assert_eq!(r1[0].doc.id, r2[0].doc.id);
    assert_eq!(r1[0].score, r2[0].score);
    let bytes2 = idx2.to_serialized_data().unwrap();
    assert_eq!(bytes, bytes2);
}

#[test]
fn serialization_keeps_every_character() {
    let mut idx = InvertedIndex::new();
    idx.add_document(doc(1, "a.txt", "caf\u{e9} men\u{fc} \u{1f600} apple", &[]));
    let bytes = idx.to_serialized_data().unwrap();
    let idx2 = InvertedIndex::from_serialized_data(&bytes).unwrap();
    let d = idx2.get(1).unwrap();
    assert_eq!(d.content, "caf\u{e9} men\u{fc} \u{1f600} apple");
}

#[test]
fn deserialization_rejects_garbage_and_zero_capacity() {
    match InvertedIndex::from_serialized_data(&[1, 2, 3]) {
        Err(IndexError::DeserializationFailure) => {},
        _ => panic!("expected a deserialization failure"),
    }
    let idx = InvertedIndex::new();
    let mut bytes = idx.to_serialized_data().unwrap();
    for b in bytes.iter_mut().take(8) {
        *b = 0;
    }
    match InvertedIndex::from_serialized_data(&bytes) {
        Err(IndexError::InvalidCacheCapacity) => {},
        _ => panic!("expected an invalid cache capacity"),
    }
}

#[test]
fn synchronization_adds_updates_and_removes() {
    let mut idx = InvertedIndex::new();
    let v1 = vec![
        file("docs/alpha.txt", 10, "apple #project"),
        file("docs/beta.txt", 20, "banana bread"),
    ];
    idx.synchronize(&v1);
    assert_eq!(idx.total_documents(), 2);
    let alpha_id = idx.search("apple")[0].doc.id;
    assert_eq!(idx.search("#project").len(), 1);
    // One file disappears, the other changes its modification time.
    let v2 = vec![file("docs/alpha.txt", 11, "cherry #newtag")];
    idx.synchronize(&v2);
    assert_eq!(idx.total_documents(), 1);
    assert!(idx.search("banana").is_empty());
    assert!(idx.search("apple").is_empty());
    let r = idx.search("cherry");
    assert_eq!(r.len(), 1);
    // The changed file keeps its identifier and carries the new tags.
    assert_eq!(r[0].doc.id, alpha_id);
    assert_eq!(idx.search("#newtag").len(), 1);
    assert_eq!(r[0].doc.title, "alpha");
}

#[test]
fn synchronization_is_idempotent() {
    let mut idx = InvertedIndex::new();
    let v = vec![
        file("docs/alpha.txt", 10, "apple #project banana"),
        file("docs/beta.txt", 20, "cherry tree"),
    ];
    idx.synchronize(&v);
    let once = idx.to_serialized_data().unwrap();
    let ids1: Vec<u32> = idx.search("banana").iter().map(|r| r.doc.id).collect();
    idx.synchronize(&v);
    let twice = idx.to_serialized_data().unwrap();
    let ids2: Vec<u32> = idx.search("banana").iter().map(|r| r.doc.id).collect();
    assert_eq!(once, twice);
    assert_eq!(ids1, ids2);
}

#[test]
fn tag_extraction_lowercases_and_scans_words() {
    let mut idx = InvertedIndex::new();
    let v = vec![file("n.md", 1, "notes #Alpha and #beta_2, but #-none")];
    idx.synchronize(&v);
    assert_eq!(idx.search("#alpha").len(), 1);
    assert_eq!(idx.search("#beta_2").len(), 1);
    assert!(idx.search("#none").is_empty());
}

#[test]
fn scoring_primitives_match_their_closed_forms() {
    // log10 of exact powers of ten needs no fractional digits.
    assert_eq!(log10_scaled(1, 1), 0);
    assert_eq!(log10_scaled(10, 1), SCORE_SCALE);
    assert_eq!(log10_scaled(100, 1), 2 * SCORE_SCALE);
    // tf = dl = 1 over a one-token corpus: (22 * 1) / (10 + 3 + 9) = 1.0.
    assert_eq!(tf_comp_scaled(1, 1, 1, 1), SCORE_SCALE);
    // The term contribution composes idf and the frequency component, and
    // the fuzzy penalty halves it.
    let exact = term_score(1, 1, 1, 1, 1, 1, false);
    let fuzzy = term_score(1, 1, 1, 1, 1, 1, true);
    assert_eq!(exact, log10_scaled(4, 3));
    assert_eq!(fuzzy, exact / 2);
}

#[test]
fn graph_edges_pair_documents_sharing_tags() {
    let mut idx = InvertedIndex::new();
    idx.add_document(doc(1, "a.txt", "apple", &["red", "sweet"]));
    idx.add_document(doc(2, "b.txt", "banana", &["sweet"]));
    idx.add_document(doc(3, "c.txt", "cherry", &["red", "sweet"]));
    let edges = idx.tag_edges();
    assert_eq!(edges.len(), 3);
    assert_eq!(edges[0], (1, 2, 1));
    assert_eq!(edges[1], (1, 3, 2));
    assert_eq!(edges[2], (2, 3, 1));
}

#[test]
fn error_messages_name_the_failure() {
    assert!(IndexError::NotADirectory.message().contains("directory"));
    assert!(IndexError::UnsupportedFileType.message().contains("unsupported"));
    assert!(IndexError::ContentExtractionFailure("x.pdf".to_string())
        .message()
        .contains("x.pdf"));
    assert!(IndexError::SerializationFailure.message().contains("encode"));
    assert!(IndexError::DeserializationFailure.message().contains("decode"));
    assert!(IndexError::InvalidCacheCapacity.message().contains("zero"));
}

#[test]
fn document_lookup_and_counters() {
    let mut idx = InvertedIndex::new();
    assert_eq!(idx.total_documents(), 0);
    assert_eq!(idx.next_id(), 1);
    idx.add_document(doc(4, "a.txt", "apple banana", &[]));
    assert_eq!(idx.total_documents(), 1);
    assert_eq!(idx.next_id(), 5);
    assert_eq!(idx.token_total(), 2);
    assert!(idx.has_document(4));
    assert!(!idx.has_document(1));
    let d = idx.get(4).unwrap();
    assert_eq!(d.path, "a.txt");
    assert_eq!(d.num_tokens, 2);
    assert!(idx.get(9).is_none());
}
