use gazetteer::fuzzy::DeletionIndex;
use gazetteer::loader::{abbreviate, ngrams_of, parse_line};
use gazetteer::search::{ResultSelection, SearchTree};
use gazetteer::search_error;
use gazetteer::text::tokenize;
use gazetteer::tree::StringTree;

fn words(s: &str) -> Vec<String> {
    s.split(' ').map(|w| w.to_string()).collect()
}

#[test]
fn test_sample() {
    let mut tree = StringTree::root();
    for (s, uri) in vec![("An example phrase", "uri:phrase"), ("An example", "uri:example")] {
        let s = String::from(s);
        let uri = String::from(uri);
        let v: Vec<String> = words(&s);
        tree.insert(&v, uri);
    }
    println!("{:?}", tree.traverse(&words("An xyz")));
    println!("{:?}", tree.traverse(&words("An example")));
    println!("{:?}", tree.traverse(&words("An example phrase")));
}

#[test]
fn insert_lookup_roundtrip() {
    let mut tree = StringTree::root();
    assert!(tree.insert(&words("Lyronna dolichobellum"), "uri:1".to_string()));
    let found = tree.traverse(&words("Lyronna dolichobellum")).unwrap();
    assert_eq!(found.len(), 1);
    assert_eq!(found[0].0, "uri:1");
    assert_eq!(found[0].1, words("Lyronna dolichobellum"));
    // case-insensitively, and the fuzzy layer aside: distance zero matches
    let st = SearchTree { tree, index: DeletionIndex::new(0) };
    let results = st.search("lyronna DOLICHOBELLUM", None, None);
    assert_eq!(results.len(), 1);
    assert_eq!(results[0].matches[0].edit_distance, 0);
    assert_eq!(results[0].matches[0].uri, "uri:1");
}

#[test]
fn idempotent_insert_first_write_wins() {
    let mut tree = StringTree::root();
    assert!(tree.insert(&words("An example"), "uri:first".to_string()));
    assert!(!tree.insert(&words("An example"), "uri:second".to_string()));
    let found = tree.traverse(&words("An example")).unwrap();
    assert_eq!(found.len(), 1);
    assert_eq!(found[0].0, "uri:first");
}

#[test]
fn join_idempotent() {
    let mut a = StringTree::root();
    a.insert(&words("alpha beta"), "uri:a".to_string());
    let mut b = StringTree::root();
    b.insert(&words("alpha beta"), "uri:b".to_string());
    b.insert(&words("gamma"), "uri:g".to_string());
    a.join(&b);
    let once_ab = a.traverse(&words("alpha beta")).unwrap();
    let once_g = a.traverse(&words("gamma")).unwrap();
    a.join(&b);
    let twice_ab = a.traverse(&words("alpha beta")).unwrap();
    let twice_g = a.traverse(&words("gamma")).unwrap();
    assert_eq!(once_ab, twice_ab);
    assert_eq!(once_g, twice_g);
    // first trie wins on the conflicting terminal
    assert_eq!(once_ab[0].0, "uri:a");
    assert_eq!(once_g[0].0, "uri:g");
}

#[test]
fn fuzzy_recall_one_deletion() {
    let idx = DeletionIndex::build(&vec!["lyronna".to_string()], 1);
    // one character deleted from the indexed token: found at distance 1
    let cands = idx.lookup(&"lyrona".to_string());
    assert!(cands.iter().any(|c| c.0 == "lyronna" && c.1 == 1));
    // two characters deleted: not found under a bound of one
    let cands2 = idx.lookup(&"lyrna".to_string());
    assert!(!cands2.iter().any(|c| c.0 == "lyronna"));
}

#[test]
fn result_selection_semantics() {
    let mut tree = StringTree::root();
    tree.insert(&words("Example"), "uri:short".to_string());
    tree.insert(&words("Example phrase"), "uri:long".to_string());
    let st = SearchTree { tree, index: DeletionIndex::new(0) };

    // matches are ordered by (edit distance, identifier): "uri:long" first
    let all = st.search("Example phrase extra", Some(5), Some(ResultSelection::All));
    assert_eq!(all.len(), 1);
    assert_eq!(all[0].matches.len(), 2);
    assert_eq!(all[0].matches[0].tokens.len(), 2);
    assert_eq!(all[0].matches[0].uri, "uri:long");
    assert_eq!(all[0].matches[1].tokens.len(), 1);
    assert_eq!(all[0].matches[1].uri, "uri:short");

    let longest = st.search("Example phrase extra", Some(5), Some(ResultSelection::Longest));
    assert_eq!(longest.len(), 1);
    assert_eq!(longest[0].matches.len(), 1);
    assert_eq!(longest[0].matches[0].tokens.len(), 2);
    assert_eq!(longest[0].matches[0].uri, "uri:long");

    let last = st.search("Example phrase extra", Some(5), Some(ResultSelection::Last));
    assert_eq!(last.len(), 1);
    assert_eq!(last[0].matches.len(), 1);
    assert_eq!(last[0].matches[0].tokens.len(), 2);
    assert_eq!(last[0].matches[0].uri, "uri:long");
}

#[test]
fn offsets_reported_against_source() {
    let mut tree = StringTree::root();
    tree.insert(&words("example phrase"), "uri:p".to_string());
    let st = SearchTree { tree, index: DeletionIndex::new(0) };
    let results = st.search("An example phrase here", None, None);
    assert_eq!(results.len(), 1);
    assert_eq!(results[0].start_offset, 3);
    assert_eq!(results[0].end_offset, 18);
    assert_eq!(results[0].span_text, "example phrase");
}

#[test]
fn no_match_is_not_an_error() {
    let mut tree = StringTree::root();
    tree.insert(&words("rare phrase"), "uri:r".to_string());
    let st = SearchTree { tree, index: DeletionIndex::new(0) };
    let results = st.search("nothing to see here", None, None);
    assert_eq!(results.len(), 0);
}

#[test]
fn corpus_scenario() {
    let mut st = SearchTree::new(0);
    let lines = vec!["lyronna dolichobellum\turi:1".to_string()];
    let (inserted, skipped) = st.load(&lines, false, false, None);
    assert_eq!(inserted, 1);
    assert_eq!(skipped, 0);
    let results = st.search("Lyronna dolichobellum abc abc", Some(5), None);
    assert_eq!(results.len(), 1);
    assert_eq!(results[0].matches.len(), 1);
    assert_eq!(results[0].matches[0].uri, "uri:1");
    assert_eq!(
        results[0].matches[0].tokens,
        vec!["Lyronna".to_string(), "dolichobellum".to_string()]
    );
    assert_eq!(results[0].start_offset, 0);
    assert_eq!(results[0].end_offset, 22);
}

#[test]
fn tokenizer_splits_and_offsets() {
    let toks = tokenize("a,b (c) d.");
    let texts: Vec<&str> = toks.iter().map(|t| t.text.as_str()).collect();
    assert_eq!(texts, vec!["a", "b", "c", "d"]);
    assert_eq!(toks[0].start, 0);
    assert_eq!(toks[0].end, 1);
    assert_eq!(toks[2].start, 5);
    assert_eq!(toks[2].end, 6);
    assert_eq!(toks[3].start, 8);
    assert_eq!(toks[3].end, 9);
    assert_eq!(tokenize("  ,, ").len(), 0);
}

#[test]
fn loader_helpers() {
    assert_eq!(
        parse_line("genus species\turi:42"),
        Some(("genus species".to_string(), "uri:42".to_string()))
    );
    assert_eq!(parse_line("no tab here"), None);
    assert_eq!(parse_line("\tleading"), None);
    assert_eq!(parse_line("trailing\t"), None);

    let grams = ngrams_of(&words("a b c"));
    let gv: Vec<Vec<String>> = grams;
    assert!(gv.contains(&words("a b")));
    assert!(gv.contains(&words("b c")));
    assert!(gv.contains(&words("a b c")));
    assert_eq!(gv.len(), 3);

    let ab = abbreviate(&words("Genus species")).unwrap();
    assert_eq!(ab, words("G. species"));
    assert_eq!(abbreviate(&words("single")), None);
}

#[test]
fn ngram_and_abbreviation_loading() {
    let mut st = SearchTree::new(0);
    let lines = vec!["genus species epithet\turi:9".to_string()];
    st.load(&lines, true, true, None);
    // an inner n-gram of the phrase is found
    assert_eq!(st.search("species epithet", None, None).len(), 1);
    // the abbreviated variant stands in the trie under the same identifier
    let found = st.tree.traverse(&words("g. species epithet")).unwrap();
    assert_eq!(found[found.len() - 1].0, "uri:9");
    assert_eq!(found[found.len() - 1].1, words("g. species epithet"));
}

#[test]
fn stoplist_filters_phrases() {
    let mut st = SearchTree::new(0);
    let lines = vec!["the thing\turi:t".to_string(), "clean phrase\turi:c".to_string()];
    let stop = vec!["the".to_string()];
    let (inserted, _) = st.load(&lines, false, false, Some(&stop));
    assert_eq!(inserted, 1);
    assert_eq!(st.search("the thing", None, None).len(), 0);
    assert_eq!(st.search("clean phrase", None, None).len(), 1);
}

#[test]
fn search_error_report() {
    let (status, reason) = search_error();
    assert_eq!(status, "error");
    assert_eq!(reason, "An error occurred during tree search.");
}

#[test]
fn fuzzy_candidates_through_engine() {
    let mut st = SearchTree::new(1);
    let lines = vec!["lyronna dolichobellum\turi:1".to_string()];
    st.load(&lines, false, false, None);
    let cands = st.fuzzy_candidates(&"lyrona".to_string());
    assert!(cands.iter().any(|c| c.0 == "lyronna" && c.1 == 1));
    // the exact token comes back at distance zero
    let exact = st.fuzzy_candidates(&"lyronna".to_string());
    assert!(exact.iter().any(|c| c.0 == "lyronna" && c.1 == 0));
}

#[test]
fn fuzzy_search_recovers_mutated_token() {
    let mut st = SearchTree::new(1);
    let lines = vec!["lyronna dolichobellum\turi:1".to_string()];
    st.load(&lines, false, false, None);
    // one character of the first token deleted: recovered at edit distance 1
    let results = st.search("Lyrona dolichobellum rest", Some(5), None);
    assert_eq!(results.len(), 1);
    assert_eq!(results[0].matches[0].uri, "uri:1");
    assert_eq!(results[0].matches[0].edit_distance, 1);
    assert_eq!(results[0].start_offset, 0);
    // with the bound at zero the mutation is not recovered
    let mut st0 = SearchTree::new(0);
    st0.load(&lines, false, false, None);
    assert_eq!(st0.search("Lyrona dolichobellum rest", Some(5), None).len(), 0);
}

#[test]
fn case_variant_queries_agree() {
    let mut tree = StringTree::root();
    assert!(tree.insert(&words("An Example"), "uri:x".to_string()));
    // a second insert of the per-token lower-cased phrase hits the same path
    assert!(!tree.insert(&words("an example"), "uri:y".to_string()));
    let a = tree.traverse(&words("AN EXAMPLE")).unwrap();
    let b = tree.traverse(&words("an example")).unwrap();
    assert_eq!(a.len(), 1);
    assert_eq!(b.len(), 1);
    assert_eq!(a[0].0, "uri:x");
    assert_eq!(b[0].0, "uri:x");
    // each query's matched tokens echo its own casing
    assert_eq!(a[0].1, words("AN EXAMPLE"));
    assert_eq!(b[0].1, words("an example"));
}

#[test]
fn root_node_shape() {
    let t = StringTree::root();
    assert_eq!(t.value, "<ROOT>");
    assert_eq!(t.uri, "");
    assert!(t.children.is_empty());
    assert!(t.traverse(&words("anything")).is_err());
}
