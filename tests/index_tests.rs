use textindex::document::{extract_fields, Document, Value};
use textindex::index::{add_object, clear, create, remove, search, update, Index, IndexError};
use textindex::ranking::{candidate_scores, coarse_prune, rerank, TokenEntry};
use textindex::text::{clean_words, gramify, trim};

fn s(x: &str) -> String {
    String::from(x)
}

fn doc(id: &str, title: &str) -> Document {
    Document {
        members: vec![(s("_id"), Value::Text(s(id))), (s("title"), Value::Text(s(title)))],
        payload: format!("{{\"_id\":\"{}\",\"title\":\"{}\"}}", id, title),
    }
}

fn title_index() -> Index {
    create(vec![s("title")])
}

#[test]
fn scenario_red_fox_blue_dog() {
    let mut index = title_index();
    let a = doc("a", "red fox");
    let b = doc("b", "blue dog");
    let pa = a.payload.clone();
    let pb = b.payload.clone();
    assert_eq!(add_object(&mut index, a), Ok(()));
    assert_eq!(add_object(&mut index, b), Ok(()));
    assert_eq!(search(&index, s("fox")), vec![pa.clone()]);
    let mut all = search(&index, s(""));
    all.sort();
    let mut want = vec![pa, pb];
    want.sort();
    assert_eq!(all, want);
    assert!(remove(&mut index, s("a")));
    assert_eq!(search(&index, s("fox")), Vec::<String>::new());
    assert!(!remove(&mut index, s("a")));
}

#[test]
fn whitespace_query_returns_every_document_once() {
    let mut index = title_index();
    let docs = vec![doc("a", "one"), doc("b", "two"), doc("c", "three")];
    let payloads: Vec<String> = docs.iter().map(|d| d.payload.clone()).collect();
    for d in docs {
        add_object(&mut index, d).unwrap();
    }
    assert_eq!(search(&index, s("   \t\n")), payloads);
    assert_eq!(search(&index, s("")), payloads);
}

#[test]
fn empty_index_searches_empty() {
    let index = title_index();
    assert!(search(&index, s("anything")).is_empty());
    assert!(search(&index, s("")).is_empty());
}

#[test]
fn added_document_is_found_by_its_word() {
    let mut index = title_index();
    let d = doc("x", "quick brown fox");
    let p = d.payload.clone();
    add_object(&mut index, d).unwrap();
    add_object(&mut index, doc("y", "lazy dog")).unwrap();
    assert_eq!(search(&index, s("brown")), vec![p.clone()]);
    assert_eq!(search(&index, s("  BROWN ")), vec![p]);
}

#[test]
fn removed_document_leaves_no_postings() {
    let mut index = title_index();
    add_object(&mut index, doc("a", "red fox")).unwrap();
    add_object(&mut index, doc("b", "red dog")).unwrap();
    assert!(remove(&mut index, s("a")));
    for (_, postings) in index.token_scoring.iter() {
        assert!(!postings.is_empty());
        assert!(postings.iter().all(|p| p.0 != 0));
    }
    assert!(index.token_scoring.iter().all(|e: &TokenEntry| e.0 != "fox"));
    assert_eq!(index.items.len(), 1);
    assert_eq!(search(&index, s("red")).len(), 1);
    assert!(search(&index, s("fox")).is_empty());
}

#[test]
fn update_replaces_content() {
    let mut index = title_index();
    add_object(&mut index, doc("a", "apple")).unwrap();
    let newer = doc("a", "banana");
    let p = newer.payload.clone();
    assert_eq!(update(&mut index, newer), Ok(()));
    assert!(search(&index, s("apple")).is_empty());
    assert_eq!(search(&index, s("banana")), vec![p]);
    assert_eq!(index.items.len(), 1);
    assert_eq!(index.items[0].iid, 0);
    assert_eq!(index.id_counter, 1);
}

#[test]
fn sequential_adds_get_increasing_ids() {
    let mut index = title_index();
    for (k, id) in ["a", "b", "c", "d"].iter().enumerate() {
        add_object(&mut index, doc(id, "t")).unwrap();
        assert_eq!(index.items[k].iid, k as u32);
    }
    assert_eq!(index.id_counter, 4);
    clear(&mut index);
    assert_eq!(index.id_counter, 0);
    assert!(index.items.is_empty());
    assert!(index.token_scoring.is_empty());
    assert_eq!(index.fields, vec![s("title")]);
}

#[test]
fn whole_word_outranks_ngram_overlap() {
    let mut index = title_index();
    let exact = doc("w", "fox");
    let pe = exact.payload.clone();
    add_object(&mut index, doc("g", "foxes")).unwrap();
    add_object(&mut index, exact).unwrap();
    let scores = candidate_scores(&index.token_scoring, &vec![s("fox"), s("fox")]);
    let mut sorted = scores.clone();
    sorted.sort();
    assert_eq!(sorted, vec![(0, 2), (1, 102)]);
    assert_eq!(search(&index, s("fox")), vec![pe]);
}

#[test]
fn pruning_drops_scores_below_half_of_best() {
    assert_eq!(coarse_prune(&vec![(7, 100), (9, 40)]), vec![(7, 100)]);
    assert_eq!(coarse_prune(&vec![(7, 100), (9, 50), (3, 49)]), vec![(7, 100), (9, 50)]);
    assert_eq!(coarse_prune(&vec![]), vec![]);
}

#[test]
fn rerank_orders_by_fuzzy_score_and_drops_misses() {
    let cands = vec![(1, 10), (2, 10), (3, 10), (4, 10)];
    let fuzzy = vec![Some(5), None, Some(9), Some(5)];
    assert_eq!(rerank(&cands, &fuzzy), vec![(3, 9), (1, 5), (4, 5)]);
}

#[test]
fn fuzzy_miss_drops_a_candidate() {
    let mut index = title_index();
    add_object(&mut index, doc("a", "fox")).unwrap();
    let both = doc("b", "fox zzz");
    let pb = both.payload.clone();
    add_object(&mut index, both).unwrap();
    assert_eq!(search(&index, s("fox zzz")), vec![pb]);
}

#[test]
fn missing_identifier_is_refused() {
    let mut index = title_index();
    let no_id = Document { members: vec![(s("title"), Value::Text(s("x")))], payload: s("{}") };
    assert_eq!(add_object(&mut index, no_id), Err(IndexError::MissingIdentifier));
    let bad_id = Document { members: vec![(s("_id"), Value::Other)], payload: s("{}") };
    assert_eq!(update(&mut index, bad_id), Err(IndexError::MissingIdentifier));
    assert!(index.items.is_empty());
}

#[test]
fn duplicate_identifier_is_refused() {
    let mut index = title_index();
    add_object(&mut index, doc("a", "one")).unwrap();
    assert_eq!(add_object(&mut index, doc("a", "two")), Err(IndexError::DuplicateIdentifier));
    assert_eq!(index.items.len(), 1);
    assert_eq!(index.id_counter, 1);
}

#[test]
fn unknown_identifier_is_refused() {
    let mut index = title_index();
    assert_eq!(update(&mut index, doc("zz", "x")), Err(IndexError::UnknownIdentifier));
    assert_eq!(index.id_counter, 0);
}

#[test]
fn extraction_reads_one_level() {
    let d = Document {
        members: vec![
            (s("_id"), Value::Text(s("e"))),
            (s("title"), Value::Text(s("Head"))),
            (
                s("tags"),
                Value::Array(vec![
                    Value::Text(s("t1")),
                    Value::Other,
                    Value::Array(vec![Value::Text(s("deep"))]),
                    Value::Text(s("t2")),
                ]),
            ),
            (
                s("meta"),
                Value::Object(vec![
                    (s("k1"), Value::Text(s("v1"))),
                    (s("k2"), Value::Object(vec![(s("z"), Value::Text(s("deep")))])),
                    (s("k3"), Value::Text(s("v3"))),
                ]),
            ),
            (s("count"), Value::Other),
        ],
        payload: s("{}"),
    };
    let fields = vec![s("meta"), s("title"), s("missing"), s("count"), s("tags")];
    assert_eq!(extract_fields(&d, &fields), s("v1 v3 Head t1 t2 "));
}

#[test]
fn tokenizers_and_trim() {
    assert_eq!(trim("  a b \t"), s("a b"));
    assert_eq!(trim(" \n "), s(""));
    assert_eq!(clean_words("Red  FOX\tJumps"), vec![s("red"), s("fox"), s("jumps")]);
    assert_eq!(gramify("Foxes ab"), vec![s("fox"), s("oxe"), s("xes")]);
    assert!(gramify("").is_empty());
}

#[test]
fn repeated_update_keeps_one_posting_per_pair() {
    let mut index = title_index();
    add_object(&mut index, doc("a", "red fox")).unwrap();
    add_object(&mut index, doc("b", "red dog")).unwrap();
    assert_eq!(update(&mut index, doc("a", "red fox")), Ok(()));
    assert_eq!(update(&mut index, doc("a", "red fox")), Ok(()));
    for (k, (token, postings)) in index.token_scoring.iter().enumerate() {
        assert!(!postings.is_empty());
        for (m, p) in postings.iter().enumerate() {
            assert!(!postings[m + 1..].contains(p));
        }
        assert!(index.token_scoring[k + 1..].iter().all(|e| e.0 != *token));
    }
    let red: Vec<(u32, u8)> =
        index.token_scoring.iter().find(|e| e.0 == "red").unwrap().1.clone();
    let mut red_sorted = red.clone();
    red_sorted.sort();
    assert_eq!(red_sorted, vec![(0, 1), (0, 50), (1, 1), (1, 50)]);
    assert_eq!(index.items.len(), 2);
    assert_eq!(index.id_counter, 2);
}
