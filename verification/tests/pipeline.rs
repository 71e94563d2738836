use search_posts::codec::{encode_entries, DesCollect};
use search_posts::map::PhraseMap;
use search_posts::rank::{build_table, report_lines, PHRASE_LIST_CAP};
use search_posts::reduce::reduce;
use search_posts::tokenize::phrases_in_text;
use search_posts::value::{ProcFile, Value};

fn phrase(words: &[&str]) -> Vec<String> {
    words.iter().map(|w| w.to_string()).collect()
}

fn text_value(s: &str) -> Value {
    Value::Text(s.to_string())
}

/// `{"users":[{"posts":[post]}]}`
fn doc_with_post(post: Value) -> Value {
    Value::Mapping(vec![(
        "users".to_string(),
        Value::Sequence(vec![Value::Mapping(vec![(
            "posts".to_string(),
            Value::Sequence(vec![post]),
        )])]),
    )])
}

fn doc_with_text(key: &str, text: &str) -> Value {
    doc_with_post(Value::Mapping(vec![(key.to_string(), text_value(text))]))
}

#[test]
fn tokenizer_windows_of_two() {
    let phrases = phrases_in_text("a b c d", 2);
    assert_eq!(
        phrases,
        vec![phrase(&["a", "b"]), phrase(&["b", "c"]), phrase(&["c", "d"])]
    );
}

#[test]
fn tokenizer_window_spans_whole_sentence() {
    let phrases = phrases_in_text("a b c d", 4);
    assert_eq!(phrases, vec![phrase(&["a", "b", "c", "d"])]);
}

#[test]
fn tokenizer_short_sentence_yields_nothing() {
    assert!(phrases_in_text("a b c d", 5).is_empty());
    assert!(phrases_in_text("", 1).is_empty());
}

#[test]
fn tokenizer_windows_never_cross_sentences() {
    // Two one-word sentences: no window of two exists even though the
    // concatenated text has two words.
    assert!(phrases_in_text("One. Two.", 2).is_empty());
    // Two two-word sentences: one window per sentence, none across.
    let phrases = phrases_in_text("A b. C d.", 2);
    assert_eq!(phrases, vec![phrase(&["A", "b"]), phrase(&["C", "d"])]);
}

#[test]
fn tokenizer_word_segmentation_strips_punctuation() {
    let phrases = phrases_in_text("the cat, the dog", 2);
    assert_eq!(
        phrases,
        vec![
            phrase(&["the", "cat"]),
            phrase(&["cat", "the"]),
            phrase(&["the", "dog"])
        ]
    );
}

#[test]
fn map_counts_accumulate() {
    let mut m = PhraseMap::new(2);
    let p = phrase(&["a", "b"]);
    let q = phrase(&["c", "d"]);
    m.add(&p, 1);
    m.add(&p, 2);
    m.add_owned(q.clone(), 5);
    assert_eq!(m.get(&p), 3);
    assert_eq!(m.get(&q), 5);
    assert_eq!(m.get(&phrase(&["x", "y"])), 0);
}

#[test]
fn map_counts_saturate_at_max() {
    let mut m = PhraseMap::new(1);
    let p = phrase(&["w"]);
    m.add(&p, u32::MAX - 1);
    m.add(&p, 5);
    assert_eq!(m.get(&p), u32::MAX);
}

#[test]
fn map_merge_adds_counts() {
    let mut a = PhraseMap::new(1);
    let mut b = PhraseMap::new(1);
    a.add(&phrase(&["x"]), 2);
    a.add(&phrase(&["y"]), 1);
    b.add(&phrase(&["x"]), 3);
    b.add(&phrase(&["z"]), 7);
    a.merge(b);
    assert_eq!(a.get(&phrase(&["x"])), 5);
    assert_eq!(a.get(&phrase(&["y"])), 1);
    assert_eq!(a.get(&phrase(&["z"])), 7);
}

#[test]
fn map_merge_is_commutative() {
    // Fold the same two event groups in both orders.
    let build = |events: &[(&[&str], u32)]| {
        let mut m = PhraseMap::new(2);
        for (words, delta) in events {
            m.add(&phrase(words), *delta);
        }
        m
    };
    let g1: &[(&[&str], u32)] = &[(&["a", "b"], 1), (&["c", "d"], 2), (&["a", "b"], 3)];
    let g2: &[(&[&str], u32)] = &[(&["c", "d"], 5), (&["e", "f"], 1)];
    let mut left = build(g1);
    left.merge(build(g2));
    let mut right = build(g2);
    right.merge(build(g1));
    for words in [&["a", "b"], &["c", "d"], &["e", "f"]] {
        assert_eq!(left.get(&phrase(words)), right.get(&phrase(words)));
    }
    // Both orders agree with folding all events at once.
    let mut whole = build(g1);
    for (words, delta) in g2 {
        whole.add(&phrase(words), *delta);
    }
    for words in [&["a", "b"], &["c", "d"], &["e", "f"]] {
        assert_eq!(left.get(&phrase(words)), whole.get(&phrase(words)));
    }
}

#[test]
fn map_exceeds_threshold() {
    let mut m = PhraseMap::new(1);
    m.add(&phrase(&["a"]), 1);
    m.add(&phrase(&["b"]), 1);
    m.add(&phrase(&["c"]), 1);
    assert!(m.exceeds(2));
    assert!(!m.exceeds(3));
    assert!(!m.exceeds(100));
}

#[test]
fn codec_round_trip_restores_counts() {
    let mut m = PhraseMap::new(2);
    m.add(&phrase(&["the", "cat"]), 2);
    m.add(&phrase(&["héllo", "wörld"]), 7);
    m.add(&phrase(&["", "empty"]), 1);
    let entries = m.into_entries();
    let bytes = encode_entries(&entries, 2);
    let mut collector = DesCollect(PhraseMap::new(2));
    assert!(collector.merge_encoded(&bytes));
    let restored = collector.0;
    assert_eq!(restored.get(&phrase(&["the", "cat"])), 2);
    assert_eq!(restored.get(&phrase(&["héllo", "wörld"])), 7);
    assert_eq!(restored.get(&phrase(&["", "empty"])), 1);
    assert_eq!(restored.get(&phrase(&["the", "dog"])), 0);
}

#[test]
fn codec_merge_adds_to_existing_counts() {
    let mut m = PhraseMap::new(1);
    m.add(&phrase(&["x"]), 4);
    let entries = m.into_entries();
    let bytes = encode_entries(&entries, 1);
    let mut base = PhraseMap::new(1);
    base.add(&phrase(&["x"]), 10);
    base.add(&phrase(&["y"]), 1);
    let mut collector = DesCollect(base);
    assert!(collector.merge_encoded(&bytes));
    assert_eq!(collector.0.get(&phrase(&["x"])), 14);
    assert_eq!(collector.0.get(&phrase(&["y"])), 1);
}

#[test]
fn codec_rejects_truncated_bytes() {
    let mut m = PhraseMap::new(1);
    m.add(&phrase(&["x"]), 1);
    let entries = m.into_entries();
    let mut bytes = encode_entries(&entries, 1);
    bytes.pop();
    let mut collector = DesCollect(PhraseMap::new(1));
    assert!(!collector.merge_encoded(&bytes));
}

#[test]
fn codec_rejects_trailing_bytes() {
    let mut m = PhraseMap::new(1);
    m.add(&phrase(&["x"]), 1);
    let entries = m.into_entries();
    let mut bytes = encode_entries(&entries, 1);
    bytes.push(0);
    let mut collector = DesCollect(PhraseMap::new(1));
    assert!(!collector.merge_encoded(&bytes));
}

#[test]
fn codec_rejects_width_mismatch() {
    let mut m = PhraseMap::new(2);
    m.add(&phrase(&["a", "b"]), 1);
    let entries = m.into_entries();
    let bytes = encode_entries(&entries, 2);
    let mut collector = DesCollect(PhraseMap::new(1));
    assert!(!collector.merge_encoded(&bytes));
}

#[test]
fn walker_counts_recognized_text_field() {
    let doc = doc_with_text("text", "a b");
    let mut proc = ProcFile::new(PhraseMap::new(2));
    assert!(proc.process(&doc));
    let counts = proc.finish();
    assert_eq!(counts.get(&phrase(&["a", "b"])), 1);
    let entries = counts.into_entries();
    assert_eq!(entries.len(), 1);
}

#[test]
fn walker_counts_description_field() {
    let doc = doc_with_text("description", "a b");
    let mut proc = ProcFile::new(PhraseMap::new(2));
    assert!(proc.process(&doc));
    assert_eq!(proc.finish().get(&phrase(&["a", "b"])), 1);
}

#[test]
fn walker_ignores_unrecognized_key() {
    let doc = doc_with_text("title", "a b");
    let mut proc = ProcFile::new(PhraseMap::new(2));
    assert!(proc.process(&doc));
    assert_eq!(proc.finish().into_entries().len(), 0);
}

#[test]
fn walker_ignores_text_outside_posts() {
    let doc = Value::Mapping(vec![("text".to_string(), text_value("a b"))]);
    let mut proc = ProcFile::new(PhraseMap::new(2));
    assert!(proc.process(&doc));
    assert_eq!(proc.finish().into_entries().len(), 0);
}

#[test]
fn walker_recurses_within_posts() {
    // A text field nested deeper inside a post still counts.
    let doc = doc_with_post(Value::Mapping(vec![(
        "meta".to_string(),
        Value::Mapping(vec![("text".to_string(), text_value("a b"))]),
    )]));
    let mut proc = ProcFile::new(PhraseMap::new(2));
    assert!(proc.process(&doc));
    assert_eq!(proc.finish().get(&phrase(&["a", "b"])), 1);
}

#[test]
fn walker_ignores_non_string_text_value() {
    let doc = doc_with_post(Value::Mapping(vec![(
        "text".to_string(),
        Value::Sequence(vec![text_value("a b")]),
    )]));
    let mut proc = ProcFile::new(PhraseMap::new(2));
    assert!(proc.process(&doc));
    assert_eq!(proc.finish().into_entries().len(), 0);
}

#[test]
fn walker_rejects_non_object_document() {
    let doc = Value::Sequence(vec![doc_with_text("text", "a b")]);
    let mut proc = ProcFile::new(PhraseMap::new(2));
    assert!(!proc.process(&doc));
    assert_eq!(proc.finish().into_entries().len(), 0);
}

#[test]
fn value_as_str_distinguishes_text() {
    assert_eq!(text_value("hi").as_str(), Some("hi"));
    assert_eq!(Value::Ignored.as_str(), None);
    assert_eq!(Value::Sequence(vec![]).as_str(), None);
}

#[test]
fn reduce_spills_branch_over_threshold() {
    let mut a = PhraseMap::new(1);
    a.add(&phrase(&["a"]), 1);
    a.add(&phrase(&["b"]), 2);
    a.add(&phrase(&["c"]), 3);
    let mut b = PhraseMap::new(1);
    b.add(&phrase(&["a"]), 10);
    let mut spills: Vec<Vec<u8>> = Vec::new();
    // `a` holds three distinct phrases, one over the threshold of two: it
    // must be spilled and cleared before the merge.
    let merged = reduce(a, b, 2, &mut spills);
    assert_eq!(spills.len(), 1);
    assert_eq!(merged.get(&phrase(&["a"])), 10);
    assert_eq!(merged.get(&phrase(&["b"])), 0);
    // The external merge restores the spilled counts.
    let mut collector = DesCollect(merged);
    assert!(collector.merge_encoded(&spills[0]));
    let finals = collector.0;
    assert_eq!(finals.get(&phrase(&["a"])), 11);
    assert_eq!(finals.get(&phrase(&["b"])), 2);
    assert_eq!(finals.get(&phrase(&["c"])), 3);
}

#[test]
fn reduce_keeps_small_branches_in_memory() {
    let mut a = PhraseMap::new(1);
    a.add(&phrase(&["a"]), 1);
    let mut b = PhraseMap::new(1);
    b.add(&phrase(&["b"]), 2);
    let mut spills: Vec<Vec<u8>> = Vec::new();
    let merged = reduce(a, b, 1000000, &mut spills);
    assert!(spills.is_empty());
    assert_eq!(merged.get(&phrase(&["a"])), 1);
    assert_eq!(merged.get(&phrase(&["b"])), 2);
}

#[test]
fn table_orders_counts_descending() {
    let mut m = PhraseMap::new(1);
    m.add(&phrase(&["one"]), 1);
    m.add(&phrase(&["three"]), 3);
    m.add(&phrase(&["two"]), 2);
    m.add(&phrase(&["also"]), 2);
    let table = build_table(m);
    let counts: Vec<u32> = table.iter().map(|row| row.0).collect();
    assert_eq!(counts, vec![3, 2, 1]);
    assert_eq!(table[0].1, vec![phrase(&["three"])]);
    assert_eq!(table[1].1.len(), 2);
    assert_eq!(table[2].1, vec![phrase(&["one"])]);
}

#[test]
fn report_line_format() {
    let mut m = PhraseMap::new(2);
    m.add(&phrase(&["the", "cat"]), 12);
    let table = build_table(m);
    let lines = report_lines(&table, PHRASE_LIST_CAP);
    assert_eq!(lines, vec!["12\t1\tthe cat".to_string()]);
}

#[test]
fn report_caps_oversized_phrase_lists() {
    let mut m = PhraseMap::new(1);
    m.add(&phrase(&["a"]), 1);
    m.add(&phrase(&["b"]), 1);
    let table = build_table(m);
    // With a cap of two, the two-phrase list is not written out.
    let lines = report_lines(&table, 2);
    assert_eq!(lines, vec!["1\t2".to_string()]);
    // With a higher cap the bodies appear.
    let lines_full = report_lines(&table, 3);
    assert_eq!(lines_full.len(), 1);
    assert!(lines_full[0] == "1\t2\ta\tb" || lines_full[0] == "1\t2\tb\ta");
}

#[test]
fn end_to_end_two_documents() {
    let doc1 = doc_with_text("text", "the cat sat");
    let doc2 = doc_with_text("text", "the cat ran");
    let mut branch1 = ProcFile::new(PhraseMap::new(2));
    assert!(branch1.process(&doc1));
    let mut branch2 = ProcFile::new(PhraseMap::new(2));
    assert!(branch2.process(&doc2));
    let mut spills: Vec<Vec<u8>> = Vec::new();
    let merged = reduce(branch1.finish(), branch2.finish(), 1000000, &mut spills);
    assert!(spills.is_empty());
    assert_eq!(merged.get(&phrase(&["the", "cat"])), 2);
    assert_eq!(merged.get(&phrase(&["cat", "sat"])), 1);
    assert_eq!(merged.get(&phrase(&["cat", "ran"])), 1);
    let table = build_table(merged);
    let lines = report_lines(&table, PHRASE_LIST_CAP);
    assert_eq!(lines.len(), 2);
    assert_eq!(lines[0], "2\t1\tthe cat");
    assert!(lines[1] == "1\t2\tcat sat\tcat ran" || lines[1] == "1\t2\tcat ran\tcat sat");
}

#[test]
fn report_multi_digit_counts() {
    let mut m = PhraseMap::new(1);
    m.add(&phrase(&["w"]), 1203);
    let table = build_table(m);
    let lines = report_lines(&table, PHRASE_LIST_CAP);
    assert_eq!(lines, vec!["1203\t1\tw".to_string()]);
}

#[test]
fn single_word_phrases() {
    let doc = doc_with_text("text", "a b a");
    let mut proc = ProcFile::new(PhraseMap::new(1));
    assert!(proc.process(&doc));
    let counts = proc.finish();
    assert_eq!(counts.get(&phrase(&["a"])), 2);
    assert_eq!(counts.get(&phrase(&["b"])), 1);
}

#[test]
fn walker_location_applies_through_containers() {
    // The users value need not be an array: descending through `users`
    // and then `posts` by key alone reaches the post either way.
    let doc = Value::Mapping(vec![(
        "users".to_string(),
        Value::Mapping(vec![(
            "posts".to_string(),
            Value::Sequence(vec![Value::Mapping(vec![(
                "text".to_string(),
                text_value("a b"),
            )])]),
        )]),
    )]);
    let mut proc = ProcFile::new(PhraseMap::new(2));
    assert!(proc.process(&doc));
    assert_eq!(proc.finish().get(&phrase(&["a", "b"])), 1);
}

#[test]
fn scalars_never_contribute() {
    let doc = doc_with_post(Value::Mapping(vec![
        ("text".to_string(), Value::Ignored),
        ("description".to_string(), text_value("a b")),
    ]));
    let mut proc = ProcFile::new(PhraseMap::new(2));
    assert!(proc.process(&doc));
    let counts = proc.finish();
    assert_eq!(counts.get(&phrase(&["a", "b"])), 1);
    assert_eq!(counts.into_entries().len(), 1);
}
