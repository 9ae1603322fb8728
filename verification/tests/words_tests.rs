use jigarpich::words::{catalog_from_records, load_catalog, Complexity, Word, WordLoadError};

fn headers() -> Vec<String> {
    vec![
        String::from("text"),
        String::from("complexity"),
        String::from("hint1"),
        String::from("hint2"),
        String::from("hint3"),
        String::from("hint4"),
        String::from("hint5"),
    ]
}

fn row(text: &str, complexity: &str, hints: [&str; 5]) -> Vec<String> {
    let mut out = vec![String::from(text), String::from(complexity)];
    out.extend(hints.iter().map(|h| String::from(*h)));
    out
}

fn full_rows() -> Vec<Vec<String>> {
    vec![
        row("apple", "1", ["fruit", "red", "tree", "juice", "pie"]),
        row("bridge", "2", ["river", "cross", "span", "steel", "arch"]),
        row("quasar", "3", ["space", "light", "star", "far", "bright"]),
    ]
}

#[test]
fn catalog_partitions_words_by_difficulty() {
    let catalog = catalog_from_records(headers(), full_rows()).expect("catalog loads");
    assert_eq!(catalog.easy.len(), 1);
    assert_eq!(catalog.medium.len(), 1);
    assert_eq!(catalog.hard.len(), 1);
    assert_eq!(catalog.easy[0].text, "apple");
    assert!(matches!(catalog.easy[0].complexity, Complexity::Easy));
    assert_eq!(
        catalog.easy[0].taboo_words,
        vec!["fruit", "red", "tree", "juice", "pie"]
    );
    assert!(catalog.easy[0].selected_taboo_words.is_empty());
    assert_eq!(catalog.hard[0].text, "quasar");
    assert!(matches!(catalog.hard[0].complexity, Complexity::Hard));
}

#[test]
fn catalog_fails_without_the_named_columns() {
    let bad_headers = vec![String::from("word"), String::from("complexity")];
    let rows = vec![vec![String::from("apple"), String::from("1")]];
    assert!(matches!(
        catalog_from_records(bad_headers, rows),
        Err(WordLoadError::BadRecord)
    ));
}

#[test]
fn catalog_fails_on_an_unreadable_complexity_cell() {
    let mut rows = full_rows();
    rows[1][1] = String::from("medium");
    assert!(matches!(
        catalog_from_records(headers(), rows),
        Err(WordLoadError::BadRecord)
    ));
}

#[test]
fn catalog_fails_on_a_short_row() {
    let rows = vec![vec![String::from("apple")]];
    assert!(matches!(
        catalog_from_records(headers(), rows),
        Err(WordLoadError::BadRecord)
    ));
}

#[test]
fn catalog_fails_when_a_bucket_stays_empty() {
    let rows = vec![
        row("apple", "1", ["fruit", "red", "tree", "juice", "pie"]),
        row("bridge", "2", ["river", "cross", "span", "steel", "arch"]),
    ];
    assert!(matches!(
        catalog_from_records(headers(), rows),
        Err(WordLoadError::EmptyBucket)
    ));
}

#[test]
fn load_catalog_reads_csv_text() {
    let data = "text,complexity,h1,h2\napple,1,fruit,red\nbridge,2,river,cross\nquasar,3,space,light\n";
    let catalog = load_catalog(data).expect("csv catalog loads");
    assert_eq!(catalog.easy.len(), 1);
    assert_eq!(catalog.medium[0].text, "bridge");
    assert_eq!(catalog.hard[0].taboo_words, vec!["space", "light"]);
}

#[test]
fn load_catalog_reports_an_empty_bucket() {
    let data = "text,complexity,h1
apple,1,fruit
bridge,2,river
";
    assert!(matches!(load_catalog(data), Err(WordLoadError::EmptyBucket)));
}

#[test]
fn load_catalog_refuses_ragged_rows() {
    let data = "text,complexity,h1\napple,1\n";
    assert!(matches!(load_catalog(data), Err(WordLoadError::BadTable)));
}

#[test]
fn drawn_words_come_from_the_catalog() {
    let catalog = catalog_from_records(headers(), full_rows()).expect("catalog loads");
    for _ in 0..200 {
        let word = catalog.get_random_word();
        let source = match word.complexity {
            Complexity::Easy => &catalog.easy[0],
            Complexity::Medium => &catalog.medium[0],
            Complexity::Hard => &catalog.hard[0],
        };
        assert_eq!(word.text, source.text);
        assert_eq!(word.taboo_words, source.taboo_words);
        assert_eq!(word.selected_taboo_words.len(), 4);
        for hint in &word.selected_taboo_words {
            assert!(source.taboo_words.contains(hint));
        }
        // The four drawn hints are four different entries of the pool.
        let mut seen = word.selected_taboo_words.clone();
        seen.sort();
        seen.dedup();
        assert_eq!(seen.len(), 4);
    }
}

#[test]
fn taboo_subsets_shrink_with_the_pool() {
    let word = Word {
        text: String::from("pair"),
        complexity: Complexity::Easy,
        taboo_words: vec![String::from("two"), String::from("couple")],
        selected_taboo_words: Vec::new(),
    };
    let drawn = Word::select_taboo_words(&word);
    assert_eq!(drawn.selected_taboo_words.len(), 2);
    let mut sorted = drawn.selected_taboo_words.clone();
    sorted.sort();
    assert_eq!(sorted, vec!["couple", "two"]);
}

#[test]
fn message_string_shows_hints_only_when_asked() {
    let word = Word {
        text: String::from("apple"),
        complexity: Complexity::Easy,
        taboo_words: vec![String::from("fruit"), String::from("red")],
        selected_taboo_words: vec![String::from("fruit"), String::from("red")],
    };
    assert_eq!(word.get_message_string(false), "apple");
    assert_eq!(
        word.get_message_string(true),
        "apple\n\n\u{274C} fruit\n\u{274C} red"
    );
}

#[test]
fn draw_matches_the_weighted_split() {
    let catalog = catalog_from_records(headers(), full_rows()).expect("catalog loads");
    let trials = 100_000;
    let mut counts = [0u32; 3];
    for _ in 0..trials {
        match catalog.get_random_word().complexity {
            Complexity::Easy => counts[0] += 1,
            Complexity::Medium => counts[1] += 1,
            Complexity::Hard => counts[2] += 1,
        }
    }
    let share = |n: u32| n as f64 / trials as f64;
    assert!((share(counts[0]) - 0.7).abs() < 0.02, "easy share {}", share(counts[0]));
    assert!((share(counts[1]) - 0.2).abs() < 0.02, "medium share {}", share(counts[1]));
    assert!((share(counts[2]) - 0.1).abs() < 0.02, "hard share {}", share(counts[2]));
}
