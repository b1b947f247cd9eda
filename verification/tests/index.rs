use tfidf_index::document::Document;
use tfidf_index::error::ModelError;
use tfidf_index::frequency::{InverseFrequency, Score, TermFrequency};
use tfidf_index::index::Index;
use tfidf_index::score::ScoreDoc;
use tfidf_index::table::Table;

fn files(dir: &str) -> Vec<(String, Option<String>)> {
    let texts = [
        (
            "computers.txt",
            "A computer is a machine.\nThe computer computes; a computer never tires.",
        ),
        ("gardens.txt", "Roses are red,\nviolets are blue."),
        ("networks.txt", "A network links one computer to another computer"),
        ("empty.txt", ""),
    ];
    texts.iter().map(|(name, text)| (format!("{}/{}", dir, name), Some(text.to_string()))).collect()
}

fn fruit() -> Index {
    let files = vec![
        (String::from("A"), Some(String::from("apple apple apple"))),
        (String::from("B"), Some(String::from("apple banana"))),
    ];
    Index::new(&files, "fruit").unwrap()
}

fn names(ranked: &Vec<ScoreDoc<&Document>>) -> Vec<String> {
    ranked.iter().map(|pair| pair.value.name.clone()).collect()
}

fn value(score: &Score) -> f64 {
    let tf = if score.tf.total == 0 { 0.0 } else { score.tf.count as f64 / score.tf.total as f64 };
    let (numerator, denominator) = score.idf.fraction();
    tf * (numerator as f64 / denominator as f64).log2()
}

#[test]
fn test_create_index() {
    let index = Index::new(&files("./docs"), "test-index");
    assert!(index.is_ok(), "Index::new returned an error: {:?}", index.err());
}

#[test]
fn test_create_rank() {
    let index = Index::new(&files("./docs"), "test-index").unwrap();
    let ranked_docs = index.rank(String::from("computer"));
    for doc in ranked_docs.into_iter() {
        println!("Doc name {}", doc.value.name);
    }
}

#[test]
fn an_index_holds_a_document_for_each_file() {
    let files = files("./docs");
    let index = Index::new(&files, "test-index").unwrap();
    assert_eq!(index.index_name(), "test-index");
    assert_eq!(index.len(), 4);
    for at in 0..files.len() {
        assert_eq!(index.path(at), &files[at].0);
        assert_eq!(index.position(&files[at].0), Some(at));
    }
    assert_eq!(index.position("./docs/absent.txt"), None);
    assert_eq!(index.document(0).name, "computers.txt");
    assert_eq!(index.document(0).tf_total, 12);
    assert_eq!(index.document(1).tf_total, 6);
    assert_eq!(index.document(2).tf_total, 8);
    assert_eq!(index.document(3).tf_total, 0);
}

#[test]
fn an_index_of_nothing_is_empty() {
    let index = Index::new(&Vec::new(), "none").unwrap();
    assert_eq!(index.len(), 0);
    let idf = index.compute_idf(&String::from("a"));
    assert_eq!(idf, InverseFrequency { documents: 0, containing: 0 });
    assert!(index.rank(String::from("a")).is_empty());
}

#[test]
fn indexes_differ_in_their_identifiers() {
    let one = Index::new(&Vec::new(), "same").unwrap();
    let other = Index::new(&Vec::new(), "same").unwrap();
    assert_ne!(one.index_id(), other.index_id());
}

#[test]
fn a_later_file_takes_the_place_of_an_earlier_one_with_its_path() {
    let files = vec![
        (String::from("a.txt"), Some(String::from("old old old"))),
        (String::from("b.txt"), Some(String::from("other"))),
        (String::from("a.txt"), Some(String::from("new"))),
    ];
    let index = Index::new(&files, "twice").unwrap();
    assert_eq!(index.len(), 2);
    assert_eq!(index.path(0), "a.txt");
    assert_eq!(index.path(1), "b.txt");
    assert_eq!(index.document(0).tf_total, 1);
    assert_eq!(index.document(0).tf.get("new"), Some(&1));
    assert_eq!(index.document(0).tf.get("old"), None);
    assert_eq!(index.compute_idf(&String::from("old")).containing, 0);
    assert_eq!(index.compute_idf(&String::from("new")).containing, 1);
}

#[test]
fn one_document_that_cannot_be_built_fails_the_index() {
    let files = vec![
        (String::from("docs/a.txt"), Some(String::from("fine"))),
        (String::from("docs/.."), None),
        (String::from("docs/b.txt"), Some(String::from("fine"))),
    ];
    match Index::new(&files, "broken") {
        Err(ModelError::MalformedPath(path)) => assert_eq!(path, "docs/.."),
        Err(other) => panic!("unexpected error {:?}", other),
        Ok(_) => panic!("no index is built from a path without a name"),
    }
}

#[test]
fn a_file_that_is_missing_is_an_empty_document() {
    let files = vec![
        (String::from("docs/a.txt"), Some(String::from("apple"))),
        (String::from("docs/gone.txt"), None),
    ];
    let index = Index::new(&files, "gaps").unwrap();
    assert_eq!(index.len(), 2);
    assert_eq!(index.document(1).name, "gone.txt");
    assert_eq!(index.document(1).tf_total, 0);
    let ranked = index.rank(String::from("apple"));
    assert_eq!(names(&ranked), vec!["a.txt", "gone.txt"]);
    assert_eq!(ranked[1].priority.tf, TermFrequency { count: 0, total: 0 });
    assert_eq!(value(&ranked[1].priority), 0.0);
}

#[test]
fn document_frequency_counts_documents_not_tokens() {
    let index = Index::new(&files("./docs"), "test-index").unwrap();
    let df = |token: &str| index.compute_idf(&String::from(token)).containing;
    assert_eq!(df("computer"), 2);
    assert_eq!(df("A"), 2);
    assert_eq!(df("a"), 1);
    assert_eq!(df("are"), 1);
    assert_eq!(df("network"), 1);
    assert_eq!(df("absent"), 0);
    assert_eq!(df(""), 0);
}

#[test]
fn document_frequency_is_at_most_the_number_of_documents() {
    let index = Index::new(&files("./docs"), "test-index").unwrap();
    for token in ["computer", "A", "a", "are", "network", "absent"] {
        let idf = index.compute_idf(&String::from(token));
        assert_eq!(idf.documents, 4);
        assert!(idf.containing <= idf.documents);
        let (numerator, denominator) = idf.fraction();
        assert!(numerator >= denominator);
        assert!((numerator as f64 / denominator as f64).log2() >= 0.0);
    }
}

#[test]
fn inverse_document_frequency_is_the_smoothed_fraction() {
    let index = Index::new(&files("./docs"), "test-index").unwrap();
    let idf = index.compute_idf(&String::from("computer"));
    assert_eq!(idf, InverseFrequency { documents: 4, containing: 2 });
    assert_eq!(idf.fraction(), (5, 3));
    assert!(!idf.zero());
    let idf = index.compute_idf(&String::from("absent"));
    assert_eq!(idf, InverseFrequency { documents: 4, containing: 0 });
    assert_eq!(idf.fraction(), (5, 1));
    assert_eq!((5.0f64 / 1.0).log2(), ((1 + 4) as f64).log2());
}

#[test]
fn inverse_document_frequency_falls_as_document_frequency_rises() {
    let mut last = f64::INFINITY;
    for containing in 0..=7usize {
        let idf = InverseFrequency { documents: 7, containing };
        let (numerator, denominator) = idf.fraction();
        let value = (numerator as f64 / denominator as f64).log2();
        assert!(value < last);
        assert!(value >= 0.0);
        last = value;
    }
    assert_eq!(last, 0.0);
    assert!(InverseFrequency { documents: 7, containing: 7 }.zero());
}

#[test]
fn a_token_in_every_document_has_no_weight() {
    let index = fruit();
    let idf = index.compute_idf(&String::from("apple"));
    assert_eq!(idf, InverseFrequency { documents: 2, containing: 2 });
    assert_eq!(idf.fraction(), (3, 3));
    assert!(idf.zero());
}

#[test]
fn two_documents_of_fruit() {
    let index = fruit();
    assert_eq!(index.compute_idf(&String::from("apple")).containing, 2);
    assert_eq!(index.compute_idf(&String::from("banana")).containing, 1);

    let by_apple = index.rank(String::from("apple"));
    assert_eq!(names(&by_apple), vec!["A", "B"]);
    assert_eq!(by_apple[0].priority.tf, TermFrequency { count: 3, total: 3 });
    assert_eq!(by_apple[1].priority.tf, TermFrequency { count: 1, total: 2 });
    assert!(!by_apple[0].priority.tf.zero());
    assert!(!by_apple[1].priority.tf.zero());
    assert_eq!(by_apple[0].priority.idf, InverseFrequency { documents: 2, containing: 2 });

    let by_banana = index.rank(String::from("banana"));
    assert_eq!(names(&by_banana), vec!["B", "A"]);
    assert_eq!(
        by_banana[0].priority,
        Score {
            tf: TermFrequency { count: 1, total: 2 },
            idf: InverseFrequency { documents: 2, containing: 1 },
        }
    );
    assert!(!by_banana[0].priority.zero());
    assert!(by_banana[1].priority.zero());
    assert!(value(&by_banana[0].priority) > 0.0);
    assert_eq!(value(&by_banana[0].priority), 0.5 * (3.0f64 / 2.0).log2());
    assert_eq!(value(&by_banana[1].priority), 0.0);
}

#[test]
fn a_ranking_names_every_document_once_the_best_first() {
    let index = Index::new(&files("./docs"), "test-index").unwrap();
    for token in ["computer", "A", "are", "absent", "another"] {
        let ranked = index.rank(String::from(token));
        assert_eq!(ranked.len(), index.len());
        let mut seen: Vec<uuid::Uuid> = ranked.iter().map(|pair| pair.value.id).collect();
        seen.sort();
        seen.dedup();
        assert_eq!(seen.len(), index.len());
        for at in 0..index.len() {
            assert!(seen.contains(&index.document(at).id));
        }
        for pair in ranked.iter() {
            assert_eq!(pair.priority.tf, pair.value.compute_tf(&String::from(token)));
            assert_eq!(pair.priority.idf, index.compute_idf(&String::from(token)));
        }
        for k in 1..ranked.len() {
            assert!(!ranked[k - 1].priority.tf.less_than(&ranked[k].priority.tf));
            assert!(value(&ranked[k - 1].priority) >= value(&ranked[k].priority));
        }
    }
}

#[test]
fn the_ranking_for_a_token() {
    let index = Index::new(&files("./docs"), "test-index").unwrap();
    let ranked = index.rank(String::from("computer"));
    assert_eq!(names(&ranked), vec!["computers.txt", "networks.txt", "gardens.txt", "empty.txt"]);
    assert_eq!(ranked[0].priority.tf, TermFrequency { count: 3, total: 12 });
    assert_eq!(ranked[1].priority.tf, TermFrequency { count: 2, total: 8 });
    assert_eq!(ranked[2].priority.tf, TermFrequency { count: 0, total: 6 });
    assert_eq!(ranked[3].priority.tf, TermFrequency { count: 0, total: 0 });
    let ranked = index.rank(String::from("A"));
    assert_eq!(names(&ranked), vec!["networks.txt", "computers.txt", "gardens.txt", "empty.txt"]);
}

#[test]
fn documents_that_score_alike_keep_their_order() {
    let index = Index::new(&files("./docs"), "test-index").unwrap();
    let ranked = index.rank(String::from("absent"));
    assert_eq!(names(&ranked), vec!["computers.txt", "gardens.txt", "networks.txt", "empty.txt"]);
    for pair in ranked.iter() {
        assert!(pair.priority.zero());
    }
}

#[test]
fn ranking_twice_gives_the_same() {
    let index = Index::new(&files("./docs"), "test-index").unwrap();
    for token in ["computer", "are", "absent"] {
        let once = index.rank(String::from(token));
        let again = index.rank(String::from(token));
        assert_eq!(once.len(), again.len());
        for k in 0..once.len() {
            assert_eq!(once[k].value.id, again[k].value.id);
            assert_eq!(once[k].priority, again[k].priority);
        }
    }
}

#[test]
fn the_first_path_without_a_name_is_the_one_reported() {
    let files = vec![
        (String::from("docs/a.txt"), Some(String::from("fine"))),
        (String::from("/"), Some(String::from("first"))),
        (String::from("docs/.."), None),
        (String::from(""), None),
    ];
    match Index::new(&files, "broken") {
        Err(ModelError::MalformedPath(path)) => assert_eq!(path, "/"),
        Err(other) => panic!("unexpected error {:?}", other),
        Ok(_) => panic!("no index is built from a path without a name"),
    }
}

#[test]
fn an_index_is_built_where_every_path_has_a_name() {
    let files = vec![
        (String::from("a"), None),
        (String::from("./b/"), Some(String::from("one two"))),
        (String::from("c/d/e.txt"), Some(String::from("\u{fffd}\u{0}"))),
        (String::from("../f"), Some(String::from("two"))),
    ];
    let index = Index::new(&files, "named").unwrap();
    assert_eq!(index.index_name(), "named");
    assert_eq!(index.len(), 4);
    let names: Vec<&str> = (0..4).map(|at| index.document(at).name.as_str()).collect();
    assert_eq!(names, vec!["a", "b", "e.txt", "f"]);
    assert_eq!(index.compute_idf(&String::from("two")).containing, 2);
}

#[test]
fn put_takes_a_document_in() {
    let mut documents: Table<Document> = Table::new();
    let first = Document::new("x/a.txt", Some("one")).unwrap();
    let second = Document::new("x/b.txt", Some("two two")).unwrap();
    let third = Document::new("x/a.txt", Some("three three three")).unwrap();
    assert!(Index::put(&mut documents, String::from("x/a.txt"), Ok(first)).is_ok());
    assert!(Index::put(&mut documents, String::from("x/b.txt"), Ok(second)).is_ok());
    assert_eq!(documents.len(), 2);
    assert_eq!(documents.value_at(0).tf_total, 1);
    assert!(Index::put(&mut documents, String::from("x/a.txt"), Ok(third)).is_ok());
    assert_eq!(documents.len(), 2);
    assert_eq!(documents.key_at(0), "x/a.txt");
    assert_eq!(documents.key_at(1), "x/b.txt");
    assert_eq!(documents.value_at(0).tf_total, 3);
    assert_eq!(documents.value_at(1).tf_total, 2);
}

#[test]
fn put_hands_a_failure_back_and_leaves_the_table() {
    let mut documents: Table<Document> = Table::new();
    let first = Document::new("x/a.txt", Some("one")).unwrap();
    assert!(Index::put(&mut documents, String::from("x/a.txt"), Ok(first)).is_ok());
    let failed = Document::new("x/..", Some("two"));
    match Index::put(&mut documents, String::from("x/.."), failed) {
        Err(ModelError::MalformedPath(path)) => assert_eq!(path, "x/.."),
        _ => panic!("the failure is handed back"),
    }
    assert_eq!(documents.len(), 1);
    assert_eq!(documents.key_at(0), "x/a.txt");
    assert_eq!(documents.position("x/.."), None);
}
