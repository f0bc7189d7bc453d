use bm25_search::index::{build, BuildError, Document};
use bm25_search::tokenize::tokenize;

fn doc(id: &str, files: &[&str]) -> Document {
    Document {
        id: id.to_string(),
        files: files.iter().map(|f| f.to_string()).collect(),
    }
}

#[test]
fn tokenize_splits_on_slash_and_drops_empty_segments() {
    let files = vec!["x/y.txt".to_string(), "/a//b/".to_string(), "".to_string()];
    assert_eq!(tokenize(&files), vec!["x", "y.txt", "a", "b"]);
}

#[test]
fn tokenize_keeps_duplicates_and_case() {
    let files = vec!["A/a/A".to_string()];
    assert_eq!(tokenize(&files), vec!["A", "a", "A"]);
}

#[test]
fn build_empty_corpus_fails() {
    let corpus: Vec<Document> = Vec::new();
    assert!(matches!(build(&corpus), Err(BuildError::EmptyCorpus)));
}

#[test]
fn build_example_corpus_statistics() {
    let corpus = vec![doc("A", &["x/y.txt", "y/z.txt"]), doc("B", &["x/y.txt"])];
    let ix = build(&corpus).unwrap();
    assert_eq!(ix.docs.len(), 2);
    assert_eq!(ix.docs[0].id, "A");
    assert_eq!(ix.docs[0].len, 4);
    assert_eq!(ix.docs[1].id, "B");
    assert_eq!(ix.docs[1].len, 2);
    assert_eq!(ix.total_len, 6);
    let names: Vec<&str> = ix.terms.iter().map(|t| t.term.as_str()).collect();
    assert_eq!(names, vec!["x", "y.txt", "y", "z.txt"]);
    let x = &ix.terms[0];
    assert_eq!(x.postings.len(), 2);
    assert_eq!((x.postings[0].doc, x.postings[0].tf), (0, 1));
    assert_eq!((x.postings[1].doc, x.postings[1].tf), (1, 1));
    // ln((2 - 2 + 0.5) / (2 + 0.5) + 1) = ln(6 / 5)
    assert_eq!((x.idf_num, x.idf_den), (6, 5));
    let z = &ix.terms[3];
    assert_eq!(z.postings.len(), 1);
    // ln((2 - 1 + 0.5) / (1 + 0.5) + 1) = ln(6 / 3)
    assert_eq!((z.idf_num, z.idf_den), (6, 3));
}

#[test]
fn build_counts_repeated_terms() {
    let corpus = vec![doc("d", &["a/a/b", "a"])];
    let ix = build(&corpus).unwrap();
    assert_eq!(ix.docs[0].len, 4);
    assert_eq!(ix.terms[0].term, "a");
    assert_eq!(ix.terms[0].postings[0].tf, 3);
    assert_eq!(ix.terms[1].term, "b");
    assert_eq!(ix.terms[1].postings[0].tf, 1);
}

#[test]
fn build_average_length_is_mean_of_lengths() {
    let corpus = vec![doc("a", &["p/q/r"]), doc("b", &[]), doc("c", &["s"])];
    let ix = build(&corpus).unwrap();
    let lens: Vec<u64> = ix.docs.iter().map(|d| d.len).collect();
    assert_eq!(lens, vec![3, 0, 1]);
    assert_eq!(ix.total_len, 4);
    assert_eq!(ix.avg_doc_len(), (4, 3));
}

#[test]
fn built_index_passes_check_and_broken_ones_do_not() {
    let corpus = vec![doc("A", &["x/y.txt", "y/z.txt"]), doc("B", &["x/y.txt"])];
    let ix = build(&corpus).unwrap();
    assert!(ix.check());

    let mut wrong_idf = build(&corpus).unwrap();
    wrong_idf.terms[0].idf_den = 3;
    assert!(!wrong_idf.check());

    let mut dangling = build(&corpus).unwrap();
    dangling.terms[0].postings[1].doc = 7;
    assert!(!dangling.check());

    let mut wrong_total = build(&corpus).unwrap();
    wrong_total.total_len = 5;
    assert!(!wrong_total.check());

    let mut duplicate = build(&corpus).unwrap();
    duplicate.terms[1].term = "x".to_string();
    assert!(!duplicate.check());
}
