use bm25_search::index::{build, Document, Index};
use bm25_search::rank::{rank, Ranked};
use bm25_search::search::{bm25_weight, search, Plan, SearchError};

fn doc(id: &str, files: &[&str]) -> Document {
    Document {
        id: id.to_string(),
        files: files.iter().map(|f| f.to_string()).collect(),
    }
}

fn query(terms: &[&str]) -> Vec<String> {
    terms.iter().map(|t| t.to_string()).collect()
}

fn example() -> Index {
    build(&vec![doc("A", &["x/y.txt", "y/z.txt"]), doc("B", &["x/y.txt"])]).unwrap()
}

fn scores(ix: &Index, plan: &Plan) -> Vec<(usize, f64)> {
    let mut acc = vec![0.0f64; ix.docs.len()];
    for c in &plan.contributions {
        let idf = (c.idf_num as f64 / c.idf_den as f64).ln();
        acc[c.doc] += idf * c.weight_num as f64 / c.weight_den as f64;
    }
    plan.matched
        .iter()
        .map(|&d| (d, acc[d] / plan.query_len as f64))
        .collect()
}

#[test]
fn weight_matches_bm25_formula() {
    // tf = 1, dl = 4, n = 2, total = 6: 2.6 / (1 + 1.6 * (0.25 + 0.75 * 4 / 3)) = 2.6 / 3
    assert_eq!(bm25_weight(1, 4, 2, 6), (312, 360));
    // dl = 2: 2.6 / 2.2
    assert_eq!(bm25_weight(1, 2, 2, 6), (312, 264));
    let (n, d) = bm25_weight(3, 5, 4, 10);
    let k1 = 1.6f64;
    let b = 0.75f64;
    let expect = 3.0 * (k1 + 1.0) / (3.0 + k1 * (1.0 - b + b * 5.0 / (10.0 / 4.0)));
    assert!((n as f64 / d as f64 - expect).abs() < 1e-12);
}

#[test]
fn example_query_x_ranks_both_documents() {
    let ix = example();
    let plan = search(&ix, &query(&["x"])).unwrap();
    assert_eq!(plan.terms, vec![0]);
    assert_eq!(plan.matched, vec![0, 1]);
    assert_eq!(plan.contributions.len(), 2);
    assert_eq!((plan.contributions[0].idf_num, plan.contributions[0].idf_den), (6, 5));
    let s = scores(&ix, &plan);
    let idf = 1.2f64.ln();
    assert!((idf - 0.182).abs() < 1e-3);
    assert!((s[0].1 - idf * 2.6 / 3.0).abs() < 1e-12);
    assert!((s[1].1 - idf * 2.6 / 2.2).abs() < 1e-12);
    assert!(s[0].1 > 0.0 && s[1].1 > 0.0);
    let entries: Vec<Ranked> = s.iter().map(|&(doc, sc)| Ranked { doc, key: sc.to_bits() }).collect();
    let ranked = rank(&entries, None, None);
    let ids: Vec<&str> = ranked.iter().map(|r| ix.docs[r.doc].id.as_str()).collect();
    assert_eq!(ids, vec!["B", "A"]);
}

#[test]
fn absent_term_contributes_nothing() {
    let ix = example();
    let only_x = search(&ix, &query(&["x"])).unwrap();
    let with_absent = search(&ix, &query(&["x", "nope"])).unwrap();
    assert_eq!(with_absent.terms, only_x.terms);
    assert_eq!(with_absent.contributions, only_x.contributions);
    assert_eq!(with_absent.query_len, 2);
    let none = search(&ix, &query(&["nope"])).unwrap();
    assert!(none.contributions.is_empty());
    assert!(none.matched.is_empty());
}

#[test]
fn empty_query_is_an_error() {
    let ix = example();
    assert!(matches!(search(&ix, &Vec::new()), Err(SearchError::EmptyQuery)));
}

#[test]
fn repeated_query_terms_count_once() {
    let ix = example();
    let plan = search(&ix, &query(&["z.txt", "y.txt", "z.txt"])).unwrap();
    assert_eq!(plan.terms, vec![3, 1]);
    assert_eq!(plan.contributions.len(), 3);
    assert_eq!(plan.matched, vec![0, 1]);
    assert_eq!(plan.query_len, 3);
}

#[test]
fn higher_term_frequency_does_not_lower_weight() {
    let (n1, d1) = bm25_weight(1, 8, 3, 20);
    let (n2, d2) = bm25_weight(2, 8, 3, 20);
    assert!(n1 * d2 < n2 * d1);
}

#[test]
fn rank_orders_by_score_then_corpus_position() {
    let entries = vec![
        Ranked { doc: 3, key: 5 },
        Ranked { doc: 0, key: 9 },
        Ranked { doc: 2, key: 5 },
        Ranked { doc: 1, key: 1 },
    ];
    let r = rank(&entries, None, None);
    let docs: Vec<usize> = r.iter().map(|x| x.doc).collect();
    assert_eq!(docs, vec![0, 2, 3, 1]);
}

#[test]
fn rank_min_score_drops_entries_below_threshold() {
    let entries = vec![
        Ranked { doc: 0, key: 4 },
        Ranked { doc: 1, key: 5 },
        Ranked { doc: 2, key: 6 },
    ];
    let r = rank(&entries, None, Some(5));
    let docs: Vec<usize> = r.iter().map(|x| x.doc).collect();
    assert_eq!(docs, vec![2, 1]);
}

#[test]
fn rank_max_results_truncates_sorted_list() {
    let entries = vec![
        Ranked { doc: 0, key: 4 },
        Ranked { doc: 1, key: 7 },
        Ranked { doc: 2, key: 6 },
        Ranked { doc: 3, key: 8 },
    ];
    let r = rank(&entries, Some(2), None);
    let docs: Vec<usize> = r.iter().map(|x| x.doc).collect();
    assert_eq!(docs, vec![3, 1]);
    assert!(rank(&entries, Some(0), None).is_empty());
    assert_eq!(rank(&entries, Some(10), Some(7)).len(), 2);
}
