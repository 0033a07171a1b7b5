use coil::error::IndexError;
use coil::index::{hash_str, Index, TermHit};
use coil::tokenizer::tokenize;

fn add_document(index: &mut Index, doc_id: usize, title: &str, body: &str) {
    for (term, tf) in tokenize(body) {
        let mut score = vec![tf as i32];
        index.index(hash_str(&term), doc_id, &mut score, title.to_string()).unwrap();
    }
}

fn weight(n: usize, hit: &TermHit) -> f64 {
    let df = hit.df as f64;
    let ratio = (n as f64 - df) / df;
    if ratio <= 0.0 {
        0.0
    } else {
        ratio.ln() * hit.tf as f64
    }
}

#[test]
fn hash_str_is_stable_and_separates_terms() {
    assert_eq!(hash_str("cat"), hash_str("cat"));
    assert_ne!(hash_str("cat"), hash_str("dog"));
}

#[test]
fn num_docs_counts_every_submission() {
    let mut index = Index::new(1);
    assert_eq!(*index.num_docs(), 0);
    for k in 0..5usize {
        index.index(k as u64 % 2, k, &mut vec![1], format!("t{k}")).unwrap();
        assert_eq!(*index.num_docs(), k + 1);
    }
}

#[test]
fn num_docs_counts_postings_not_documents() {
    let mut index = Index::new(1);
    add_document(&mut index, 0, "D1", "cat dog");
    assert_eq!(*index.num_docs(), 2);
}

#[test]
fn index_rejects_wrong_width() {
    let mut index = Index::new(1);
    let mut bad = vec![1, 2];
    assert_eq!(
        index.index(7, 0, &mut bad, "x".to_string()),
        Err(IndexError::ShapeMismatch { len: 2, stride: 1 })
    );
    assert_eq!(*index.num_docs(), 0);
    assert_eq!(bad, vec![1, 2]);
    assert!(index.get_title(0).is_none());
}

#[test]
fn titles_are_overwritten() {
    let mut index = Index::new(1);
    index.index(1, 3, &mut vec![1], "old".to_string()).unwrap();
    index.index(2, 3, &mut vec![1], "new".to_string()).unwrap();
    assert_eq!(index.get_title(3).map(|t| t.as_str()), Some("new"));
    assert!(index.get_title(4).is_none());
}

#[test]
fn query_hits_report_tf_and_df() {
    let mut index = Index::new(1);
    add_document(&mut index, 1, "D1", "cat dog");
    add_document(&mut index, 2, "D2", "cat cat fish");
    let hits = index.query_hits("cat");
    assert_eq!(
        hits,
        vec![TermHit { doc_id: 1, tf: 1, df: 2 }, TermHit { doc_id: 2, tf: 2, df: 2 }]
    );
}

#[test]
fn ranking_prefers_higher_term_frequency() {
    let mut index = Index::new(1);
    add_document(&mut index, 1, "D1", "cat dog");
    add_document(&mut index, 2, "D2", "cat cat fish");
    let hits = index.query_hits("cat");
    let h1 = hits.iter().find(|h| h.doc_id == 1).unwrap();
    let h2 = hits.iter().find(|h| h.doc_id == 2).unwrap();
    assert_eq!(h1.df, h2.df);
    assert_eq!((h1.tf, h2.tf), (1, 2));
    // One more submission makes the shared weight ln((5 - 2) / 2) positive.
    add_document(&mut index, 3, "D3", "bird");
    let n = *index.num_docs();
    assert_eq!(n, 5);
    let hits = index.query_hits("cat");
    let d1: f64 = hits.iter().filter(|h| h.doc_id == 1).map(|h| weight(n, h)).sum();
    let d2: f64 = hits.iter().filter(|h| h.doc_id == 2).map(|h| weight(n, h)).sum();
    assert!((d1 - 1.5f64.ln()).abs() < 1e-12);
    assert!((d2 - 2.0 * 1.5f64.ln()).abs() < 1e-12);
    assert!(d2 > d1);
}

#[test]
fn query_hits_follow_query_term_order() {
    let mut index = Index::new(1);
    add_document(&mut index, 1, "D1", "cat dog");
    add_document(&mut index, 2, "D2", "dog");
    let hits = index.query_hits("dog cat dog");
    let docs: Vec<usize> = hits.iter().map(|h| h.doc_id).collect();
    assert_eq!(docs, vec![1, 2, 1]);
    assert_eq!(hits[0].df, 2);
    assert_eq!(hits[2].df, 1);
}

#[test]
fn empty_query_meets_nothing() {
    let mut index = Index::new(1);
    add_document(&mut index, 1, "D1", "cat dog");
    assert!(index.query_hits("").is_empty());
    assert!(index.query_hits(" \n\t").is_empty());
}

#[test]
fn unknown_term_meets_nothing() {
    let mut index = Index::new(1);
    add_document(&mut index, 1, "D1", "cat dog");
    assert!(index.query_hits("zzz_never_indexed").is_empty());
}

#[test]
fn repeated_queries_agree() {
    let mut index = Index::new(1);
    add_document(&mut index, 1, "D1", "cat dog");
    add_document(&mut index, 2, "D2", "cat cat fish");
    assert_eq!(index.query_hits("fish cat"), index.query_hits("fish cat"));
}
