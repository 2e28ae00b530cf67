//! Cosine similarity on fixed-point embeddings: a score of 1000 is 1.0.

use rag_enricher::cosine_similarity;

#[test]
fn test_cosine_similarity_identical() {
    let vec: Vec<i64> = vec![1000, 2000, 3000];
    let similarity = cosine_similarity(&vec, &vec);
    assert_eq!(similarity, 1000);
}

#[test]
fn test_cosine_similarity_orthogonal() {
    let a: Vec<i64> = vec![1000, 0, 0];
    let b: Vec<i64> = vec![0, 1000, 0];
    let similarity = cosine_similarity(&a, &b);
    assert_eq!(similarity, 0);
}

#[test]
fn test_cosine_similarity_opposite() {
    let a: Vec<i64> = vec![1000, 0, 0];
    let b: Vec<i64> = vec![-1000, 0, 0];
    let similarity = cosine_similarity(&a, &b);
    assert_eq!(similarity, -1000);
}

#[test]
fn mismatched_lengths_give_zero() {
    let a: Vec<i64> = vec![1000, 2000];
    let b: Vec<i64> = vec![1000, 2000, 3000];
    assert_eq!(cosine_similarity(&a, &b), 0);
}

#[test]
fn zero_vector_gives_zero() {
    let a: Vec<i64> = vec![0, 0, 0];
    let b: Vec<i64> = vec![1000, 2000, 3000];
    assert_eq!(cosine_similarity(&a, &b), 0);
    assert_eq!(cosine_similarity(&b, &a), 0);
    assert_eq!(cosine_similarity(&a, &a), 0);
}

#[test]
fn empty_vectors_give_zero() {
    let a: Vec<i64> = vec![];
    assert_eq!(cosine_similarity(&a, &a), 0);
}

#[test]
fn similarity_stays_in_unit_range() {
    let a: Vec<i64> = vec![3, 4];
    let b: Vec<i64> = vec![4, 3];
    let s = cosine_similarity(&a, &b);
    assert!(-1000 <= s && s <= 1000);
    // dot = 24, norms 5 and 5: 24/25 = 0.96
    assert_eq!(s, 960);
}

#[test]
fn scale_invariance_of_similarity() {
    let a: Vec<i64> = vec![300, 400];
    let b: Vec<i64> = vec![30, 40];
    assert_eq!(cosine_similarity(&a, &b), 1000);
}
