use stream_observer::number::F32;
use stream_observer::retrieval::{
    chunk, embedded_query, hybrid_search, index, index_chunks, rank_bm25, rank_semantic, rrf_best,
    search, terms, Scoring, SemanticIndex, RRF_K_BITS,
};

/// The scores, in `f32`.
struct Float;

fn f(x: F32) -> f32 {
    f32::from_bits(x.0)
}

fn b(x: f32) -> F32 {
    F32(x.to_bits())
}

fn vector(xs: &[f32]) -> Vec<F32> {
    xs.iter().map(|x| b(*x)).collect()
}

impl Scoring for Float {
    fn bm25(&self, hits: &Vec<(usize, usize)>, len: usize, passages: usize, total: u128) -> F32 {
        let (k1, bb) = (1.5f32, 0.75f32);
        let n = passages as f32;
        let avgdl = if passages == 0 { 0.0 } else { total as f32 / n };
        let mut score = 0.0f32;
        for &(tf, df) in hits {
            let (tf, df) = (tf as f32, df as f32);
            let idf = ((n - df + 0.5) / (df + 0.5) + 1.0).ln();
            let denom = tf + k1 * (1.0 - bb + bb * len as f32 / avgdl);
            score += idf * (tf * (k1 + 1.0)) / denom;
        }
        b(score)
    }
    fn dot(&self, x: &Vec<F32>, y: &Vec<F32>) -> F32 {
        b(x.iter().zip(y).map(|(p, q)| f(*p) * f(*q)).sum())
    }
    fn fused(&self, ranks: &Vec<usize>, k: F32) -> F32 {
        b(ranks.iter().map(|r| 1.0 / (f(k) + *r as f32 + 1.0)).sum())
    }
}

#[test]
fn search_finds_the_chunk_with_the_query_term() {
    let text = "the cat sat on the mat. \
                the whale breached beside the doomed ship Pequod. \
                the dog ran across the green field.";
    let c = index(text, 6);
    let hit = search(&c, "Pequod whale", &Float).expect("a chunk mentions the whale");
    assert!(hit.to_lowercase().contains("whale") || hit.to_lowercase().contains("pequod"));
}

#[test]
fn common_words_do_not_dominate() {
    let text = "the the the apple. the the the banana. the the the cherry.";
    let c = index(text, 4);
    let hit = search(&c, "banana", &Float).unwrap();
    assert!(hit.contains("banana"));
}

#[test]
fn no_matching_term_returns_none() {
    let c = index("alpha beta gamma delta", 2);
    assert!(search(&c, "zzz nonexistent", &Float).is_none());
}

#[test]
fn empty_corpus_returns_none() {
    let c = index("", 8);
    assert!(search(&c, "anything", &Float).is_none());
}

#[test]
fn semantic_ranking_orders_by_cosine() {
    let idx = SemanticIndex::new(vec![
        vector(&[1.0, 0.0, 0.0]),
        vector(&[0.0, 1.0, 0.0]),
        vector(&[0.0, 0.0, 1.0]),
    ]);
    assert_eq!(rank_semantic(&idx, &vector(&[0.3, 0.9, 0.0]), &Float), vec![1, 0, 2]);
}

#[test]
fn semantic_empty_index_ranks_nothing() {
    let idx = SemanticIndex::new(vec![]);
    assert!(rank_semantic(&idx, &vector(&[1.0, 0.0]), &Float).is_empty());
}

#[test]
fn rrf_rewards_agreement_across_rankings() {
    let bm25 = vec![0usize, 2, 1];
    let semantic = vec![2usize, 1, 0];
    assert_eq!(rrf_best(&vec![bm25, semantic], b(60.0), &Float), Some(2));
}

#[test]
fn rrf_includes_docs_present_in_only_one_ranking() {
    let bm25: Vec<usize> = vec![];
    let semantic = vec![5usize, 3, 9];
    assert_eq!(rrf_best(&vec![bm25, semantic], b(60.0), &Float), Some(5));
    assert_eq!(rrf_best(&vec![vec![], vec![]], b(60.0), &Float), None);
}

#[test]
fn the_fusion_constant_is_sixty() {
    assert_eq!(f32::from_bits(RRF_K_BITS), 60.0);
}

#[test]
fn terms_are_runs_of_letters_and_digits() {
    assert_eq!(terms("The Pequod's 2nd mate, a É!"), ["the", "pequod", "2nd", "mate"]);
    assert!(terms("a . b").is_empty());
    // A letter of two bytes is one character.
    assert_eq!(terms("\u{e9} a Ahab-2X!"), ["ahab", "2x"]);
    assert_eq!(terms("\u{e9}\u{e8}"), ["\u{e9}\u{e8}"]);
    // Small letters of one character can be two.
    assert_eq!(terms("İx"), ["i\u{307}x"]);
}

#[test]
fn passages_are_windows_of_words() {
    assert_eq!(chunk("a  b\nc d e", 2), ["a b", "c d", "e"]);
    assert_eq!(chunk("a b", 0), ["a", "b"]);
    assert!(chunk(" \n", 3).is_empty());
    assert_eq!(chunk("x", 80), ["x"]);
}

#[test]
fn the_index_counts_terms() {
    let c = index_chunks(vec!["whale whale ship".to_string(), "ship".to_string()]);
    assert_eq!(c.lens, [3, 1]);
    assert_eq!(c.total, 4);
    assert_eq!(c.tf[0].get("whale").copied(), Some(2));
    assert_eq!(c.df.get("ship").copied(), Some(2));
    assert_eq!(c.df.get("whale").copied(), Some(1));
    assert_eq!(c.chunk_text(1), "ship");
}

#[test]
fn passages_without_a_hit_are_not_ranked() {
    let c = index("whale one. ship two. whale ship three.", 2);
    assert_eq!(rank_bm25(&c, "whale", &Float), [0, 2]);
    // Of two with the same score the earlier comes first.
    let same = index("whale a whale b", 2);
    assert_eq!(rank_bm25(&same, "whale", &Float), [0, 1]);
    // A term that is asked for twice counts twice, and that changes no order here.
    assert_eq!(rank_bm25(&c, "whale whale", &Float), [0, 2]);
}

#[test]
fn a_hybrid_search_fuses_both_rankings() {
    let c = index("white whale. black ship. green field.", 2);
    let s = SemanticIndex::new(vec![
        vector(&[1.0, 0.0]),
        vector(&[0.0, 1.0]),
        vector(&[0.6, 0.8]),
    ]);
    // By words the ship; by embeddings the field, then the ship.
    let q = vector(&[0.5, 0.85]);
    assert_eq!(rank_semantic(&s, &q, &Float), [2, 1, 0]);
    assert_eq!(hybrid_search(&c, &s, "ship", &q, &Float).as_deref(), Some("black ship."));
    // Without a word in common the embeddings decide alone.
    assert_eq!(hybrid_search(&c, &s, "zzz", &q, &Float).as_deref(), Some("green field."));
    let none = index("", 2);
    let no_vectors = SemanticIndex::new(vec![]);
    assert_eq!(hybrid_search(&none, &no_vectors, "ship", &q, &Float), None);
}

#[test]
fn a_query_is_embedded_behind_its_instruction() {
    assert_eq!(
        embedded_query("a dog"),
        "Instruct: Given a search query, retrieve relevant passages.\nQuery: a dog"
    );
}

#[test]
fn what_shares_a_term_is_ranked() {
    let chunks: Vec<String> = (0..60)
        .map(|i| match i % 4 {
            0 => "the whale".to_string(),
            1 => "a ship and a whale and a whale".to_string(),
            2 => format!("ship number {i}"),
            _ => "nothing of it".to_string(),
        })
        .collect();
    let c = index_chunks(chunks.clone());
    // A term of nearly every passage still scores above zero.
    for query in ["whale", "Ship", "whale ship number", "of the", "absent"] {
        let wanted = terms(query);
        let r = rank_bm25(&c, query, &Float);
        for (i, chunk) in chunks.iter().enumerate() {
            let shares = terms(chunk).iter().any(|t| wanted.contains(t));
            assert_eq!(r.iter().filter(|k| **k == i).count(), shares as usize);
        }
        assert_eq!(r, rank_bm25(&c, query, &Float));
    }
}
