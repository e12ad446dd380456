use pocketwiki_core::bm25::{rank_top_k, BM25Index, ScoredDoc};

/// BM25 weighting over the index's integer scoring inputs, with the default
/// parameters k1 = 1.5 and b = 0.75; results ranked through the library.
fn search(index: &BM25Index, query: &str, k: usize) -> Vec<(String, f32, usize)> {
    let stats = index.stats();
    let n = stats.num_docs as f32;
    let avg_doc_len = if stats.num_docs == 0 {
        1.0
    } else {
        stats.total_doc_len as f32 / stats.num_docs as f32
    };
    let k1 = 1.5f32;
    let b = 0.75f32;
    let candidates = index.score_inputs(query);
    let mut scored: Vec<ScoredDoc> = Vec::new();
    for c in &candidates {
        let mut score = 0.0f32;
        for h in &c.hits {
            let df = h.doc_freq as f32;
            let tf = h.term_freq as f32;
            let doc_len = c.doc_len as f32;
            let idf = ((n - df + 0.5) / (df + 0.5) + 1.0).ln();
            let tf_component = (tf * (k1 + 1.0)) / (tf + k1 * (1.0 - b + b * (doc_len / avg_doc_len)));
            score += idf * tf_component;
        }
        scored.push(ScoredDoc { doc_id: c.doc_id, score_key: score.to_bits() });
    }
    rank_top_k(&scored, k)
        .into_iter()
        .map(|r| (format!("chunk_{}", r.doc_id), f32::from_bits(r.score_key), r.rank))
        .collect()
}

#[test]
fn test_index_build() {
    let mut index = BM25Index::new();
    index.add_document(1, "the quick brown fox");
    index.add_document(2, "the lazy dog");
    index.add_document(3, "quick brown dog");
    index.build();

    let stats = index.stats();
    assert_eq!(stats.num_docs, 3);
    assert!(stats.num_terms > 0);
}

#[test]
fn test_term_count() {
    let mut index = BM25Index::new();
    index.add_document(1, "the quick brown fox");
    index.add_document(2, "the lazy dog");
    index.add_document(3, "quick brown dog");
    index.build();

    let stats = index.stats();
    // distinct terms of length >= 2: the, quick, brown, fox, lazy, dog
    assert_eq!(stats.num_terms, 6);
    assert_eq!(stats.total_doc_len, 4 + 3 + 3);
}

#[test]
fn test_search() {
    let mut index = BM25Index::new();
    index.add_document(1, "Python programming language");
    index.add_document(2, "Rust systems programming");
    index.add_document(3, "Python data science");
    index.build();

    let results = search(&index, "Python programming", 2);
    assert_eq!(results.len(), 2);
    assert_eq!(results[0].0, "chunk_1"); // Best match
    assert!(results[0].1 > results[1].1);
}

#[test]
fn test_empty_query() {
    let mut index = BM25Index::new();
    index.add_document(1, "test document");
    index.build();

    let results = search(&index, "", 10);
    assert!(results.is_empty());
}

#[test]
fn test_no_results() {
    let mut index = BM25Index::new();
    index.add_document(1, "Python programming");
    index.build();

    let results = search(&index, "JavaScript", 10);
    assert!(results.is_empty());
}

#[test]
fn test_order_independence() {
    let docs: Vec<(u32, &str)> = vec![
        (1, "the quick brown fox"),
        (2, "the lazy dog"),
        (3, "quick brown dog"),
    ];
    let mut forward = BM25Index::new();
    for &(id, text) in &docs {
        forward.add_document(id, text);
    }
    forward.build();
    let mut backward = BM25Index::new();
    for &(id, text) in docs.iter().rev() {
        backward.add_document(id, text);
    }
    backward.build();

    let fs = forward.stats();
    let bs = backward.stats();
    assert_eq!(fs.num_docs, bs.num_docs);
    assert_eq!(fs.num_terms, bs.num_terms);
    assert_eq!(fs.total_doc_len, bs.total_doc_len);

    let fr = search(&forward, "quick dog", 10);
    let br = search(&backward, "quick dog", 10);
    assert_eq!(fr, br);
}

#[test]
fn test_tie_break_by_doc_id() {
    let mut index = BM25Index::new();
    index.add_document(9, "orange banana");
    index.add_document(4, "orange banana");
    index.build();

    let results = search(&index, "banana", 10);
    assert_eq!(results.len(), 2);
    // equal scores: the smaller document id ranks first
    assert_eq!(results[0].0, "chunk_4");
    assert_eq!(results[1].0, "chunk_9");
    assert_eq!(results[0].1, results[1].1);
    assert_eq!(results[0].2, 0);
    assert_eq!(results[1].2, 1);
}

#[test]
fn test_readd_overwrites() {
    let mut index = BM25Index::new();
    index.add_document(1, "alpha beta");
    index.add_document(1, "alpha gamma");
    index.build();

    // the second call overwrote term entries for doc 1 rather than merging,
    // but pushed a second metadata record, as ingestion is append-only
    let stats = index.stats();
    assert_eq!(stats.num_docs, 2);
    assert_eq!(stats.num_terms, 3);
    let results = search(&index, "gamma", 10);
    assert_eq!(results.len(), 1);
    assert_eq!(results[0].0, "chunk_1");
}

#[test]
fn test_truncation_to_k() {
    let mut index = BM25Index::new();
    index.add_document(1, "apple pie");
    index.add_document(2, "apple tart");
    index.add_document(3, "apple cake");
    index.build();

    let results = search(&index, "apple", 2);
    assert_eq!(results.len(), 2);
    assert_eq!(results[0].2, 0);
    assert_eq!(results[1].2, 1);
}
