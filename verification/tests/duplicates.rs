use delve_core::config::Ratio;
use delve_core::duplicates::{
    band_hashes, find_duplicates, find_duplicates_checked, find_near_duplicates, find_near_duplicates_checked,
    format_report, jaccard_similarity, merge_overlapping, minhash_signature, ngram_hashes, run_dup,
    tokenize_files, tokenize_with_tree_sitter, DupLocation, DuplicateCluster, LSH_BANDS, MINHASH_K, WINDOW_SIZE,
};

fn ratio(numerator: u64, denominator: u64) -> Ratio {
    Ratio { numerator, denominator }
}

fn value(r: Ratio) -> f64 {
    r.numerator as f64 / r.denominator as f64
}

#[test]
fn test_tokenize_simple() {
    let source = "function foo() { return 42; }";
    let tokens = tokenize_with_tree_sitter("test.ts", source);
    assert!(tokens.is_some(), "should produce tokens");
    assert!(!tokens.unwrap().is_empty(), "tokens should not be empty");
}

#[test]
fn test_normalized_tokens() {
    let source = "const x = 1; const y = 2;";
    let tokens = tokenize_with_tree_sitter("test.ts", source).unwrap();
    let joined = tokens.join(" ");
    assert!(joined.contains("$id"), "identifiers should be normalized: {}", joined);
    assert!(joined.contains("$num"), "numbers should be normalized: {}", joined);
}

#[test]
fn test_tokenize_jsx() {
    let source = "const el = <div>hello</div>;";
    let tokens = tokenize_with_tree_sitter("test.tsx", source);
    assert!(tokens.is_some(), "JSX should produce tokens");
}

#[test]
fn test_jaccard_similarity_identical() {
    let a = vec![1, 2, 3, 4, 5];
    let b = vec![1, 2, 3, 4, 5];
    let sim = value(jaccard_similarity(&a, &b));
    assert!((sim - 1.0).abs() < 1e-6, "identical sets should have similarity 1.0");
}

#[test]
fn test_jaccard_similarity_disjoint() {
    let a = vec![1, 2, 3];
    let b = vec![4, 5, 6];
    let sim = value(jaccard_similarity(&a, &b));
    assert!((sim - 0.0).abs() < 1e-6, "disjoint sets should have similarity 0.0");
}

#[test]
fn test_jaccard_similarity_half() {
    let a = vec![1, 2];
    let b = vec![1];
    let sim = value(jaccard_similarity(&a, &b));
    assert!((sim - 0.5).abs() < 1e-6, "should have similarity 0.5, got {}", sim);
}

#[test]
fn test_ngram_hashes() {
    let tokens: Vec<String> = vec!["a", "b", "c", "d", "e"].into_iter().map(|s| s.to_string()).collect();
    let hashes = ngram_hashes(&tokens);
    assert_eq!(hashes.len(), 3, "5 tokens should produce 3 trigrams");
}

#[test]
fn test_minhash_signature_length() {
    let shingles = vec![10, 20, 30, 40, 50];
    let sig = minhash_signature(&shingles);
    assert_eq!(sig.len(), MINHASH_K, "signature length should match MINHASH_K");
}

#[test]
fn test_band_hashes_length() {
    let sig: Vec<u64> = (0..MINHASH_K as u64).collect();
    let bands = band_hashes(&sig);
    assert_eq!(bands.len(), LSH_BANDS, "number of bands should match LSH_BANDS");
}

#[test]
fn test_find_near_duplicates_detects_similar() {
    let mut tokens_a = Vec::new();
    let mut tokens_b = Vec::new();
    for i in 0..30 {
        tokens_a.push(format!("token{}", i));
        tokens_b.push(if i >= 25 { format!("other{}", i) } else { format!("token{}", i) });
    }
    assert!(tokens_a.len() >= WINDOW_SIZE, "need at least {} tokens", WINDOW_SIZE);
    let file_tokens = vec![("a.ts".to_string(), tokens_a), ("b.ts".to_string(), tokens_b)];
    let clusters = find_near_duplicates(&file_tokens, &ratio(1, 2));
    assert!(!clusters.is_empty(), "should detect near-duplicates between similar token sequences");
}

#[test]
fn test_find_near_duplicates_empty_for_dissimilar() {
    let tokens_a: Vec<String> = (0..30).map(|i| format!("aa{}", i)).collect();
    let tokens_b: Vec<String> = (0..30).map(|i| format!("bb{}", i)).collect();
    let file_tokens = vec![("a.ts".to_string(), tokens_a), ("b.ts".to_string(), tokens_b)];
    let clusters = find_near_duplicates(&file_tokens, &ratio(9, 10));
    assert!(clusters.is_empty(), "dissimilar code should not be near-duplicates at high threshold");
}

#[test]
fn test_near_duplicates_off_for_threshold_1() {
    let tokens_a: Vec<String> = (0..30).map(|i| format!("tok{}", i)).collect();
    let tokens_b: Vec<String> = tokens_a.clone();
    let file_tokens = vec![("a.ts".to_string(), tokens_a), ("b.ts".to_string(), tokens_b)];
    let clusters = find_near_duplicates(&file_tokens, &ratio(1, 1));
    assert!(clusters.is_empty(), "threshold 1.0 should disable near-duplicate detection");
}

#[test]
fn jaccard_is_symmetric_and_ignores_repeats() {
    let a = vec![1, 1, 2, 3];
    let b = vec![3, 4];
    let ab = jaccard_similarity(&a, &b);
    let ba = jaccard_similarity(&b, &a);
    assert_eq!((ab.numerator, ab.denominator), (1, 4));
    assert_eq!((ba.numerator, ba.denominator), (1, 4));
    let empty = jaccard_similarity(&[], &[]);
    assert_eq!(empty.numerator, 0);
}

#[test]
fn ngrams_of_short_input() {
    let tokens: Vec<String> = vec!["a".to_string(), "b".to_string()];
    assert!(ngram_hashes(&tokens).is_empty());
}

#[test]
fn exact_duplicates_across_two_files() {
    let tokens: Vec<String> = (0..30).map(|i| format!("t{}", i)).collect();
    let file_tokens = vec![("a.ts".to_string(), tokens.clone()), ("b.ts".to_string(), tokens)];
    let clusters = find_duplicates(&file_tokens);
    assert!(!clusters.is_empty());
    for c in &clusters {
        assert!(c.locations.len() >= 2);
        assert!(!c.is_near_dup);
        let mut paths: Vec<&str> = c.locations.iter().map(|l| l.file_path.as_str()).collect();
        paths.dedup();
        assert_eq!(paths.len(), c.locations.len(), "one location per file");
    }
    assert_eq!(clusters[0].locations[0].file_path, "a.ts");
    assert_eq!(clusters[0].locations[1].file_path, "b.ts");
    assert!(find_duplicates_checked(&file_tokens).is_some());
}

#[test]
fn overlapping_windows_join_into_one_cluster() {
    let t: Vec<String> = (0..30).map(|i| format!("t{}", i)).collect();
    let file_tokens = vec![("a.ts".to_string(), t.clone()), ("b.ts".to_string(), t.clone())];
    let clusters = find_duplicates(&file_tokens);
    assert_eq!(clusters.len(), 1);
    assert_eq!(clusters[0].token_count, 30);
    assert_eq!(clusters[0].sample, t.join(" "));
    let paths: Vec<&str> = clusters[0].locations.iter().map(|l| l.file_path.as_str()).collect();
    assert_eq!(paths, vec!["a.ts", "b.ts"]);
}

#[test]
fn separate_duplicates_stay_separate() {
    let a: Vec<String> = (0..25).map(|i| format!("a{}", i)).chain((0..25).map(|i| format!("b{}", i))).collect();
    let b: Vec<String> = (0..25).map(|i| format!("b{}", i)).chain((0..5).map(|i| format!("x{}", i))).chain((0..25).map(|i| format!("a{}", i))).collect();
    let clusters = find_duplicates(&vec![("a.ts".to_string(), a), ("b.ts".to_string(), b)]);
    assert_eq!(clusters.len(), 2);
    assert!(clusters.iter().all(|c| c.token_count == 25 && c.locations.len() == 2));
}

#[test]
fn no_exact_duplicates_within_one_file_only() {
    let tokens: Vec<String> = (0..30).map(|i| format!("t{}", i)).collect();
    let file_tokens = vec![("a.ts".to_string(), tokens)];
    assert!(find_duplicates(&file_tokens).is_empty());
    assert!(find_near_duplicates_checked(&file_tokens, &ratio(1, 2)).unwrap().is_empty());
}

#[test]
fn merge_joins_overlapping_ranges() {
    let merged = merge_overlapping(vec![(10, 20), (0, 5), (4, 8), (20, 25)]);
    assert_eq!(merged, vec![(0, 8), (10, 25)]);
}

#[test]
fn merge_keeps_the_covered_points() {
    assert_eq!(merge_overlapping(vec![(5, 7), (1, 3), (2, 4)]), vec![(1, 4), (5, 7)]);
    assert_eq!(merge_overlapping(vec![(3, 3)]), vec![(3, 3)]);
    assert!(merge_overlapping(vec![]).is_empty());
}

#[test]
fn report_of_no_clusters() {
    assert_eq!(format_report(&[]), "  No duplicate blocks found.\n");
}

#[test]
fn report_numbers_clusters() {
    let cluster = DuplicateCluster {
        locations: vec![
            DupLocation { file_path: "a.ts".to_string(), start_line: 1, end_line: 5 },
            DupLocation { file_path: "b.ts".to_string(), start_line: 2, end_line: 6 },
        ],
        sample: "$id = $num".to_string(),
        token_count: 30,
        is_near_dup: false,
    };
    let text = format_report(&[cluster]);
    assert!(text.contains("DUPLICATE BLOCKS"));
    assert!(text.contains("  1. (30 tokens)"));
    assert!(text.contains("a.ts"));
    assert!(text.contains("b.ts"));
}

#[test]
fn run_dup_outcome() {
    let tokens: Vec<String> = (0..30).map(|i| format!("t{}", i)).collect();
    let file_tokens = vec![("a.ts".to_string(), tokens.clone()), ("b.ts".to_string(), tokens)];
    let r = run_dup(&file_tokens, &ratio(7, 10)).unwrap();
    assert_eq!(r.exit_code, 1);
    assert_eq!(r.score, 0);
    let lonely = vec![("a.ts".to_string(), vec!["x".to_string()])];
    let r = run_dup(&lonely, &ratio(7, 10)).unwrap();
    assert_eq!(r.exit_code, 0);
    assert_eq!(r.score, 100);
    assert_eq!(r.output, "  No duplicate blocks found.\n");
}

#[test]
fn tokenize_files_keeps_files_with_a_window_of_tokens() {
    let long: String = (0..10).map(|i| format!("const v{} = 'hi';", i)).collect::<Vec<_>>().join("\n");
    let files = vec![("a.ts", long.as_str()), ("b.js", "let y = 2;")];
    let out = tokenize_files(&files);
    assert_eq!(out.len(), 1);
    assert_eq!(out[0].0, "a.ts");
    assert!(out[0].1.len() >= WINDOW_SIZE);
    assert!(out[0].1.contains(&"$str".to_string()));
    assert!(out[0].1.contains(&"$id".to_string()));
}

#[test]
fn window_hash_depends_on_tokens() {
    let a: Vec<String> = vec!["$id".to_string(), "=".to_string(), "$num".to_string()];
    let b = a.clone();
    let c: Vec<String> = vec!["$id".to_string(), "=".to_string(), "$str".to_string()];
    assert_eq!(delve_core::duplicates::hash_window(&a), delve_core::duplicates::hash_window(&b));
    assert_ne!(delve_core::duplicates::hash_window(&a), delve_core::duplicates::hash_window(&c));
}
