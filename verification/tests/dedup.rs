use ccql::dedup::FuzzyDeduper;
use ccql::dedup::PromptCluster;

fn cluster_of(prompts: &[&str]) -> Vec<PromptCluster> {
    let deduper = FuzzyDeduper::default();
    deduper.cluster(prompts.iter().map(|s| s.to_string()).collect())
}

fn find_cluster<'a>(clusters: &'a [PromptCluster], canonical: &str) -> &'a PromptCluster {
    clusters
        .iter()
        .find(|c| c.canonical == canonical)
        .expect("expected a cluster with that canonical text")
}

#[test]
fn test_similar_prompts() {
    let deduper = FuzzyDeduper::default();
    assert!(deduper.is_similar("continue", "continue"));
    // "cotninue" differs from "continue" by two substitutions, so its
    // normalized similarity is 6/8 = 0.75, below the default 0.8 threshold.
    assert!(!deduper.is_similar("continue", "cotninue"));
    assert!(deduper.is_similar("continue", "contnue"));
    assert!(deduper.is_similar("commit this", "commit that"));
}

#[test]
fn test_different_prompts() {
    let deduper = FuzzyDeduper::default();
    assert!(!deduper.is_similar("continue", "fix issues"));
    assert!(!deduper.is_similar("commit this", "run tests"));
}

#[test]
fn test_clustering() {
    let deduper = FuzzyDeduper::default();
    let prompts = vec![
        "continue".to_string(),
        "continue".to_string(),
        "cotninue".to_string(),
        "contnue".to_string(),
        "fix it".to_string(),
        "fix this".to_string(),
    ];

    let clusters = deduper.cluster(prompts);
    assert!(!clusters.is_empty());
}

#[test]
fn noise_inputs_are_discarded() {
    let deduper = FuzzyDeduper::default();
    assert_eq!(deduper.normalize("import foo from 'bar'"), "");
    assert_eq!(deduper.normalize("// a comment"), "");
    assert_eq!(deduper.normalize("```code block```"), "");
    assert_eq!(deduper.normalize("<div>html</div>"), "");
    assert_eq!(deduper.normalize("[1,2,3]"), "");
    assert_eq!(deduper.normalize("const x = 1;"), "");
    assert_eq!(deduper.normalize("{ \"a\": 1 }"), "");
    assert_eq!(deduper.normalize("app.chunk-f00.js minified"), "");
}

#[test]
fn normalize_trims_and_lowercases() {
    let deduper = FuzzyDeduper::default();
    assert_eq!(deduper.normalize("  Fix The Bug  "), "fix the bug");
    assert_eq!(deduper.normalize("continue"), "continue");
    assert_eq!(deduper.normalize(""), "");
}

#[test]
fn short_and_noisy_inputs_yield_no_clusters() {
    let clusters = cluster_of(&["ab", "import x", ""]);
    assert!(clusters.is_empty());
}

#[test]
fn empty_input_yields_no_clusters() {
    let clusters = cluster_of(&[]);
    assert!(clusters.is_empty());
}

#[test]
fn typo_variants_cluster_together() {
    let clusters = cluster_of(&["continue", "continue", "cotninue", "contnue", "fix it", "fix this"]);
    assert!(clusters.len() >= 2);
    let main = find_cluster(&clusters, "continue");
    assert!(main.count >= 3);
    assert!(main.variants.iter().any(|v| v == "continue"));
    assert!(main.variants.iter().any(|v| v == "contnue"));
    // every distinct surviving text lands in exactly one cluster
    for text in ["continue", "cotninue", "contnue", "fix it", "fix this"] {
        let occurrences: usize = clusters
            .iter()
            .map(|c| c.variants.iter().filter(|v| *v == text).count())
            .sum();
        assert_eq!(occurrences, 1);
    }
}

#[test]
fn unrelated_prompts_stay_separate() {
    let deduper = FuzzyDeduper::default();
    assert!(!deduper.is_similar("continue", "fix issues"));
    let clusters = cluster_of(&["continue", "fix issues"]);
    assert_eq!(clusters.len(), 2);
    for c in &clusters {
        assert_eq!(c.count, 1);
        assert_eq!(c.variants.len(), 1);
        assert_eq!(c.variants[0], c.canonical);
    }
    find_cluster(&clusters, "continue");
    find_cluster(&clusters, "fix issues");
}

#[test]
fn threshold_boundary_counts_as_similar() {
    // distance 2 over length 10: similarity exactly 0.8
    assert!(FuzzyDeduper::new(800).is_similar("aaaaaaaaaa", "aaaaaaaabb"));
    assert!(!FuzzyDeduper::new(801).is_similar("aaaaaaaaaa", "aaaaaaaabb"));
}

#[test]
fn reflexivity_at_any_threshold() {
    assert!(FuzzyDeduper::new(1000).is_similar("hello", "hello"));
    assert!(FuzzyDeduper::new(0).is_similar("hello", "hello"));
    assert!(FuzzyDeduper::default().is_similar("x", "x"));
}

#[test]
fn length_ratio_short_circuit() {
    // similarity 2000/6000 would pass a 0.3 threshold, but the length
    // ratio 2/6 is below one half, so the pair is rejected outright
    assert!(!FuzzyDeduper::new(300).is_similar("ab", "abcdef"));
    assert!(!FuzzyDeduper::new(0).is_similar("ab", "abcdef"));
}

#[test]
fn lower_thresholds_accept_more() {
    // "continue" vs "contnue": similarity 7/8 = 0.875
    assert!(FuzzyDeduper::new(870).is_similar("continue", "contnue"));
    assert!(FuzzyDeduper::new(800).is_similar("continue", "contnue"));
    assert!(!FuzzyDeduper::new(900).is_similar("continue", "contnue"));
}

#[test]
fn counts_aggregate_exact_duplicates() {
    let clusters = cluster_of(&["go", "continue", "continue", "  Continue "]);
    assert_eq!(clusters.len(), 1);
    assert_eq!(clusters[0].canonical, "continue");
    assert_eq!(clusters[0].count, 3);
    assert_eq!(clusters[0].variants, vec!["continue".to_string()]);
}

#[test]
fn clusters_come_back_in_descending_count_order() {
    let clusters = cluster_of(&["bbbb", "aaaa", "aaaa", "cccc", "cccc", "cccc"]);
    assert_eq!(clusters.len(), 3);
    for w in clusters.windows(2) {
        assert!(w[0].count >= w[1].count);
    }
    assert_eq!(clusters[0].canonical, "cccc");
    assert_eq!(clusters[0].count, 3);
    assert_eq!(clusters[1].canonical, "aaaa");
    assert_eq!(clusters[1].count, 2);
    assert_eq!(clusters[2].canonical, "bbbb");
    assert_eq!(clusters[2].count, 1);
}

#[test]
fn variants_start_with_the_canonical_text() {
    let clusters = cluster_of(&["fix it", "fix it", "fix it!", "continue"]);
    for c in &clusters {
        assert!(!c.variants.is_empty());
        assert_eq!(c.variants[0], c.canonical);
    }
    let main = find_cluster(&clusters, "fix it");
    assert!(main.variants.iter().any(|v| v == "fix it!"));
    assert_eq!(main.count, 3);
}
