use delve_core::config::{default_jaccard_threshold, DelveConfig, Thresholds, Weights};

#[test]
fn default_settings() {
    let t = Thresholds::default();
    assert_eq!((t.warning_lines, t.critical_lines, t.warning_complexity, t.critical_complexity), (40, 80, 10, 20));
    assert_eq!((t.jaccard_threshold.numerator, t.jaccard_threshold.denominator), (7, 10));
    let w = Weights::default();
    assert_eq!(
        (w.unused_file, w.giant_critical, w.giant_warning, w.duplicate, w.any_type, w.console_log, w.circular_dep),
        (15, 5, 2, 3, 1, 1, 5)
    );
    let c = DelveConfig::default();
    assert!(c.ignore.is_empty());
    assert!(c.entry_points.is_empty());
    let j = default_jaccard_threshold();
    assert_eq!(j.numerator * 10, j.denominator * 7);
}
