use clean_cargo_projects::clean::{dry_run_outcomes, worker_indices, OutcomeCollector};
use clean_cargo_projects::cli::{Args, Config};
use clean_cargo_projects::report::{build_report, summary_counts};
use clean_cargo_projects::scan::DiscoveredProject;
use clean_cargo_projects::select::AskMode;
use clean_cargo_projects::walk::Strategy;

fn path(s: &str) -> Vec<Vec<u8>> {
    s.split('/').map(|c| c.as_bytes().to_vec()).collect()
}

fn submitted(n: usize) -> Vec<Vec<Vec<u8>>> {
    (0..n).map(|i| path(&format!("item{i}"))).collect()
}

#[test]
fn dry_run_reports_success_for_every_path() {
    let paths = submitted(4);
    let outcomes = dry_run_outcomes(&paths);
    assert_eq!(outcomes.len(), 4);
    for (o, p) in outcomes.iter().zip(paths.iter()) {
        assert_eq!(&o.path, p);
        assert!(o.is_success());
    }
    assert!(dry_run_outcomes(&Vec::new()).is_empty());
}

fn run_pool(n: usize, workers: usize) -> Vec<clean_cargo_projects::clean::CleanupOutcome> {
    let paths = submitted(n);
    let mut collector = OutcomeCollector::new(paths);
    // workers finish in reverse order
    for w in (0..workers).rev() {
        for i in worker_indices(n, workers, w).into_iter().rev() {
            assert!(collector.is_open(i));
            let error = if i % 3 == 1 { Some(format!("failed at {i}")) } else { None };
            collector.record(i, error);
        }
    }
    assert!(collector.is_complete());
    collector.into_outcomes()
}

#[test]
fn one_outcome_per_path_for_any_pool_size() {
    let n = 7;
    for workers in [1usize, 2, 3, 7, 12] {
        let outcomes = run_pool(n, workers);
        assert_eq!(outcomes.len(), n);
        for (i, o) in outcomes.iter().enumerate() {
            assert_eq!(o.path, path(&format!("item{i}")));
            assert_eq!(o.is_success(), i % 3 != 1);
        }
    }
}

#[test]
fn worker_shares_partition_the_paths() {
    for workers in [1usize, 3, 10] {
        let mut all: Vec<usize> = (0..workers).flat_map(|w| worker_indices(5, workers, w)).collect();
        all.sort();
        assert_eq!(all, vec![0, 1, 2, 3, 4]);
    }
    assert_eq!(worker_indices(7, 3, 1), vec![1, 4]);
}

#[test]
fn collector_is_incomplete_until_all_report() {
    let mut c = OutcomeCollector::new(submitted(2));
    assert!(!c.is_complete());
    c.record(1, None);
    assert!(!c.is_open(1));
    assert!(c.is_open(0));
    assert!(!c.is_complete());
    c.record(0, Some("exit status 101".to_string()));
    assert!(c.is_complete());
    assert_eq!(c.len(), 2);
    assert_eq!(c.path_at(0), path("item0"));
}

#[test]
fn report_marks_selected_projects_and_outcomes() {
    let projects = vec![
        DiscoveredProject { path: path("a"), target_size: "1.0KB".to_string() },
        DiscoveredProject { path: path("b"), target_size: "2.0MB".to_string() },
    ];
    let to_clean = vec![path("b")];
    let mut c = OutcomeCollector::new(to_clean.clone());
    c.record(0, Some("boom".to_string()));
    let results = c.into_outcomes();
    let report = build_report(&projects, &to_clean, &results);
    assert_eq!(report.total_projects, 2);
    assert_eq!(report.to_clean_count, 1);
    assert!(!report.projects[0].selected);
    assert!(report.projects[1].selected);
    assert_eq!(report.projects[1].target_size, "2.0MB");
    assert!(!report.results[0].success);
    assert_eq!(report.results[0].error.as_deref(), Some("boom"));
    assert_eq!(summary_counts(&results), (0, 1));
    assert_eq!(summary_counts(&dry_run_outcomes(&to_clean)), (1, 0));
}

fn args(strategy: &str, threshold: Option<&str>, mode: &str) -> Args {
    Args {
        path: None,
        strategy: strategy.to_string(),
        threshold: threshold.map(|t| t.to_string()),
        ask_mode: mode.to_string(),
        parallel_scan: 8,
        parallel_clean: 4,
        exclude: vec!["*/skip".to_string()],
        dry_run: true,
        json: false,
        max_depth: Some(3),
    }
}

#[test]
fn configuration_is_resolved_from_arguments() {
    let c = Config::from_args(args("dfs", Some("100MB"), "auto"));
    assert_eq!(c.strategy, Strategy::DepthFirst);
    assert_eq!(c.threshold_bytes, Some(104_857_600));
    assert_eq!(c.ask_mode, AskMode::Auto);
    assert!(c.ask_mode_known);
    assert_eq!(c.parallel_scan, 8);
    assert_eq!(c.parallel_clean, 4);
    assert_eq!(c.excludes, vec!["*/skip".to_string()]);
    assert!(c.dry_run);
    assert_eq!(c.max_depth, Some(3));
}

#[test]
fn unknown_settings_fall_back() {
    let c = Config::from_args(args("sideways", Some("lots"), "sometimes"));
    assert_eq!(c.strategy, Strategy::BreadthFirst);
    assert_eq!(c.threshold_bytes, None);
    assert_eq!(c.ask_mode, AskMode::RealTime);
    assert!(!c.ask_mode_known);
}
