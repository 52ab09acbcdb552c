use clean_cargo_projects::scan::{
    discovery_less, indent_width, is_excluded, should_inspect, sort_projects, DiscoveredProject, ScanLedger,
    ScanProgress,
};
use clean_cargo_projects::size::{format_size, SizeTally};
use clean_cargo_projects::walk::{Strategy, TreeWalker};

fn path(s: &str) -> Vec<Vec<u8>> {
    if s.is_empty() {
        Vec::new()
    } else {
        s.split('/').map(|c| c.as_bytes().to_vec()).collect()
    }
}

fn project(p: &str, size: &str) -> DiscoveredProject {
    DiscoveredProject { path: path(p), target_size: size.to_string() }
}

fn paths(v: &[DiscoveredProject]) -> Vec<Vec<Vec<u8>>> {
    v.iter().map(|p| p.path.clone()).collect()
}

#[test]
fn exclusion_uses_glob_patterns_on_the_full_path() {
    let patterns = vec!["*/vendor/*".to_string(), "/tmp/skip*".to_string()];
    assert!(is_excluded("/home/u/vendor/lib", &patterns));
    assert!(is_excluded("/tmp/skipped", &patterns));
    assert!(!is_excluded("/home/u/src", &patterns));
    assert!(!is_excluded("/home/u/src", &Vec::new()));
}

#[test]
fn invalid_pattern_excludes_nothing() {
    let patterns = vec!["[".to_string()];
    assert!(!is_excluded("[", &patterns));
}

#[test]
fn inspection_respects_depth_limit_and_exclusions() {
    let none: Vec<String> = Vec::new();
    assert!(should_inspect(3, None, "/r/a/b/c", &none));
    assert!(should_inspect(2, Some(2), "/r/a/b", &none));
    assert!(!should_inspect(3, Some(2), "/r/a/b/c", &none));
    assert!(should_inspect(0, Some(0), "/r", &none));
    let ex = vec!["*/b".to_string()];
    assert!(!should_inspect(2, None, "/r/a/b", &ex));
}

#[test]
fn indentation_grows_two_spaces_per_level() {
    assert_eq!(indent_width(0), 0);
    assert_eq!(indent_width(1), 0);
    assert_eq!(indent_width(2), 2);
    assert_eq!(indent_width(5), 8);
}

#[test]
fn ledger_emits_found_and_coalesced_counts() {
    let mut ledger = ScanLedger::new(12);
    let mut counts = Vec::new();
    let mut found = 0;
    for i in 0..12 {
        let hit = if i == 3 { Some(project("a", "1.0KB")) } else { None };
        for e in ledger.finish_dir(i, hit) {
            match e {
                ScanProgress::Scanned(n) => counts.push(n),
                ScanProgress::Found(p) => {
                    assert_eq!(p.target_size, "1.0KB");
                    found += 1;
                },
                _ => panic!("unexpected event"),
            }
        }
    }
    assert_eq!(counts, vec![10, 12]);
    assert_eq!(found, 1);
    assert_eq!(ledger.scanned(), 12);
    assert_eq!(ledger.into_sorted().len(), 1);
}

#[test]
fn last_directory_on_a_multiple_of_ten_reports_twice() {
    let mut ledger = ScanLedger::new(10);
    let mut counts = Vec::new();
    for i in 0..10 {
        for e in ledger.finish_dir(i, None) {
            if let ScanProgress::Scanned(n) = e {
                counts.push(n);
            }
        }
    }
    assert_eq!(counts, vec![10, 10]);
}

#[test]
fn discovered_projects_sort_by_depth_then_path() {
    let v = vec![project("b/x", "1B"), project("c", "2B"), project("a/z/q", "3B"), project("a", "4B"), project("a/y", "5B")];
    let sorted = sort_projects(v);
    assert_eq!(paths(&sorted), vec![path("a"), path("c"), path("a/y"), path("b/x"), path("a/z/q")]);
    assert!(discovery_less(&project("z", "1B"), &project("a/a", "1B")));
    assert!(!discovery_less(&project("a", "1B"), &project("a", "1B")));
}

#[test]
fn discovery_is_the_same_whatever_the_completion_order() {
    let first = sort_projects(vec![project("b", "1B"), project("a", "2B"), project("a/c", "3B")]);
    let second = sort_projects(vec![project("a/c", "3B"), project("b", "1B"), project("a", "2B")]);
    assert_eq!(paths(&first), paths(&second));
    let sizes1: Vec<String> = first.iter().map(|p| p.target_size.clone()).collect();
    let sizes2: Vec<String> = second.iter().map(|p| p.target_size.clone()).collect();
    assert_eq!(sizes1, sizes2);
}

/// Root holds `A/` with a marker file and a 2 MiB build output, and `A/sub/`
/// without a marker.
#[test]
fn breadth_first_scan_finds_the_single_project() {
    let mut walker = TreeWalker::new(Strategy::BreadthFirst);
    while let Some(dir) = walker.next_dir() {
        let listing: Vec<Vec<u8>> = if dir.is_empty() {
            vec![b"A".to_vec()]
        } else if dir == path("A") {
            vec![b"target".to_vec(), b"sub".to_vec()]
        } else {
            Vec::new()
        };
        walker.advance(listing);
    }
    let dirs = walker.visited();
    assert_eq!(dirs, vec![path(""), path("A"), path("A/sub")]);
    let mut ledger = ScanLedger::new(dirs.len());
    let none: Vec<String> = Vec::new();
    for (i, d) in dirs.iter().enumerate() {
        assert!(should_inspect(d.len(), None, "/root", &none));
        let found = if *d == path("A") {
            let mut tally = SizeTally::new();
            tally.add(1_048_576);
            tally.add(1_048_576);
            Some(DiscoveredProject { path: d.clone(), target_size: tally.render() })
        } else {
            None
        };
        ledger.finish_dir(i, found);
    }
    let projects = ledger.into_sorted();
    assert_eq!(projects.len(), 1);
    assert_eq!(projects[0].path, path("A"));
    assert_eq!(projects[0].target_size, "2.0MB");
    assert_eq!(format_size(2_097_152), "2.0MB");
}
