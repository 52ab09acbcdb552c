use clean_cargo_projects::size::{format_size, parse_size, SizeTally, SizeWalk};

#[test]
fn renders_whole_bytes_below_a_kilobyte() {
    assert_eq!(format_size(0), "0B");
    assert_eq!(format_size(1023), "1023B");
}

#[test]
fn renders_binary_magnitudes_with_one_decimal() {
    assert_eq!(format_size(1024), "1.0KB");
    assert_eq!(format_size(1536), "1.5KB");
    assert_eq!(format_size(2_097_152), "2.0MB");
    assert_eq!(format_size(524_288), "512.0KB");
    assert_eq!(format_size(1_073_741_824), "1.0GB");
    assert_eq!(format_size(5 * 1_099_511_627_776), "5120.0GB");
}

#[test]
fn rendering_truncates_the_decimal() {
    assert_eq!(format_size(2047), "1.9KB");
    assert_eq!(format_size(1_048_575), "1023.9KB");
}

#[test]
fn parses_sizes_in_any_case() {
    assert_eq!(parse_size("100MB"), Some(104_857_600));
    assert_eq!(parse_size("1gb"), Some(1_073_741_824));
    assert_eq!(parse_size("2.0MB"), Some(2_097_152));
    assert_eq!(parse_size("512.0KB"), Some(524_288));
    assert_eq!(parse_size(" 5 B "), Some(5));
    assert_eq!(parse_size("1.5kb"), Some(1536));
    assert_eq!(parse_size("1TB"), Some(1_099_511_627_776));
    assert_eq!(parse_size("0.5B"), Some(0));
}

#[test]
fn rejects_what_is_not_a_size() {
    assert_eq!(parse_size("abc"), None);
    assert_eq!(parse_size("MB"), None);
    assert_eq!(parse_size("1.2.3MB"), None);
    assert_eq!(parse_size("10XB"), None);
    assert_eq!(parse_size("10"), None);
}

#[test]
fn huge_sizes_are_held_at_the_maximum() {
    assert_eq!(parse_size("99999999999TB"), Some(u64::MAX));
}

#[test]
fn rendered_sizes_read_back() {
    for n in [0u64, 700, 1024, 3 * 1_048_576, 7 * 1_073_741_824] {
        assert_eq!(parse_size(&format_size(n)), Some(n));
    }
}

#[test]
fn tally_sums_file_sizes() {
    let mut t = SizeTally::new();
    t.add(1_048_576);
    t.add(1_048_576);
    t.add(0);
    assert_eq!(t.total, 2_097_152);
    assert_eq!(t.render(), "2.0MB");
    t.add(u64::MAX);
    assert_eq!(t.total, u64::MAX);
}

#[test]
fn size_walk_enters_every_subdirectory() {
    // root: 1000 bytes and sub `debug/` (with `target/` inside holding 2 MiB)
    let mut walk = SizeWalk::new();
    let mut listed = Vec::new();
    while let Some(dir) = walk.next_dir() {
        listed.push(dir.clone());
        if dir.is_empty() {
            walk.advance(vec![b"debug".to_vec()], vec![600, 400]);
        } else if dir == vec![b"debug".to_vec()] {
            walk.advance(vec![b"target".to_vec()], vec![]);
        } else {
            walk.advance(vec![], vec![1_048_576, 1_048_576]);
        }
    }
    assert_eq!(listed.len(), 3);
    assert_eq!(walk.total(), 2_098_152);
    assert_eq!(walk.render(), "2.0MB");
}
