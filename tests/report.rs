use f_stats::cli::{parse_command, usage, Command};
use f_stats::report::{percent_hundredths, ranking, reference_total, report_rows};
use f_stats::walk::FolderStat;

fn row(path: &str, size: u64, files: usize) -> (String, FolderStat) {
    (path.to_string(), FolderStat { size, files })
}

#[test]
fn reference_total_is_the_largest_size() {
    let tbl = vec![row("a", 30, 2), row("r", 35, 3), row("b", 20, 1)];
    assert_eq!(reference_total(&tbl), 35);
    assert_eq!(reference_total(&Vec::new()), 0);
}

#[test]
fn ranking_goes_from_smallest_up() {
    let tbl = vec![row("r", 35, 3), row("a", 30, 2), row("b", 20, 1), row("e", 0, 0)];
    assert_eq!(ranking(&tbl), vec![3, 2, 1, 0]);
}

#[test]
fn ranking_with_equal_sizes_lists_each_row_once() {
    let tbl = vec![row("x", 5, 1), row("y", 5, 1), row("z", 1, 1)];
    let r = ranking(&tbl);
    assert_eq!(r[0], 2);
    let mut rest = vec![r[1], r[2]];
    rest.sort();
    assert_eq!(rest, vec![0, 1]);
}

#[test]
fn percent_is_rounded_to_hundredths() {
    assert_eq!(percent_hundredths(30, 35), Some(8571));
    assert_eq!(percent_hundredths(20, 35), Some(5714));
    assert_eq!(percent_hundredths(35, 35), Some(10000));
    assert_eq!(percent_hundredths(1, 8), Some(1250));
    assert_eq!(percent_hundredths(1, 20000), Some(1));
    assert_eq!(percent_hundredths(0, 7), Some(0));
    assert_eq!(percent_hundredths(u64::MAX, u64::MAX), Some(10000));
}

#[test]
fn percent_of_zero_total_is_none() {
    assert_eq!(percent_hundredths(0, 0), None);
}

#[test]
fn report_rows_of_scenario() {
    let tbl = vec![row("root", 35, 3), row("root/a", 30, 2), row("root/a/b", 20, 1)];
    let rows = report_rows(&tbl);
    let paths: Vec<&str> = rows.iter().map(|r| r.path.as_str()).collect();
    assert_eq!(paths, vec!["root/a/b", "root/a", "root"]);
    assert_eq!(rows[0].percent, Some(5714));
    assert_eq!(rows[1].percent, Some(8571));
    assert_eq!(rows[2].percent, Some(10000));
    assert_eq!(rows[2].files, 3);
    assert_eq!(rows[2].size_text, bytesize::ByteSize(35).to_string());
}

#[test]
fn report_sizes_are_human_readable() {
    let tbl = vec![row("r", 2048, 1)];
    let rows = report_rows(&tbl);
    assert_eq!(rows[0].size_text, bytesize::ByteSize(2048).to_string());
    assert_ne!(rows[0].size_text, "2048");
    assert!(rows[0].size_text.contains('K'));
}

#[test]
fn empty_sibling_keeps_the_largest_as_reference() {
    let tbl = vec![row("root", 35, 3), row("root/empty", 0, 0), row("root/a", 30, 2)];
    let rows = report_rows(&tbl);
    assert_eq!(rows[0].path, "root/empty");
    assert_eq!(rows[0].percent, Some(0));
    assert_eq!(rows[2].percent, Some(10000));
}

#[test]
fn rows_of_all_empty_tree_have_no_percent() {
    let tbl = vec![row("r", 0, 0)];
    let rows = report_rows(&tbl);
    assert_eq!(rows[0].percent, None);
}

#[test]
fn help_flags_give_the_same_command() {
    assert!(matches!(parse_command(Some("--help".to_string())), Command::Help));
    assert!(matches!(parse_command(Some("-h".to_string())), Command::Help));
}

#[test]
fn default_path_is_current_directory() {
    match parse_command(None) {
        Command::Scan(p) => assert_eq!(p, "."),
        Command::Help => panic!("expected a scan"),
    }
}

#[test]
fn given_path_is_scanned() {
    match parse_command(Some("/tmp/x".to_string())) {
        Command::Scan(p) => assert_eq!(p, "/tmp/x"),
        Command::Help => panic!("expected a scan"),
    }
    assert!(matches!(parse_command(Some("--helpme".to_string())), Command::Scan(_)));
}

#[test]
fn usage_has_two_lines() {
    assert_eq!(usage(), "Usage:\n\tf-stats <folder-name>\n");
}
