use fmg::commands::{handle_list_command, ListArgs, ListRequest};
use fmg::file_ops::{
    error_line, flat_entry_line, list_directory, list_directory_tree,
    list_directory_tree_with_ancestors, name_text, DirListing, EntryInfo, Line, Metadata, TreeRow,
};
use fmg::formatter::{format_tree_prefix, hue_for_depth};
use fmg::logo::{FileManLogo, LogoConfig};
use fmg::paint::Hue;
use fmg::timestamp::{decimal_string, format_date_time, format_system_time, pad_string, CivilTime};

fn plain() {
    colored::control::set_override(false);
}

fn dir(name: &str) -> Result<EntryInfo, String> {
    Ok(EntryInfo {
        name: name.to_string(),
        is_dir: true,
        metadata: Ok(Metadata { is_dir: true, size: 4096, modified: Some(0) }),
    })
}

fn file(name: &str, size: u64) -> Result<EntryInfo, String> {
    Ok(EntryInfo {
        name: name.to_string(),
        is_dir: false,
        metadata: Ok(Metadata { is_dir: false, size, modified: Some(1_546_300_800) }),
    })
}

fn out_text(l: &Line) -> String {
    match l {
        Line::Stdout(t) => t.clone(),
        Line::Stderr(t) => panic!("expected a line for standard output, got error {}", t),
    }
}

fn row_text(r: &TreeRow) -> String {
    out_text(&r.line)
}

fn project_listing() -> DirListing {
    DirListing::Entries(vec![dir("src"), file("Cargo.toml", 120)])
}

#[test]
fn test_list_command() {
    plain();
    let lines = list_directory(".", &project_listing(), false).unwrap();
    assert_eq!(lines.len(), 2);
    assert_eq!(out_text(&lines[0]), "src");
    assert_eq!(out_text(&lines[1]), "Cargo.toml");
}

#[test]
fn test_list_with_path() {
    plain();
    let listing = DirListing::Entries(vec![file("main.rs", 10), file("lib.rs", 20)]);
    let lines = list_directory("src", &listing, false).unwrap();
    assert!(lines.iter().any(|l| out_text(l).contains("main.rs")));
}

#[test]
fn test_list_nonexistent_path() {
    plain();
    let r = list_directory("/definitely/missing", &DirListing::Missing, false);
    match r {
        Err(t) => {
            assert!(t.contains("does not exist"));
            assert_eq!(t, "Error: Path '/definitely/missing' does not exist.");
        }
        Ok(_) => panic!("a missing path gives no listing"),
    }
}

#[test]
fn not_a_directory_and_unreadable() {
    plain();
    let r = list_directory("f.txt", &DirListing::NotADirectory, true);
    assert_eq!(r.unwrap_err(), "Error: Path 'f.txt' is not a directory.");
    let r = list_directory_tree("d", &DirListing::Unreadable("denied".to_string()), false, 3);
    assert_eq!(r.unwrap_err(), "Error: Failed to read directory 'd': denied");
}

#[test]
fn test_list_long_format() {
    plain();
    let lines = list_directory(".", &project_listing(), true).unwrap();
    assert_eq!(out_text(&lines[0]), "d---------       4096 1970-01-01 00:00 src");
    assert_eq!(out_text(&lines[1]), "----------        120 2019-01-01 00:00 Cargo.toml");
}

#[test]
fn flat_entry_errors_do_not_stop_the_listing() {
    plain();
    let broken = Ok(EntryInfo {
        name: "ghost".to_string(),
        is_dir: false,
        metadata: Err("gone".to_string()),
    });
    let listing = DirListing::Entries(vec![
        Err("bad entry".to_string()),
        broken,
        file("kept", 1),
    ]);
    let lines = list_directory(".", &listing, true).unwrap();
    assert_eq!(lines.len(), 3);
    match &lines[0] {
        Line::Stderr(t) => assert_eq!(t, "Error: Failed to read entry: bad entry"),
        _ => panic!("expected an error line"),
    }
    match &lines[1] {
        Line::Stderr(t) => assert_eq!(t, "Error: Failed to get metadata for ghost: gone"),
        _ => panic!("expected an error line"),
    }
    assert!(out_text(&lines[2]).ends_with(" kept"));
}

#[test]
fn short_flat_line_uses_the_path_kind() {
    plain();
    let link = Ok(EntryInfo {
        name: "link".to_string(),
        is_dir: true,
        metadata: Ok(Metadata { is_dir: false, size: 7, modified: None }),
    });
    match flat_entry_line(&link, true) {
        Line::Stdout(t) => assert_eq!(t, "----------          7 ??? link"),
        _ => panic!("expected a listing line"),
    }
}

#[test]
fn test_list_tree() {
    plain();
    let rows = list_directory_tree(".", &project_listing(), false, usize::MAX).unwrap();
    assert_eq!(row_text(&rows[0]), "├── src");
    assert_eq!(row_text(&rows[1]), "└── Cargo.toml");
    assert_eq!(rows[0].descend, Some(vec![false]));
    assert_eq!(rows[1].descend, None);
}

#[test]
fn test_list_tree_long_format() {
    plain();
    let rows = list_directory_tree(".", &project_listing(), true, 2).unwrap();
    assert_eq!(row_text(&rows[0]), "├── d---------       4096 1970-01-01 00:00 src");
    assert_eq!(row_text(&rows[1]), "└── ----------        120 2019-01-01 00:00 Cargo.toml");
}

#[test]
fn test_list_tree_depth_1() {
    plain();
    // a/ holds x; b is a file. `--tree --depth 1` shows a and b but not x.
    let args = ListArgs { path: ".".to_string(), long: false, tree: true, depth: Some(1) };
    let max_depth = match handle_list_command(&args) {
        ListRequest::Tree { max_depth, .. } => max_depth,
        ListRequest::Flat { .. } => panic!("--tree asks for a tree"),
    };
    let root = DirListing::Entries(vec![dir("a"), file("b", 3)]);
    let inner = DirListing::Entries(vec![file("x", 1)]);
    let top = list_directory_tree(".", &root, false, max_depth).unwrap();
    let mut shown: Vec<String> = Vec::new();
    for row in &top {
        shown.push(row_text(row));
        if let Some(anc) = &row.descend {
            let below = list_directory_tree_with_ancestors("./a", &inner, false, max_depth, 1, anc)
                .unwrap();
            for r in &below {
                shown.push(row_text(r));
            }
        }
    }
    assert_eq!(shown, vec!["├── a", "└── b"]);
    assert!(top.iter().all(|r| r.descend.is_none()));
}

#[test]
fn test_list_tree_depth_2() {
    plain();
    let args = ListArgs { path: ".".to_string(), long: false, tree: true, depth: Some(2) };
    let max_depth = match handle_list_command(&args) {
        ListRequest::Tree { max_depth, .. } => max_depth,
        ListRequest::Flat { .. } => panic!("--tree asks for a tree"),
    };
    let root = DirListing::Entries(vec![dir("a"), file("b", 3)]);
    let top = list_directory_tree(".", &root, false, max_depth).unwrap();
    assert_eq!(top[0].descend, Some(vec![false]));
    let inner = DirListing::Entries(vec![dir("y")]);
    let below = list_directory_tree_with_ancestors("./a", &inner, false, max_depth, 1, &vec![false])
        .unwrap();
    assert_eq!(row_text(&below[0]), "│   └── y");
    assert_eq!(below[0].descend, None);
}

#[test]
fn tree_without_bound_renders_three_lines() {
    plain();
    let root = DirListing::Entries(vec![dir("a"), file("b", 3)]);
    let inner = DirListing::Entries(vec![file("x", 1)]);
    let top = list_directory_tree(".", &root, false, usize::MAX).unwrap();
    let mut shown: Vec<String> = Vec::new();
    for row in &top {
        shown.push(row_text(row));
        if let Some(anc) = &row.descend {
            let below = list_directory_tree_with_ancestors("./a", &inner, false, usize::MAX, 1, anc)
                .unwrap();
            for r in &below {
                shown.push(row_text(r));
            }
        }
    }
    assert_eq!(shown, vec!["├── a", "│   └── x", "└── b"]);
}

#[test]
fn tree_past_the_ceiling_shows_nothing() {
    plain();
    let rows = list_directory_tree_with_ancestors(".", &project_listing(), false, 1, 2, &vec![])
        .unwrap();
    assert!(rows.is_empty());
    let rows = list_directory_tree_with_ancestors(".", &DirListing::Missing, false, 1, 2, &vec![])
        .unwrap();
    assert!(rows.is_empty());
}

#[test]
fn failed_last_entry_moves_the_corner() {
    plain();
    let listing = DirListing::Entries(vec![file("one", 1), file("two", 2), Err("io".to_string())]);
    let rows = list_directory_tree(".", &listing, false, 4).unwrap();
    assert_eq!(rows.len(), 2);
    assert_eq!(rows.iter().filter(|r| r.is_last).count(), 1);
    assert!(rows[1].is_last);
    assert_eq!(rows[1].entry, 1);
    assert_eq!(row_text(&rows[1]), "└── two");
}

#[test]
fn tree_metadata_failure_still_descends() {
    plain();
    let d = Ok(EntryInfo {
        name: "locked".to_string(),
        is_dir: true,
        metadata: Err("denied".to_string()),
    });
    let rows = list_directory_tree(".", &DirListing::Entries(vec![d]), true, 3).unwrap();
    match &rows[0].line {
        Line::Stderr(t) => assert_eq!(t, "Error: Failed to get metadata for locked: denied"),
        _ => panic!("expected an error line"),
    }
    assert_eq!(rows[0].descend, Some(vec![true]));
}

#[test]
fn test_ls_tree() {
    plain();
    let anc = vec![true, false];
    let rows = list_directory_tree_with_ancestors("p", &project_listing(), false, 9, 2, &anc).unwrap();
    assert_eq!(row_text(&rows[0]), "    │   ├── src");
    assert_eq!(row_text(&rows[1]), "    │   └── Cargo.toml");
    assert_eq!(rows[0].descend, Some(vec![true, false, false]));
}

#[test]
fn prefix_width_is_four_per_level() {
    plain();
    for n in 0..6usize {
        let anc: Vec<bool> = (0..n).map(|i| i % 2 == 0).collect();
        for last in [true, false] {
            let p = format_tree_prefix(last, &anc, n);
            assert_eq!(p.chars().count(), 4 * n + 4);
        }
    }
}

#[test]
fn prefix_ends_with_its_connector() {
    plain();
    let anc = vec![false, true, false];
    let last = format_tree_prefix(true, &anc, 3);
    let mid = format_tree_prefix(false, &anc, 3);
    assert_eq!(last, "│       │   └── ");
    assert_eq!(mid, "│       │   ├── ");
    assert!(!last[..last.len() - "└── ".len()].contains('└'));
    assert!(!mid[..mid.len() - "├── ".len()].contains('├'));
}

#[test]
fn prefix_is_coloured_by_depth() {
    colored::control::set_override(true);
    let p = format_tree_prefix(true, &[false], 1);
    assert_eq!(p, "\x1B[32m│   \x1B[0m\x1B[32m└── \x1B[0m");
    let q = format_tree_prefix(false, &[], 6);
    assert_eq!(q, "\x1B[34m├── \x1B[0m");
    colored::control::set_override(false);
}

#[test]
fn names_are_coloured_by_kind() {
    colored::control::set_override(true);
    assert_eq!(name_text("src", true), "\x1B[1;34msrc\x1B[0m");
    assert_eq!(name_text("a.rs", false), "\x1B[32ma.rs\x1B[0m");
    assert_eq!(error_line("oops"), "\x1B[1;31mError:\x1B[0m oops");
    colored::control::set_override(false);
}

#[test]
fn depth_palette_cycles() {
    assert_eq!(hue_for_depth(0), Hue::Blue);
    assert_eq!(hue_for_depth(1), Hue::Green);
    assert_eq!(hue_for_depth(2), Hue::Yellow);
    assert_eq!(hue_for_depth(3), Hue::Magenta);
    assert_eq!(hue_for_depth(4), Hue::Cyan);
    assert_eq!(hue_for_depth(5), Hue::Red);
    assert_eq!(hue_for_depth(6), Hue::Blue);
}

#[test]
fn timestamps() {
    assert_eq!(format_system_time(Some(0)), "1970-01-01 00:00");
    assert_eq!(format_system_time(Some(1_546_300_800)), "2019-01-01 00:00");
    assert_eq!(format_system_time(Some(1_700_000_000)), "2023-11-14 22:13");
    assert_eq!(format_system_time(Some(253_402_300_799)), "9999-12-31 23:59");
    assert_eq!(format_system_time(Some(253_402_300_800)), "???");
    assert_eq!(format_system_time(Some(u64::MAX)), "???");
    assert_eq!(format_system_time(None), "???");
}

#[test]
fn timestamps_are_deterministic() {
    let a = format_system_time(Some(86_399));
    let b = format_system_time(Some(86_399));
    assert_eq!(a, b);
    assert_eq!(a, "1970-01-01 23:59");
}

#[test]
fn calendar_fields_are_zero_padded() {
    let c = CivilTime { year: 987, month: 3, day: 4, hour: 5, minute: 6 };
    assert_eq!(format_date_time(&c), "0987-03-04 05:06");
    let c = CivilTime { year: -5, month: 12, day: 31, hour: 23, minute: 59 };
    assert_eq!(format_date_time(&c), "-005-12-31 23:59");
}

#[test]
fn numbers_in_decimal() {
    assert_eq!(decimal_string(0), "0");
    assert_eq!(decimal_string(4096), "4096");
    assert_eq!(decimal_string(u64::MAX), "18446744073709551615");
    assert_eq!(pad_string("42", 5, " "), "   42");
    assert_eq!(pad_string("123456", 3, "0"), "123456");
}

#[test]
fn list_command_choices() {
    let args = ListArgs { path: "src".to_string(), long: true, tree: false, depth: None };
    assert_eq!(handle_list_command(&args), ListRequest::Flat { path: "src".to_string(), long: true });
    let args = ListArgs { path: ".".to_string(), long: false, tree: true, depth: None };
    assert_eq!(
        handle_list_command(&args),
        ListRequest::Tree { path: ".".to_string(), long: false, max_depth: usize::MAX }
    );
    let args = ListArgs { path: ".".to_string(), long: false, tree: true, depth: Some(3) };
    assert_eq!(
        handle_list_command(&args),
        ListRequest::Tree { path: ".".to_string(), long: false, max_depth: 2 }
    );
    let args = ListArgs { path: ".".to_string(), long: false, tree: true, depth: Some(0) };
    assert_eq!(
        handle_list_command(&args),
        ListRequest::Tree { path: ".".to_string(), long: false, max_depth: 0 }
    );
}

#[test]
fn test_print_logo() {
    let config = LogoConfig::default();
    let lines = FileManLogo::lines(&config);
    assert_eq!(lines.len(), 10);
    assert_eq!(lines[0], "\x1B[38;5;208m");
    assert_eq!(lines[9], "\x1B[0m");
    assert!(lines[8].contains("File Manager CLI"));
    let mut no_color_config = LogoConfig::default();
    no_color_config.colored = false;
    let lines = FileManLogo::lines(&no_color_config);
    assert_eq!(lines.len(), 8);
    assert_eq!(lines[0], " ██████╗ ███████╗ ██████╗ ██████╗ ███████╗");
}
