use git_lines::file::FileDiff;
use git_lines::hunk::{Hunk, ModifiedLines};
use git_lines::sel::LineSet;

fn ml(start: u32, lines: Vec<&str>, missing: bool) -> ModifiedLines {
    ModifiedLines {
        start,
        lines: lines.into_iter().map(|s| s.to_string()).collect(),
        missing_final_newline: missing,
    }
}

#[test]
fn parse_single_hunk() {
    let diff = "diff --git a/flake.nix b/flake.nix\nindex abc1234..def5678 100644\n--- a/flake.nix\n+++ b/flake.nix\n@@ -136,0 +137 @@\n+      debug = true;\n";
    let file_diff = FileDiff::parse(diff).unwrap();
    assert_eq!(file_diff.path, "flake.nix");
    assert_eq!(file_diff.hunks.len(), 1);
    assert_eq!(file_diff.hunks[0].old.start, 136);
    assert_eq!(file_diff.hunks[0].new.start, 137);
    assert_eq!(file_diff.hunks[0].new.lines, vec!["      debug = true;"]);
}

#[test]
fn parse_multiple_hunks() {
    let diff = "diff --git a/config.nix b/config.nix\nindex fa2da6e..41114ff 100644\n--- a/config.nix\n+++ b/config.nix\n@@ -2,0 +3 @@ line 2\n+# FIRST INSERTION\n@@ -8,0 +10 @@ line 8\n+# SECOND INSERTION\n";
    let file_diff = FileDiff::parse(diff).unwrap();
    assert_eq!(file_diff.path, "config.nix");
    assert_eq!(file_diff.hunks.len(), 2);

    assert_eq!(file_diff.hunks[0].old.start, 2);
    assert_eq!(file_diff.hunks[0].new.start, 3);
    assert_eq!(file_diff.hunks[0].new.lines, vec!["# FIRST INSERTION"]);

    assert_eq!(file_diff.hunks[1].old.start, 8);
    assert_eq!(file_diff.hunks[1].new.start, 10);
    assert_eq!(file_diff.hunks[1].new.lines, vec!["# SECOND INSERTION"]);
}

#[test]
fn render_single_hunk() {
    let file_diff = FileDiff {
        path: "test.nix".to_string(),
        hunks: vec![Hunk {
            old: ml(10, vec![], false),
            new: ml(11, vec!["new line"], false),
        }],
    };
    assert_eq!(
        file_diff.render(),
        "diff --git a/test.nix b/test.nix\n--- a/test.nix\n+++ b/test.nix\n@@ -10,0 +11 @@\n+new line\n"
    );
}

#[test]
fn render_multiple_hunks() {
    let file_diff = FileDiff {
        path: "config.nix".to_string(),
        hunks: vec![
            Hunk {
                old: ml(2, vec![], false),
                new: ml(3, vec!["# FIRST"], false),
            },
            Hunk {
                old: ml(8, vec![], false),
                new: ml(10, vec!["# SECOND"], false),
            },
        ],
    };
    assert_eq!(
        file_diff.render(),
        "diff --git a/config.nix b/config.nix\n--- a/config.nix\n+++ b/config.nix\n@@ -2,0 +3 @@\n+# FIRST\n@@ -8,0 +10 @@\n+# SECOND\n"
    );
}

#[test]
fn roundtrip_single_hunk() {
    let file_diff = FileDiff {
        path: "test.nix".to_string(),
        hunks: vec![Hunk {
            old: ml(10, vec![], false),
            new: ml(11, vec!["new line"], false),
        }],
    };
    let rendered = file_diff.render();
    let reparsed = FileDiff::parse(&rendered).unwrap();
    assert_eq!(reparsed.path, file_diff.path);
    assert_eq!(reparsed.hunks.len(), 1);
    assert_eq!(reparsed.hunks[0].old.start, 10);
    assert_eq!(reparsed.hunks[0].new.start, 11);
    assert_eq!(reparsed.hunks[0].new.lines, vec!["new line"]);
}

#[test]
fn roundtrip_multiple_hunks() {
    let file_diff = FileDiff {
        path: "config.nix".to_string(),
        hunks: vec![
            Hunk {
                old: ml(2, vec![], false),
                new: ml(3, vec!["# FIRST"], false),
            },
            Hunk {
                old: ml(8, vec![], false),
                new: ml(10, vec!["# SECOND"], false),
            },
        ],
    };
    let rendered = file_diff.render();
    let reparsed = FileDiff::parse(&rendered).unwrap();
    assert_eq!(reparsed.path, file_diff.path);
    assert_eq!(reparsed.hunks.len(), 2);
    assert_eq!(reparsed.hunks[0].old.start, 2);
    assert_eq!(reparsed.hunks[0].new.start, 3);
    assert_eq!(reparsed.hunks[1].old.start, 8);
    assert_eq!(reparsed.hunks[1].new.start, 10);
}

#[test]
fn filter_second_hunk_only() {
    let file_diff = FileDiff {
        path: "config.nix".to_string(),
        hunks: vec![
            Hunk {
                old: ml(2, vec![], false),
                new: ml(3, vec!["# FIRST"], false),
            },
            Hunk {
                old: ml(8, vec![], false),
                new: ml(10, vec!["# SECOND"], false),
            },
        ],
    };
    let filtered = file_diff
        .filter(&LineSet::none(), &LineSet::single(10))
        .unwrap();
    assert_eq!(filtered.path, "config.nix");
    assert_eq!(filtered.hunks.len(), 1);
    assert_eq!(filtered.hunks[0].old.start, 8);
    // The new start is recomputed: old start + 1 = 8 + 1 = 9.
    assert_eq!(filtered.hunks[0].new.start, 9);
    assert_eq!(filtered.hunks[0].new.lines, vec!["# SECOND"]);
    assert_eq!(
        filtered.render(),
        "diff --git a/config.nix b/config.nix\n--- a/config.nix\n+++ b/config.nix\n@@ -8,0 +9 @@\n+# SECOND\n"
    );
}

#[test]
fn filter_from_multiple_hunks_adjusts_line_numbers() {
    // Two insertion hunks; keeping one line of each must shift the second
    // hunk's new-side start by the line the first hunk no longer adds.
    let file_diff = FileDiff {
        path: "test.txt".to_string(),
        hunks: vec![
            Hunk {
                old: ml(3, vec![], false),
                new: ml(4, vec!["NEW 1", "NEW 2"], false),
            },
            Hunk {
                old: ml(7, vec![], false),
                new: ml(10, vec!["NEW 3", "NEW 4"], false),
            },
        ],
    };
    let filtered = file_diff
        .filter(
            &LineSet::none(),
            &LineSet::from_ranges(vec![(4, 4), (10, 10)]),
        )
        .unwrap();
    let expected = FileDiff {
        path: "test.txt".to_string(),
        hunks: vec![
            Hunk {
                old: ml(3, vec![], false),
                new: ml(4, vec!["NEW 1"], false),
            },
            Hunk {
                old: ml(7, vec![], false),
                new: ml(9, vec!["NEW 3"], false),
            },
        ],
    };
    assert_eq!(filtered, expected);
}

#[test]
fn file_filter_nothing_returns_none() {
    let file_diff = FileDiff {
        path: "test.nix".to_string(),
        hunks: vec![Hunk {
            old: ml(10, vec![], false),
            new: ml(11, vec!["line"], false),
        }],
    };
    let filtered = file_diff.filter(&LineSet::none(), &LineSet::none());
    assert!(filtered.is_none());
}

#[test]
fn parse_no_newline_at_eof_marker() {
    let diff = "diff --git a/config.nix b/config.nix\nindex 79e51de..88ee0b1 100644\n--- a/config.nix\n+++ b/config.nix\n@@ -3 +3,2 @@ line 2\n-no newline\n\\ No newline at end of file\n+no newline\n+new line\n\\ No newline at end of file\n";
    let file_diff = FileDiff::parse(diff).unwrap();
    assert_eq!(file_diff.path, "config.nix");
    assert_eq!(file_diff.hunks.len(), 1);
    assert_eq!(
        file_diff.render(),
        "diff --git a/config.nix b/config.nix\n--- a/config.nix\n+++ b/config.nix\n@@ -3 +3,2 @@\n-no newline\n\\ No newline at end of file\n+no newline\n+new line\n\\ No newline at end of file\n"
    );
}

#[test]
fn deletion_splitting_non_contiguous() {
    // A deletion-only hunk over old lines 10 to 14; keeping 11, 12 and 14
    // must split into two hunks: one for 11..=12, one for 14.
    let file_diff = FileDiff {
        path: "a.txt".to_string(),
        hunks: vec![Hunk {
            old: ml(10, vec!["l10", "l11", "l12", "l13", "l14"], false),
            new: ml(9, vec![], false),
        }],
    };
    let filtered = file_diff
        .filter(
            &LineSet::from_ranges(vec![(11, 12), (14, 14)]),
            &LineSet::none(),
        )
        .unwrap();
    assert_eq!(filtered.hunks.len(), 2);
    assert_eq!(filtered.hunks[0].old.start, 11);
    assert_eq!(filtered.hunks[0].old.lines, vec!["l11", "l12"]);
    assert_eq!(filtered.hunks[0].new.start, 10);
    assert!(filtered.hunks[0].new.lines.is_empty());
    assert_eq!(filtered.hunks[1].old.start, 14);
    assert_eq!(filtered.hunks[1].old.lines, vec!["l14"]);
    // Two lines were already removed by the first output hunk.
    assert_eq!(filtered.hunks[1].new.start, 11);
}
