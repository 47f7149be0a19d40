use git_lines::file::FileDiff;
use git_lines::full::Diff;
use git_lines::hunk::{Hunk, ModifiedLines};
use git_lines::lines::{format_diff_output, parse_diff, parse_hunk_header};
use git_lines::sel::{LineSet, PathFilter};

fn ml(start: u32, lines: Vec<&str>, missing: bool) -> ModifiedLines {
    ModifiedLines {
        start,
        lines: lines.into_iter().map(|s| s.to_string()).collect(),
        missing_final_newline: missing,
    }
}

#[test]
fn filter_all_on_mixed_hunk_is_identity() {
    // A replacement hunk with aligned sides: keeping everything returns a
    // file diff equal to the input.
    let file_diff = FileDiff {
        path: "w.txt".to_string(),
        hunks: vec![Hunk {
            old: ml(7, vec!["old a", "old b"], false),
            new: ml(7, vec!["new a", "new b", "new c"], true),
        }],
    };
    let expected = FileDiff {
        path: "w.txt".to_string(),
        hunks: vec![Hunk {
            old: ml(7, vec!["old a", "old b"], false),
            new: ml(7, vec!["new a", "new b", "new c"], true),
        }],
    };
    let filtered = file_diff
        .filter(&LineSet::all(), &LineSet::all())
        .unwrap();
    assert_eq!(filtered, expected);
}

#[test]
fn retain_with_empty_selection_yields_no_files() {
    let text = "diff --git a/a.txt b/a.txt\n--- a/a.txt\n+++ b/a.txt\n@@ -1,0 +2 @@\n+x\ndiff --git a/b.txt b/b.txt\n--- a/b.txt\n+++ b/b.txt\n@@ -4 +3,0 @@\n-y\n";
    let diff = Diff::parse(text);
    assert_eq!(diff.files.len(), 2);
    let filtered = diff.retain(
        &PathFilter::AnyPath(LineSet::none()),
        &PathFilter::AnyPath(LineSet::none()),
    );
    assert_eq!(filtered.files.len(), 0);
}

#[test]
fn filtered_lines_are_drawn_from_the_input() {
    // Every kept deletion carries content from the old side with its true
    // number; the bridge addition is the old side's last line, all other
    // additions come from the new side.
    let hunk = Hunk {
        old: ml(20, vec!["alpha", "omega"], true),
        new: ml(20, vec!["omega", "beta", "gamma"], false),
    };
    let filtered = hunk
        .filter(&LineSet::single(20), &LineSet::single(22))
        .unwrap();
    // Kept deletion 20 is "alpha"; the bridge forces deletion 21 ("omega")
    // and prepends "omega" before the kept addition "gamma".
    assert_eq!(
        filtered.deletions,
        vec![(20, "alpha".to_string()), (21, "omega".to_string())]
    );
    assert_eq!(
        filtered.additions,
        vec!["omega".to_string(), "gamma".to_string()]
    );
    assert!(filtered.old_missing_newline);
}

#[test]
fn parse_diff_without_path_header() {
    let err = parse_diff("some text\nwith no header\n").unwrap_err();
    assert_eq!(err, "Could not find file path in diff");
}

#[test]
fn hunk_header_error_texts() {
    assert_eq!(
        parse_hunk_header("not a header").unwrap_err(),
        "Invalid hunk header format"
    );
    assert_eq!(
        parse_hunk_header("@@ -1 +1").unwrap_err(),
        "Invalid hunk header format"
    );
    assert_eq!(
        parse_hunk_header("@@ bad @@").unwrap_err(),
        "Invalid hunk header: bad @@"
    );
    assert_eq!(
        parse_hunk_header("@@ -x +1 @@").unwrap_err(),
        "Invalid line number in range: x"
    );
}

#[test]
fn format_diff_propagates_header_error() {
    let diff = "diff --git a/a b/a\n--- a/a\n+++ b/a\n@@ broken header @@\n+x\n";
    let err = format_diff_output(diff).unwrap_err();
    assert_eq!(err, "Invalid line number in range: broken");
}

#[test]
fn diff_roundtrip_two_files() {
    let fd = |path: &str, start: u32| FileDiff {
        path: path.to_string(),
        hunks: vec![Hunk {
            old: ml(start, vec!["gone"], false),
            new: ml(start, vec!["here", "also"], false),
        }],
    };
    let d = Diff {
        files: vec![fd("one.txt", 3), fd("two.txt", 8)],
    };
    let rendered = d.render();
    let reparsed = Diff::parse(&rendered);
    assert_eq!(reparsed.files.len(), 2);
    assert_eq!(reparsed.files[0], d.files[0]);
    assert_eq!(reparsed.files[1], d.files[1]);
}

#[test]
fn parse_rejects_malformed_hunk_section() {
    // A malformed hunk invalidates the whole file: strict at this level.
    let only_bad = "diff --git a/a.txt b/a.txt\n--- a/a.txt\n+++ b/a.txt\n@@ bogus @@\n+x\n";
    assert!(FileDiff::parse(only_bad).is_none());
    // Even a good hunk cannot save a file with a later malformed section.
    let mixed = "diff --git a/a.txt b/a.txt\n--- a/a.txt\n+++ b/a.txt\n@@ -1,0 +2 @@\n+x\n@@ broken\n+y\n";
    assert!(FileDiff::parse(mixed).is_none());
}

#[test]
fn diff_parse_skips_file_with_malformed_hunk() {
    // Parsing stays best-effort across files: the broken file is dropped,
    // the good one kept.
    let text = "diff --git a/bad.txt b/bad.txt\n--- a/bad.txt\n+++ b/bad.txt\n@@ nope @@\n+x\ndiff --git a/good.txt b/good.txt\n--- a/good.txt\n+++ b/good.txt\n@@ -1,0 +2 @@\n+y\n";
    let diff = Diff::parse(text);
    assert_eq!(diff.files.len(), 1);
    assert_eq!(diff.files[0].path, "good.txt");
    assert_eq!(diff.files[0].hunks.len(), 1);
}
