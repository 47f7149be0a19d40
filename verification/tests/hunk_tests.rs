use git_lines::hunk::{FilteredContent, Hunk, ModifiedLines};
use git_lines::sel::LineSet;

fn ml(start: u32, lines: Vec<&str>, missing: bool) -> ModifiedLines {
    ModifiedLines {
        start,
        lines: lines.into_iter().map(|s| s.to_string()).collect(),
        missing_final_newline: missing,
    }
}

#[test]
fn render_pure_insertion() {
    let hunk = Hunk {
        old: ml(10, vec![], false),
        new: ml(11, vec!["new line here"], false),
    };
    assert_eq!(hunk.render(), "@@ -10,0 +11 @@\n+new line here\n");
}

#[test]
fn render_pure_deletion() {
    let hunk = Hunk {
        old: ml(10, vec!["old line removed"], false),
        new: ml(9, vec![], false),
    };
    assert_eq!(hunk.render(), "@@ -10 +9,0 @@\n-old line removed\n");
}

#[test]
fn render_single_line_replacement() {
    let hunk = Hunk {
        old: ml(10, vec!["old version"], false),
        new: ml(10, vec!["new version"], false),
    };
    assert_eq!(hunk.render(), "@@ -10 +10 @@\n-old version\n+new version\n");
}

#[test]
fn render_multi_line_change() {
    let hunk = Hunk {
        old: ml(10, vec!["first old line", "second old line"], false),
        new: ml(
            10,
            vec!["first new line", "second new line", "third new line"],
            false,
        ),
    };
    assert_eq!(
        hunk.render(),
        "@@ -10,2 +10,3 @@\n-first old line\n-second old line\n+first new line\n+second new line\n+third new line\n"
    );
}

#[test]
fn render_multiple_insertions() {
    let hunk = Hunk {
        old: ml(5, vec![], false),
        new: ml(6, vec!["line one", "line two"], false),
    };
    assert_eq!(hunk.render(), "@@ -5,0 +6,2 @@\n+line one\n+line two\n");
}

#[test]
fn render_multiple_deletions() {
    let hunk = Hunk {
        old: ml(15, vec!["removed one", "removed two"], false),
        new: ml(14, vec![], false),
    };
    assert_eq!(
        hunk.render(),
        "@@ -15,2 +14,0 @@\n-removed one\n-removed two\n"
    );
}

#[test]
fn parse_pure_insertion() {
    let input = "@@ -10,0 +11 @@\n+new line here";
    let expected = Hunk {
        old: ml(10, vec![], false),
        new: ml(11, vec!["new line here"], false),
    };
    let actual = Hunk::parse(input).unwrap();
    assert_eq!(actual, expected);
}

#[test]
fn parse_pure_deletion() {
    let input = "@@ -10 +9,0 @@\n-old line removed";
    let expected = Hunk {
        old: ml(10, vec!["old line removed"], false),
        new: ml(9, vec![], false),
    };
    let actual = Hunk::parse(input).unwrap();
    assert_eq!(actual, expected);
}

#[test]
fn parse_mixed_change() {
    let input = "@@ -10,2 +10,3 @@\n-first old\n-second old\n+first new\n+second new\n+third new";
    let expected = Hunk {
        old: ml(10, vec!["first old", "second old"], false),
        new: ml(10, vec!["first new", "second new", "third new"], false),
    };
    let actual = Hunk::parse(input).unwrap();
    assert_eq!(actual, expected);
}

#[test]
fn roundtrip_pure_insertion() {
    let original = "@@ -10,0 +11 @@\n+new line here\n";
    let hunk = Hunk::parse(original).unwrap();
    assert_eq!(hunk.render(), original);
}

#[test]
fn roundtrip_mixed_change() {
    let original = "@@ -10,2 +10,3 @@\n-first old\n-second old\n+first new\n+second new\n+third new\n";
    let hunk = Hunk::parse(original).unwrap();
    assert_eq!(hunk.render(), original);
}

#[test]
fn filter_single_addition_from_mixed() {
    let hunk = Hunk {
        old: ml(10, vec!["deleted one", "deleted two"], false),
        new: ml(10, vec!["added one", "added two", "added three"], false),
    };
    let filtered = hunk
        .filter(&LineSet::none(), &LineSet::single(12))
        .unwrap();
    assert!(filtered.deletions.is_empty());
    assert_eq!(filtered.additions, vec!["added three".to_string()]);
    assert_eq!(filtered.insertion_point, 10);
}

#[test]
fn filter_single_deletion_from_mixed() {
    let hunk = Hunk {
        old: ml(10, vec!["deleted one", "deleted two"], false),
        new: ml(10, vec!["added one", "added two"], false),
    };
    let filtered = hunk
        .filter(&LineSet::single(11), &LineSet::none())
        .unwrap();
    assert!(filtered.additions.is_empty());
    assert_eq!(filtered.deletions, vec![(11, "deleted two".to_string())]);
}

#[test]
fn hunk_filter_nothing_returns_none() {
    let hunk = Hunk {
        old: ml(10, vec!["deleted"], false),
        new: ml(10, vec!["added"], false),
    };
    let filtered = hunk.filter(&LineSet::none(), &LineSet::none());
    assert!(filtered.is_none());
}

#[test]
fn filter_subset_of_additions() {
    let hunk = Hunk {
        old: ml(9, vec![], false),
        new: ml(10, vec!["line ten", "line eleven", "line twelve"], false),
    };
    let filtered = hunk
        .filter(&LineSet::none(), &LineSet::span(11, u32::MAX))
        .unwrap();
    assert!(filtered.deletions.is_empty());
    assert_eq!(
        filtered.additions,
        vec!["line eleven".to_string(), "line twelve".to_string()]
    );
    assert_eq!(filtered.insertion_point, 9);
}

#[test]
fn parse_insertion_at_file_start() {
    let input = "@@ -0,0 +1,2 @@\n+# Header\n+# Second line";
    let expected = Hunk {
        old: ml(0, vec![], false),
        new: ml(1, vec!["# Header", "# Second line"], false),
    };
    let actual = Hunk::parse(input).unwrap();
    assert_eq!(actual, expected);
}

#[test]
fn render_insertion_at_file_start() {
    let hunk = Hunk {
        old: ml(0, vec![], false),
        new: ml(1, vec!["# First line"], false),
    };
    assert_eq!(hunk.render(), "@@ -0,0 +1 @@\n+# First line\n");
}

#[test]
fn parse_content_with_diff_markers() {
    let input = "@@ -5,0 +6,3 @@\n++++ this line starts with plus\n+--- this line starts with minus\n+@@ this looks like a header";
    let expected = Hunk {
        old: ml(5, vec![], false),
        new: ml(
            6,
            vec![
                "+++ this line starts with plus",
                "--- this line starts with minus",
                "@@ this looks like a header",
            ],
            false,
        ),
    };
    let actual = Hunk::parse(input).unwrap();
    assert_eq!(actual, expected);
}

#[test]
fn parse_empty_line_content() {
    let input = "@@ -10,0 +11,3 @@\n+first\n+\n+third";
    let expected = Hunk {
        old: ml(10, vec![], false),
        new: ml(11, vec!["first", "", "third"], false),
    };
    let actual = Hunk::parse(input).unwrap();
    assert_eq!(actual, expected);
}

#[test]
fn render_empty_line_content() {
    let hunk = Hunk {
        old: ml(10, vec![], false),
        new: ml(11, vec!["first", "", "third"], false),
    };
    assert_eq!(hunk.render(), "@@ -10,0 +11,3 @@\n+first\n+\n+third\n");
}

#[test]
fn filter_non_contiguous_additions() {
    let hunk = Hunk {
        old: ml(9, vec![], false),
        new: ml(10, vec!["ten", "eleven", "twelve", "thirteen"], false),
    };
    let filtered = hunk
        .filter(
            &LineSet::none(),
            &LineSet::from_ranges(vec![(10, 10), (12, 12)]),
        )
        .unwrap();
    assert!(filtered.deletions.is_empty());
    assert_eq!(
        filtered.additions,
        vec!["ten".to_string(), "twelve".to_string()]
    );
    assert_eq!(filtered.insertion_point, 9);
}

#[test]
fn filter_mixed_partial_selection() {
    let hunk = Hunk {
        old: ml(10, vec!["old one", "old two", "old three"], false),
        new: ml(10, vec!["new one", "new two", "new three"], false),
    };
    let filtered = hunk
        .filter(&LineSet::single(11), &LineSet::single(12))
        .unwrap();
    assert_eq!(filtered.deletions, vec![(11, "old two".to_string())]);
    assert_eq!(filtered.additions, vec!["new three".to_string()]);
    assert_eq!(filtered.insertion_point, 10);
}

#[test]
fn parse_old_missing_newline_only() {
    let input = "@@ -3 +3,2 @@\n-last line\n\\ No newline at end of file\n+last line\n+new final line";
    let expected = Hunk {
        old: ml(3, vec!["last line"], true),
        new: ml(3, vec!["last line", "new final line"], false),
    };
    let actual = Hunk::parse(input).unwrap();
    assert_eq!(actual, expected);
}

#[test]
fn parse_new_missing_newline_only() {
    let input = "@@ -3 +3 @@\n-old line\n+old line\n\\ No newline at end of file";
    let expected = Hunk {
        old: ml(3, vec!["old line"], false),
        new: ml(3, vec!["old line"], true),
    };
    let actual = Hunk::parse(input).unwrap();
    assert_eq!(actual, expected);
}

#[test]
fn parse_both_missing_newline() {
    let input = "@@ -3 +3 @@\n-old version\n\\ No newline at end of file\n+new version\n\\ No newline at end of file";
    let expected = Hunk {
        old: ml(3, vec!["old version"], true),
        new: ml(3, vec!["new version"], true),
    };
    let actual = Hunk::parse(input).unwrap();
    assert_eq!(actual, expected);
}

#[test]
fn roundtrip_old_missing_newline() {
    let original =
        "@@ -3 +3,2 @@\n-last line\n\\ No newline at end of file\n+last line\n+new final line\n";
    let hunk = Hunk::parse(original).unwrap();
    assert_eq!(hunk.render(), original);
}

#[test]
fn roundtrip_new_missing_newline() {
    let original = "@@ -3 +3 @@\n-old line\n+old line\n\\ No newline at end of file\n";
    let hunk = Hunk::parse(original).unwrap();
    assert_eq!(hunk.render(), original);
}

#[test]
fn roundtrip_both_missing_newline() {
    let original = "@@ -3 +3 @@\n-old version\n\\ No newline at end of file\n+new version\n\\ No newline at end of file\n";
    let hunk = Hunk::parse(original).unwrap();
    assert_eq!(hunk.render(), original);
}

#[test]
fn filter_preserves_missing_newline_when_last_kept() {
    let text = "@@ -5,0 +6,2 @@\n+first addition\n+second addition\n\\ No newline at end of file";
    let hunk = Hunk::parse(text).unwrap();
    let filtered = hunk.filter(&LineSet::none(), &LineSet::single(7)).unwrap();
    assert_eq!(filtered.additions, vec!["second addition".to_string()]);
    assert!(filtered.new_missing_newline);
}

#[test]
fn filter_clears_missing_newline_when_last_filtered() {
    let text = "@@ -5,0 +6,2 @@\n+first addition\n+second addition\n\\ No newline at end of file";
    let hunk = Hunk::parse(text).unwrap();
    let filtered = hunk.filter(&LineSet::none(), &LineSet::single(6)).unwrap();
    assert_eq!(filtered.additions, vec!["first addition".to_string()]);
    assert!(!filtered.new_missing_newline);
}

#[test]
fn filter_mixed_with_old_missing_newline() {
    let text = "@@ -10 +10 @@\n-old content\n\\ No newline at end of file\n+new content with newline";
    let hunk = Hunk::parse(text).unwrap();
    let filtered = hunk.filter(&LineSet::none(), &LineSet::single(10)).unwrap();
    assert!(filtered.deletions.is_empty());
    assert!(!filtered.old_missing_newline);
    assert_eq!(
        filtered.additions,
        vec!["new content with newline".to_string()]
    );
}

#[test]
fn bridge_synthesis_forces_separator() {
    // Old side lacks its newline; keeping only a later addition must pull
    // the old last line through as both a deletion and the first addition.
    let hunk = Hunk {
        old: ml(3, vec!["X"], true),
        new: ml(3, vec!["X", "Y", "Z"], false),
    };
    let filtered = hunk.filter(&LineSet::none(), &LineSet::single(5)).unwrap();
    assert_eq!(filtered.deletions, vec![(3, "X".to_string())]);
    assert_eq!(filtered.additions, vec!["X".to_string(), "Z".to_string()]);
    assert!(filtered.old_missing_newline);
    assert!(!filtered.new_missing_newline);
}

#[test]
fn filtered_content_fields_survive() {
    let fc = FilteredContent {
        insertion_point: 4,
        deletions: vec![(5, "a".to_string())],
        additions: vec!["b".to_string()],
        old_missing_newline: false,
        new_missing_newline: true,
    };
    assert_eq!(fc.insertion_point, 4);
    assert_eq!(fc.deletions.len(), 1);
    assert_eq!(fc.additions.len(), 1);
    assert!(fc.new_missing_newline);
}
