use git_lines::full::Diff;
use git_lines::sel::{LineSet, PathFilter};

fn by_path(entries: Vec<(&str, LineSet)>) -> PathFilter {
    PathFilter::ByPath(
        entries
            .into_iter()
            .map(|(p, ls)| (p.to_string(), ls))
            .collect(),
    )
}

fn nothing() -> PathFilter {
    PathFilter::AnyPath(LineSet::none())
}

#[test]
fn parse_empty_diff() {
    let diff = Diff::parse("");
    assert_eq!(diff.files.len(), 0);
}

#[test]
fn parse_single_file() {
    let text = "diff --git a/flake.nix b/flake.nix\nindex abc1234..def5678 100644\n--- a/flake.nix\n+++ b/flake.nix\n@@ -136,0 +137 @@\n+      debug = true;\n";
    let diff = Diff::parse(text);
    assert_eq!(diff.files.len(), 1);
    assert_eq!(diff.files[0].path, "flake.nix");
    assert_eq!(diff.files[0].hunks.len(), 1);
}

#[test]
fn parse_multiple_files() {
    let text = "diff --git a/flake.nix b/flake.nix\nindex abc1234..def5678 100644\n--- a/flake.nix\n+++ b/flake.nix\n@@ -136,0 +137 @@\n+      debug = true;\ndiff --git a/gtk.nix b/gtk.nix\nindex 111..222 100644\n--- a/gtk.nix\n+++ b/gtk.nix\n@@ -11,0 +12 @@\n+    gtk.cursorTheme.size = 24;\n";
    let diff = Diff::parse(text);
    assert_eq!(diff.files.len(), 2);
    assert_eq!(diff.files[0].path, "flake.nix");
    assert_eq!(diff.files[1].path, "gtk.nix");
}

#[test]
fn retain_single_file() {
    let text = "diff --git a/config.nix b/config.nix\nindex fa2da6e..41114ff 100644\n--- a/config.nix\n+++ b/config.nix\n@@ -2,0 +3 @@ line 2\n+# FIRST INSERTION\n@@ -8,0 +10 @@ line 8\n+# SECOND INSERTION\n";
    let diff = Diff::parse(text);
    let filtered = diff.retain(
        &nothing(),
        &by_path(vec![("config.nix", LineSet::single(10))]),
    );
    assert_eq!(filtered.files.len(), 1);
    assert_eq!(filtered.files[0].hunks.len(), 1);
    assert_eq!(filtered.files[0].hunks[0].old.start, 8);
    assert_eq!(filtered.files[0].hunks[0].new.start, 9);
}

#[test]
fn retain_from_multiple_files() {
    let text = "diff --git a/flake.nix b/flake.nix\nindex abc1234..def5678 100644\n--- a/flake.nix\n+++ b/flake.nix\n@@ -136,0 +137 @@\n+      debug = true;\ndiff --git a/gtk.nix b/gtk.nix\nindex 111..222 100644\n--- a/gtk.nix\n+++ b/gtk.nix\n@@ -11,0 +12 @@\n+    gtk.cursorTheme.size = 24;\n";
    let diff = Diff::parse(text);
    let filtered = diff.retain(
        &nothing(),
        &by_path(vec![
            ("flake.nix", LineSet::single(137)),
            ("gtk.nix", LineSet::single(12)),
        ]),
    );
    assert_eq!(filtered.files.len(), 2);
    assert_eq!(filtered.files[0].path, "flake.nix");
    assert_eq!(filtered.files[1].path, "gtk.nix");
}

#[test]
fn retain_filters_out_empty_files() {
    let text = "diff --git a/flake.nix b/flake.nix\nindex abc1234..def5678 100644\n--- a/flake.nix\n+++ b/flake.nix\n@@ -136,0 +137 @@\n+      debug = true;\ndiff --git a/gtk.nix b/gtk.nix\nindex 111..222 100644\n--- a/gtk.nix\n+++ b/gtk.nix\n@@ -11,0 +12 @@\n+    gtk.cursorTheme.size = 24;\n";
    let diff = Diff::parse(text);
    let filtered = diff.retain(
        &nothing(),
        &by_path(vec![("flake.nix", LineSet::single(137))]),
    );
    assert_eq!(filtered.files.len(), 1);
    assert_eq!(filtered.files[0].path, "flake.nix");
}

#[test]
fn render_multiple_files() {
    let text = "diff --git a/flake.nix b/flake.nix\nindex abc1234..def5678 100644\n--- a/flake.nix\n+++ b/flake.nix\n@@ -136,0 +137 @@\n+      debug = true;\ndiff --git a/gtk.nix b/gtk.nix\nindex 111..222 100644\n--- a/gtk.nix\n+++ b/gtk.nix\n@@ -11,0 +12 @@\n+    gtk.cursorTheme.size = 24;\n";
    let diff = Diff::parse(text);
    let rendered = diff.render();
    assert!(rendered.contains("--- a/flake.nix"));
    assert!(rendered.contains("+++ b/flake.nix"));
    assert!(rendered.contains("@@ -136,0 +137 @@"));
    assert!(rendered.contains("+      debug = true;"));
    assert!(rendered.contains("--- a/gtk.nix"));
    assert!(rendered.contains("+++ b/gtk.nix"));
    assert!(rendered.contains("@@ -11,0 +12 @@"));
    assert!(rendered.contains("+    gtk.cursorTheme.size = 24;"));
}

#[test]
fn cumulative_offset_two_insertions() {
    // First hunk inserts two lines after old line 3 (new lines 4 and 5);
    // the second inserts after old line 7 (new lines 10 and 11). Keeping
    // new line 4 and new line 10 must drop the second hunk's start to 9,
    // because the first hunk now contributes only one line.
    let text = "diff --git a/t.txt b/t.txt\n--- a/t.txt\n+++ b/t.txt\n@@ -3,0 +4,2 @@\n+NEW1\n+NEW2\n@@ -7,0 +10,2 @@\n+NEW3\n+NEW4\n";
    let diff = Diff::parse(text);
    let filtered = diff.retain(
        &nothing(),
        &by_path(vec![(
            "t.txt",
            LineSet::from_ranges(vec![(4, 4), (10, 10)]),
        )]),
    );
    assert_eq!(filtered.files.len(), 1);
    let f = &filtered.files[0];
    assert_eq!(f.hunks.len(), 2);
    assert_eq!(f.hunks[0].old.start, 3);
    assert_eq!(f.hunks[0].new.start, 4);
    assert_eq!(f.hunks[0].new.lines, vec!["NEW1"]);
    assert_eq!(f.hunks[1].old.start, 7);
    assert_eq!(f.hunks[1].new.start, 9);
    assert_eq!(f.hunks[1].new.lines, vec!["NEW3"]);
    assert!(f
        .render()
        .contains("@@ -3,0 +4 @@\n+NEW1\n@@ -7,0 +9 @@\n+NEW3\n"));
}

#[test]
fn end_to_end_second_insertion_renumbered() {
    // Selecting only the second hunk's line must render its start
    // recomputed from 10 to 9 once the first hunk's contribution is gone.
    let text = "diff --git a/config.nix b/config.nix\n--- a/config.nix\n+++ b/config.nix\n@@ -2,0 +3 @@\n+# FIRST\n@@ -8,0 +10 @@\n+# SECOND\n";
    let diff = Diff::parse(text);
    let filtered = diff.retain(
        &nothing(),
        &by_path(vec![("config.nix", LineSet::single(10))]),
    );
    assert_eq!(
        filtered.render(),
        "diff --git a/config.nix b/config.nix\n--- a/config.nix\n+++ b/config.nix\n@@ -8,0 +9 @@\n+# SECOND\n"
    );
}
