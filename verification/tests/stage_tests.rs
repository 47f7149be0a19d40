use git_lines::refs::{parse_file_refs, FileLineRefs, LineRef};
use git_lines::stage::{stage_patch, StageError};

#[test]
fn stage_selects_single_addition() {
    let diff = "diff --git a/flake.nix b/flake.nix\nindex abc1234..def5678 100644\n--- a/flake.nix\n+++ b/flake.nix\n@@ -136,0 +137 @@\n+      debug = true;\n";
    let refs = parse_file_refs("flake.nix:137").unwrap();
    let patch = stage_patch(diff, &refs).unwrap();
    assert_eq!(
        patch,
        "diff --git a/flake.nix b/flake.nix\n--- a/flake.nix\n+++ b/flake.nix\n@@ -136,0 +137 @@\n+      debug = true;\n"
    );
}

#[test]
fn stage_renumbers_second_hunk() {
    let diff = "diff --git a/config.nix b/config.nix\n--- a/config.nix\n+++ b/config.nix\n@@ -2,0 +3 @@\n+# FIRST\n@@ -8,0 +10 @@\n+# SECOND\n";
    let refs = parse_file_refs("config.nix:10").unwrap();
    let patch = stage_patch(diff, &refs).unwrap();
    assert_eq!(
        patch,
        "diff --git a/config.nix b/config.nix\n--- a/config.nix\n+++ b/config.nix\n@@ -8,0 +9 @@\n+# SECOND\n"
    );
}

#[test]
fn stage_blank_diff_reports_no_changes() {
    let refs = FileLineRefs {
        file: "a.txt".to_string(),
        refs: vec![LineRef::Add(1)],
    };
    let err = stage_patch("  \n ", &refs).unwrap_err();
    assert!(matches!(err, StageError::NoChanges { ref file } if file == "a.txt"));
}

#[test]
fn stage_no_match_reports_no_matching_lines() {
    let diff = "diff --git a/a.txt b/a.txt\n--- a/a.txt\n+++ b/a.txt\n@@ -1,0 +2 @@\n+x\n";
    let refs = FileLineRefs {
        file: "a.txt".to_string(),
        refs: vec![LineRef::Add(99)],
    };
    let err = stage_patch(diff, &refs).unwrap_err();
    assert!(matches!(err, StageError::NoMatchingLines { ref file } if file == "a.txt"));
}

#[test]
fn stage_mixed_deletions_and_additions() {
    let diff = "diff --git a/gtk.nix b/gtk.nix\n--- a/gtk.nix\n+++ b/gtk.nix\n@@ -10,2 +10,3 @@\n-    gtk.theme.name = \"Adwaita\";\n-    gtk.iconTheme.name = \"Papirus\";\n+    # Theme managed by Stylix\n+    gtk.iconTheme.name = \"Papirus-Dark\";\n+    gtk.cursorTheme.size = 24;\n";
    let refs = parse_file_refs("gtk.nix:-10,10").unwrap();
    let patch = stage_patch(diff, &refs).unwrap();
    assert!(patch.contains("-    gtk.theme.name = \"Adwaita\";"));
    assert!(patch.contains("+    # Theme managed by Stylix"));
    assert!(!patch.contains("Papirus-Dark"));
    assert!(!patch.contains("cursorTheme"));
}

#[test]
fn stage_bridge_scenario() {
    // The old side's last line lacks its newline; staging only the last
    // new line must carry the old line through as deletion and first
    // addition, keeping the old-side marker.
    let diff = "diff --git a/c.txt b/c.txt\n--- a/c.txt\n+++ b/c.txt\n@@ -3 +3,3 @@\n-X\n\\ No newline at end of file\n+X\n+Y\n+Z\n";
    let refs = parse_file_refs("c.txt:5").unwrap();
    let patch = stage_patch(diff, &refs).unwrap();
    assert_eq!(
        patch,
        "diff --git a/c.txt b/c.txt\n--- a/c.txt\n+++ b/c.txt\n@@ -3 +3,2 @@\n-X\n\\ No newline at end of file\n+X\n+Z\n"
    );
}

#[test]
fn stage_non_contiguous_deletion_split() {
    // Deletion-only hunk over old lines 10..=14; keeping 11, 12 and 14
    // must produce two hunks.
    let diff = "diff --git a/d.txt b/d.txt\n--- a/d.txt\n+++ b/d.txt\n@@ -10,5 +9,0 @@\n-l10\n-l11\n-l12\n-l13\n-l14\n";
    let refs = parse_file_refs("d.txt:-11,-12,-14").unwrap();
    let patch = stage_patch(diff, &refs).unwrap();
    assert_eq!(
        patch,
        "diff --git a/d.txt b/d.txt\n--- a/d.txt\n+++ b/d.txt\n@@ -11,2 +10,0 @@\n-l11\n-l12\n@@ -14 +11,0 @@\n-l14\n"
    );
}

#[test]
fn stage_error_messages() {
    let refs = FileLineRefs {
        file: "a.txt".to_string(),
        refs: vec![LineRef::Add(1)],
    };
    let blank = stage_patch(" \u{a0} ", &refs).unwrap_err();
    assert_eq!(blank.message(), "No changes found in a.txt");
    let diff = "diff --git a/a.txt b/a.txt\n--- a/a.txt\n+++ b/a.txt\n@@ -1,0 +2 @@\n+x\n";
    let refs2 = FileLineRefs {
        file: "a.txt".to_string(),
        refs: vec![LineRef::Add(99)],
    };
    let nomatch = stage_patch(diff, &refs2).unwrap_err();
    assert_eq!(nomatch.message(), "No matching lines found for a.txt");
}
