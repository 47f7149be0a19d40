use git_lines::lines::{format_diff_output, parse_diff, parse_hunk_header, DiffLine};

#[test]
fn parse_diff_single_addition() {
    let diff = "diff --git a/flake.nix b/flake.nix\nindex abc1234..def5678 100644\n--- a/flake.nix\n+++ b/flake.nix\n@@ -136,0 +137 @@\n+      debug = true;\n";
    let result = parse_diff(diff).unwrap();
    assert_eq!(result.file_path, "flake.nix");
    assert_eq!(result.lines.len(), 1);
    assert_eq!(
        result.lines[0],
        DiffLine::Add {
            new_line: 137,
            content: "      debug = true;".to_string()
        }
    );
}

#[test]
fn parse_diff_contiguous_additions() {
    let diff = "diff --git a/flake.nix b/flake.nix\nindex 462392e..0b97d01 100644\n--- a/flake.nix\n+++ b/flake.nix\n@@ -38,0 +39,5 @@ line 38\n+\n+    stylix = {\n+      url = \"github:nix-community/stylix\";\n+      inputs.nixpkgs.follows = \"nixpkgs\";\n+    };\n";
    let result = parse_diff(diff).unwrap();
    assert_eq!(result.file_path, "flake.nix");
    assert_eq!(result.lines.len(), 5);
    assert_eq!(
        result.lines[0],
        DiffLine::Add {
            new_line: 39,
            content: "".to_string()
        }
    );
    assert_eq!(
        result.lines[1],
        DiffLine::Add {
            new_line: 40,
            content: "    stylix = {".to_string()
        }
    );
    assert_eq!(
        result.lines[4],
        DiffLine::Add {
            new_line: 43,
            content: "    };".to_string()
        }
    );
}

#[test]
fn parse_diff_single_deletion() {
    let diff = "diff --git a/zsh.nix b/zsh.nix\nindex 6f2e06d..110fff0 100644\n--- a/zsh.nix\n+++ b/zsh.nix\n@@ -15 +14,0 @@ line 14\n-      enableAutosuggestions = true;\n";
    let result = parse_diff(diff).unwrap();
    assert_eq!(result.file_path, "zsh.nix");
    assert_eq!(result.lines.len(), 1);
    assert_eq!(
        result.lines[0],
        DiffLine::Delete {
            old_line: 15,
            content: "      enableAutosuggestions = true;".to_string()
        }
    );
}

#[test]
fn parse_diff_mixed_operations() {
    let diff = "diff --git a/gtk.nix b/gtk.nix\nindex 2ce966d..93d8dbc 100644\n--- a/gtk.nix\n+++ b/gtk.nix\n@@ -10,2 +10,3 @@ line 9\n-    gtk.theme.name = \"Adwaita\";\n-    gtk.iconTheme.name = \"Papirus\";\n+    # Theme managed by Stylix\n+    gtk.iconTheme.name = \"Papirus-Dark\";\n+    gtk.cursorTheme.size = 24;\n";
    let result = parse_diff(diff).unwrap();
    assert_eq!(result.file_path, "gtk.nix");
    assert_eq!(result.lines.len(), 5);
    assert_eq!(
        result.lines[0],
        DiffLine::Delete {
            old_line: 10,
            content: "    gtk.theme.name = \"Adwaita\";".to_string()
        }
    );
    assert_eq!(
        result.lines[1],
        DiffLine::Delete {
            old_line: 11,
            content: "    gtk.iconTheme.name = \"Papirus\";".to_string()
        }
    );
    assert_eq!(
        result.lines[2],
        DiffLine::Add {
            new_line: 10,
            content: "    # Theme managed by Stylix".to_string()
        }
    );
    assert_eq!(
        result.lines[3],
        DiffLine::Add {
            new_line: 11,
            content: "    gtk.iconTheme.name = \"Papirus-Dark\";".to_string()
        }
    );
    assert_eq!(
        result.lines[4],
        DiffLine::Add {
            new_line: 12,
            content: "    gtk.cursorTheme.size = 24;".to_string()
        }
    );
}

#[test]
fn parse_diff_empty() {
    let diff = "";
    let result = parse_diff(diff);
    assert!(result.is_err());
}

#[test]
fn parse_hunk_header_basic() {
    assert_eq!(parse_hunk_header("@@ -136,0 +137 @@").unwrap(), (136, 137));
    assert_eq!(
        parse_hunk_header("@@ -10,2 +10,3 @@ trailing context").unwrap(),
        (10, 10)
    );
    assert!(parse_hunk_header("no header").is_err());
    assert!(parse_hunk_header("@@ -1 +1").is_err());
}

#[test]
fn format_diff_single_addition() {
    let diff = "diff --git a/flake.nix b/flake.nix\nindex abc1234..def5678 100644\n--- a/flake.nix\n+++ b/flake.nix\n@@ -136,0 +137 @@\n+      debug = true;\n";
    let formatted = format_diff_output(diff).unwrap();
    assert_eq!(formatted, "flake.nix:\n  +137:\t      debug = true;\n");
}

#[test]
fn format_diff_contiguous_additions() {
    let diff = "diff --git a/flake.nix b/flake.nix\nindex 462392e..0b97d01 100644\n--- a/flake.nix\n+++ b/flake.nix\n@@ -38,0 +39,5 @@ line 38\n+\n+    stylix = {\n+      url = \"github:nix-community/stylix\";\n+      inputs.nixpkgs.follows = \"nixpkgs\";\n+    };\n";
    let formatted = format_diff_output(diff).unwrap();
    assert_eq!(
        formatted,
        "flake.nix:\n  +39:\t\n  +40:\t    stylix = {\n  +41:\t      url = \"github:nix-community/stylix\";\n  +42:\t      inputs.nixpkgs.follows = \"nixpkgs\";\n  +43:\t    };\n"
    );
}

#[test]
fn format_diff_non_contiguous_hunks() {
    let diff = "diff --git a/flake.nix b/flake.nix\nindex abc1234..def5678 100644\n--- a/flake.nix\n+++ b/flake.nix\n@@ -136,0 +137 @@\n+      debug = true;\n@@ -140,0 +142 @@\n+        ./flake-modules/home-manager.nix\n";
    let formatted = format_diff_output(diff).unwrap();
    assert_eq!(
        formatted,
        "flake.nix:\n  +137:\t      debug = true;\n\n  +142:\t        ./flake-modules/home-manager.nix\n"
    );
}

#[test]
fn format_diff_single_deletion() {
    let diff = "diff --git a/zsh.nix b/zsh.nix\nindex 6f2e06d..110fff0 100644\n--- a/zsh.nix\n+++ b/zsh.nix\n@@ -15 +14,0 @@ line 14\n-      enableAutosuggestions = true;\n";
    let formatted = format_diff_output(diff).unwrap();
    assert_eq!(
        formatted,
        "zsh.nix:\n  -15:\t      enableAutosuggestions = true;\n"
    );
}

#[test]
fn format_diff_mixed_operations() {
    let diff = "diff --git a/gtk.nix b/gtk.nix\nindex 2ce966d..93d8dbc 100644\n--- a/gtk.nix\n+++ b/gtk.nix\n@@ -10,2 +10,3 @@ line 9\n-    gtk.theme.name = \"Adwaita\";\n-    gtk.iconTheme.name = \"Papirus\";\n+    # Theme managed by Stylix\n+    gtk.iconTheme.name = \"Papirus-Dark\";\n+    gtk.cursorTheme.size = 24;\n";
    let formatted = format_diff_output(diff).unwrap();
    assert_eq!(
        formatted,
        "gtk.nix:\n  -10:\t    gtk.theme.name = \"Adwaita\";\n  -11:\t    gtk.iconTheme.name = \"Papirus\";\n  +10:\t    # Theme managed by Stylix\n  +11:\t    gtk.iconTheme.name = \"Papirus-Dark\";\n  +12:\t    gtk.cursorTheme.size = 24;\n"
    );
}

#[test]
fn format_diff_multiple_files() {
    let diff = "diff --git a/flake.nix b/flake.nix\nindex abc1234..def5678 100644\n--- a/flake.nix\n+++ b/flake.nix\n@@ -136,0 +137 @@\n+      debug = true;\ndiff --git a/zsh.nix b/zsh.nix\nindex 6f2e06d..110fff0 100644\n--- a/zsh.nix\n+++ b/zsh.nix\n@@ -15 +14,0 @@ line 14\n-      enableAutosuggestions = true;\n";
    let formatted = format_diff_output(diff).unwrap();
    assert_eq!(
        formatted,
        "flake.nix:\n  +137:\t      debug = true;\n\nzsh.nix:\n  -15:\t      enableAutosuggestions = true;\n"
    );
}

#[test]
fn format_diff_blank_input() {
    assert_eq!(format_diff_output("   \n \t ").unwrap(), "");
}
