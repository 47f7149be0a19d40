use git_lines::lines::DiffLine;
use git_lines::patch::build_patch;
use git_lines::refs::LineRef;

#[test]
fn build_patch_single_addition() {
    let lines = vec![DiffLine::Add {
        new_line: 137,
        content: "      debug = true;".to_string(),
    }];
    let refs = vec![LineRef::Add(137)];

    let patch = build_patch("flake.nix", &lines, &refs).unwrap();

    assert!(patch.contains("--- a/flake.nix"));
    assert!(patch.contains("+++ b/flake.nix"));
    assert!(patch.contains("@@ -136,0 +137 @@"));
    assert!(patch.contains("+      debug = true;"));
}

#[test]
fn build_patch_contiguous_additions() {
    let lines = vec![
        DiffLine::Add {
            new_line: 39,
            content: "".to_string(),
        },
        DiffLine::Add {
            new_line: 40,
            content: "    stylix = {".to_string(),
        },
        DiffLine::Add {
            new_line: 41,
            content: "      url = \"github:nix-community/stylix\";".to_string(),
        },
        DiffLine::Add {
            new_line: 42,
            content: "      inputs.nixpkgs.follows = \"nixpkgs\";".to_string(),
        },
        DiffLine::Add {
            new_line: 43,
            content: "    };".to_string(),
        },
    ];
    let refs = vec![LineRef::AddRange(39, 43)];

    let patch = build_patch("flake.nix", &lines, &refs).unwrap();

    assert!(patch.contains("--- a/flake.nix"));
    assert!(patch.contains("+++ b/flake.nix"));
    assert!(patch.contains("@@ -38,0 +39,5 @@"));
    assert!(patch.contains("+"));
    assert!(patch.contains("+    stylix = {"));
    assert!(patch.contains("+    };"));
}

#[test]
fn build_patch_partial_additions() {
    let lines = vec![
        DiffLine::Add {
            new_line: 40,
            content: "        # Allow Stylix to override terminal font".to_string(),
        },
        DiffLine::Add {
            new_line: 41,
            content: "        \"terminal.integrated.fontFamily\" = lib.mkDefault \"monospace\";"
                .to_string(),
        },
        DiffLine::Add {
            new_line: 42,
            content: "        \"direnv.restart.automatic\" = true;".to_string(),
        },
    ];
    let refs = vec![LineRef::AddRange(40, 41)];

    let patch = build_patch("default.nix", &lines, &refs).unwrap();

    assert!(patch.contains("@@ -39,0 +40,2 @@"));
    assert!(patch.contains("+        # Allow Stylix to override terminal font"));
    assert!(patch.contains("+        \"terminal.integrated.fontFamily\""));
    assert!(!patch.contains("direnv.restart.automatic"));
}

#[test]
fn build_patch_single_deletion() {
    let lines = vec![DiffLine::Delete {
        old_line: 15,
        content: "      enableAutosuggestions = true;".to_string(),
    }];
    let refs = vec![LineRef::Delete(15)];

    let patch = build_patch("zsh.nix", &lines, &refs).unwrap();

    assert!(patch.contains("--- a/zsh.nix"));
    assert!(patch.contains("+++ b/zsh.nix"));
    assert!(patch.contains("@@ -15 +14,0 @@"));
    assert!(patch.contains("-      enableAutosuggestions = true;"));
}

#[test]
fn build_patch_selective_from_mixed() {
    let lines = vec![
        DiffLine::Delete {
            old_line: 10,
            content: "    gtk.theme.name = \"Adwaita\";".to_string(),
        },
        DiffLine::Delete {
            old_line: 11,
            content: "    gtk.iconTheme.name = \"Papirus\";".to_string(),
        },
        DiffLine::Add {
            new_line: 10,
            content: "    # Theme managed by Stylix".to_string(),
        },
        DiffLine::Add {
            new_line: 11,
            content: "    gtk.iconTheme.name = \"Papirus-Dark\";".to_string(),
        },
        DiffLine::Add {
            new_line: 12,
            content: "    gtk.cursorTheme.size = 24;".to_string(),
        },
    ];
    let refs = vec![LineRef::Add(12)];

    let patch = build_patch("gtk.nix", &lines, &refs).unwrap();

    assert!(patch.contains("@@ -11,0 +12 @@"));
    assert!(patch.contains("+    gtk.cursorTheme.size = 24;"));
    assert!(!patch.contains("-    gtk.theme.name"));
    assert!(!patch.contains("-    gtk.iconTheme.name = \"Papirus\""));
    assert!(!patch.contains("+    # Theme managed by Stylix"));
    assert!(!patch.contains("+    gtk.iconTheme.name = \"Papirus-Dark\""));
}

#[test]
fn build_patch_no_matching_lines() {
    let lines = vec![DiffLine::Add {
        new_line: 10,
        content: "something".to_string(),
    }];
    let refs = vec![LineRef::Add(99)];

    let result = build_patch("file.nix", &lines, &refs);
    assert!(result.is_err());
}

#[test]
fn build_patch_exact_text() {
    let lines = vec![
        DiffLine::Add {
            new_line: 3,
            content: "alpha".to_string(),
        },
        DiffLine::Add {
            new_line: 4,
            content: "beta".to_string(),
        },
        DiffLine::Add {
            new_line: 7,
            content: "gamma".to_string(),
        },
    ];
    let refs = vec![LineRef::AddRange(1, 100)];
    let patch = build_patch("p.txt", &lines, &refs).unwrap();
    assert_eq!(
        patch,
        "--- a/p.txt\n+++ b/p.txt\n@@ -2,0 +3,2 @@\n+alpha\n+beta\n@@ -6,0 +7 @@\n+gamma\n"
    );
}

#[test]
fn build_patch_empty_refs_distinct_error() {
    let lines = vec![DiffLine::Add {
        new_line: 10,
        content: "x".to_string(),
    }];
    let refs: Vec<LineRef> = vec![];
    let err = build_patch("f", &lines, &refs).unwrap_err();
    assert_eq!(err, "No matching lines found for selection");
    let refs2 = vec![LineRef::Add(99)];
    let err2 = build_patch("f", &lines, &refs2).unwrap_err();
    assert_eq!(
        err2,
        "No lines matched the selection criteria in the unstaged diff"
    );
}
