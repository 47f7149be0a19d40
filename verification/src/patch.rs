//! Building a minimal patch from a flat list of changed lines and the
//! user's line references: select the matching lines, group consecutive
//! runs into hunks, and render headers and content.

use vstd::prelude::*;

verus! {

use vstd::string::StrSliceExecFns;
use vstd::string::StringExecFns;
use crate::lines::DiffLine;
use crate::lines::DlV;
use crate::refs::LineRef;
use crate::text::dec_str;
use crate::text::u32_str;
use crate::text::u64_str;
use crate::text::lemma_filter_take_step;
use crate::text::lemma_filter_elem;

// ----------------------------------------------------------------------------
// Selection
// ----------------------------------------------------------------------------

/// Does one line reference select this changed line?
pub open spec fn sp_dl_matches(dl: DlV, r: LineRef) -> bool {
    match (dl, r) {
        (DlV::Add { new_line, .. }, LineRef::Add(n)) => new_line == n,
        (DlV::Add { new_line, .. }, LineRef::AddRange(a, b)) => a <= new_line && new_line <= b,
        (DlV::Delete { old_line, .. }, LineRef::Delete(n)) => old_line == n,
        (DlV::Delete { old_line, .. }, LineRef::DeleteRange(a, b)) => a <= old_line && old_line
            <= b,
        _ => false,
    }
}

/// Does any of the references select this line?
pub open spec fn sp_matches_refs(dl: DlV, refs: Seq<LineRef>) -> bool {
    exists|i: int| 0 <= i < refs.len() && sp_dl_matches(dl, #[trigger] refs[i])
}

/// The selection predicate induced by a list of references.
pub open spec fn sp_sel_pred(refs: Seq<LineRef>) -> spec_fn(DlV) -> bool {
    |dl: DlV| sp_matches_refs(dl, refs)
}

/// The lines the references select, in order.
pub open spec fn sp_selected(lines: Seq<DlV>, refs: Seq<LineRef>) -> Seq<DlV> {
    lines.filter(sp_sel_pred(refs))
}

/// Executable match of one line against the references.
fn line_matches_refs(line: &DiffLine, refs: &Vec<LineRef>) -> (r: bool)
    ensures
        r == sp_matches_refs(line@, refs@),
{
    let mut i: usize = 0;
    while i < refs.len()
        invariant
            0 <= i <= refs@.len(),
            forall|j: int| 0 <= j < i ==> !sp_dl_matches(line@, #[trigger] refs@[j]),
        decreases refs@.len() - i,
    {
        let hit = match (line, &refs[i]) {
            (DiffLine::Add { new_line, .. }, LineRef::Add(n)) => *new_line == *n,
            (DiffLine::Add { new_line, .. }, LineRef::AddRange(a, b)) => *a <= *new_line
                && *new_line <= *b,
            (DiffLine::Delete { old_line, .. }, LineRef::Delete(n)) => *old_line == *n,
            (DiffLine::Delete { old_line, .. }, LineRef::DeleteRange(a, b)) => *a <= *old_line
                && *old_line <= *b,
            _ => false,
        };
        if hit {
            proof {
                assert(sp_dl_matches(line@, refs@[i as int]));
            }
            return true;
        }
        i += 1;
    }
    false
}

// ----------------------------------------------------------------------------
// Grouping into hunks
// ----------------------------------------------------------------------------

/// Are two adjacent selected lines part of one contiguous hunk: same kind,
/// consecutive numbers?
pub open spec fn sp_dl_contig(prev: DlV, cur: DlV) -> bool {
    match (prev, cur) {
        (DlV::Add { new_line: a, .. }, DlV::Add { new_line: b, .. }) => b == a + 1,
        (DlV::Delete { old_line: a, .. }, DlV::Delete { old_line: b, .. }) => b == a + 1,
        _ => false,
    }
}

/// Length of the contiguous run at the head of `s`.
pub open spec fn dl_run_len(s: Seq<DlV>) -> int
    decreases s.len(),
{
    if s.len() <= 1 {
        s.len() as int
    } else if sp_dl_contig(s[0], s[1]) {
        1 + dl_run_len(s.drop_first())
    } else {
        1
    }
}

/// A run of known extent pins `dl_run_len` down.
pub proof fn lemma_dl_run_len_exact(s: Seq<DlV>, k: int)
    requires
        s.len() > 0,
        1 <= k <= s.len(),
        forall|i: int| 1 <= i < k ==> sp_dl_contig(s[i - 1], #[trigger] s[i]),
        k < s.len() ==> !sp_dl_contig(s[k - 1], s[k]),
    ensures
        dl_run_len(s) == k,
    decreases s.len(),
{
    if s.len() <= 1 {
    } else if sp_dl_contig(s[0], s[1]) {
        assert(k >= 2) by {
            if k == 1 {
                assert(!sp_dl_contig(s[0], s[1]));
            }
        }
        let d = s.drop_first();
        assert forall|i: int| 1 <= i < k - 1 implies sp_dl_contig(d[i - 1], #[trigger] d[i]) by {
            assert(d[i] == s[i + 1]);
            assert(d[i - 1] == s[i]);
            assert(sp_dl_contig(s[i], s[i + 1]));
        }
        if k - 1 < d.len() {
            assert(d[k - 1] == s[k]);
            assert(d[k - 2] == s[k - 1]);
        }
        lemma_dl_run_len_exact(d, k - 1);
    } else {
        assert(k == 1) by {
            if k >= 2 {
                assert(sp_dl_contig(s[0], s[1]));
            }
        }
    }
}

/// The maximal contiguous runs of `s`, in order.
pub open spec fn dl_groups(s: Seq<DlV>) -> Seq<Seq<DlV>>
    decreases s.len(),
{
    if s.len() == 0 {
        Seq::empty()
    } else {
        let k = dl_run_len(s);
        if 1 <= k <= s.len() {
            seq![s.take(k)] + dl_groups(s.skip(k))
        } else {
            seq![s]
        }
    }
}

// ----------------------------------------------------------------------------
// Rendering
// ----------------------------------------------------------------------------

/// One side of a hunk header: `-{start},0`, `-{start}` or
/// `-{start},{count}` (and likewise with `+`).
pub open spec fn sp_count_part(prefix: char, start: int, count: int) -> Seq<char> {
    let st = if start >= 0 {
        start as nat
    } else {
        0
    };
    seq![prefix] + dec_str(st) + (if count == 0 {
        ",0"@
    } else if count == 1 {
        Seq::<char>::empty()
    } else {
        seq![','] + dec_str(count as nat)
    })
}

/// The header of a group: additions anchor one before their first new
/// line, deletions one before their first old line.
pub open spec fn sp_group_header(grp: Seq<DlV>) -> Seq<char> {
    match grp[0] {
        DlV::Add { new_line, .. } => "@@ "@ + sp_count_part('-', new_line - 1, 0)
            + seq![' '] + sp_count_part('+', new_line as int, grp.len() as int) + " @@"@
            + seq!['\n'],
        DlV::Delete { old_line, .. } => "@@ "@ + sp_count_part('-', old_line as int, grp.len() as int)
            + seq![' '] + sp_count_part('+', old_line - 1, 0) + " @@"@ + seq!['\n'],
    }
}

/// One changed line in patch form: its sign, content, and newline.
pub open spec fn sp_dl_text(dl: DlV) -> Seq<char> {
    match dl {
        DlV::Add { content, .. } => seq!['+'] + content + seq!['\n'],
        DlV::Delete { content, .. } => seq!['-'] + content + seq!['\n'],
    }
}

/// The patch lines of a group.
pub open spec fn sp_group_lines(grp: Seq<DlV>) -> Seq<char>
    decreases grp.len(),
{
    if grp.len() == 0 {
        Seq::empty()
    } else {
        sp_dl_text(grp.first()) + sp_group_lines(grp.drop_first())
    }
}

/// The rendered hunks of all groups from index `k` on.
pub open spec fn sp_patch_body(gs: Seq<Seq<DlV>>, k: int) -> Seq<char>
    decreases gs.len() - k,
{
    if k < 0 || k >= gs.len() {
        Seq::empty()
    } else {
        sp_group_header(gs[k]) + sp_group_lines(gs[k]) + sp_patch_body(gs, k + 1)
    }
}

/// What building a patch yields: the `---`/`+++` headers and one hunk per
/// contiguous run of selected lines, or the error text when nothing
/// matched.
pub open spec fn spec_build_patch(path: Seq<char>, lines: Seq<DlV>, refs: Seq<LineRef>) -> Result<
    Seq<char>,
    Seq<char>,
> {
    let sel = sp_selected(lines, refs);
    if sel.len() == 0 && refs.len() > 0 {
        Err("No lines matched the selection criteria in the unstaged diff"@)
    } else if sel.len() == 0 {
        Err("No matching lines found for selection"@)
    } else {
        Ok(
            "--- a/"@ + path + "\n+++ b/"@ + path + "\n"@ + sp_patch_body(
                dl_groups(sel),
                0,
            ),
        )
    }
}

/// Every line number in the list is positive.
pub open spec fn sp_lines_positive(lines: Seq<DlV>) -> bool {
    forall|i: int|
        0 <= i < lines.len() ==> match #[trigger] lines[i] {
            DlV::Add { new_line, .. } => new_line >= 1,
            DlV::Delete { old_line, .. } => old_line >= 1,
        }
}

/// Appending one more selected line to a rendered run.
proof fn lemma_group_lines_snoc(grp: Seq<DlV>, i: int)
    requires
        0 <= i < grp.len(),
    ensures
        sp_group_lines(grp.take(i + 1)) == sp_group_lines(grp.take(i)) + sp_dl_text(grp[i]),
    decreases i,
{
    if i == 0 {
        assert(grp.take(1).first() == grp[0]);
        assert(grp.take(1).drop_first() =~= Seq::<DlV>::empty());
        assert(grp.take(0) =~= Seq::<DlV>::empty());
        assert(sp_group_lines(grp.take(1)) == sp_dl_text(grp[0]) + sp_group_lines(
            grp.take(1).drop_first(),
        ));
        assert(sp_dl_text(grp[0]) + Seq::<char>::empty() =~= sp_dl_text(grp[0]));
        assert(sp_group_lines(grp.take(i + 1)) =~= sp_group_lines(grp.take(i)) + sp_dl_text(
            grp[i],
        ));
    } else {
        lemma_group_lines_snoc(grp.drop_first(), i - 1);
        assert(grp.take(i + 1).first() == grp[0]);
        assert(grp.take(i + 1).drop_first() =~= grp.drop_first().take(i));
        assert(grp.take(i).first() == grp[0]);
        assert(grp.take(i).drop_first() =~= grp.drop_first().take(i - 1));
        assert(grp.drop_first()[i - 1] == grp[i]);
        assert(sp_group_lines(grp.take(i + 1)) =~= sp_group_lines(grp.take(i)) + sp_dl_text(
            grp[i],
        ));
    }
}

/// Append the header and lines of one group to `out`.
fn push_group(out: &mut String, grp: &Vec<DiffLine>)
    requires
        grp@.len() > 0,
        sp_lines_positive(grp@.map_values(|d: DiffLine| d@)),
    ensures
        final(out)@ == old(out)@ + sp_group_header(grp@.map_values(|d: DiffLine| d@))
            + sp_group_lines(grp@.map_values(|d: DiffLine| d@)),
{
    let ghost gv = grp@.map_values(|d: DiffLine| d@);
    let ghost base = out@;
    proof {
        reveal_strlit("@@ ");
        reveal_strlit(" @@");
        reveal_strlit(",0");
        reveal_strlit(",");
        reveal_strlit("\n");
        reveal_strlit(" ");
        reveal_strlit("+");
        reveal_strlit("-");
        assert("\n"@ =~= seq!['\n']);
        assert(","@ =~= seq![',']);
        assert(" "@ =~= seq![' ']);
        assert("+"@ =~= seq!['+']);
        assert("-"@ =~= seq!['-']);
    }
    // Header.
    out.append("@@ ");
    match &grp[0] {
        DiffLine::Add { new_line, .. } => {
            proof {
                assert(gv[0] == grp@[0]@);
                assert(*new_line >= 1);
            }
            let os = *new_line - 1;
            out.append("-");
            let a = u32_str(os);
            out.append(a.as_str());
            out.append(",0");
            out.append(" ");
            out.append("+");
            let b = u32_str(*new_line);
            out.append(b.as_str());
            let glen = grp.len();
            if glen != 1 {
                out.append(",");
                let c = u64_str(glen as u64);
                out.append(c.as_str());
            }
            proof {
                assert(gv[0] == grp@[0]@);
                assert(gv.len() == grp@.len());
                assert(sp_count_part('-', os as int, 0) =~= seq!['-'] + dec_str(os as nat)
                    + ",0"@);
                if glen == 1 {
                    assert(sp_count_part('+', *new_line as int, gv.len() as int) =~= seq!['+']
                        + dec_str(*new_line as nat));
                } else {
                    assert(sp_count_part('+', *new_line as int, gv.len() as int) =~= seq!['+']
                        + dec_str(*new_line as nat) + (seq![','] + dec_str(gv.len() as nat)));
                }
                assert(out@ =~= base + "@@ "@ + sp_count_part('-', *new_line - 1, 0)
                    + seq![' '] + sp_count_part('+', *new_line as int, gv.len() as int));
            }
        },
        DiffLine::Delete { old_line, .. } => {
            proof {
                assert(gv[0] == grp@[0]@);
                assert(*old_line >= 1);
            }
            let ns = *old_line - 1;
            out.append("-");
            let a = u32_str(*old_line);
            out.append(a.as_str());
            let glen = grp.len();
            if glen != 1 {
                out.append(",");
                let c = u64_str(glen as u64);
                out.append(c.as_str());
            }
            out.append(" ");
            out.append("+");
            let b = u32_str(ns);
            out.append(b.as_str());
            out.append(",0");
            proof {
                assert(gv[0] == grp@[0]@);
                assert(gv.len() == grp@.len());
                assert(sp_count_part('+', ns as int, 0) =~= seq!['+'] + dec_str(ns as nat)
                    + ",0"@);
                if glen == 1 {
                    assert(sp_count_part('-', *old_line as int, gv.len() as int) =~= seq!['-']
                        + dec_str(*old_line as nat));
                } else {
                    assert(sp_count_part('-', *old_line as int, gv.len() as int) =~= seq!['-']
                        + dec_str(*old_line as nat) + (seq![','] + dec_str(gv.len() as nat)));
                }
                assert(out@ =~= base + "@@ "@ + sp_count_part(
                    '-',
                    *old_line as int,
                    gv.len() as int,
                ) + seq![' '] + sp_count_part('+', *old_line - 1, 0));
            }
        },
    }
    out.append(" @@");
    out.append("\n");
    proof {
        assert(out@ =~= base + sp_group_header(gv));
    }
    let ghost hdr = out@;
    // Lines.
    let mut i: usize = 0;
    proof {
        assert(gv.take(0) =~= Seq::<DlV>::empty());
    }
    while i < grp.len()
        invariant
            0 <= i <= grp@.len(),
            gv == grp@.map_values(|d: DiffLine| d@),
            gv.len() == grp@.len(),
            out@ == hdr + sp_group_lines(gv.take(i as int)),
        decreases grp@.len() - i,
    {
        proof {
            reveal_strlit("+");
            reveal_strlit("-");
            reveal_strlit("\n");
            assert("+"@ =~= seq!['+']);
            assert("-"@ =~= seq!['-']);
            assert("\n"@ =~= seq!['\n']);
            assert(gv[i as int] == grp@[i as int]@);
        }
        match &grp[i] {
            DiffLine::Add { content, .. } => {
                out.append("+");
                out.append(content.as_str());
                out.append("\n");
            },
            DiffLine::Delete { content, .. } => {
                out.append("-");
                out.append(content.as_str());
                out.append("\n");
            },
        }
        proof {
            lemma_group_lines_snoc(gv, i as int);
            assert(out@ =~= hdr + sp_group_lines(gv.take(i + 1)));
        }
        i += 1;
    }
    proof {
        assert(gv.take(gv.len() as int) =~= gv);
    }
}

/// Build a patch containing only the selected lines: `---`/`+++` headers,
/// then one hunk per contiguous run of kept lines. Requires the line
/// numbers to be positive, as staging line numbers are 1-indexed.
pub fn build_patch(file_path: &str, lines: &Vec<DiffLine>, refs: &Vec<LineRef>) -> (r: Result<
    String,
    String,
>)
    requires
        sp_lines_positive(lines@.map_values(|d: DiffLine| d@)),
    ensures
        match r {
            Ok(t) => spec_build_patch(file_path@, lines@.map_values(|d: DiffLine| d@), refs@)
                == Ok::<Seq<char>, Seq<char>>(t@),
            Err(e) => spec_build_patch(file_path@, lines@.map_values(|d: DiffLine| d@), refs@)
                == Err::<Seq<char>, Seq<char>>(e@),
        },
{
    let ghost lv = lines@.map_values(|d: DiffLine| d@);
    let ghost pred = sp_sel_pred(refs@);
    // Select the matching lines.
    let mut sel: Vec<DiffLine> = Vec::new();
    let mut i: usize = 0;
    proof {
        reveal(Seq::filter);
        assert(lv.take(0) =~= Seq::<DlV>::empty());
    }
    while i < lines.len()
        invariant
            0 <= i <= lines@.len(),
            lv == lines@.map_values(|d: DiffLine| d@),
            lv.len() == lines@.len(),
            pred == sp_sel_pred(refs@),
            sel@.map_values(|d: DiffLine| d@) == lv.take(i as int).filter(pred),
            sp_lines_positive(lv),
        decreases lines@.len() - i,
    {
        let keep = line_matches_refs(&lines[i], refs);
        proof {
            assert(lv[i as int] == lines@[i as int]@);
            lemma_filter_take_step(lv, pred, i as int);
        }
        if keep {
            let ghost prev = sel@.map_values(|d: DiffLine| d@);
            let copied = match &lines[i] {
                DiffLine::Add { new_line, content } => DiffLine::Add {
                    new_line: *new_line,
                    content: content.clone(),
                },
                DiffLine::Delete { old_line, content } => DiffLine::Delete {
                    old_line: *old_line,
                    content: content.clone(),
                },
            };
            sel.push(copied);
            proof {
                assert(sel@.map_values(|d: DiffLine| d@) =~= prev.push(lv[i as int]));
            }
        }
        i += 1;
    }
    proof {
        assert(lv.take(lv.len() as int) =~= lv);
        assert(sel@.map_values(|d: DiffLine| d@) == sp_selected(lv, refs@));
    }
    if sel.len() == 0 {
        proof {
            assert(sel@.map_values(|d: DiffLine| d@).len() == 0);
        }
        if refs.len() > 0 {
            return Err("No lines matched the selection criteria in the unstaged diff".to_owned());
        }
        return Err("No matching lines found for selection".to_owned());
    }
    let ghost sv = sel@.map_values(|d: DiffLine| d@);
    proof {
        assert(sv.len() == sel@.len());
        assert forall|j: int|
            0 <= j < sv.len() implies match #[trigger] sv[j] {
            DlV::Add { new_line, .. } => new_line >= 1,
            DlV::Delete { old_line, .. } => old_line >= 1,
        } by {
            lemma_filter_elem(lv, pred, j);
            let k = choose|k: int| 0 <= k < lv.len() && lv[k] == sv[j];
            assert(match lv[k] {
                DlV::Add { new_line, .. } => new_line >= 1,
                DlV::Delete { old_line, .. } => old_line >= 1,
            });
        }
        assert(sp_lines_positive(sv));
    }
    let ghost gsv = dl_groups(sv);
    // Headers.
    let mut out = String::new();
    out.append("--- a/");
    out.append(file_path);
    out.append("\n+++ b/");
    out.append(file_path);
    out.append("\n");
    let ghost head = out@;
    proof {
        reveal_strlit("--- a/");
        reveal_strlit("\n+++ b/");
        reveal_strlit("\n");
        assert("\n+++ b/"@ =~= "\n"@ + "+++ b/"@) by {
            reveal_strlit("+++ b/");
            assert("\n+++ b/"@ =~= "\n"@ + "+++ b/"@);
        }
        assert(head =~= "--- a/"@ + file_path@ + "\n+++ b/"@ + file_path@ + "\n"@);
    }
    // Walk the contiguous runs and emit one hunk per run.
    let slen = sel.len();
    let mut idx: usize = 0;
    let ghost mut procd: Seq<Seq<DlV>> = Seq::empty();
    let ghost mut done: Seq<char> = Seq::empty();
    proof {
        assert(sv.skip(0) =~= sv);
        assert(procd + dl_groups(sv.skip(0)) =~= dl_groups(sv));
        assert(out@ =~= head + done);
        assert(done + sp_patch_body(gsv, 0) =~= sp_patch_body(gsv, 0));
    }
    while idx < slen
        invariant
            0 <= idx <= slen,
            slen == sel@.len(),
            sv == sel@.map_values(|d: DiffLine| d@),
            sv.len() == slen,
            sp_lines_positive(sv),
            gsv == dl_groups(sv),
            dl_groups(sv) == procd + dl_groups(sv.skip(idx as int)),
            out@ == head + done,
            done + sp_patch_body(gsv, procd.len() as int) == sp_patch_body(gsv, 0),
        decreases slen - idx,
    {
        let ghost rest = sv.skip(idx as int);
        // Find the end of the run starting at idx.
        let mut j: usize = idx + 1;
        while j < slen && x_dl_contig(&sel[j - 1], &sel[j])
            invariant
                idx < j <= slen,
                slen == sel@.len(),
                sv == sel@.map_values(|d: DiffLine| d@),
                sv.len() == slen,
                forall|i2: int| idx < i2 < j ==> sp_dl_contig(#[trigger] sv[i2 - 1], sv[i2]),
            decreases slen - j,
        {
            j += 1;
        }
        proof {
            assert forall|i2: int| 1 <= i2 < j - idx implies sp_dl_contig(
                rest[i2 - 1],
                #[trigger] rest[i2],
            ) by {
                assert(rest[i2] == sv[idx + i2]);
                assert(rest[i2 - 1] == sv[idx + i2 - 1]);
            }
            if j < slen {
                assert(rest[j - idx] == sv[j as int]);
                assert(rest[j - idx - 1] == sv[j - 1]);
                assert(!sp_dl_contig(sv[j - 1], sv[j as int]));
            }
            lemma_dl_run_len_exact(rest, j - idx);
        }
        // Copy the run out.
        let mut grp: Vec<DiffLine> = Vec::new();
        let mut t2: usize = idx;
        while t2 < j
            invariant
                idx <= t2 <= j <= slen,
                slen == sel@.len(),
                sv == sel@.map_values(|d: DiffLine| d@),
                sv.len() == slen,
                grp@.map_values(|d: DiffLine| d@) == sv.subrange(idx as int, t2 as int),
            decreases j - t2,
        {
            let ghost prevg = grp@.map_values(|d: DiffLine| d@);
            let copied = match &sel[t2] {
                DiffLine::Add { new_line, content } => DiffLine::Add {
                    new_line: *new_line,
                    content: content.clone(),
                },
                DiffLine::Delete { old_line, content } => DiffLine::Delete {
                    old_line: *old_line,
                    content: content.clone(),
                },
            };
            grp.push(copied);
            proof {
                assert(sv[t2 as int] == sel@[t2 as int]@);
                assert(grp@.map_values(|d: DiffLine| d@) =~= prevg.push(sv[t2 as int]));
                assert(sv.subrange(idx as int, t2 + 1) =~= sv.subrange(
                    idx as int,
                    t2 as int,
                ).push(sv[t2 as int]));
            }
            t2 += 1;
        }
        let ghost grpv = sv.subrange(idx as int, j as int);
        proof {
            let k = dl_run_len(rest);
            assert(k == j - idx);
            assert(rest.take(k) =~= grpv);
            assert(rest.skip(k) =~= sv.skip(j as int));
            assert(dl_groups(rest) == seq![grpv] + dl_groups(sv.skip(j as int)));
            assert(gsv[procd.len() as int] == grpv) by {
                assert(dl_groups(sv) == procd + dl_groups(rest));
                assert(dl_groups(rest)[0] == grpv);
            }
            assert(sp_lines_positive(grpv)) by {
                assert forall|i2: int|
                    0 <= i2 < grpv.len() implies match #[trigger] grpv[i2] {
                    DlV::Add { new_line, .. } => new_line >= 1,
                    DlV::Delete { old_line, .. } => old_line >= 1,
                } by {
                    assert(grpv[i2] == sv[idx + i2]);
                    assert(match sv[idx + i2] {
                        DlV::Add { new_line, .. } => new_line >= 1,
                        DlV::Delete { old_line, .. } => old_line >= 1,
                    });
                }
            }
        }
        push_group(&mut out, &grp);
        proof {
            assert(grp@.map_values(|d: DiffLine| d@) == grpv);
            assert(sp_patch_body(gsv, procd.len() as int) == sp_group_header(grpv)
                + sp_group_lines(grpv) + sp_patch_body(gsv, procd.len() as int + 1));
            assert((done + (sp_group_header(grpv) + sp_group_lines(grpv))) + sp_patch_body(
                gsv,
                procd.len() as int + 1,
            ) =~= done + sp_patch_body(gsv, procd.len() as int));
            assert(procd.push(grpv) + dl_groups(sv.skip(j as int)) =~= procd + dl_groups(
                rest,
            ));
        }
        proof {
            done = done + (sp_group_header(grpv) + sp_group_lines(grpv));
            procd = procd.push(grpv);
        }
        proof {
            assert(out@ =~= head + done);
        }
        idx = j;
    }
    proof {
        assert(sv.skip(slen as int) =~= Seq::<DlV>::empty());
        assert(dl_groups(sv.skip(slen as int)) =~= Seq::<Seq<DlV>>::empty());
        assert(procd + Seq::<Seq<DlV>>::empty() =~= procd);
        assert(procd.len() == gsv.len());
        assert(sp_patch_body(gsv, gsv.len() as int) =~= Seq::<char>::empty());
        assert(done + Seq::<char>::empty() =~= done);
        assert(out@ =~= head + sp_patch_body(gsv, 0));
        assert(spec_build_patch(file_path@, lv, refs@) == Ok::<Seq<char>, Seq<char>>(out@));
    }
    Ok(out)
}

/// Are two adjacent lines contiguous?
fn x_dl_contig(prev: &DiffLine, cur: &DiffLine) -> (r: bool)
    ensures
        r == sp_dl_contig(prev@, cur@),
{
    match (prev, cur) {
        (DiffLine::Add { new_line: a, .. }, DiffLine::Add { new_line: b, .. }) => {
            if *a == u32::MAX {
                false
            } else {
                *b == *a + 1
            }
        },
        (DiffLine::Delete { old_line: a, .. }, DiffLine::Delete { old_line: b, .. }) => {
            if *a == u32::MAX {
                false
            } else {
                *b == *a + 1
            }
        },
        _ => false,
    }
}

} // verus!
