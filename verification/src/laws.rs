//! General properties of filtering and hunk reconstruction, stated and
//! proved over the library's specifications.

use vstd::prelude::*;

verus! {

use crate::hunk::HunkV;
use crate::hunk::MlV;
use crate::hunk::FcV;
use crate::hunk::hunk_bounded;
use crate::hunk::spec_filter_hunk;
use crate::hunk::line_pairs;
use crate::hunk::kept_pairs;
use crate::hunk::keep_pred;
use crate::hunk::kept_first;
use crate::hunk::kept_last;
use crate::hunk::needs_bridge;
use crate::hunk::pair_contents;
use crate::file::FileDiffV;
use crate::file::spec_filter_file;
use crate::file::sp_filter_hunks;
use crate::file::sp_build_hunks;
use crate::file::sp_del_hunks;
use crate::file::sp_apply_deltas;
use crate::full::spec_retain;
use crate::sel::PathFilter;
use crate::text::lemma_filter_none;
use crate::text::lemma_filter_all;
use crate::text::lemma_filter_elem;

// ----------------------------------------------------------------------------
// Filtering with an empty selection yields nothing
// ----------------------------------------------------------------------------

/// Filtering a hunk with selections that keep no line yields no result.
pub proof fn lemma_filter_hunk_none(h: HunkV)
    ensures
        spec_filter_hunk(h, Set::<u32>::empty(), Set::<u32>::empty()) is None,
{
    let e = Set::<u32>::empty();
    lemma_filter_none(line_pairs(h.old), keep_pred(e));
    lemma_filter_none(line_pairs(h.new), keep_pred(e));
}

/// Filtering a file with selections that keep no line yields no result.
pub proof fn lemma_filter_file_none(f: FileDiffV)
    ensures
        spec_filter_file(f, Set::<u32>::empty(), Set::<u32>::empty()) is None,
{
    lemma_filter_hunks_none(f.hunks, 0, 0);
}

/// Helper: every hunk drops out, whatever the running delta.
proof fn lemma_filter_hunks_none(hunks: Seq<HunkV>, delta: int, k: int)
    ensures
        sp_filter_hunks(hunks, Set::<u32>::empty(), Set::<u32>::empty(), delta, k) == Some(
            Seq::<HunkV>::empty(),
        ),
    decreases hunks.len() - k,
{
    if 0 <= k < hunks.len() {
        lemma_filter_hunk_none(hunks[k]);
        lemma_filter_hunks_none(hunks, delta, k + 1);
    }
}

/// Retaining with path filters that select nothing anywhere yields no
/// files at all.
pub proof fn lemma_retain_none(files: Seq<FileDiffV>, ko: PathFilter, kn: PathFilter)
    requires
        forall|p: Seq<char>, n: u32| !(#[trigger] ko.spec_selects(p, n)),
        forall|p: Seq<char>, n: u32| !(#[trigger] kn.spec_selects(p, n)),
    ensures
        spec_retain(files, ko, kn) == Seq::<FileDiffV>::empty(),
    decreases files.len(),
{
    if files.len() > 0 {
        lemma_retain_none(files.drop_first(), ko, kn);
        let p = files.first().path;
        assert(ko.sel_for(p) =~= Set::<u32>::empty()) by {
            assert forall|n: u32| !(#[trigger] ko.sel_for(p).contains(n)) by {
                assert(!ko.spec_selects(p, n));
            }
        }
        assert(kn.sel_for(p) =~= Set::<u32>::empty()) by {
            assert forall|n: u32| !(#[trigger] kn.sel_for(p).contains(n)) by {
                assert(!kn.spec_selects(p, n));
            }
        }
        lemma_filter_file_none(files.first());
    }
}

// ----------------------------------------------------------------------------
// Filtering everything keeps everything
// ----------------------------------------------------------------------------

/// Filtering a hunk with the full selection keeps every deletion and
/// addition, with the original no-newline flags; the bridge never fires.
pub proof fn lemma_filter_hunk_all(h: HunkV)
    requires
        hunk_bounded(h),
        h.old.lines.len() > 0 || h.new.lines.len() > 0,
    ensures
        spec_filter_hunk(h, Set::<u32>::full(), Set::<u32>::full()) == Some(
            FcV {
                insertion_point: h.old.start,
                deletions: line_pairs(h.old),
                additions: h.new.lines,
                old_missing_newline: h.old.missing_final_newline && h.old.lines.len() > 0,
                new_missing_newline: h.new.missing_final_newline && h.new.lines.len() > 0,
            },
        ),
{
    let full = Set::<u32>::full();
    lemma_filter_all(line_pairs(h.old), keep_pred(full));
    lemma_filter_all(line_pairs(h.new), keep_pred(full));
    assert(kept_pairs(h.old, full) == line_pairs(h.old));
    assert(kept_pairs(h.new, full) == line_pairs(h.new));
    assert(line_pairs(h.old).len() == h.old.lines.len());
    assert(line_pairs(h.new).len() == h.new.lines.len());
    if h.new.lines.len() > 0 {
        assert(kept_first(h.new, full));
    }
    assert(!needs_bridge(h, full));
    assert(pair_contents(line_pairs(h.new)) =~= h.new.lines);
    if h.old.lines.len() > 0 {
        assert(kept_last(h.old, full));
    }
    if h.new.lines.len() > 0 {
        assert(kept_last(h.new, full));
    }
}

/// For a single replacement hunk whose sides are aligned (as the first
/// hunk of a zero-context diff is), filtering the file with the full
/// selection gives back the very same file.
pub proof fn lemma_filter_file_all_identity(f: FileDiffV)
    requires
        f.hunks.len() == 1,
        hunk_bounded(f.hunks[0]),
        f.hunks[0].old.lines.len() > 0,
        f.hunks[0].new.lines.len() > 0,
        f.hunks[0].new.start == f.hunks[0].old.start,
    ensures
        spec_filter_file(f, Set::<u32>::full(), Set::<u32>::full()) == Some(f),
{
    let full = Set::<u32>::full();
    let h = f.hunks[0];
    lemma_filter_hunk_all(h);
    let fc = spec_filter_hunk(h, full, full)->Some_0;
    assert(fc.deletions == line_pairs(h.old));
    assert(fc.deletions.len() > 0);
    assert(fc.additions.len() > 0);
    assert(fc.deletions[0].0 == h.old.start);
    let built = sp_build_hunks(fc, 0);
    assert(0 <= h.old.start + 0 <= u32::MAX);
    let hv = HunkV {
        old: MlV {
            start: h.old.start,
            lines: pair_contents(fc.deletions),
            missing_final_newline: fc.old_missing_newline,
        },
        new: MlV {
            start: h.old.start,
            lines: fc.additions,
            missing_final_newline: fc.new_missing_newline,
        },
    };
    assert(built == Some(seq![hv]));
    assert(pair_contents(line_pairs(h.old)) =~= h.old.lines);
    assert(hv == h) by {
        assert(hv.old.lines == h.old.lines);
        assert(hv.new.lines == h.new.lines);
        assert(hv.old.missing_final_newline == h.old.missing_final_newline);
        assert(hv.new.missing_final_newline == h.new.missing_final_newline);
    }
    let nh = seq![hv];
    assert(nh[0] == hv);
    assert(hv.new.lines.len() == h.new.lines.len());
    assert(hv.old.lines.len() == h.old.lines.len()) by {
        assert(pair_contents(line_pairs(h.old)).len() == line_pairs(h.old).len());
    }
    assert(h.new.lines.len() <= u32::MAX);
    assert(h.old.lines.len() <= u32::MAX);
    let d2v = 0 + nh[0].new.lines.len() - nh[0].old.lines.len();
    assert(i64::MIN <= d2v <= i64::MAX);
    assert(sp_apply_deltas(nh, 0, 0) == Some(d2v)) by {
        assert(sp_apply_deltas(nh, d2v, 1) == Some(d2v));
    }
    assert(sp_filter_hunks(f.hunks, full, full, d2v, 1) == Some(Seq::<HunkV>::empty()));
    assert(sp_filter_hunks(f.hunks, full, full, 0, 0) == Some(seq![hv] + Seq::<HunkV>::empty()));
    assert(seq![hv] + Seq::<HunkV>::empty() =~= seq![h]);
    assert(f.hunks =~= seq![h]);
    assert(spec_filter_file(f, full, full) == Some(
        FileDiffV { path: f.path, hunks: f.hunks },
    ));
    assert(FileDiffV { path: f.path, hunks: f.hunks } == f);
}

// ----------------------------------------------------------------------------
// Subset invariant
// ----------------------------------------------------------------------------

/// Is `p` one of the old side's lines, numbered correctly?
pub open spec fn drawn_from_old(h: HunkV, p: (u32, Seq<char>)) -> bool {
    exists|k: int|
        0 <= k < h.old.lines.len() && p.0 == ((h.old.start + k) as u32) && p.1
            == #[trigger] h.old.lines[k]
}

/// Is `c` one of the new side's lines?
pub open spec fn drawn_from_new(h: HunkV, c: Seq<char>) -> bool {
    exists|k: int| 0 <= k < h.new.lines.len() && c == #[trigger] h.new.lines[k]
}

/// Every filtered deletion is a line of the original old side, with its
/// true number; every filtered addition is a line of the original new
/// side, or the bridge copy of the old side's last line. Nothing is
/// fabricated.
pub proof fn lemma_filter_hunk_subset(h: HunkV, ko: Set<u32>, kn: Set<u32>)
    ensures
        match spec_filter_hunk(h, ko, kn) {
            Some(fc) => (forall|i: int|
                0 <= i < fc.deletions.len() ==> drawn_from_old(h, #[trigger] fc.deletions[i]))
                && (forall|i: int|
                0 <= i < fc.additions.len() ==> drawn_from_new(h, #[trigger] fc.additions[i])
                    || (h.old.lines.len() > 0 && fc.additions[i] == h.old.lines.last())),
            None => true,
        },
{
    match spec_filter_hunk(h, ko, kn) {
        Some(fc) => {
            let od = kept_pairs(h.old, ko);
            let nw = kept_pairs(h.new, kn);
            let bridging = needs_bridge(h, kn) && h.old.lines.len() > 0;
            assert(line_pairs(h.old).len() == h.old.lines.len());
            assert(line_pairs(h.new).len() == h.new.lines.len());
            assert forall|i: int|
                0 <= i < fc.deletions.len() implies drawn_from_old(
                h,
                #[trigger] fc.deletions[i],
            ) by {
                if i < od.len() {
                    lemma_filter_elem(line_pairs(h.old), keep_pred(ko), i);
                    let k = choose|k: int|
                        0 <= k < line_pairs(h.old).len() && line_pairs(h.old)[k] == od[i];
                    assert(fc.deletions[i].0 == ((h.old.start + k) as u32));
                    assert(fc.deletions[i].1 == h.old.lines[k]);
                } else {
                    let k = h.old.lines.len() - 1;
                    assert(fc.deletions[i].0 == ((h.old.start + k) as u32));
                    assert(fc.deletions[i].1 == h.old.lines[k]);
                }
            }
            assert forall|i: int|
                0 <= i < fc.additions.len() implies drawn_from_new(
                h,
                #[trigger] fc.additions[i],
            ) || (h.old.lines.len() > 0 && fc.additions[i] == h.old.lines.last()) by {
                let adds = pair_contents(nw);
                assert(adds.len() == nw.len());
                if bridging && i == 0 {
                    assert(fc.additions[0] == h.old.lines.last());
                } else {
                    let j = if bridging {
                        i - 1
                    } else {
                        i
                    };
                    assert(fc.additions[i] == adds[j]);
                    assert(adds[j] == nw[j].1);
                    lemma_filter_elem(line_pairs(h.new), keep_pred(kn), j);
                    let k = choose|k: int|
                        0 <= k < line_pairs(h.new).len() && line_pairs(h.new)[k] == nw[j];
                    assert(fc.additions[i] == h.new.lines[k]);
                }
            }
        },
        None => {},
    }
}

// ----------------------------------------------------------------------------
// Renumbering of rebuilt hunks
// ----------------------------------------------------------------------------

/// A pure-insertion filter result always rebuilds as a single hunk whose
/// new-side start is the insertion point plus one plus the cumulative
/// delta; with no earlier hunks, exactly `old.start + 1`.
pub proof fn lemma_build_pure_insertion(fc: FcV, delta: int)
    requires
        fc.deletions.len() == 0,
        fc.additions.len() > 0,
    ensures
        match sp_build_hunks(fc, delta) {
            Some(hs) => hs.len() == 1 && hs[0].old.start == fc.insertion_point
                && hs[0].new.start == fc.insertion_point + 1 + delta && hs[0].old.lines.len()
                == 0 && hs[0].new.lines == fc.additions,
            None => !(0 <= fc.insertion_point + 1 + delta <= u32::MAX),
        },
{
}

/// A pure-deletion filter result rebuilds as deletion-only hunks; the
/// first one starts at the first kept deletion, and its new-side start
/// sits one line above it, shifted by the cumulative delta.
pub proof fn lemma_build_pure_deletion(fc: FcV, delta: int)
    requires
        fc.deletions.len() > 0,
        fc.additions.len() == 0,
    ensures
        match sp_build_hunks(fc, delta) {
            Some(hs) => hs.len() > 0 && hs[0].old.start == fc.deletions[0].0 && hs[0].new.start
                == fc.deletions[0].0 - 1 + delta && (forall|k: int|
                0 <= k < hs.len() ==> #[trigger] hs[k].new.lines.len() == 0),
            None => true,
        },
{
    let gs = crate::hunk::spec_groups(fc.deletions);
    crate::hunk::lemma_run_len_bounds(fc.deletions);
    let k0 = crate::hunk::run_len(fc.deletions);
    assert(gs[0] == fc.deletions.take(k0));
    assert(gs[0][0] == fc.deletions[0]);
    lemma_del_hunks_shape(gs, fc.old_missing_newline, fc.deletions.last().0, delta, 0);
}

/// Helper: every hunk built from deletion groups is deletion-only, and
/// the one built first starts at its group's first line number.
proof fn lemma_del_hunks_shape(
    gs: Seq<Seq<(u32, Seq<char>)>>,
    old_missing: bool,
    last_num: u32,
    delta: int,
    g: int,
)
    ensures
        match sp_del_hunks(gs, old_missing, last_num, delta, g) {
            Some(hs) => (0 <= g < gs.len() ==> hs.len() > 0) && (forall|k: int|
                0 <= k < hs.len() ==> #[trigger] hs[k].new.lines.len() == 0) && (0 <= g
                < gs.len() && gs[g].len() > 0 ==> hs.len() > 0 && hs[0].old.start == gs[g][0].0
                && hs[0].new.start == gs[g][0].0 - 1 + delta),
            None => true,
        },
    decreases gs.len() - g,
{
    if g < 0 || g >= gs.len() {
    } else {
        let grp = gs[g];
        if grp.len() > 0 {
            let ns = grp[0].0 - 1 + delta;
            if 0 <= ns <= u32::MAX {
                lemma_del_hunks_shape(gs, old_missing, last_num, delta - grp.len(), g + 1);
                let flag = old_missing && grp.last().0 == last_num;
                let hdef = HunkV {
                    old: MlV {
                        start: grp[0].0,
                        lines: pair_contents(grp),
                        missing_final_newline: flag,
                    },
                    new: MlV {
                        start: ns as u32,
                        lines: Seq::empty(),
                        missing_final_newline: false,
                    },
                };
                match sp_del_hunks(gs, old_missing, last_num, delta - grp.len(), g + 1) {
                    Some(rest) => {
                        let hs = seq![hdef] + rest;
                        assert(sp_del_hunks(gs, old_missing, last_num, delta, g) == Some(hs));
                        assert(hs[0] == hdef);
                        assert(hs[0].new.lines.len() == 0);
                        assert(hs[0].old.start == grp[0].0);
                        assert(hs[0].new.start == ns as u32);
                        assert forall|k: int|
                            0 <= k < hs.len() implies #[trigger] hs[k].new.lines.len()
                            == 0 by {
                            if k >= 1 {
                                assert(hs[k] == rest[k - 1]);
                            }
                        }
                    },
                    None => {},
                }
            } else {
                assert(sp_del_hunks(gs, old_missing, last_num, delta, g) is None);
            }
        } else {
            assert(sp_del_hunks(gs, old_missing, last_num, delta, g) is None);
        }
    }
}

} // verus!
