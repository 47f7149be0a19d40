//! One file's diff: the `diff --git` / `---` / `+++` header block and an
//! ordered list of hunks; parsing, rendering, and cross-hunk filtering with
//! cumulative position bookkeeping.

use vstd::prelude::*;

verus! {

use vstd::string::StrSliceExecFns;
use vstd::string::StringExecFns;
use crate::hunk::Hunk;
use crate::hunk::HunkV;
use crate::hunk::MlV;
use crate::hunk::FcV;
use crate::hunk::FilteredContent;
use crate::hunk::ModifiedLines;
use crate::hunk::spec_render_hunk;
use crate::hunk::spec_parse_hunk;
use crate::hunk::spec_filter_hunk;
use crate::hunk::spec_groups;
use crate::hunk::pair_contents;
use crate::hunk::group_contiguous_lines;
use crate::hunk::ContiguousGroup;
use crate::sel::LineSet;

// ----------------------------------------------------------------------------
// Data model
// ----------------------------------------------------------------------------

/// A complete diff for a single file.
#[derive(Debug, PartialEq, Eq)]
pub struct FileDiff {
    /// File path, as taken from the `+++ b/path` header.
    pub path: String,
    /// All hunks for this file, in the order they appeared.
    pub hunks: Vec<Hunk>,
}

/// View of [`FileDiff`].
pub struct FileDiffV {
    pub path: Seq<char>,
    pub hunks: Seq<HunkV>,
}

impl View for FileDiff {
    type V = FileDiffV;

    open spec fn view(&self) -> FileDiffV {
        FileDiffV {
            path: self.path@,
            hunks: Seq::new(self.hunks@.len(), |i: int| self.hunks@[i]@),
        }
    }
}

// ----------------------------------------------------------------------------
// Rendering
// ----------------------------------------------------------------------------

/// The renderings of a list of hunks, concatenated.
pub open spec fn spec_render_hunks(hs: Seq<HunkV>) -> Seq<char>
    decreases hs.len(),
{
    if hs.len() == 0 {
        Seq::empty()
    } else {
        spec_render_hunk(hs.first()) + spec_render_hunks(hs.drop_first())
    }
}

/// The three header lines naming the file, then its hunks.
pub open spec fn spec_render_file(f: FileDiffV) -> Seq<char> {
    "diff --git a/"@ + f.path + " b/"@ + f.path + "\n--- a/"@ + f.path + "\n+++ b/"@ + f.path
        + "\n"@ + spec_render_hunks(f.hunks)
}

/// Appending one more hunk to a rendered run of hunks.
pub proof fn lemma_render_hunks_snoc(hs: Seq<HunkV>, i: int)
    requires
        0 <= i < hs.len(),
    ensures
        spec_render_hunks(hs.take(i + 1)) == spec_render_hunks(hs.take(i)) + spec_render_hunk(
            hs[i],
        ),
    decreases i,
{
    if i == 0 {
        assert(hs.take(1).first() == hs[0]);
        assert(hs.take(1).drop_first() =~= Seq::<HunkV>::empty());
        assert(hs.take(0) =~= Seq::<HunkV>::empty());
        assert(spec_render_hunks(hs.take(1)) == spec_render_hunk(hs.take(1).first())
            + spec_render_hunks(hs.take(1).drop_first()));
        assert(spec_render_hunk(hs[0]) + Seq::<char>::empty() =~= spec_render_hunk(hs[0]));
        assert(spec_render_hunks(hs.take(1)) =~= spec_render_hunk(hs[0]));
        assert(spec_render_hunks(hs.take(i + 1)) =~= spec_render_hunks(hs.take(i))
            + spec_render_hunk(hs[i]));
    } else {
        lemma_render_hunks_snoc(hs.drop_first(), i - 1);
        assert(hs.take(i + 1).first() == hs[0]);
        assert(hs.take(i + 1).drop_first() =~= hs.drop_first().take(i));
        assert(hs.take(i).first() == hs[0]);
        assert(hs.take(i).drop_first() =~= hs.drop_first().take(i - 1));
        assert(hs.drop_first()[i - 1] == hs[i]);
        assert(spec_render_hunks(hs.take(i + 1)) =~= spec_render_hunks(hs.take(i))
            + spec_render_hunk(hs[i]));
    }
}

impl FileDiff {
    /// Render the file diff: `diff --git`, `---`, `+++` header lines, then
    /// every hunk in order.
    pub fn render(&self) -> (r: String)
        ensures
            r@ == spec_render_file(self@),
    {
        let mut out = String::new();
        out.append("diff --git a/");
        out.append(self.path.as_str());
        out.append(" b/");
        out.append(self.path.as_str());
        out.append("\n--- a/");
        out.append(self.path.as_str());
        out.append("\n+++ b/");
        out.append(self.path.as_str());
        out.append("\n");
        let ghost head = out@;
        let mut i: usize = 0;
        while i < self.hunks.len()
            invariant
                0 <= i <= self.hunks@.len(),
                self@.hunks.len() == self.hunks@.len(),
                forall|k: int| 0 <= k < self.hunks@.len() ==> self@.hunks[k] == self.hunks@[k]@,
                out@ == head + spec_render_hunks(self@.hunks.take(i as int)),
            decreases self.hunks@.len() - i,
        {
            let h = self.hunks[i].render();
            out.append(h.as_str());
            proof {
                lemma_render_hunks_snoc(self@.hunks, i as int);
                assert(out@ =~= head + spec_render_hunks(self@.hunks.take(i + 1)));
            }
            i += 1;
        }
        proof {
            assert(self@.hunks.take(self.hunks@.len() as int) =~= self@.hunks);
            assert(out@ =~= spec_render_file(self@));
        }
        out
    }
}

} // verus!

verus! {

// ----------------------------------------------------------------------------
// Building output hunks from filtered content
// ----------------------------------------------------------------------------

/// Total number of lines across a sequence of groups.
pub open spec fn sum_lens(gs: Seq<Seq<(u32, Seq<char>)>>) -> int
    decreases gs.len(),
{
    if gs.len() == 0 {
        0
    } else {
        gs.first().len() + sum_lens(gs.drop_first())
    }
}

pub proof fn lemma_sum_lens_nonneg(gs: Seq<Seq<(u32, Seq<char>)>>)
    ensures
        sum_lens(gs) >= 0,
    decreases gs.len(),
{
    if gs.len() > 0 {
        lemma_sum_lens_nonneg(gs.drop_first());
    }
}

/// One more group adds its length to the running total.
pub proof fn lemma_sum_lens_snoc(gs: Seq<Seq<(u32, Seq<char>)>>, g: int)
    requires
        0 <= g < gs.len(),
    ensures
        sum_lens(gs.take(g + 1)) == sum_lens(gs.take(g)) + gs[g].len(),
    decreases g,
{
    if g == 0 {
        assert(gs.take(1).first() == gs[0]);
        assert(gs.take(1).drop_first() =~= Seq::<Seq<(u32, Seq<char>)>>::empty());
        assert(gs.take(0) =~= Seq::<Seq<(u32, Seq<char>)>>::empty());
    } else {
        lemma_sum_lens_snoc(gs.drop_first(), g - 1);
        assert(gs.take(g + 1).first() == gs[0]);
        assert(gs.take(g + 1).drop_first() =~= gs.drop_first().take(g));
        assert(gs.take(g).first() == gs[0]);
        assert(gs.take(g).drop_first() =~= gs.drop_first().take(g - 1));
        assert(gs.drop_first()[g - 1] == gs[g]);
    }
}

/// The groups of `s` cover exactly its entries.
pub proof fn lemma_groups_sum(s: Seq<(u32, Seq<char>)>)
    ensures
        sum_lens(crate::hunk::spec_groups(s)) == s.len(),
    decreases s.len(),
{
    if s.len() > 0 {
        crate::hunk::lemma_run_len_bounds(s);
        let k = crate::hunk::run_len(s);
        lemma_groups_sum(s.skip(k));
        let gs = crate::hunk::spec_groups(s);
        assert(gs.first() == s.take(k));
        assert(gs.drop_first() =~= crate::hunk::spec_groups(s.skip(k)));
    }
}

/// Prefix sums never exceed the total.
pub proof fn lemma_sum_lens_prefix(gs: Seq<Seq<(u32, Seq<char>)>>, g: int)
    requires
        0 <= g <= gs.len(),
    ensures
        0 <= sum_lens(gs.take(g)) <= sum_lens(gs),
    decreases gs.len() - g,
{
    lemma_sum_lens_nonneg(gs.take(g));
    if g == gs.len() {
        assert(gs.take(g) =~= gs);
    } else {
        lemma_sum_lens_snoc(gs, g);
        lemma_sum_lens_prefix(gs, g + 1);
    }
}

/// Output hunks for a pure-deletion filter result: each maximal run of
/// consecutive old line numbers becomes one deletion hunk, whose new-side
/// start is shifted by the running delta; the no-newline flag rides on the
/// group that holds the last kept deletion.
pub open spec fn sp_del_hunks(
    gs: Seq<Seq<(u32, Seq<char>)>>,
    old_missing: bool,
    last_num: u32,
    delta: int,
    g: int,
) -> Option<Seq<HunkV>>
    decreases gs.len() - g,
{
    if g < 0 || g >= gs.len() {
        Some(Seq::empty())
    } else {
        let grp = gs[g];
        if grp.len() == 0 {
            None
        } else {
            let os = grp[0].0;
            let ns = os - 1 + delta;
            if 0 <= ns <= u32::MAX {
                let flag = old_missing && grp.last().0 == last_num;
                let h = HunkV {
                    old: MlV {
                        start: os,
                        lines: pair_contents(grp),
                        missing_final_newline: flag,
                    },
                    new: MlV {
                        start: ns as u32,
                        lines: Seq::empty(),
                        missing_final_newline: false,
                    },
                };
                match sp_del_hunks(gs, old_missing, last_num, delta - grp.len(), g + 1) {
                    None => None,
                    Some(rest) => Some(seq![h] + rest),
                }
            } else {
                None
            }
        }
    }
}

/// Output hunks for one hunk's filter result, given the cumulative delta
/// contributed by earlier hunks. Pure additions stay one hunk anchored at
/// the insertion point; pure deletions split per consecutive run; a mixed
/// result stays one hunk at the first kept deletion. `None` when a computed
/// new-side start would leave `u32`.
pub open spec fn sp_build_hunks(fc: FcV, delta: int) -> Option<Seq<HunkV>> {
    let has_d = fc.deletions.len() > 0;
    let has_a = fc.additions.len() > 0;
    if !has_d && has_a {
        let ns = fc.insertion_point + 1 + delta;
        if 0 <= ns <= u32::MAX {
            Some(
                seq![
                    HunkV {
                        old: MlV {
                            start: fc.insertion_point,
                            lines: Seq::empty(),
                            missing_final_newline: false,
                        },
                        new: MlV {
                            start: ns as u32,
                            lines: fc.additions,
                            missing_final_newline: fc.new_missing_newline,
                        },
                    },
                ],
            )
        } else {
            None
        }
    } else if has_d && !has_a {
        sp_del_hunks(
            spec_groups(fc.deletions),
            fc.old_missing_newline,
            fc.deletions.last().0,
            delta,
            0,
        )
    } else if has_d && has_a {
        let os = fc.deletions[0].0;
        let ns = os + delta;
        if 0 <= ns <= u32::MAX {
            Some(
                seq![
                    HunkV {
                        old: MlV {
                            start: os,
                            lines: pair_contents(fc.deletions),
                            missing_final_newline: fc.old_missing_newline,
                        },
                        new: MlV {
                            start: ns as u32,
                            lines: fc.additions,
                            missing_final_newline: fc.new_missing_newline,
                        },
                    },
                ],
            )
        } else {
            None
        }
    } else {
        Some(Seq::empty())
    }
}

/// Contents of a vector of numbered lines.
fn contents_vec(v: &Vec<(u32, String)>) -> (r: Vec<String>)
    ensures
        r.deep_view() == pair_contents(v.deep_view()),
{
    let mut out: Vec<String> = Vec::new();
    let mut i: usize = 0;
    while i < v.len()
        invariant
            0 <= i <= v@.len(),
            out.deep_view() == pair_contents(v.deep_view().take(i as int)),
        decreases v@.len() - i,
    {
        let ghost prev = out.deep_view();
        out.push(v[i].1.clone());
        proof {
            assert(v.deep_view()[i as int].1 == v@[i as int].1@);
            assert(v.deep_view().take(i + 1) =~= v.deep_view().take(i as int).push(
                v.deep_view()[i as int],
            ));
            assert(out.deep_view() =~= prev.push(v.deep_view()[i as int].1));
            assert(pair_contents(v.deep_view().take(i + 1)) =~= pair_contents(
                v.deep_view().take(i as int),
            ).push(v.deep_view()[i as int].1));
        }
        i += 1;
    }
    proof {
        assert(v.deep_view().take(v@.len() as int) =~= v.deep_view());
    }
    out
}

/// Build the output hunks for one filtered hunk; see [`sp_build_hunks`].
fn build_hunks_from_filtered(filtered: FilteredContent, cumulative_delta: i64) -> (r: Option<
    Vec<Hunk>,
>)
    ensures
        match r {
            Some(v) => sp_build_hunks(filtered@, cumulative_delta as int) == Some(
                v@.map_values(|h: Hunk| h@),
            ),
            None => sp_build_hunks(filtered@, cumulative_delta as int) is None,
        },
{
    let ghost fc = filtered@;
    proof {
        assert(fc.deletions.len() == filtered.deletions@.len());
        assert(fc.additions.len() == filtered.additions@.len());
    }
    let has_d = filtered.deletions.len() > 0;
    let has_a = filtered.additions.len() > 0;
    if !has_d && has_a {
        let ns = (filtered.insertion_point as i128) + 1 + (cumulative_delta as i128);
        if ns < 0 || ns > (u32::MAX as i128) {
            return None;
        }
        let h = Hunk {
            old: ModifiedLines {
                start: filtered.insertion_point,
                lines: Vec::new(),
                missing_final_newline: false,
            },
            new: ModifiedLines {
                start: ns as u32,
                lines: filtered.additions,
                missing_final_newline: filtered.new_missing_newline,
            },
        };
        let mut out: Vec<Hunk> = Vec::new();
        out.push(h);
        proof {
            assert(out@.map_values(|hh: Hunk| hh@) =~= seq![out@[0]@]);
            assert(out@[0]@.old.lines =~= Seq::<Seq<char>>::empty());
            assert(sp_build_hunks(fc, cumulative_delta as int) == Some(
                out@.map_values(|hh: Hunk| hh@),
            ));
        }
        Some(out)
    } else if has_d && !has_a {
        build_deletion_hunks(filtered, cumulative_delta)
    } else if has_d && has_a {
        let os = filtered.deletions[0].0;
        proof {
            assert(fc.deletions[0].0 == filtered.deletions@[0].0);
        }
        let ns = (os as i128) + (cumulative_delta as i128);
        if ns < 0 || ns > (u32::MAX as i128) {
            return None;
        }
        let old_lines = contents_vec(&filtered.deletions);
        let h = Hunk {
            old: ModifiedLines {
                start: os,
                lines: old_lines,
                missing_final_newline: filtered.old_missing_newline,
            },
            new: ModifiedLines {
                start: ns as u32,
                lines: filtered.additions,
                missing_final_newline: filtered.new_missing_newline,
            },
        };
        let mut out: Vec<Hunk> = Vec::new();
        out.push(h);
        proof {
            assert(out@.map_values(|hh: Hunk| hh@) =~= seq![out@[0]@]);
            assert(sp_build_hunks(fc, cumulative_delta as int) == Some(
                out@.map_values(|hh: Hunk| hh@),
            ));
        }
        Some(out)
    } else {
        let out: Vec<Hunk> = Vec::new();
        proof {
            assert(out@.map_values(|hh: Hunk| hh@) =~= Seq::<HunkV>::empty());
        }
        Some(out)
    }
}

/// The pure-deletion case of [`build_hunks_from_filtered`].
fn build_deletion_hunks(filtered: FilteredContent, cumulative_delta: i64) -> (r: Option<
    Vec<Hunk>,
>)
    requires
        filtered@.deletions.len() > 0,
        filtered@.additions.len() == 0,
    ensures
        match r {
            Some(v) => sp_build_hunks(filtered@, cumulative_delta as int) == Some(
                v@.map_values(|h: Hunk| h@),
            ),
            None => sp_build_hunks(filtered@, cumulative_delta as int) is None,
        },
{
    let ghost fc = filtered@;
    let ghost dels = fc.deletions;
    let ghost gspec = spec_groups(dels);
    let ghost om = fc.old_missing_newline;
    let ghost lastn = dels.last().0;
    proof {
        assert(dels.len() == filtered.deletions@.len());
        lemma_groups_sum(dels);
    }
    let groups = group_contiguous_lines(&filtered.deletions);
    let dlen = filtered.deletions.len();
    let last_num = filtered.deletions[dlen - 1].0;
    proof {
        assert(dels[dels.len() - 1].0 == filtered.deletions@[dlen - 1].0);
        assert(lastn == last_num);
    }
    let mut out: Vec<Hunk> = Vec::new();
    let mut local: i128 = cumulative_delta as i128;
    let mut g: usize = 0;
    proof {
        assert(gspec.take(0) =~= Seq::<Seq<(u32, Seq<char>)>>::empty());
        assert(out@.map_values(|hh: Hunk| hh@) =~= Seq::<HunkV>::empty());
        assert(Seq::<HunkV>::empty() + Seq::<HunkV>::empty() =~= Seq::<HunkV>::empty());
        assert forall|k: int| 0 <= k < gspec.len() implies #[trigger] gspec[k].len() > 0 by {
            assert(groups@[k].lines.deep_view() == gspec[k]);
            assert(groups@[k].lines.deep_view().len() > 0);
        }
    }
    while g < groups.len()
        invariant
            0 <= g <= groups@.len(),
            groups@.len() == gspec.len(),
            gspec == spec_groups(dels),
            sum_lens(gspec) == dels.len(),
            dels.len() == filtered.deletions@.len(),
            forall|k: int|
                0 <= k < groups@.len() ==> #[trigger] groups@[k].lines.deep_view() == gspec[k],
            forall|k: int|
                0 <= k < groups@.len() ==> #[trigger] groups@[k].first_line_num == gspec[k][0].0,
            local == cumulative_delta - sum_lens(gspec.take(g as int)),
            dels.len() <= usize::MAX,
            lastn == last_num,
            lastn == dels.last().0,
            om == filtered.old_missing_newline,
            fc == filtered@,
            dels == fc.deletions,
            fc.deletions.len() > 0,
            fc.additions.len() == 0,
            forall|k: int| 0 <= k < gspec.len() ==> #[trigger] gspec[k].len() > 0,
            match sp_del_hunks(gspec, om, lastn, local as int, g as int) {
                None => sp_del_hunks(gspec, om, lastn, cumulative_delta as int, 0) is None,
                Some(rest) => sp_del_hunks(gspec, om, lastn, cumulative_delta as int, 0)
                    == Some(out@.map_values(|hh: Hunk| hh@) + rest),
            },
        decreases groups@.len() - g,
    {
        proof {
            lemma_sum_lens_prefix(gspec, g as int);
            lemma_sum_lens_snoc(gspec, g as int);
            lemma_sum_lens_prefix(gspec, g + 1);
        }
        let grp = &groups[g];
        let glen = grp.lines.len();
        proof {
            assert(groups@[g as int].lines.deep_view() == gspec[g as int]);
            assert(groups@[g as int].first_line_num == gspec[g as int][0].0);
            assert(grp.lines.deep_view() == gspec[g as int]);
            assert(grp.lines.deep_view().len() == grp.lines@.len());
            assert(gspec[g as int].len() == grp.lines@.len());
            assert(gspec[g as int].len() > 0);
        }
        let os = grp.first_line_num;
        let ns = (os as i128) - 1 + local;
        if ns < 0 || ns > (u32::MAX as i128) {
            proof {
                assert(sp_del_hunks(gspec, om, lastn, local as int, g as int) is None);
                assert(sp_build_hunks(fc, cumulative_delta as int) == sp_del_hunks(
                    gspec,
                    om,
                    lastn,
                    cumulative_delta as int,
                    0,
                ));
            }
            return None;
        }
        let flag = filtered.old_missing_newline && grp.lines[glen - 1].0 == last_num;
        proof {
            assert(grp.lines.deep_view()[glen - 1].0 == grp.lines@[glen - 1].0);
            assert(gspec[g as int].last() == grp.lines.deep_view()[glen - 1]);
        }
        let old_lines = contents_vec(&grp.lines);
        let h = Hunk {
            old: ModifiedLines {
                start: os,
                lines: old_lines,
                missing_final_newline: flag,
            },
            new: ModifiedLines {
                start: ns as u32,
                lines: Vec::new(),
                missing_final_newline: false,
            },
        };
        let ghost hv = HunkV {
            old: MlV {
                start: os,
                lines: pair_contents(gspec[g as int]),
                missing_final_newline: flag,
            },
            new: MlV {
                start: ns as u32,
                lines: Seq::empty(),
                missing_final_newline: false,
            },
        };
        let ghost prev_out = out@.map_values(|hh: Hunk| hh@);
        out.push(h);
        proof {
            assert(h@ == hv) by {
                assert(h@.old.lines == pair_contents(gspec[g as int]));
                assert(h@.new.lines =~= Seq::<Seq<char>>::empty());
            }
            assert(out@.map_values(|hh: Hunk| hh@) =~= prev_out.push(hv));
            let grp_s = gspec[g as int];
            let l2: int = (local as int) - grp_s.len();
            assert(os == grp_s[0].0);
            assert((ns as int) == grp_s[0].0 - 1 + (local as int));
            assert(0 <= (ns as int) <= u32::MAX);
            assert(flag == (om && grp_s.last().0 == lastn));
            assert(sp_del_hunks(gspec, om, lastn, local as int, g as int) == (
            match sp_del_hunks(gspec, om, lastn, l2, g + 1) {
                None => None::<Seq<HunkV>>,
                Some(rest) => Some(seq![hv] + rest),
            }));
            match sp_del_hunks(gspec, om, lastn, l2, g + 1) {
                None => {},
                Some(rest) => {
                    assert(prev_out + (seq![hv] + rest) =~= prev_out.push(hv) + rest);
                },
            }
        }
        local = local - (glen as i128);
        g += 1;
    }
    proof {
        assert(gspec.take(gspec.len() as int) =~= gspec);
        assert(sp_del_hunks(gspec, om, lastn, local as int, gspec.len() as int) == Some(
            Seq::<HunkV>::empty(),
        ));
        assert(out@.map_values(|hh: Hunk| hh@) + Seq::<HunkV>::empty() =~= out@.map_values(
            |hh: Hunk| hh@,
        ));
        assert(sp_build_hunks(fc, cumulative_delta as int) == sp_del_hunks(
            gspec,
            om,
            lastn,
            cumulative_delta as int,
            0,
        ));
    }
    Some(out)
}

} // verus!

verus! {

// ----------------------------------------------------------------------------
// Filtering a whole file
// ----------------------------------------------------------------------------

/// Fold the net line-count change of `hs[j..]` into `delta`, failing if an
/// intermediate value leaves the `i64` range.
pub open spec fn sp_apply_deltas(hs: Seq<HunkV>, delta: int, j: int) -> Option<int>
    decreases hs.len() - j,
{
    if j < 0 || j >= hs.len() {
        Some(delta)
    } else {
        let d2 = delta + hs[j].new.lines.len() - hs[j].old.lines.len();
        if i64::MIN <= d2 <= i64::MAX {
            sp_apply_deltas(hs, d2, j + 1)
        } else {
            None
        }
    }
}

/// Filter the hunks from index `k` on, threading the cumulative delta:
/// hunks whose filter keeps nothing are dropped; the others contribute
/// their rebuilt output hunks.
pub open spec fn sp_filter_hunks(
    hunks: Seq<HunkV>,
    ko: Set<u32>,
    kn: Set<u32>,
    delta: int,
    k: int,
) -> Option<Seq<HunkV>>
    decreases hunks.len() - k,
{
    if k < 0 || k >= hunks.len() {
        Some(Seq::empty())
    } else {
        match spec_filter_hunk(hunks[k], ko, kn) {
            None => sp_filter_hunks(hunks, ko, kn, delta, k + 1),
            Some(fc) => match sp_build_hunks(fc, delta) {
                None => None,
                Some(new_hunks) => match sp_apply_deltas(new_hunks, delta, 0) {
                    None => None,
                    Some(d2) => match sp_filter_hunks(hunks, ko, kn, d2, k + 1) {
                        None => None,
                        Some(rest) => Some(new_hunks + rest),
                    },
                },
            },
        }
    }
}

/// What filtering a file yields: the surviving rebuilt hunks, or `None`
/// when no line matched anywhere (or a rebuilt position left `u32`).
pub open spec fn spec_filter_file(f: FileDiffV, ko: Set<u32>, kn: Set<u32>) -> Option<
    FileDiffV,
> {
    match sp_filter_hunks(f.hunks, ko, kn, 0, 0) {
        None => None,
        Some(hs) => if hs.len() == 0 {
            None
        } else {
            Some(FileDiffV { path: f.path, hunks: hs })
        },
    }
}

impl FileDiff {
    /// Filter lines across all hunks against the two line-number
    /// selections. Hunks in which nothing was kept are dropped; each
    /// surviving hunk is rebuilt per [`sp_build_hunks`], with every later
    /// hunk's new-side start shifted by the net line-count change of the
    /// output hunks emitted so far. Returns `None` when nothing matched.
    pub fn filter(self, keep_old: &LineSet, keep_new: &LineSet) -> (r: Option<Self>)
        ensures
            match r {
                Some(f) => spec_filter_file(self@, keep_old.sel(), keep_new.sel()) == Some(f@),
                None => spec_filter_file(self@, keep_old.sel(), keep_new.sel()) is None,
            },
    {
        let ghost ko = keep_old.sel();
        let ghost kn = keep_new.sel();
        let ghost hv = self@.hunks;
        let mut out: Vec<Hunk> = Vec::new();
        let mut delta: i64 = 0;
        let mut k: usize = 0;
        proof {
            assert(out@.map_values(|h: Hunk| h@) =~= Seq::<HunkV>::empty());
        }
        while k < self.hunks.len()
            invariant
                0 <= k <= self.hunks@.len(),
                hv == self@.hunks,
                hv.len() == self.hunks@.len(),
                forall|i: int| 0 <= i < hv.len() ==> #[trigger] hv[i] == self.hunks@[i]@,
                match sp_filter_hunks(hv, ko, kn, delta as int, k as int) {
                    None => sp_filter_hunks(hv, ko, kn, 0, 0) is None,
                    Some(rest) => sp_filter_hunks(hv, ko, kn, 0, 0) == Some(
                        out@.map_values(|h: Hunk| h@) + rest,
                    ),
                },
                ko == keep_old.sel(),
                kn == keep_new.sel(),
            decreases self.hunks@.len() - k,
        {
            let fco = self.hunks[k].filter(keep_old, keep_new);
            match fco {
                None => {
                    proof {
                        assert(spec_filter_hunk(hv[k as int], ko, kn) is None);
                    }
                },
                Some(fc) => {
                    let ghost fc_view = fc@;
                    let built = build_hunks_from_filtered(fc, delta);
                    match built {
                        None => {
                            proof {
                                assert(sp_filter_hunks(hv, ko, kn, delta as int, k as int)
                                    is None);
                            }
                            return None;
                        },
                        Some(mut new_hunks) => {
                            let ghost nhv = new_hunks@.map_values(|h: Hunk| h@);
                            let ghost delta0 = delta;
                            let ghost fcv = fc_view;
                            let ghost prev_out = out@.map_values(|h: Hunk| h@);
                            let mut j: usize = 0;
                            while j < new_hunks.len()
                                invariant
                                    0 <= j <= new_hunks@.len(),
                                    nhv == new_hunks@.map_values(|h: Hunk| h@),
                                    nhv.len() == new_hunks@.len(),
                                    sp_apply_deltas(nhv, delta0 as int, 0) == sp_apply_deltas(
                                        nhv,
                                        delta as int,
                                        j as int,
                                    ),
                                    0 <= k < hv.len(),
                                    hv == self@.hunks,
                                    ko == keep_old.sel(),
                                    kn == keep_new.sel(),
                                    spec_filter_hunk(hv[k as int], ko, kn) == Some(fcv),
                                    sp_build_hunks(fcv, delta0 as int) == Some(nhv),
                                    prev_out == out@.map_values(|h: Hunk| h@),
                                    match sp_filter_hunks(hv, ko, kn, delta0 as int, k as int) {
                                        None => sp_filter_hunks(hv, ko, kn, 0, 0) is None,
                                        Some(rest) => sp_filter_hunks(hv, ko, kn, 0, 0) == Some(
                                            prev_out + rest,
                                        ),
                                    },
                                decreases new_hunks@.len() - j,
                            {
                                let nl = new_hunks[j].new.lines.len();
                                let ol = new_hunks[j].old.lines.len();
                                proof {
                                    assert(nhv[j as int] == new_hunks@[j as int]@);
                                    assert(nhv[j as int].new.lines.len() == nl);
                                    assert(nhv[j as int].old.lines.len() == ol);
                                }
                                let d2 = (delta as i128) + (nl as i128) - (ol as i128);
                                if d2 < (i64::MIN as i128) || d2 > (i64::MAX as i128) {
                                    proof {
                                        assert(sp_apply_deltas(nhv, delta as int, j as int)
                                            is None);
                                        assert(sp_filter_hunks(
                                            hv,
                                            ko,
                                            kn,
                                            delta0 as int,
                                            k as int,
                                        ) is None);
                                    }
                                    return None;
                                }
                                delta = d2 as i64;
                                j += 1;
                            }
                            proof {
                                assert(sp_apply_deltas(nhv, delta as int, nhv.len() as int)
                                    == Some(delta as int));
                                assert(sp_apply_deltas(nhv, delta0 as int, 0) == Some(
                                    delta as int,
                                ));
                            }
                            out.append(&mut new_hunks);
                            proof {
                                assert(out@.map_values(|h: Hunk| h@) =~= prev_out + nhv);
                                match sp_filter_hunks(hv, ko, kn, delta as int, k + 1) {
                                    None => {},
                                    Some(rest) => {
                                        assert((prev_out + nhv) + rest =~= prev_out + (nhv
                                            + rest));
                                    },
                                }
                            }
                        },
                    }
                },
            }
            k += 1;
        }
        proof {
            assert(sp_filter_hunks(hv, ko, kn, delta as int, hv.len() as int) == Some(
                Seq::<HunkV>::empty(),
            ));
            assert(out@.map_values(|h: Hunk| h@) + Seq::<HunkV>::empty() =~= out@.map_values(
                |h: Hunk| h@,
            ));
        }
        if out.len() == 0 {
            proof {
                assert(out@.map_values(|h: Hunk| h@).len() == 0);
            }
            return None;
        }
        let f = FileDiff { path: self.path, hunks: out };
        proof {
            assert(f@.hunks =~= f.hunks@.map_values(|h: Hunk| h@));
            assert(spec_filter_file(self@, ko, kn) == Some(f@)) by {
                assert(f@.path == self@.path);
            }
        }
        Some(f)
    }
}

} // verus!

verus! {

use crate::text::sp_tag;
use crate::text::find_sub;
use crate::text::lines_of;
use crate::text::strip_cr_end;
use crate::text::x_tag;
use crate::text::x_find_sub;
use crate::text::lemma_find_sub;
use crate::text::occurs_at;

// ----------------------------------------------------------------------------
// Parsing a single-file diff
// ----------------------------------------------------------------------------

/// The path named by the first `+++ b/` header line, if any; a matching
/// line with nothing after the prefix makes the whole search fail.
pub open spec fn sp_find_path(ls: Seq<Seq<char>>) -> Option<Seq<char>>
    decreases ls.len(),
{
    if ls.len() == 0 {
        None
    } else {
        match sp_tag(ls.first(), "+++ b/"@) {
            Some(p) => if p.len() > 0 {
                Some(p)
            } else {
                None
            },
            None => sp_find_path(ls.drop_first()),
        }
    }
}

/// All positions at which `pat` occurs in `s` at or after `from`,
/// ascending.
pub open spec fn find_from(s: Seq<char>, pat: Seq<char>, from: int) -> Seq<int>
    decreases s.len() - from,
{
    if from < 0 || from > s.len() {
        Seq::empty()
    } else {
        match find_sub(s.skip(from), pat) {
            None => Seq::empty(),
            Some(p) => if 0 <= p && from + p < s.len() {
                seq![from + p] + find_from(s, pat, from + p + 1)
            } else if 0 <= p {
                seq![from + p]
            } else {
                Seq::empty()
            },
        }
    }
}

/// The hunks parsed from the sections starting at each mark: section `k`
/// runs from just after mark `k` to just after mark `k + 1` (or the end of
/// the text). A section that fails to parse as a hunk fails the whole
/// list: hunk parsing is strict within a file.
pub open spec fn sp_parse_sections(s: Seq<char>, occ: Seq<int>, k: int) -> Option<Seq<HunkV>>
    decreases occ.len() - k,
{
    if k < 0 || k >= occ.len() {
        Some(Seq::empty())
    } else {
        let st = occ[k] + 1;
        let en = if k + 1 < occ.len() {
            occ[k + 1] + 1
        } else {
            s.len() as int
        };
        let sec = if 0 <= st <= en <= s.len() {
            s.subrange(st, en)
        } else {
            Seq::empty()
        };
        match spec_parse_hunk(sec) {
            Some(h) => match sp_parse_sections(s, occ, k + 1) {
                Some(t) => Some(seq![h] + t),
                None => None,
            },
            None => None,
        }
    }
}

/// What parsing a single-file diff yields: the path from the `+++ b/`
/// header and the hunks of the sections delimited by newline-`@@ ` marks;
/// `None` when there is no usable path, no hunk mark at all, or any
/// section is malformed — a malformed hunk invalidates the whole file.
pub open spec fn spec_parse_file(s: Seq<char>) -> Option<FileDiffV> {
    match sp_find_path(lines_of(s)) {
        None => None,
        Some(path) => {
            let occ = find_from(s, "\n@@ "@, 0);
            if occ.len() == 0 {
                None
            } else {
                match sp_parse_sections(s, occ, 0) {
                    Some(hunks) => Some(FileDiffV { path, hunks }),
                    None => None,
                }
            }
        },
    }
}

/// Find the first `+++ b/` header line and return the path after it.
fn find_path(s: &str) -> (r: Option<String>)
    ensures
        match r {
            Some(p) => sp_find_path(lines_of(s@)) == Some(p@),
            None => sp_find_path(lines_of(s@)) is None,
        },
{
    let mut rest: &str = s;
    proof {
        reveal_strlit("\n");
    }
    loop
        invariant
            sp_find_path(lines_of(s@)) == sp_find_path(lines_of(rest@)),
        ensures
            sp_find_path(lines_of(rest@)) == sp_find_path(lines_of(s@)),
            match sp_find_path(lines_of(rest@)) {
                Some(p) => true,
                None => true,
            },
        decreases rest@.len(),
    {
        proof {
            reveal_strlit("\n");
            assert("\n"@ =~= seq!['\n']);
        }
        let rn = rest.unicode_len();
        if rn == 0 {
            proof {
                assert(lines_of(rest@).len() == 0);
            }
            return None;
        }
        let nl = x_find_sub(rest, "\n");
        let line: &str;
        let next: &str;
        match nl {
            Some(p) => {
                proof {
                    lemma_find_sub(rest@, "\n"@);
                    assert("\n"@ =~= seq!['\n']);
                    assert(occurs_at(rest@, "\n"@, p as int));
                }
                let mut line_end = p;
                if p >= 1 && rest.get_char(p - 1) == '\r' {
                    line_end = p - 1;
                }
                line = rest.substring_char(0, line_end);
                next = rest.substring_char(p + 1, rn);
                proof {
                    assert(rest@.take(p as int).len() == p as int);
                    if p >= 1 && rest@[p - 1] == '\r' {
                        assert(rest@.take(p as int).last() == rest@[p - 1]);
                        assert(line@ =~= rest@.take(p as int).drop_last());
                        assert(line@ =~= strip_cr_end(rest@.take(p as int)));
                    } else {
                        if rest@.take(p as int).len() > 0 {
                            assert(rest@.take(p as int).last() == rest@[p - 1]);
                        }
                        assert(line@ =~= strip_cr_end(rest@.take(p as int)));
                    }
                    assert(next@ =~= rest@.skip(p + 1));
                    assert(find_sub(rest@, seq!['\n']) == Some(p as int));
                    assert(lines_of(rest@) == seq![strip_cr_end(rest@.take(p as int))]
                        + lines_of(rest@.skip(p + 1)));
                }
            },
            None => {
                proof {
                    assert(find_sub(rest@, seq!['\n']) is None);
                    assert(lines_of(rest@) == seq![rest@]);
                }
                line = rest;
                next = rest.substring_char(rn, rn);
                proof {
                    assert(next@ =~= Seq::<char>::empty());
                }
            },
        }
        let ghost cur_lines = lines_of(rest@);
        proof {
            assert(cur_lines.len() >= 1);
            assert(cur_lines.first() == line@);
            assert(cur_lines.drop_first() =~= lines_of(next@));
        }
        match x_tag(line, "+++ b/") {
            Some(tl) => {
                if tl.unicode_len() > 0 {
                    return Some(tl.to_owned());
                } else {
                    return None;
                }
            },
            None => {
                proof {
                    assert(sp_find_path(cur_lines) == sp_find_path(lines_of(next@)));
                }
                rest = next;
            },
        }
    }
}

/// Collect all positions of `pat` in `s`, ascending.
pub(crate) fn find_all_marks(s: &str, pat: &str) -> (r: Vec<usize>)
    requires
        pat@.len() >= 1,
    ensures
        r@.map_values(|x: usize| x as int) == find_from(s@, pat@, 0),
        forall|i: int| 0 <= i < r@.len() ==> #[trigger] r@[i] + pat@.len() <= s@.len(),
        forall|i: int, j: int| 0 <= i < j < r@.len() ==> r@[i] < r@[j],
{
    let sn = s.unicode_len();
    let mut out: Vec<usize> = Vec::new();
    let mut from: usize = 0;
    proof {
        assert(out@.map_values(|x: usize| x as int) =~= Seq::<int>::empty());
        assert(Seq::<int>::empty() + find_from(s@, pat@, 0) =~= find_from(s@, pat@, 0));
    }
    loop
        invariant
            0 <= from <= sn,
            sn == s@.len(),
            pat@.len() >= 1,
            find_from(s@, pat@, 0) == out@.map_values(|x: usize| x as int) + find_from(
                s@,
                pat@,
                from as int,
            ),
            forall|i: int| 0 <= i < out@.len() ==> #[trigger] out@[i] + pat@.len() <= s@.len(),
            forall|i: int| 0 <= i < out@.len() ==> #[trigger] out@[i] < from,
            forall|i: int, j: int| 0 <= i < j < out@.len() ==> out@[i] < out@[j],
        ensures
            find_from(s@, pat@, from as int) == Seq::<int>::empty(),
        decreases sn - from,
    {
        let tail = s.substring_char(from, sn);
        proof {
            assert(tail@ =~= s@.skip(from as int));
        }
        match x_find_sub(tail, pat) {
            None => {
                break ;
            },
            Some(p) => {
                proof {
                    lemma_find_sub(tail@, pat@);
                    assert(occurs_at(tail@, pat@, p as int));
                    assert(p + pat@.len() <= tail@.len());
                }
                let abs = from + p;
                let ghost prev = out@.map_values(|x: usize| x as int);
                out.push(abs);
                proof {
                    assert(out@.map_values(|x: usize| x as int) =~= prev.push(abs as int));
                    assert(find_from(s@, pat@, from as int) == seq![abs as int] + find_from(
                        s@,
                        pat@,
                        abs + 1,
                    ));
                    assert(prev + (seq![abs as int] + find_from(s@, pat@, abs + 1))
                        =~= prev.push(abs as int) + find_from(s@, pat@, abs + 1));
                }
                from = abs + 1;
            },
        }
    }
    proof {
        assert(out@.map_values(|x: usize| x as int) + Seq::<int>::empty() =~= out@.map_values(
            |x: usize| x as int,
        ));
    }
    out
}

impl FileDiff {
    /// Parse a single-file diff: take the path from its `+++ b/` header,
    /// split the text at each line starting `@@ `, and parse each section
    /// as a hunk. Returns `None` when no path or no hunk mark is found,
    /// or when any section is malformed: a malformed hunk invalidates the
    /// whole file.
    pub fn parse(text: &str) -> (r: Option<Self>)
        ensures
            match r {
                Some(f) => spec_parse_file(text@) == Some(f@),
                None => spec_parse_file(text@) is None,
            },
    {
        let path_s = match find_path(text) {
            None => {
                return None;
            },
            Some(p) => p,
        };
        proof {
            reveal_strlit("\n@@ ");
        }
        let occ = find_all_marks(text, "\n@@ ");
        let ghost occs = occ@.map_values(|x: usize| x as int);
        if occ.len() == 0 {
            proof {
                assert(occs.len() == 0);
            }
            return None;
        }
        let sn = text.unicode_len();
        let mut hunks: Vec<Hunk> = Vec::new();
        let mut k: usize = 0;
        proof {
            assert(hunks@.map_values(|h: Hunk| h@) =~= Seq::<HunkV>::empty());
            match sp_parse_sections(text@, occs, 0) {
                Some(t) => {
                    assert(Seq::<HunkV>::empty() + t =~= t);
                },
                None => {},
            }
        }
        while k < occ.len()
            invariant
                0 <= k <= occ@.len(),
                sn == text@.len(),
                occs == occ@.map_values(|x: usize| x as int),
                occs.len() == occ@.len(),
                forall|i: int| 0 <= i < occ@.len() ==> #[trigger] occ@[i] + 4 <= text@.len(),
                forall|i: int, j: int| 0 <= i < j < occ@.len() ==> occ@[i] < occ@[j],
                sp_find_path(lines_of(text@)) == Some(path_s@),
                occs == find_from(text@, "\n@@ "@, 0),
                occs.len() > 0,
                match sp_parse_sections(text@, occs, k as int) {
                    Some(t) => sp_parse_sections(text@, occs, 0) == Some(
                        hunks@.map_values(|h: Hunk| h@) + t,
                    ),
                    None => sp_parse_sections(text@, occs, 0) is None,
                },
            decreases occ@.len() - k,
        {
            let st = occ[k] + 1;
            let en = if k + 1 < occ.len() {
                occ[k + 1] + 1
            } else {
                sn
            };
            proof {
                assert(occs[k as int] == occ@[k as int]);
                if k + 1 < occ@.len() {
                    assert(occs[k + 1] == occ@[k + 1]);
                    assert(occ@[k as int] < occ@[k + 1]);
                }
            }
            let sec = text.substring_char(st, en);
            proof {
                assert(sec@ =~= text@.subrange(st as int, en as int));
            }
            let ghost prev = hunks@.map_values(|h: Hunk| h@);
            match Hunk::parse(sec) {
                Some(h) => {
                    hunks.push(h);
                    proof {
                        assert(hunks@.map_values(|hh: Hunk| hh@) =~= prev.push(h@));
                        match sp_parse_sections(text@, occs, k + 1) {
                            Some(t) => {
                                assert(sp_parse_sections(text@, occs, k as int) == Some(
                                    seq![h@] + t,
                                ));
                                assert(prev + (seq![h@] + t) =~= prev.push(h@) + t);
                            },
                            None => {
                                assert(sp_parse_sections(text@, occs, k as int) is None);
                            },
                        }
                    }
                },
                None => {
                    proof {
                        assert(sp_parse_sections(text@, occs, k as int) is None);
                        assert(sp_parse_sections(text@, occs, 0) is None);
                        assert(spec_parse_file(text@) is None);
                    }
                    return None;
                },
            }
            k += 1;
        }
        proof {
            assert(sp_parse_sections(text@, occs, occs.len() as int) == Some(
                Seq::<HunkV>::empty(),
            ));
            assert(hunks@.map_values(|h: Hunk| h@) + Seq::<HunkV>::empty() =~= hunks@.map_values(
                |h: Hunk| h@,
            ));
        }
        let f = FileDiff { path: path_s, hunks };
        proof {
            assert(f@.hunks =~= f.hunks@.map_values(|h: Hunk| h@));
            assert(spec_parse_file(text@) == Some(f@));
        }
        Some(f)
    }
}

} // verus!
