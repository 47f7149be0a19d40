//! The full multi-file diff: an ordered list of per-file diffs, parsed
//! from raw `diff --git` sections, filtered by per-path line selections,
//! and rendered back to patch text.

use vstd::prelude::*;

verus! {

use vstd::string::StrSliceExecFns;
use vstd::string::StringExecFns;
use crate::file::FileDiff;
use crate::file::FileDiffV;
use crate::file::spec_parse_file;
use crate::file::spec_filter_file;
use crate::file::spec_render_file;
use crate::file::find_from;
use crate::hunk::Hunk;
use crate::hunk::ModifiedLines;
use crate::sel::PathFilter;
use crate::text::x_find_sub;
use crate::text::lemma_find_sub;
use crate::text::occurs_at;

/// A complete diff containing changes for multiple files.
#[derive(Debug)]
pub struct Diff {
    /// All file diffs, in the order their sections appeared.
    pub files: Vec<FileDiff>,
}

/// View of [`Diff`].
pub struct DiffV {
    pub files: Seq<FileDiffV>,
}

impl View for Diff {
    type V = DiffV;

    open spec fn view(&self) -> DiffV {
        DiffV { files: Seq::new(self.files@.len(), |i: int| self.files@[i]@) }
    }
}

// ----------------------------------------------------------------------------
// Parsing
// ----------------------------------------------------------------------------

/// The files parsed from the sections starting at each `diff --git ` mark:
/// section `k` runs from mark `k` to mark `k + 1` (or the end); a section
/// that fails to parse as a file diff is skipped — parsing is best-effort
/// across files, strict within one.
pub open spec fn sp_parse_files(s: Seq<char>, occ: Seq<int>, k: int) -> Seq<FileDiffV>
    decreases occ.len() - k,
{
    if k < 0 || k >= occ.len() {
        Seq::empty()
    } else {
        let st = occ[k];
        let en = if k + 1 < occ.len() {
            occ[k + 1]
        } else {
            s.len() as int
        };
        let sec = if 0 <= st <= en <= s.len() {
            s.subrange(st, en)
        } else {
            Seq::empty()
        };
        match spec_parse_file(sec) {
            Some(f) => seq![f] + sp_parse_files(s, occ, k + 1),
            None => sp_parse_files(s, occ, k + 1),
        }
    }
}

/// What parsing a whole diff yields: one [`FileDiffV`] per well-formed
/// `diff --git ` section, in order; text without any mark yields no files.
pub open spec fn spec_parse_diff(s: Seq<char>) -> Seq<FileDiffV> {
    sp_parse_files(s, find_from(s, "diff --git "@, 0), 0)
}

impl Diff {
    /// Parse complete diff output: split the text at each `diff --git `
    /// mark and parse each section as one file's diff, skipping sections
    /// that fail to parse.
    pub fn parse(text: &str) -> (r: Self)
        ensures
            r@.files == spec_parse_diff(text@),
    {
        proof {
            reveal_strlit("diff --git ");
        }
        let occ = crate::file::find_all_marks(text, "diff --git ");
        let ghost occs = occ@.map_values(|x: usize| x as int);
        let sn = text.unicode_len();
        let mut files: Vec<FileDiff> = Vec::new();
        let mut k: usize = 0;
        proof {
            assert(files@.map_values(|f: FileDiff| f@) =~= Seq::<FileDiffV>::empty());
            assert(Seq::<FileDiffV>::empty() + sp_parse_files(text@, occs, 0)
                =~= sp_parse_files(text@, occs, 0));
        }
        while k < occ.len()
            invariant
                0 <= k <= occ@.len(),
                sn == text@.len(),
                occs == occ@.map_values(|x: usize| x as int),
                occs.len() == occ@.len(),
                forall|i: int| 0 <= i < occ@.len() ==> #[trigger] occ@[i] + 11 <= text@.len(),
                forall|i: int, j: int| 0 <= i < j < occ@.len() ==> occ@[i] < occ@[j],
                sp_parse_files(text@, occs, 0) == files@.map_values(|f: FileDiff| f@)
                    + sp_parse_files(text@, occs, k as int),
            decreases occ@.len() - k,
        {
            proof {
                reveal_strlit("diff --git ");
            }
            let st = occ[k];
            let en = if k + 1 < occ.len() {
                occ[k + 1]
            } else {
                sn
            };
            proof {
                assert(occs[k as int] == occ@[k as int]);
                if k + 1 < occ@.len() {
                    assert(occs[k + 1] == occ@[k + 1]);
                    assert(occ@[k as int] < occ@[k + 1]);
                }
            }
            let sec = text.substring_char(st, en);
            proof {
                assert(sec@ =~= text@.subrange(st as int, en as int));
            }
            let ghost prev = files@.map_values(|f: FileDiff| f@);
            match FileDiff::parse(sec) {
                Some(f) => {
                    files.push(f);
                    proof {
                        assert(files@.map_values(|ff: FileDiff| ff@) =~= prev.push(f@));
                        assert(sp_parse_files(text@, occs, k as int) == seq![f@]
                            + sp_parse_files(text@, occs, k + 1));
                        assert(prev + (seq![f@] + sp_parse_files(text@, occs, k + 1))
                            =~= prev.push(f@) + sp_parse_files(text@, occs, k + 1));
                    }
                },
                None => {
                    proof {
                        assert(sp_parse_files(text@, occs, k as int) == sp_parse_files(
                            text@,
                            occs,
                            k + 1,
                        ));
                    }
                },
            }
            k += 1;
        }
        proof {
            assert(sp_parse_files(text@, occs, occs.len() as int) =~= Seq::<
                FileDiffV,
            >::empty());
            assert(files@.map_values(|f: FileDiff| f@) + Seq::<FileDiffV>::empty()
                =~= files@.map_values(|f: FileDiff| f@));
        }
        let d = Diff { files };
        proof {
            assert(d@.files =~= d.files@.map_values(|f: FileDiff| f@));
        }
        d
    }
}

// ----------------------------------------------------------------------------
// Retaining selected lines
// ----------------------------------------------------------------------------

/// What retaining yields: each file filtered against the line sets its
/// path selects, files with no match dropped, order preserved.
pub open spec fn spec_retain(files: Seq<FileDiffV>, ko: PathFilter, kn: PathFilter) -> Seq<
    FileDiffV,
>
    decreases files.len(),
{
    if files.len() == 0 {
        Seq::empty()
    } else {
        let rest = spec_retain(files.drop_first(), ko, kn);
        match spec_filter_file(
            files.first(),
            ko.sel_for(files.first().path),
            kn.sel_for(files.first().path),
        ) {
            Some(f) => seq![f] + rest,
            None => rest,
        }
    }
}

/// Deep copy of a vector of strings.
fn copy_strings(v: &Vec<String>) -> (r: Vec<String>)
    ensures
        r.deep_view() == v.deep_view(),
        r@.len() == v@.len(),
{
    let mut out: Vec<String> = Vec::new();
    let mut i: usize = 0;
    while i < v.len()
        invariant
            0 <= i <= v@.len(),
            out@.len() == i,
            out.deep_view() == v.deep_view().take(i as int),
        decreases v@.len() - i,
    {
        let ghost prev = out.deep_view();
        out.push(v[i].clone());
        proof {
            assert(out.deep_view() =~= prev.push(v.deep_view()[i as int]));
            assert(v.deep_view().take(i + 1) =~= v.deep_view().take(i as int).push(
                v.deep_view()[i as int],
            ));
        }
        i += 1;
    }
    proof {
        assert(v.deep_view().take(v@.len() as int) =~= v.deep_view());
        assert(v.deep_view().len() == v@.len());
    }
    out
}

/// Deep copy of one side of a hunk.
fn copy_side(m: &ModifiedLines) -> (r: ModifiedLines)
    ensures
        r@ == m@,
{
    ModifiedLines {
        start: m.start,
        lines: copy_strings(&m.lines),
        missing_final_newline: m.missing_final_newline,
    }
}

/// Deep copy of a file diff.
fn copy_file(f: &FileDiff) -> (r: FileDiff)
    ensures
        r@ == f@,
{
    let mut hunks: Vec<Hunk> = Vec::new();
    let mut i: usize = 0;
    while i < f.hunks.len()
        invariant
            0 <= i <= f.hunks@.len(),
            hunks@.len() == i,
            forall|j: int| 0 <= j < i ==> #[trigger] hunks@[j]@ == f.hunks@[j]@,
        decreases f.hunks@.len() - i,
    {
        let h = Hunk { old: copy_side(&f.hunks[i].old), new: copy_side(&f.hunks[i].new) };
        hunks.push(h);
        i += 1;
    }
    let r = FileDiff { path: f.path.clone(), hunks };
    proof {
        assert(r@.hunks =~= f@.hunks);
        assert(r@ =~= f@);
    }
    r
}

impl Diff {
    /// Filter lines across all files: each file's hunks are filtered
    /// against the line numbers the two path filters select for its path;
    /// files with no matching lines are omitted entirely.
    pub fn retain(&self, keep_old: &PathFilter, keep_new: &PathFilter) -> (r: Self)
        ensures
            r@.files == spec_retain(self@.files, *keep_old, *keep_new),
    {
        let mut out: Vec<FileDiff> = Vec::new();
        let mut i: usize = self.files.len();
        let ghost fv = self@.files;
        proof {
            assert(fv.skip(fv.len() as int) =~= Seq::<FileDiffV>::empty());
            assert(out@.map_values(|f: FileDiff| f@) =~= spec_retain(
                fv.skip(fv.len() as int),
                *keep_old,
                *keep_new,
            ));
        }
        while i > 0
            invariant
                0 <= i <= self.files@.len(),
                fv == self@.files,
                fv.len() == self.files@.len(),
                forall|j: int| 0 <= j < fv.len() ==> #[trigger] fv[j] == self.files@[j]@,
                out@.map_values(|f: FileDiff| f@) == spec_retain(
                    fv.skip(i as int),
                    *keep_old,
                    *keep_new,
                ),
            decreases i,
        {
            i -= 1;
            let fd = copy_file(&self.files[i]);
            let old_set = keep_old.line_set_for(&fd.path);
            let new_set = keep_new.line_set_for(&fd.path);
            proof {
                assert(old_set.sel() =~= keep_old.sel_for(fv[i as int].path));
                assert(new_set.sel() =~= keep_new.sel_for(fv[i as int].path));
            }
            let ghost prev = out@.map_values(|f: FileDiff| f@);
            let filtered = fd.filter(&old_set, &new_set);
            proof {
                assert(fv.skip(i as int).first() == fv[i as int]);
                assert(fv.skip(i as int).drop_first() =~= fv.skip(i + 1));
            }
            match filtered {
                Some(f) => {
                    out.insert(0, f);
                    proof {
                        assert(out@.map_values(|ff: FileDiff| ff@) =~= seq![f@] + prev);
                        assert(spec_retain(fv.skip(i as int), *keep_old, *keep_new) == seq![f@]
                            + spec_retain(fv.skip(i + 1), *keep_old, *keep_new));
                    }
                },
                None => {
                    proof {
                        assert(spec_retain(fv.skip(i as int), *keep_old, *keep_new)
                            == spec_retain(fv.skip(i + 1), *keep_old, *keep_new));
                    }
                },
            }
        }
        proof {
            assert(fv.skip(0) =~= fv);
        }
        let r = Diff { files: out };
        proof {
            assert(r@.files =~= r.files@.map_values(|f: FileDiff| f@));
        }
        r
    }

    /// Render the whole diff: each file's rendering, concatenated.
    pub fn render(&self) -> (r: String)
        ensures
            r@ == spec_render_diff(self@),
    {
        let mut out = String::new();
        let mut i: usize = 0;
        proof {
            assert(out@ =~= spec_render_files(self@.files.take(0)));
        }
        while i < self.files.len()
            invariant
                0 <= i <= self.files@.len(),
                self@.files.len() == self.files@.len(),
                forall|k: int| 0 <= k < self.files@.len() ==> self@.files[k] == self.files@[k]@,
                out@ == spec_render_files(self@.files.take(i as int)),
            decreases self.files@.len() - i,
        {
            let f = self.files[i].render();
            out.append(f.as_str());
            proof {
                lemma_render_files_snoc(self@.files, i as int);
                assert(out@ =~= spec_render_files(self@.files.take(i + 1)));
            }
            i += 1;
        }
        proof {
            assert(self@.files.take(self.files@.len() as int) =~= self@.files);
        }
        out
    }
}

/// The renderings of a list of files, concatenated.
pub open spec fn spec_render_files(fs: Seq<FileDiffV>) -> Seq<char>
    decreases fs.len(),
{
    if fs.len() == 0 {
        Seq::empty()
    } else {
        spec_render_file(fs.first()) + spec_render_files(fs.drop_first())
    }
}

/// The rendering of a whole diff.
pub open spec fn spec_render_diff(d: DiffV) -> Seq<char> {
    spec_render_files(d.files)
}

/// Appending one more file to a rendered run of files.
pub proof fn lemma_render_files_snoc(fs: Seq<FileDiffV>, i: int)
    requires
        0 <= i < fs.len(),
    ensures
        spec_render_files(fs.take(i + 1)) == spec_render_files(fs.take(i)) + spec_render_file(
            fs[i],
        ),
    decreases i,
{
    if i == 0 {
        assert(fs.take(1).first() == fs[0]);
        assert(fs.take(1).drop_first() =~= Seq::<FileDiffV>::empty());
        assert(fs.take(0) =~= Seq::<FileDiffV>::empty());
        assert(spec_render_files(fs.take(1)) == spec_render_file(fs.take(1).first())
            + spec_render_files(fs.take(1).drop_first()));
        assert(spec_render_file(fs[0]) + Seq::<char>::empty() =~= spec_render_file(fs[0]));
        assert(spec_render_files(fs.take(1)) =~= spec_render_file(fs[0]));
        assert(spec_render_files(fs.take(i + 1)) =~= spec_render_files(fs.take(i))
            + spec_render_file(fs[i]));
    } else {
        lemma_render_files_snoc(fs.drop_first(), i - 1);
        assert(fs.take(i + 1).first() == fs[0]);
        assert(fs.take(i + 1).drop_first() =~= fs.drop_first().take(i));
        assert(fs.take(i).first() == fs[0]);
        assert(fs.take(i).drop_first() =~= fs.drop_first().take(i - 1));
        assert(fs.drop_first()[i - 1] == fs[i]);
        assert(spec_render_files(fs.take(i + 1)) =~= spec_render_files(fs.take(i))
            + spec_render_file(fs[i]));
    }
}

} // verus!
