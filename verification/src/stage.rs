//! The staging decision: given raw zero-context diff text and one file's
//! parsed line references, produce the minimal patch text that stages
//! exactly those lines, or say why there is nothing to stage.

use vstd::prelude::*;

verus! {

use crate::refs::LineRef;
use crate::refs::FileLineRefs;
use crate::sel::LineSet;
use crate::sel::PathFilter;
use crate::sel::ranges_contain;
use crate::full::Diff;
use crate::full::spec_parse_diff;
use crate::full::spec_retain;
use crate::full::spec_render_files;
use crate::file::FileDiffV;
use crate::file::spec_filter_file;
use crate::lines::sp_is_blank;
use crate::lines::is_blank;

/// Why staging produced no patch.
#[derive(Debug, Clone, PartialEq)]
pub enum StageError {
    /// The diff text holds no changes at all.
    NoChanges { file: String },
    /// No line matched the given references.
    NoMatchingLines { file: String },
}

/// View of [`StageError`].
pub enum StageErrV {
    NoChanges { file: Seq<char> },
    NoMatchingLines { file: Seq<char> },
}

impl View for StageError {
    type V = StageErrV;

    open spec fn view(&self) -> StageErrV {
        match self {
            StageError::NoChanges { file } => StageErrV::NoChanges { file: file@ },
            StageError::NoMatchingLines { file } => StageErrV::NoMatchingLines { file: file@ },
        }
    }
}

/// Do the references select old-file (deletion) line `n`?
pub open spec fn sp_old_sel(refs: Seq<LineRef>, n: u32) -> bool {
    exists|i: int|
        0 <= i < refs.len() && match #[trigger] refs[i] {
            LineRef::Delete(m) => m == n,
            LineRef::DeleteRange(a, b) => a <= n && n <= b,
            _ => false,
        }
}

/// Do the references select new-file (addition) line `n`?
pub open spec fn sp_new_sel(refs: Seq<LineRef>, n: u32) -> bool {
    exists|i: int|
        0 <= i < refs.len() && match #[trigger] refs[i] {
            LineRef::Add(m) => m == n,
            LineRef::AddRange(a, b) => a <= n && n <= b,
            _ => false,
        }
}

/// The old-side selection as a set.
pub open spec fn old_sel_set(refs: Seq<LineRef>) -> Set<u32> {
    Set::new(|n: u32| sp_old_sel(refs, n))
}

/// The new-side selection as a set.
pub open spec fn new_sel_set(refs: Seq<LineRef>) -> Set<u32> {
    Set::new(|n: u32| sp_new_sel(refs, n))
}

/// The files that survive filtering against the references, every file
/// judged by the same two line sets (the references name one file, whose
/// diff alone is being filtered).
pub open spec fn sp_stage_files(files: Seq<FileDiffV>, refs: Seq<LineRef>) -> Seq<FileDiffV>
    decreases files.len(),
{
    if files.len() == 0 {
        Seq::empty()
    } else {
        let rest = sp_stage_files(files.drop_first(), refs);
        match spec_filter_file(files.first(), old_sel_set(refs), new_sel_set(refs)) {
            Some(f) => seq![f] + rest,
            None => rest,
        }
    }
}

/// What staging yields: an error when the diff is blank or nothing
/// matched, else the rendering of the files that kept selected lines.
pub open spec fn spec_stage(diff_text: Seq<char>, flr: crate::refs::FlrV) -> Result<
    Seq<char>,
    StageErrV,
> {
    if sp_is_blank(diff_text) {
        Err(StageErrV::NoChanges { file: flr.file })
    } else {
        let kept = sp_stage_files(spec_parse_diff(diff_text), flr.refs);
        if kept.len() == 0 {
            Err(StageErrV::NoMatchingLines { file: flr.file })
        } else {
            Ok(spec_render_files(kept))
        }
    }
}

/// Retaining with path-blind filters equals filtering every file by the
/// same sets.
proof fn lemma_retain_blind(
    files: Seq<FileDiffV>,
    ko: PathFilter,
    kn: PathFilter,
    refs: Seq<LineRef>,
)
    requires
        forall|p: Seq<char>| #[trigger] ko.sel_for(p) == old_sel_set(refs),
        forall|p: Seq<char>| #[trigger] kn.sel_for(p) == new_sel_set(refs),
    ensures
        spec_retain(files, ko, kn) == sp_stage_files(files, refs),
    decreases files.len(),
{
    if files.len() > 0 {
        lemma_retain_blind(files.drop_first(), ko, kn, refs);
        assert(ko.sel_for(files.first().path) == old_sel_set(refs));
        assert(kn.sel_for(files.first().path) == new_sel_set(refs));
    }
}

/// Collect the deletion-side ranges of the references.
fn old_line_set(refs: &Vec<LineRef>) -> (r: LineSet)
    ensures
        forall|n: u32| #[trigger] r.spec_contains(n) == sp_old_sel(refs@, n),
{
    let mut out: Vec<(u32, u32)> = Vec::new();
    let mut i: usize = 0;
    while i < refs.len()
        invariant
            0 <= i <= refs@.len(),
            forall|n: u32| #[trigger]
                ranges_contain(out@, n) == (exists|j: int|
                    0 <= j < i && match #[trigger] refs@[j] {
                        LineRef::Delete(m) => m == n,
                        LineRef::DeleteRange(a, b) => a <= n && n <= b,
                        _ => false,
                    }),
        decreases refs@.len() - i,
    {
        let ghost old_out = out@;
        match &refs[i] {
            LineRef::Delete(m) => {
                out.push((*m, *m));
            },
            LineRef::DeleteRange(a, b) => {
                out.push((*a, *b));
            },
            _ => {},
        }
        proof {
            assert forall|n: u32| #[trigger]
                ranges_contain(out@, n) == (exists|j: int|
                    0 <= j < i + 1 && match #[trigger] refs@[j] {
                        LineRef::Delete(m) => m == n,
                        LineRef::DeleteRange(a, b) => a <= n && n <= b,
                        _ => false,
                    }) by {
                if ranges_contain(out@, n) {
                    let kk = choose|kk: int|
                        0 <= kk < out@.len() && #[trigger] out@[kk].0 <= n && n <= out@[kk].1;
                    if kk < old_out.len() {
                        assert(old_out[kk].0 <= n && n <= old_out[kk].1);
                        assert(ranges_contain(old_out, n));
                    } else {
                        assert(match refs@[i as int] {
                            LineRef::Delete(m) => m == n,
                            LineRef::DeleteRange(a, b) => a <= n && n <= b,
                            _ => false,
                        });
                    }
                }
                if exists|j: int|
                    0 <= j < i + 1 && match #[trigger] refs@[j] {
                        LineRef::Delete(m) => m == n,
                        LineRef::DeleteRange(a, b) => a <= n && n <= b,
                        _ => false,
                    } {
                    let j = choose|j: int|
                        0 <= j < i + 1 && match #[trigger] refs@[j] {
                            LineRef::Delete(m) => m == n,
                            LineRef::DeleteRange(a, b) => a <= n && n <= b,
                            _ => false,
                        };
                    if j < i {
                        assert(ranges_contain(old_out, n));
                        let kk = choose|kk: int|
                            0 <= kk < old_out.len() && #[trigger] old_out[kk].0 <= n && n
                                <= old_out[kk].1;
                        assert(out@[kk].0 <= n && n <= out@[kk].1);
                    } else {
                        match refs@[i as int] {
                            LineRef::Delete(m) => {
                                assert(out@[old_out.len() as int].0 <= n && n <= out@[
                                old_out.len() as int].1);
                            },
                            LineRef::DeleteRange(a, b) => {
                                assert(out@[old_out.len() as int].0 <= n && n <= out@[
                                old_out.len() as int].1);
                            },
                            _ => {},
                        }
                    }
                }
            }
        }
        i += 1;
    }
    LineSet { ranges: out }
}

/// Collect the addition-side ranges of the references.
fn new_line_set(refs: &Vec<LineRef>) -> (r: LineSet)
    ensures
        forall|n: u32| #[trigger] r.spec_contains(n) == sp_new_sel(refs@, n),
{
    let mut out: Vec<(u32, u32)> = Vec::new();
    let mut i: usize = 0;
    while i < refs.len()
        invariant
            0 <= i <= refs@.len(),
            forall|n: u32| #[trigger]
                ranges_contain(out@, n) == (exists|j: int|
                    0 <= j < i && match #[trigger] refs@[j] {
                        LineRef::Add(m) => m == n,
                        LineRef::AddRange(a, b) => a <= n && n <= b,
                        _ => false,
                    }),
        decreases refs@.len() - i,
    {
        let ghost old_out = out@;
        match &refs[i] {
            LineRef::Add(m) => {
                out.push((*m, *m));
            },
            LineRef::AddRange(a, b) => {
                out.push((*a, *b));
            },
            _ => {},
        }
        proof {
            assert forall|n: u32| #[trigger]
                ranges_contain(out@, n) == (exists|j: int|
                    0 <= j < i + 1 && match #[trigger] refs@[j] {
                        LineRef::Add(m) => m == n,
                        LineRef::AddRange(a, b) => a <= n && n <= b,
                        _ => false,
                    }) by {
                if ranges_contain(out@, n) {
                    let kk = choose|kk: int|
                        0 <= kk < out@.len() && #[trigger] out@[kk].0 <= n && n <= out@[kk].1;
                    if kk < old_out.len() {
                        assert(old_out[kk].0 <= n && n <= old_out[kk].1);
                        assert(ranges_contain(old_out, n));
                    } else {
                        assert(match refs@[i as int] {
                            LineRef::Add(m) => m == n,
                            LineRef::AddRange(a, b) => a <= n && n <= b,
                            _ => false,
                        });
                    }
                }
                if exists|j: int|
                    0 <= j < i + 1 && match #[trigger] refs@[j] {
                        LineRef::Add(m) => m == n,
                        LineRef::AddRange(a, b) => a <= n && n <= b,
                        _ => false,
                    } {
                    let j = choose|j: int|
                        0 <= j < i + 1 && match #[trigger] refs@[j] {
                            LineRef::Add(m) => m == n,
                            LineRef::AddRange(a, b) => a <= n && n <= b,
                            _ => false,
                        };
                    if j < i {
                        assert(ranges_contain(old_out, n));
                        let kk = choose|kk: int|
                            0 <= kk < old_out.len() && #[trigger] old_out[kk].0 <= n && n
                                <= old_out[kk].1;
                        assert(out@[kk].0 <= n && n <= out@[kk].1);
                    } else {
                        match refs@[i as int] {
                            LineRef::Add(m) => {
                                assert(out@[old_out.len() as int].0 <= n && n <= out@[
                                old_out.len() as int].1);
                            },
                            LineRef::AddRange(a, b) => {
                                assert(out@[old_out.len() as int].0 <= n && n <= out@[
                                old_out.len() as int].1);
                            },
                            _ => {},
                        }
                    }
                }
            }
        }
        i += 1;
    }
    LineSet { ranges: out }
}

/// Build the patch that stages exactly the referenced lines of one file's
/// raw diff: an error when the diff is blank or no line matched, else the
/// filtered diff rendered back to patch text.
pub fn stage_patch(diff_text: &str, refs: &FileLineRefs) -> (r: Result<String, StageError>)
    ensures
        match r {
            Ok(t) => spec_stage(diff_text@, refs@) == Ok::<Seq<char>, StageErrV>(t@),
            Err(e) => spec_stage(diff_text@, refs@) == Err::<Seq<char>, StageErrV>(e@),
        },
{
    if is_blank(diff_text) {
        return Err(StageError::NoChanges { file: refs.file.clone() });
    }
    let d = Diff::parse(diff_text);
    let ko = PathFilter::AnyPath(old_line_set(&refs.refs));
    let kn = PathFilter::AnyPath(new_line_set(&refs.refs));
    proof {
        assert forall|p: Seq<char>| #[trigger] ko.sel_for(p) == old_sel_set(refs@.refs) by {
            assert(ko.sel_for(p) =~= old_sel_set(refs@.refs));
        }
        assert forall|p: Seq<char>| #[trigger] kn.sel_for(p) == new_sel_set(refs@.refs) by {
            assert(kn.sel_for(p) =~= new_sel_set(refs@.refs));
        }
        lemma_retain_blind(d@.files, ko, kn, refs@.refs);
    }
    let filtered = d.retain(&ko, &kn);
    if filtered.files.len() == 0 {
        proof {
            assert(filtered@.files.len() == 0);
        }
        return Err(StageError::NoMatchingLines { file: refs.file.clone() });
    }
    proof {
        assert(filtered@.files.len() > 0);
    }
    let t = filtered.render();
    Ok(t)
}

} // verus!

verus! {

/// The user-facing text of a staging error.
pub open spec fn spec_stage_error_message(e: StageErrV) -> Seq<char> {
    match e {
        StageErrV::NoChanges { file } => "No changes found in "@ + file,
        StageErrV::NoMatchingLines { file } => "No matching lines found for "@ + file,
    }
}

impl StageError {
    /// The user-facing text that describes this error.
    pub fn message(&self) -> (r: String)
        ensures
            r@ == spec_stage_error_message(self@),
    {
        let mut out = String::new();
        match self {
            StageError::NoChanges { file } => {
                out.append("No changes found in ");
                out.append(file.as_str());
            },
            StageError::NoMatchingLines { file } => {
                out.append("No matching lines found for ");
                out.append(file.as_str());
            },
        }
        out
    }
}

} // verus!
