//! One hunk of a zero-context unified diff: the `@@ -old +new @@` header,
//! its deletion and addition lines, and the trailing no-newline markers;
//! parsing, rendering, and the line-level `filter` operation.

use vstd::prelude::*;

verus! {

use vstd::string::StrSliceExecFns;
use vstd::string::StringExecFns;
use crate::text::dec_str;
use crate::text::u32_str;
use crate::text::u64_str;

// ----------------------------------------------------------------------------
// Data model
// ----------------------------------------------------------------------------

/// Lines modified on one side of a hunk: deletions (old side) or additions
/// (new side).
#[derive(Debug, PartialEq, Eq)]
pub struct ModifiedLines {
    /// Starting line number (1-indexed; 0 only for an empty old side at the
    /// very start of a file).
    pub start: u32,
    /// The line contents, without sign prefix or trailing newline.
    pub lines: Vec<String>,
    /// Whether the last line of this side lacks a trailing newline.
    pub missing_final_newline: bool,
}

/// A single hunk: one contiguous block of deletions and/or additions.
#[derive(Debug, PartialEq, Eq)]
pub struct Hunk {
    /// Lines from the old version (deletions).
    pub old: ModifiedLines,
    /// Lines from the new version (additions).
    pub new: ModifiedLines,
}

/// Result of filtering a hunk's content. Deletions keep their old-file line
/// numbers; additions share the single `insertion_point` and therefore carry
/// no numbers of their own.
#[derive(Debug, PartialEq, Eq)]
pub struct FilteredContent {
    /// The original hunk's `old.start`: where kept additions are inserted.
    pub insertion_point: u32,
    /// Kept deletions with their old-file line numbers.
    pub deletions: Vec<(u32, String)>,
    /// Kept additions, content only.
    pub additions: Vec<String>,
    /// Whether the kept deletions end at the old side's true last line and
    /// that line lacked a newline.
    pub old_missing_newline: bool,
    /// Same, for the kept additions and the new side.
    pub new_missing_newline: bool,
}

// ----------------------------------------------------------------------------
// Mathematical views
// ----------------------------------------------------------------------------

/// View of [`ModifiedLines`].
pub struct MlV {
    pub start: u32,
    pub lines: Seq<Seq<char>>,
    pub missing_final_newline: bool,
}

/// View of [`Hunk`].
pub struct HunkV {
    pub old: MlV,
    pub new: MlV,
}

/// View of [`FilteredContent`].
pub struct FcV {
    pub insertion_point: u32,
    pub deletions: Seq<(u32, Seq<char>)>,
    pub additions: Seq<Seq<char>>,
    pub old_missing_newline: bool,
    pub new_missing_newline: bool,
}

impl View for ModifiedLines {
    type V = MlV;

    open spec fn view(&self) -> MlV {
        MlV {
            start: self.start,
            lines: self.lines.deep_view(),
            missing_final_newline: self.missing_final_newline,
        }
    }
}

impl View for Hunk {
    type V = HunkV;

    open spec fn view(&self) -> HunkV {
        HunkV { old: self.old@, new: self.new@ }
    }
}

impl View for FilteredContent {
    type V = FcV;

    open spec fn view(&self) -> FcV {
        FcV {
            insertion_point: self.insertion_point,
            deletions: self.deletions.deep_view(),
            additions: self.additions.deep_view(),
            old_missing_newline: self.old_missing_newline,
            new_missing_newline: self.new_missing_newline,
        }
    }
}

/// The line numbers of one side stay within `u32`.
pub open spec fn ml_bounded(m: MlV) -> bool {
    m.start + m.lines.len() <= u32::MAX
}

/// Both sides of a hunk are bounded.
pub open spec fn hunk_bounded(h: HunkV) -> bool {
    ml_bounded(h.old) && ml_bounded(h.new)
}

// ----------------------------------------------------------------------------
// Rendering: the hunk as unified-diff text
// ----------------------------------------------------------------------------

/// The no-newline marker line, without its trailing newline.
pub open spec fn marker_tag() -> Seq<char> {
    "\\ No newline at end of file"@
}

/// One side's range in the header: `N,0` for no lines, `N` for one line,
/// `N,COUNT` otherwise.
pub open spec fn spec_render_range(m: MlV) -> Seq<char> {
    if m.lines.len() == 0 {
        dec_str(m.start as nat) + seq![',', '0']
    } else if m.lines.len() == 1 {
        dec_str(m.start as nat)
    } else {
        dec_str(m.start as nat) + seq![','] + dec_str(m.lines.len() as nat)
    }
}

/// The whole header line, newline included.
pub open spec fn spec_render_header(h: HunkV) -> Seq<char> {
    "@@ -"@ + spec_render_range(h.old) + " +"@ + spec_render_range(h.new) + " @@\n"@
}

/// The sign-prefixed content lines of one side.
pub open spec fn spec_render_lines(sign: char, lines: Seq<Seq<char>>) -> Seq<char>
    decreases lines.len(),
{
    if lines.len() == 0 {
        Seq::empty()
    } else {
        seq![sign] + lines.first() + seq!['\n'] + spec_render_lines(sign, lines.drop_first())
    }
}

/// One side: its lines, then the no-newline marker if flagged.
pub open spec fn spec_render_side(sign: char, m: MlV) -> Seq<char> {
    spec_render_lines(sign, m.lines) + if m.missing_final_newline {
        marker_tag() + seq!['\n']
    } else {
        Seq::<char>::empty()
    }
}

/// The full rendering of a hunk.
pub open spec fn spec_render_hunk(h: HunkV) -> Seq<char> {
    spec_render_header(h) + spec_render_side('-', h.old) + spec_render_side('+', h.new)
}

/// Appending one more line to a rendered run of lines.
pub proof fn lemma_render_lines_snoc(sign: char, lines: Seq<Seq<char>>, i: int)
    requires
        0 <= i < lines.len(),
    ensures
        spec_render_lines(sign, lines.take(i + 1)) == spec_render_lines(sign, lines.take(i))
            + seq![sign] + lines[i] + seq!['\n'],
    decreases i,
{
    if i == 0 {
        assert(lines.take(1).first() == lines[0]);
        assert(lines.take(1).drop_first() =~= Seq::<Seq<char>>::empty());
        assert(lines.take(0) =~= Seq::<Seq<char>>::empty());
        assert(spec_render_lines(sign, lines.take(1)) =~= seq![sign] + lines[0] + seq!['\n']);
        assert(spec_render_lines(sign, lines.take(0)) =~= Seq::<char>::empty());
        assert(spec_render_lines(sign, lines.take(i + 1)) =~= spec_render_lines(
            sign,
            lines.take(i),
        ) + seq![sign] + lines[i] + seq!['\n']);
    } else {
        lemma_render_lines_snoc(sign, lines.drop_first(), i - 1);
        assert(lines.take(i + 1).first() == lines[0]);
        assert(lines.take(i + 1).drop_first() =~= lines.drop_first().take(i));
        assert(lines.take(i).first() == lines[0]);
        assert(lines.take(i).drop_first() =~= lines.drop_first().take(i - 1));
        assert(lines.drop_first()[i - 1] == lines[i]);
        assert(spec_render_lines(sign, lines.take(i + 1)) == seq![sign] + lines[0] + seq!['\n']
            + spec_render_lines(sign, lines.drop_first().take(i)));
        assert(spec_render_lines(sign, lines.take(i)) == seq![sign] + lines[0] + seq!['\n']
            + spec_render_lines(sign, lines.drop_first().take(i - 1)));
        assert(spec_render_lines(sign, lines.take(i + 1)) =~= spec_render_lines(
            sign,
            lines.take(i),
        ) + seq![sign] + lines[i] + seq!['\n']);
    }
}

/// Append one side's range text to `out`.
fn push_range(out: &mut String, m: &ModifiedLines)
    ensures
        final(out)@ == old(out)@ + spec_render_range(m@),
{
    let n = u32_str(m.start);
    out.append(n.as_str());
    proof {
        assert(m@.lines.len() == m.lines@.len());
    }
    if m.lines.len() == 0 {
        out.append(",0");
        proof {
            reveal_strlit(",0");
            assert(",0"@ =~= seq![',', '0']);
            assert(out@ =~= old(out)@ + spec_render_range(m@));
        }
    } else if m.lines.len() == 1 {
        proof {
            assert(out@ =~= old(out)@ + spec_render_range(m@));
        }
    } else {
        out.append(",");
        let c = u64_str(m.lines.len() as u64);
        out.append(c.as_str());
        proof {
            reveal_strlit(",");
            assert(","@ =~= seq![',']);
            assert(out@ =~= old(out)@ + spec_render_range(m@));
        }
    }
}

/// Append one side's sign-prefixed lines and optional marker to `out`.
fn push_side(out: &mut String, sign: &str, m: &ModifiedLines)
    requires
        sign@.len() == 1,
    ensures
        final(out)@ == old(out)@ + spec_render_side(sign@[0], m@),
{
    let ghost sg: char = sign@[0];
    let ghost base = out@;
    let mut i: usize = 0;
    while i < m.lines.len()
        invariant
            0 <= i <= m.lines@.len(),
            sign@.len() == 1,
            sg == sign@[0],
            out@ == base + spec_render_lines(sg, m@.lines.take(i as int)),
        decreases m.lines@.len() - i,
    {
        out.append(sign);
        out.append(m.lines[i].as_str());
        out.append("\n");
        proof {
            reveal_strlit("\n");
            assert("\n"@ =~= seq!['\n']);
            assert(sign@ =~= seq![sg]);
            assert(m@.lines[i as int] == m.lines@[i as int]@);
            lemma_render_lines_snoc(sg, m@.lines, i as int);
            assert(out@ =~= base + spec_render_lines(sg, m@.lines.take(i + 1)));
        }
        i += 1;
    }
    proof {
        assert(m@.lines.take(m.lines@.len() as int) =~= m@.lines);
    }
    if m.missing_final_newline {
        out.append("\\ No newline at end of file\n");
        proof {
            reveal_strlit("\\ No newline at end of file\n");
            reveal_strlit("\\ No newline at end of file");
            assert("\\ No newline at end of file\n"@ =~= marker_tag() + seq!['\n']);
            assert(out@ =~= base + spec_render_side(sg, m@));
        }
    } else {
        proof {
            assert(out@ =~= base + spec_render_side(sg, m@));
        }
    }
}

impl Hunk {
    /// Render the hunk as unified-diff text: header line, deletion lines,
    /// optional marker, addition lines, optional marker.
    pub fn render(&self) -> (r: String)
        ensures
            r@ == spec_render_hunk(self@),
    {
        let mut out = String::new();
        out.append("@@ -");
        push_range(&mut out, &self.old);
        out.append(" +");
        push_range(&mut out, &self.new);
        out.append(" @@\n");
        proof {
            assert(out@ =~= spec_render_header(self@));
        }
        proof {
            reveal_strlit("-");
            reveal_strlit("+");
            assert("-"@ =~= seq!['-']);
            assert("+"@ =~= seq!['+']);
        }
        push_side(&mut out, "-", &self.old);
        proof {
            assert(out@ =~= spec_render_header(self@) + spec_render_side('-', self@.old));
        }
        push_side(&mut out, "+", &self.new);
        proof {
            assert(out@ =~= spec_render_hunk(self@));
        }
        out
    }
}

} // verus!

verus! {

use crate::text::sp_tag;
use crate::text::sp_u32;
use crate::text::sp_not_line_ending;
use crate::text::sp_line_ending;
use crate::text::sp_opt_line_ending;
use crate::text::find_sub;
use crate::text::is_digit;
use crate::text::digit_prefix_len;
use crate::text::x_tag;
use crate::text::x_u32;
use crate::text::x_not_line_ending;
use crate::text::x_line_ending;
use crate::text::x_opt_line_ending;
use crate::text::x_find_sub;
use crate::text::x_is_digit;
use crate::text::lemma_line_break_pos;

// ----------------------------------------------------------------------------
// Parsing: unified-diff text to a hunk
// ----------------------------------------------------------------------------

/// Parse `N` or `N,COUNT`; only the start `N` is kept, the count after a
/// comma is required to be digits but is otherwise ignored.
pub open spec fn sp_header_range(s: Seq<char>) -> Option<(u32, Seq<char>)> {
    match sp_u32(s) {
        None => None,
        Some((v, r)) => if r.len() >= 2 && r[0] == ',' && is_digit(r[1]) {
            Some((v, r.skip(1).skip(digit_prefix_len(r.skip(1)) as int)))
        } else {
            Some((v, r))
        },
    }
}

/// Parse the `-RANGE +RANGE` pair inside a header, ignoring what follows.
pub open spec fn sp_header_inner(inner: Seq<char>) -> Option<(u32, u32)> {
    match sp_tag(inner, "-"@) {
        None => None,
        Some(i1) => match sp_header_range(i1) {
            None => None,
            Some((os, i2)) => match sp_tag(i2, " +"@) {
                None => None,
                Some(i3) => match sp_header_range(i3) {
                    None => None,
                    Some((ns, i4)) => Some((os, ns)),
                },
            },
        },
    }
}

/// Parse the header line's `@@ -RANGE +RANGE @@` part, returning the two
/// start numbers and what follows the closing `@@`. Text between the ranges
/// and the closing `@@` on the same line is ignored.
pub open spec fn sp_hunk_header(s: Seq<char>) -> Option<((u32, u32), Seq<char>)> {
    match sp_tag(s, "@@ "@) {
        None => None,
        Some(r1) => match find_sub(r1, " @@"@) {
            None => None,
            Some(p) => match sp_header_inner(r1.take(p)) {
                None => None,
                Some((os, ns)) => Some(((os, ns), r1.skip(p + 3))),
            },
        },
    }
}

/// Parse the no-newline marker line with an optional trailing line ending.
pub open spec fn sp_marker(s: Seq<char>) -> Option<Seq<char>> {
    match sp_tag(s, marker_tag()) {
        None => None,
        Some(r) => Some(sp_opt_line_ending(r)),
    }
}

/// Parse one sign-prefixed content line with an optional trailing line
/// ending.
pub open spec fn sp_sign_line(sign: char, s: Seq<char>) -> Option<(Seq<char>, Seq<char>)> {
    if s.len() > 0 && s[0] == sign {
        match sp_not_line_ending(s.skip(1)) {
            None => None,
            Some((c, r)) => Some((c, sp_opt_line_ending(r))),
        }
    } else {
        None
    }
}

/// A sign line always consumes at least its sign character.
pub proof fn lemma_sign_line_consumes(sign: char, s: Seq<char>)
    ensures
        match sp_sign_line(sign, s) {
            Some((c, r)) => r.len() < s.len(),
            None => true,
        },
{
    if s.len() > 0 && s[0] == sign {
        lemma_line_break_pos(s.skip(1));
        match sp_not_line_ending(s.skip(1)) {
            None => {},
            Some((c, r)) => {
                assert(r.len() <= s.len() - 1);
                assert(sp_opt_line_ending(r).len() <= r.len());
            },
        }
    }
}

/// Parse a maximal run of sign-prefixed lines.
pub open spec fn sp_sign_lines(sign: char, s: Seq<char>) -> (Seq<Seq<char>>, Seq<char>)
    decreases s.len(),
{
    match sp_sign_line(sign, s) {
        None => (Seq::empty(), s),
        Some((c, r)) => if r.len() < s.len() {
            let (cs, r2) = sp_sign_lines(sign, r);
            (seq![c] + cs, r2)
        } else {
            (Seq::empty(), s)
        },
    }
}

/// Parse a whole hunk: header line, deletion lines, optional marker,
/// addition lines, optional marker. Trailing text is ignored. Fails if the
/// header is malformed or a side's line numbers would leave `u32`.
pub open spec fn spec_parse_hunk(s: Seq<char>) -> Option<HunkV> {
    match sp_hunk_header(s) {
        None => None,
        Some(((os, ns), r0)) => match sp_not_line_ending(r0) {
            None => None,
            Some((ignored, r1)) => match sp_line_ending(r1) {
                None => None,
                Some(r2) => {
                    let (old_lines, r3) = sp_sign_lines('-', r2);
                    let (old_m, r4) = match sp_marker(r3) {
                        Some(r) => (true, r),
                        None => (false, r3),
                    };
                    let (new_lines, r5) = sp_sign_lines('+', r4);
                    let (new_m, r6) = match sp_marker(r5) {
                        Some(r) => (true, r),
                        None => (false, r5),
                    };
                    let h = HunkV {
                        old: MlV { start: os, lines: old_lines, missing_final_newline: old_m },
                        new: MlV { start: ns, lines: new_lines, missing_final_newline: new_m },
                    };
                    if hunk_bounded(h) {
                        Some(h)
                    } else {
                        None
                    }
                },
            },
        },
    }
}

/// Executable form of [`sp_header_range`].
fn x_header_range<'a>(s: &'a str) -> (r: Option<(u32, &'a str)>)
    ensures
        match r {
            Some((v, rest)) => sp_header_range(s@) == Some((v, rest@)),
            None => sp_header_range(s@) is None,
        },
{
    match x_u32(s) {
        None => None,
        Some((v, r)) => {
            let rn = r.unicode_len();
            if rn >= 2 && r.get_char(0) == ',' && x_is_digit(r.get_char(1)) {
                let tail = r.substring_char(1, rn);
                match x_u32(tail) {
                    Some((_c, rest)) => {
                        proof {
                            assert(tail@ == r@.skip(1));
                            assert(tail@[0] == r@[1]);
                            assert(digit_prefix_len(tail@) > 0);
                        }
                        Some((v, rest))
                    },
                    None => {
                        // The count run exists but does not fit `u32`; skip
                        // over the digits by hand, as the count is ignored.
                        let mut k: usize = 1;
                        let tn = tail.unicode_len();
                        while k < tn && x_is_digit(tail.get_char(k))
                            invariant
                                1 <= k <= tn,
                                tn == tail@.len(),
                                forall|j: int| 0 <= j < k ==> is_digit(#[trigger] tail@[j]),
                                is_digit(tail@[0]),
                            decreases tn - k,
                        {
                            k += 1;
                        }
                        proof {
                            crate::text::lemma_digit_prefix_len_exact(tail@, k as int);
                        }
                        Some((v, tail.substring_char(k, tn)))
                    },
                }
            } else {
                Some((v, r))
            }
        },
    }
}

} // verus!

verus! {

/// Executable form of [`sp_header_inner`].
fn x_header_inner(inner: &str) -> (r: Option<(u32, u32)>)
    ensures
        r == sp_header_inner(inner@),
{
    match x_tag(inner, "-") {
        None => None,
        Some(i1) => match x_header_range(i1) {
            None => None,
            Some((os, i2)) => match x_tag(i2, " +") {
                None => None,
                Some(i3) => match x_header_range(i3) {
                    None => None,
                    Some((ns, _i4)) => Some((os, ns)),
                },
            },
        },
    }
}

/// Executable form of [`sp_hunk_header`].
fn x_hunk_header<'a>(s: &'a str) -> (r: Option<((u32, u32), &'a str)>)
    ensures
        match r {
            Some((se, rest)) => sp_hunk_header(s@) == Some((se, rest@)),
            None => sp_hunk_header(s@) is None,
        },
{
    match x_tag(s, "@@ ") {
        None => None,
        Some(r1) => {
            match x_find_sub(r1, " @@") {
                None => None,
                Some(p) => {
                    proof {
                        crate::text::lemma_find_sub(r1@, " @@"@);
                        reveal_strlit(" @@");
                    }
                    let r1n = r1.unicode_len();
                    let inner = r1.substring_char(0, p);
                    let rest = r1.substring_char(p + 3, r1n);
                    proof {
                        assert(inner@ =~= r1@.take(p as int));
                        assert(rest@ =~= r1@.skip(p + 3));
                    }
                    match x_header_inner(inner) {
                        None => None,
                        Some((os, ns)) => Some(((os, ns), rest)),
                    }
                },
            }
        },
    }
}

/// Executable form of [`sp_marker`].
fn x_marker<'a>(s: &'a str) -> (r: Option<&'a str>)
    ensures
        crate::text::ov(r) == sp_marker(s@),
{
    match x_tag(s, "\\ No newline at end of file") {
        None => None,
        Some(r) => Some(x_opt_line_ending(r)),
    }
}

/// Executable form of [`sp_sign_line`].
fn x_sign_line<'a>(s: &'a str, sign: char) -> (r: Option<(String, &'a str)>)
    ensures
        match r {
            Some((c, rest)) => sp_sign_line(sign, s@) == Some((c@, rest@)),
            None => sp_sign_line(sign, s@) is None,
        },
{
    let sn = s.unicode_len();
    if sn == 0 {
        return None;
    }
    if s.get_char(0) != sign {
        return None;
    }
    let tail = s.substring_char(1, sn);
    proof {
        assert(tail@ =~= s@.skip(1));
    }
    match x_not_line_ending(tail) {
        None => None,
        Some((c, r)) => {
            let rest = x_opt_line_ending(r);
            Some((c.to_owned(), rest))
        },
    }
}

/// Executable form of [`sp_sign_lines`].
fn x_sign_lines<'a>(s: &'a str, sign: char) -> (r: (Vec<String>, &'a str))
    ensures
        sp_sign_lines(sign, s@) == (r.0.deep_view(), r.1@),
{
    let mut acc: Vec<String> = Vec::new();
    let mut rest: &'a str = s;
    loop
        invariant
            sp_sign_lines(sign, s@) == (
                acc.deep_view() + sp_sign_lines(sign, rest@).0,
                sp_sign_lines(sign, rest@).1,
            ),
        ensures
            sp_sign_line(sign, rest@) is None,
        decreases rest@.len(),
    {
        match x_sign_line(rest, sign) {
            None => {
                break ;
            },
            Some((c, r2)) => {
                proof {
                    lemma_sign_line_consumes(sign, rest@);
                    let (cs, fin) = sp_sign_lines(sign, r2@);
                    assert(sp_sign_lines(sign, rest@) == (seq![c@] + cs, fin));
                    assert(acc.deep_view() + (seq![c@] + cs) =~= (acc.deep_view() + seq![c@])
                        + cs);
                    assert(acc.deep_view().push(c@) =~= acc.deep_view() + seq![c@]);
                }
                let ghost prev = acc.deep_view();
                acc.push(c);
                proof {
                    assert(acc.deep_view() =~= prev.push(c@));
                }
                rest = r2;
            },
        }
    }
    proof {
        assert(sp_sign_lines(sign, rest@) == (Seq::<Seq<char>>::empty(), rest@));
        assert(acc.deep_view() + Seq::<Seq<char>>::empty() =~= acc.deep_view());
    }
    (acc, rest)
}

impl Hunk {
    /// Parse a hunk from diff text: the `@@ -old +new @@` header followed by
    /// `-` lines, an optional no-newline marker, `+` lines, and another
    /// optional marker. Trailing text beyond the hunk is ignored. Returns
    /// `None` when the text is not a well-formed hunk.
    pub fn parse(text: &str) -> (r: Option<Self>)
        ensures
            match r {
                Some(h) => spec_parse_hunk(text@) == Some(h@),
                None => spec_parse_hunk(text@) is None,
            },
    {
        let hdr = x_hunk_header(text);
        match hdr {
            None => None,
            Some(((os, ns), r0)) => {
                match x_not_line_ending(r0) {
                    None => None,
                    Some((_ignored, r1)) => {
                        match x_line_ending(r1) {
                            None => None,
                            Some(r2) => Self::parse_body(text, os, ns, r2),
                        }
                    },
                }
            },
        }
    }

    /// The body of a hunk after its header line.
    fn parse_body(text: &str, os: u32, ns: u32, r2: &str) -> (r: Option<Self>)
        requires
            ({
                let h = sp_hunk_header(text@);
                &&& h is Some
                &&& h->Some_0.0.0 == os
                &&& h->Some_0.0.1 == ns
                &&& sp_not_line_ending(h->Some_0.1) is Some
                &&& sp_line_ending(sp_not_line_ending(h->Some_0.1)->Some_0.1) == Some(r2@)
            }),
        ensures
            match r {
                Some(h) => spec_parse_hunk(text@) == Some(h@),
                None => spec_parse_hunk(text@) is None,
            },
    {
        let (old_lines, r3) = x_sign_lines(r2, '-');
        let (old_m, r4) = match x_marker(r3) {
            Some(rr) => (true, rr),
            None => (false, r3),
        };
        let (new_lines, r5) = x_sign_lines(r4, '+');
        let (new_m, _r6) = match x_marker(r5) {
            Some(rr) => (true, rr),
            None => (false, r5),
        };
        let ghost hv = HunkV {
            old: MlV {
                start: os,
                lines: old_lines.deep_view(),
                missing_final_newline: old_m,
            },
            new: MlV {
                start: ns,
                lines: new_lines.deep_view(),
                missing_final_newline: new_m,
            },
        };
        proof {
            assert(old_lines.deep_view().len() == old_lines@.len());
            assert(new_lines.deep_view().len() == new_lines@.len());
        }
        if old_lines.len() > (u32::MAX as usize) {
            return None;
        }
        if new_lines.len() > (u32::MAX as usize) {
            return None;
        }
        if (os as u64) + (old_lines.len() as u64) > (u32::MAX as u64) {
            return None;
        }
        if (ns as u64) + (new_lines.len() as u64) > (u32::MAX as u64) {
            return None;
        }
        let h = Hunk {
            old: ModifiedLines {
                start: os,
                lines: old_lines,
                missing_final_newline: old_m,
            },
            new: ModifiedLines {
                start: ns,
                lines: new_lines,
                missing_final_newline: new_m,
            },
        };
        proof {
            assert(h@ == hv);
            assert(hunk_bounded(hv));
            assert(spec_parse_hunk(text@) == Some(hv));
        }
        Some(h)
    }
}

} // verus!

verus! {

use crate::sel::LineSet;
use crate::text::lemma_filter_take_step;

// ----------------------------------------------------------------------------
// Filtering: keep a subset of a hunk's lines
// ----------------------------------------------------------------------------

/// Each line of one side paired with its absolute line number.
pub open spec fn line_pairs(m: MlV) -> Seq<(u32, Seq<char>)> {
    Seq::new(m.lines.len(), |i: int| (((m.start + i) as u32), m.lines[i]))
}

/// The keep-predicate over numbered lines induced by a set of line numbers.
pub open spec fn keep_pred(keep: Set<u32>) -> spec_fn((u32, Seq<char>)) -> bool {
    |p: (u32, Seq<char>)| keep.contains(p.0)
}

/// The numbered lines of one side that the set keeps, in order.
pub open spec fn kept_pairs(m: MlV, keep: Set<u32>) -> Seq<(u32, Seq<char>)> {
    line_pairs(m).filter(keep_pred(keep))
}

/// Kept lines among the first `i` lines only.
pub open spec fn kept_prefix(m: MlV, keep: Set<u32>, i: int) -> Seq<(u32, Seq<char>)> {
    line_pairs(m).take(i).filter(keep_pred(keep))
}

/// Was the side's first line kept?
pub open spec fn kept_first(m: MlV, keep: Set<u32>) -> bool {
    m.lines.len() > 0 && keep.contains(m.start)
}

/// Was the side's last line kept?
pub open spec fn kept_last(m: MlV, keep: Set<u32>) -> bool {
    m.lines.len() > 0 && keep.contains(((m.start + m.lines.len() - 1) as u32))
}

/// Does filtering the hunk call for the newline bridge: the old side's last
/// line had no newline, additions are kept, but not the first addition?
pub open spec fn needs_bridge(h: HunkV, keep_new: Set<u32>) -> bool {
    h.old.missing_final_newline && kept_pairs(h.new, keep_new).len() > 0 && !kept_first(
        h.new,
        keep_new,
    )
}

/// Contents of a sequence of numbered lines.
pub open spec fn pair_contents(s: Seq<(u32, Seq<char>)>) -> Seq<Seq<char>> {
    s.map_values(|p: (u32, Seq<char>)| p.1)
}

/// What filtering a hunk yields: `None` when nothing was kept (or the
/// hunk's line numbers leave `u32`), otherwise the kept deletions with
/// their numbers, the kept additions (bridge line prepended when the
/// bridge rule fires), and the recomputed no-newline flags.
pub open spec fn spec_filter_hunk(h: HunkV, keep_old: Set<u32>, keep_new: Set<u32>) -> Option<
    FcV,
> {
    if !hunk_bounded(h) {
        None
    } else {
        let od = kept_pairs(h.old, keep_old);
        let nw = kept_pairs(h.new, keep_new);
        if od.len() == 0 && nw.len() == 0 {
            None
        } else {
            let bridging = needs_bridge(h, keep_new) && h.old.lines.len() > 0;
            let last_num = ((h.old.start + h.old.lines.len() - 1) as u32);
            let deletions = if bridging && !kept_last(h.old, keep_old) {
                od.push((last_num, h.old.lines.last()))
            } else {
                od
            };
            let additions = if bridging {
                seq![h.old.lines.last()] + pair_contents(nw)
            } else {
                pair_contents(nw)
            };
            Some(
                FcV {
                    insertion_point: h.old.start,
                    deletions,
                    additions,
                    old_missing_newline: h.old.missing_final_newline && (kept_last(
                        h.old,
                        keep_old,
                    ) || bridging),
                    new_missing_newline: h.new.missing_final_newline && kept_last(
                        h.new,
                        keep_new,
                    ),
                },
            )
        }
    }
}

/// Filter one side's lines, keeping those whose number the set selects.
fn filter_side(start: u32, lines: &Vec<String>, keep: &LineSet) -> (r: Vec<(u32, String)>)
    requires
        start + lines@.len() <= u32::MAX,
    ensures
        r.deep_view() == kept_pairs(
            MlV { start, lines: lines.deep_view(), missing_final_newline: false },
            keep.sel(),
        ),
        r.deep_view() == kept_pairs(
            MlV { start, lines: lines.deep_view(), missing_final_newline: true },
            keep.sel(),
        ),
{
    let ghost m = MlV { start, lines: lines.deep_view(), missing_final_newline: false };
    let ghost pred = keep_pred(keep.sel());
    let mut out: Vec<(u32, String)> = Vec::new();
    let mut i: usize = 0;
    proof {
        assert(line_pairs(m).take(0) =~= Seq::<(u32, Seq<char>)>::empty());
        reveal(Seq::filter);
    }
    while i < lines.len()
        invariant
            0 <= i <= lines@.len(),
            start + lines@.len() <= u32::MAX,
            m.start == start,
            m.lines == lines.deep_view(),
            pred == keep_pred(keep.sel()),
            out.deep_view() == line_pairs(m).take(i as int).filter(pred),
        decreases lines@.len() - i,
    {
        let num = start + (i as u32);
        let kept = keep.contains(num);
        proof {
            assert(lines.deep_view().len() == lines@.len());
            assert(line_pairs(m)[i as int] == (((start + i) as u32), m.lines[i as int]));
            assert(keep.sel().contains(num) == keep.spec_contains(num));
            lemma_filter_take_step(line_pairs(m), pred, i as int);
        }
        if kept {
            let ghost prev = out.deep_view();
            out.push((num, lines[i].clone()));
            proof {
                assert(out.deep_view() =~= prev.push((num, m.lines[i as int])));
            }
        }
        i += 1;
    }
    proof {
        assert(line_pairs(m).take(lines@.len() as int) =~= line_pairs(m));
        assert(kept_pairs(m, keep.sel()) == line_pairs(m).filter(pred));
        let m2 = MlV { start, lines: lines.deep_view(), missing_final_newline: true };
        assert(line_pairs(m2) =~= line_pairs(m));
    }
    out
}

impl Hunk {
    /// Filter the hunk's lines against the two line-number selections,
    /// returning the kept content, or `None` when nothing matched. Applies
    /// the newline-bridge rule and recomputes the no-newline flags; see
    /// [`spec_filter_hunk`] for the exact statement.
    pub fn filter(&self, keep_old: &LineSet, keep_new: &LineSet) -> (r: Option<FilteredContent>)
        ensures
            match r {
                Some(fc) => spec_filter_hunk(self@, keep_old.sel(), keep_new.sel()) == Some(fc@),
                None => spec_filter_hunk(self@, keep_old.sel(), keep_new.sel()) is None,
            },
    {
        let ghost ko = keep_old.sel();
        let ghost kn = keep_new.sel();
        if self.old.lines.len() > (u32::MAX as usize) || (self.old.start as u64) + (
        self.old.lines.len() as u64) > (u32::MAX as u64) {
            proof {
                assert(self@.old.lines.len() == self.old.lines@.len());
                assert(!hunk_bounded(self@));
            }
            return None;
        }
        if self.new.lines.len() > (u32::MAX as usize) || (self.new.start as u64) + (
        self.new.lines.len() as u64) > (u32::MAX as u64) {
            proof {
                assert(self@.new.lines.len() == self.new.lines@.len());
                assert(!hunk_bounded(self@));
            }
            return None;
        }
        proof {
            assert(self@.old.lines.len() == self.old.lines@.len());
            assert(self@.new.lines.len() == self.new.lines@.len());
            assert(hunk_bounded(self@));
        }
        let mut deletions = filter_side(self.old.start, &self.old.lines, keep_old);
        let new_kept = filter_side(self.new.start, &self.new.lines, keep_new);
        if deletions.len() == 0 && new_kept.len() == 0 {
            proof {
                assert(deletions.deep_view().len() == deletions@.len());
                assert(new_kept.deep_view().len() == new_kept@.len());
            }
            return None;
        }
        proof {
            assert(deletions.deep_view().len() == deletions@.len());
            assert(new_kept.deep_view().len() == new_kept@.len());
        }
        // Contents of the kept additions, without their numbers.
        let mut additions: Vec<String> = Vec::new();
        let mut i: usize = 0;
        while i < new_kept.len()
            invariant
                0 <= i <= new_kept@.len(),
                additions.deep_view() == pair_contents(new_kept.deep_view().take(i as int)),
            decreases new_kept@.len() - i,
        {
            let ghost prev = additions.deep_view();
            additions.push(new_kept[i].1.clone());
            proof {
                assert(new_kept.deep_view()[i as int].1 == new_kept@[i as int].1@);
                assert(new_kept.deep_view().take(i + 1) =~= new_kept.deep_view().take(
                    i as int,
                ).push(new_kept.deep_view()[i as int]));
                assert(additions.deep_view() =~= prev.push(new_kept.deep_view()[i as int].1));
                assert(pair_contents(new_kept.deep_view().take(i + 1)) =~= pair_contents(
                    new_kept.deep_view().take(i as int),
                ).push(new_kept.deep_view()[i as int].1));
            }
            i += 1;
        }
        proof {
            assert(new_kept.deep_view().take(new_kept@.len() as int) =~= new_kept.deep_view());
        }
        // Boundary bookkeeping.
        let old_len = self.old.lines.len();
        let new_len = self.new.lines.len();
        let old_kept_last = old_len > 0 && keep_old.contains(
            self.old.start + (old_len as u32) - 1,
        );
        let new_kept_first = new_len > 0 && keep_new.contains(self.new.start);
        let new_kept_last = new_len > 0 && keep_new.contains(
            self.new.start + (new_len as u32) - 1,
        );
        proof {
            assert(old_kept_last == kept_last(self@.old, ko));
            assert(new_kept_first == kept_first(self@.new, kn));
            assert(new_kept_last == kept_last(self@.new, kn));
        }
        // Newline bridge: force the old side's last line through as a
        // deletion and prepend its content as the first addition.
        let bridging = self.old.missing_final_newline && new_kept.len() > 0 && !new_kept_first
            && old_len > 0;
        if bridging {
            let last_num = self.old.start + (old_len as u32) - 1;
            let bridge_line = self.old.lines[old_len - 1].clone();
            if !old_kept_last {
                let ghost prevd = deletions.deep_view();
                deletions.push((last_num, bridge_line.clone()));
                proof {
                    assert(deletions.deep_view() =~= prevd.push(
                        (last_num, self@.old.lines.last()),
                    ));
                }
            }
            let ghost preva = additions.deep_view();
            additions.insert(0, bridge_line);
            proof {
                assert(additions.deep_view() =~= seq![self@.old.lines.last()] + preva);
            }
        }
        let old_missing = self.old.missing_final_newline && (old_kept_last || bridging);
        let new_missing = self.new.missing_final_newline && new_kept_last;
        let fc = FilteredContent {
            insertion_point: self.old.start,
            deletions,
            additions,
            old_missing_newline: old_missing,
            new_missing_newline: new_missing,
        };
        proof {
            assert(bridging == (needs_bridge(self@, kn) && self@.old.lines.len() > 0));
            assert(spec_filter_hunk(self@, ko, kn) == Some(fc@));
        }
        Some(fc)
    }
}

} // verus!

verus! {

// ----------------------------------------------------------------------------
// Grouping numbered lines into maximal consecutive runs
// ----------------------------------------------------------------------------

/// Length of the maximal consecutive run at the head of `s`: line numbers
/// increase by exactly one within a run.
pub open spec fn run_len(s: Seq<(u32, Seq<char>)>) -> int
    decreases s.len(),
{
    if s.len() <= 1 {
        s.len() as int
    } else if s[1].0 == s[0].0 + 1 {
        1 + run_len(s.drop_first())
    } else {
        1
    }
}

pub proof fn lemma_run_len_bounds(s: Seq<(u32, Seq<char>)>)
    ensures
        0 <= run_len(s) <= s.len(),
        s.len() > 0 ==> run_len(s) >= 1,
    decreases s.len(),
{
    if s.len() > 1 && s[1].0 == s[0].0 + 1 {
        lemma_run_len_bounds(s.drop_first());
    }
}

/// A run of known extent pins `run_len` down.
pub proof fn lemma_run_len_exact(s: Seq<(u32, Seq<char>)>, k: int)
    requires
        s.len() > 0,
        1 <= k <= s.len(),
        forall|i: int| 1 <= i < k ==> #[trigger] s[i].0 == s[i - 1].0 + 1,
        k < s.len() ==> s[k].0 != s[k - 1].0 + 1,
    ensures
        run_len(s) == k,
    decreases s.len(),
{
    if s.len() <= 1 {
    } else if s[1].0 == s[0].0 + 1 {
        assert(k >= 2) by {
            if k == 1 {
                assert(s[1].0 != s[0].0 + 1);
            }
        }
        let d = s.drop_first();
        assert forall|i: int| 1 <= i < k - 1 implies #[trigger] d[i].0 == d[i - 1].0 + 1 by {
            assert(d[i] == s[i + 1]);
            assert(d[i - 1] == s[i]);
            assert(s[i + 1].0 == s[i].0 + 1);
        }
        if k - 1 < d.len() {
            assert(d[k - 1] == s[k]);
            assert(d[k - 2] == s[k - 1]);
        }
        lemma_run_len_exact(d, k - 1);
    } else {
        assert(k == 1) by {
            if k >= 2 {
                assert(s[1].0 == s[0].0 + 1);
            }
        }
    }
}

/// The maximal consecutive runs of `s`, in order.
pub open spec fn spec_groups(s: Seq<(u32, Seq<char>)>) -> Seq<Seq<(u32, Seq<char>)>>
    decreases s.len(),
{
    if s.len() == 0 {
        Seq::empty()
    } else {
        let k = run_len(s);
        if 1 <= k <= s.len() {
            seq![s.take(k)] + spec_groups(s.skip(k))
        } else {
            seq![s]
        }
    }
}

/// A contiguous group of numbered lines.
pub(crate) struct ContiguousGroup {
    pub first_line_num: u32,
    pub lines: Vec<(u32, String)>,
}

/// Group numbered lines into maximal runs of consecutive line numbers.
pub(crate) fn group_contiguous_lines(lines: &Vec<(u32, String)>) -> (r: Vec<ContiguousGroup>)
    ensures
        r@.len() == spec_groups(lines.deep_view()).len(),
        forall|g: int|
            0 <= g < r@.len() ==> #[trigger] r@[g].lines.deep_view() == spec_groups(
                lines.deep_view(),
            )[g],
        forall|g: int| 0 <= g < r@.len() ==> #[trigger] r@[g].lines.deep_view().len() > 0,
        forall|g: int|
            0 <= g < r@.len() ==> #[trigger] r@[g].first_line_num == spec_groups(
                lines.deep_view(),
            )[g][0].0,
{
    let ghost full = lines.deep_view();
    let mut out: Vec<ContiguousGroup> = Vec::new();
    let mut idx: usize = 0;
    proof {
        assert(full.len() == lines@.len());
        assert(full.skip(0) =~= full);
        assert(out@.map_values(|g: ContiguousGroup| g.lines.deep_view()) =~= Seq::<
            Seq<(u32, Seq<char>)>,
        >::empty());
        assert(Seq::<Seq<(u32, Seq<char>)>>::empty() + spec_groups(full) =~= spec_groups(full));
    }
    while idx < lines.len()
        invariant
            0 <= idx <= lines@.len(),
            full == lines.deep_view(),
            full.len() == lines@.len(),
            spec_groups(full) == out@.map_values(
                |g: ContiguousGroup| g.lines.deep_view(),
            ) + spec_groups(full.skip(idx as int)),
            forall|g: int|
                0 <= g < out@.len() ==> #[trigger] out@[g].lines.deep_view().len() > 0,
            forall|g: int|
                0 <= g < out@.len() ==> #[trigger] out@[g].first_line_num == out@[
                    g].lines.deep_view()[0].0,
        decreases lines@.len() - idx,
    {
        let ghost rest = full.skip(idx as int);
        // Find the end of the run that starts at `idx`.
        let mut j: usize = idx + 1;
        while j < lines.len() && consecutive(lines, j)
            invariant
                idx < j <= lines@.len(),
                full == lines.deep_view(),
                full.len() == lines@.len(),
                forall|i: int|
                    idx < i < j ==> #[trigger] full[i].0 == full[i - 1].0 + 1,
            decreases lines@.len() - j,
        {
            j += 1;
        }
        proof {
            assert forall|i: int| 1 <= i < j - idx implies #[trigger] rest[i].0 == rest[i - 1].0
                + 1 by {
                assert(rest[i] == full[idx + i]);
                assert(rest[i - 1] == full[idx + i - 1]);
            }
            if j < lines@.len() {
                assert(rest[j - idx] == full[j as int]);
                assert(rest[j - idx - 1] == full[j - 1]);
                assert(full[j as int].0 != full[j - 1].0 + 1);
            }
            lemma_run_len_exact(rest, j - idx);
        }
        // Copy the run out.
        let mut grp: Vec<(u32, String)> = Vec::new();
        let mut t: usize = idx;
        while t < j
            invariant
                idx <= t <= j <= lines@.len(),
                full == lines.deep_view(),
                full.len() == lines@.len(),
                grp.deep_view() == full.subrange(idx as int, t as int),
            decreases j - t,
        {
            let ghost prevg = grp.deep_view();
            let pair = (lines[t].0, lines[t].1.clone());
            grp.push(pair);
            proof {
                assert(grp.deep_view() =~= prevg.push(full[t as int]));
                assert(full.subrange(idx as int, t + 1) =~= full.subrange(
                    idx as int,
                    t as int,
                ).push(full[t as int]));
            }
            t += 1;
        }
        let first = lines[idx].0;
        let ghost prev_out = out@;
        out.push(ContiguousGroup { first_line_num: first, lines: grp });
        proof {
            let k = run_len(rest);
            assert(k == j - idx);
            assert(rest.take(k) =~= full.subrange(idx as int, j as int));
            assert(rest.skip(k) =~= full.skip(j as int));
            assert(spec_groups(rest) == seq![rest.take(k)] + spec_groups(full.skip(j as int)));
            assert(out@.map_values(|g: ContiguousGroup| g.lines.deep_view()) =~= prev_out.map_values(
                |g: ContiguousGroup| g.lines.deep_view(),
            ).push(full.subrange(idx as int, j as int)));
            assert(prev_out.map_values(|g: ContiguousGroup| g.lines.deep_view()) + spec_groups(
                rest,
            ) =~= out@.map_values(|g: ContiguousGroup| g.lines.deep_view()) + spec_groups(
                full.skip(j as int),
            ));
            assert(full.subrange(idx as int, j as int)[0] == full[idx as int]);
        }
        idx = j;
    }
    proof {
        assert(full.skip(full.len() as int) =~= Seq::<(u32, Seq<char>)>::empty());
        assert(spec_groups(full) =~= out@.map_values(|g: ContiguousGroup| g.lines.deep_view()));
        assert forall|g: int| 0 <= g < out@.len() implies #[trigger] out@[g].lines.deep_view()
            == spec_groups(full)[g] by {
            assert(spec_groups(full)[g] == out@.map_values(
                |gg: ContiguousGroup| gg.lines.deep_view(),
            )[g]);
        }
    }
    out
}

/// Is entry `j` consecutive with entry `j - 1`?
fn consecutive(lines: &Vec<(u32, String)>, j: usize) -> (r: bool)
    requires
        1 <= j < lines@.len(),
    ensures
        r == (lines.deep_view()[j as int].0 == lines.deep_view()[j - 1].0 + 1),
{
    let prev = lines[j - 1].0;
    let cur = lines[j].0;
    proof {
        assert(lines.deep_view()[j as int].0 == lines@[j as int].0);
        assert(lines.deep_view()[j - 1].0 == lines@[j - 1].0);
    }
    if prev == u32::MAX {
        false
    } else {
        cur == prev + 1
    }
}

} // verus!
