//! A flat, per-line reading of zero-context diff output: each changed line
//! with its absolute number, and the human-readable numbered listing built
//! from raw diff text.

use vstd::prelude::*;

verus! {

use vstd::string::StrSliceExecFns;
use vstd::string::StringExecFns;
use crate::text::sp_tag;
use crate::text::find_sub;
use crate::text::lines_of;
use crate::text::x_tag;
use crate::text::x_find_sub;
use crate::text::x_u32;
use crate::text::sp_u32;
use crate::text::is_digit;
use crate::text::digit_prefix_len;
use crate::text::digits_val;
use crate::text::dec_str;
use crate::text::u32_str;
use crate::text::split_first_line;
use crate::text::lemma_find_sub;
use crate::text::occurs_at;

// ----------------------------------------------------------------------------
// Data model
// ----------------------------------------------------------------------------

/// A single line change from a diff.
#[derive(Debug, Clone, PartialEq)]
pub enum DiffLine {
    /// Added line with its new-file line number and content.
    Add { new_line: u32, content: String },
    /// Deleted line with its old-file line number and content.
    Delete { old_line: u32, content: String },
}

/// View of [`DiffLine`].
pub enum DlV {
    Add { new_line: u32, content: Seq<char> },
    Delete { old_line: u32, content: Seq<char> },
}

impl View for DiffLine {
    type V = DlV;

    open spec fn view(&self) -> DlV {
        match self {
            DiffLine::Add { new_line, content } => DlV::Add {
                new_line: *new_line,
                content: content@,
            },
            DiffLine::Delete { old_line, content } => DlV::Delete {
                old_line: *old_line,
                content: content@,
            },
        }
    }
}

/// Parsed diff for a single file, as a flat list of changed lines.
#[derive(Debug, Clone, PartialEq)]
pub struct FileDiff {
    pub file_path: String,
    pub lines: Vec<DiffLine>,
}

/// View of the flat [`FileDiff`].
pub struct FlatV {
    pub file_path: Seq<char>,
    pub lines: Seq<DlV>,
}

impl View for FileDiff {
    type V = FlatV;

    open spec fn view(&self) -> FlatV {
        FlatV {
            file_path: self.file_path@,
            lines: Seq::new(self.lines@.len(), |i: int| self.lines@[i]@),
        }
    }
}

// ----------------------------------------------------------------------------
// Header parsing
// ----------------------------------------------------------------------------

/// A whole string read as a `u32`: an optional `+`, then only digits.
pub open spec fn sp_parse_u32_full(s: Seq<char>) -> Option<u32> {
    let body = if s.len() > 0 && s[0] == '+' {
        s.skip(1)
    } else {
        s
    };
    if body.len() >= 1 && digit_prefix_len(body) == body.len() && digits_val(body) <= u32::MAX {
        Some(digits_val(body) as u32)
    } else {
        None
    }
}

/// The start number of a range such as `136,0` or `137`.
pub open spec fn sp_range_start(range: Seq<char>) -> Result<u32, Seq<char>> {
    let nstr = match find_sub(range, seq![',']) {
        Some(ix) => range.take(ix),
        None => range,
    };
    match sp_parse_u32_full(nstr) {
        Some(v) => Ok(v),
        None => Err("Invalid line number in range: "@ + range),
    }
}

/// Number of spaces in `s`.
pub open spec fn space_count(s: Seq<char>) -> int
    decreases s.len(),
{
    if s.len() == 0 {
        0
    } else if s[0] == ' ' {
        1 + space_count(s.drop_first())
    } else {
        space_count(s.drop_first())
    }
}

/// The two start numbers of a `@@ -old,count +new,count @@` header line,
/// or the exact error text the header earns.
pub open spec fn sp_hunk_header_line(line: Seq<char>) -> Result<(u32, u32), Seq<char>> {
    match sp_tag(line, "@@ "@) {
        None => Err("Invalid hunk header format"@),
        Some(rest) => match find_sub(rest, " @@"@) {
            None => Err("Invalid hunk header format"@),
            Some(e) => {
                let rp = rest.take(e);
                if space_count(rp) != 1 {
                    Err("Invalid hunk header: "@ + rest)
                } else {
                    match find_sub(rp, seq![' ']) {
                        None => Err("Invalid hunk header: "@ + rest),
                        Some(sp) => {
                            let old_part = rp.take(sp);
                            let new_part = rp.skip(sp + 1);
                            let old_core = if old_part.len() > 0 && old_part[0] == '-' {
                                old_part.skip(1)
                            } else {
                                old_part
                            };
                            let new_core = if new_part.len() > 0 && new_part[0] == '+' {
                                new_part.skip(1)
                            } else {
                                new_part
                            };
                            match sp_range_start(old_core) {
                                Err(er) => Err(er),
                                Ok(o) => match sp_range_start(new_core) {
                                    Err(er) => Err(er),
                                    Ok(n) => Ok((o, n)),
                                },
                            }
                        },
                    }
                }
            },
        },
    }
}

/// Executable form of [`sp_parse_u32_full`].
pub(crate) fn x_parse_u32_full(s: &str) -> (r: Option<u32>)
    ensures
        r == sp_parse_u32_full(s@),
{
    let sn = s.unicode_len();
    let body: &str = if sn > 0 && s.get_char(0) == '+' {
        s.substring_char(1, sn)
    } else {
        s
    };
    proof {
        if sn > 0 && s@[0] == '+' {
            assert(body@ =~= s@.skip(1));
        }
    }
    match x_u32(body) {
        None => {
            proof {
                crate::text::lemma_digit_prefix_len_char(body@);
                if digit_prefix_len(body@) == body@.len() && body@.len() >= 1 {
                    assert(body@.take(body@.len() as int) =~= body@);
                }
            }
            None
        },
        Some((v, rest)) => {
            proof {
                crate::text::lemma_digit_prefix_len_char(body@);
                let k = digit_prefix_len(body@) as int;
                assert(sp_u32(body@) == Some((v, rest@)));
                assert(k != 0);
                assert(rest@ == body@.skip(k));
                assert(rest@.len() == body@.len() - k);
            }
            if rest.unicode_len() == 0 {
                proof {
                    let k = digit_prefix_len(body@) as int;
                    assert(k == body@.len());
                    assert(body@.take(k) =~= body@);
                }
                Some(v)
            } else {
                proof {
                    let k = digit_prefix_len(body@) as int;
                    assert(k < body@.len());
                }
                None
            }
        },
    }
}

/// Executable form of [`sp_range_start`].
fn x_range_start(range: &str) -> (r: Result<u32, String>)
    ensures
        match r {
            Ok(v) => sp_range_start(range@) == Ok::<u32, Seq<char>>(v),
            Err(e) => sp_range_start(range@) == Err::<u32, Seq<char>>(e@),
        },
{
    proof {
        reveal_strlit(",");
        assert(","@ =~= seq![',']);
    }
    let rn = range.unicode_len();
    let nstr: &str = match x_find_sub(range, ",") {
        Some(ix) => {
            proof {
                lemma_find_sub(range@, ","@);
                assert(occurs_at(range@, ","@, ix as int));
            }
            range.substring_char(0, ix)
        },
        None => range,
    };
    proof {
        match find_sub(range@, seq![',']) {
            Some(ix) => {
                assert(nstr@ =~= range@.take(ix));
            },
            None => {},
        }
    }
    match x_parse_u32_full(nstr) {
        Some(v) => Ok(v),
        None => {
            let mut e = String::new();
            e.append("Invalid line number in range: ");
            e.append(range);
            proof {
                assert(e@ =~= "Invalid line number in range: "@ + range@);
            }
            Err(e)
        },
    }
}

/// Parse a hunk header line such as `@@ -136,0 +137 @@ context`.
pub fn parse_hunk_header(header: &str) -> (r: Result<(u32, u32), String>)
    ensures
        match r {
            Ok(v) => sp_hunk_header_line(header@) == Ok::<(u32, u32), Seq<char>>(v),
            Err(e) => sp_hunk_header_line(header@) == Err::<(u32, u32), Seq<char>>(e@),
        },
{
    let r1 = match x_tag(header, "@@ ") {
        None => {
            return Err("Invalid hunk header format".to_owned());
        },
        Some(rest) => rest,
    };
    let e = match x_find_sub(r1, " @@") {
        None => {
            return Err("Invalid hunk header format".to_owned());
        },
        Some(pos) => pos,
    };
    proof {
        lemma_find_sub(r1@, " @@"@);
        reveal_strlit(" @@");
        assert(occurs_at(r1@, " @@"@, e as int));
    }
    let rp = r1.substring_char(0, e);
    proof {
        assert(rp@ =~= r1@.take(e as int));
        reveal_strlit(" ");
        assert(" "@ =~= seq![' ']);
    }
    // Exactly one space must separate the two ranges.
    let rpn = rp.unicode_len();
    let mut spaces: usize = 0;
    let mut i: usize = 0;
    while i < rpn
        invariant
            0 <= i <= rpn,
            rpn == rp@.len(),
            spaces <= i,
            spaces == space_count(rp@.take(i as int)),
        decreases rpn - i,
    {
        proof {
            lemma_space_count_snoc(rp@, i as int);
        }
        if rp.get_char(i) == ' ' {
            spaces += 1;
        }
        i += 1;
    }
    proof {
        assert(rp@.take(rpn as int) =~= rp@);
    }
    if spaces != 1 {
        let mut msg = String::new();
        msg.append("Invalid hunk header: ");
        msg.append(r1);
        proof {
            assert(msg@ =~= "Invalid hunk header: "@ + r1@);
        }
        return Err(msg);
    }
    let sp = match x_find_sub(rp, " ") {
        None => {
            let mut msg = String::new();
            msg.append("Invalid hunk header: ");
            msg.append(r1);
            proof {
                assert(msg@ =~= "Invalid hunk header: "@ + r1@);
            }
            return Err(msg);
        },
        Some(pos) => pos,
    };
    proof {
        lemma_find_sub(rp@, " "@);
        assert(occurs_at(rp@, " "@, sp as int));
    }
    let old_part = rp.substring_char(0, sp);
    let new_part = rp.substring_char(sp + 1, rpn);
    proof {
        assert(old_part@ =~= rp@.take(sp as int));
        assert(new_part@ =~= rp@.skip(sp + 1));
    }
    let opn = old_part.unicode_len();
    let npn = new_part.unicode_len();
    let old_core: &str = if opn > 0 && old_part.get_char(0) == '-' {
        old_part.substring_char(1, opn)
    } else {
        old_part
    };
    let new_core: &str = if npn > 0 && new_part.get_char(0) == '+' {
        new_part.substring_char(1, npn)
    } else {
        new_part
    };
    proof {
        if opn > 0 && old_part@[0] == '-' {
            assert(old_core@ =~= old_part@.skip(1));
        }
        if npn > 0 && new_part@[0] == '+' {
            assert(new_core@ =~= new_part@.skip(1));
        }
    }
    let o = match x_range_start(old_core) {
        Err(er) => {
            return Err(er);
        },
        Ok(v) => v,
    };
    let n = match x_range_start(new_core) {
        Err(er) => {
            return Err(er);
        },
        Ok(v) => v,
    };
    Ok((o, n))
}

/// Counting spaces, one character at a time.
proof fn lemma_space_count_snoc(s: Seq<char>, i: int)
    requires
        0 <= i < s.len(),
    ensures
        space_count(s.take(i + 1)) == space_count(s.take(i)) + if s[i] == ' ' {
            1int
        } else {
            0int
        },
    decreases i,
{
    if i == 0 {
        assert(s.take(1)[0] == s[0]);
        assert(s.take(1).drop_first() =~= Seq::<char>::empty());
        assert(s.take(0) =~= Seq::<char>::empty());
    } else {
        lemma_space_count_snoc(s.drop_first(), i - 1);
        assert(s.take(i + 1)[0] == s[0]);
        assert(s.take(i + 1).drop_first() =~= s.drop_first().take(i));
        assert(s.take(i)[0] == s[0]);
        assert(s.take(i).drop_first() =~= s.drop_first().take(i - 1));
        assert(s.drop_first()[i - 1] == s[i]);
    }
}

} // verus!

verus! {

// ----------------------------------------------------------------------------
// Flat parsing of one file's diff
// ----------------------------------------------------------------------------

/// Increment a line counter, wrapping at the top of the `u32` range.
pub open spec fn wrap_inc(n: u32) -> u32 {
    if n == u32::MAX {
        0
    } else {
        (n + 1) as u32
    }
}

/// The text after the first `+++ b/` prefix, and the lines that follow
/// that line.
pub open spec fn sp_after_path(ls: Seq<Seq<char>>) -> Option<(Seq<char>, Seq<Seq<char>>)>
    decreases ls.len(),
{
    if ls.len() == 0 {
        None
    } else {
        match sp_tag(ls.first(), "+++ b/"@) {
            Some(p) => Some((p, ls.drop_first())),
            None => sp_after_path(ls.drop_first()),
        }
    }
}

/// Walk the lines after the path header: `@@ ` lines reset the counters
/// (a malformed one is the error), `+`/`-` lines become numbered changes,
/// anything else is ignored.
pub open spec fn sp_scan_lines(ls: Seq<Seq<char>>, old: u32, new: u32) -> Result<
    Seq<DlV>,
    Seq<char>,
>
    decreases ls.len(),
{
    if ls.len() == 0 {
        Ok(Seq::empty())
    } else {
        let l = ls.first();
        let rest = ls.drop_first();
        if sp_tag(l, "@@ "@) is Some {
            match sp_hunk_header_line(l) {
                Err(e) => Err(e),
                Ok((o, n)) => sp_scan_lines(rest, o, n),
            }
        } else if l.len() > 0 && l[0] == '+' {
            match sp_scan_lines(rest, old, wrap_inc(new)) {
                Err(e) => Err(e),
                Ok(t) => Ok(seq![DlV::Add { new_line: new, content: l.skip(1) }] + t),
            }
        } else if l.len() > 0 && l[0] == '-' {
            match sp_scan_lines(rest, wrap_inc(old), new) {
                Err(e) => Err(e),
                Ok(t) => Ok(seq![DlV::Delete { old_line: old, content: l.skip(1) }] + t),
            }
        } else {
            sp_scan_lines(rest, old, new)
        }
    }
}

/// What parsing one file's raw diff yields: the path from the `+++ b/`
/// header (which must be present and non-empty) and the numbered changed
/// lines, or the exact error text.
pub open spec fn spec_parse_flat(s: Seq<char>) -> Result<FlatV, Seq<char>> {
    if s.len() == 0 {
        Err("Empty diff"@)
    } else {
        match sp_after_path(lines_of(s)) {
            None => Err("Could not find file path in diff"@),
            Some((path, rest)) => if path.len() == 0 {
                Err("Could not find file path in diff"@)
            } else {
                match sp_scan_lines(rest, 0, 0) {
                    Err(e) => Err(e),
                    Ok(dls) => Ok(FlatV { file_path: path, lines: dls }),
                }
            },
        }
    }
}

/// Parse a unified zero-context diff for one file into its changed lines.
pub fn parse_diff(diff_output: &str) -> (r: Result<FileDiff, String>)
    ensures
        match r {
            Ok(fd) => spec_parse_flat(diff_output@) == Ok::<FlatV, Seq<char>>(fd@),
            Err(e) => spec_parse_flat(diff_output@) == Err::<FlatV, Seq<char>>(e@),
        },
{
    if diff_output.unicode_len() == 0 {
        return Err("Empty diff".to_owned());
    }
    // Find the path header line.
    let mut rest: &str = diff_output;
    let mut path: Option<String> = None;
    loop
        invariant_except_break
            sp_after_path(lines_of(diff_output@)) == sp_after_path(lines_of(rest@)),
            path is None,
        ensures
            match sp_after_path(lines_of(diff_output@)) {
                Some(pr) => path is Some && path->0@ == pr.0 && pr.1 == lines_of(rest@),
                None => path is None && rest@.len() == 0,
            },
        decreases rest@.len(),
    {
        if rest.unicode_len() == 0 {
            proof {
                assert(lines_of(rest@).len() == 0);
            }
            break ;
        }
        let (line, next) = split_first_line(rest);
        let ghost cur = lines_of(rest@);
        proof {
            assert(cur.first() == line@);
            assert(cur.drop_first() =~= lines_of(next@));
        }
        match x_tag(line, "+++ b/") {
            Some(tl) => {
                proof {
                    assert(sp_tag(cur.first(), "+++ b/"@) == Some(tl@));
                    assert(sp_after_path(cur) == Some((tl@, lines_of(next@))));
                }
                path = Some(tl.to_owned());
                rest = next;
                break ;
            },
            None => {
                rest = next;
            },
        }
    }
    let path_s = match path {
        None => {
            return Err("Could not find file path in diff".to_owned());
        },
        Some(p) => p,
    };
    if path_s.as_str().unicode_len() == 0 {
        return Err("Could not find file path in diff".to_owned());
    }
    // Scan the remaining lines.
    let ghost ls0 = lines_of(rest@);
    let mut acc: Vec<DiffLine> = Vec::new();
    let mut cur_old: u32 = 0;
    let mut cur_new: u32 = 0;
    proof {
        assert(acc@.map_values(|d: DiffLine| d@) =~= Seq::<DlV>::empty());
        match sp_scan_lines(ls0, 0, 0) {
            Err(e) => {},
            Ok(t) => {
                assert(Seq::<DlV>::empty() + t =~= t);
            },
        }
    }
    loop
        invariant
            diff_output@.len() > 0,
            sp_after_path(lines_of(diff_output@)) == Some((path_s@, ls0)),
            path_s@.len() > 0,
            match sp_scan_lines(lines_of(rest@), cur_old, cur_new) {
                Err(e) => sp_scan_lines(ls0, 0, 0) == Err::<Seq<DlV>, Seq<char>>(e),
                Ok(t) => sp_scan_lines(ls0, 0, 0) == Ok::<Seq<DlV>, Seq<char>>(
                    acc@.map_values(|d: DiffLine| d@) + t,
                ),
            },
        ensures
            diff_output@.len() > 0,
            sp_after_path(lines_of(diff_output@)) == Some((path_s@, ls0)),
            path_s@.len() > 0,
            rest@.len() == 0,
            sp_scan_lines(ls0, 0, 0) == Ok::<Seq<DlV>, Seq<char>>(
                acc@.map_values(|d: DiffLine| d@),
            ),
        decreases rest@.len(),
    {
        if rest.unicode_len() == 0 {
            proof {
                assert(lines_of(rest@).len() == 0);
                assert(sp_scan_lines(lines_of(rest@), cur_old, cur_new) == Ok::<
                    Seq<DlV>,
                    Seq<char>,
                >(Seq::empty()));
                assert(acc@.map_values(|d: DiffLine| d@) + Seq::<DlV>::empty()
                    =~= acc@.map_values(|d: DiffLine| d@));
            }
            break ;
        }
        let (line, next) = split_first_line(rest);
        let ghost cur = lines_of(rest@);
        proof {
            assert(cur.first() == line@);
            assert(cur.drop_first() =~= lines_of(next@));
        }
        let ln = line.unicode_len();
        if x_tag(line, "@@ ").is_some() {
            match parse_hunk_header(line) {
                Err(e) => {
                    proof {
                        assert(sp_scan_lines(cur, cur_old, cur_new) == Err::<
                            Seq<DlV>,
                            Seq<char>,
                        >(e@));
                        assert(spec_parse_flat(diff_output@) == Err::<FlatV, Seq<char>>(e@));
                    }
                    return Err(e);
                },
                Ok((o, n)) => {
                    proof {
                        assert(sp_scan_lines(cur, cur_old, cur_new) == sp_scan_lines(
                            lines_of(next@),
                            o,
                            n,
                        ));
                    }
                    cur_old = o;
                    cur_new = n;
                },
            }
        } else if ln > 0 && line.get_char(0) == '+' {
            let content = line.substring_char(1, ln).to_owned();
            let ghost prev = acc@.map_values(|d: DiffLine| d@);
            let ghost dl = DlV::Add { new_line: cur_new, content: line@.skip(1) };
            acc.push(DiffLine::Add { new_line: cur_new, content });
            proof {
                assert(acc@.map_values(|d: DiffLine| d@) =~= prev.push(dl));
                match sp_scan_lines(lines_of(next@), cur_old, wrap_inc(cur_new)) {
                    Err(e) => {},
                    Ok(t) => {
                        assert(prev + (seq![dl] + t) =~= prev.push(dl) + t);
                    },
                }
            }
            cur_new = if cur_new == u32::MAX {
                0
            } else {
                cur_new + 1
            };
        } else if ln > 0 && line.get_char(0) == '-' {
            let content = line.substring_char(1, ln).to_owned();
            let ghost prev = acc@.map_values(|d: DiffLine| d@);
            let ghost dl = DlV::Delete { old_line: cur_old, content: line@.skip(1) };
            acc.push(DiffLine::Delete { old_line: cur_old, content });
            proof {
                assert(acc@.map_values(|d: DiffLine| d@) =~= prev.push(dl));
                match sp_scan_lines(lines_of(next@), wrap_inc(cur_old), cur_new) {
                    Err(e) => {},
                    Ok(t) => {
                        assert(prev + (seq![dl] + t) =~= prev.push(dl) + t);
                    },
                }
            }
            cur_old = if cur_old == u32::MAX {
                0
            } else {
                cur_old + 1
            };
        }
        rest = next;
    }
    let fd = FileDiff { file_path: path_s, lines: acc };
    proof {
        assert(fd@.lines =~= fd.lines@.map_values(|d: DiffLine| d@));
        assert(spec_parse_flat(diff_output@) == Ok::<FlatV, Seq<char>>(fd@));
    }
    Ok(fd)
}

} // verus!

verus! {

// ----------------------------------------------------------------------------
// Human-readable numbered listing
// ----------------------------------------------------------------------------

/// Is `c` whitespace, in the sense of the Unicode White_Space property
/// that `str::trim` goes by?
pub open spec fn is_space(c: char) -> bool {
    c == '\t' || c == '\n' || c == '\u{b}' || c == '\u{c}' || c == '\r' || c == ' ' ||
        c == '\u{85}' || c == '\u{a0}' || c == '\u{1680}' || c == '\u{2000}' ||
        c == '\u{2001}' || c == '\u{2002}' || c == '\u{2003}' || c == '\u{2004}' ||
        c == '\u{2005}' || c == '\u{2006}' || c == '\u{2007}' || c == '\u{2008}' ||
        c == '\u{2009}' || c == '\u{200a}' || c == '\u{2028}' || c == '\u{2029}' ||
        c == '\u{202f}' || c == '\u{205f}' || c == '\u{3000}'
}

/// Executable whitespace test.
pub fn x_is_space(c: char) -> (r: bool)
    ensures
        r == is_space(c),
{
    c == '\t' || c == '\n' || c == '\u{b}' || c == '\u{c}' || c == '\r' || c == ' ' ||
        c == '\u{85}' || c == '\u{a0}' || c == '\u{1680}' || c == '\u{2000}' ||
        c == '\u{2001}' || c == '\u{2002}' || c == '\u{2003}' || c == '\u{2004}' ||
        c == '\u{2005}' || c == '\u{2006}' || c == '\u{2007}' || c == '\u{2008}' ||
        c == '\u{2009}' || c == '\u{200a}' || c == '\u{2028}' || c == '\u{2029}' ||
        c == '\u{202f}' || c == '\u{205f}' || c == '\u{3000}'
}

/// Does `s` consist of whitespace alone?
pub open spec fn sp_is_blank(s: Seq<char>) -> bool {
    forall|i: int| 0 <= i < s.len() ==> is_space(#[trigger] s[i])
}

/// The formatter's running state.
pub struct FmtV {
    pub old: u32,
    pub new: u32,
    pub first_hunk: bool,
    pub in_header: bool,
    pub started: bool,
}

/// Walk the raw diff lines and build the numbered listing: each file's
/// path followed by its changed lines as `  +N:<tab>content` or
/// `  -N:<tab>content`, a blank line between hunks and between files; a
/// malformed header line is the error.
pub open spec fn sp_format_lines(ls: Seq<Seq<char>>, st: FmtV) -> Result<Seq<char>, Seq<char>>
    decreases ls.len(),
{
    if ls.len() == 0 {
        Ok(Seq::empty())
    } else {
        let l = ls.first();
        let rest = ls.drop_first();
        if sp_tag(l, "diff --git"@) is Some {
            sp_format_lines(
                rest,
                FmtV {
                    old: st.old,
                    new: st.new,
                    first_hunk: true,
                    in_header: true,
                    started: st.started,
                },
            )
        } else if sp_tag(l, "--- a/"@) is Some {
            sp_format_lines(rest, st)
        } else if sp_tag(l, "+++ b/"@) is Some {
            let emitted = (if st.started {
                seq!['\n']
            } else {
                Seq::<char>::empty()
            }) + l.skip(6) + ":\n"@;
            match sp_format_lines(
                rest,
                FmtV {
                    old: st.old,
                    new: st.new,
                    first_hunk: st.first_hunk,
                    in_header: st.in_header,
                    started: true,
                },
            ) {
                Err(e) => Err(e),
                Ok(t) => Ok(emitted + t),
            }
        } else if sp_tag(l, "@@ "@) is Some {
            match sp_hunk_header_line(l) {
                Err(e) => Err(e),
                Ok((o, n)) => {
                    let emitted = if !st.first_hunk {
                        seq!['\n']
                    } else {
                        Seq::<char>::empty()
                    };
                    match sp_format_lines(
                        rest,
                        FmtV {
                            old: o,
                            new: n,
                            first_hunk: false,
                            in_header: false,
                            started: st.started || !st.first_hunk,
                        },
                    ) {
                        Err(e) => Err(e),
                        Ok(t) => Ok(emitted + t),
                    }
                },
            }
        } else if !st.in_header && l.len() > 0 && l[0] == '+' {
            let emitted = "  +"@ + dec_str(st.new as nat) + ":\t"@ + l.skip(1) + seq!['\n'];
            match sp_format_lines(
                rest,
                FmtV {
                    old: st.old,
                    new: wrap_inc(st.new),
                    first_hunk: st.first_hunk,
                    in_header: st.in_header,
                    started: true,
                },
            ) {
                Err(e) => Err(e),
                Ok(t) => Ok(emitted + t),
            }
        } else if !st.in_header && l.len() > 0 && l[0] == '-' {
            let emitted = "  -"@ + dec_str(st.old as nat) + ":\t"@ + l.skip(1) + seq!['\n'];
            match sp_format_lines(
                rest,
                FmtV {
                    old: wrap_inc(st.old),
                    new: st.new,
                    first_hunk: st.first_hunk,
                    in_header: st.in_header,
                    started: true,
                },
            ) {
                Err(e) => Err(e),
                Ok(t) => Ok(emitted + t),
            }
        } else {
            sp_format_lines(rest, st)
        }
    }
}

/// What formatting raw diff text yields: nothing for blank input, else
/// the numbered listing per [`sp_format_lines`].
pub open spec fn spec_format_diff(s: Seq<char>) -> Result<Seq<char>, Seq<char>> {
    if sp_is_blank(s) {
        Ok(Seq::empty())
    } else {
        sp_format_lines(
            lines_of(s),
            FmtV { old: 0, new: 0, first_hunk: true, in_header: true, started: false },
        )
    }
}

/// Is the whole string whitespace?
pub fn is_blank(s: &str) -> (r: bool)
    ensures
        r == sp_is_blank(s@),
{
    let sn = s.unicode_len();
    let mut i: usize = 0;
    while i < sn
        invariant
            0 <= i <= sn,
            sn == s@.len(),
            forall|j: int| 0 <= j < i ==> is_space(#[trigger] s@[j]),
        decreases sn - i,
    {
        let c = s.get_char(i);
        if !x_is_space(c) {
            return false;
        }
        i += 1;
    }
    true
}

/// Format raw diff output as a numbered listing for display: each file's
/// changed lines prefixed with their staging line numbers.
#[verifier::rlimit(100)]
pub fn format_diff_output(diff_output: &str) -> (r: Result<String, String>)
    ensures
        match r {
            Ok(t) => spec_format_diff(diff_output@) == Ok::<Seq<char>, Seq<char>>(t@),
            Err(e) => spec_format_diff(diff_output@) == Err::<Seq<char>, Seq<char>>(e@),
        },
{
    if is_blank(diff_output) {
        return Ok(String::new());
    }
    let ghost ls0 = lines_of(diff_output@);
    let ghost st0 = FmtV { old: 0, new: 0, first_hunk: true, in_header: true, started: false };
    let mut out = String::new();
    let mut rest: &str = diff_output;
    let mut cur_old: u32 = 0;
    let mut cur_new: u32 = 0;
    let mut first_hunk: bool = true;
    let mut in_header: bool = true;
    let mut started: bool = false;
    proof {
        match sp_format_lines(ls0, st0) {
            Err(e) => {},
            Ok(t) => {
                assert(Seq::<char>::empty() + t =~= t);
            },
        }
    }
    loop
        invariant
            !sp_is_blank(diff_output@),
            ls0 == lines_of(diff_output@),
            st0 == (FmtV { old: 0, new: 0, first_hunk: true, in_header: true, started: false }),
            match sp_format_lines(
                lines_of(rest@),
                FmtV { old: cur_old, new: cur_new, first_hunk, in_header, started },
            ) {
                Err(e) => sp_format_lines(ls0, st0) == Err::<Seq<char>, Seq<char>>(e),
                Ok(t) => sp_format_lines(ls0, st0) == Ok::<Seq<char>, Seq<char>>(out@ + t),
            },
        ensures
            rest@.len() == 0,
            sp_format_lines(ls0, st0) == Ok::<Seq<char>, Seq<char>>(out@),
            !sp_is_blank(diff_output@),
            ls0 == lines_of(diff_output@),
            st0 == (FmtV { old: 0, new: 0, first_hunk: true, in_header: true, started: false }),
        decreases rest@.len(),
    {
        if rest.unicode_len() == 0 {
            proof {
                assert(lines_of(rest@).len() == 0);
                assert(out@ + Seq::<char>::empty() =~= out@);
            }
            break ;
        }
        let (line, next) = split_first_line(rest);
        let ghost cur = lines_of(rest@);
        let ghost st_now = FmtV { old: cur_old, new: cur_new, first_hunk, in_header, started };
        proof {
            assert(cur.first() == line@);
            assert(cur.drop_first() =~= lines_of(next@));
        }
        let ln = line.unicode_len();
        if x_tag(line, "diff --git").is_some() {
            first_hunk = true;
            in_header = true;
        } else if x_tag(line, "--- a/").is_some() {
        } else if let Some(tail) = x_tag(line, "+++ b/") {
            let ghost prev = out@;
            if started {
                out.append("\n");
            }
            out.append(tail);
            out.append(":\n");
            proof {
                reveal_strlit("\n");
                reveal_strlit(":\n");
                reveal_strlit("+++ b/");
                assert("\n"@ =~= seq!['\n']);
                assert(tail@ == line@.skip(6));
                assert(out@ =~= prev + ((if st_now.started {
                    seq!['\n']
                } else {
                    Seq::<char>::empty()
                }) + line@.skip(6) + ":\n"@));
                match sp_format_lines(
                    lines_of(next@),
                    FmtV {
                        old: st_now.old,
                        new: st_now.new,
                        first_hunk: st_now.first_hunk,
                        in_header: st_now.in_header,
                        started: true,
                    },
                ) {
                    Err(e) => {},
                    Ok(t) => {
                        assert(prev + (((if st_now.started {
                            seq!['\n']
                        } else {
                            Seq::<char>::empty()
                        }) + line@.skip(6) + ":\n"@) + t) =~= out@ + t);
                    },
                }
            }
            started = true;
        } else if x_tag(line, "@@ ").is_some() {
            match parse_hunk_header(line) {
                Err(e) => {
                    proof {
                        assert(sp_format_lines(cur, st_now) == Err::<Seq<char>, Seq<char>>(
                            e@,
                        ));
                        assert(spec_format_diff(diff_output@) == Err::<Seq<char>, Seq<char>>(
                            e@,
                        ));
                    }
                    return Err(e);
                },
                Ok((o, n)) => {
                    let ghost prev = out@;
                    if !first_hunk {
                        out.append("\n");
                    }
                    proof {
                        reveal_strlit("\n");
                        assert("\n"@ =~= seq!['\n']);
                        assert(out@ =~= prev + (if !st_now.first_hunk {
                            seq!['\n']
                        } else {
                            Seq::<char>::empty()
                        }));
                        match sp_format_lines(
                            lines_of(next@),
                            FmtV {
                                old: o,
                                new: n,
                                first_hunk: false,
                                in_header: false,
                                started: st_now.started || !st_now.first_hunk,
                            },
                        ) {
                            Err(e) => {},
                            Ok(t) => {
                                assert(prev + ((if !st_now.first_hunk {
                                    seq!['\n']
                                } else {
                                    Seq::<char>::empty()
                                }) + t) =~= out@ + t);
                            },
                        }
                    }
                    started = started || !first_hunk;
                    cur_old = o;
                    cur_new = n;
                    first_hunk = false;
                    in_header = false;
                },
            }
        } else if !in_header && ln > 0 && line.get_char(0) == '+' {
            let ghost prev = out@;
            let num = u32_str(cur_new);
            out.append("  +");
            out.append(num.as_str());
            out.append(":\t");
            out.append(line.substring_char(1, ln));
            out.append("\n");
            proof {
                reveal_strlit("  +");
                reveal_strlit(":\t");
                reveal_strlit("\n");
                assert("\n"@ =~= seq!['\n']);
                let emitted = "  +"@ + dec_str(st_now.new as nat) + ":\t"@ + line@.skip(1)
                    + seq!['\n'];
                assert(out@ =~= prev + emitted);
                match sp_format_lines(
                    lines_of(next@),
                    FmtV {
                        old: st_now.old,
                        new: wrap_inc(st_now.new),
                        first_hunk: st_now.first_hunk,
                        in_header: st_now.in_header,
                        started: true,
                    },
                ) {
                    Err(e) => {},
                    Ok(t) => {
                        assert(prev + (emitted + t) =~= out@ + t);
                    },
                }
            }
            cur_new = if cur_new == u32::MAX {
                0
            } else {
                cur_new + 1
            };
            started = true;
        } else if !in_header && ln > 0 && line.get_char(0) == '-' {
            let ghost prev = out@;
            let num = u32_str(cur_old);
            out.append("  -");
            out.append(num.as_str());
            out.append(":\t");
            out.append(line.substring_char(1, ln));
            out.append("\n");
            proof {
                reveal_strlit("  -");
                reveal_strlit(":\t");
                reveal_strlit("\n");
                assert("\n"@ =~= seq!['\n']);
                let emitted = "  -"@ + dec_str(st_now.old as nat) + ":\t"@ + line@.skip(1)
                    + seq!['\n'];
                assert(out@ =~= prev + emitted);
                match sp_format_lines(
                    lines_of(next@),
                    FmtV {
                        old: wrap_inc(st_now.old),
                        new: st_now.new,
                        first_hunk: st_now.first_hunk,
                        in_header: st_now.in_header,
                        started: true,
                    },
                ) {
                    Err(e) => {},
                    Ok(t) => {
                        assert(prev + (emitted + t) =~= out@ + t);
                    },
                }
            }
            cur_old = if cur_old == u32::MAX {
                0
            } else {
                cur_old + 1
            };
            started = true;
        }
        rest = next;
    }
    Ok(out)
}

} // verus!
