//! The `file:refs` selector grammar: `N` stages an addition, `-N` a
//! deletion, `N..M` and `-N..-M` inclusive ranges, comma-separated.

use vstd::prelude::*;

verus! {

use vstd::string::StrSliceExecFns;
use vstd::string::StringExecFns;
use crate::text::find_sub;
use crate::text::x_find_sub;
use crate::text::lemma_find_sub;
use crate::text::occurs_at;
use crate::lines::sp_parse_u32_full;
use crate::lines::is_space;

/// A reference to specific lines to stage. Line numbers are 1-indexed;
/// additions use new-file numbers, deletions old-file numbers. Values
/// built by [`parse_file_refs`] are non-zero, with ordered range ends.
#[derive(Debug, Clone, PartialEq, Eq, Structural)]
pub enum LineRef {
    /// Addition at a new-file line number.
    Add(u32),
    /// Addition range, inclusive.
    AddRange(u32, u32),
    /// Deletion at an old-file line number.
    Delete(u32),
    /// Deletion range, inclusive.
    DeleteRange(u32, u32),
}

/// Errors from parsing `file:refs` syntax.
#[derive(Debug, Clone, PartialEq)]
pub enum ParseError {
    /// No colon separator.
    InvalidFormat { input: String },
    /// File name before the colon empty or whitespace.
    EmptyFileName { input: String },
    /// No line references after the colon.
    EmptyRefs,
    /// A line number that is not a positive 32-bit integer.
    InvalidLineNumber { value: String },
    /// A range whose start exceeds its end.
    InvalidRange { start: u32, end: u32 },
    /// A deletion reference without its `-` prefix.
    InvalidDeleteRef { value: String },
}

/// View of [`ParseError`].
pub enum PeV {
    InvalidFormat { input: Seq<char> },
    EmptyFileName { input: Seq<char> },
    EmptyRefs,
    InvalidLineNumber { value: Seq<char> },
    InvalidRange { start: u32, end: u32 },
    InvalidDeleteRef { value: Seq<char> },
}

impl View for ParseError {
    type V = PeV;

    open spec fn view(&self) -> PeV {
        match self {
            ParseError::InvalidFormat { input } => PeV::InvalidFormat { input: input@ },
            ParseError::EmptyFileName { input } => PeV::EmptyFileName { input: input@ },
            ParseError::EmptyRefs => PeV::EmptyRefs,
            ParseError::InvalidLineNumber { value } => PeV::InvalidLineNumber { value: value@ },
            ParseError::InvalidRange { start, end } => PeV::InvalidRange {
                start: *start,
                end: *end,
            },
            ParseError::InvalidDeleteRef { value } => PeV::InvalidDeleteRef { value: value@ },
        }
    }
}

/// Parsed file reference with its line selections.
#[derive(Debug, Clone, PartialEq)]
pub struct FileLineRefs {
    /// The file path.
    pub file: String,
    /// The line references to stage from this file.
    pub refs: Vec<LineRef>,
}

/// View of [`FileLineRefs`].
pub struct FlrV {
    pub file: Seq<char>,
    pub refs: Seq<LineRef>,
}

impl View for FileLineRefs {
    type V = FlrV;

    open spec fn view(&self) -> FlrV {
        FlrV { file: self.file@, refs: self.refs@ }
    }
}

// ----------------------------------------------------------------------------
// Specification
// ----------------------------------------------------------------------------

/// Leading whitespace removed.
pub open spec fn trim_start(s: Seq<char>) -> Seq<char>
    decreases s.len(),
{
    if s.len() > 0 && is_space(s[0]) {
        trim_start(s.drop_first())
    } else {
        s
    }
}

/// Trailing whitespace removed.
pub open spec fn trim_end(s: Seq<char>) -> Seq<char>
    decreases s.len(),
{
    if s.len() > 0 && is_space(s.last()) {
        trim_end(s.drop_last())
    } else {
        s
    }
}

/// Whitespace removed from both ends.
pub open spec fn sp_trim(s: Seq<char>) -> Seq<char> {
    trim_end(trim_start(s))
}

/// A positive line number for an addition.
pub open spec fn sp_add_number(s: Seq<char>) -> Result<u32, PeV> {
    match sp_parse_u32_full(s) {
        Some(v) => if v != 0 {
            Ok(v)
        } else {
            Err(PeV::InvalidLineNumber { value: s })
        },
        None => Err(PeV::InvalidLineNumber { value: s }),
    }
}

/// A positive line number for a deletion, with its `-` prefix.
pub open spec fn sp_delete_number(s: Seq<char>) -> Result<u32, PeV> {
    if !(s.len() > 0 && s[0] == '-') {
        Err(PeV::InvalidDeleteRef { value: s })
    } else {
        match sp_parse_u32_full(s.skip(1)) {
            Some(v) => if v != 0 {
                Ok(v)
            } else {
                Err(PeV::InvalidLineNumber { value: s })
            },
            None => Err(PeV::InvalidLineNumber { value: s }),
        }
    }
}

/// One reference: a number, a range, or their deletion forms.
pub open spec fn sp_single_ref(s: Seq<char>) -> Result<LineRef, PeV> {
    match find_sub(s, ".."@) {
        Some(ix) => {
            let start_str = s.take(ix);
            let end_str = s.skip(ix + 2);
            if start_str.len() > 0 && start_str[0] == '-' {
                match sp_delete_number(start_str) {
                    Err(e) => Err(e),
                    Ok(a) => match sp_delete_number(end_str) {
                        Err(e) => Err(e),
                        Ok(b) => if a > b {
                            Err(PeV::InvalidRange { start: a, end: b })
                        } else {
                            Ok(LineRef::DeleteRange(a, b))
                        },
                    },
                }
            } else {
                match sp_add_number(start_str) {
                    Err(e) => Err(e),
                    Ok(a) => match sp_add_number(end_str) {
                        Err(e) => Err(e),
                        Ok(b) => if a > b {
                            Err(PeV::InvalidRange { start: a, end: b })
                        } else {
                            Ok(LineRef::AddRange(a, b))
                        },
                    },
                }
            }
        },
        None => if s.len() > 0 && s[0] == '-' {
            match sp_delete_number(s) {
                Err(e) => Err(e),
                Ok(v) => Ok(LineRef::Delete(v)),
            }
        } else {
            match sp_add_number(s) {
                Err(e) => Err(e),
                Ok(v) => Ok(LineRef::Add(v)),
            }
        },
    }
}

/// The comma-separated references after the colon: each piece trimmed,
/// empty pieces dropped, the first bad piece's error kept.
pub open spec fn sp_line_refs(s: Seq<char>) -> Result<Seq<LineRef>, PeV>
    decreases s.len(),
{
    let piece_end = match find_sub(s, seq![',']) {
        Some(ix) => ix,
        None => s.len() as int,
    };
    let piece = sp_trim(s.take(piece_end));
    let head: Result<Seq<LineRef>, PeV> = if piece.len() == 0 {
        Ok(Seq::empty())
    } else {
        match sp_single_ref(piece) {
            Err(e) => Err(e),
            Ok(r) => Ok(seq![r]),
        }
    };
    if piece_end < 0 || piece_end >= s.len() {
        head
    } else {
        match head {
            Err(e) => Err(e),
            Ok(h) => match sp_line_refs(s.skip(piece_end + 1)) {
                Err(e) => Err(e),
                Ok(t) => Ok(h + t),
            },
        }
    }
}

/// What parsing a `file:refs` string yields: the trimmed, non-empty file
/// name and at least one line reference, or the error naming what was
/// wrong.
pub open spec fn spec_parse_file_refs(input: Seq<char>) -> Result<FlrV, PeV> {
    match find_sub(input, seq![':']) {
        None => Err(PeV::InvalidFormat { input }),
        Some(ix) => {
            let file = sp_trim(input.take(ix));
            if file.len() == 0 {
                Err(PeV::EmptyFileName { input })
            } else {
                match sp_line_refs(input.skip(ix + 1)) {
                    Err(e) => Err(e),
                    Ok(refs) => if refs.len() == 0 {
                        Err(PeV::EmptyRefs)
                    } else {
                        Ok(FlrV { file, refs })
                    },
                }
            }
        },
    }
}

// ----------------------------------------------------------------------------
// Executable forms
// ----------------------------------------------------------------------------

/// Trim whitespace from both ends of a string slice.
fn x_trim<'a>(s: &'a str) -> (r: &'a str)
    ensures
        r@ == sp_trim(s@),
{
    let sn = s.unicode_len();
    proof {
        assert(s@.skip(0) =~= s@);
    }
    let mut a: usize = 0;
    while a < sn && x_space_at(s, a)
        invariant
            0 <= a <= sn,
            sn == s@.len(),
            trim_start(s@) == trim_start(s@.skip(a as int)),
            forall|j: int| 0 <= j < a ==> is_space(#[trigger] s@[j]),
        decreases sn - a,
    {
        proof {
            assert(s@.skip(a as int).drop_first() =~= s@.skip(a + 1));
        }
        a += 1;
    }
    proof {
        if a < sn {
            assert(!is_space(s@.skip(a as int)[0]));
        }
        assert(trim_start(s@.skip(a as int)) == s@.skip(a as int));
    }
    let mut b: usize = sn;
    proof {
        assert(s@.skip(a as int).take(sn - a) =~= s@.skip(a as int));
    }
    while b > a && x_space_at(s, b - 1)
        invariant
            a <= b <= sn,
            sn == s@.len(),
            trim_start(s@) == s@.skip(a as int),
            a < sn ==> !is_space(s@[a as int]),
            trim_end(s@.skip(a as int)) == trim_end(s@.skip(a as int).take(b - a)),
        decreases b,
    {
        proof {
            let cur = s@.skip(a as int).take(b - a);
            assert(cur.last() == s@[b - 1]);
            assert(cur.drop_last() =~= s@.skip(a as int).take(b - 1 - a));
        }
        b -= 1;
    }
    proof {
        let cur = s@.skip(a as int).take(b - a);
        if b > a {
            assert(cur.last() == s@[b - 1]);
            assert(!is_space(cur.last()));
        }
        assert(trim_end(cur) == cur);
        assert(sp_trim(s@) =~= s@.subrange(a as int, b as int));
    }
    s.substring_char(a, b)
}

/// Is the character at `p` whitespace?
fn x_space_at(s: &str, p: usize) -> (r: bool)
    requires
        p < s@.len(),
    ensures
        r == is_space(s@[p as int]),
{
    crate::lines::x_is_space(s.get_char(p))
}

/// Executable form of [`sp_add_number`].
fn x_add_number(s: &str) -> (r: Result<u32, ParseError>)
    ensures
        match r {
            Ok(v) => sp_add_number(s@) == Ok::<u32, PeV>(v),
            Err(e) => sp_add_number(s@) == Err::<u32, PeV>(e@),
        },
{
    match crate::lines::x_parse_u32_full(s) {
        Some(v) => {
            if v != 0 {
                Ok(v)
            } else {
                Err(ParseError::InvalidLineNumber { value: s.to_owned() })
            }
        },
        None => Err(ParseError::InvalidLineNumber { value: s.to_owned() }),
    }
}

/// Executable form of [`sp_delete_number`].
fn x_delete_number(s: &str) -> (r: Result<u32, ParseError>)
    ensures
        match r {
            Ok(v) => sp_delete_number(s@) == Ok::<u32, PeV>(v),
            Err(e) => sp_delete_number(s@) == Err::<u32, PeV>(e@),
        },
{
    let sn = s.unicode_len();
    if !(sn > 0 && s.get_char(0) == '-') {
        return Err(ParseError::InvalidDeleteRef { value: s.to_owned() });
    }
    let body = s.substring_char(1, sn);
    proof {
        assert(body@ =~= s@.skip(1));
    }
    match crate::lines::x_parse_u32_full(body) {
        Some(v) => {
            if v != 0 {
                Ok(v)
            } else {
                Err(ParseError::InvalidLineNumber { value: s.to_owned() })
            }
        },
        None => Err(ParseError::InvalidLineNumber { value: s.to_owned() }),
    }
}

/// Executable form of [`sp_single_ref`].
fn x_single_ref(s: &str) -> (r: Result<LineRef, ParseError>)
    ensures
        match r {
            Ok(v) => sp_single_ref(s@) == Ok::<LineRef, PeV>(v),
            Err(e) => sp_single_ref(s@) == Err::<LineRef, PeV>(e@),
        },
{
    let sn = s.unicode_len();
    match x_find_sub(s, "..") {
        Some(ix) => {
            proof {
                lemma_find_sub(s@, ".."@);
                reveal_strlit("..");
                assert(occurs_at(s@, ".."@, ix as int));
            }
            let start_str = s.substring_char(0, ix);
            let end_str = s.substring_char(ix + 2, sn);
            proof {
                assert(start_str@ =~= s@.take(ix as int));
                assert(end_str@ =~= s@.skip(ix + 2));
            }
            let ssn = start_str.unicode_len();
            if ssn > 0 && start_str.get_char(0) == '-' {
                let a = match x_delete_number(start_str) {
                    Err(e) => {
                        return Err(e);
                    },
                    Ok(v) => v,
                };
                let b = match x_delete_number(end_str) {
                    Err(e) => {
                        return Err(e);
                    },
                    Ok(v) => v,
                };
                if a > b {
                    Err(ParseError::InvalidRange { start: a, end: b })
                } else {
                    Ok(LineRef::DeleteRange(a, b))
                }
            } else {
                let a = match x_add_number(start_str) {
                    Err(e) => {
                        return Err(e);
                    },
                    Ok(v) => v,
                };
                let b = match x_add_number(end_str) {
                    Err(e) => {
                        return Err(e);
                    },
                    Ok(v) => v,
                };
                if a > b {
                    Err(ParseError::InvalidRange { start: a, end: b })
                } else {
                    Ok(LineRef::AddRange(a, b))
                }
            }
        },
        None => {
            if sn > 0 && s.get_char(0) == '-' {
                match x_delete_number(s) {
                    Err(e) => Err(e),
                    Ok(v) => Ok(LineRef::Delete(v)),
                }
            } else {
                match x_add_number(s) {
                    Err(e) => Err(e),
                    Ok(v) => Ok(LineRef::Add(v)),
                }
            }
        },
    }
}

/// Parse a `file:refs` string into its structured form.
pub fn parse_file_refs(input: &str) -> (r: Result<FileLineRefs, ParseError>)
    ensures
        match r {
            Ok(flr) => spec_parse_file_refs(input@) == Ok::<FlrV, PeV>(flr@),
            Err(e) => spec_parse_file_refs(input@) == Err::<FlrV, PeV>(e@),
        },
{
    proof {
        reveal_strlit(":");
        assert(":"@ =~= seq![':']);
    }
    let sn = input.unicode_len();
    let ix = match x_find_sub(input, ":") {
        None => {
            return Err(ParseError::InvalidFormat { input: input.to_owned() });
        },
        Some(p) => p,
    };
    proof {
        lemma_find_sub(input@, ":"@);
        assert(occurs_at(input@, ":"@, ix as int));
    }
    let file_raw = input.substring_char(0, ix);
    proof {
        assert(file_raw@ =~= input@.take(ix as int));
    }
    let file = x_trim(file_raw);
    if file.unicode_len() == 0 {
        return Err(ParseError::EmptyFileName { input: input.to_owned() });
    }
    let mut rest: &str = input.substring_char(ix + 1, sn);
    proof {
        assert(rest@ =~= input@.skip(ix + 1));
    }
    let ghost refs_src = rest@;
    let mut refs: Vec<LineRef> = Vec::new();
    proof {
        match sp_line_refs(refs_src) {
            Err(e) => {},
            Ok(t) => {
                assert(Seq::<LineRef>::empty() + t =~= t);
            },
        }
    }
    loop
        invariant_except_break
            match sp_line_refs(rest@) {
                Err(e) => sp_line_refs(refs_src) == Err::<Seq<LineRef>, PeV>(e),
                Ok(t) => sp_line_refs(refs_src) == Ok::<Seq<LineRef>, PeV>(refs@ + t),
            },
        invariant
            find_sub(input@, seq![':']) == Some(ix as int),
            file@ == sp_trim(input@.take(ix as int)),
            file@.len() > 0,
            refs_src == input@.skip(ix + 1),
        ensures
            sp_line_refs(refs_src) == Ok::<Seq<LineRef>, PeV>(refs@),
            find_sub(input@, seq![':']) == Some(ix as int),
            file@ == sp_trim(input@.take(ix as int)),
            file@.len() > 0,
            refs_src == input@.skip(ix + 1),
        decreases rest@.len(),
    {
        proof {
            reveal_strlit(",");
            assert(","@ =~= seq![',']);
        }
        let rn = rest.unicode_len();
        let comma = x_find_sub(rest, ",");
        let piece_end: usize = match comma {
            Some(p) => p,
            None => rn,
        };
        proof {
            match comma {
                Some(p) => {
                    lemma_find_sub(rest@, ","@);
                    assert(occurs_at(rest@, ","@, p as int));
                },
                None => {},
            }
        }
        let piece_raw = rest.substring_char(0, piece_end);
        proof {
            assert(piece_raw@ =~= rest@.take(piece_end as int));
        }
        let piece = x_trim(piece_raw);
        let ghost prev = refs@;
        if piece.unicode_len() > 0 {
            match x_single_ref(piece) {
                Err(e) => {
                    proof {
                        assert(sp_line_refs(rest@) == Err::<Seq<LineRef>, PeV>(e@));
                    }
                    return Err(e);
                },
                Ok(lr) => {
                    refs.push(lr);
                    proof {
                        assert(refs@ =~= prev.push(lr));
                    }
                },
            }
        }
        if piece_end >= rn {
            proof {
                match sp_line_refs(rest@) {
                    Err(e) => {},
                    Ok(t) => {
                        if piece@.len() > 0 {
                            let lr = refs@.last();
                            assert(prev + seq![lr] =~= refs@);
                        } else {
                            assert(prev + Seq::<LineRef>::empty() =~= refs@);
                        }
                    },
                }
            }
            break ;
        }
        let next = rest.substring_char(piece_end + 1, rn);
        proof {
            assert(next@ =~= rest@.skip(piece_end + 1));
            match sp_line_refs(next@) {
                Err(e) => {},
                Ok(t) => {
                    if piece@.len() > 0 {
                        let lr = refs@.last();
                        assert(prev + (seq![lr] + t) =~= refs@ + t);
                    } else {
                        assert(prev + (Seq::<LineRef>::empty() + t) =~= refs@ + t);
                    }
                },
            }
        }
        rest = next;
    }
    if refs.len() == 0 {
        return Err(ParseError::EmptyRefs);
    }
    let flr = FileLineRefs { file: file.to_owned(), refs };
    Ok(flr)
}

} // verus!

verus! {

use crate::text::dec_str;
use crate::text::u32_str;

/// The user-facing text of a parse error.
pub open spec fn spec_parse_error_message(e: PeV) -> Seq<char> {
    match e {
        PeV::InvalidFormat { input } => "Invalid format '"@ + input
            + "': expected 'file:refs'"@,
        PeV::EmptyFileName { input } => "Invalid format '"@ + input
            + "': file name cannot be empty"@,
        PeV::EmptyRefs => "No line references provided"@,
        PeV::InvalidLineNumber { value } => "Invalid line number '"@ + value + "'"@,
        PeV::InvalidRange { start, end } => "Invalid range "@ + dec_str(start as nat) + ".."@
            + dec_str(end as nat) + ": start must be <= end"@,
        PeV::InvalidDeleteRef { value } => "Delete reference must start with '-', got '"@
            + value + "'"@,
    }
}

impl ParseError {
    /// The user-facing text that describes this error.
    pub fn message(&self) -> (r: String)
        ensures
            r@ == spec_parse_error_message(self@),
    {
        let mut out = String::new();
        match self {
            ParseError::InvalidFormat { input } => {
                out.append("Invalid format '");
                out.append(input.as_str());
                out.append("': expected 'file:refs'");
            },
            ParseError::EmptyFileName { input } => {
                out.append("Invalid format '");
                out.append(input.as_str());
                out.append("': file name cannot be empty");
            },
            ParseError::EmptyRefs => {
                out.append("No line references provided");
            },
            ParseError::InvalidLineNumber { value } => {
                out.append("Invalid line number '");
                out.append(value.as_str());
                out.append("'");
            },
            ParseError::InvalidRange { start, end } => {
                out.append("Invalid range ");
                let a = u32_str(*start);
                out.append(a.as_str());
                out.append("..");
                let b = u32_str(*end);
                out.append(b.as_str());
                out.append(": start must be <= end");
            },
            ParseError::InvalidDeleteRef { value } => {
                out.append("Delete reference must start with '-', got '");
                out.append(value.as_str());
                out.append("'");
            },
        }
        out
    }
}

} // verus!
