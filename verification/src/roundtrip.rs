//! Round trip: rendering a well-formed hunk and parsing the text back
//! yields the same hunk.

use vstd::prelude::*;

verus! {

use crate::hunk::HunkV;
use crate::hunk::MlV;
use crate::hunk::ml_bounded;
use crate::hunk::hunk_bounded;
use crate::hunk::marker_tag;
use crate::hunk::spec_render_range;
use crate::hunk::spec_render_header;
use crate::hunk::spec_render_lines;
use crate::hunk::spec_render_side;
use crate::hunk::spec_render_hunk;
use crate::hunk::sp_header_range;
use crate::hunk::sp_header_inner;
use crate::hunk::sp_hunk_header;
use crate::hunk::sp_marker;
use crate::hunk::sp_sign_line;
use crate::hunk::sp_sign_lines;
use crate::hunk::spec_parse_hunk;
use crate::text::sp_tag;
use crate::text::sp_u32;
use crate::text::sp_not_line_ending;
use crate::text::sp_line_ending;
use crate::text::find_sub;
use crate::text::occurs_at;
use crate::text::is_digit;
use crate::text::dec_str;
use crate::text::free_of;
use crate::text::lemma_free_of_concat;
use crate::text::lemma_free_of_dec;
use crate::text::lemma_tag_concat;
use crate::text::lemma_find_sub_at;
use crate::text::lemma_u32_roundtrip;
use crate::text::lemma_dec_str_digits;
use crate::text::lemma_digit_prefix_len_exact;
use crate::text::lemma_line_break_pos_exact;

/// Line content that renders and parses cleanly: no line breaks.
pub open spec fn line_ok(l: Seq<char>) -> bool {
    free_of(l, '\n') && free_of(l, '\r')
}

/// One side whose rendering parses back: breakless lines, the no-newline
/// flag only on a non-empty side, numbers within `u32`.
pub open spec fn side_ok(m: MlV) -> bool {
    &&& forall|i: int| 0 <= i < m.lines.len() ==> line_ok(#[trigger] m.lines[i])
    &&& (m.missing_final_newline ==> m.lines.len() > 0)
    &&& ml_bounded(m)
}

/// A hunk whose rendering parses back to itself.
pub open spec fn hunk_ok(h: HunkV) -> bool {
    side_ok(h.old) && side_ok(h.new)
}

/// Reading back a rendered range, with what follows it.
proof fn lemma_range_roundtrip(m: MlV, rest: Seq<char>)
    requires
        ml_bounded(m),
        rest.len() > 0 ==> (!is_digit(rest[0]) && rest[0] != ','),
    ensures
        sp_header_range(spec_render_range(m) + rest) == Some((m.start, rest)),
{
    let d = dec_str(m.start as nat);
    if m.lines.len() == 0 {
        let r = seq![',', '0'] + rest;
        assert(spec_render_range(m) + rest =~= d + r);
        assert(r[0] == ',' && r[1] == '0');
        lemma_u32_roundtrip(m.start, r);
        let r1 = r.skip(1);
        assert(r1 =~= seq!['0'] + rest);
        assert(r1[0] == '0');
        if r1.len() > 1 {
            assert(r1[1] == rest[0]);
        }
        lemma_digit_prefix_len_exact(r1, 1);
        assert(r1.skip(1) =~= rest);
    } else if m.lines.len() == 1 {
        lemma_u32_roundtrip(m.start, rest);
        assert(sp_u32(d + rest) == Some((m.start, rest)));
        if rest.len() >= 2 {
            assert(rest[0] != ',');
        }
    } else {
        let d2 = dec_str(m.lines.len() as nat);
        let r = (seq![','] + d2) + rest;
        assert(spec_render_range(m) + rest =~= d + r);
        assert(r[0] == ',');
        lemma_dec_str_digits(m.lines.len() as nat);
        assert(r =~= seq![','] + (d2 + rest));
        assert(r[1] == d2[0]);
        lemma_u32_roundtrip(m.start, r);
        let r1 = r.skip(1);
        assert(r1 =~= d2 + rest);
        assert forall|i: int| 0 <= i < d2.len() implies is_digit(#[trigger] r1[i]) by {
            assert(r1[i] == d2[i]);
        }
        if d2.len() < r1.len() {
            assert(r1[d2.len() as int] == rest[0]);
        }
        lemma_digit_prefix_len_exact(r1, d2.len() as int);
        assert(r1.skip(d2.len() as int) =~= rest);
    }
}

/// Reading back a rendered header line, with the body after it.
proof fn lemma_header_roundtrip(h: HunkV, body: Seq<char>)
    requires
        hunk_bounded(h),
    ensures
        sp_hunk_header(spec_render_header(h) + body) == Some(
            ((h.old.start, h.new.start), seq!['\n'] + body),
        ),
{
    reveal_strlit("@@ -");
    reveal_strlit("@@ ");
    reveal_strlit(" +");
    reveal_strlit(" @@\n");
    reveal_strlit(" @@");
    reveal_strlit("-");
    let ro = spec_render_range(h.old);
    let rn = spec_render_range(h.new);
    let rest1 = seq!['-'] + ro + " +"@ + rn + " @@\n"@ + body;
    let s = spec_render_header(h) + body;
    assert("@@ -"@ =~= "@@ "@ + seq!['-']);
    assert(s =~= "@@ "@ + rest1);
    lemma_tag_concat("@@ "@, rest1);
    assert(sp_tag(s, "@@ "@) == Some(rest1));
    let p: int = 3 + ro.len() + rn.len() as int;
    lemma_range_free(h.old, '@');
    lemma_range_free(h.new, '@');
    assert(" +"@.len() == 2 && " +"@[0] == ' ' && " +"@[1] == '+');
    assert(" @@\n"@.len() == 4 && " @@\n"@[0] == ' ' && " @@\n"@[1] == '@' && " @@\n"@[2]
        == '@' && " @@\n"@[3] == '\n');
    assert(" @@"@.len() == 3 && " @@"@[0] == ' ' && " @@"@[1] == '@' && " @@"@[2] == '@');
    // Characters strictly before position p + 1 are never '@'.
    assert forall|idx: int| 0 <= idx <= p implies #[trigger] rest1[idx] != '@' by {
        let a1 = seq!['-'] + ro;
        let a2 = a1 + " +"@;
        let a3 = a2 + rn;
        assert(rest1 =~= a3 + " @@\n"@ + body);
        if idx == 0 {
            assert(rest1[0] == '-');
        } else if idx < a1.len() {
            assert(rest1[idx] == ro[idx - 1]);
        } else if idx < a2.len() {
            assert(rest1[idx] == " +"@[idx - a1.len()]);
        } else if idx < a3.len() {
            assert(rest1[idx] == rn[idx - a2.len()]);
        } else {
            assert(idx == p);
            assert(rest1[idx] == ' ');
        }
    }
    assert(occurs_at(rest1, " @@"@, p)) by {
        assert(rest1.subrange(p, p + 3) =~= " @@"@);
    }
    assert forall|j: int| 0 <= j < p implies !(#[trigger] occurs_at(rest1, " @@"@, j)) by {
        if occurs_at(rest1, " @@"@, j) {
            assert(rest1.subrange(j, j + 3)[1] == rest1[j + 1]);
            assert(rest1[j + 1] == '@');
        }
    }
    lemma_find_sub_at(rest1, " @@"@, p);
    let inner = rest1.take(p);
    assert(inner =~= seq!['-'] + (ro + (" +"@ + rn)));
    assert("-"@ =~= seq!['-']);
    lemma_tag_concat("-"@, ro + (" +"@ + rn));
    assert(sp_tag(inner, "-"@) == Some(ro + (" +"@ + rn)));
    lemma_range_roundtrip(h.old, " +"@ + rn);
    assert((" +"@ + rn)[0] == ' ');
    assert(sp_header_range(ro + (" +"@ + rn)) == Some((h.old.start, " +"@ + rn)));
    lemma_tag_concat(" +"@, rn);
    lemma_range_roundtrip(h.new, Seq::<char>::empty());
    assert(rn + Seq::<char>::empty() =~= rn);
    assert(sp_header_range(rn) == Some((h.new.start, Seq::<char>::empty())));
    assert(sp_header_inner(inner) == Some((h.old.start, h.new.start)));
    assert(rest1.skip(p + 3) =~= seq!['\n'] + body);
}

/// Reading back rendered sign lines, with what follows them.
proof fn lemma_sign_lines_roundtrip(sign: char, ls: Seq<Seq<char>>, rest: Seq<char>)
    requires
        sign != '\n' && sign != '\r',
        forall|i: int| 0 <= i < ls.len() ==> line_ok(#[trigger] ls[i]),
        rest.len() > 0 ==> rest[0] != sign,
    ensures
        sp_sign_lines(sign, spec_render_lines(sign, ls) + rest) == (ls, rest),
    decreases ls.len(),
{
    if ls.len() == 0 {
        assert(spec_render_lines(sign, ls) + rest =~= rest);
        assert(sp_sign_line(sign, rest) is None);
        assert(sp_sign_lines(sign, rest) == (Seq::<Seq<char>>::empty(), rest));
        assert(ls =~= Seq::<Seq<char>>::empty());
    } else {
        let l0 = ls.first();
        let tail2 = spec_render_lines(sign, ls.drop_first()) + rest;
        let s = spec_render_lines(sign, ls) + rest;
        assert(s =~= seq![sign] + (l0 + (seq!['\n'] + tail2)));
        assert(s[0] == sign);
        let s1 = s.skip(1);
        assert(s1 =~= l0 + (seq!['\n'] + tail2));
        assert(line_ok(l0));
        assert forall|i: int| 0 <= i < l0.len() implies #[trigger] s1[i] != '\n' && s1[i]
            != '\r' by {
            assert(s1[i] == l0[i]);
        }
        assert(s1[l0.len() as int] == '\n');
        lemma_line_break_pos_exact(s1, l0.len() as int);
        assert(s1.take(l0.len() as int) =~= l0);
        assert(s1.skip(l0.len() as int) =~= seq!['\n'] + tail2);
        assert(sp_not_line_ending(s1) == Some((l0, seq!['\n'] + tail2)));
        assert((seq!['\n'] + tail2)[0] == '\n');
        assert((seq!['\n'] + tail2).skip(1) =~= tail2);
        assert(sp_line_ending(seq!['\n'] + tail2) == Some(tail2));
        assert(sp_sign_line(sign, s) == Some((l0, tail2)));
        assert(tail2.len() < s.len());
        assert forall|i: int| 0 <= i < ls.drop_first().len() implies line_ok(
            #[trigger] ls.drop_first()[i],
        ) by {
            assert(ls.drop_first()[i] == ls[i + 1]);
        }
        lemma_sign_lines_roundtrip(sign, ls.drop_first(), rest);
        assert(sp_sign_lines(sign, s) == (seq![l0] + ls.drop_first(), rest));
        assert(seq![l0] + ls.drop_first() =~= ls);
    }
}

/// Reading back one rendered side: its lines, then the optional marker.
proof fn lemma_side_roundtrip(sign: char, m: MlV, rest: Seq<char>)
    requires
        sign != '\n' && sign != '\r' && sign != '\\',
        side_ok(m),
        rest.len() > 0 ==> (rest[0] != sign && rest[0] != '\\'),
    ensures
        ({
            let s = spec_render_side(sign, m) + rest;
            let (lines, r1) = sp_sign_lines(sign, s);
            &&& lines == m.lines
            &&& (if m.missing_final_newline {
                sp_marker(r1) == Some(rest)
            } else {
                sp_marker(r1) is None && r1 == rest
            })
        }),
{
    reveal_strlit("\\ No newline at end of file");
    assert(marker_tag().len() == 27);
    assert(marker_tag()[0] == '\\');
    let s = spec_render_side(sign, m) + rest;
    if m.missing_final_newline {
        let mk = marker_tag() + seq!['\n'] + rest;
        assert(s =~= spec_render_lines(sign, m.lines) + mk);
        assert(mk[0] == '\\');
        lemma_sign_lines_roundtrip(sign, m.lines, mk);
        assert(sp_sign_lines(sign, s) == (m.lines, mk));
        assert(mk =~= marker_tag() + (seq!['\n'] + rest));
        lemma_tag_concat(marker_tag(), seq!['\n'] + rest);
        assert((seq!['\n'] + rest)[0] == '\n');
        assert((seq!['\n'] + rest).skip(1) =~= rest);
        assert(sp_marker(mk) == Some(rest));
    } else {
        assert(s =~= spec_render_lines(sign, m.lines) + rest);
        lemma_sign_lines_roundtrip(sign, m.lines, rest);
        assert(sp_sign_lines(sign, s) == (m.lines, rest));
        if rest.len() >= marker_tag().len() {
            if rest.take(27) == marker_tag() {
                assert(rest.take(27)[0] == rest[0]);
                assert(rest[0] == '\\');
            }
        }
        assert(sp_marker(rest) is None);
    }
}

/// Round trip: parsing the rendering of a well-formed hunk yields the
/// hunk itself.
pub proof fn lemma_hunk_roundtrip(h: HunkV)
    requires
        hunk_ok(h),
    ensures
        spec_parse_hunk(spec_render_hunk(h)) == Some(h),
{
    reveal_strlit("\\ No newline at end of file");
    let body = spec_render_side('-', h.old) + spec_render_side('+', h.new);
    let s = spec_render_hunk(h);
    assert(s =~= spec_render_header(h) + body);
    lemma_header_roundtrip(h, body);
    let r0 = seq!['\n'] + body;
    assert(sp_hunk_header(s) == Some(((h.old.start, h.new.start), r0)));
    assert(r0[0] == '\n');
    lemma_line_break_pos_exact(r0, 0);
    assert(r0.take(0) =~= Seq::<char>::empty());
    assert(r0.skip(0) =~= r0);
    assert(sp_not_line_ending(r0) == Some((Seq::<char>::empty(), r0)));
    assert(r0.skip(1) =~= body);
    assert(sp_line_ending(r0) == Some(body));
    // The new side rendered, as the tail after the old side.
    let ns = spec_render_side('+', h.new);
    assert(ns.len() > 0 ==> (ns[0] != '-')) by {
        if h.new.lines.len() > 0 {
            assert(spec_render_lines('+', h.new.lines)[0] == '+');
            if h.new.missing_final_newline {
                assert(ns =~= spec_render_lines('+', h.new.lines) + (marker_tag()
                    + seq!['\n']));
            } else {
                assert(ns =~= spec_render_lines('+', h.new.lines) + Seq::<char>::empty());
            }
            assert(ns[0] == '+');
        } else {
            assert(spec_render_lines('+', h.new.lines) =~= Seq::<char>::empty());
            if h.new.missing_final_newline {
            } else {
                assert(ns.len() == 0);
            }
        }
    }
    assert(ns.len() > 0 ==> ns[0] == '+' || ns[0] == '\\') by {
        if ns.len() > 0 {
            if h.new.lines.len() > 0 {
                assert(ns[0] == '+');
            } else {
                assert(h.new.missing_final_newline);
                assert(ns =~= marker_tag() + seq!['\n']);
                assert(ns[0] == '\\');
            }
        }
    }
    assert(body =~= spec_render_side('-', h.old) + ns);
    lemma_side_roundtrip('-', h.old, ns);
    let (old_lines, r3) = sp_sign_lines('-', body);
    assert(old_lines == h.old.lines);
    let r4: Seq<char> = if h.old.missing_final_newline {
        sp_marker(r3)->Some_0
    } else {
        r3
    };
    assert(r4 == ns);
    assert(if h.old.missing_final_newline {
        sp_marker(r3) == Some(ns)
    } else {
        sp_marker(r3) is None && r3 == ns
    });
    // The new side against an empty tail.
    assert(ns =~= spec_render_side('+', h.new) + Seq::<char>::empty());
    lemma_side_roundtrip('+', h.new, Seq::<char>::empty());
    let (new_lines, r5) = sp_sign_lines('+', ns);
    assert(new_lines == h.new.lines);
    let parsed = spec_parse_hunk(s);
    assert(parsed == Some(
        HunkV {
            old: MlV {
                start: h.old.start,
                lines: h.old.lines,
                missing_final_newline: h.old.missing_final_newline,
            },
            new: MlV {
                start: h.new.start,
                lines: h.new.lines,
                missing_final_newline: h.new.missing_final_newline,
            },
        },
    ));
    assert(parsed == Some(h));
}

} // verus!


verus! {

use crate::file::FileDiffV;
use crate::file::find_from;
use crate::file::spec_render_hunks;
use crate::file::spec_render_file;
use crate::file::spec_parse_file;
use crate::file::sp_parse_sections;
use crate::file::sp_find_path;
use crate::text::lines_of;
use crate::text::strip_cr_end;
use crate::text::lemma_find_sub;

/// Occurrences shift through `skip`.
proof fn lemma_occurs_shift(s: Seq<char>, pat: Seq<char>, a: int, j: int)
    requires
        0 <= a <= s.len(),
        0 <= j,
    ensures
        occurs_at(s.skip(a), pat, j) == occurs_at(s, pat, a + j),
{
    if j + pat.len() <= s.skip(a).len() {
        assert(s.skip(a).subrange(j, j + pat.len()) =~= s.subrange(a + j, a + j + pat.len()));
    }
}

/// Stepping past a non-occurrence leaves the found positions unchanged.
proof fn lemma_find_from_step(s: Seq<char>, pat: Seq<char>, from: int)
    requires
        pat.len() >= 1,
        0 <= from < s.len(),
        !occurs_at(s, pat, from),
    ensures
        find_from(s, pat, from) == find_from(s, pat, from + 1),
{
    lemma_find_sub(s.skip(from), pat);
    match find_sub(s.skip(from), pat) {
        None => {
            assert forall|j: int| !(#[trigger] occurs_at(s.skip(from + 1), pat, j)) by {
                if 0 <= j {
                    lemma_occurs_shift(s, pat, from + 1, j);
                    lemma_occurs_shift(s, pat, from, j + 1);
                    assert(!occurs_at(s.skip(from), pat, j + 1));
                }
            }
            lemma_find_sub(s.skip(from + 1), pat);
            match find_sub(s.skip(from + 1), pat) {
                Some(q) => {
                    assert(occurs_at(s.skip(from + 1), pat, q));
                    assert(false);
                },
                None => {},
            }
        },
        Some(p) => {
            assert(occurs_at(s.skip(from), pat, p));
            lemma_occurs_shift(s, pat, from, p);
            assert(occurs_at(s, pat, from + p));
            assert(p != 0);
            lemma_occurs_shift(s, pat, from + 1, p - 1);
            assert(occurs_at(s.skip(from + 1), pat, p - 1));
            assert forall|j: int| 0 <= j < p - 1 implies !(#[trigger] occurs_at(
                s.skip(from + 1),
                pat,
                j,
            )) by {
                lemma_occurs_shift(s, pat, from + 1, j);
                lemma_occurs_shift(s, pat, from, j + 1);
                assert(!occurs_at(s.skip(from), pat, j + 1));
            }
            lemma_find_sub_at(s.skip(from + 1), pat, p - 1);
            assert(p + pat.len() <= s.skip(from).len());
            assert(from + p < s.len());
            assert(find_from(s, pat, from) == seq![from + p] + find_from(s, pat, from + p + 1));
            assert(from + 1 + (p - 1) < s.len());
            assert(find_from(s, pat, from + 1) == seq![from + 1 + (p - 1)] + find_from(
                s,
                pat,
                from + 1 + (p - 1) + 1,
            ));
            assert(seq![from + p] + find_from(s, pat, from + p + 1) =~= seq![from + 1 + (p - 1)]
                + find_from(s, pat, from + 1 + (p - 1) + 1));
        },
    }
}

/// Stepping past a whole occurrence-free interval.
proof fn lemma_find_from_advance(s: Seq<char>, pat: Seq<char>, from: int, to: int)
    requires
        pat.len() >= 1,
        0 <= from <= to <= s.len(),
        forall|j: int| from <= j < to ==> !(#[trigger] occurs_at(s, pat, j)),
    ensures
        find_from(s, pat, from) == find_from(s, pat, to),
    decreases to - from,
{
    if from < to {
        lemma_find_from_step(s, pat, from);
        lemma_find_from_advance(s, pat, from + 1, to);
    }
}

/// With no occurrence at or after `from`, nothing is found.
proof fn lemma_find_from_none(s: Seq<char>, pat: Seq<char>, from: int)
    requires
        pat.len() >= 1,
        0 <= from <= s.len(),
        forall|j: int| from <= j ==> !(#[trigger] occurs_at(s, pat, j)),
    ensures
        find_from(s, pat, from) == Seq::<int>::empty(),
{
    lemma_find_sub(s.skip(from), pat);
    match find_sub(s.skip(from), pat) {
        Some(p) => {
            assert(occurs_at(s.skip(from), pat, p));
            lemma_occurs_shift(s, pat, from, p);
            assert(!occurs_at(s, pat, from + p));
            assert(false);
        },
        None => {},
    }
}

/// At a known occurrence, the found positions start there.
proof fn lemma_find_from_here(s: Seq<char>, pat: Seq<char>, from: int)
    requires
        pat.len() >= 1,
        0 <= from < s.len(),
        occurs_at(s, pat, from),
    ensures
        find_from(s, pat, from) == seq![from] + find_from(s, pat, from + 1),
{
    lemma_occurs_shift(s, pat, from, 0);
    assert(occurs_at(s.skip(from), pat, 0));
    lemma_find_sub_at(s.skip(from), pat, 0);
    assert(find_from(s, pat, from) == seq![from + 0] + find_from(s, pat, from + 0 + 1));
    assert(seq![from + 0] =~= seq![from]);
}

} // verus!

verus! {

proof fn lemma_lit_diff_git()
    ensures
        free_of("diff --git a/"@, '\n'),
        free_of("diff --git a/"@, '\r'),
{
    reveal_strlit("diff --git a/");
    assert forall|i: int| 0 <= i < "diff --git a/"@.len() implies "diff --git a/"@[i] != '\n'
        && "diff --git a/"@[i] != '\r' by {
        if i == 0 {
            assert("diff --git a/"@[0] == 'd');
        } else if i == 1 {
            assert("diff --git a/"@[1] == 'i');
        } else if i == 2 {
            assert("diff --git a/"@[2] == 'f');
        } else if i == 3 {
            assert("diff --git a/"@[3] == 'f');
        } else if i == 4 {
            assert("diff --git a/"@[4] == ' ');
        } else if i == 5 {
            assert("diff --git a/"@[5] == '-');
        } else if i == 6 {
            assert("diff --git a/"@[6] == '-');
        } else if i == 7 {
            assert("diff --git a/"@[7] == 'g');
        } else if i == 8 {
            assert("diff --git a/"@[8] == 'i');
        } else if i == 9 {
            assert("diff --git a/"@[9] == 't');
        } else if i == 10 {
            assert("diff --git a/"@[10] == ' ');
        } else if i == 11 {
            assert("diff --git a/"@[11] == 'a');
        } else if i == 12 {
            assert("diff --git a/"@[12] == '/');
        }
    }
}

proof fn lemma_lit_b_slash()
    ensures
        free_of(" b/"@, '\n'),
        free_of(" b/"@, '\r'),
{
    reveal_strlit(" b/");
    assert forall|i: int| 0 <= i < " b/"@.len() implies " b/"@[i] != '\n'
        && " b/"@[i] != '\r' by {
        if i == 0 {
            assert(" b/"@[0] == ' ');
        } else if i == 1 {
            assert(" b/"@[1] == 'b');
        } else if i == 2 {
            assert(" b/"@[2] == '/');
        }
    }
}

proof fn lemma_lit_minus_header()
    ensures
        free_of("--- a/"@, '\n'),
        free_of("--- a/"@, '\r'),
{
    reveal_strlit("--- a/");
    assert forall|i: int| 0 <= i < "--- a/"@.len() implies "--- a/"@[i] != '\n'
        && "--- a/"@[i] != '\r' by {
        if i == 0 {
            assert("--- a/"@[0] == '-');
        } else if i == 1 {
            assert("--- a/"@[1] == '-');
        } else if i == 2 {
            assert("--- a/"@[2] == '-');
        } else if i == 3 {
            assert("--- a/"@[3] == ' ');
        } else if i == 4 {
            assert("--- a/"@[4] == 'a');
        } else if i == 5 {
            assert("--- a/"@[5] == '/');
        }
    }
}

proof fn lemma_lit_plus_header()
    ensures
        free_of("+++ b/"@, '\n'),
        free_of("+++ b/"@, '\r'),
{
    reveal_strlit("+++ b/");
    assert forall|i: int| 0 <= i < "+++ b/"@.len() implies "+++ b/"@[i] != '\n'
        && "+++ b/"@[i] != '\r' by {
        if i == 0 {
            assert("+++ b/"@[0] == '+');
        } else if i == 1 {
            assert("+++ b/"@[1] == '+');
        } else if i == 2 {
            assert("+++ b/"@[2] == '+');
        } else if i == 3 {
            assert("+++ b/"@[3] == ' ');
        } else if i == 4 {
            assert("+++ b/"@[4] == 'b');
        } else if i == 5 {
            assert("+++ b/"@[5] == '/');
        }
    }
}

proof fn lemma_lit_at_dash()
    ensures
        free_of("@@ -"@, '\n'),
        free_of("@@ -"@, '\r'),
{
    reveal_strlit("@@ -");
    assert forall|i: int| 0 <= i < "@@ -"@.len() implies "@@ -"@[i] != '\n'
        && "@@ -"@[i] != '\r' by {
        if i == 0 {
            assert("@@ -"@[0] == '@');
        } else if i == 1 {
            assert("@@ -"@[1] == '@');
        } else if i == 2 {
            assert("@@ -"@[2] == ' ');
        } else if i == 3 {
            assert("@@ -"@[3] == '-');
        }
    }
}

proof fn lemma_lit_space_plus()
    ensures
        free_of(" +"@, '\n'),
        free_of(" +"@, '\r'),
{
    reveal_strlit(" +");
    assert forall|i: int| 0 <= i < " +"@.len() implies " +"@[i] != '\n'
        && " +"@[i] != '\r' by {
        if i == 0 {
            assert(" +"@[0] == ' ');
        } else if i == 1 {
            assert(" +"@[1] == '+');
        }
    }
}

proof fn lemma_lit_space_at_at()
    ensures
        free_of(" @@"@, '\n'),
        free_of(" @@"@, '\r'),
{
    reveal_strlit(" @@");
    assert forall|i: int| 0 <= i < " @@"@.len() implies " @@"@[i] != '\n'
        && " @@"@[i] != '\r' by {
        if i == 0 {
            assert(" @@"@[0] == ' ');
        } else if i == 1 {
            assert(" @@"@[1] == '@');
        } else if i == 2 {
            assert(" @@"@[2] == '@');
        }
    }
}

proof fn lemma_lit_marker()
    ensures
        free_of("\\ No newline at end of file"@, '\n'),
        free_of("\\ No newline at end of file"@, '\r'),
{
    reveal_strlit("\\ No newline at end of file");
    assert forall|i: int| 0 <= i < "\\ No newline at end of file"@.len() implies "\\ No newline at end of file"@[i] != '\n'
        && "\\ No newline at end of file"@[i] != '\r' by {
        if i == 0 {
            assert("\\ No newline at end of file"@[0] == '\\');
        } else if i == 1 {
            assert("\\ No newline at end of file"@[1] == ' ');
        } else if i == 2 {
            assert("\\ No newline at end of file"@[2] == 'N');
        } else if i == 3 {
            assert("\\ No newline at end of file"@[3] == 'o');
        } else if i == 4 {
            assert("\\ No newline at end of file"@[4] == ' ');
        } else if i == 5 {
            assert("\\ No newline at end of file"@[5] == 'n');
        } else if i == 6 {
            assert("\\ No newline at end of file"@[6] == 'e');
        } else if i == 7 {
            assert("\\ No newline at end of file"@[7] == 'w');
        } else if i == 8 {
            assert("\\ No newline at end of file"@[8] == 'l');
        } else if i == 9 {
            assert("\\ No newline at end of file"@[9] == 'i');
        } else if i == 10 {
            assert("\\ No newline at end of file"@[10] == 'n');
        } else if i == 11 {
            assert("\\ No newline at end of file"@[11] == 'e');
        } else if i == 12 {
            assert("\\ No newline at end of file"@[12] == ' ');
        } else if i == 13 {
            assert("\\ No newline at end of file"@[13] == 'a');
        } else if i == 14 {
            assert("\\ No newline at end of file"@[14] == 't');
        } else if i == 15 {
            assert("\\ No newline at end of file"@[15] == ' ');
        } else if i == 16 {
            assert("\\ No newline at end of file"@[16] == 'e');
        } else if i == 17 {
            assert("\\ No newline at end of file"@[17] == 'n');
        } else if i == 18 {
            assert("\\ No newline at end of file"@[18] == 'd');
        } else if i == 19 {
            assert("\\ No newline at end of file"@[19] == ' ');
        } else if i == 20 {
            assert("\\ No newline at end of file"@[20] == 'o');
        } else if i == 21 {
            assert("\\ No newline at end of file"@[21] == 'f');
        } else if i == 22 {
            assert("\\ No newline at end of file"@[22] == ' ');
        } else if i == 23 {
            assert("\\ No newline at end of file"@[23] == 'f');
        } else if i == 24 {
            assert("\\ No newline at end of file"@[24] == 'i');
        } else if i == 25 {
            assert("\\ No newline at end of file"@[25] == 'l');
        } else if i == 26 {
            assert("\\ No newline at end of file"@[26] == 'e');
        }
    }
}

} // verus!

verus! {

/// A rendered range holds neither a given non-digit, non-comma character.
proof fn lemma_range_free(m: MlV, c: char)
    requires
        !is_digit(c),
        c != ',',
    ensures
        free_of(spec_render_range(m), c),
{
    lemma_free_of_dec(m.start as nat, c);
    lemma_free_of_dec(m.lines.len() as nat, c);
    if m.lines.len() == 0 {
        assert(free_of(seq![',', '0'], c)) by {
            assert(seq![',', '0'][0] == ',');
            assert(seq![',', '0'][1] == '0');
        }
        lemma_free_of_concat(dec_str(m.start as nat), seq![',', '0'], c);
    } else if m.lines.len() == 1 {
    } else {
        assert(free_of(seq![','], c)) by {
            assert(seq![','][0] == ',');
        }
        lemma_free_of_concat(dec_str(m.start as nat), seq![','], c);
        lemma_free_of_concat(
            dec_str(m.start as nat) + seq![','],
            dec_str(m.lines.len() as nat),
            c,
        );
        assert(spec_render_range(m) =~= (dec_str(m.start as nat) + seq![',']) + dec_str(
            m.lines.len() as nat,
        ));
    }
}

/// No interior newline is followed by an `@`.
pub open spec fn nl_ok(r: Seq<char>) -> bool {
    forall|i: int| 0 <= i < r.len() - 1 && #[trigger] r[i] == '\n' ==> r[i + 1] != '@'
}

/// A segment that can safely follow a newline: it never puts an `@` after
/// a newline, does not begin with `@`, and ends with a newline.
pub open spec fn good_seg(r: Seq<char>) -> bool {
    nl_ok(r) && (r.len() > 0 ==> (r[0] != '@' && r.last() == '\n'))
}

proof fn lemma_good_concat(a: Seq<char>, b: Seq<char>)
    requires
        good_seg(a),
        good_seg(b),
    ensures
        good_seg(a + b),
{
    let r = a + b;
    assert forall|i: int| 0 <= i < r.len() - 1 && #[trigger] r[i] == '\n' implies r[i + 1]
        != '@' by {
        if i < a.len() - 1 {
            assert(r[i] == a[i]);
            assert(r[i + 1] == a[i + 1]);
        } else if i == a.len() - 1 {
            assert(b.len() > 0);
            assert(r[i + 1] == b[0]);
        } else {
            assert(r[i] == b[i - a.len()]);
            assert(r[i + 1] == b[i + 1 - a.len()]);
        }
    }
    if r.len() > 0 {
        if a.len() > 0 {
            assert(r[0] == a[0]);
        } else {
            assert(r[0] == b[0]);
        }
        if b.len() > 0 {
            assert(r.last() == b.last());
        } else {
            assert(r.last() == a.last());
        }
    }
}

/// Rendered sign lines form a safe segment.
proof fn lemma_lines_good(sign: char, ls: Seq<Seq<char>>)
    requires
        sign != '@' && sign != '\n',
        forall|i: int| 0 <= i < ls.len() ==> line_ok(#[trigger] ls[i]),
    ensures
        good_seg(spec_render_lines(sign, ls)),
    decreases ls.len(),
{
    if ls.len() == 0 {
    } else {
        let l0 = ls.first();
        let piece = seq![sign] + l0 + seq!['\n'];
        assert(line_ok(l0));
        assert(good_seg(piece)) by {
            assert(piece[0] == sign);
            assert(piece.last() == '\n');
            assert forall|i: int| 0 <= i < piece.len() - 1 && #[trigger] piece[i]
                == '\n' implies piece[i + 1] != '@' by {
                if i == 0 {
                } else {
                    assert(piece[i] == l0[i - 1]);
                }
            }
        }
        assert forall|i: int| 0 <= i < ls.drop_first().len() implies line_ok(
            #[trigger] ls.drop_first()[i],
        ) by {
            assert(ls.drop_first()[i] == ls[i + 1]);
        }
        lemma_lines_good(sign, ls.drop_first());
        lemma_good_concat(piece, spec_render_lines(sign, ls.drop_first()));
        assert(spec_render_lines(sign, ls) =~= piece + spec_render_lines(
            sign,
            ls.drop_first(),
        ));
    }
}

/// The marker line forms a safe segment.
proof fn lemma_marker_good()
    ensures
        good_seg(marker_tag() + seq!['\n']),
{
    reveal_strlit("\\ No newline at end of file");
    lemma_lit_marker();
    let r = marker_tag() + seq!['\n'];
    assert(r[0] == '\\');
    assert(r.last() == '\n');
    assert forall|i: int| 0 <= i < r.len() - 1 && #[trigger] r[i] == '\n' implies r[i + 1]
        != '@' by {
        assert(r[i] == marker_tag()[i]);
    }
}

/// One rendered side forms a safe segment.
proof fn lemma_side_good(sign: char, m: MlV)
    requires
        sign != '@' && sign != '\n',
        side_ok(m),
    ensures
        good_seg(spec_render_side(sign, m)),
{
    lemma_lines_good(sign, m.lines);
    if m.missing_final_newline {
        lemma_marker_good();
        lemma_good_concat(spec_render_lines(sign, m.lines), marker_tag() + seq!['\n']);
    } else {
        assert(spec_render_side(sign, m) =~= spec_render_lines(sign, m.lines));
    }
}

/// The shape of a rendered hunk: it begins `@@ `, ends with a newline, is
/// long enough, and never puts an `@` after an interior newline.
proof fn lemma_hunk_shape(h: HunkV)
    requires
        hunk_ok(h),
    ensures
        ({
            let r = spec_render_hunk(h);
            &&& r.len() >= 12
            &&& r[0] == '@' && r[1] == '@' && r[2] == ' '
            &&& r.last() == '\n'
            &&& nl_ok(r)
        }),
{
    reveal_strlit("@@ -");
    reveal_strlit(" +");
    reveal_strlit(" @@\n");
    reveal_strlit(" @@");
    lemma_lit_at_dash();
    lemma_lit_space_plus();
    lemma_lit_space_at_at();
    let ro = spec_render_range(h.old);
    let rn = spec_render_range(h.new);
    let hdr = spec_render_header(h);
    let front = "@@ -"@ + ro + " +"@ + rn + " @@"@;
    assert(" @@\n"@ =~= " @@"@ + seq!['\n']);
    assert(hdr =~= front + seq!['\n']);
    lemma_range_free(h.old, '\n');
    lemma_range_free(h.new, '\n');
    assert(free_of(front, '\n')) by {
        lemma_free_of_concat("@@ -"@, ro, '\n');
        lemma_free_of_concat("@@ -"@ + ro, " +"@, '\n');
        lemma_free_of_concat(("@@ -"@ + ro) + " +"@, rn, '\n');
        lemma_free_of_concat((("@@ -"@ + ro) + " +"@) + rn, " @@"@, '\n');
        assert(front =~= ((("@@ -"@ + ro) + " +"@) + rn) + " @@"@);
    }
    lemma_dec_str_digits(h.old.start as nat);
    assert(ro.len() >= 1 && rn.len() >= 1) by {
        lemma_dec_str_digits(h.new.start as nat);
        if h.old.lines.len() == 0 {
            assert(ro.len() == dec_str(h.old.start as nat).len() + 2);
        }
        if h.new.lines.len() == 0 {
            assert(rn.len() == dec_str(h.new.start as nat).len() + 2);
        }
    }
    assert(hdr.len() >= 12);
    assert(hdr[0] == '@' && hdr[1] == '@' && hdr[2] == ' ') by {
        assert(hdr[0] == "@@ -"@[0]);
        assert(hdr[1] == "@@ -"@[1]);
        assert(hdr[2] == "@@ -"@[2]);
    }
    assert(hdr.last() == '\n');
    assert(nl_ok(hdr)) by {
        assert forall|i: int| 0 <= i < hdr.len() - 1 && #[trigger] hdr[i] == '\n' implies hdr[i
            + 1] != '@' by {
            assert(hdr[i] == front[i]);
        }
    }
    lemma_side_good('-', h.old);
    lemma_side_good('+', h.new);
    lemma_good_concat(spec_render_side('-', h.old), spec_render_side('+', h.new));
    let tail = spec_render_side('-', h.old) + spec_render_side('+', h.new);
    let r = spec_render_hunk(h);
    assert(r =~= hdr + tail);
    assert(r[0] == hdr[0] && r[1] == hdr[1] && r[2] == hdr[2]);
    if tail.len() > 0 {
        assert(r.last() == tail.last());
    } else {
        assert(r.last() == hdr.last());
    }
    assert forall|i: int| 0 <= i < r.len() - 1 && #[trigger] r[i] == '\n' implies r[i + 1]
        != '@' by {
        if i < hdr.len() - 1 {
            assert(r[i] == hdr[i]);
            assert(r[i + 1] == hdr[i + 1]);
        } else if i == hdr.len() - 1 {
            assert(tail.len() > 0);
            assert(r[i + 1] == tail[0]);
        } else {
            assert(r[i] == tail[i - hdr.len()]);
            assert(r[i + 1] == tail[i + 1 - hdr.len()]);
        }
    }
}

} // verus!

verus! {

/// The newline positions that precede each hunk, when the first hunk's
/// preceding newline sits at `b`.
pub open spec fn marks(b: int, hs: Seq<HunkV>) -> Seq<int>
    decreases hs.len(),
{
    if hs.len() == 0 {
        Seq::empty()
    } else {
        seq![b] + marks(b + spec_render_hunk(hs.first()).len(), hs.drop_first())
    }
}

/// Searching from the newline before the first hunk finds exactly the
/// newline before each hunk.
proof fn lemma_marks_find(s: Seq<char>, b: int, hs: Seq<HunkV>)
    requires
        0 <= b < s.len(),
        s[b] == '\n',
        s.skip(b + 1) == spec_render_hunks(hs),
        forall|k: int| 0 <= k < hs.len() ==> hunk_ok(#[trigger] hs[k]),
    ensures
        find_from(s, "\n@@ "@, b) == marks(b, hs),
    decreases hs.len(),
{
    reveal_strlit("\n@@ ");
    let pat = "\n@@ "@;
    assert(pat.len() == 4 && pat[0] == '\n' && pat[1] == '@' && pat[2] == '@' && pat[3] == ' ');
    if hs.len() == 0 {
        assert(s.skip(b + 1).len() == 0);
        assert(b == s.len() - 1);
        assert forall|j: int| b <= j implies !(#[trigger] occurs_at(s, pat, j)) by {
            if occurs_at(s, pat, j) {
                assert(j + 4 <= s.len());
            }
        }
        lemma_find_from_none(s, pat, b);
    } else {
        let h0 = hs.first();
        assert(hunk_ok(h0));
        lemma_hunk_shape(h0);
        let rh = spec_render_hunk(h0);
        let rest = spec_render_hunks(hs.drop_first());
        assert(s.skip(b + 1) == rh + rest);
        let b2 = b + rh.len();
        assert(s.len() == b + 1 + rh.len() + rest.len()) by {
            assert(s.skip(b + 1).len() == s.len() - b - 1);
        }
        assert forall|i: int| 0 <= i < rh.len() implies #[trigger] s[b + 1 + i] == rh[i] by {
            assert(s.skip(b + 1)[i] == s[b + 1 + i]);
            assert((rh + rest)[i] == rh[i]);
        }
        assert(occurs_at(s, pat, b)) by {
            assert(s.skip(b + 1)[0] == s[b + 1]);
            assert(s.skip(b + 1)[1] == s[b + 2]);
            assert(s.skip(b + 1)[2] == s[b + 3]);
            assert((rh + rest)[0] == rh[0]);
            assert((rh + rest)[1] == rh[1]);
            assert((rh + rest)[2] == rh[2]);
            assert(s.subrange(b, b + 4) =~= pat);
        }
        lemma_find_from_here(s, pat, b);
        assert forall|j: int| b + 1 <= j < b2 implies !(#[trigger] occurs_at(s, pat, j)) by {
            if occurs_at(s, pat, j) {
                assert(s.subrange(j, j + 4)[0] == s[j]);
                assert(s.subrange(j, j + 4)[1] == s[j + 1]);
                assert(s[j] == '\n' && s[j + 1] == '@');
                let i = j - b - 1;
                assert(s[b + 1 + i] == rh[i]);
                assert(rh[i] == '\n');
                assert(i < rh.len() - 1);
                assert(s[b + 1 + (i + 1)] == rh[i + 1]);
                assert(rh[i + 1] != '@');
            }
        }
        lemma_find_from_advance(s, pat, b + 1, b2);
        assert(s[b2] == rh[rh.len() - 1]) by {
            assert(s[b + 1 + (rh.len() - 1)] == rh[rh.len() - 1]);
        }
        assert(s[b2] == '\n');
        assert(s.skip(b2 + 1) =~= s.skip(b + 1).skip(rh.len() as int));
        assert((rh + rest).skip(rh.len() as int) =~= rest);
        assert(s.skip(b2 + 1) =~= rest);
        assert forall|k: int| 0 <= k < hs.drop_first().len() implies hunk_ok(
            #[trigger] hs.drop_first()[k],
        ) by {
            assert(hs.drop_first()[k] == hs[k + 1]);
        }
        lemma_marks_find(s, b2, hs.drop_first());
        assert(find_from(s, pat, b) == seq![b] + find_from(s, pat, b + 1));
        assert(find_from(s, pat, b + 1) == find_from(s, pat, b2));
        assert(find_from(s, pat, b2) == marks(b2, hs.drop_first()));
        assert(marks(b, hs) == seq![b] + marks(b2, hs.drop_first()));
    }
}

/// Parsing the sections delimited by the marks yields the hunks back.
proof fn lemma_sections_roundtrip(s: Seq<char>, occ: Seq<int>, k: int, b: int, hs: Seq<HunkV>)
    requires
        0 <= k <= occ.len(),
        occ.skip(k) == marks(b, hs),
        occ.len() - k == hs.len(),
        0 <= b < s.len(),
        s.skip(b + 1) == spec_render_hunks(hs),
        forall|j: int| 0 <= j < hs.len() ==> hunk_ok(#[trigger] hs[j]),
    ensures
        sp_parse_sections(s, occ, k) == Some(hs),
    decreases hs.len(),
{
    if hs.len() == 0 {
        assert(sp_parse_sections(s, occ, k) == Some(Seq::<HunkV>::empty()));
        assert(hs =~= Seq::<HunkV>::empty());
    } else {
        let h0 = hs.first();
        assert(hunk_ok(h0));
        lemma_hunk_shape(h0);
        let rh = spec_render_hunk(h0);
        let rest = spec_render_hunks(hs.drop_first());
        assert(s.skip(b + 1) == rh + rest);
        assert(s.len() == b + 1 + rh.len() + rest.len()) by {
            assert(s.skip(b + 1).len() == s.len() - b - 1);
        }
        let b2 = b + rh.len();
        assert(occ[k] == b) by {
            assert(occ.skip(k)[0] == occ[k]);
            assert(marks(b, hs)[0] == b);
        }
        let en: int = if k + 1 < occ.len() {
            occ[k + 1]
        } else {
            s.len() as int
        };
        if k + 1 < occ.len() {
            assert(hs.drop_first().len() > 0);
            assert(occ[k + 1] == b2) by {
                assert(occ.skip(k)[1] == occ[k + 1]);
                assert(marks(b, hs)[1] == marks(b2, hs.drop_first())[0]);
                assert(marks(b2, hs.drop_first())[0] == b2);
            }
        } else {
            assert(hs.drop_first().len() == 0);
            assert(rest.len() == 0);
            assert(s.len() == b2 + 1);
        }
        let st = b + 1;
        let en2: int = if k + 1 < occ.len() {
            b2 + 1
        } else {
            s.len() as int
        };
        assert(en2 == b2 + 1);
        let sec = s.subrange(st, en2);
        assert(sec =~= rh) by {
            assert forall|i: int| 0 <= i < rh.len() implies #[trigger] sec[i] == rh[i] by {
                assert(sec[i] == s[b + 1 + i]);
                assert(s.skip(b + 1)[i] == s[b + 1 + i]);
                assert((rh + rest)[i] == rh[i]);
            }
        }
        lemma_hunk_roundtrip(h0);
        assert(spec_parse_hunk(sec) == Some(h0));
        assert(s.skip(b2 + 1) =~= s.skip(b + 1).skip(rh.len() as int));
        assert((rh + rest).skip(rh.len() as int) =~= rest);
        assert(occ.skip(k + 1) =~= marks(b2, hs.drop_first())) by {
            assert(occ.skip(k).drop_first() =~= occ.skip(k + 1));
            assert(marks(b, hs).drop_first() =~= marks(b2, hs.drop_first()));
        }
        assert(b2 < s.len());
        assert(s.skip(b2 + 1) =~= rest);
        assert forall|j: int| 0 <= j < hs.drop_first().len() implies hunk_ok(
            #[trigger] hs.drop_first()[j],
        ) by {
            assert(hs.drop_first()[j] == hs[j + 1]);
        }
        lemma_sections_roundtrip(s, occ, k + 1, b2, hs.drop_first());
        assert(sp_parse_sections(s, occ, k) == Some(seq![h0] + hs.drop_first()));
        assert(seq![h0] + hs.drop_first() =~= hs);
    }
}

/// Splitting off one breakless line.
proof fn lemma_lines_split(a: Seq<char>, rest: Seq<char>)
    requires
        free_of(a, '\n'),
        free_of(a, '\r'),
    ensures
        lines_of(a + (seq!['\n'] + rest)) == seq![a] + lines_of(rest),
{
    let t = a + (seq!['\n'] + rest);
    assert(occurs_at(t, seq!['\n'], a.len() as int)) by {
        assert(t[a.len() as int] == '\n');
        assert(t.subrange(a.len() as int, a.len() as int + 1) =~= seq!['\n']);
    }
    assert forall|j: int| 0 <= j < a.len() implies !(#[trigger] occurs_at(
        t,
        seq!['\n'],
        j,
    )) by {
        if occurs_at(t, seq!['\n'], j) {
            assert(t.subrange(j, j + 1)[0] == t[j]);
            assert(t[j] == '\n');
            assert(t[j] == a[j]);
        }
    }
    lemma_find_sub_at(t, seq!['\n'], a.len() as int);
    assert(t.take(a.len() as int) =~= a);
    assert(strip_cr_end(a) == a) by {
        if a.len() > 0 {
            assert(a.last() != '\r');
        }
    }
    assert(t.skip(a.len() as int + 1) =~= rest);
    assert(t.len() > 0);
    assert(lines_of(t) == seq![strip_cr_end(t.take(a.len() as int))] + lines_of(
        t.skip(a.len() as int + 1),
    ));
}

/// A file whose rendering parses back: a usable path, at least one hunk,
/// every hunk well formed.
pub open spec fn file_ok(f: FileDiffV) -> bool {
    &&& f.path.len() > 0
    &&& free_of(f.path, '\n')
    &&& free_of(f.path, '\r')
    &&& f.hunks.len() >= 1
    &&& forall|k: int| 0 <= k < f.hunks.len() ==> hunk_ok(#[trigger] f.hunks[k])
}

/// Round trip: parsing the rendering of a well-formed file diff yields
/// the file diff itself.
#[verifier::rlimit(100)]
pub proof fn lemma_file_roundtrip(f: FileDiffV)
    requires
        file_ok(f),
    ensures
        spec_parse_file(spec_render_file(f)) == Some(f),
{
    reveal_strlit("diff --git a/");
    reveal_strlit(" b/");
    reveal_strlit("--- a/");
    reveal_strlit("+++ b/");
    reveal_strlit("\n--- a/");
    reveal_strlit("\n+++ b/");
    reveal_strlit("\n");
    reveal_strlit("\n@@ ");
    lemma_lit_diff_git();
    lemma_lit_b_slash();
    lemma_lit_minus_header();
    lemma_lit_plus_header();
    let p = f.path;
    let l1 = "diff --git a/"@ + p + " b/"@ + p;
    let l2 = "--- a/"@ + p;
    let l3 = "+++ b/"@ + p;
    let rh = spec_render_hunks(f.hunks);
    let s = spec_render_file(f);
    assert("\n--- a/"@ =~= seq!['\n'] + "--- a/"@);
    assert("\n+++ b/"@ =~= seq!['\n'] + "+++ b/"@);
    assert("\n"@ =~= seq!['\n']);
    assert(s =~= l1 + (seq!['\n'] + (l2 + (seq!['\n'] + (l3 + (seq!['\n'] + rh))))));
    // The path header lines are breakless.
    assert(free_of(l1, '\n') && free_of(l1, '\r')) by {
        lemma_free_of_concat("diff --git a/"@, p, '\n');
        lemma_free_of_concat("diff --git a/"@ + p, " b/"@, '\n');
        lemma_free_of_concat(("diff --git a/"@ + p) + " b/"@, p, '\n');
        lemma_free_of_concat("diff --git a/"@, p, '\r');
        lemma_free_of_concat("diff --git a/"@ + p, " b/"@, '\r');
        lemma_free_of_concat(("diff --git a/"@ + p) + " b/"@, p, '\r');
        assert(l1 =~= (("diff --git a/"@ + p) + " b/"@) + p);
    }
    assert(free_of(l2, '\n') && free_of(l2, '\r')) by {
        lemma_free_of_concat("--- a/"@, p, '\n');
        lemma_free_of_concat("--- a/"@, p, '\r');
    }
    assert(free_of(l3, '\n') && free_of(l3, '\r')) by {
        lemma_free_of_concat("+++ b/"@, p, '\n');
        lemma_free_of_concat("+++ b/"@, p, '\r');
    }
    // The lines of the rendering: the three header lines, then whatever
    // the hunks hold.
    lemma_lines_split(l1, l2 + (seq!['\n'] + (l3 + (seq!['\n'] + rh))));
    lemma_lines_split(l2, l3 + (seq!['\n'] + rh));
    lemma_lines_split(l3, rh);
    let ls = lines_of(s);
    assert(ls == seq![l1] + (seq![l2] + (seq![l3] + lines_of(rh)))) by {
        assert(l1 + (seq!['\n'] + (l2 + (seq!['\n'] + (l3 + (seq!['\n'] + rh))))) =~= s);
        assert(l2 + (seq!['\n'] + (l3 + (seq!['\n'] + rh))) == l2 + (seq!['\n'] + (l3 + (
        seq!['\n'] + rh))));
    }
    // The first line with the `+++ b/` prefix is the third, and it names
    // the path.
    assert(sp_tag(l1, "+++ b/"@) is None) by {
        if sp_tag(l1, "+++ b/"@) is Some {
            assert(l1.take(6)[0] == l1[0]);
            assert(l1[0] == "diff --git a/"@[0]);
        }
    }
    assert(sp_tag(l2, "+++ b/"@) is None) by {
        if sp_tag(l2, "+++ b/"@) is Some {
            assert(l2.take(6)[0] == l2[0]);
            assert(l2[0] == "--- a/"@[0]);
        }
    }
    assert(l3 =~= "+++ b/"@ + p);
    lemma_tag_concat("+++ b/"@, p);
    assert(sp_find_path(ls) == Some(p)) by {
        assert(ls.first() == l1);
        assert(ls.drop_first() =~= seq![l2] + (seq![l3] + lines_of(rh)));
        let ls2 = seq![l2] + (seq![l3] + lines_of(rh));
        assert(ls.len() > 0);
        assert(sp_find_path(ls) == sp_find_path(ls2));
        assert(ls2.first() == l2);
        assert(ls2.drop_first() =~= seq![l3] + lines_of(rh));
        let ls3 = seq![l3] + lines_of(rh);
        assert(sp_find_path(ls2) == sp_find_path(ls3));
        assert(ls3.first() == l3);
        assert(sp_tag(l3, "+++ b/"@) == Some(p));
        assert(p.len() > 0);
        assert(sp_find_path(ls3) == Some(p));
    }
    // The hunk marks.
    let b0: int = l1.len() as int + 1 + l2.len() + 1 + l3.len();
    assert(s[b0] == '\n') by {
        let front = l1 + (seq!['\n'] + (l2 + seq!['\n'])) + l3;
        assert(s =~= front + (seq!['\n'] + rh));
        assert(front.len() == b0);
        assert(s[b0] == (seq!['\n'] + rh)[0]);
    }
    assert(s.skip(b0 + 1) =~= rh);
    assert(b0 < s.len());
    lemma_marks_find(s, b0, f.hunks);
    let pat = "\n@@ "@;
    assert(pat.len() == 4 && pat[0] == '\n' && pat[1] == '@');
    // No mark before the hunks: the only newlines in the header block are
    // followed by '-' or '+'.
    let p1: int = l1.len() as int;
    let p2: int = l1.len() as int + 1 + l2.len();
    assert forall|j: int| 0 <= j < b0 implies !(#[trigger] occurs_at(s, pat, j)) by {
        if occurs_at(s, pat, j) {
            assert(s.subrange(j, j + 4)[0] == s[j]);
            assert(s.subrange(j, j + 4)[1] == s[j + 1]);
            assert(s[j] == '\n' && s[j + 1] == '@');
            let t1 = l1 + seq!['\n'];
            let t2 = t1 + l2 + seq!['\n'];
            assert(s =~= t2 + l3 + (seq!['\n'] + rh));
            if j < t1.len() {
                if j < l1.len() {
                    assert(s[j] == l1[j]);
                } else {
                    assert(j == p1);
                    assert(s[j + 1] == l2[0]);
                    assert(l2[0] == "--- a/"@[0]);
                }
            } else if j < t2.len() {
                if j < t1.len() + l2.len() {
                    assert(s[j] == l2[j - t1.len()]);
                } else {
                    assert(j == p2);
                    assert(s[j + 1] == l3[0]);
                    assert(l3[0] == "+++ b/"@[0]);
                }
            } else {
                assert(s[j] == l3[j - t2.len()]);
            }
        }
    }
    lemma_find_from_advance(s, pat, 0, b0);
    let occ = find_from(s, pat, 0);
    assert(occ == marks(b0, f.hunks));
    assert(occ.len() == f.hunks.len()) by {
        lemma_marks_len(b0, f.hunks);
    }
    assert(occ.len() > 0);
    assert(occ.skip(0) =~= occ);
    lemma_sections_roundtrip(s, occ, 0, b0, f.hunks);
    assert(spec_parse_file(s) == Some(FileDiffV { path: p, hunks: f.hunks }));
    assert(FileDiffV { path: p, hunks: f.hunks } == f);
}

/// There is one mark per hunk.
proof fn lemma_marks_len(b: int, hs: Seq<HunkV>)
    ensures
        marks(b, hs).len() == hs.len(),
    decreases hs.len(),
{
    if hs.len() > 0 {
        lemma_marks_len(b + spec_render_hunk(hs.first()).len(), hs.drop_first());
    }
}

} // verus!

verus! {

use crate::full::DiffV;
use crate::full::spec_render_files;
use crate::full::spec_render_diff;
use crate::full::spec_parse_diff;
use crate::full::sp_parse_files;

proof fn lemma_lit_diff_git_marker()
    ensures
        free_of("diff --git "@, '\n'),
        "diff --git "@.len() == 11,
{
    reveal_strlit("diff --git ");
    assert forall|i: int| 0 <= i < "diff --git "@.len() implies "diff --git "@[i] != '\n' by {
        if i == 0 {
            assert("diff --git "@[0] == 'd');
        } else if i == 1 {
            assert("diff --git "@[1] == 'i');
        } else if i == 2 {
            assert("diff --git "@[2] == 'f');
        } else if i == 3 {
            assert("diff --git "@[3] == 'f');
        } else if i == 4 {
            assert("diff --git "@[4] == ' ');
        } else if i == 5 {
            assert("diff --git "@[5] == '-');
        } else if i == 6 {
            assert("diff --git "@[6] == '-');
        } else if i == 7 {
            assert("diff --git "@[7] == 'g');
        } else if i == 8 {
            assert("diff --git "@[8] == 'i');
        } else if i == 9 {
            assert("diff --git "@[9] == 't');
        } else {
            assert("diff --git "@[10] == ' ');
        }
    }
}

/// The rendered hunks of a non-empty list end with a newline.
proof fn lemma_hunks_render_last(hs: Seq<HunkV>)
    requires
        hs.len() >= 1,
        forall|k: int| 0 <= k < hs.len() ==> hunk_ok(#[trigger] hs[k]),
    ensures
        spec_render_hunks(hs).len() >= 12,
        spec_render_hunks(hs).last() == '\n',
    decreases hs.len(),
{
    let rh = spec_render_hunk(hs.first());
    let rest = spec_render_hunks(hs.drop_first());
    assert(hunk_ok(hs.first()));
    lemma_hunk_shape(hs.first());
    if hs.len() == 1 {
        assert(rest =~= Seq::<char>::empty());
        assert(spec_render_hunks(hs) =~= rh);
    } else {
        assert forall|k: int| 0 <= k < hs.drop_first().len() implies hunk_ok(
            #[trigger] hs.drop_first()[k],
        ) by {
            assert(hs.drop_first()[k] == hs[k + 1]);
        }
        lemma_hunks_render_last(hs.drop_first());
        assert(spec_render_hunks(hs) == rh + rest);
        assert((rh + rest).last() == rest.last());
    }
}

/// The shape of a rendered file: it begins `diff --git `, is long enough,
/// and ends with a newline.
proof fn lemma_file_render_shape(f: FileDiffV)
    requires
        file_ok(f),
    ensures
        ({
            let r = spec_render_file(f);
            &&& r.len() >= 12
            &&& r.take(11) == "diff --git "@
            &&& r.last() == '\n'
        }),
{
    reveal_strlit("diff --git a/");
    reveal_strlit("diff --git ");
    let r = spec_render_file(f);
    let rh = spec_render_hunks(f.hunks);
    lemma_hunks_render_last(f.hunks);
    assert(r =~= ("diff --git a/"@ + f.path + " b/"@ + f.path + "\n--- a/"@ + f.path
        + "\n+++ b/"@ + f.path + "\n"@) + rh);
    assert(rh.len() >= 12);
    assert(r.last() == rh.last());
    assert(r.take(11) =~= "diff --git "@) by {
        assert forall|i: int| 0 <= i < 11 implies #[trigger] r[i] == "diff --git a/"@[i] by {
            assert("diff --git a/"@.len() == 13);
        }
        assert("diff --git a/"@[0] == 'd' && "diff --git "@[0] == 'd');
        assert("diff --git a/"@[1] == 'i' && "diff --git "@[1] == 'i');
        assert("diff --git a/"@[2] == 'f' && "diff --git "@[2] == 'f');
        assert("diff --git a/"@[3] == 'f' && "diff --git "@[3] == 'f');
        assert("diff --git a/"@[4] == ' ' && "diff --git "@[4] == ' ');
        assert("diff --git a/"@[5] == '-' && "diff --git "@[5] == '-');
        assert("diff --git a/"@[6] == '-' && "diff --git "@[6] == '-');
        assert("diff --git a/"@[7] == 'g' && "diff --git "@[7] == 'g');
        assert("diff --git a/"@[8] == 'i' && "diff --git "@[8] == 'i');
        assert("diff --git a/"@[9] == 't' && "diff --git "@[9] == 't');
        assert("diff --git a/"@[10] == ' ' && "diff --git "@[10] == ' ');
    }
}

/// The file marker occurs in the file's rendering only at its start.
pub open spec fn marker_only_at_start(f: FileDiffV) -> bool {
    forall|j: int| j >= 1 ==> !(#[trigger] occurs_at(spec_render_file(f), "diff --git "@, j))
}

/// A diff whose rendering parses back: every file well formed, none of
/// them containing the file marker anywhere but at its start.
pub open spec fn diff_ok(d: DiffV) -> bool {
    forall|k: int|
        0 <= k < d.files.len() ==> file_ok(#[trigger] d.files[k]) && marker_only_at_start(
            d.files[k],
        )
}

/// The positions at which each file's section begins, the first at `b`.
pub open spec fn file_marks(b: int, fs: Seq<FileDiffV>) -> Seq<int>
    decreases fs.len(),
{
    if fs.len() == 0 {
        Seq::empty()
    } else {
        seq![b] + file_marks(b + spec_render_file(fs.first()).len(), fs.drop_first())
    }
}

proof fn lemma_file_marks_len(b: int, fs: Seq<FileDiffV>)
    ensures
        file_marks(b, fs).len() == fs.len(),
    decreases fs.len(),
{
    if fs.len() > 0 {
        lemma_file_marks_len(b + spec_render_file(fs.first()).len(), fs.drop_first());
    }
}

/// Searching from a file start finds exactly the file starts.
proof fn lemma_file_marks_find(s: Seq<char>, b: int, fs: Seq<FileDiffV>)
    requires
        0 <= b <= s.len(),
        s.skip(b) == spec_render_files(fs),
        forall|k: int|
            0 <= k < fs.len() ==> file_ok(#[trigger] fs[k]) && marker_only_at_start(fs[k]),
    ensures
        find_from(s, "diff --git "@, b) == file_marks(b, fs),
    decreases fs.len(),
{
    lemma_lit_diff_git_marker();
    let pat = "diff --git "@;
    if fs.len() == 0 {
        assert(s.skip(b).len() == 0);
        assert(b == s.len());
        assert forall|j: int| b <= j implies !(#[trigger] occurs_at(s, pat, j)) by {
            if occurs_at(s, pat, j) {
                assert(j + 11 <= s.len());
            }
        }
        lemma_find_from_none(s, pat, b);
    } else {
        let f0 = fs.first();
        assert(file_ok(f0) && marker_only_at_start(f0));
        lemma_file_render_shape(f0);
        let rf = spec_render_file(f0);
        let rest = spec_render_files(fs.drop_first());
        assert(s.skip(b) == rf + rest);
        assert(s.len() == b + rf.len() + rest.len()) by {
            assert(s.skip(b).len() == s.len() - b);
        }
        let b2 = b + rf.len();
        assert forall|i: int| 0 <= i < rf.len() implies #[trigger] s[b + i] == rf[i] by {
            assert(s.skip(b)[i] == s[b + i]);
            assert((rf + rest)[i] == rf[i]);
        }
        assert(occurs_at(s, pat, b)) by {
            assert forall|i: int| 0 <= i < 11 implies #[trigger] s.subrange(b, b + 11)[i]
                == pat[i] by {
                assert(s.subrange(b, b + 11)[i] == s[b + i]);
                assert(s[b + i] == rf[i]);
                assert(rf.take(11)[i] == rf[i]);
            }
            assert(s.subrange(b, b + 11) =~= pat);
        }
        assert(b < s.len());
        lemma_find_from_here(s, pat, b);
        assert forall|j: int| b + 1 <= j < b2 implies !(#[trigger] occurs_at(s, pat, j)) by {
            if occurs_at(s, pat, j) {
                if j + 11 <= b2 {
                    assert(occurs_at(rf, pat, j - b)) by {
                        assert forall|i: int|
                            0 <= i < 11 implies #[trigger] rf.subrange(j - b, j - b + 11)[i]
                            == pat[i] by {
                            assert(rf.subrange(j - b, j - b + 11)[i] == rf[j - b + i]);
                            assert(s[b + (j - b + i)] == rf[j - b + i]);
                            assert(s.subrange(j, j + 11)[i] == s[j + i]);
                        }
                        assert(rf.subrange(j - b, j - b + 11) =~= pat);
                    }
                    assert(!occurs_at(rf, pat, j - b));
                } else {
                    // The occurrence would have to straddle the file's
                    // final newline, which the marker does not contain.
                    let i = b2 - 1 - j;
                    assert(0 <= i < 11);
                    assert(s.subrange(j, j + 11)[i] == s[j + i]);
                    assert(s[b2 - 1] == rf[rf.len() - 1]) by {
                        assert(s[b + (rf.len() - 1)] == rf[rf.len() - 1]);
                    }
                    assert(s[j + i] == '\n');
                    assert(pat[i] != '\n');
                }
            }
        }
        lemma_find_from_advance(s, pat, b + 1, b2);
        assert(s.skip(b2) =~= s.skip(b).skip(rf.len() as int));
        assert((rf + rest).skip(rf.len() as int) =~= rest);
        assert forall|k: int|
            0 <= k < fs.drop_first().len() implies file_ok(#[trigger] fs.drop_first()[k])
            && marker_only_at_start(fs.drop_first()[k]) by {
            assert(fs.drop_first()[k] == fs[k + 1]);
        }
        lemma_file_marks_find(s, b2, fs.drop_first());
        assert(find_from(s, pat, b) == seq![b] + find_from(s, pat, b + 1));
        assert(find_from(s, pat, b + 1) == find_from(s, pat, b2));
        assert(file_marks(b, fs) == seq![b] + file_marks(b2, fs.drop_first()));
    }
}

/// Parsing the file sections yields the files back.
proof fn lemma_file_sections_roundtrip(
    s: Seq<char>,
    occ: Seq<int>,
    k: int,
    b: int,
    fs: Seq<FileDiffV>,
)
    requires
        0 <= k <= occ.len(),
        occ.skip(k) == file_marks(b, fs),
        occ.len() - k == fs.len(),
        0 <= b <= s.len(),
        s.skip(b) == spec_render_files(fs),
        forall|j: int| 0 <= j < fs.len() ==> file_ok(#[trigger] fs[j]),
    ensures
        sp_parse_files(s, occ, k) == fs,
    decreases fs.len(),
{
    if fs.len() == 0 {
        assert(sp_parse_files(s, occ, k) =~= Seq::<FileDiffV>::empty());
    } else {
        let f0 = fs.first();
        assert(file_ok(f0));
        lemma_file_render_shape(f0);
        let rf = spec_render_file(f0);
        let rest = spec_render_files(fs.drop_first());
        assert(s.skip(b) == rf + rest);
        assert(s.len() == b + rf.len() + rest.len()) by {
            assert(s.skip(b).len() == s.len() - b);
        }
        let b2 = b + rf.len();
        assert(occ[k] == b) by {
            assert(occ.skip(k)[0] == occ[k]);
            assert(file_marks(b, fs)[0] == b);
        }
        if k + 1 < occ.len() {
            assert(fs.drop_first().len() > 0);
            assert(occ[k + 1] == b2) by {
                assert(occ.skip(k)[1] == occ[k + 1]);
                assert(file_marks(b, fs)[1] == file_marks(b2, fs.drop_first())[0]);
                assert(file_marks(b2, fs.drop_first())[0] == b2);
            }
        } else {
            assert(fs.drop_first().len() == 0);
            assert(rest.len() == 0);
            assert(s.len() == b2);
        }
        let en2: int = if k + 1 < occ.len() {
            b2
        } else {
            s.len() as int
        };
        assert(en2 == b2);
        let sec = s.subrange(b, en2);
        assert(sec =~= rf) by {
            assert forall|i: int| 0 <= i < rf.len() implies #[trigger] sec[i] == rf[i] by {
                assert(sec[i] == s[b + i]);
                assert(s.skip(b)[i] == s[b + i]);
                assert((rf + rest)[i] == rf[i]);
            }
        }
        lemma_file_roundtrip(f0);
        assert(spec_parse_file(sec) == Some(f0));
        assert(s.skip(b2) =~= s.skip(b).skip(rf.len() as int));
        assert((rf + rest).skip(rf.len() as int) =~= rest);
        assert(occ.skip(k + 1) =~= file_marks(b2, fs.drop_first())) by {
            assert(occ.skip(k).drop_first() =~= occ.skip(k + 1));
            assert(file_marks(b, fs).drop_first() =~= file_marks(b2, fs.drop_first()));
        }
        assert forall|j: int| 0 <= j < fs.drop_first().len() implies file_ok(
            #[trigger] fs.drop_first()[j],
        ) by {
            assert(fs.drop_first()[j] == fs[j + 1]);
        }
        lemma_file_sections_roundtrip(s, occ, k + 1, b2, fs.drop_first());
        assert(sp_parse_files(s, occ, k) == seq![f0] + fs.drop_first());
        assert(seq![f0] + fs.drop_first() =~= fs);
    }
}

/// Round trip: parsing the rendering of a well-formed diff yields its
/// files back.
pub proof fn lemma_diff_roundtrip(d: DiffV)
    requires
        diff_ok(d),
    ensures
        spec_parse_diff(spec_render_diff(d)) == d.files,
{
    let s = spec_render_diff(d);
    assert(s.skip(0) =~= s);
    assert forall|k: int|
        0 <= k < d.files.len() implies file_ok(#[trigger] d.files[k]) && marker_only_at_start(
        d.files[k],
    ) by {}
    lemma_file_marks_find(s, 0, d.files);
    lemma_file_marks_len(0, d.files);
    let occ = find_from(s, "diff --git "@, 0);
    assert(occ.skip(0) =~= occ);
    lemma_file_sections_roundtrip(s, occ, 0, 0, d.files);
}

} // verus!
