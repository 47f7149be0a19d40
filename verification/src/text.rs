//! Character-level text utilities shared by the diff and selector parsers:
//! decimal numbers, tag matching, substring search, and line splitting,
//! each with an executable form proved equal to its specification.

use vstd::prelude::*;

verus! {

use vstd::string::StrSliceExecFns;
use vstd::string::StringExecFns;

// ----------------------------------------------------------------------------
// Decimal digits
// ----------------------------------------------------------------------------

/// Is `c` an ASCII decimal digit?
pub open spec fn is_digit(c: char) -> bool {
    c == '0' || c == '1' || c == '2' || c == '3' || c == '4' || c == '5' || c == '6' || c == '7'
        || c == '8' || c == '9'
}

/// Numeric value of a digit character (0 for non-digits).
pub open spec fn digit_val(c: char) -> nat {
    if c == '1' {
        1
    } else if c == '2' {
        2
    } else if c == '3' {
        3
    } else if c == '4' {
        4
    } else if c == '5' {
        5
    } else if c == '6' {
        6
    } else if c == '7' {
        7
    } else if c == '8' {
        8
    } else if c == '9' {
        9
    } else {
        0
    }
}

/// The digit character for a value below ten.
pub open spec fn digit_char(d: nat) -> char {
    if d == 1 {
        '1'
    } else if d == 2 {
        '2'
    } else if d == 3 {
        '3'
    } else if d == 4 {
        '4'
    } else if d == 5 {
        '5'
    } else if d == 6 {
        '6'
    } else if d == 7 {
        '7'
    } else if d == 8 {
        '8'
    } else if d == 9 {
        '9'
    } else {
        '0'
    }
}

/// Decimal rendering of a natural number, most significant digit first.
pub open spec fn dec_str(n: nat) -> Seq<char>
    decreases n,
{
    if n < 10 {
        seq![digit_char(n)]
    } else {
        dec_str(n / 10).push(digit_char(n % 10))
    }
}

/// Value of a digit string, most significant digit first.
pub open spec fn digits_val(s: Seq<char>) -> nat
    decreases s.len(),
{
    if s.len() == 0 {
        0
    } else {
        digits_val(s.drop_last()) * 10 + digit_val(s.last())
    }
}

/// Length of the maximal digit prefix of `s`.
pub open spec fn digit_prefix_len(s: Seq<char>) -> nat
    decreases s.len(),
{
    if s.len() == 0 || !is_digit(s[0]) {
        0
    } else {
        (1 + digit_prefix_len(s.drop_first())) as nat
    }
}

pub proof fn lemma_dec_str_digits(n: nat)
    ensures
        dec_str(n).len() >= 1,
        forall|i: int| 0 <= i < dec_str(n).len() ==> is_digit(#[trigger] dec_str(n)[i]),
    decreases n,
{
    if n >= 10 {
        lemma_dec_str_digits(n / 10);
    }
}

/// Reading back the decimal rendering gives the number.
pub proof fn lemma_digits_val_dec_str(n: nat)
    ensures
        digits_val(dec_str(n)) == n,
    decreases n,
{
    if n < 10 {
        let s = dec_str(n);
        assert(s =~= seq![digit_char(n)]);
        assert(s.drop_last() =~= Seq::<char>::empty());
        assert(s.last() == digit_char(n));
        assert(digits_val(s) == digits_val(s.drop_last()) * 10 + digit_val(s.last()));
        assert(digit_val(digit_char(n)) == n);
    } else {
        lemma_digits_val_dec_str(n / 10);
        let s = dec_str(n);
        assert(s == dec_str(n / 10).push(digit_char(n % 10)));
        assert(s.drop_last() =~= dec_str(n / 10));
        assert(s.last() == digit_char(n % 10));
        assert(digits_val(s) == digits_val(dec_str(n / 10)) * 10 + digit_val(
            digit_char(n % 10),
        ));
        assert(digit_val(digit_char(n % 10)) == n % 10);
        assert(n / 10 * 10 + n % 10 == n);
    }
}

/// Appending more digits can only grow the value.
pub proof fn lemma_digits_val_monotone(s: Seq<char>, i: int, j: int)
    requires
        0 <= i <= j <= s.len(),
    ensures
        digits_val(s.take(i)) <= digits_val(s.take(j)),
    decreases j - i,
{
    if i < j {
        lemma_digits_val_monotone(s, i, j - 1);
        assert(s.take(j).drop_last() =~= s.take(j - 1));
        assert(digits_val(s.take(j)) == digits_val(s.take(j - 1)) * 10 + digit_val(
            s.take(j).last(),
        ));
    } else {
        assert(s.take(i) =~= s.take(j));
    }
}

/// The digit prefix stops exactly at the first non-digit.
pub proof fn lemma_digit_prefix_len_char(s: Seq<char>)
    ensures
        digit_prefix_len(s) <= s.len(),
        forall|i: int|
            0 <= i < digit_prefix_len(s) ==> is_digit(#[trigger] s[i]),
        digit_prefix_len(s) < s.len() ==> !is_digit(s[digit_prefix_len(s) as int]),
    decreases s.len(),
{
    if s.len() > 0 && is_digit(s[0]) {
        lemma_digit_prefix_len_char(s.drop_first());
        assert forall|i: int| 0 <= i < digit_prefix_len(s) implies is_digit(#[trigger] s[i]) by {
            if i > 0 {
                assert(s.drop_first()[i - 1] == s[i]);
            }
        }
        if digit_prefix_len(s) < s.len() {
            assert(s.drop_first()[digit_prefix_len(s) - 1] == s[digit_prefix_len(s) as int]);
        }
    }
}

/// Executable decimal rendering of a single digit.
fn digit_str(d: u32) -> (r: &'static str)
    requires
        d < 10,
    ensures
        r@ =~= seq![digit_char(d as nat)],
{
    proof {
        reveal_strlit("0");
        reveal_strlit("1");
        reveal_strlit("2");
        reveal_strlit("3");
        reveal_strlit("4");
        reveal_strlit("5");
        reveal_strlit("6");
        reveal_strlit("7");
        reveal_strlit("8");
        reveal_strlit("9");
    }
    if d == 0 {
        "0"
    } else if d == 1 {
        "1"
    } else if d == 2 {
        "2"
    } else if d == 3 {
        "3"
    } else if d == 4 {
        "4"
    } else if d == 5 {
        "5"
    } else if d == 6 {
        "6"
    } else if d == 7 {
        "7"
    } else if d == 8 {
        "8"
    } else {
        "9"
    }
}

/// Executable decimal rendering of a `u32`.
pub fn u32_str(n: u32) -> (r: String)
    ensures
        r@ == dec_str(n as nat),
    decreases n,
{
    if n < 10 {
        digit_str(n).to_owned()
    } else {
        let mut s = u32_str(n / 10);
        s.append(digit_str(n % 10));
        proof {
            assert(dec_str(n as nat) == dec_str(n as nat / 10).push(digit_char(n as nat % 10)));
            assert(s@ =~= dec_str(n as nat));
        }
        s
    }
}

/// Executable decimal rendering of a `u64`.
pub fn u64_str(n: u64) -> (r: String)
    ensures
        r@ == dec_str(n as nat),
    decreases n,
{
    if n < 10 {
        digit_str(n as u32).to_owned()
    } else {
        let mut s = u64_str(n / 10);
        s.append(digit_str((n % 10) as u32));
        proof {
            assert(dec_str(n as nat) == dec_str(n as nat / 10).push(digit_char(n as nat % 10)));
            assert(s@ =~= dec_str(n as nat));
        }
        s
    }
}

/// A digit prefix of known content followed by a non-digit (or nothing)
/// has exactly that length.
pub proof fn lemma_digit_prefix_len_exact(s: Seq<char>, k: int)
    requires
        0 <= k <= s.len(),
        forall|i: int| 0 <= i < k ==> is_digit(#[trigger] s[i]),
        k < s.len() ==> !is_digit(s[k]),
    ensures
        digit_prefix_len(s) == k,
    decreases s.len(),
{
    if s.len() == 0 || !is_digit(s[0]) {
    } else {
        assert(is_digit(s[0]));
        assert(k >= 1) by {
            if k == 0 {
                assert(!is_digit(s[0]));
            }
        }
        assert forall|i: int| 0 <= i < k - 1 implies is_digit(#[trigger] s.drop_first()[i]) by {
            assert(s.drop_first()[i] == s[i + 1]);
        }
        if k - 1 < s.drop_first().len() {
            assert(s.drop_first()[k - 1] == s[k]);
        }
        lemma_digit_prefix_len_exact(s.drop_first(), k - 1);
    }
}

} // verus!

verus! {

// ----------------------------------------------------------------------------
// Parsing primitives over character sequences
// ----------------------------------------------------------------------------

/// View of an optional string slice as an optional character sequence.
pub open spec fn ov(o: Option<&str>) -> Option<Seq<char>> {
    match o {
        Some(s) => Some(s@),
        None => None,
    }
}

/// Consume the literal `t` at the front of `s`.
pub open spec fn sp_tag(s: Seq<char>, t: Seq<char>) -> Option<Seq<char>> {
    if t.len() <= s.len() && s.take(t.len() as int) == t {
        Some(s.skip(t.len() as int))
    } else {
        None
    }
}

/// Executable form of [`sp_tag`].
pub fn x_tag<'a>(s: &'a str, t: &str) -> (r: Option<&'a str>)
    ensures
        ov(r) == sp_tag(s@, t@),
{
    let sn = s.unicode_len();
    let tn = t.unicode_len();
    if tn > sn {
        return None;
    }
    let mut i: usize = 0;
    while i < tn
        invariant
            0 <= i <= tn,
            tn == t@.len(),
            sn == s@.len(),
            tn <= sn,
            forall|j: int| 0 <= j < i ==> s@[j] == t@[j],
        decreases tn - i,
    {
        if s.get_char(i) != t.get_char(i) {
            proof {
                assert(s@.take(tn as int)[i as int] == s@[i as int]);
                assert(s@.take(tn as int) != t@);
            }
            return None;
        }
        i += 1;
    }
    proof {
        assert(s@.take(tn as int) =~= t@);
    }
    Some(s.substring_char(tn, sn))
}

/// Does `s` begin with `t`?
pub fn x_starts_with(s: &str, t: &str) -> (r: bool)
    ensures
        r == (sp_tag(s@, t@) is Some),
{
    x_tag(s, t).is_some()
}

/// Consume a maximal run of decimal digits and read it as a `u32`;
/// fails when there is no digit or the value exceeds `u32`.
pub open spec fn sp_u32(s: Seq<char>) -> Option<(u32, Seq<char>)> {
    let k = digit_prefix_len(s);
    if k == 0 {
        None
    } else if digits_val(s.take(k as int)) > u32::MAX {
        None
    } else {
        Some(((digits_val(s.take(k as int)) as u32), s.skip(k as int)))
    }
}

/// View of an optional `(u32, &str)` pair.
pub open spec fn ovu(o: Option<(u32, &str)>) -> Option<(u32, Seq<char>)> {
    match o {
        Some((n, s)) => Some((n, s@)),
        None => None,
    }
}

/// Executable digit test.
pub fn x_is_digit(c: char) -> (r: bool)
    ensures
        r == is_digit(c),
{
    c == '0' || c == '1' || c == '2' || c == '3' || c == '4' || c == '5' || c == '6' || c == '7'
        || c == '8' || c == '9'
}

/// Executable digit value.
pub fn x_digit_val(c: char) -> (r: u32)
    ensures
        r == digit_val(c),
{
    if c == '1' {
        1
    } else if c == '2' {
        2
    } else if c == '3' {
        3
    } else if c == '4' {
        4
    } else if c == '5' {
        5
    } else if c == '6' {
        6
    } else if c == '7' {
        7
    } else if c == '8' {
        8
    } else if c == '9' {
        9
    } else {
        0
    }
}

/// Executable form of [`sp_u32`].
pub fn x_u32<'a>(s: &'a str) -> (r: Option<(u32, &'a str)>)
    ensures
        ovu(r) == sp_u32(s@),
{
    let sn = s.unicode_len();
    let mut i: usize = 0;
    let mut acc: u64 = 0;
    while i < sn && x_is_digit(s.get_char(i))
        invariant
            0 <= i <= sn,
            sn == s@.len(),
            forall|j: int| 0 <= j < i ==> is_digit(#[trigger] s@[j]),
            acc <= u32::MAX as u64 ==> acc as nat == digits_val(s@.take(i as int)),
            acc > u32::MAX as u64 ==> digits_val(s@.take(i as int)) > u32::MAX,
            acc <= 0xffff_ffff_9u64,
        decreases sn - i,
    {
        let d = x_digit_val(s.get_char(i));
        proof {
            assert(s@.take(i + 1).drop_last() =~= s@.take(i as int));
            assert(s@.take(i + 1).last() == s@[i as int]);
            lemma_digits_val_monotone(s@, i as int, i + 1);
        }
        if acc <= u32::MAX as u64 {
            acc = acc * 10 + d as u64;
        }
        i += 1;
    }
    proof {
        lemma_digit_prefix_len_exact(s@, i as int);
    }
    if i == 0 {
        return None;
    }
    if acc > u32::MAX as u64 {
        return None;
    }
    Some((acc as u32, s.substring_char(i, sn)))
}

// ----------------------------------------------------------------------------
// Substring search
// ----------------------------------------------------------------------------

/// Index of the first occurrence of `pat` in `s`, if any.
pub open spec fn find_sub(s: Seq<char>, pat: Seq<char>) -> Option<int>
    decreases s.len(),
{
    if s.len() < pat.len() {
        None
    } else if s.take(pat.len() as int) == pat {
        Some(0)
    } else if s.len() == 0 {
        None
    } else {
        match find_sub(s.drop_first(), pat) {
            Some(j) => Some(j + 1),
            None => None,
        }
    }
}

/// Does `pat` occur in `s` at position `i`?
pub open spec fn occurs_at(s: Seq<char>, pat: Seq<char>, i: int) -> bool {
    0 <= i && i + pat.len() <= s.len() && s.subrange(i, i + pat.len()) == pat
}

/// What [`find_sub`] finds is the first occurrence.
pub proof fn lemma_find_sub(s: Seq<char>, pat: Seq<char>)
    ensures
        match find_sub(s, pat) {
            Some(i) => occurs_at(s, pat, i) && (forall|j: int|
                0 <= j < i ==> !(#[trigger] occurs_at(s, pat, j))),
            None => forall|j: int| !(#[trigger] occurs_at(s, pat, j)),
        },
    decreases s.len(),
{
    if s.len() < pat.len() {
        assert forall|j: int| !(#[trigger] occurs_at(s, pat, j)) by {}
    } else if s.take(pat.len() as int) == pat {
        assert(s.subrange(0, pat.len() as int) =~= s.take(pat.len() as int));
        assert(occurs_at(s, pat, 0));
    } else if s.len() == 0 {
        assert(pat.len() == 0);
        assert(s.take(pat.len() as int) =~= pat);
    } else {
        let d = s.drop_first();
        lemma_find_sub(d, pat);
        assert(s.subrange(0, pat.len() as int) =~= s.take(pat.len() as int));
        assert(!occurs_at(s, pat, 0));
        match find_sub(d, pat) {
            Some(j0) => {
                assert(find_sub(s, pat) == Some(j0 + 1));
                assert(s.subrange(j0 + 1, j0 + 1 + pat.len()) =~= d.subrange(
                    j0,
                    j0 + pat.len(),
                ));
                assert(occurs_at(s, pat, j0 + 1));
                assert forall|j: int| 0 <= j < j0 + 1 implies !(#[trigger] occurs_at(
                    s,
                    pat,
                    j,
                )) by {
                    if j >= 1 {
                        assert(!occurs_at(d, pat, j - 1));
                        if occurs_at(s, pat, j) {
                            assert(d.subrange(j - 1, j - 1 + pat.len()) =~= s.subrange(
                                j,
                                j + pat.len(),
                            ));
                        }
                    }
                }
            },
            None => {
                assert forall|j: int| !(#[trigger] occurs_at(s, pat, j)) by {
                    if j >= 1 && occurs_at(s, pat, j) {
                        assert(d.subrange(j - 1, j - 1 + pat.len()) =~= s.subrange(
                            j,
                            j + pat.len(),
                        ));
                        assert(occurs_at(d, pat, j - 1));
                    }
                }
            },
        }
    }
}

/// Executable form of [`find_sub`], returning a position.
pub fn x_find_sub(s: &str, pat: &str) -> (r: Option<usize>)
    ensures
        match r {
            Some(i) => find_sub(s@, pat@) == Some(i as int),
            None => find_sub(s@, pat@) is None,
        },
{
    let sn = s.unicode_len();
    let pn = pat.unicode_len();
    if pn > sn {
        proof {
            lemma_find_sub(s@, pat@);
            if find_sub(s@, pat@) is Some {
                let k = find_sub(s@, pat@)->Some_0;
                assert(occurs_at(s@, pat@, k));
            }
        }
        return None;
    }
    if pn == 0 {
        proof {
            assert(s@.take(0) =~= pat@);
        }
        return Some(0);
    }
    let mut i: usize = 0;
    while i <= sn - pn
        invariant
            0 <= i,
            i <= sn - pn + 1,
            1 <= pn <= sn,
            sn == s@.len(),
            pn == pat@.len(),
            forall|j: int| 0 <= j < i ==> !(#[trigger] occurs_at(s@, pat@, j)),
        decreases sn - pn + 1 - i,
    {
        let sub = s.substring_char(i, i + pn);
        if x_tag(sub, pat).is_some() {
            proof {
                assert(sub@.take(pn as int) =~= sub@);
                assert(occurs_at(s@, pat@, i as int));
                lemma_find_sub(s@, pat@);
                match find_sub(s@, pat@) {
                    Some(k) => {
                        assert(occurs_at(s@, pat@, k));
                        if k < i {
                            assert(!occurs_at(s@, pat@, k));
                            assert(false);
                        }
                        if k > i {
                            assert(!occurs_at(s@, pat@, i as int));
                            assert(false);
                        }
                    },
                    None => {
                        assert(!occurs_at(s@, pat@, i as int));
                        assert(false);
                    },
                }
            }
            return Some(i);
        }
        proof {
            assert(sub@.take(pn as int) =~= sub@);
            assert(sub@ =~= s@.subrange(i as int, i + pn));
            assert(!occurs_at(s@, pat@, i as int));
        }
        i += 1;
    }
    proof {
        lemma_find_sub(s@, pat@);
        match find_sub(s@, pat@) {
            Some(k) => {
                assert(occurs_at(s@, pat@, k));
                assert(k < i);
                assert(!occurs_at(s@, pat@, k));
                assert(false);
            },
            None => {},
        }
    }
    None
}

} // verus!

verus! {

// ----------------------------------------------------------------------------
// Line-oriented primitives
// ----------------------------------------------------------------------------

/// Index of the first line-break character (`'\n'` or `'\r'`), or `s.len()`.
pub open spec fn line_break_pos(s: Seq<char>) -> int
    decreases s.len(),
{
    if s.len() == 0 {
        0
    } else if s[0] == '\n' || s[0] == '\r' {
        0
    } else {
        1 + line_break_pos(s.drop_first())
    }
}

pub proof fn lemma_line_break_pos(s: Seq<char>)
    ensures
        0 <= line_break_pos(s) <= s.len(),
        forall|i: int|
            0 <= i < line_break_pos(s) ==> #[trigger] s[i] != '\n' && s[i] != '\r',
        line_break_pos(s) < s.len() ==> s[line_break_pos(s)] == '\n' || s[line_break_pos(s)]
            == '\r',
    decreases s.len(),
{
    if s.len() > 0 && s[0] != '\n' && s[0] != '\r' {
        lemma_line_break_pos(s.drop_first());
        assert forall|i: int| 0 <= i < line_break_pos(s) implies #[trigger] s[i] != '\n' && s[i]
            != '\r' by {
            if i > 0 {
                assert(s.drop_first()[i - 1] == s[i]);
            }
        }
        if line_break_pos(s) < s.len() {
            assert(s.drop_first()[line_break_pos(s) - 1] == s[line_break_pos(s)]);
        }
    }
}

/// A known break position pins `line_break_pos` down.
pub proof fn lemma_line_break_pos_exact(s: Seq<char>, k: int)
    requires
        0 <= k <= s.len(),
        forall|i: int| 0 <= i < k ==> #[trigger] s[i] != '\n' && s[i] != '\r',
        k < s.len() ==> s[k] == '\n' || s[k] == '\r',
    ensures
        line_break_pos(s) == k,
    decreases s.len(),
{
    if s.len() > 0 && s[0] != '\n' && s[0] != '\r' {
        assert(k >= 1) by {
            if k == 0 {
                assert(s[0] == '\n' || s[0] == '\r');
            }
        }
        assert forall|i: int| 0 <= i < k - 1 implies #[trigger] s.drop_first()[i] != '\n'
            && s.drop_first()[i] != '\r' by {
            assert(s.drop_first()[i] == s[i + 1]);
        }
        if k - 1 < s.drop_first().len() {
            assert(s.drop_first()[k - 1] == s[k]);
        }
        lemma_line_break_pos_exact(s.drop_first(), k - 1);
    }
}

/// Take the (possibly empty) run of characters before the next line break.
/// Fails on a carriage return that is not followed by a newline.
pub open spec fn sp_not_line_ending(s: Seq<char>) -> Option<(Seq<char>, Seq<char>)> {
    let p = line_break_pos(s);
    if p < s.len() && s[p] == '\r' && !(p + 1 < s.len() && s[p + 1] == '\n') {
        None
    } else {
        Some((s.take(p), s.skip(p)))
    }
}

/// Consume one line ending, `"\n"` or `"\r\n"`.
pub open spec fn sp_line_ending(s: Seq<char>) -> Option<Seq<char>> {
    if s.len() >= 1 && s[0] == '\n' {
        Some(s.skip(1))
    } else if s.len() >= 2 && s[0] == '\r' && s[1] == '\n' {
        Some(s.skip(2))
    } else {
        None
    }
}

/// Consume an optional line ending.
pub open spec fn sp_opt_line_ending(s: Seq<char>) -> Seq<char> {
    match sp_line_ending(s) {
        Some(r) => r,
        None => s,
    }
}

/// View of an optional pair of string slices.
pub open spec fn ov2(o: Option<(&str, &str)>) -> Option<(Seq<char>, Seq<char>)> {
    match o {
        Some((a, b)) => Some((a@, b@)),
        None => None,
    }
}

/// Is the character at `p` a line break?
fn x_break_at(s: &str, p: usize) -> (r: bool)
    requires
        p < s@.len(),
    ensures
        r == (s@[p as int] == '\n' || s@[p as int] == '\r'),
{
    let c = s.get_char(p);
    c == '\n' || c == '\r'
}

/// Executable form of [`sp_not_line_ending`].
pub fn x_not_line_ending<'a>(s: &'a str) -> (r: Option<(&'a str, &'a str)>)
    ensures
        ov2(r) == sp_not_line_ending(s@),
{
    let sn = s.unicode_len();
    let mut p: usize = 0;
    while p < sn && !x_break_at(s, p)
        invariant
            0 <= p <= sn,
            sn == s@.len(),
            forall|i: int| 0 <= i < p ==> #[trigger] s@[i] != '\n' && s@[i] != '\r',
        decreases sn - p,
    {
        p += 1;
    }
    proof {
        lemma_line_break_pos_exact(s@, p as int);
    }
    if p < sn && s.get_char(p) == '\r' {
        if !(p + 1 < sn && s.get_char(p + 1) == '\n') {
            return None;
        }
    }
    Some((s.substring_char(0, p), s.substring_char(p, sn)))
}

/// Executable form of [`sp_line_ending`].
pub fn x_line_ending<'a>(s: &'a str) -> (r: Option<&'a str>)
    ensures
        ov(r) == sp_line_ending(s@),
{
    let sn = s.unicode_len();
    if sn >= 1 && s.get_char(0) == '\n' {
        Some(s.substring_char(1, sn))
    } else if sn >= 2 && s.get_char(0) == '\r' && s.get_char(1) == '\n' {
        Some(s.substring_char(2, sn))
    } else {
        None
    }
}

/// Executable form of [`sp_opt_line_ending`].
pub fn x_opt_line_ending<'a>(s: &'a str) -> (r: &'a str)
    ensures
        r@ == sp_opt_line_ending(s@),
{
    match x_line_ending(s) {
        Some(rest) => rest,
        None => s,
    }
}

// ----------------------------------------------------------------------------
// Splitting text into lines, as std's `str::lines` does
// ----------------------------------------------------------------------------

/// Drop one trailing carriage return, if present.
pub open spec fn strip_cr_end(l: Seq<char>) -> Seq<char> {
    if l.len() > 0 && l.last() == '\r' {
        l.drop_last()
    } else {
        l
    }
}

/// The lines of `s`: split at `'\n'`, one trailing `'\r'` removed per split
/// line, a final fragment without a newline kept as a line of its own.
pub open spec fn lines_of(s: Seq<char>) -> Seq<Seq<char>>
    decreases s.len(),
{
    if s.len() == 0 {
        Seq::empty()
    } else {
        match find_sub(s, seq!['\n']) {
            Some(p) => if 0 <= p < s.len() {
                seq![strip_cr_end(s.take(p))] + lines_of(s.skip(p + 1))
            } else {
                seq![s]
            },
            None => seq![s],
        }
    }
}

// ----------------------------------------------------------------------------
// Stepping lemmas for loops that build filtered sequences
// ----------------------------------------------------------------------------

/// Unfolds `filter` over a one-longer prefix.
pub proof fn lemma_filter_take_step<A>(s: Seq<A>, pred: spec_fn(A) -> bool, i: int)
    requires
        0 <= i < s.len(),
    ensures
        s.take(i + 1).filter(pred) == if pred(s[i]) {
            s.take(i).filter(pred).push(s[i])
        } else {
            s.take(i).filter(pred)
        },
{
    reveal(Seq::filter);
    assert(s.take(i + 1).drop_last() =~= s.take(i));
    assert(s.take(i + 1).last() == s[i]);
}

} // verus!

verus! {

/// Split off the first line of non-empty `s`: the line (one trailing
/// carriage return removed when the line ends at a newline) and the text
/// after the newline.
pub fn split_first_line<'a>(s: &'a str) -> (r: (&'a str, &'a str))
    requires
        s@.len() > 0,
    ensures
        lines_of(s@) == seq![r.0@] + lines_of(r.1@),
        r.1@.len() < s@.len(),
{
    proof {
        reveal_strlit("\n");
        assert("\n"@ =~= seq!['\n']);
    }
    let sn = s.unicode_len();
    match x_find_sub(s, "\n") {
        Some(p) => {
            proof {
                lemma_find_sub(s@, "\n"@);
                assert(occurs_at(s@, "\n"@, p as int));
            }
            let mut line_end = p;
            if p >= 1 && s.get_char(p - 1) == '\r' {
                line_end = p - 1;
            }
            let line = s.substring_char(0, line_end);
            let next = s.substring_char(p + 1, sn);
            proof {
                assert(s@.take(p as int).len() == p as int);
                if p >= 1 && s@[p - 1] == '\r' {
                    assert(s@.take(p as int).last() == s@[p - 1]);
                    assert(line@ =~= s@.take(p as int).drop_last());
                    assert(line@ =~= strip_cr_end(s@.take(p as int)));
                } else {
                    if s@.take(p as int).len() > 0 {
                        assert(s@.take(p as int).last() == s@[p - 1]);
                    }
                    assert(line@ =~= strip_cr_end(s@.take(p as int)));
                }
                assert(next@ =~= s@.skip(p + 1));
                assert(find_sub(s@, seq!['\n']) == Some(p as int));
                assert(lines_of(s@) == seq![strip_cr_end(s@.take(p as int))] + lines_of(
                    s@.skip(p + 1),
                ));
            }
            (line, next)
        },
        None => {
            proof {
                assert(find_sub(s@, seq!['\n']) is None);
                assert(lines_of(s@) == seq![s@]);
            }
            let next = s.substring_char(sn, sn);
            proof {
                assert(next@ =~= Seq::<char>::empty());
                assert(lines_of(next@) =~= Seq::<Seq<char>>::empty());
                assert(seq![s@] + lines_of(next@) =~= seq![s@]);
            }
            (s, next)
        },
    }
}

} // verus!

verus! {

/// An element of a filtered sequence occurs in the original.
pub proof fn lemma_filter_elem<A>(s: Seq<A>, pred: spec_fn(A) -> bool, j: int)
    requires
        0 <= j < s.filter(pred).len(),
    ensures
        exists|k: int| 0 <= k < s.len() && s[k] == s.filter(pred)[j],
    decreases s.len(),
{
    reveal(Seq::filter);
    if s.len() > 0 {
        let sub = s.drop_last().filter(pred);
        if pred(s.last()) && j == sub.len() {
            assert(s[s.len() - 1] == s.filter(pred)[j]);
        } else {
            lemma_filter_elem(s.drop_last(), pred, j);
            let k = choose|k: int| 0 <= k < s.drop_last().len() && s.drop_last()[k] == sub[j];
            assert(s[k] == s.filter(pred)[j]);
        }
    }
}


/// A predicate nowhere true filters everything out.
pub proof fn lemma_filter_none<A>(s: Seq<A>, pred: spec_fn(A) -> bool)
    requires
        forall|i: int| 0 <= i < s.len() ==> !pred(#[trigger] s[i]),
    ensures
        s.filter(pred) == Seq::<A>::empty(),
{
    if s.filter(pred).len() > 0 {
        s.lemma_filter_pred(pred, 0);
        lemma_filter_elem(s, pred, 0);
        let k = choose|k: int| 0 <= k < s.len() && s[k] == s.filter(pred)[0];
        assert(!pred(s[k]));
        assert(false);
    }
    assert(s.filter(pred) =~= Seq::<A>::empty());
}

/// A predicate everywhere true filters nothing out.
pub proof fn lemma_filter_all<A>(s: Seq<A>, pred: spec_fn(A) -> bool)
    requires
        forall|i: int| 0 <= i < s.len() ==> pred(#[trigger] s[i]),
    ensures
        s.filter(pred) == s,
    decreases s.len(),
{
    reveal(Seq::filter);
    if s.len() > 0 {
        lemma_filter_all(s.drop_last(), pred);
        assert(pred(s.last()));
        assert(s.filter(pred) =~= s);
    } else {
        assert(s.filter(pred) =~= s);
    }
}

} // verus!

verus! {

// ----------------------------------------------------------------------------
// Facts used by the parse/render round-trip laws
// ----------------------------------------------------------------------------

/// `c` does not occur in `s`.
pub open spec fn free_of(s: Seq<char>, c: char) -> bool {
    forall|i: int| 0 <= i < s.len() ==> #[trigger] s[i] != c
}

pub proof fn lemma_free_of_concat(a: Seq<char>, b: Seq<char>, c: char)
    requires
        free_of(a, c),
        free_of(b, c),
    ensures
        free_of(a + b, c),
{
    assert forall|i: int| 0 <= i < (a + b).len() implies #[trigger] (a + b)[i] != c by {
        if i < a.len() {
            assert((a + b)[i] == a[i]);
        } else {
            assert((a + b)[i] == b[i - a.len()]);
        }
    }
}

/// Decimal digit strings contain only digits, hence no given non-digit.
pub proof fn lemma_free_of_dec(n: nat, c: char)
    requires
        !is_digit(c),
    ensures
        free_of(dec_str(n), c),
{
    lemma_dec_str_digits(n);
    assert forall|i: int| 0 <= i < dec_str(n).len() implies #[trigger] dec_str(n)[i] != c by {
        assert(is_digit(dec_str(n)[i]));
    }
}

/// A tag at the very front of a concatenation is consumed exactly.
pub proof fn lemma_tag_concat(t: Seq<char>, r: Seq<char>)
    ensures
        sp_tag(t + r, t) == Some(r),
{
    assert((t + r).take(t.len() as int) =~= t);
    assert((t + r).skip(t.len() as int) =~= r);
}

/// A known first occurrence pins `find_sub` down.
pub proof fn lemma_find_sub_at(s: Seq<char>, pat: Seq<char>, p: int)
    requires
        occurs_at(s, pat, p),
        forall|j: int| 0 <= j < p ==> !(#[trigger] occurs_at(s, pat, j)),
    ensures
        find_sub(s, pat) == Some(p),
{
    lemma_find_sub(s, pat);
    match find_sub(s, pat) {
        Some(i) => {
            if i < p {
                assert(!occurs_at(s, pat, i));
                assert(false);
            }
            if i > p {
                assert(!occurs_at(s, pat, p));
                assert(false);
            }
        },
        None => {
            assert(!occurs_at(s, pat, p));
            assert(false);
        },
    }
}

/// Reading back a rendered decimal number, with what follows it.
pub proof fn lemma_u32_roundtrip(n: u32, rest: Seq<char>)
    requires
        rest.len() > 0 ==> !is_digit(rest[0]),
    ensures
        sp_u32(dec_str(n as nat) + rest) == Some((n, rest)),
{
    let d = dec_str(n as nat);
    let s = d + rest;
    lemma_dec_str_digits(n as nat);
    lemma_digits_val_dec_str(n as nat);
    assert forall|i: int| 0 <= i < d.len() implies is_digit(#[trigger] s[i]) by {
        assert(s[i] == d[i]);
    }
    if d.len() < s.len() {
        assert(s[d.len() as int] == rest[0]);
    }
    lemma_digit_prefix_len_exact(s, d.len() as int);
    assert(s.take(d.len() as int) =~= d);
    assert(s.skip(d.len() as int) =~= rest);
    assert(digits_val(s.take(d.len() as int)) == n as nat);
}

} // verus!
