//! Line selectors: concrete, inspectable stand-ins for the keep-predicates
//! that drive filtering. A [`LineSet`] answers "is this absolute line number
//! selected?"; a [`PathFilter`] additionally discriminates by file path.

use vstd::prelude::*;

verus! {

/// Does some inclusive range in `v` contain `n`?
pub open spec fn ranges_contain(v: Seq<(u32, u32)>, n: u32) -> bool {
    exists|i: int| 0 <= i < v.len() && #[trigger] v[i].0 <= n && n <= v[i].1
}

/// A union of inclusive line-number ranges.
#[derive(Debug, Clone)]
pub struct LineSet {
    pub ranges: Vec<(u32, u32)>,
}

impl LineSet {
    /// Does the set select line `n`?
    pub open spec fn spec_contains(&self, n: u32) -> bool {
        ranges_contain(self.ranges@, n)
    }

    /// The selected line numbers, as a mathematical set.
    pub open spec fn sel(&self) -> Set<u32> {
        Set::new(|n: u32| self.spec_contains(n))
    }

    /// The empty selection.
    pub fn none() -> (r: Self)
        ensures
            forall|n: u32| !r.spec_contains(n),
            r.sel() =~= Set::<u32>::empty(),
    {
        LineSet { ranges: Vec::new() }
    }

    /// Every line number.
    pub fn all() -> (r: Self)
        ensures
            forall|n: u32| r.spec_contains(n),
            r.sel() =~= Set::<u32>::full(),
    {
        let mut v: Vec<(u32, u32)> = Vec::new();
        v.push((0, u32::MAX));
        let r = LineSet { ranges: v };
        proof {
            assert forall|n: u32| r.spec_contains(n) by {
                assert(r.ranges@[0].0 <= n && n <= r.ranges@[0].1);
            }
        }
        r
    }

    /// Exactly line `n`.
    pub fn single(n: u32) -> (r: Self)
        ensures
            forall|m: u32| r.spec_contains(m) <==> m == n,
            r.sel() =~= Set::<u32>::empty().insert(n),
    {
        let mut v: Vec<(u32, u32)> = Vec::new();
        v.push((n, n));
        let r = LineSet { ranges: v };
        proof {
            assert forall|m: u32| r.spec_contains(m) <==> m == n by {
                if m == n {
                    assert(r.ranges@[0].0 <= m && m <= r.ranges@[0].1);
                }
            }
        }
        r
    }

    /// The inclusive range `lo..=hi` (empty when `lo > hi`).
    pub fn span(lo: u32, hi: u32) -> (r: Self)
        ensures
            forall|m: u32| r.spec_contains(m) <==> lo <= m && m <= hi,
    {
        let mut v: Vec<(u32, u32)> = Vec::new();
        v.push((lo, hi));
        let r = LineSet { ranges: v };
        proof {
            assert forall|m: u32| r.spec_contains(m) <==> (lo <= m && m <= hi) by {
                if lo <= m && m <= hi {
                    assert(r.ranges@[0].0 <= m && m <= r.ranges@[0].1);
                }
            }
        }
        r
    }

    /// A selection from an explicit list of inclusive ranges.
    pub fn from_ranges(ranges: Vec<(u32, u32)>) -> (r: Self)
        ensures
            r.ranges@ == ranges@,
    {
        LineSet { ranges }
    }

    /// Membership test.
    pub fn contains(&self, n: u32) -> (r: bool)
        ensures
            r == self.spec_contains(n),
    {
        let mut i: usize = 0;
        while i < self.ranges.len()
            invariant
                0 <= i <= self.ranges@.len(),
                forall|j: int|
                    0 <= j < i ==> !(#[trigger] self.ranges@[j].0 <= n && n <= self.ranges@[j].1),
            decreases self.ranges@.len() - i,
        {
            let (lo, hi) = self.ranges[i];
            if lo <= n && n <= hi {
                return true;
            }
            i += 1;
        }
        false
    }
}

/// Does one of the first `k` entries of `entries` name `path` and select `n`?
pub open spec fn entries_select(
    entries: Seq<(String, LineSet)>,
    path: Seq<char>,
    k: int,
    n: u32,
) -> bool {
    exists|j: int|
        0 <= j < k && #[trigger] entries[j].0@ == path && entries[j].1.spec_contains(n)
}

/// A per-path line selection: either the same [`LineSet`] for every path, or
/// a list of `(path, lines)` pairs whose matching entries are unioned.
#[derive(Debug, Clone)]
pub enum PathFilter {
    AnyPath(LineSet),
    ByPath(Vec<(String, LineSet)>),
}

impl PathFilter {
    /// Does the filter select line `n` of the file at `path`?
    pub open spec fn spec_selects(&self, path: Seq<char>, n: u32) -> bool {
        match self {
            PathFilter::AnyPath(ls) => ls.spec_contains(n),
            PathFilter::ByPath(entries) => entries_select(entries@, path, entries@.len() as int, n),
        }
    }

    /// The line numbers selected for `path`, as a mathematical set.
    pub open spec fn sel_for(&self, path: Seq<char>) -> Set<u32> {
        Set::new(|n: u32| self.spec_selects(path, n))
    }

    /// Materialise the selection for one path as a [`LineSet`].
    pub fn line_set_for(&self, path: &String) -> (r: LineSet)
        ensures
            forall|n: u32| #[trigger] r.spec_contains(n) == self.spec_selects(path@, n),
            r.sel() =~= self.sel_for(path@),
    {
        let r = match self {
            PathFilter::AnyPath(ls) => LineSet { ranges: copy_ranges(&ls.ranges) },
            PathFilter::ByPath(entries) => {
                let mut out: Vec<(u32, u32)> = Vec::new();
                let mut i: usize = 0;
                while i < entries.len()
                    invariant
                        0 <= i <= entries@.len(),
                        forall|n: u32| #[trigger]
                            ranges_contain(out@, n) == entries_select(
                                entries@,
                                path@,
                                i as int,
                                n,
                            ),
                    decreases entries@.len() - i,
                {
                    let ghost old_out = out@;
                    if entries[i].0 == *path {
                        let rs = &entries[i].1.ranges;
                        let mut k: usize = 0;
                        while k < rs.len()
                            invariant
                                0 <= k <= rs@.len(),
                                out@ == old_out + rs@.take(k as int),
                            decreases rs@.len() - k,
                        {
                            let pair = rs[k];
                            out.push(pair);
                            proof {
                                assert(out@ =~= old_out + rs@.take(k + 1));
                            }
                            k += 1;
                        }
                        proof {
                            assert(out@ =~= old_out + entries@[i as int].1.ranges@);
                        }
                    }
                    proof {
                        let e = entries@[i as int];
                        assert forall|n: u32| #[trigger]
                            ranges_contain(out@, n) == entries_select(
                                entries@,
                                path@,
                                i + 1,
                                n,
                            ) by {
                            if ranges_contain(out@, n) {
                                let kk = choose|kk: int|
                                    0 <= kk < out@.len() && #[trigger] out@[kk].0 <= n && n
                                        <= out@[kk].1;
                                if kk < old_out.len() {
                                    assert(old_out[kk].0 <= n && n <= old_out[kk].1);
                                    assert(ranges_contain(old_out, n));
                                    assert(entries_select(entries@, path@, i as int, n));
                                } else {
                                    assert(e.0@ == path@);
                                    assert(e.1.ranges@[kk - old_out.len()].0 <= n && n <= e.1
                                        .ranges@[kk - old_out.len()].1);
                                    assert(e.1.spec_contains(n));
                                }
                            }
                            if entries_select(entries@, path@, i + 1, n) {
                                let j = choose|j: int|
                                    0 <= j < i + 1 && #[trigger] entries@[j].0@ == path@
                                        && entries@[j].1.spec_contains(n);
                                if j < i {
                                    assert(entries_select(entries@, path@, i as int, n));
                                    assert(ranges_contain(old_out, n));
                                    let kk = choose|kk: int|
                                        0 <= kk < old_out.len() && #[trigger] old_out[kk].0 <= n
                                            && n <= old_out[kk].1;
                                    assert(out@[kk].0 <= n && n <= out@[kk].1);
                                } else {
                                    assert(e.0@ == path@);
                                    let kk = choose|kk: int|
                                        0 <= kk < e.1.ranges@.len()
                                            && #[trigger] e.1.ranges@[kk].0 <= n && n <= e.1
                                            .ranges@[kk].1;
                                    assert(out@[old_out.len() + kk].0 <= n && n <= out@[old_out.len()
                                        + kk].1);
                                }
                            }
                        }
                    }
                    i += 1;
                }
                LineSet { ranges: out }
            },
        };
        proof {
            assert forall|n: u32| #[trigger] r.spec_contains(n) == self.spec_selects(
                path@,
                n,
            ) by {}
            assert(r.sel() =~= self.sel_for(path@));
        }
        r
    }
}

/// Copy a vector of ranges.
fn copy_ranges(v: &Vec<(u32, u32)>) -> (r: Vec<(u32, u32)>)
    ensures
        r@ == v@,
{
    let mut out: Vec<(u32, u32)> = Vec::new();
    let mut i: usize = 0;
    while i < v.len()
        invariant
            0 <= i <= v@.len(),
            out@ == v@.take(i as int),
        decreases v@.len() - i,
    {
        out.push(v[i]);
        proof {
            assert(out@ =~= v@.take(i + 1));
        }
        i += 1;
    }
    proof {
        assert(out@ =~= v@);
    }
    out
}

} // verus!
