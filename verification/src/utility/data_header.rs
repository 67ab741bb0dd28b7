use vstd::prelude::*;

use crate::utility::wire::{be_bytes, be_value, lemma_be_roundtrip, write_u64_be_to, write_u8_to};
use crate::utility::{CURRENT_VERSION, Occurences};

pub mod read_v1_0;
pub mod read_v1_1;

verus! {

/// How many counts a range `start..=end` covers (none when `start > end`).
pub open spec fn range_len(r: (u8, u8)) -> nat {
    if r.0 <= r.1 {
        (r.1 - r.0 + 1) as nat
    } else {
        0
    }
}

/// How many counts the ranges cover together.
pub open spec fn ranges_len(rs: Seq<(u8, u8)>) -> nat
    decreases rs.len(),
{
    if rs.len() == 0 {
        0
    } else {
        ranges_len(rs.drop_last()) + range_len(rs.last())
    }
}

/// 256 zero counts.
pub open spec fn zero_counts() -> Seq<u64> {
    Seq::new(256, |i: int| 0u64)
}

/// The counts that the ranges give: the list is read in order, each range
/// taking as many items as it covers; a later range overrides an earlier one.
pub open spec fn after_ranges(rs: Seq<(u8, u8)>, list: Seq<u64>) -> Seq<u64>
    decreases rs.len(),
{
    if rs.len() == 0 {
        zero_counts()
    } else {
        let t = after_ranges(rs.drop_last(), list);
        let off = ranges_len(rs.drop_last());
        let (s, e) = rs.last();
        Seq::new(256, |i: int| if s <= i <= e { list[off + i - s] } else { t[i] })
    }
}

/// The counts after the positional entries were written over `t`, in order.
pub open spec fn apply_positional(t: Seq<u64>, ps: Seq<(u8, u64)>) -> Seq<u64>
    decreases ps.len(),
{
    if ps.len() == 0 {
        t
    } else {
        apply_positional(t, ps.drop_last()).update(ps.last().0 as int, ps.last().1)
    }
}

/// The full count table that a range form stands for.
pub open spec fn full_from(rs: Seq<(u8, u8)>, list: Seq<u64>, ps: Seq<(u8, u64)>) -> Seq<u64> {
    apply_positional(after_ranges(rs, list), ps)
}

/// The state of the scan that turns a full count table into a range form:
/// the ranges, list and positional entries so far, and where the current
/// run of non-zero counts began, if one is open.
pub struct RangeScan {
    pub ranges: Seq<(u8, u8)>,
    pub list: Seq<u64>,
    pub positional: Seq<(u8, u64)>,
    pub start: Option<int>,
}

/// Closes the open run, which ended just before `i`: a run of one count
/// becomes a positional entry (its count leaves the list), a longer run a range.
pub open spec fn close_run(st: RangeScan, i: int) -> RangeScan {
    let s = st.start.unwrap();
    if s == i - 1 {
        RangeScan {
            ranges: st.ranges,
            list: st.list.drop_last(),
            positional: st.positional.push(((i - 1) as u8, st.list.last())),
            start: None,
        }
    } else {
        RangeScan {
            ranges: st.ranges.push((s as u8, (i - 1) as u8)),
            list: st.list,
            positional: st.positional,
            start: None,
        }
    }
}

/// One step of the scan, over the count `value` at index `i`.
pub open spec fn scan_step(st: RangeScan, i: int, value: u64) -> RangeScan {
    if value == 0 {
        if st.start is Some {
            close_run(st, i)
        } else {
            st
        }
    } else {
        RangeScan {
            ranges: st.ranges,
            list: st.list.push(value),
            positional: st.positional,
            start: if st.start is None {
                Some(i)
            } else {
                st.start
            },
        }
    }
}

/// The scan over the first `i` counts.
pub open spec fn scan(occ: Seq<u64>, i: int) -> RangeScan
    decreases i,
{
    if i <= 0 {
        RangeScan { ranges: Seq::empty(), list: Seq::empty(), positional: Seq::empty(), start: None }
    } else {
        scan_step(scan(occ, i - 1), i - 1, occ[i - 1])
    }
}

/// The range form of a full count table: maximal runs of non-zero counts,
/// those of two or more counts as ranges with their counts in the list,
/// single counts as positional entries.
pub open spec fn range_form(occ: Seq<u64>) -> RangeScan {
    let st = scan(occ, 256);
    if st.start is Some {
        close_run(st, 256)
    } else {
        st
    }
}

/// Where the scan has written the final counts: below the open run, or
/// below `i` when no run is open.
pub open spec fn settled(st: RangeScan, i: int) -> int {
    match st.start {
        Some(s) => s,
        None => i,
    }
}

/// What holds of the scan over the first `i` counts.
pub open spec fn scan_inv(occ: Seq<u64>, st: RangeScan, i: int) -> bool {
    &&& scan_core(occ, st, i)
    &&& 2 * (st.ranges.len() + st.positional.len()) <= settled(st, i)
}

/// What holds of the scan over the first `i` counts, but for its count of runs.
pub open spec fn scan_core(occ: Seq<u64>, st: RangeScan, i: int) -> bool {
    let lim = settled(st, i);
    &&& 0 <= lim <= i
    &&& st.list.len() <= i
    &&& (st.start is Some ==> lim < i && forall|j: int| lim <= j < i ==> occ[j] != 0)
    &&& st.list.len() == ranges_len(st.ranges) + (i - lim)
    &&& forall|j: int| lim <= j < i ==> st.list[ranges_len(st.ranges) + j - lim] == #[trigger] occ[j]
    &&& forall|j: int|
        0 <= j < 256 ==> #[trigger] full_from(st.ranges, st.list, st.positional)[j] == if j < lim {
            occ[j]
        } else {
            0
        }
    &&& forall|k: int| 0 <= k < st.positional.len() ==> (#[trigger] st.positional[k]).0 < lim
    &&& forall|k: int|
        0 <= k < st.ranges.len() ==> (#[trigger] st.ranges[k]).0 < st.ranges[k].1 && st.ranges[k].1
            < lim
}

pub proof fn lemma_apply_positional_len(t: Seq<u64>, ps: Seq<(u8, u64)>)
    requires
        t.len() == 256,
    ensures
        apply_positional(t, ps).len() == 256,
    decreases ps.len(),
{
    if ps.len() > 0 {
        lemma_apply_positional_len(t, ps.drop_last());
    }
}

pub proof fn lemma_after_ranges_len(rs: Seq<(u8, u8)>, list: Seq<u64>)
    ensures
        after_ranges(rs, list).len() == 256,
    decreases rs.len(),
{
    if rs.len() > 0 {
        lemma_after_ranges_len(rs.drop_last(), list);
    }
}

/// Positional entries at other places leave a count as it was; tables that
/// agree at a place still agree there after the same entries.
pub proof fn lemma_apply_positional_at(t1: Seq<u64>, t2: Seq<u64>, ps: Seq<(u8, u64)>, j: int)
    requires
        t1.len() == 256,
        t2.len() == 256,
        0 <= j < 256,
    ensures
        (forall|k: int| 0 <= k < ps.len() ==> (#[trigger] ps[k]).0 != j) ==> apply_positional(
            t1,
            ps,
        )[j] == t1[j],
        t1[j] == t2[j] ==> apply_positional(t1, ps)[j] == apply_positional(t2, ps)[j],
    decreases ps.len(),
{
    if ps.len() > 0 {
        lemma_apply_positional_at(t1, t2, ps.drop_last(), j);
        lemma_apply_positional_len(t1, ps.drop_last());
        lemma_apply_positional_len(t2, ps.drop_last());
        if forall|k: int| 0 <= k < ps.len() ==> (#[trigger] ps[k]).0 != j {
            assert forall|k: int| 0 <= k < ps.len() - 1 implies (#[trigger] ps.drop_last()[k]).0
                != j by {
                assert(ps.drop_last()[k] == ps[k]);
            }
            assert(ps[ps.len() - 1].0 != j);
        }
    }
}

/// The ranges read only the first `ranges_len` items of the list.
pub proof fn lemma_after_ranges_prefix(rs: Seq<(u8, u8)>, l1: Seq<u64>, l2: Seq<u64>)
    requires
        forall|k: int| 0 <= k < ranges_len(rs) ==> l1[k] == l2[k],
    ensures
        after_ranges(rs, l1) == after_ranges(rs, l2),
    decreases rs.len(),
{
    if rs.len() > 0 {
        lemma_after_ranges_prefix(rs.drop_last(), l1, l2);
        let off = ranges_len(rs.drop_last());
        let (s, e) = rs.last();
        assert forall|i: int| s <= i <= e implies #[trigger] l1[off + i - s] == l2[off + i - s] by {
            assert(off + i - s < ranges_len(rs));
        }
        assert(after_ranges(rs, l1) =~= after_ranges(rs, l2));
    }
}

proof fn lemma_scan_close(occ: Seq<u64>, st: RangeScan, i: int)
    requires
        occ.len() == 256,
        0 < i <= 256,
        scan_inv(occ, st, i),
        st.start is Some,
    ensures
        scan_core(occ, close_run(st, i), i),
        close_run(st, i).start is None,
        close_run(st, i).ranges.len() + close_run(st, i).positional.len() == st.ranges.len()
            + st.positional.len() + 1,
{
    let s = st.start.unwrap();
    let r = ranges_len(st.ranges);
    let nst = close_run(st, i);
    lemma_after_ranges_len(st.ranges, st.list);
    lemma_after_ranges_len(nst.ranges, nst.list);
    let old_full = full_from(st.ranges, st.list, st.positional);
    if s == i - 1 {
        assert(st.list.last() == occ[i - 1]) by {
            assert(st.list[r + (i - 1) - s] == occ[i - 1]);
        }
        lemma_after_ranges_prefix(st.ranges, st.list, nst.list);
        assert(nst.positional.drop_last() =~= st.positional);
        assert(nst.positional.last() == ((i - 1) as u8, occ[i - 1]));
        assert forall|j: int| 0 <= j < 256 implies #[trigger] full_from(
            nst.ranges,
            nst.list,
            nst.positional,
        )[j] == if j < i {
            occ[j]
        } else {
            0
        } by {
            lemma_apply_positional_len(after_ranges(st.ranges, st.list), st.positional);
            if j != i - 1 {
                assert(old_full[j] == if j < s { occ[j] } else { 0 });
            }
        }
        assert forall|k: int| 0 <= k < nst.positional.len() implies (
        #[trigger] nst.positional[k]).0 < i by {
            if k < st.positional.len() {
                assert(nst.positional[k] == st.positional[k]);
            }
        }
    } else {
        let t_old = after_ranges(st.ranges, st.list);
        let t_new = after_ranges(nst.ranges, nst.list);
        assert(nst.ranges.drop_last() =~= st.ranges);
        assert forall|j: int| 0 <= j < 256 implies #[trigger] full_from(
            nst.ranges,
            nst.list,
            nst.positional,
        )[j] == if j < i {
            occ[j]
        } else {
            0
        } by {
            if s <= j < i {
                assert(t_new[j] == st.list[r + j - s]);
                assert(st.list[r + j - s] == occ[j]);
                assert forall|k: int| 0 <= k < st.positional.len() implies (
                #[trigger] st.positional[k]).0 != j by {}
                lemma_apply_positional_at(t_new, t_new, st.positional, j);
            } else {
                assert(t_new[j] == t_old[j]);
                lemma_apply_positional_at(t_new, t_old, st.positional, j);
            }
        }
        assert forall|k: int| 0 <= k < nst.ranges.len() implies (#[trigger] nst.ranges[k]).0
            < nst.ranges[k].1 && nst.ranges[k].1 < i by {
            if k < st.ranges.len() {
                assert(nst.ranges[k] == st.ranges[k]);
            }
        }
        assert(ranges_len(nst.ranges) == r + (i - s));
    }
}

/// The invariant of the scan holds after each step.
pub proof fn lemma_scan_inv(occ: Seq<u64>, i: int)
    requires
        occ.len() == 256,
        0 <= i <= 256,
    ensures
        scan_inv(occ, scan(occ, i), i),
    decreases i,
{
    if i > 0 {
        lemma_scan_inv(occ, i - 1);
        let st = scan(occ, i - 1);
        let v = occ[i - 1];
        lemma_after_ranges_len(st.ranges, st.list);
        let nst = scan(occ, i);
        assert(nst == scan_step(st, i - 1, v));
        if v == 0 {
            if st.start is Some {
                lemma_scan_close(occ, st, i - 1);
                assert(nst == close_run(st, i - 1));
                assert forall|j: int| 0 <= j < 256 implies #[trigger] full_from(
                    nst.ranges,
                    nst.list,
                    nst.positional,
                )[j] == if j < i {
                    occ[j]
                } else {
                    0
                } by {}
                assert(scan_core(occ, nst, i));
            } else {
                assert(nst == st);
                assert(scan_core(occ, nst, i));
            }
        } else {
            lemma_after_ranges_prefix(st.ranges, st.list, nst.list);
            assert(full_from(nst.ranges, nst.list, nst.positional) == full_from(
                st.ranges,
                st.list,
                st.positional,
            ));
            let lim = settled(nst, i);
            let r = ranges_len(nst.ranges);
            if st.start is Some {
                assert forall|j: int| lim <= j < i implies nst.list[r + j - lim] == #[trigger] occ[j] by {
                    if j < i - 1 {
                        assert(nst.list[r + j - lim] == st.list[r + j - lim]);
                    }
                }
            } else {
                assert(lim == i - 1);
                assert forall|j: int| lim <= j < i implies nst.list[r + j - lim] == #[trigger] occ[j] by {
                    assert(j == i - 1);
                    assert(nst.list[r as int] == v);
                }
            }
            assert(scan_core(occ, nst, i));
        }
    }
}

/// The range form of a full count table stands for that table.
pub proof fn lemma_range_form_roundtrip(occ: Seq<u64>)
    requires
        occ.len() == 256,
    ensures
        full_from(range_form(occ).ranges, range_form(occ).list, range_form(occ).positional)
            == occ,
        range_form(occ).list.len() == ranges_len(range_form(occ).ranges),
        range_form(occ).list.len() <= 256,
        range_form(occ).ranges.len() + range_form(occ).positional.len() <= 128,
        forall|k: int|
            0 <= k < range_form(occ).ranges.len() ==> (#[trigger] range_form(occ).ranges[k]).0
                < range_form(occ).ranges[k].1,
{
    lemma_scan_inv(occ, 256);
    let st = scan(occ, 256);
    let f = range_form(occ);
    if st.start is Some {
        lemma_scan_close(occ, st, 256);
    }
    lemma_after_ranges_len(f.ranges, f.list);
    lemma_apply_positional_len(after_ranges(f.ranges, f.list), f.positional);
    assert(full_from(f.ranges, f.list, f.positional) =~= occ);
}

/// The counts from `s` to `e` form a maximal run of non-zero counts.
pub open spec fn is_run(occ: Seq<u64>, s: int, e: int) -> bool {
    &&& 0 <= s <= e < 256
    &&& forall|j: int| s <= j <= e ==> #[trigger] occ[j] != 0
    &&& (s == 0 || occ[s - 1] == 0)
    &&& (e == 255 || occ[e + 1] == 0)
}

/// The ranges of `st` are maximal runs of two or more counts, its positional
/// entries maximal runs of one count with that count, both in increasing
/// order, and every maximal run that ends before `lim` is one of them.
pub open spec fn runs_described(occ: Seq<u64>, st: RangeScan, lim: int) -> bool {
    &&& forall|k: int|
        0 <= k < st.ranges.len() ==> st.ranges[k].0 < st.ranges[k].1 && is_run(
            occ,
            (#[trigger] st.ranges[k]).0 as int,
            st.ranges[k].1 as int,
        )
    &&& forall|k: int|
        0 <= k < st.positional.len() ==> is_run(
            occ,
            (#[trigger] st.positional[k]).0 as int,
            st.positional[k].0 as int,
        ) && st.positional[k].1 == occ[st.positional[k].0 as int]
    &&& forall|k: int, m: int|
        0 <= k < m < st.ranges.len() ==> (#[trigger] st.ranges[k]).1 < (#[trigger] st.ranges[m]).0
    &&& forall|k: int, m: int|
        0 <= k < m < st.positional.len() ==> (#[trigger] st.positional[k]).0 < (
        #[trigger] st.positional[m]).0
    &&& forall|a: int, e: int|
        #[trigger] is_run(occ, a, e) && e < lim ==> (a < e ==> exists|k: int|
            0 <= k < st.ranges.len() && #[trigger] st.ranges[k] == (a as u8, e as u8)) && (a == e
            ==> exists|k: int|
            0 <= k < st.positional.len() && #[trigger] st.positional[k] == (a as u8, occ[a]))
}

/// What the scan over the first `i` counts has described.
pub open spec fn scan_shape(occ: Seq<u64>, st: RangeScan, i: int) -> bool {
    &&& runs_described(occ, st, settled(st, i))
    &&& (st.start is None && i > 0 ==> occ[i - 1] == 0)
    &&& (st.start matches Some(s) ==> s == 0 || occ[s - 1] == 0)
}

/// Two maximal runs that share a count are the same run.
proof fn lemma_runs_equal(occ: Seq<u64>, a: int, e: int, b: int, f: int, j: int)
    requires
        is_run(occ, a, e),
        is_run(occ, b, f),
        a <= j <= e,
        b <= j <= f,
    ensures
        a == b && e == f,
{
    if a < b {
        assert(occ[b - 1] != 0);
    }
    if b < a {
        assert(occ[a - 1] != 0);
    }
    if e < f {
        assert(occ[e + 1] != 0);
    }
    if f < e {
        assert(occ[f + 1] != 0);
    }
}

/// Closing the open run `s` just before the zero count at `c` keeps the
/// description, which then reaches `c + 1`.
#[verifier::spinoff_prover]
proof fn lemma_shape_close(occ: Seq<u64>, st: RangeScan, c: int)
    requires
        occ.len() == 256,
        0 < c <= 256,
        scan_inv(occ, st, c),
        scan_shape(occ, st, c),
        st.start is Some,
        c == 256 || occ[c] == 0,
    ensures
        runs_described(occ, close_run(st, c), c + 1),
{
    let s = st.start.unwrap();
    let nst = close_run(st, c);
    assert(is_run(occ, s, c - 1)) by {
        assert forall|j: int| s <= j <= c - 1 implies #[trigger] occ[j] != 0 by {}
    }
    if s == c - 1 {
        let r = ranges_len(st.ranges);
        assert(st.list.last() == occ[c - 1]) by {
            assert(st.list[r + (c - 1) - s] == occ[c - 1]);
        }
        assert(nst.positional.last() == ((c - 1) as u8, occ[c - 1]));
        assert forall|k: int| 0 <= k < nst.positional.len() implies is_run(
            occ,
            (#[trigger] nst.positional[k]).0 as int,
            nst.positional[k].0 as int,
        ) && nst.positional[k].1 == occ[nst.positional[k].0 as int] by {
            if k < st.positional.len() {
                assert(nst.positional[k] == st.positional[k]);
            }
        }
        assert forall|k: int, m: int| 0 <= k < m < nst.positional.len() implies (
        #[trigger] nst.positional[k]).0 < (#[trigger] nst.positional[m]).0 by {
            assert(nst.positional[k] == st.positional[k]);
            if m < st.positional.len() {
                assert(nst.positional[m] == st.positional[m]);
            }
        }
        assert forall|a: int, e: int| #[trigger] is_run(occ, a, e) && e < c + 1 implies (a < e
            ==> exists|k: int|
            0 <= k < nst.ranges.len() && #[trigger] nst.ranges[k] == (a as u8, e as u8)) && (a
            == e ==> exists|k: int|
            0 <= k < nst.positional.len() && #[trigger] nst.positional[k] == (a as u8, occ[a])) by {
            if e >= s {
                if e == c {
                    assert(occ[c] != 0);
                }
                lemma_runs_equal(occ, a, e, s, c - 1, e);
                assert(nst.positional[nst.positional.len() - 1] == (a as u8, occ[a]));
            } else {
                assert(e < settled(st, c));
                if a == e {
                    let k = choose|k: int|
                        0 <= k < st.positional.len() && #[trigger] st.positional[k] == (
                        a as u8,
                        occ[a],
                    );
                    assert(nst.positional[k] == st.positional[k]);
                } else {
                    let k = choose|k: int|
                        0 <= k < st.ranges.len() && #[trigger] st.ranges[k] == (a as u8, e as u8);
                    assert(nst.ranges[k] == st.ranges[k]);
                }
            }
        }
    } else {
        assert(nst.ranges.last() == (s as u8, (c - 1) as u8));
        assert forall|k: int| 0 <= k < nst.ranges.len() implies nst.ranges[k].0 < nst.ranges[k].1
            && is_run(
            occ,
            (#[trigger] nst.ranges[k]).0 as int,
            nst.ranges[k].1 as int,
        ) by {
            if k < st.ranges.len() {
                assert(nst.ranges[k] == st.ranges[k]);
            }
        }
        assert forall|k: int, m: int| 0 <= k < m < nst.ranges.len() implies (
        #[trigger] nst.ranges[k]).1 < (#[trigger] nst.ranges[m]).0 by {
            assert(nst.ranges[k] == st.ranges[k]);
            if m < st.ranges.len() {
                assert(nst.ranges[m] == st.ranges[m]);
            }
        }
        assert forall|a: int, e: int| #[trigger] is_run(occ, a, e) && e < c + 1 implies (a < e
            ==> exists|k: int|
            0 <= k < nst.ranges.len() && #[trigger] nst.ranges[k] == (a as u8, e as u8)) && (a
            == e ==> exists|k: int|
            0 <= k < nst.positional.len() && #[trigger] nst.positional[k] == (a as u8, occ[a])) by {
            if e >= s {
                if e == c {
                    assert(occ[c] != 0);
                }
                lemma_runs_equal(occ, a, e, s, c - 1, e);
                assert(nst.ranges[nst.ranges.len() - 1] == (a as u8, e as u8));
            } else {
                assert(e < settled(st, c));
                if a < e {
                    let k = choose|k: int|
                        0 <= k < st.ranges.len() && #[trigger] st.ranges[k] == (a as u8, e as u8);
                    assert(nst.ranges[k] == st.ranges[k]);
                } else {
                    let k = choose|k: int|
                        0 <= k < st.positional.len() && #[trigger] st.positional[k] == (
                        a as u8,
                        occ[a],
                    );
                    assert(nst.positional[k] == st.positional[k]);
                }
            }
        }
    }
}

/// The scan describes the runs it has passed.
proof fn lemma_scan_shape(occ: Seq<u64>, i: int)
    requires
        occ.len() == 256,
        0 <= i <= 256,
    ensures
        scan_shape(occ, scan(occ, i), i),
    decreases i,
{
    if i > 0 {
        lemma_scan_shape(occ, i - 1);
        lemma_scan_inv(occ, i - 1);
        let st = scan(occ, i - 1);
        let v = occ[i - 1];
        let nst = scan(occ, i);
        assert(nst == scan_step(st, i - 1, v));
        if v == 0 {
            if st.start is Some {
                lemma_shape_close(occ, st, i - 1);
                assert(nst == close_run(st, i - 1));
            } else {
                assert(nst == st);
                assert forall|a: int, e: int| #[trigger] is_run(occ, a, e) && e < i implies e < i
                    - 1 by {
                    if e == i - 1 {
                        assert(occ[e] != 0);
                    }
                }
                assert(runs_described(occ, nst, i));
            }
        } else {
            assert(nst.ranges == st.ranges && nst.positional == st.positional);
            assert(settled(nst, i) == settled(st, i - 1));
            assert(runs_described(occ, nst, settled(nst, i)));
        }
    }
}

/// The range form says directly what it holds: its ranges are the maximal
/// runs of two or more non-zero counts and its positional entries the
/// maximal runs of a single count, with that count, both in increasing
/// order; its list has a count for each position of its ranges and, placed
/// there, gives the table back.
pub proof fn lemma_range_form_runs(occ: Seq<u64>)
    requires
        occ.len() == 256,
    ensures
        runs_described(occ, range_form(occ), 256),
        range_form(occ).list.len() == ranges_len(range_form(occ).ranges),
        full_from(range_form(occ).ranges, range_form(occ).list, range_form(occ).positional)
            == occ,
{
    lemma_range_form_roundtrip(occ);
    lemma_scan_shape(occ, 256);
    lemma_scan_inv(occ, 256);
    let st = scan(occ, 256);
    if st.start is Some {
        lemma_shape_close(occ, st, 256);
    }
}

/// The counts of a table, either in full or in range form.
#[derive(Debug, Clone, PartialEq)]
pub enum OccurrenceType {
    FullList { list: Occurences },
    RangeList { ranges: Vec<(u8, u8)>, list: Vec<u64>, positional_list: Vec<(u8, u64)> },
}

/// The sum of the range lengths of the first `k` ranges grows with `k`.
proof fn lemma_ranges_len_take(rs: Seq<(u8, u8)>, k: int)
    requires
        0 <= k <= rs.len(),
    ensures
        ranges_len(rs.take(k)) <= ranges_len(rs),
    decreases rs.len() - k,
{
    if k < rs.len() {
        lemma_ranges_len_take(rs, k + 1);
        assert(rs.take(k + 1).drop_last() =~= rs.take(k));
    } else {
        assert(rs.take(k) =~= rs);
    }
}

impl OccurrenceType {
    /// The full count table that the value stands for.
    pub open spec fn counts(self) -> Seq<u64> {
        match self {
            OccurrenceType::FullList { list } => list@,
            OccurrenceType::RangeList { ranges, list, positional_list } => full_from(
                ranges@,
                list@,
                positional_list@,
            ),
        }
    }

    /// A range form has enough list items for its ranges.
    pub open spec fn complete(self) -> bool {
        match self {
            OccurrenceType::FullList { .. } => true,
            OccurrenceType::RangeList { ranges, list, .. } => ranges_len(ranges@) <= list@.len(),
        }
    }

    /// The range form of `occ`, as the scan gives it.
    pub open spec fn is_range_form_of(self, occ: Seq<u64>) -> bool {
        match self {
            OccurrenceType::FullList { .. } => false,
            OccurrenceType::RangeList { ranges, list, positional_list } => {
                let f = range_form(occ);
                &&& ranges@ == f.ranges
                &&& list@ == f.list
                &&& positional_list@ == f.positional
            },
        }
    }

    pub fn new(list: Occurences) -> (occurrence_type: Self)
        ensures
            occurrence_type == (OccurrenceType::FullList { list }),
    {
        Self::FullList { list }
    }

    /// Turns a range form into the full table it stands for.
    pub fn convert_to_full_list(&mut self)
        requires
            old(self).complete(),
        ensures
            *final(self) is FullList,
            final(self).counts() == old(self).counts(),
    {
        match self {
            Self::FullList { .. } => (),
            Self::RangeList { .. } => self.convert_from_range_list_to_full_list(),
        }
    }

    /// Turns a full table into its range form.
    pub fn convert_to_range_list(&mut self)
        ensures
            *old(self) is FullList ==> final(self).is_range_form_of(old(self).counts()),
            *old(self) is RangeList ==> *final(self) == *old(self),
    {
        match self {
            Self::FullList { .. } => self.convert_from_full_list_to_range_list(),
            Self::RangeList { .. } => (),
        }
    }

    fn convert_from_range_list_to_full_list(&mut self)
        requires
            *old(self) is RangeList,
            old(self).complete(),
        ensures
            *final(self) is FullList,
            final(self).counts() == old(self).counts(),
    {
        let occurences = match &*self {
            Self::RangeList { ranges, list, positional_list } => counts_from_ranges(
                ranges,
                list,
                positional_list,
            ),
            Self::FullList { list } => *list,
        };
        *self = Self::FullList { list: occurences };
    }

    fn convert_from_full_list_to_range_list(&mut self)
        requires
            *old(self) is FullList,
        ensures
            final(self).is_range_form_of(old(self).counts()),
    {
        let occurences = match &*self {
            Self::FullList { list } => *list,
            Self::RangeList { .. } => [0u64; 256],
        };
        let ghost occ = occurences@;
        let mut ranges: Vec<(u8, u8)> = Vec::new();
        let mut list: Vec<u64> = Vec::new();
        let mut positional_list: Vec<(u8, u64)> = Vec::new();
        let mut current_range_start: Option<usize> = None;
        let mut i: usize = 0;
        while i < 256
            invariant
                i <= 256,
                occ.len() == 256,
                occ == occurences@,
                ranges@ == scan(occ, i as int).ranges,
                list@ == scan(occ, i as int).list,
                positional_list@ == scan(occ, i as int).positional,
                match current_range_start {
                    Some(s) => scan(occ, i as int).start == Some(s as int),
                    None => scan(occ, i as int).start is None,
                },
            decreases 256 - i,
        {
            proof {
                lemma_scan_inv(occ, i as int);
            }
            let current_value = occurences[i];
            if current_value == 0 {
                match current_range_start {
                    Some(start) => {
                        if start == i - 1 {
                            let value = list.pop().unwrap();
                            positional_list.push(((i - 1) as u8, value));
                        } else {
                            ranges.push((start as u8, (i - 1) as u8));
                        }
                        current_range_start = None;
                    },
                    None => {},
                }
            } else {
                list.push(occurences[i]);
                if current_range_start.is_none() {
                    current_range_start = Some(i);
                }
            }
            i = i + 1;
        }
        proof {
            lemma_scan_inv(occ, 256);
        }
        // a run that reaches the last count is closed as well
        match current_range_start {
            Some(start) => {
                if start == 255 {
                    let value = list.pop().unwrap();
                    positional_list.push((255u8, value));
                } else {
                    ranges.push((start as u8, 255u8));
                }
            },
            None => {},
        }
        *self = Self::RangeList { ranges, list, positional_list };
    }

    /// The number of bytes the counts take in a header.
    pub fn size(&self) -> (size: usize)
        requires
            match *self {
                OccurrenceType::FullList { .. } => true,
                OccurrenceType::RangeList { ranges, list, positional_list } => 2 + 2
                    * ranges@.len() + 8 * list@.len() + 9 * positional_list@.len() <= usize::MAX,
            },
        ensures
            size == match *self {
                OccurrenceType::FullList { .. } => 2048,
                OccurrenceType::RangeList { ranges, list, positional_list } => 2 + 2
                    * ranges@.len() + 8 * list@.len() + 9 * positional_list@.len(),
            },
    {
        match self {
            Self::FullList { .. } => 8 * 256,
            Self::RangeList { ranges, list, positional_list } => {
                1 + (2 * ranges.len()) + (8 * list.len()) + 1 + (9 * positional_list.len())
            },
        }
    }
}

/// Converting a full count table to its range form and back gives the table
/// again: the range form has a count for each position of its ranges, and
/// stands for the table.
pub proof fn lemma_occurrence_type_roundtrip(list: Occurences, ranged: OccurrenceType)
    requires
        ranged.is_range_form_of(list@),
    ensures
        ranged.complete(),
        ranged.counts() == list@,
{
    lemma_range_form_roundtrip(list@);
}

/// The full table of a range form.
fn counts_from_ranges(
    ranges: &Vec<(u8, u8)>,
    list: &Vec<u64>,
    positional_list: &Vec<(u8, u64)>,
) -> (occurences: Occurences)
    requires
        ranges_len(ranges@) <= list@.len(),
    ensures
        occurences@ == full_from(ranges@, list@, positional_list@),
{
    let mut occurences: Occurences = [0u64; 256];
    let list_len = list.len();
    let mut list_offset: usize = 0;
    let mut k: usize = 0;
    proof {
        assert(ranges@.take(0) =~= Seq::<(u8, u8)>::empty());
        assert(occurences@ =~= zero_counts());
    }
    while k < ranges.len()
        invariant
            k <= ranges@.len(),
            ranges_len(ranges@) <= list@.len(),
            list_len == list@.len(),
            occurences@ == after_ranges(ranges@.take(k as int), list@),
            list_offset == ranges_len(ranges@.take(k as int)),
        decreases ranges@.len() - k,
    {
        let ghost before = occurences@;
        proof {
            lemma_ranges_len_take(ranges@, k as int + 1);
            assert(ranges@.take(k as int + 1).drop_last() =~= ranges@.take(k as int));
            assert(ranges@.take(k as int + 1).last() == ranges@[k as int]);
            lemma_after_ranges_len(ranges@.take(k as int), list@);
        }
        let (start, end) = ranges[k];
        let mut i: usize = start as usize;
        while i <= end as usize
            invariant
                start <= end ==> start <= i <= end as int + 1,
                start > end ==> i == start,
                i <= 256,
                list_offset == ranges_len(ranges@.take(k as int)),
                ranges_len(ranges@.take(k as int + 1)) <= list@.len(),
                list_len == list@.len(),
                ranges_len(ranges@.take(k as int + 1)) == list_offset + range_len((start, end)),
                before.len() == 256,
                occurences@ == Seq::new(
                    256,
                    |j: int|
                        if start <= j < i {
                            list@[list_offset + j - start]
                        } else {
                            before[j]
                        },
                ),
            decreases end as int + 1 - i,
        {
            assert(i - start < range_len((start, end)));
            let offset: usize = i - start as usize;
            assert(list_offset + offset < list@.len());
            let index: usize = list_offset + offset;
            occurences[i] = list[index];
            i = i + 1;
        }
        let covered: usize = if start <= end {
            (end - start) as usize + 1
        } else {
            0
        };
        assert(list_offset + covered <= list@.len());
        list_offset = list_offset + covered;
        k = k + 1;
        proof {
            assert(occurences@ =~= after_ranges(ranges@.take(k as int), list@));
        }
    }
    proof {
        assert(ranges@.take(k as int) =~= ranges@);
        lemma_after_ranges_len(ranges@, list@);
    }
    let ghost base = occurences@;
    let mut k: usize = 0;
    while k < positional_list.len()
        invariant
            k <= positional_list@.len(),
            base.len() == 256,
            occurences@ == apply_positional(base, positional_list@.take(k as int)),
        decreases positional_list@.len() - k,
    {
        proof {
            assert(positional_list@.take(k as int + 1).drop_last() =~= positional_list@.take(
                k as int,
            ));
        }
        let (position, value) = positional_list[k];
        occurences[position as usize] = value;
        k = k + 1;
    }
    proof {
        assert(positional_list@.take(k as int) =~= positional_list@);
    }
    occurences
}

/// The bytes of a list of ranges: start and end of each.
pub open spec fn range_bytes(rs: Seq<(u8, u8)>) -> Seq<u8>
    decreases rs.len(),
{
    if rs.len() == 0 {
        Seq::empty()
    } else {
        range_bytes(rs.drop_last()) + seq![rs.last().0, rs.last().1]
    }
}

/// The bytes of a list of counts: eight big-endian bytes each.
pub open spec fn list_bytes(l: Seq<u64>) -> Seq<u8>
    decreases l.len(),
{
    if l.len() == 0 {
        Seq::empty()
    } else {
        list_bytes(l.drop_last()) + be_bytes(l.last())
    }
}

/// The bytes of positional entries: the place, then the count in eight big-endian bytes.
pub open spec fn positional_bytes(ps: Seq<(u8, u64)>) -> Seq<u8>
    decreases ps.len(),
{
    if ps.len() == 0 {
        Seq::empty()
    } else {
        positional_bytes(ps.drop_last()) + seq![ps.last().0] + be_bytes(ps.last().1)
    }
}

/// The header of the current version for a count table and a number of
/// encoded bytes: version, number of ranges, ranges, list, number of
/// positional entries, positional entries, number of encoded bytes.
pub open spec fn header_bytes(occ: Seq<u64>, data_amount: u64) -> Seq<u8> {
    let f = range_form(occ);
    seq![CURRENT_VERSION, f.ranges.len() as u8] + range_bytes(f.ranges) + list_bytes(f.list)
        + seq![f.positional.len() as u8] + positional_bytes(f.positional) + be_bytes(data_amount)
}

/// What a header says.
pub struct HeaderView {
    pub version: u8,
    pub occurences: Seq<u64>,
    pub data_amount: u64,
}

/// Why a header could not be read.
#[derive(Debug, Clone, Copy, PartialEq, Eq, Structural)]
pub enum HeaderError {
    /// The input ends inside the header.
    Truncated,
    /// The version byte is 0, which no version has.
    ZeroVersion,
    /// The version is newer than this library reads.
    NewerVersion(u8),
    /// A range ends before it starts.
    BadRange,
}

/// Reading a header of version 1: 256 counts and the number of encoded
/// bytes, each in eight big-endian bytes.
pub open spec fn parse_v1(b: Seq<u8>) -> Result<HeaderView, HeaderError> {
    if b.len() < 2057 {
        Err(HeaderError::Truncated)
    } else {
        Ok(
            HeaderView {
                version: b[0],
                occurences: Seq::new(256, |k: int| be_value(b.subrange(1 + 8 * k, 9 + 8 * k))),
                data_amount: be_value(b.subrange(2049, 2057)),
            },
        )
    }
}

/// The ranges of a header of version 2.
pub open spec fn v2_ranges(b: Seq<u8>) -> Seq<(u8, u8)> {
    Seq::new(b[1] as nat, |k: int| (b[2 + 2 * k], b[3 + 2 * k]))
}

/// Where the list of a header of version 2 starts.
pub open spec fn v2_list_start(b: Seq<u8>) -> int {
    2 + 2 * b[1]
}

/// Where the positional entries of a header of version 2 start.
pub open spec fn v2_positional_start(b: Seq<u8>) -> int {
    v2_list_start(b) + 8 * ranges_len(v2_ranges(b)) + 1
}

/// Reading a header of version 2.
pub open spec fn parse_v2(b: Seq<u8>) -> Result<HeaderView, HeaderError> {
    if b.len() < 2 || v2_list_start(b) > b.len() {
        Err(HeaderError::Truncated)
    } else if exists|k: int| 0 <= k < b[1] && #[trigger] v2_ranges(b)[k].0 > v2_ranges(b)[k].1 {
        Err(HeaderError::BadRange)
    } else if v2_positional_start(b) > b.len() {
        Err(HeaderError::Truncated)
    } else {
        let rs = v2_ranges(b);
        let lb = v2_list_start(b);
        let pb = v2_positional_start(b);
        let p = b[pb - 1];
        if pb + 9 * p + 8 > b.len() {
            Err(HeaderError::Truncated)
        } else {
            let list = Seq::new(
                ranges_len(rs),
                |k: int| be_value(b.subrange(lb + 8 * k, lb + 8 * k + 8)),
            );
            let ps = Seq::new(
                p as nat,
                |k: int| (b[pb + 9 * k], be_value(b.subrange(pb + 9 * k + 1, pb + 9 * k + 9))),
            );
            Ok(
                HeaderView {
                    version: b[0],
                    occurences: full_from(rs, list, ps),
                    data_amount: be_value(b.subrange(pb + 9 * p, pb + 9 * p + 8)),
                },
            )
        }
    }
}

/// Reading a header of any version.
pub open spec fn parse_header(b: Seq<u8>) -> Result<HeaderView, HeaderError> {
    if b.len() == 0 {
        Err(HeaderError::Truncated)
    } else if b[0] == 0 {
        Err(HeaderError::ZeroVersion)
    } else if b[0] == 1 {
        parse_v1(b)
    } else if b[0] == 2 {
        parse_v2(b)
    } else {
        Err(HeaderError::NewerVersion(b[0]))
    }
}

/// The header at the start of an encoded file.
pub struct DataHeader {
    pub version: u8,
    pub occurences: Occurences,
    pub data_amount: u64,
}

impl View for DataHeader {
    type V = HeaderView;

    open spec fn view(&self) -> HeaderView {
        HeaderView {
            version: self.version,
            occurences: self.occurences@,
            data_amount: self.data_amount,
        }
    }
}

proof fn lemma_range_bytes(rs: Seq<(u8, u8)>)
    ensures
        range_bytes(rs).len() == 2 * rs.len(),
        forall|k: int|
            0 <= k < rs.len() ==> range_bytes(rs)[2 * k] == (#[trigger] rs[k]).0 && range_bytes(
                rs,
            )[2 * k + 1] == rs[k].1,
    decreases rs.len(),
{
    if rs.len() > 0 {
        lemma_range_bytes(rs.drop_last());
        assert forall|k: int| 0 <= k < rs.len() implies range_bytes(rs)[2 * k] == (
        #[trigger] rs[k]).0 && range_bytes(rs)[2 * k + 1] == rs[k].1 by {
            if k < rs.len() - 1 {
                assert(rs.drop_last()[k] == rs[k]);
            }
        }
    }
}

proof fn lemma_list_bytes(l: Seq<u64>)
    ensures
        list_bytes(l).len() == 8 * l.len(),
        forall|k: int|
            0 <= k < l.len() ==> list_bytes(l).subrange(8 * k, 8 * k + 8) == be_bytes(
                #[trigger] l[k],
            ),
    decreases l.len(),
{
    if l.len() > 0 {
        let init = l.drop_last();
        lemma_list_bytes(init);
        lemma_be_roundtrip(l.last());
        assert forall|k: int| 0 <= k < l.len() implies list_bytes(l).subrange(8 * k, 8 * k + 8)
            == be_bytes(#[trigger] l[k]) by {
            if k < l.len() - 1 {
                assert(init[k] == l[k]);
                assert(list_bytes(l).subrange(8 * k, 8 * k + 8) =~= list_bytes(init).subrange(
                    8 * k,
                    8 * k + 8,
                ));
            } else {
                assert(list_bytes(l).subrange(8 * k, 8 * k + 8) =~= be_bytes(l.last()));
            }
        }
    }
}

#[verifier::spinoff_prover]
proof fn lemma_positional_bytes(ps: Seq<(u8, u64)>)
    ensures
        positional_bytes(ps).len() == 9 * ps.len(),
        forall|k: int|
            0 <= k < ps.len() ==> positional_bytes(ps)[9 * k] == (#[trigger] ps[k]).0
                && positional_bytes(ps).subrange(9 * k + 1, 9 * k + 9) == be_bytes(ps[k].1),
    decreases ps.len(),
{
    if ps.len() > 0 {
        let init = ps.drop_last();
        lemma_positional_bytes(init);
        lemma_be_roundtrip(ps.last().1);
        assert forall|k: int| 0 <= k < ps.len() implies positional_bytes(ps)[9 * k] == (
        #[trigger] ps[k]).0 && positional_bytes(ps).subrange(9 * k + 1, 9 * k + 9) == be_bytes(
            ps[k].1,
        ) by {
            if k < ps.len() - 1 {
                assert(init[k] == ps[k]);
                assert(positional_bytes(ps).subrange(9 * k + 1, 9 * k + 9) =~= positional_bytes(
                    init,
                ).subrange(9 * k + 1, 9 * k + 9));
            } else {
                assert(positional_bytes(ps).subrange(9 * k + 1, 9 * k + 9) =~= be_bytes(
                    ps.last().1,
                ));
            }
        }
    }
}

/// The number of bytes of the header of a count table.
pub open spec fn header_len(occ: Seq<u64>) -> nat {
    let f = range_form(occ);
    11 + 2 * f.ranges.len() + 8 * f.list.len() + 9 * f.positional.len()
}

/// Where the parts of a written header stand.
#[verifier::spinoff_prover]
proof fn lemma_header_layout(occ: Seq<u64>, data_amount: u64, rest: Seq<u8>)
    requires
        occ.len() == 256,
    ensures
        ({
            let f = range_form(occ);
            let b = header_bytes(occ, data_amount) + rest;
            let r = f.ranges.len() as int;
            let lb = 2 + 2 * r;
            let pb = lb + 8 * f.list.len() + 1;
            let p = f.positional.len() as int;
            &&& header_bytes(occ, data_amount).len() == header_len(occ)
            &&& b[0] == CURRENT_VERSION
            &&& b[1] == f.ranges.len() as u8
            &&& b.subrange(2, lb) == range_bytes(f.ranges)
            &&& b.subrange(lb, lb + 8 * f.list.len()) == list_bytes(f.list)
            &&& b[pb - 1] == f.positional.len() as u8
            &&& b.subrange(pb, pb + 9 * p) == positional_bytes(f.positional)
            &&& b.subrange(pb + 9 * p, pb + 9 * p + 8) == be_bytes(data_amount)
        }),
{
    let f = range_form(occ);
    lemma_range_bytes(f.ranges);
    lemma_list_bytes(f.list);
    lemma_positional_bytes(f.positional);
    lemma_be_roundtrip(data_amount);
    let h1: Seq<u8> = seq![CURRENT_VERSION, f.ranges.len() as u8];
    let h2 = h1 + range_bytes(f.ranges);
    let h3 = h2 + list_bytes(f.list);
    let h4 = h3 + seq![f.positional.len() as u8];
    let h5 = h4 + positional_bytes(f.positional);
    let h = h5 + be_bytes(data_amount);
    assert(h == header_bytes(occ, data_amount));
    let b = h + rest;
    let r = f.ranges.len() as int;
    let lb = 2 + 2 * r;
    let pb = lb + 8 * f.list.len() + 1;
    let p = f.positional.len() as int;
    assert(b.subrange(2, lb) =~= range_bytes(f.ranges));
    assert(b.subrange(lb, lb + 8 * f.list.len()) =~= list_bytes(f.list));
    assert(b.subrange(pb, pb + 9 * p) =~= positional_bytes(f.positional));
    assert(b.subrange(pb + 9 * p, pb + 9 * p + 8) =~= be_bytes(data_amount));
}

/// The length of a written header.
pub proof fn lemma_header_length(occ: Seq<u64>, data_amount: u64)
    requires
        occ.len() == 256,
    ensures
        header_bytes(occ, data_amount).len() == header_len(occ),
{
    lemma_header_layout(occ, data_amount, Seq::empty());
    assert(header_bytes(occ, data_amount) + Seq::<u8>::empty() =~= header_bytes(occ, data_amount));
}

/// Ranges written at `rb` read back as themselves.
proof fn lemma_read_ranges(b: Seq<u8>, rs: Seq<(u8, u8)>)
    requires
        b.len() >= 2 + 2 * rs.len(),
        b[1] == rs.len(),
        b.subrange(2, 2 + 2 * rs.len() as int) == range_bytes(rs),
    ensures
        v2_ranges(b) == rs,
{
    lemma_range_bytes(rs);
    let rb = b.subrange(2, 2 + 2 * rs.len() as int);
    assert forall|k: int| 0 <= k < rs.len() implies #[trigger] v2_ranges(b)[k] == rs[k] by {
        assert(b[2 + 2 * k] == rb[2 * k]);
        assert(b[3 + 2 * k] == rb[2 * k + 1]);
    }
    assert(v2_ranges(b) =~= rs);
}

/// Counts written at `lb` read back as themselves.
proof fn lemma_read_list(b: Seq<u8>, lb: int, l: Seq<u64>)
    requires
        0 <= lb,
        lb + 8 * l.len() <= b.len(),
        b.subrange(lb, lb + 8 * l.len()) == list_bytes(l),
    ensures
        Seq::new(l.len(), |k: int| be_value(b.subrange(lb + 8 * k, lb + 8 * k + 8))) == l,
{
    lemma_list_bytes(l);
    let lbytes = b.subrange(lb, lb + 8 * l.len());
    let list = Seq::new(l.len(), |k: int| be_value(b.subrange(lb + 8 * k, lb + 8 * k + 8)));
    assert forall|k: int| 0 <= k < l.len() implies #[trigger] list[k] == l[k] by {
        assert(b.subrange(lb + 8 * k, lb + 8 * k + 8) =~= lbytes.subrange(8 * k, 8 * k + 8));
        lemma_be_roundtrip(l[k]);
    }
    assert(list =~= l);
}

/// Positional entries written at `pb` read back as themselves.
#[verifier::spinoff_prover]
#[verifier::rlimit(30)]
proof fn lemma_read_positional(b: Seq<u8>, pb: int, ps: Seq<(u8, u64)>)
    requires
        0 <= pb,
        pb + 9 * ps.len() <= b.len(),
        b.subrange(pb, pb + 9 * ps.len()) == positional_bytes(ps),
    ensures
        Seq::new(
            ps.len(),
            |k: int| (b[pb + 9 * k], be_value(b.subrange(pb + 9 * k + 1, pb + 9 * k + 9))),
        ) == ps,
{
    lemma_positional_bytes(ps);
    let pbytes = b.subrange(pb, pb + 9 * ps.len());
    let read = Seq::new(
        ps.len(),
        |k: int| (b[pb + 9 * k], be_value(b.subrange(pb + 9 * k + 1, pb + 9 * k + 9))),
    );
    assert forall|k: int| 0 <= k < ps.len() implies #[trigger] read[k] == ps[k] by {
        assert(b[pb + 9 * k] == pbytes[9 * k]);
        assert(b.subrange(pb + 9 * k + 1, pb + 9 * k + 9) =~= pbytes.subrange(
            9 * k + 1,
            9 * k + 9,
        ));
        lemma_be_roundtrip(ps[k].1);
    }
    assert(read =~= ps);
}

/// A written header reads back as what was written, whatever follows it.
#[verifier::spinoff_prover]
pub proof fn lemma_header_roundtrip(occ: Seq<u64>, data_amount: u64, rest: Seq<u8>)
    requires
        occ.len() == 256,
    ensures
        header_bytes(occ, data_amount).len() == header_len(occ),
        parse_header(header_bytes(occ, data_amount) + rest) == Ok::<HeaderView, HeaderError>(
            HeaderView { version: CURRENT_VERSION, occurences: occ, data_amount },
        ),
{
    let f = range_form(occ);
    lemma_range_form_roundtrip(occ);
    lemma_header_layout(occ, data_amount, rest);
    let b = header_bytes(occ, data_amount) + rest;
    let r = f.ranges.len() as int;
    let l = f.list.len() as int;
    let p = f.positional.len() as int;
    let lb = 2 + 2 * r;
    let pb = lb + 8 * l + 1;
    lemma_read_ranges(b, f.ranges);
    assert(v2_list_start(b) == lb);
    assert(v2_positional_start(b) == pb);
    lemma_read_list(b, lb, f.list);
    lemma_read_positional(b, pb, f.positional);
    lemma_be_roundtrip(data_amount);
}

/// The number of bytes of a header that was read: the full table of the
/// first version, or the range form of the second.
pub open spec fn header_size(h: HeaderView) -> nat {
    if h.version == 1 {
        2057
    } else {
        header_len(h.occurences)
    }
}

/// A header of the first version for a count table and a number of encoded
/// bytes: the version 1, the 256 counts and the number of encoded bytes, each
/// number in eight big-endian bytes.
pub open spec fn full_header_bytes(occ: Seq<u64>, data_amount: u64) -> Seq<u8> {
    seq![1u8] + list_bytes(occ) + be_bytes(data_amount)
}

/// A header written in the first version reads back as what was written,
/// whatever follows it.
pub proof fn lemma_full_header_roundtrip(occ: Seq<u64>, data_amount: u64, rest: Seq<u8>)
    requires
        occ.len() == 256,
    ensures
        full_header_bytes(occ, data_amount).len() == 2057,
        parse_header(full_header_bytes(occ, data_amount) + rest) == Ok::<HeaderView, HeaderError>(
            HeaderView { version: 1, occurences: occ, data_amount },
        ),
{
    lemma_list_bytes(occ);
    lemma_be_roundtrip(data_amount);
    let lb = list_bytes(occ);
    let b = full_header_bytes(occ, data_amount) + rest;
    assert forall|k: int| 0 <= k < 256 implies be_value(#[trigger] b.subrange(1 + 8 * k, 9 + 8 * k))
        == occ[k] by {
        assert(b.subrange(1 + 8 * k, 9 + 8 * k) =~= lb.subrange(8 * k, 8 * k + 8));
        lemma_be_roundtrip(occ[k]);
    }
    assert(b.subrange(2049, 2057) =~= be_bytes(data_amount));
    let parsed = parse_v1(b);
    assert(parsed->Ok_0.occurences =~= occ);
}

/// A header read from bytes, as what it says.
pub open spec fn result_view(r: Result<DataHeader, HeaderError>) -> Result<HeaderView, HeaderError> {
    match r {
        Ok(h) => Ok(h@),
        Err(e) => Err(e),
    }
}

impl DataHeader {
    /// Reads a header of version 1 or 2 from the start of `input`.
    pub fn read_from(input: &[u8]) -> (header: Result<Self, HeaderError>)
        ensures
            result_view(header) == parse_header(input@),
    {
        if input.len() == 0 {
            return Err(HeaderError::Truncated);
        }
        let version = input[0];
        match version {
            0 => Err(HeaderError::ZeroVersion),
            1 => read_v1_0::read_from(input),
            2 => read_v1_1::read_from(input),
            _ => Err(HeaderError::NewerVersion(version)),
        }
    }

    /// A header of the current version.
    pub fn new(occurences: Occurences, data_amount: u64) -> (header: Self)
        ensures
            header.version == CURRENT_VERSION,
            header.occurences == occurences,
            header.data_amount == data_amount,
    {
        Self { version: CURRENT_VERSION, occurences, data_amount }
    }

    /// Appends the header, in the current version, to `writer`.
    pub fn write_to(&self, writer: &mut Vec<u8>)
        ensures
            final(writer)@ == old(writer)@ + header_bytes(self.occurences@, self.data_amount),
    {
        let ghost start = writer@;
        let ghost f = range_form(self.occurences@);
        proof {
            lemma_range_form_roundtrip(self.occurences@);
        }
        write_u8_to(writer, CURRENT_VERSION);
        let mut occ_type = OccurrenceType::new(self.occurences);
        occ_type.convert_to_range_list();
        let (ranges, list, positional_list) = match occ_type {
            OccurrenceType::RangeList { ranges, list, positional_list } => (
                ranges,
                list,
                positional_list,
            ),
            OccurrenceType::FullList { .. } => (Vec::new(), Vec::new(), Vec::new()),
        };
        assert(ranges@ == f.ranges && list@ == f.list && positional_list@ == f.positional);
        write_u8_to(writer, ranges.len() as u8);
        let mut k: usize = 0;
        while k < ranges.len()
            invariant
                k <= ranges@.len(),
                writer@ == start + seq![CURRENT_VERSION, ranges@.len() as u8] + range_bytes(
                    ranges@.take(k as int),
                ),
            decreases ranges@.len() - k,
        {
            proof {
                assert(ranges@.take(k as int + 1).drop_last() =~= ranges@.take(k as int));
            }
            let (range_start, range_end) = ranges[k];
            write_u8_to(writer, range_start);
            write_u8_to(writer, range_end);
            k = k + 1;
            proof {
                assert(writer@ =~= start + seq![CURRENT_VERSION, ranges@.len() as u8] + range_bytes(
                    ranges@.take(k as int),
                ));
            }
        }
        assert(ranges@.take(k as int) =~= ranges@);
        let ghost after_ranges_written = writer@;
        let mut k: usize = 0;
        while k < list.len()
            invariant
                k <= list@.len(),
                writer@ == after_ranges_written + list_bytes(list@.take(k as int)),
            decreases list@.len() - k,
        {
            proof {
                assert(list@.take(k as int + 1).drop_last() =~= list@.take(k as int));
            }
            write_u64_be_to(writer, list[k]);
            k = k + 1;
            proof {
                assert(writer@ =~= after_ranges_written + list_bytes(list@.take(k as int)));
            }
        }
        assert(list@.take(k as int) =~= list@);
        write_u8_to(writer, positional_list.len() as u8);
        let ghost after_count = writer@;
        let mut k: usize = 0;
        while k < positional_list.len()
            invariant
                k <= positional_list@.len(),
                writer@ == after_count + positional_bytes(positional_list@.take(k as int)),
            decreases positional_list@.len() - k,
        {
            proof {
                assert(positional_list@.take(k as int + 1).drop_last() =~= positional_list@.take(
                    k as int,
                ));
            }
            let (position, amount) = positional_list[k];
            write_u8_to(writer, position);
            write_u64_be_to(writer, amount);
            k = k + 1;
            proof {
                assert(writer@ =~= after_count + positional_bytes(positional_list@.take(k as int)));
            }
        }
        assert(positional_list@.take(k as int) =~= positional_list@);
        write_u64_be_to(writer, self.data_amount);
        assert(writer@ =~= start + header_bytes(self.occurences@, self.data_amount));
    }

    /// Appends the header in the layout of the first version: the version 1,
    /// then the full table of counts and the number of encoded bytes.
    pub fn write_full_to(&self, writer: &mut Vec<u8>)
        ensures
            final(writer)@ == old(writer)@ + full_header_bytes(self.occurences@, self.data_amount),
    {
        let ghost start = writer@;
        write_u8_to(writer, 1);
        let mut k: usize = 0;
        while k < 256
            invariant
                k <= 256,
                self.occurences@.len() == 256,
                writer@ == start + seq![1u8] + list_bytes(self.occurences@.take(k as int)),
            decreases 256 - k,
        {
            proof {
                assert(self.occurences@.take(k as int + 1).drop_last() =~= self.occurences@.take(
                    k as int,
                ));
            }
            write_u64_be_to(writer, self.occurences[k]);
            k = k + 1;
            proof {
                assert(writer@ =~= start + seq![1u8] + list_bytes(self.occurences@.take(k as int)));
            }
        }
        assert(self.occurences@.take(256) =~= self.occurences@);
        write_u64_be_to(writer, self.data_amount);
        assert(writer@ =~= start + full_header_bytes(self.occurences@, self.data_amount));
    }

    /// The number of bytes of the header.
    pub fn size(&self) -> (size: usize)
        requires
            self.version == 1 || self.version == 2,
        ensures
            self.version == 1 ==> size == 2057,
            self.version == 2 ==> size == header_len(self.occurences@),
    {
        if self.version == 1 {
            1 + 8 * 256 + 8
        } else {
            let mut occ_type = OccurrenceType::new(self.occurences);
            occ_type.convert_to_range_list();
            proof {
                lemma_range_form_roundtrip(self.occurences@);
            }
            1 + 8 + occ_type.size()
        }
    }
}

} // verus!
