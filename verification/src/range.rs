//! IPv4 target ranges: reading masscan-style target lists, merging overlapping
//! ranges and removing excluded ranges. An address is a `u32` (most significant
//! octet first); a range is an inclusive pair `(start, end)`.

use vstd::prelude::*;
use crate::ipv4::{ipv4_parse, parse_ipv4};
use crate::text::{
    chars_of, copy_range, find_char, index_of, is_whitespace, lemma_index_of, lemma_lines_single, lemma_trim_all_whitespace, lemma_lines_split, lemma_trim_strip_cr, lines,
    strip_cr, trim, trim_bounds,
};

verus! {

// ---------------------------------------------------------------------------
// Ranges as sets of addresses
// ---------------------------------------------------------------------------

/// Address `p` lies in the inclusive range `r`.
pub open spec fn in_range(r: (u32, u32), p: u32) -> bool {
    r.0 <= p <= r.1
}

/// Address `p` lies in some range of `rs`.
pub open spec fn covered(rs: Seq<(u32, u32)>, p: u32) -> bool {
    exists|i: int| 0 <= i < rs.len() && in_range(#[trigger] rs[i], p)
}

/// Every range starts no later than the next one does, and ends before it starts.
pub open spec fn separated(rs: Seq<(u32, u32)>) -> bool {
    forall|i: int| 0 <= i < rs.len() - 1 ==> #[trigger] rs[i].0 <= rs[i + 1].0 && rs[i].1 < rs[i + 1].0
}

/// Ranges ordered by start.
pub open spec fn sorted_by_start(rs: Seq<(u32, u32)>) -> bool {
    forall|i: int, j: int| 0 <= i <= j < rs.len() ==> rs[i].0 <= rs[j].0
}

// ---------------------------------------------------------------------------
// Sorting by start (stable)
// ---------------------------------------------------------------------------

/// `s` with `x` inserted after every element whose start is at most `x`'s start,
/// scanning from the end.
pub open spec fn insert_by_start(s: Seq<(u32, u32)>, x: (u32, u32)) -> Seq<(u32, u32)>
    decreases s.len(),
{
    if s.len() == 0 || s.last().0 <= x.0 {
        s.push(x)
    } else {
        insert_by_start(s.drop_last(), x).push(s.last())
    }
}

/// The stable sort of `s` by start: equal starts keep their relative order.
pub open spec fn sort_by_start(s: Seq<(u32, u32)>) -> Seq<(u32, u32)>
    decreases s.len(),
{
    if s.len() == 0 {
        s
    } else {
        insert_by_start(sort_by_start(s.drop_last()), s.last())
    }
}

/// Extends the last range of `out` with `curr` when `curr` starts within it,
/// otherwise appends `curr`.
pub open spec fn merge_step(out: Seq<(u32, u32)>, curr: (u32, u32)) -> Seq<(u32, u32)> {
    if out.len() == 0 {
        seq![curr]
    } else if curr.0 <= out.last().1 {
        out.drop_last().push((out.last().0, if out.last().1 >= curr.1 { out.last().1 } else { curr.1 }))
    } else {
        out.push(curr)
    }
}

/// Merges ranges that are already ordered by start, left to right.
pub open spec fn merge_sorted(s: Seq<(u32, u32)>) -> Seq<(u32, u32)>
    decreases s.len(),
{
    if s.len() == 0 {
        s
    } else {
        merge_step(merge_sorted(s.drop_last()), s.last())
    }
}

/// The ranges sorted by start, with every range that starts inside the one
/// before it folded into it.
pub open spec fn merged(s: Seq<(u32, u32)>) -> Seq<(u32, u32)> {
    merge_sorted(sort_by_start(s))
}

proof fn lemma_insert_at(s: Seq<(u32, u32)>, x: (u32, u32), k: int)
    requires
        0 <= k <= s.len(),
        forall|j: int| k <= j < s.len() ==> s[j].0 > x.0,
        k > 0 ==> s[k - 1].0 <= x.0,
    ensures
        insert_by_start(s, x) == s.insert(k, x),
    decreases s.len(),
{
    if k == s.len() {
        assert(s.push(x) =~= s.insert(k, x));
    } else {
        lemma_insert_at(s.drop_last(), x, k);
        assert(s.drop_last().insert(k, x).push(s.last()) =~= s.insert(k, x));
    }
}

proof fn lemma_insert_sorted(s: Seq<(u32, u32)>, x: (u32, u32))
    requires
        sorted_by_start(s),
    ensures
        sorted_by_start(insert_by_start(s, x)),
        insert_by_start(s, x).to_multiset() == s.to_multiset().insert(x),
        insert_by_start(s, x).len() == s.len() + 1,
    decreases s.len(),
{
    broadcast use vstd::seq_lib::group_to_multiset_ensures;
    if s.len() == 0 || s.last().0 <= x.0 {
    } else {
        let t = s.drop_last();
        assert(sorted_by_start(t));
        lemma_insert_sorted(t, x);
        let r = insert_by_start(t, x);
        assert(s =~= t.push(s.last()));
        assert forall|i: int, j: int| 0 <= i <= j < r.push(s.last()).len() implies r.push(s.last())[i].0
            <= r.push(s.last())[j].0 by {
            if j == r.len() && i < r.len() {
                // every element of r is x or an element of t
                assert(r.to_multiset().count(r[i]) > 0);
                assert(r.to_multiset() == t.to_multiset().insert(x));
                if r[i] != x {
                    assert(t.to_multiset().count(r[i]) > 0);
                    assert(t.contains(r[i]));
                    let m = choose|m: int| 0 <= m < t.len() && t[m] == r[i];
                    assert(s[m] == t[m]);
                }
            }
        }
    }
}

proof fn lemma_sort_sorted(s: Seq<(u32, u32)>)
    ensures
        sorted_by_start(sort_by_start(s)),
        sort_by_start(s).to_multiset() == s.to_multiset(),
        sort_by_start(s).len() == s.len(),
    decreases s.len(),
{
    broadcast use vstd::seq_lib::group_to_multiset_ensures;
    if s.len() > 0 {
        lemma_sort_sorted(s.drop_last());
        lemma_insert_sorted(sort_by_start(s.drop_last()), s.last());
        assert(s =~= s.drop_last().push(s.last()));
    }
}

/// Sorts ranges by start, keeping the relative order of equal starts.
fn sort_ranges_by_start(v: Vec<(u32, u32)>) -> (r: Vec<(u32, u32)>)
    ensures
        r@ == sort_by_start(v@),
{
    let mut out: Vec<(u32, u32)> = Vec::new();
    let n = v.len();
    let mut i: usize = 0;
    assert(v@.take(0) =~= Seq::<(u32, u32)>::empty());
    while i < n
        invariant
            n == v@.len(),
            i <= n,
            out@ == sort_by_start(v@.take(i as int)),
        decreases n - i,
    {
        let x = v[i];
        proof {
            lemma_sort_sorted(v@.take(i as int));
        }
        let mut k: usize = out.len();
        while k > 0 && out[k - 1].0 > x.0
            invariant
                k <= out@.len(),
                forall|j: int| k <= j < out@.len() ==> out@[j].0 > x.0,
            decreases k,
        {
            k = k - 1;
        }
        proof {
            lemma_insert_at(out@, x, k as int);
            assert(v@.take(i + 1).drop_last() =~= v@.take(i as int));
        }
        out.insert(k, x);
        i = i + 1;
    }
    assert(v@.take(n as int) =~= v@);
    out
}

/// Sorts ranges by start and folds every range that starts inside the previous
/// (already merged) one into it.
pub fn merge_intervals(intervals: Vec<(u32, u32)>) -> (r: Vec<(u32, u32)>)
    ensures
        r@ == merged(intervals@),
{
    let intervals = sort_ranges_by_start(intervals);
    let mut out: Vec<(u32, u32)> = Vec::new();
    let n = intervals.len();
    if n > 0 {
        out.push(intervals[0]);
    }
    let mut i: usize = 1;
    proof {
        if n > 0 {
            let t1 = intervals@.take(1);
            assert(t1.drop_last() =~= Seq::<(u32, u32)>::empty());
            assert(merge_sorted(t1.drop_last()) == Seq::<(u32, u32)>::empty());
            assert(t1.last() == intervals@[0]);
            assert(out@ =~= merge_step(Seq::<(u32, u32)>::empty(), intervals@[0]));
            assert(out@ =~= merge_sorted(t1));
        } else {
            assert(intervals@.take(0) =~= Seq::<(u32, u32)>::empty());
        }
    }
    while i < n
        invariant
            n == intervals@.len(),
            1 <= i,
            n > 0 ==> i <= n,
            n > 0 ==> out@ == merge_sorted(intervals@.take(i as int)),
            n > 0 ==> out@.len() > 0,
            n == 0 ==> out@ == merge_sorted(intervals@),
        decreases n - i,
    {
        let curr = intervals[i];
        let ghost prev_out = out@;
        let last = out.len() - 1;
        let prev = out[last];
        proof {
            assert(intervals@.take(i + 1).drop_last() =~= intervals@.take(i as int));
        }
        if curr.0 <= prev.1 {
            let end = if prev.1 >= curr.1 { prev.1 } else { curr.1 };
            out.set(last, (prev.0, end));
            proof {
                assert(out@ =~= merge_step(prev_out, curr));
            }
        } else {
            out.push(curr);
            proof {
                assert(out@ =~= merge_step(prev_out, curr));
            }
        }
        i = i + 1;
    }
    proof {
        if n > 0 {
            assert(intervals@.take(n as int) =~= intervals@);
        }
    }
    out
}


// ---------------------------------------------------------------------------
// Laws of merging
// ---------------------------------------------------------------------------

proof fn lemma_merge_sorted_shape(s: Seq<(u32, u32)>)
    requires
        sorted_by_start(s),
    ensures
        separated(merge_sorted(s)),
        merge_sorted(s).len() > 0 <==> s.len() > 0,
        s.len() > 0 ==> merge_sorted(s).last().0 <= s.last().0,
    decreases s.len(),
{
    if s.len() > 0 {
        let t = s.drop_last();
        assert(sorted_by_start(t));
        lemma_merge_sorted_shape(t);
        if t.len() > 0 {
            assert(t.last().0 <= s.last().0);
        }
    }
}

proof fn lemma_merge_sorted_covers(s: Seq<(u32, u32)>, p: u32)
    requires
        sorted_by_start(s),
    ensures
        covered(merge_sorted(s), p) <==> covered(s, p),
    decreases s.len(),
{
    if s.len() > 0 {
        let t = s.drop_last();
        let out = merge_sorted(t);
        let x = s.last();
        assert(sorted_by_start(t));
        lemma_merge_sorted_covers(t, p);
        lemma_merge_sorted_shape(t);
        assert(s =~= t.push(x));
        assert(covered(s, p) <==> covered(t, p) || in_range(x, p)) by {
            if covered(s, p) {
                let i = choose|i: int| 0 <= i < s.len() && in_range(s[i], p);
                if i < t.len() {
                    assert(t[i] == s[i]);
                }
            }
            if covered(t, p) {
                let i = choose|i: int| 0 <= i < t.len() && in_range(t[i], p);
                assert(s[i] == t[i]);
            }
            if in_range(x, p) {
                assert(s[s.len() - 1] == x);
            }
        }
        let r = merge_step(out, x);
        if out.len() == 0 {
            assert(covered(r, p) <==> in_range(x, p)) by {
                if in_range(x, p) {
                    assert(r[0] == x);
                }
            }
        } else if x.0 <= out.last().1 {
            let body = out.drop_last();
            let nl = (out.last().0, if out.last().1 >= x.1 { out.last().1 } else { x.1 });
            assert(r =~= body.push(nl));
            assert(out =~= body.push(out.last()));
            assert(in_range(nl, p) <==> in_range(out.last(), p) || in_range(x, p));
            assert(covered(r, p) <==> covered(body, p) || in_range(nl, p)) by {
                if covered(r, p) {
                    let i = choose|i: int| 0 <= i < r.len() && in_range(r[i], p);
                    if i < body.len() {
                        assert(body[i] == r[i]);
                    }
                }
                if covered(body, p) {
                    let i = choose|i: int| 0 <= i < body.len() && in_range(body[i], p);
                    assert(r[i] == body[i]);
                }
                if in_range(nl, p) {
                    assert(r[r.len() - 1] == nl);
                }
            }
            assert(covered(out, p) <==> covered(body, p) || in_range(out.last(), p)) by {
                if covered(out, p) {
                    let i = choose|i: int| 0 <= i < out.len() && in_range(out[i], p);
                    if i < body.len() {
                        assert(body[i] == out[i]);
                    }
                }
                if covered(body, p) {
                    let i = choose|i: int| 0 <= i < body.len() && in_range(body[i], p);
                    assert(out[i] == body[i]);
                }
                if in_range(out.last(), p) {
                    assert(out[out.len() - 1] == out.last());
                }
            }
        } else {
            assert(r =~= out.push(x));
            assert(covered(r, p) <==> covered(out, p) || in_range(x, p)) by {
                if covered(r, p) {
                    let i = choose|i: int| 0 <= i < r.len() && in_range(r[i], p);
                    if i < out.len() {
                        assert(out[i] == r[i]);
                    }
                }
                if covered(out, p) {
                    let i = choose|i: int| 0 <= i < out.len() && in_range(out[i], p);
                    assert(r[i] == out[i]);
                }
                if in_range(x, p) {
                    assert(r[r.len() - 1] == x);
                }
            }
        }
    }
}

proof fn lemma_merge_sorted_contains(s: Seq<(u32, u32)>, i: int)
    requires
        sorted_by_start(s),
        0 <= i < s.len(),
    ensures
        exists|j: int|
            0 <= j < merge_sorted(s).len() && #[trigger] merge_sorted(s)[j].0 <= s[i].0 && s[i].1
                <= merge_sorted(s)[j].1,
    decreases s.len(),
{
    let t = s.drop_last();
    let x = s.last();
    let out = merge_sorted(t);
    let r = merge_step(out, x);
    assert(sorted_by_start(t));
    lemma_merge_sorted_shape(t);
    assert(merge_sorted(s) == r);
    if i == s.len() - 1 {
        if out.len() == 0 {
            assert(merge_sorted(s)[0].0 <= s[i].0 && s[i].1 <= merge_sorted(s)[0].1);
        } else if x.0 <= out.last().1 {
            assert(out.last().0 <= x.0);
            let jj = r.len() - 1;
            assert(merge_sorted(s)[jj].0 <= s[i].0 && s[i].1 <= merge_sorted(s)[jj].1);
        } else {
            let jj = r.len() - 1;
            assert(merge_sorted(s)[jj].0 <= s[i].0 && s[i].1 <= merge_sorted(s)[jj].1);
        }
    } else {
        lemma_merge_sorted_contains(t, i);
        let j = choose|j: int| 0 <= j < out.len() && #[trigger] out[j].0 <= t[i].0 && t[i].1 <= out[j].1;
        assert(t[i] == s[i]);
        if out.len() > 0 && x.0 <= out.last().1 && j == out.len() - 1 {
            assert(merge_sorted(s)[j].0 <= s[i].0 && s[i].1 <= merge_sorted(s)[j].1);
        } else {
            assert(r[j] == out[j]);
            assert(merge_sorted(s)[j].0 <= s[i].0 && s[i].1 <= merge_sorted(s)[j].1);
        }
    }
}

proof fn lemma_sort_covers(s: Seq<(u32, u32)>, p: u32)
    ensures
        covered(sort_by_start(s), p) <==> covered(s, p),
{
    broadcast use vstd::seq_lib::group_to_multiset_ensures;
    lemma_sort_sorted(s);
    let t = sort_by_start(s);
    if covered(s, p) {
        let i = choose|i: int| 0 <= i < s.len() && in_range(s[i], p);
        assert(s.to_multiset().count(s[i]) > 0);
        assert(t.contains(s[i]));
    }
    if covered(t, p) {
        let i = choose|i: int| 0 <= i < t.len() && in_range(t[i], p);
        assert(t.to_multiset().count(t[i]) > 0);
        assert(s.contains(t[i]));
    }
}

proof fn lemma_sort_contains(s: Seq<(u32, u32)>, i: int)
    requires
        0 <= i < s.len(),
    ensures
        exists|k: int| 0 <= k < sort_by_start(s).len() && #[trigger] sort_by_start(s)[k] == s[i],
{
    broadcast use vstd::seq_lib::group_to_multiset_ensures;
    lemma_sort_sorted(s);
    assert(s.to_multiset().count(s[i]) > 0);
    assert(sort_by_start(s).contains(s[i]));
}

/// Law: merging neither adds nor loses addresses.
pub proof fn lemma_merged_same_addresses(s: Seq<(u32, u32)>, p: u32)
    ensures
        covered(merged(s), p) <==> covered(s, p),
{
    lemma_sort_sorted(s);
    lemma_merge_sorted_covers(sort_by_start(s), p);
    lemma_sort_covers(s, p);
}

/// Law: every input range lies inside one range of the merged result.
pub proof fn lemma_merged_contains_each(s: Seq<(u32, u32)>, i: int)
    requires
        0 <= i < s.len(),
    ensures
        exists|j: int| 0 <= j < merged(s).len() && #[trigger] merged(s)[j].0 <= s[i].0 && s[i].1 <= merged(s)[j].1,
{
    lemma_sort_sorted(s);
    lemma_sort_contains(s, i);
    let k = choose|k: int| 0 <= k < sort_by_start(s).len() && #[trigger] sort_by_start(s)[k] == s[i];
    lemma_merge_sorted_contains(sort_by_start(s), k);
    let m = merge_sorted(sort_by_start(s));
    let j = choose|j: int| 0 <= j < m.len() && #[trigger] m[j].0 <= sort_by_start(s)[k].0 && sort_by_start(s)[k].1 <= m[j].1;
    assert(merged(s)[j].0 <= s[i].0 && s[i].1 <= merged(s)[j].1);
}

/// Law: the merged ranges are ordered by start and each ends before the next starts.
pub proof fn lemma_merged_separated(s: Seq<(u32, u32)>)
    ensures
        separated(merged(s)),
{
    lemma_sort_sorted(s);
    lemma_merge_sorted_shape(sort_by_start(s));
}

proof fn lemma_sort_of_sorted(s: Seq<(u32, u32)>)
    requires
        sorted_by_start(s),
    ensures
        sort_by_start(s) == s,
    decreases s.len(),
{
    if s.len() > 0 {
        let t = s.drop_last();
        assert(sorted_by_start(t));
        lemma_sort_of_sorted(t);
        if t.len() > 0 {
            assert(t.last().0 <= s.last().0);
        }
        assert(t.push(s.last()) =~= s);
    }
}

proof fn lemma_merge_of_separated(s: Seq<(u32, u32)>)
    requires
        separated(s),
    ensures
        merge_sorted(s) == s,
    decreases s.len(),
{
    if s.len() > 0 {
        let t = s.drop_last();
        assert(separated(t)) by {
            assert forall|i: int| 0 <= i < t.len() - 1 implies #[trigger] t[i].0 <= t[i + 1].0 && t[i].1 < t[i + 1].0 by {
                assert(s[i] == t[i] && s[i + 1] == t[i + 1]);
            }
        }
        lemma_merge_of_separated(t);
        if t.len() > 0 {
            assert(s[t.len() - 1] == t.last());
            assert(t.last().1 < s.last().0);
        }
        assert(t.push(s.last()) =~= s);
    }
}

/// Law: merging is idempotent; merging a merged list changes nothing.
pub proof fn lemma_merged_idempotent(s: Seq<(u32, u32)>)
    ensures
        merged(merged(s)) == merged(s),
{
    let m = merged(s);
    lemma_merged_separated(s);
    lemma_separated_sorted(m);
    lemma_sort_of_sorted(m);
    lemma_merge_of_separated(m);
}

// ---------------------------------------------------------------------------
// Removing excluded ranges
// ---------------------------------------------------------------------------

/// Ranges written with their start no later than their end.
pub open spec fn well_formed(rs: Seq<(u32, u32)>) -> bool {
    forall|i: int| 0 <= i < rs.len() ==> #[trigger] rs[i].0 <= rs[i].1
}

/// Walks the excluded ranges `ex`, in order, over the target range that starts at
/// `s` and ends at `e`. Returns the pieces cut off before each excluded range, and
/// the point (just past `u32::MAX` once everything is handed out) where the part
/// not yet handed out starts.
///
/// An excluded range is passed over when it ends before that point or starts after
/// `e`. Otherwise the part before it, if any, becomes a piece and the point moves
/// just past its end.
pub open spec fn cut_excluded(s: u32, e: u32, ex: Seq<(u32, u32)>) -> (Seq<(u32, u32)>, nat)
    decreases ex.len(),
{
    if ex.len() == 0 {
        (Seq::empty(), s as nat)
    } else {
        let (ps, cs) = cut_excluded(s, e, ex.drop_last());
        let x = ex.last();
        if x.1 < cs || x.0 > e {
            (ps, cs)
        } else {
            (if x.0 > cs { ps.push((cs as u32, (x.0 - 1) as u32)) } else { ps }, (x.1 + 1) as nat)
        }
    }
}

/// The pieces of target range `t` left by the excluded ranges `ex`: the cut-off
/// pieces, then the rest of the range when some of it is left.
pub open spec fn pieces_of(t: (u32, u32), ex: Seq<(u32, u32)>) -> Seq<(u32, u32)> {
    let (ps, cs) = cut_excluded(t.0, t.1, ex);
    if cs <= t.1 {
        ps.push((cs as u32, t.1))
    } else {
        ps
    }
}

/// The pieces of every target range, in order.
pub open spec fn all_pieces(ts: Seq<(u32, u32)>, ex: Seq<(u32, u32)>) -> Seq<(u32, u32)>
    decreases ts.len(),
{
    if ts.len() == 0 {
        Seq::empty()
    } else {
        all_pieces(ts.drop_last(), ex) + pieces_of(ts.last(), ex)
    }
}

/// The target ranges with the excluded ranges removed: both lists are merged
/// first, each merged target is cut by the merged exclusions, and the pieces
/// are merged again.
pub open spec fn excluded(targets: Seq<(u32, u32)>, exclude: Seq<(u32, u32)>) -> Seq<(u32, u32)> {
    merged(all_pieces(merged(targets), merged(exclude)))
}

/// The pieces of one target range left by the (merged) excluded ranges.
fn cut_range(t: (u32, u32), exclude: &Vec<(u32, u32)>) -> (r: Vec<(u32, u32)>)
    ensures
        r@ == pieces_of(t, exclude@),
{
    let start = t.0;
    let end = t.1;
    let mut current_start: u64 = start as u64;
    let mut out: Vec<(u32, u32)> = Vec::new();
    let n = exclude.len();
    let mut i: usize = 0;
    assert(exclude@.take(0) =~= Seq::<(u32, u32)>::empty());
    while i < n
        invariant
            n == exclude@.len(),
            i <= n,
            current_start <= 0x1_0000_0000,
            (out@, current_start as nat) == cut_excluded(start, end, exclude@.take(i as int)),
        decreases n - i,
    {
        let (exclude_start, exclude_end) = exclude[i];
        proof {
            assert(exclude@.take(i + 1).drop_last() =~= exclude@.take(i as int));
        }
        if (exclude_end as u64) < current_start || exclude_start > end {
            i = i + 1;
            continue;
        }
        if (exclude_start as u64) > current_start {
            out.push((current_start as u32, exclude_start - 1));
        }
        current_start = exclude_end as u64 + 1;
        i = i + 1;
    }
    assert(exclude@.take(n as int) =~= exclude@);
    if current_start <= end as u64 {
        out.push((current_start as u32, end));
    }
    out
}

/// Removes the excluded ranges from the target ranges.
pub fn apply_exclude(target: Vec<(u32, u32)>, exclude: Vec<(u32, u32)>) -> (r: Vec<(u32, u32)>)
    ensures
        r@ == excluded(target@, exclude@),
{
    let exclude = merge_intervals(exclude);
    let target = merge_intervals(target);
    let mut applied: Vec<(u32, u32)> = Vec::new();
    let n = target.len();
    let mut i: usize = 0;
    assert(target@.take(0) =~= Seq::<(u32, u32)>::empty());
    while i < n
        invariant
            n == target@.len(),
            i <= n,
            applied@ == all_pieces(target@.take(i as int), exclude@),
        decreases n - i,
    {
        let mut pieces = cut_range(target[i], &exclude);
        proof {
            assert(target@.take(i + 1).drop_last() =~= target@.take(i as int));
        }
        applied.append(&mut pieces);
        i = i + 1;
    }
    assert(target@.take(n as int) =~= target@);
    merge_intervals(applied)
}

// ---------------------------------------------------------------------------
// Laws of removing excluded ranges
// ---------------------------------------------------------------------------

proof fn lemma_separated_sorted(rs: Seq<(u32, u32)>)
    requires
        separated(rs),
    ensures
        sorted_by_start(rs),
{
    assert forall|i: int, j: int| 0 <= i <= j < rs.len() implies rs[i].0 <= rs[j].0 by {
        lemma_separated_sorted_pair(rs, i, j);
    }
}

proof fn lemma_separated_sorted_pair(rs: Seq<(u32, u32)>, i: int, j: int)
    requires
        separated(rs),
        0 <= i <= j < rs.len(),
    ensures
        rs[i].0 <= rs[j].0,
    decreases j - i,
{
    if i < j {
        lemma_separated_sorted_pair(rs, i, j - 1);
        assert(rs[j - 1].0 <= rs[j].0);
    }
}

proof fn lemma_covered_push(rs: Seq<(u32, u32)>, r: (u32, u32), p: u32)
    ensures
        covered(rs.push(r), p) <==> covered(rs, p) || in_range(r, p),
{
    let t = rs.push(r);
    if covered(t, p) {
        let k = choose|k: int| 0 <= k < t.len() && in_range(#[trigger] t[k], p);
        if k < rs.len() {
            assert(rs[k] == t[k]);
        }
    }
    if covered(rs, p) {
        let k = choose|k: int| 0 <= k < rs.len() && in_range(#[trigger] rs[k], p);
        assert(t[k] == rs[k]);
    }
    if in_range(r, p) {
        assert(t[t.len() - 1] == r);
    }
}

proof fn lemma_merged_well_formed(s: Seq<(u32, u32)>)
    requires
        well_formed(s),
    ensures
        well_formed(merged(s)),
{
    broadcast use vstd::seq_lib::group_to_multiset_ensures;
    lemma_sort_sorted(s);
    let t = sort_by_start(s);
    assert forall|i: int| 0 <= i < t.len() implies #[trigger] t[i].0 <= t[i].1 by {
        assert(t.to_multiset().count(t[i]) > 0);
        assert(s.contains(t[i]));
    }
    lemma_merge_sorted_well_formed(t);
}

proof fn lemma_merge_sorted_well_formed(s: Seq<(u32, u32)>)
    requires
        well_formed(s),
    ensures
        well_formed(merge_sorted(s)),
    decreases s.len(),
{
    if s.len() > 0 {
        let t = s.drop_last();
        assert(well_formed(t)) by {
            assert forall|i: int| 0 <= i < t.len() implies #[trigger] t[i].0 <= t[i].1 by {
                assert(t[i] == s[i]);
            }
        }
        lemma_merge_sorted_well_formed(t);
        let out = merge_sorted(t);
        let x = s.last();
        assert(x.0 <= x.1);
        let r = merge_step(out, x);
        assert forall|i: int| 0 <= i < r.len() implies #[trigger] r[i].0 <= r[i].1 by {
            if out.len() > 0 && i < out.len() - 1 {
                assert(r[i] == out[i]);
            } else if out.len() > 0 && x.0 <= out.last().1 {
                assert(out[out.len() - 1] == out.last());
            } else if i < out.len() {
                assert(r[i] == out[i]);
            }
        }
    }
}

proof fn lemma_cut(s: u32, e: u32, ex: Seq<(u32, u32)>, p: u32)
    requires
        separated(ex),
        well_formed(ex),
    ensures
        ({
            let (ps, cs) = cut_excluded(s, e, ex);
            &&& s <= cs <= 0x1_0000_0000
            &&& ex.len() == 0 ==> cs == s
            &&& (ex.len() > 0 && cs > s) ==> cs <= ex.last().1 + 1
            &&& forall|k: int| 0 <= k < ex.len() ==> #[trigger] ex[k].1 < cs || ex[k].0 > e
            &&& well_formed(ps)
            &&& (covered(ps, p) <==> (s <= p && p < cs && p <= e && !covered(ex, p)))
        }),
    decreases ex.len(),
{
    if ex.len() > 0 {
        let ex0 = ex.drop_last();
        let x = ex.last();
        assert(separated(ex0)) by {
            assert forall|i: int| 0 <= i < ex0.len() - 1 implies #[trigger] ex0[i].0 <= ex0[i + 1].0 && ex0[i].1
                < ex0[i + 1].0 by {
                assert(ex[i] == ex0[i] && ex[i + 1] == ex0[i + 1]);
            }
        }
        assert(well_formed(ex0)) by {
            assert forall|i: int| 0 <= i < ex0.len() implies #[trigger] ex0[i].0 <= ex0[i].1 by {
                assert(ex[i] == ex0[i]);
            }
        }
        lemma_cut(s, e, ex0, p);
        let (ps0, cs0) = cut_excluded(s, e, ex0);
        let (ps, cs) = cut_excluded(s, e, ex);
        assert(ex =~= ex0.push(x));
        lemma_covered_push(ex0, x, p);
        assert(x.0 <= x.1) by {
            assert(ex[ex.len() - 1] == x);
        }
        if ex0.len() > 0 {
            assert(ex[ex.len() - 2] == ex0.last());
            assert(ex0.last().1 < x.0);
        }
        assert forall|k: int| 0 <= k < ex.len() implies #[trigger] ex[k].1 < cs || ex[k].0 > e by {
            if k < ex0.len() {
                assert(ex[k] == ex0[k]);
                assert(ex0[k].1 < cs0 || ex0[k].0 > e);
            } else {
                assert(ex[k] == x);
            }
        }
        if x.1 < cs0 || x.0 > e {
            if x.1 < cs0 && cs0 > s {
                assert(false);
            }
        } else if x.0 > cs0 {
            let piece = (cs0 as u32, (x.0 - 1) as u32);
            lemma_covered_push(ps0, piece, p);
            assert(ps =~= ps0.push(piece));
            assert(well_formed(ps)) by {
                assert forall|i: int| 0 <= i < ps.len() implies #[trigger] ps[i].0 <= ps[i].1 by {
                    if i < ps0.len() {
                        assert(ps[i] == ps0[i]);
                    }
                }
            }
            if in_range(piece, p) && covered(ex0, p) {
                let k = choose|k: int| 0 <= k < ex0.len() && in_range(#[trigger] ex0[k], p);
                assert(ex0[k].1 < cs0 || ex0[k].0 > e);
            }
            if covered(ps0, p) {
                assert(cs0 > s);
            }
        } else {
            if covered(ps0, p) {
                assert(cs0 > s);
            }
        }
    }
}

proof fn lemma_pieces_of(t: (u32, u32), ex: Seq<(u32, u32)>, p: u32)
    requires
        separated(ex),
        well_formed(ex),
    ensures
        covered(pieces_of(t, ex), p) <==> in_range(t, p) && !covered(ex, p),
        well_formed(pieces_of(t, ex)),
{
    lemma_cut(t.0, t.1, ex, p);
    let (ps, cs) = cut_excluded(t.0, t.1, ex);
    if cs <= t.1 {
        let last = (cs as u32, t.1);
        lemma_covered_push(ps, last, p);
        assert(well_formed(ps.push(last))) by {
            assert forall|i: int| 0 <= i < ps.push(last).len() implies #[trigger] ps.push(last)[i].0
                <= ps.push(last)[i].1 by {
                if i < ps.len() {
                    assert(ps.push(last)[i] == ps[i]);
                }
            }
        }
        if in_range(last, p) && covered(ex, p) {
            let k = choose|k: int| 0 <= k < ex.len() && in_range(#[trigger] ex[k], p);
            assert(ex[k].1 < cs || ex[k].0 > t.1);
        }
    }
}

proof fn lemma_pieces_of_clear(s: u32, e: u32, ex: Seq<(u32, u32)>)
    requires
        s <= e,
        well_formed(ex),
        forall|p: u32| s <= p <= e ==> !covered(ex, p),
    ensures
        cut_excluded(s, e, ex) == (Seq::<(u32, u32)>::empty(), s as nat),
        pieces_of((s, e), ex) == seq![(s, e)],
    decreases ex.len(),
{
    if ex.len() > 0 {
        let ex0 = ex.drop_last();
        let x = ex.last();
        assert(ex[ex.len() - 1] == x);
        assert(well_formed(ex0)) by {
            assert forall|i: int| 0 <= i < ex0.len() implies #[trigger] ex0[i].0 <= ex0[i].1 by {
                assert(ex[i] == ex0[i]);
            }
        }
        assert forall|p: u32| s <= p <= e implies !covered(ex0, p) by {
            if covered(ex0, p) {
                let k = choose|k: int| 0 <= k < ex0.len() && in_range(#[trigger] ex0[k], p);
                assert(ex[k] == ex0[k]);
                assert(covered(ex, p));
            }
        }
        lemma_pieces_of_clear(s, e, ex0);
        if !(x.1 < s || x.0 > e) {
            let p: u32 = if x.0 > s { x.0 } else { s };
            assert(in_range(ex[ex.len() - 1], p));
            assert(covered(ex, p));
        }
    }
}

proof fn lemma_all_pieces_covers(ts: Seq<(u32, u32)>, ex: Seq<(u32, u32)>, p: u32)
    ensures
        covered(all_pieces(ts, ex), p) <==> exists|k: int| 0 <= k < ts.len() && covered(pieces_of(#[trigger] ts[k], ex), p),
    decreases ts.len(),
{
    if ts.len() > 0 {
        let t0 = ts.drop_last();
        lemma_all_pieces_covers(t0, ex, p);
        let a = all_pieces(t0, ex);
        let b = pieces_of(ts.last(), ex);
        let r = a + b;
        assert(covered(r, p) <==> covered(a, p) || covered(b, p)) by {
            if covered(r, p) {
                let k = choose|k: int| 0 <= k < r.len() && in_range(r[k], p);
                if k < a.len() {
                    assert(a[k] == r[k]);
                } else {
                    assert(b[k - a.len()] == r[k]);
                }
            }
            if covered(a, p) {
                let k = choose|k: int| 0 <= k < a.len() && in_range(a[k], p);
                assert(r[k] == a[k]);
            }
            if covered(b, p) {
                let k = choose|k: int| 0 <= k < b.len() && in_range(b[k], p);
                assert(r[k + a.len()] == b[k]);
            }
        }
        if exists|k: int| 0 <= k < ts.len() && covered(pieces_of(#[trigger] ts[k], ex), p) {
            let k = choose|k: int| 0 <= k < ts.len() && covered(pieces_of(#[trigger] ts[k], ex), p);
            if k < t0.len() {
                assert(t0[k] == ts[k]);
            }
        }
        if exists|k: int| 0 <= k < t0.len() && covered(pieces_of(#[trigger] t0[k], ex), p) {
            let k = choose|k: int| 0 <= k < t0.len() && covered(pieces_of(#[trigger] t0[k], ex), p);
            assert(ts[k] == t0[k]);
        }
        if covered(b, p) {
            assert(ts[ts.len() - 1] == ts.last());
        }
    }
}

proof fn lemma_all_pieces_well_formed(ts: Seq<(u32, u32)>, ex: Seq<(u32, u32)>)
    requires
        separated(ex),
        well_formed(ex),
    ensures
        well_formed(all_pieces(ts, ex)),
    decreases ts.len(),
{
    if ts.len() > 0 {
        lemma_all_pieces_well_formed(ts.drop_last(), ex);
        lemma_pieces_of(ts.last(), ex, 0);
        let a = all_pieces(ts.drop_last(), ex);
        let b = pieces_of(ts.last(), ex);
        assert forall|i: int| 0 <= i < (a + b).len() implies #[trigger] (a + b)[i].0 <= (a + b)[i].1 by {
            if i < a.len() {
                assert((a + b)[i] == a[i]);
            } else {
                assert((a + b)[i] == b[i - a.len()]);
            }
        }
    }
}

proof fn lemma_all_pieces_clear(ts: Seq<(u32, u32)>, ex: Seq<(u32, u32)>)
    requires
        well_formed(ts),
        well_formed(ex),
        forall|p: u32| covered(ts, p) ==> !covered(ex, p),
    ensures
        all_pieces(ts, ex) == ts,
    decreases ts.len(),
{
    if ts.len() > 0 {
        let t0 = ts.drop_last();
        let t = ts.last();
        assert(ts[ts.len() - 1] == t);
        assert(well_formed(t0)) by {
            assert forall|i: int| 0 <= i < t0.len() implies #[trigger] t0[i].0 <= t0[i].1 by {
                assert(ts[i] == t0[i]);
            }
        }
        assert forall|p: u32| covered(t0, p) implies !covered(ex, p) by {
            let k = choose|k: int| 0 <= k < t0.len() && in_range(#[trigger] t0[k], p);
            assert(ts[k] == t0[k]);
            assert(covered(ts, p));
        }
        lemma_all_pieces_clear(t0, ex);
        assert forall|p: u32| t.0 <= p <= t.1 implies !covered(ex, p) by {
            assert(in_range(ts[ts.len() - 1], p));
            assert(covered(ts, p));
        }
        lemma_pieces_of_clear(t.0, t.1, ex);
        assert(t0 + seq![t] =~= ts);
    }
}

/// Law: with excluded ranges written start first, the result holds exactly the
/// addresses of the target ranges that lie in no excluded range.
pub proof fn lemma_excluded_addresses(targets: Seq<(u32, u32)>, exclude: Seq<(u32, u32)>, p: u32)
    requires
        well_formed(exclude),
    ensures
        covered(excluded(targets, exclude), p) <==> covered(targets, p) && !covered(exclude, p),
{
    let mt = merged(targets);
    let mx = merged(exclude);
    lemma_merged_separated(exclude);
    lemma_merged_well_formed(exclude);
    lemma_merged_same_addresses(all_pieces(mt, mx), p);
    lemma_all_pieces_covers(mt, mx, p);
    lemma_merged_same_addresses(targets, p);
    lemma_merged_same_addresses(exclude, p);
    if covered(excluded(targets, exclude), p) {
        let k = choose|k: int| 0 <= k < mt.len() && covered(pieces_of(#[trigger] mt[k], mx), p);
        lemma_pieces_of(mt[k], mx, p);
        assert(covered(mt, p));
    }
    if covered(targets, p) && !covered(exclude, p) {
        let k = choose|k: int| 0 <= k < mt.len() && in_range(#[trigger] mt[k], p);
        lemma_pieces_of(mt[k], mx, p);
    }
}

/// Law: the result is ordered by start and each of its ranges ends before the next starts.
pub proof fn lemma_excluded_separated(targets: Seq<(u32, u32)>, exclude: Seq<(u32, u32)>)
    ensures
        separated(excluded(targets, exclude)),
{
    lemma_merged_separated(all_pieces(merged(targets), merged(exclude)));
}

/// Law: with excluded ranges written start first, removing the same excluded
/// ranges a second time changes nothing.
pub proof fn lemma_excluded_idempotent(targets: Seq<(u32, u32)>, exclude: Seq<(u32, u32)>)
    requires
        well_formed(exclude),
    ensures
        excluded(excluded(targets, exclude), exclude) == excluded(targets, exclude),
{
    let mt = merged(targets);
    let mx = merged(exclude);
    let r = excluded(targets, exclude);
    lemma_merged_separated(exclude);
    lemma_merged_well_formed(exclude);
    lemma_all_pieces_well_formed(mt, mx);
    lemma_merged_well_formed(all_pieces(mt, mx));
    lemma_merged_idempotent(all_pieces(mt, mx));
    assert forall|p: u32| covered(r, p) implies !covered(mx, p) by {
        lemma_excluded_addresses(targets, exclude, p);
        lemma_merged_same_addresses(exclude, p);
    }
    lemma_all_pieces_clear(r, mx);
}

/// Some range of `s` holds both `q` and `q + 1`.
spec fn links(s: Seq<(u32, u32)>, q: u32) -> bool {
    exists|i: int| 0 <= i < s.len() && #[trigger] s[i].0 <= q && q < s[i].1
}

/// Inside each range of `m`, every address and the next lie in one range of `s`.
spec fn linked_within(m: Seq<(u32, u32)>, s: Seq<(u32, u32)>) -> bool {
    forall|i: int, q: u32| #![trigger m[i], links(s, q)] 0 <= i < m.len() && m[i].0 <= q && q < m[i].1 ==> links(s, q)
}

/// No range of `s` holds the end of a range of `m` and the address after it.
spec fn split_ends(m: Seq<(u32, u32)>, s: Seq<(u32, u32)>) -> bool {
    forall|i: int| 0 <= i < m.len() ==> !links(s, #[trigger] m[i].1)
}

/// `m` is separated, written start first, and splits exactly where `s` leaves a gap
/// between consecutive addresses.
#[verifier::opaque]
spec fn split_shape(m: Seq<(u32, u32)>, s: Seq<(u32, u32)>) -> bool {
    separated(m) && well_formed(m) && linked_within(m, s) && split_ends(m, s)
}

/// `a` and `b` cover the same addresses.
#[verifier::opaque]
spec fn same_cover(a: Seq<(u32, u32)>, b: Seq<(u32, u32)>) -> bool {
    forall|p: u32| covered(a, p) <==> covered(b, p)
}

proof fn lemma_links_push(t: Seq<(u32, u32)>, x: (u32, u32), q: u32)
    ensures
        links(t.push(x), q) <==> links(t, q) || (x.0 <= q && q < x.1),
{
    let u = t.push(x);
    if links(u, q) {
        let i = choose|i: int| 0 <= i < u.len() && #[trigger] u[i].0 <= q && q < u[i].1;
        if i < t.len() {
            assert(t[i] == u[i]);
        }
    }
    if links(t, q) {
        let i = choose|i: int| 0 <= i < t.len() && #[trigger] t[i].0 <= q && q < t[i].1;
        assert(u[i] == t[i]);
    }
    if x.0 <= q && q < x.1 {
        assert(u[u.len() - 1] == x);
    }
}

proof fn lemma_merge_sorted_links(u: Seq<(u32, u32)>)
    requires
        sorted_by_start(u),
        well_formed(u),
    ensures
        linked_within(merge_sorted(u), u),
        split_ends(merge_sorted(u), u),
        merge_sorted(u).len() > 0 ==> forall|k: int| 0 <= k < u.len() ==> #[trigger] u[k].1 <= merge_sorted(u).last().1,
    decreases u.len(),
{
    if u.len() > 0 {
        let t = u.drop_last();
        let x = u.last();
        assert(u =~= t.push(x));
        assert(sorted_by_start(t));
        assert(well_formed(t)) by {
            assert forall|i: int| 0 <= i < t.len() implies #[trigger] t[i].0 <= t[i].1 by {
                assert(t[i] == u[i]);
            }
        }
        assert(x.0 <= x.1) by {
            assert(u[u.len() - 1] == x);
        }
        lemma_merge_sorted_links(t);
        lemma_merge_sorted_shape(t);
        lemma_merge_sorted_well_formed(t);
        let out = merge_sorted(t);
        let m = merge_step(out, x);
        assert(merge_sorted(u) == m);
        assert forall|q: u32| links(u, q) <==> links(t, q) || (x.0 <= q && q < x.1) by {
            lemma_links_push(t, x, q);
        }
        if out.len() == 0 {
            assert(t.len() == 0);
            assert(m =~= seq![x]);
            assert forall|i: int, q: u32| 0 <= i < m.len() && m[i].0 <= q && q < m[i].1 implies links(u, q) by {
                assert(m[i] == x);
            }
            assert forall|i: int| 0 <= i < m.len() implies !links(u, #[trigger] m[i].1) by {
                assert(m[i] == x);
                assert(!links(t, x.1));
            }
            assert forall|k: int| 0 <= k < u.len() implies #[trigger] u[k].1 <= m.last().1 by {
                assert(u[k] == x);
            }
        } else {
            let l = out.last();
            assert(t.last().0 <= x.0) by {
                assert(u[u.len() - 2] == t.last());
            }
            lemma_separated_sorted(out);
            assert forall|i: int| 0 <= i < out.len() - 1 implies #[trigger] out[i].1 < l.0 by {
                assert(out[i].1 < out[i + 1].0);
                assert(out[i + 1].0 <= out[out.len() - 1].0);
            }
            assert(l.0 <= l.1) by {
                assert(out[out.len() - 1] == l);
            }
            assert forall|k: int| 0 <= k < u.len() implies #[trigger] u[k].1 <= (if x.0 <= l.1 { if l.1 >= x.1 { l.1 } else { x.1 } } else { x.1 }) by {
                if k < t.len() {
                    assert(u[k] == t[k]);
                    assert(t[k].1 <= l.1);
                } else {
                    assert(u[k] == x);
                }
            }
            if x.0 <= l.1 {
                let nl = (l.0, if l.1 >= x.1 { l.1 } else { x.1 });
                assert(m =~= out.drop_last().push(nl));
                assert forall|i: int, q: u32| 0 <= i < m.len() && m[i].0 <= q && q < m[i].1 implies links(u, q) by {
                    if i < out.len() - 1 {
                        assert(m[i] == out[i]);
                        assert(links(t, q));
                    } else {
                        assert(m[i] == nl);
                        if q < l.1 {
                            assert(out[out.len() - 1] == l);
                            assert(links(t, q));
                        }
                    }
                }
                assert forall|i: int| 0 <= i < m.len() implies !links(u, #[trigger] m[i].1) by {
                    if i < out.len() - 1 {
                        assert(m[i] == out[i]);
                        assert(!links(t, out[i].1));
                        assert(out[i].1 < l.0);
                    } else {
                        assert(m[i] == nl);
                        if links(t, nl.1) {
                            let k = choose|k: int| 0 <= k < t.len() && #[trigger] t[k].0 <= nl.1 && nl.1 < t[k].1;
                            assert(t[k].1 <= l.1);
                        }
                    }
                }
            } else {
                assert(m =~= out.push(x));
                assert forall|i: int, q: u32| 0 <= i < m.len() && m[i].0 <= q && q < m[i].1 implies links(u, q) by {
                    if i < out.len() {
                        assert(m[i] == out[i]);
                        assert(links(t, q));
                    } else {
                        assert(m[i] == x);
                    }
                }
                assert forall|i: int| 0 <= i < m.len() implies !links(u, #[trigger] m[i].1) by {
                    if i < out.len() {
                        assert(m[i] == out[i]);
                        assert(!links(t, out[i].1));
                        if i < out.len() - 1 {
                            assert(out[i].1 < l.0);
                        } else {
                            assert(out[i] == l);
                        }
                    } else {
                        assert(m[i] == x);
                        if links(t, x.1) {
                            let k = choose|k: int| 0 <= k < t.len() && #[trigger] t[k].0 <= x.1 && x.1 < t[k].1;
                            assert(t[k].1 <= l.1);
                        }
                    }
                }
            }
        }
    }
}

proof fn lemma_first_start(m: Seq<(u32, u32)>, p: u32)
    requires
        separated(m),
        covered(m, p),
    ensures
        m[0].0 <= p,
{
    lemma_separated_sorted(m);
    let k = choose|k: int| 0 <= k < m.len() && in_range(#[trigger] m[k], p);
    assert(m[0].0 <= m[k].0);
}

proof fn lemma_tail_covered(m: Seq<(u32, u32)>, p: u32)
    requires
        separated(m),
        m.len() > 0,
    ensures
        covered(m.drop_first(), p) <==> covered(m, p) && p > m[0].1,
{
    lemma_separated_sorted(m);
    let t = m.drop_first();
    if covered(t, p) {
        let k = choose|k: int| 0 <= k < t.len() && in_range(#[trigger] t[k], p);
        assert(m[k + 1] == t[k]);
        assert(m[0].1 < m[1].0);
        assert(m[1].0 <= m[k + 1].0);
    }
    if covered(m, p) && p > m[0].1 {
        let k = choose|k: int| 0 <= k < m.len() && in_range(#[trigger] m[k], p);
        assert(k != 0);
        assert(t[k - 1] == m[k]);
    }
}

proof fn lemma_tail_shape(m: Seq<(u32, u32)>, s: Seq<(u32, u32)>)
    requires
        m.len() > 0,
        split_shape(m, s),
    ensures
        split_shape(m.drop_first(), s),
{
    reveal(split_shape);
    let t = m.drop_first();
    assert forall|i: int| 0 <= i < t.len() - 1 implies #[trigger] t[i].0 <= t[i + 1].0 && t[i].1 < t[i + 1].0 by {
        assert(t[i] == m[i + 1] && t[i + 1] == m[i + 2]);
    }
    assert forall|i: int| 0 <= i < t.len() implies #[trigger] t[i].0 <= t[i].1 by {
        assert(t[i] == m[i + 1]);
    }
    assert forall|i: int, q: u32| 0 <= i < t.len() && t[i].0 <= q && q < t[i].1 implies links(s, q) by {
        assert(t[i] == m[i + 1]);
    }
    assert forall|i: int| 0 <= i < t.len() implies !links(s, #[trigger] t[i].1) by {
        assert(t[i] == m[i + 1]);
    }
}

proof fn lemma_split_first(m1: Seq<(u32, u32)>, m2: Seq<(u32, u32)>, s: Seq<(u32, u32)>)
    requires
        m1.len() > 0,
        m2.len() > 0,
        split_shape(m1, s),
        split_shape(m2, s),
        same_cover(m1, m2),
    ensures
        m1[0] == m2[0],
        same_cover(m1.drop_first(), m2.drop_first()),
{
    reveal(split_shape);
    reveal(same_cover);
    assert(in_range(m1[0], m1[0].0));
    assert(covered(m1, m1[0].0));
    assert(in_range(m2[0], m2[0].0));
    assert(covered(m2, m2[0].0));
    lemma_first_start(m2, m1[0].0);
    lemma_first_start(m1, m2[0].0);
    let a = m1[0].1;
    let b = m2[0].1;
    if a < b {
        assert(links(s, a));
        assert(!links(s, m1[0].1));
    }
    if b < a {
        assert(links(s, b));
        assert(!links(s, m2[0].1));
    }
    assert forall|p: u32| covered(m1.drop_first(), p) <==> covered(m2.drop_first(), p) by {
        lemma_tail_covered(m1, p);
        lemma_tail_covered(m2, p);
    }
}

proof fn lemma_split_empty(m1: Seq<(u32, u32)>, m2: Seq<(u32, u32)>, s: Seq<(u32, u32)>)
    requires
        m1.len() == 0 || m2.len() == 0,
        split_shape(m1, s),
        split_shape(m2, s),
        same_cover(m1, m2),
    ensures
        m1 == m2,
{
    reveal(split_shape);
    reveal(same_cover);
    if m1.len() > 0 {
        assert(in_range(m1[0], m1[0].0));
        assert(covered(m1, m1[0].0));
    }
    if m2.len() > 0 {
        assert(in_range(m2[0], m2[0].0));
        assert(covered(m2, m2[0].0));
    }
    assert(m1 =~= m2);
}

proof fn lemma_split_unique(m1: Seq<(u32, u32)>, m2: Seq<(u32, u32)>, s: Seq<(u32, u32)>)
    requires
        split_shape(m1, s),
        split_shape(m2, s),
        same_cover(m1, m2),
    ensures
        m1 == m2,
    decreases m1.len(),
{
    if m1.len() == 0 || m2.len() == 0 {
        lemma_split_empty(m1, m2, s);
    } else {
        lemma_split_first(m1, m2, s);
        lemma_tail_shape(m1, s);
        lemma_tail_shape(m2, s);
        lemma_split_unique(m1.drop_first(), m2.drop_first(), s);
        assert(m1 =~= seq![m1[0]] + m1.drop_first());
        assert(m2 =~= seq![m2[0]] + m2.drop_first());
    }
}

proof fn lemma_merged_shape(s: Seq<(u32, u32)>)
    requires
        well_formed(s),
    ensures
        separated(merged(s)),
        well_formed(merged(s)),
        linked_within(merged(s), s),
        split_ends(merged(s), s),
{
    broadcast use vstd::seq_lib::group_to_multiset_ensures;
    lemma_merged_separated(s);
    lemma_merged_well_formed(s);
    lemma_sort_sorted(s);
    let t = sort_by_start(s);
    assert(well_formed(t)) by {
        assert forall|i: int| 0 <= i < t.len() implies #[trigger] t[i].0 <= t[i].1 by {
            assert(t.to_multiset().count(t[i]) > 0);
            assert(s.contains(t[i]));
        }
    }
    lemma_merge_sorted_links(t);
    assert forall|q: u32| links(t, q) <==> links(s, q) by {
        if links(t, q) {
            let i = choose|i: int| 0 <= i < t.len() && #[trigger] t[i].0 <= q && q < t[i].1;
            assert(t.to_multiset().count(t[i]) > 0);
            assert(s.contains(t[i]));
        }
        if links(s, q) {
            let i = choose|i: int| 0 <= i < s.len() && #[trigger] s[i].0 <= q && q < s[i].1;
            assert(s.to_multiset().count(s[i]) > 0);
            assert(t.contains(s[i]));
        }
    }
}

proof fn lemma_merged_permutation(s1: Seq<(u32, u32)>, s2: Seq<(u32, u32)>)
    requires
        well_formed(s1),
        s1.to_multiset() == s2.to_multiset(),
    ensures
        merged(s1) == merged(s2),
{
    broadcast use vstd::seq_lib::group_to_multiset_ensures;
    assert(well_formed(s2)) by {
        assert forall|i: int| 0 <= i < s2.len() implies #[trigger] s2[i].0 <= s2[i].1 by {
            assert(s2.to_multiset().count(s2[i]) > 0);
            assert(s1.contains(s2[i]));
        }
    }
    lemma_merged_shape(s1);
    lemma_merged_shape(s2);
    assert forall|q: u32| links(s1, q) <==> links(s2, q) by {
        if links(s1, q) {
            let i = choose|i: int| 0 <= i < s1.len() && #[trigger] s1[i].0 <= q && q < s1[i].1;
            assert(s1.to_multiset().count(s1[i]) > 0);
            assert(s2.contains(s1[i]));
        }
        if links(s2, q) {
            let i = choose|i: int| 0 <= i < s2.len() && #[trigger] s2[i].0 <= q && q < s2[i].1;
            assert(s2.to_multiset().count(s2[i]) > 0);
            assert(s1.contains(s2[i]));
        }
    }
    assert forall|p: u32| covered(merged(s1), p) <==> covered(merged(s2), p) by {
        lemma_merged_same_addresses(s1, p);
        lemma_merged_same_addresses(s2, p);
        if covered(s1, p) {
            let i = choose|i: int| 0 <= i < s1.len() && in_range(#[trigger] s1[i], p);
            assert(s1.to_multiset().count(s1[i]) > 0);
            assert(s2.contains(s1[i]));
        }
        if covered(s2, p) {
            let i = choose|i: int| 0 <= i < s2.len() && in_range(#[trigger] s2[i], p);
            assert(s2.to_multiset().count(s2[i]) > 0);
            assert(s1.contains(s2[i]));
        }
    }
    assert(linked_within(merged(s2), s1));
    assert(split_ends(merged(s2), s1));
    reveal(split_shape);
    reveal(same_cover);
    lemma_split_unique(merged(s1), merged(s2), s1);
}

/// Law: with ranges written start first, the order of the target list and of the
/// exclude list does not matter.
pub proof fn lemma_excluded_order_free(
    targets: Seq<(u32, u32)>,
    exclude: Seq<(u32, u32)>,
    targets2: Seq<(u32, u32)>,
    exclude2: Seq<(u32, u32)>,
)
    requires
        well_formed(targets),
        well_formed(exclude),
        targets2.to_multiset() == targets.to_multiset(),
        exclude2.to_multiset() == exclude.to_multiset(),
    ensures
        excluded(targets2, exclude2) == excluded(targets, exclude),
{
    lemma_merged_permutation(targets, targets2);
    lemma_merged_permutation(exclude, exclude2);
}

// ---------------------------------------------------------------------------
// Reading target lists
// ---------------------------------------------------------------------------

/// What `ipnet::Ipv4Net::from_str` makes of the text `s`: the network's address
/// and prefix length, when `s` is an IPv4 network in CIDR notation.
pub uninterp spec fn ipv4_net_parse(s: Seq<char>) -> Option<(u32, u8)>;

/// Parses `s` with `ipnet::Ipv4Net::from_str` and returns the network's address
/// and prefix length. The contract names the result and states, as ipnet's
/// source shows (`Ipv4Net::new` refuses longer prefixes), that the prefix length
/// is at most 32; which texts ipnet accepts is not stated.
#[verifier::external_body]
fn parse_ipv4_net(s: &[char]) -> (r: Option<(u32, u8)>)
    ensures
        r == ipv4_net_parse(s@),
        r matches Some((_, p)) ==> p <= 32,
{
    let text: String = s.iter().collect();
    match text.parse::<ipnet::Ipv4Net>() {
        Ok(net) => Some((u32::from(net.addr()), net.prefix_len())),
        Err(_) => None,
    }
}

/// The mask of the first `p` bits of an address.
pub open spec fn netmask(p: u8) -> u32 {
    if p == 0 {
        0
    } else {
        (0xffff_ffffu32 << ((32 - p) as u32)) as u32
    }
}

/// The mask of the last `32 - p` bits of an address.
pub open spec fn hostmask(p: u8) -> u32 {
    if p >= 32 {
        0
    } else {
        (0xffff_ffffu32 >> (p as u32)) as u32
    }
}

/// The first address of the network of `a` with prefix length `p`.
pub open spec fn network(a: u32, p: u8) -> u32 {
    a & netmask(p)
}

/// The last address of the network of `a` with prefix length `p`.
pub open spec fn broadcast(a: u32, p: u8) -> u32 {
    a | hostmask(p)
}

/// Law: a network's first address is at most its last, and both enclose the
/// address it was written with.
pub proof fn lemma_network_bounds(a: u32, p: u8)
    requires
        p <= 32,
    ensures
        network(a, p) <= a <= broadcast(a, p),
{
    let n = netmask(p);
    let h = hostmask(p);
    assert(a & n <= a) by (bit_vector);
    assert(a <= a | h) by (bit_vector);
}

proof fn lemma_block_masks(a: u32, k: u32, j: u32)
    by (bit_vector)
    requires
        1 <= k <= 31,
        j + k == 32,
    ensures
        (a & (0xffff_ffffu32 << k)) % (1u32 << k) == 0,
        (a & (0xffff_ffffu32 << k)) <= a,
        a <= (a | (0xffff_ffffu32 >> j)),
        (a | (0xffff_ffffu32 >> j)) == (a & (0xffff_ffffu32 << k)) + ((1u32 << k) - 1),
{
}

/// Law: a CIDR line naming address `a` with prefix length `p` denotes the block of
/// 2^(32-p) consecutive addresses that holds `a` and starts at a multiple of
/// 2^(32-p): the addresses that share `a`'s first `p` bits.
pub proof fn lemma_cidr_block(t: Seq<char>, a: u32, p: u8)
    requires
        p <= 32,
    ensures
        line_outcome_given(t, Some((a, p))) matches Ok((n, b)) && {
            &&& n as nat % vstd::arithmetic::power2::pow2((32 - p) as nat) == 0
            &&& n <= a <= b
            &&& b - n + 1 == vstd::arithmetic::power2::pow2((32 - p) as nat)
        },
{
    let n = network(a, p);
    let b = broadcast(a, p);
    if p == 0 {
        assert(netmask(p) == 0);
        assert(hostmask(p) == 0xffff_ffffu32 >> 0u32);
        assert(0xffff_ffffu32 >> 0u32 == 0xffff_ffffu32) by (bit_vector);
        assert(a & 0u32 == 0) by (bit_vector);
        assert(a | 0xffff_ffffu32 == 0xffff_ffffu32) by (bit_vector);
        vstd::arithmetic::power2::lemma2_to64();
    } else if p == 32 {
        assert(netmask(p) == 0xffff_ffffu32 << 0u32);
        assert(0xffff_ffffu32 << 0u32 == 0xffff_ffffu32) by (bit_vector);
        assert(hostmask(p) == 0);
        assert(a & 0xffff_ffffu32 == a) by (bit_vector);
        assert(a | 0u32 == a) by (bit_vector);
        vstd::arithmetic::power2::lemma2_to64();
    } else {
        let k: u32 = (32 - p) as u32;
        assert(netmask(p) == 0xffff_ffffu32 << k);
        let j: u32 = p as u32;
        assert(hostmask(p) == 0xffff_ffffu32 >> j);
        lemma_block_masks(a, k, j);
        vstd::bits::lemma_u32_pow2_no_overflow(k as nat);
        vstd::bits::lemma_u32_shl_is_mul(1, k);
    }
}

/// The first and last address of the network of `a` with prefix length `p`.
fn network_bounds(a: u32, p: u8) -> (r: (u32, u32))
    requires
        p <= 32,
    ensures
        r == (network(a, p), broadcast(a, p)),
{
    let mask: u32 = if p == 0 {
        0
    } else {
        0xffff_ffffu32 << (32 - p as u32)
    };
    let host: u32 = if p >= 32 {
        0
    } else {
        0xffff_ffffu32 >> (p as u32)
    };
    (a & mask, a | host)
}

/// Why a line of a target list was refused.
#[derive(Debug, Clone, Copy, PartialEq, Eq, Structural)]
pub enum LineFailure {
    /// One side of a `start-end` range is blank.
    EmptyBound,
    /// The end of a `start-end` range is not an address.
    BadEnd,
    /// The start of a `start-end` range is not an address.
    BadStart,
    /// The line is neither a CIDR network, an address nor a range.
    Unrecognized,
}

/// A refused line of a target list, with the (trimmed) line itself.
#[derive(Debug)]
pub struct RangeError {
    pub kind: LineFailure,
    pub line: Vec<char>,
}

/// The range a target line denotes, given what the CIDR parser made of it:
/// a network, a single address, or `start-end`.
pub open spec fn line_outcome_given(t: Seq<char>, cidr: Option<(u32, u8)>) -> Result<(u32, u32), LineFailure> {
    match cidr {
        Some((a, p)) => Ok((network(a, p), broadcast(a, p))),
        None => match ipv4_parse(t) {
            Some(ip) => Ok((ip, ip)),
            None => match index_of(t, '-') {
                None => Err(LineFailure::Unrecognized),
                Some(i) => {
                    let start = t.take(i as int);
                    let end = t.skip((i + 1) as int);
                    if trim(start).len() == 0 || trim(end).len() == 0 {
                        Err(LineFailure::EmptyBound)
                    } else {
                        match ipv4_parse(start) {
                            None => Err(LineFailure::BadStart),
                            Some(a) => match ipv4_parse(end) {
                                Some(b) => Ok((a, b)),
                                None => Err(LineFailure::BadEnd),
                            },
                        }
                    }
                },
            },
        },
    }
}

/// The range a target line denotes.
pub open spec fn line_outcome(t: Seq<char>) -> Result<(u32, u32), LineFailure> {
    line_outcome_given(t, ipv4_net_parse(t))
}

/// `r` is the executable form of the outcome `o` for the line `t`.
pub open spec fn line_result_matches(
    r: Result<(u32, u32), RangeError>,
    o: Result<(u32, u32), LineFailure>,
    t: Seq<char>,
) -> bool {
    match o {
        Ok(range) => r == Ok::<(u32, u32), RangeError>(range),
        Err(f) => r matches Err(e) && e.kind == f && e.line@ == t,
    }
}

/// Reads one target line, given what the CIDR parser made of it.
pub fn parse_masscan_line_with(line: &[char], cidr: Option<(u32, u8)>) -> (r: Result<(u32, u32), RangeError>)
    requires
        cidr matches Some((_, p)) ==> p <= 32,
    ensures
        line_result_matches(r, line_outcome_given(line@, cidr), line@),
{
    if let Some((a, p)) = cidr {
        return Ok(network_bounds(a, p));
    }
    if let Some(ip) = parse_ipv4(line) {
        return Ok((ip, ip));
    }
    let fail = |kind: LineFailure| -> (e: RangeError)
        ensures
            e.kind == kind,
            e.line@ == line@,
    {
        proof {
            assert(line@.subrange(0, line@.len() as int) =~= line@);
        }
        RangeError { kind, line: copy_range(line, 0, line.len()) }
    };
    proof {
        assert(line@.subrange(0, line@.len() as int) =~= line@);
    }
    match find_char(line, 0, '-') {
        None => {
            assert(line@.skip(0) =~= line@);
            Err(fail(LineFailure::Unrecognized))
        },
        Some(i) => {
            assert(line@.skip(0) =~= line@);
            let n = line.len();
            assert(i < n);
            let (s0, s1) = trim_bounds(line, 0, i);
            let (e0, e1) = trim_bounds(line, i + 1, line.len());
            proof {
                assert(line@.subrange(0, i as int) =~= line@.take(i as int));
                assert(line@.subrange(i + 1, line@.len() as int) =~= line@.skip(i + 1));
            }
            if s0 == s1 || e0 == e1 {
                return Err(fail(LineFailure::EmptyBound));
            }
            let start = copy_range(line, 0, i);
            let end = copy_range(line, i + 1, line.len());
            match parse_ipv4(start.as_slice()) {
                None => Err(fail(LineFailure::BadStart)),
                Some(a) => match parse_ipv4(end.as_slice()) {
                    Some(b) => Ok((a, b)),
                    None => Err(fail(LineFailure::BadEnd)),
                },
            }
        },
    }
}

/// Reads one line of a target list: a CIDR network, a single address or a
/// `start-end` range of addresses.
pub fn parse_masscan_line(str: &str) -> (r: Result<(u32, u32), RangeError>)
    ensures
        line_result_matches(r, line_outcome(str@), str@),
{
    let line = chars_of(str);
    let cidr = parse_ipv4_net(line.as_slice());
    parse_masscan_line_with(line.as_slice(), cidr)
}

/// A line that the target list reader passes over: a comment or a blank line.
pub open spec fn skipped_line(l: Seq<char>) -> bool {
    (l.len() > 0 && l[0] == '#') || trim(l).len() == 0
}

/// The ranges of a list of target lines, or the first refused line.
pub open spec fn masscan_outcome(ls: Seq<Seq<char>>) -> Result<Seq<(u32, u32)>, (LineFailure, Seq<char>)>
    decreases ls.len(),
{
    if ls.len() == 0 {
        Ok(Seq::empty())
    } else {
        let l = ls[0];
        let rest = masscan_outcome(ls.drop_first());
        if skipped_line(l) {
            rest
        } else {
            match line_outcome(trim(l)) {
                Err(f) => Err((f, trim(l))),
                Ok(r) => match rest {
                    Ok(rs) => Ok(seq![r] + rs),
                    Err(e) => Err(e),
                },
            }
        }
    }
}

/// `out` followed by the ranges of `o`, or the failure of `o`.
pub open spec fn prepend_ranges(
    out: Seq<(u32, u32)>,
    o: Result<Seq<(u32, u32)>, (LineFailure, Seq<char>)>,
) -> Result<Seq<(u32, u32)>, (LineFailure, Seq<char>)> {
    match o {
        Ok(rs) => Ok(out + rs),
        Err(e) => Err(e),
    }
}

/// Finds the end of the line that starts at `p` (without its line break) and
/// where the next line starts.
fn next_line(s: &[char], p: usize) -> (r: (usize, usize))
    requires
        p < s@.len(),
    ensures
        p <= r.0 <= r.1 <= s@.len(),
        p < r.1,
        lines(s@.skip(p as int)) == seq![s@.subrange(p as int, r.0 as int)] + lines(s@.skip(r.1 as int)),
{
    let n = s.len();
    let ghost t = s@;
    let ghost rest = t.skip(p as int);
    match find_char(s, p, '\n') {
        Some(i) => {
            let e = if i > p && s[i - 1] == '\r' {
                i - 1
            } else {
                i
            };
            proof {
                assert(rest.take(i - p) =~= t.subrange(p as int, i as int));
                assert(strip_cr(t.subrange(p as int, i as int)) =~= t.subrange(p as int, e as int));
                assert(rest.skip(i - p + 1) =~= t.skip(i + 1));
            }
            (e, i + 1)
        },
        None => {
            proof {
                assert(rest.len() > 0);
                assert(rest =~= t.subrange(p as int, n as int));
                lemma_lines_empty(t.skip(n as int));
                assert(seq![t.subrange(p as int, n as int)] + lines(t.skip(n as int)) =~= seq![t.subrange(p as int, n as int)]);
            }
            (n, n)
        },
    }
}

proof fn lemma_lines_empty(t: Seq<char>)
    requires
        t.len() == 0,
    ensures
        lines(t) == Seq::<Seq<char>>::empty(),
{
    assert(index_of(t, '\n') is None);
}

/// Reads the line `s[from..to]` of a target list: `None` for a line that is passed
/// over, otherwise the range of the trimmed line.
fn read_target_line(s: &[char], from: usize, to: usize) -> (r: Result<Option<(u32, u32)>, RangeError>)
    requires
        from <= to <= s@.len(),
    ensures
        ({
            let l = s@.subrange(from as int, to as int);
            if skipped_line(l) {
                r == Ok::<Option<(u32, u32)>, RangeError>(None)
            } else {
                match line_outcome(trim(l)) {
                    Ok(range) => r == Ok::<Option<(u32, u32)>, RangeError>(Some(range)),
                    Err(f) => r matches Err(e) && e.kind == f && e.line@ == trim(l),
                }
            }
        }),
{
    let ghost l = s@.subrange(from as int, to as int);
    let (b0, b1) = trim_bounds(s, from, to);
    let is_comment = to > from && s[from] == '#';
    proof {
        if to > from {
            assert(l[0] == s@[from as int]);
        }
    }
    if is_comment || b0 == b1 {
        return Ok(None);
    }
    let trimmed = copy_range(s, b0, b1);
    let cidr = parse_ipv4_net(trimmed.as_slice());
    match parse_masscan_line_with(trimmed.as_slice(), cidr) {
        Ok(range) => Ok(Some(range)),
        Err(e) => Err(e),
    }
}

/// Reads a target list in masscan format: one CIDR network, address or
/// `start-end` range per line; lines that start with `#` and blank lines are
/// passed over, the others are read without surrounding whitespace. Fails on
/// the first line that cannot be read.
pub fn parse_masscan(str: &str) -> (r: Result<Vec<(u32, u32)>, RangeError>)
    ensures
        match masscan_outcome(lines(str@)) {
            Ok(rs) => r matches Ok(v) && v@ == rs,
            Err((f, l)) => r matches Err(e) && e.kind == f && e.line@ == l,
        },
{
    let chars = chars_of(str);
    let s = chars.as_slice();
    let n = s.len();
    let ghost t = s@;
    let mut out: Vec<(u32, u32)> = Vec::new();
    let mut p: usize = 0;
    assert(t.skip(0) =~= t);
    while p < n
        invariant
            n == t.len(),
            t == s@,
            t == str@,
            p <= n,
            masscan_outcome(lines(t)) == prepend_ranges(out@, masscan_outcome(lines(t.skip(p as int)))),
        decreases n - p,
    {
        let (line_end, next) = next_line(s, p);
        let ghost ls = lines(t.skip(p as int));
        let ghost l = t.subrange(p as int, line_end as int);
        proof {
            assert(ls[0] == l);
            assert(ls.drop_first() =~= lines(t.skip(next as int)));
        }
        match read_target_line(s, p, line_end) {
            Ok(None) => {},
            Ok(Some(range)) => {
                proof {
                    match masscan_outcome(lines(t.skip(next as int))) {
                        Ok(rs) => {
                            assert(out@ + (seq![range] + rs) =~= out@.push(range) + rs);
                        },
                        Err(_) => {},
                    }
                }
                out.push(range);
            },
            Err(e) => {
                return Err(e);
            },
        }
        p = next;
    }
    proof {
        lemma_lines_empty(t.skip(n as int));
        assert(out@ + Seq::<(u32, u32)>::empty() =~= out@);
    }
    Ok(out)
}

// ---------------------------------------------------------------------------
// Laws of reading target lists
// ---------------------------------------------------------------------------

/// What one line of a target list contributes: nothing for a comment or a blank
/// line, otherwise the range of the trimmed line, or why that line was refused.
pub open spec fn target_line_outcome(l: Seq<char>) -> Result<Seq<(u32, u32)>, (LineFailure, Seq<char>)> {
    if skipped_line(l) {
        Ok(Seq::empty())
    } else {
        match line_outcome(trim(l)) {
            Ok(r) => Ok(seq![r]),
            Err(f) => Err((f, trim(l))),
        }
    }
}

/// The ranges of `a` followed by those of `b`, or the failure of `a`, else of `b`.
pub open spec fn then_ranges(
    a: Result<Seq<(u32, u32)>, (LineFailure, Seq<char>)>,
    b: Result<Seq<(u32, u32)>, (LineFailure, Seq<char>)>,
) -> Result<Seq<(u32, u32)>, (LineFailure, Seq<char>)> {
    match a {
        Ok(rs) => prepend_ranges(rs, b),
        Err(e) => Err(e),
    }
}

proof fn lemma_target_line_strip_cr(l: Seq<char>)
    ensures
        target_line_outcome(strip_cr(l)) == target_line_outcome(l),
{
    lemma_trim_strip_cr(l);
    if l.len() > 1 && l.last() == '\r' {
        assert(strip_cr(l)[0] == l[0]);
    }
}

/// Law: a target given on its own, text with no line feed, is read exactly as the
/// one line of a target list.
pub proof fn lemma_single_target(l: Seq<char>)
    requires
        forall|k: int| 0 <= k < l.len() ==> l[k] != '\n',
    ensures
        masscan_outcome(lines(l)) == target_line_outcome(l),
{
    lemma_lines_single(l);
    if l.len() == 0 {
        assert(trim(l) =~= Seq::<char>::empty());
    } else {
        let ls = seq![l];
        assert(ls.drop_first() =~= Seq::<Seq<char>>::empty());
        assert(masscan_outcome(ls.drop_first()) == Ok::<Seq<(u32, u32)>, (LineFailure, Seq<char>)>(Seq::empty()));
        match line_outcome(trim(l)) {
            Ok(r) => {
                assert(seq![r] + Seq::<(u32, u32)>::empty() =~= seq![r]);
            },
            Err(_) => {},
        }
    }
}

/// Law: each line of a target list is read as it would be on its own: a list made
/// of a line, a line feed and more text yields that line's ranges followed by the
/// ranges of the rest, or the first refused line.
pub proof fn lemma_target_list_line(l: Seq<char>, t: Seq<char>)
    requires
        forall|k: int| 0 <= k < l.len() ==> l[k] != '\n',
    ensures
        masscan_outcome(lines(l + seq!['\n'] + t)) == then_ranges(
            target_line_outcome(l),
            masscan_outcome(lines(t)),
        ),
{
    lemma_lines_split(l, t);
    lemma_target_line_strip_cr(l);
    let ls = seq![strip_cr(l)] + lines(t);
    assert(ls[0] == strip_cr(l));
    assert(ls.drop_first() =~= lines(t));
    match masscan_outcome(lines(t)) {
        Ok(rs) => {
            assert(Seq::<(u32, u32)>::empty() + rs =~= rs);
        },
        Err(_) => {},
    }
}

/// Law: a line whose first character is `#` is a comment and contributes
/// nothing, whatever follows the `#`; so does a line of whitespace only.
pub proof fn lemma_comment_line(l: Seq<char>)
    requires
        (l.len() > 0 && l[0] == '#') || (forall|k: int| 0 <= k < l.len() ==> is_whitespace(#[trigger] l[k])),
    ensures
        target_line_outcome(l) == Ok::<Seq<(u32, u32)>, (LineFailure, Seq<char>)>(Seq::empty()),
{
    if !(l.len() > 0 && l[0] == '#') {
        lemma_trim_all_whitespace(l);
    }
}

/// Law: putting a comment line (one that starts with `#`) in front of a target
/// list changes nothing that the list yields.
pub proof fn lemma_comment_line_ignored(l: Seq<char>, t: Seq<char>)
    requires
        l.len() > 0,
        l[0] == '#',
        forall|k: int| 0 <= k < l.len() ==> l[k] != '\n',
    ensures
        masscan_outcome(lines(l + seq!['\n'] + t)) == masscan_outcome(lines(t)),
{
    lemma_target_list_line(l, t);
    lemma_comment_line(l);
    match masscan_outcome(lines(t)) {
        Ok(rs) => {
            assert(Seq::<(u32, u32)>::empty() + rs =~= rs);
        },
        Err(_) => {},
    }
}

/// Law: a line that neither starts with `#` nor is blank yields the range that
/// its trimmed text denotes, or is refused with that text.
pub proof fn lemma_target_line_read(l: Seq<char>)
    requires
        !(l.len() > 0 && l[0] == '#'),
        trim(l).len() > 0,
    ensures
        target_line_outcome(l) == (match line_outcome(trim(l)) {
            Ok(r) => Ok::<Seq<(u32, u32)>, (LineFailure, Seq<char>)>(seq![r]),
            Err(f) => Err((f, trim(l))),
        }),
{
}

proof fn lemma_then_ranges_assoc(
    a: Result<Seq<(u32, u32)>, (LineFailure, Seq<char>)>,
    b: Result<Seq<(u32, u32)>, (LineFailure, Seq<char>)>,
    c: Result<Seq<(u32, u32)>, (LineFailure, Seq<char>)>,
)
    ensures
        then_ranges(a, then_ranges(b, c)) == then_ranges(then_ranges(a, b), c),
{
    if let (Ok(x), Ok(y), Ok(z)) = (a, b, c) {
        assert(x + (y + z) =~= (x + y) + z);
    }
}

/// Law: a target list made of two texts joined by a line feed yields the ranges
/// of the first text followed by those of the second, or the first refused line.
pub proof fn lemma_target_list_join(a: Seq<char>, b: Seq<char>)
    ensures
        masscan_outcome(lines(a + seq!['\n'] + b)) == then_ranges(
            masscan_outcome(lines(a)),
            masscan_outcome(lines(b)),
        ),
    decreases a.len(),
{
    lemma_index_of(a, '\n');
    match index_of(a, '\n') {
        None => {
            lemma_target_list_line(a, b);
            lemma_single_target(a);
        },
        Some(i) => {
            let l = a.take(i as int);
            let a2 = a.skip(i + 1 as int);
            assert(a =~= l + seq!['\n'] + a2);
            assert(a + seq!['\n'] + b =~= l + seq!['\n'] + (a2 + seq!['\n'] + b));
            lemma_target_list_line(l, a2);
            lemma_target_list_line(l, a2 + seq!['\n'] + b);
            lemma_target_list_join(a2, b);
            lemma_then_ranges_assoc(
                target_line_outcome(l),
                masscan_outcome(lines(a2)),
                masscan_outcome(lines(b)),
            );
        },
    }
}

} // verus!
