//! Boot-time handling of the firmware memory map.

use vstd::prelude::*;
use crate::allocator::{BuddyAllocator, PhysAddr, PHYS_LIMIT, region_start, region_end, align_up_spec, align_down_spec};

verus! {

/// What is left of the range `p` once `ex` is taken out: the parts left
/// and right of `ex`, or `p` itself when they do not overlap.
pub open spec fn cut_piece(p: (u64, u64), ex: (u64, u64)) -> Seq<(u64, u64)> {
    if p.0 < ex.1 && p.1 > ex.0 {
        (if p.0 < ex.0 { seq![(p.0, ex.0)] } else { Seq::empty() }) + (if p.1 > ex.1 { seq![(ex.1, p.1)] } else { Seq::empty() })
    } else {
        seq![p]
    }
}

/// Every range of `ps` with `ex` taken out, in order.
pub open spec fn cut_all(ps: Seq<(u64, u64)>, ex: (u64, u64)) -> Seq<(u64, u64)>
    decreases ps.len(),
{
    if ps.len() == 0 {
        Seq::empty()
    } else {
        cut_all(ps.drop_last(), ex) + cut_piece(ps.last(), ex)
    }
}

/// The ranges left of `[start, end)` once every range of `excludes` is
/// taken out.
pub open spec fn pieces(start: u64, end: u64, excludes: Seq<(u64, u64)>) -> Seq<(u64, u64)>
    decreases excludes.len(),
{
    if excludes.len() == 0 {
        seq![(start, end)]
    } else {
        cut_all(pieces(start, end, excludes.drop_last()), excludes.last())
    }
}

/// Each range ends at or before the start of each later one.
pub open spec fn sorted_ranges(ps: Seq<(u64, u64)>) -> bool {
    forall|i: int, j: int| 0 <= i < j < ps.len() ==> (#[trigger] ps[i]).1 <= (#[trigger] ps[j]).0
}

/// Every non-empty range lies within `[lo, hi)`.
pub open spec fn ranges_within(ps: Seq<(u64, u64)>, lo: u64, hi: u64) -> bool {
    forall|i: int| 0 <= i < ps.len() && (#[trigger] ps[i]).0 < ps[i].1 ==> lo <= ps[i].0 && ps[i].1 <= hi
}

/// Every range is empty or in order.
pub open spec fn ranges_proper(ps: Seq<(u64, u64)>) -> bool {
    forall|i: int| 0 <= i < ps.len() ==> (#[trigger] ps[i]).0 <= ps[i].1
}

proof fn lemma_cut_all(ps: Seq<(u64, u64)>, ex: (u64, u64), lo: u64, hi: u64)
    requires
        ex.0 <= ex.1,
        sorted_ranges(ps),
        ranges_within(ps, lo, hi),
        ranges_proper(ps),
    ensures
        sorted_ranges(cut_all(ps, ex)),
        ranges_within(cut_all(ps, ex), lo, hi),
        ranges_proper(cut_all(ps, ex)),
        forall|i: int| 0 <= i < cut_all(ps, ex).len() && ps.len() > 0 ==> (#[trigger] cut_all(ps, ex)[i]).1 <= ps.last().1,
        forall|i: int| 0 <= i < cut_all(ps, ex).len() && ps.len() > 0 ==> (#[trigger] cut_all(ps, ex)[i]).0 >= ps[0].0,
    decreases ps.len(),
{
    if ps.len() > 0 {
        let pre = ps.drop_last();
        assert(sorted_ranges(pre));
        assert(ranges_within(pre, lo, hi)) by {
            assert forall|i: int| 0 <= i < pre.len() && (#[trigger] pre[i]).0 < pre[i].1 implies lo <= pre[i].0 && pre[i].1 <= hi by {
                assert(pre[i] == ps[i]);
            }
        }
        assert(ranges_proper(pre)) by {
            assert forall|i: int| 0 <= i < pre.len() implies (#[trigger] pre[i]).0 <= pre[i].1 by {
                assert(pre[i] == ps[i]);
            }
        }
        lemma_cut_all(pre, ex, lo, hi);
        let a = cut_all(pre, ex);
        let b = cut_piece(ps.last(), ex);
        let c = cut_all(ps, ex);
        assert(c == a + b);
        let p = ps.last();
        assert forall|i: int| 0 <= i < b.len() implies p.0 <= (#[trigger] b[i]).0 && b[i].1 <= p.1 && b[i].0 <= b[i].1 by {}
        assert forall|i: int, j: int| 0 <= i < j < c.len() implies (#[trigger] c[i]).1 <= (#[trigger] c[j]).0 by {
            if j < a.len() {
                assert(c[i] == a[i] && c[j] == a[j]);
            } else if i >= a.len() {
                assert(c[i] == b[i - a.len()] && c[j] == b[j - a.len()]);
            } else {
                assert(c[i] == a[i]);
                assert(c[j] == b[j - a.len()]);
                assert(pre.len() > 0);
                assert(a[i].1 <= pre.last().1);
                assert(pre.last() == ps[ps.len() - 2]);
                assert(ps[ps.len() - 2].1 <= ps[ps.len() - 1].0);
            }
        }
        assert forall|i: int| 0 <= i < c.len() && (#[trigger] c[i]).0 < c[i].1 implies lo <= c[i].0 && c[i].1 <= hi by {
            if i < a.len() {
                assert(c[i] == a[i]);
            } else {
                assert(c[i] == b[i - a.len()]);
                assert(ps[ps.len() - 1] == p);
            }
        }
        assert forall|i: int| 0 <= i < c.len() implies (#[trigger] c[i]).0 <= c[i].1 by {
            if i < a.len() {
                assert(c[i] == a[i]);
            } else {
                assert(c[i] == b[i - a.len()]);
            }
        }
        assert forall|i: int| 0 <= i < c.len() implies (#[trigger] c[i]).1 <= ps.last().1 && c[i].0 >= ps[0].0 by {
            if i < a.len() {
                assert(c[i] == a[i]);
                assert(pre.last().1 <= ps.last().1) by {
                    assert(pre.last() == ps[ps.len() - 2]);
                    assert(ps[ps.len() - 2].0 <= ps[ps.len() - 2].1);
                    assert(ps[ps.len() - 2].1 <= ps[ps.len() - 1].0);
                }
                assert(pre[0] == ps[0]);
            } else {
                assert(c[i] == b[i - a.len()]);
                if ps.len() > 1 {
                    assert(ps[0].1 <= ps[ps.len() - 1].0);
                    assert(ps[0].0 <= ps[0].1);
                }
            }
        }
    }
}

proof fn lemma_pieces(start: u64, end: u64, excludes: Seq<(u64, u64)>)
    requires
        start <= end,
        ranges_proper(excludes),
    ensures
        sorted_ranges(pieces(start, end, excludes)),
        ranges_within(pieces(start, end, excludes), start, end),
        ranges_proper(pieces(start, end, excludes)),
    decreases excludes.len(),
{
    if excludes.len() > 0 {
        assert(ranges_proper(excludes.drop_last())) by {
            assert forall|i: int| 0 <= i < excludes.drop_last().len() implies (#[trigger] excludes.drop_last()[i]).0 <= excludes.drop_last()[i].1 by {
                assert(excludes.drop_last()[i] == excludes[i]);
            }
        }
        assert(excludes.last() == excludes[excludes.len() - 1]);
        lemma_pieces(start, end, excludes.drop_last());
        lemma_cut_all(pieces(start, end, excludes.drop_last()), excludes.last(), start, end);
    }
}

/// With `start > end` nothing is left but, perhaps, the inverted range.
proof fn lemma_pieces_inverted(start: u64, end: u64, excludes: Seq<(u64, u64)>)
    requires
        start > end,
    ensures
        forall|i: int| 0 <= i < pieces(start, end, excludes).len() ==> (#[trigger] pieces(start, end, excludes)[i]) == (start, end),
        pieces(start, end, excludes).len() <= 1,
    decreases excludes.len(),
{
    if excludes.len() > 0 {
        lemma_pieces_inverted(start, end, excludes.drop_last());
        let ps = pieces(start, end, excludes.drop_last());
        if ps.len() == 1 {
            assert(ps.drop_last() =~= Seq::<(u64, u64)>::empty());
            assert(cut_all(ps.drop_last(), excludes.last()) == Seq::<(u64, u64)>::empty());
            assert(cut_all(ps, excludes.last()) =~= cut_piece(ps.last(), excludes.last()));
        }
    }
}

proof fn lemma_cut_all_prefix(ps: Seq<(u64, u64)>, ex: (u64, u64), i: int)
    requires
        0 <= i <= ps.len(),
    ensures
        cut_all(ps.subrange(0, i), ex).len() <= cut_all(ps, ex).len(),
        cut_all(ps, ex).subrange(0, cut_all(ps.subrange(0, i), ex).len() as int) == cut_all(ps.subrange(0, i), ex),
    decreases ps.len() - i,
{
    if i < ps.len() {
        lemma_cut_all_prefix(ps, ex, i + 1);
        let s1 = ps.subrange(0, i + 1);
        assert(s1.drop_last() =~= ps.subrange(0, i));
        let a = cut_all(ps.subrange(0, i), ex);
        let b = cut_all(s1, ex);
        assert(b == a + cut_piece(s1.last(), ex));
        assert(b.subrange(0, a.len() as int) =~= a);
        let c = cut_all(ps, ex);
        assert(c.subrange(0, a.len() as int) =~= c.subrange(0, b.len() as int).subrange(0, a.len() as int));
    } else {
        assert(ps.subrange(0, i) =~= ps);
        assert(cut_all(ps, ex).subrange(0, cut_all(ps, ex).len() as int) =~= cut_all(ps, ex));
    }
}

/// The free bytes after the non-empty ranges among the first `n` of `ps`
/// were added to an allocator whose free bytes were `free`.
pub open spec fn added(ps: Seq<(u64, u64)>, n: int, a: int) -> bool {
    exists|i: int| 0 <= i < n && (#[trigger] ps[i]).1 > ps[i].0 && region_start(ps[i].0) <= a < region_end(ps[i].0, (ps[i].1 - ps[i].0) as usize)
}

/// Gives the allocator the page-aligned parts of `[start, end)` that lie
/// outside every range of `excludes`.
pub fn add_region_excluding(alloc: &mut BuddyAllocator, start: u64, end: u64, excludes: &[(u64, u64)])
    requires
        old(alloc).wf(),
        end <= PHYS_LIMIT,
        ranges_proper(excludes@),
        forall|k: int| 0 <= k <= excludes@.len() ==> (#[trigger] pieces(start, end, excludes@.subrange(0, k))).len() <= 8,
        forall|i: int| 0 <= i < pieces(start, end, excludes@).len() && (#[trigger] pieces(start, end, excludes@)[i]).0 < pieces(start, end, excludes@)[i].1
            ==> pieces(start, end, excludes@)[i].0 != 0 || pieces(start, end, excludes@)[i].1 - pieces(start, end, excludes@)[i].0 < 4096,
        forall|a: int| align_up_spec(start as int, 4096) <= a < align_down_spec(end as int, 4096) ==> !#[trigger] old(alloc).is_free(a),
    ensures
        final(alloc).wf(),
        forall|a: int| #[trigger] final(alloc).is_free(a) == (old(alloc).is_free(a)
            || added(pieces(start, end, excludes@), pieces(start, end, excludes@).len() as int, a)),
{
    let mut remaining: [(u64, u64); 8] = [(0u64, 0u64); 8];
    remaining[0] = (start, end);
    let mut count: usize = 1;
    let mut k: usize = 0;
    proof {
        assert(excludes@.subrange(0, 0) =~= Seq::<(u64, u64)>::empty());
    }
    while k < excludes.len()
        invariant
            k <= excludes@.len(),
            count <= 8,
            remaining@.subrange(0, count as int) == pieces(start, end, excludes@.subrange(0, k as int)),
            forall|j: int| 0 <= j <= excludes@.len() ==> (#[trigger] pieces(start, end, excludes@.subrange(0, j))).len() <= 8,
        decreases excludes@.len() - k,
    {
        let ex = excludes[k];
        let ghost cur = remaining@.subrange(0, count as int);
        proof {
            assert(excludes@.subrange(0, k + 1).drop_last() =~= excludes@.subrange(0, k as int));
            assert(excludes@.subrange(0, k + 1).last() == ex);
            assert(pieces(start, end, excludes@.subrange(0, k + 1)) == cut_all(cur, ex));
            assert(cut_all(cur, ex).len() <= 8);
        }
        let mut next: [(u64, u64); 8] = [(0u64, 0u64); 8];
        let mut next_count: usize = 0;
        let mut i: usize = 0;
        while i < count
            invariant
                i <= count <= 8,
                cur == remaining@.subrange(0, count as int),
                cut_all(cur, ex).len() <= 8,
                next_count <= 8,
                next@.subrange(0, next_count as int) == cut_all(cur.subrange(0, i as int), ex),
            decreases count - i,
        {
            let (r_s, r_e) = remaining[i];
            proof {
                lemma_cut_all_prefix(cur, ex, i + 1);
                let s1 = cur.subrange(0, i + 1);
                assert(s1.drop_last() =~= cur.subrange(0, i as int));
                assert(s1.last() == (r_s, r_e));
                assert(cut_all(s1, ex) == cut_all(cur.subrange(0, i as int), ex) + cut_piece((r_s, r_e), ex));
            }
            let ghost before = next@.subrange(0, next_count as int);
            if r_s < ex.1 && r_e > ex.0 {
                if r_s < ex.0 {
                    next[next_count] = (r_s, ex.0);
                    next_count = next_count + 1;
                }
                if r_e > ex.1 {
                    next[next_count] = (ex.1, r_e);
                    next_count = next_count + 1;
                }
            } else {
                next[next_count] = (r_s, r_e);
                next_count = next_count + 1;
            }
            proof {
                assert(next@.subrange(0, next_count as int) =~= before + cut_piece((r_s, r_e), ex));
            }
            i = i + 1;
        }
        proof {
            assert(cur.subrange(0, count as int) =~= cur);
        }
        remaining = next;
        count = next_count;
        k = k + 1;
    }
    proof {
        assert(excludes@.subrange(0, excludes@.len() as int) =~= excludes@);
    }
    let ghost ps = pieces(start, end, excludes@);
    let ghost a0 = *alloc;
    proof {
        if start <= end {
            lemma_pieces(start, end, excludes@);
        } else {
            lemma_pieces_inverted(start, end, excludes@);
        }
    }
    let mut i: usize = 0;
    while i < count
        invariant
            i <= count <= 8,
            ps == remaining@.subrange(0, count as int),
            ps == pieces(start, end, excludes@),
            alloc.wf(),
            end <= PHYS_LIMIT,
            start <= end ==> sorted_ranges(ps) && ranges_within(ps, start, end),
            start > end ==> forall|j: int| 0 <= j < ps.len() ==> (#[trigger] ps[j]) == (start, end),
            forall|j: int| 0 <= j < ps.len() && (#[trigger] ps[j]).0 < ps[j].1 ==> ps[j].0 != 0 || ps[j].1 - ps[j].0 < 4096,
            forall|a: int| align_up_spec(start as int, 4096) <= a < align_down_spec(end as int, 4096) ==> !#[trigger] a0.is_free(a),
            forall|a: int| #[trigger] alloc.is_free(a) == (a0.is_free(a) || added(ps, i as int, a)),
        decreases count - i,
    {
        let (s, e) = remaining[i];
        proof {
            assert(ps[i as int] == (s, e));
        }
        if e > s {
            proof {
                assert(start <= end);
                assert forall|a: int| region_start(s) <= a < region_end(s, (e - s) as usize) implies !alloc.is_free(a) by {
                    assert(align_up_spec(start as int, 4096) <= align_up_spec(s as int, 4096));
                    assert(align_down_spec(e as int, 4096) <= align_down_spec(end as int, 4096));
                    assert(!a0.is_free(a));
                    if added(ps, i as int, a) {
                        let j = choose|j: int| 0 <= j < i && (#[trigger] ps[j]).1 > ps[j].0 && region_start(ps[j].0) <= a < region_end(ps[j].0, (ps[j].1 - ps[j].0) as usize);
                        assert(ps[j].1 <= ps[i as int].0);
                        assert(align_down_spec(ps[j].1 as int, 4096) <= align_up_spec(s as int, 4096));
                    }
                }
            }
            alloc.add_region(PhysAddr::new(s), (e - s) as usize);
        }
        proof {
            assert forall|a: int| #[trigger] alloc.is_free(a) == (a0.is_free(a) || added(ps, i + 1, a)) by {
                if added(ps, i + 1, a) && !added(ps, i as int, a) {
                    let j = choose|j: int| 0 <= j < i + 1 && (#[trigger] ps[j]).1 > ps[j].0 && region_start(ps[j].0) <= a < region_end(ps[j].0, (ps[j].1 - ps[j].0) as usize);
                    assert(j == i);
                }
                if e > s && region_start(s) <= a < region_end(s, (e - s) as usize) {
                    assert(ps[i as int].1 > ps[i as int].0);
                }
            }
        }
        i = i + 1;
    }
}

} // verus!
