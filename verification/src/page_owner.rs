//! Record of which process and which purpose each allocated block serves.

use vstd::prelude::*;

verus! {

pub type Pid = u64;

/// Number of records the table is prepared to hold.
pub const RESERVE_CAPACITY: usize = 8192;

#[derive(Debug, Clone, Copy)]
pub struct PageOwner {
    pub tag: &'static str,
    pub pid: Pid,
    pub order: usize,
}

/// Records of allocated blocks: the block's physical address and its owner.
pub struct PageOwners {
    pub owners: Vec<(u64, PageOwner)>,
    pub capacity: usize,
}

impl PageOwners {
    pub fn new() -> (r: Self)
        ensures
            r.owners@.len() == 0,
            r.capacity == 0,
    {
        PageOwners { owners: Vec::new(), capacity: 0 }
    }

    /// The table has room for one more record.
    pub open spec fn has_room(&self) -> bool {
        self.owners@.len() < self.capacity
    }

    pub open spec fn addrs(&self) -> Seq<u64> {
        self.owners@.map_values(|e: (u64, PageOwner)| e.0)
    }
}

/// `o2` holds no more records than `o1`, each one of those of `o1`.
pub open spec fn kept_records(o1: Seq<(u64, PageOwner)>, o2: Seq<(u64, PageOwner)>) -> bool {
    &&& o2.len() <= o1.len()
    &&& forall|k: int| 0 <= k < o2.len() ==> o1.contains(#[trigger] o2[k])
}

pub proof fn lemma_kept_refl(o: Seq<(u64, PageOwner)>)
    ensures
        kept_records(o, o),
{
    assert forall|k: int| 0 <= k < o.len() implies o.contains(#[trigger] o[k]) by {}
}

pub proof fn lemma_kept_trans(o1: Seq<(u64, PageOwner)>, o2: Seq<(u64, PageOwner)>, o3: Seq<(u64, PageOwner)>)
    requires
        kept_records(o1, o2),
        kept_records(o2, o3),
    ensures
        kept_records(o1, o3),
{
    assert forall|k: int| 0 <= k < o3.len() implies o1.contains(#[trigger] o3[k]) by {
        assert(o2.contains(o3[k]));
        let j = choose|j: int| 0 <= j < o2.len() && o2[j] == o3[k];
        assert(o1.contains(o2[j]));
    }
}

/// Prepares room for `RESERVE_CAPACITY` records.
pub fn init(owners: &mut PageOwners)
    requires
        old(owners).owners@.len() + RESERVE_CAPACITY <= usize::MAX,
    ensures
        final(owners).owners@ == old(owners).owners@,
        final(owners).capacity == if old(owners).capacity < old(owners).owners@.len() + RESERVE_CAPACITY {
            (old(owners).owners@.len() + RESERVE_CAPACITY) as usize
        } else {
            old(owners).capacity
        },
{
    let len = owners.owners.len();
    if owners.capacity < len + RESERVE_CAPACITY {
        owners.capacity = len + RESERVE_CAPACITY;
    }
}

/// Records that the block at `phys` of the given order now serves `tag` for
/// process `pid`.
pub fn track(owners: &mut PageOwners, phys: u64, order: usize, tag: &'static str, pid: Pid)
    requires
        old(owners).has_room(),
    ensures
        final(owners).owners@ == old(owners).owners@.push((phys, PageOwner { tag, pid, order })),
        final(owners).capacity == old(owners).capacity,
{
    owners.owners.push((phys, PageOwner { tag, pid, order }));
}

/// Untracking a block right after it was tracked, when it had no record
/// before, hands back the record just made and leaves the table as it was.
pub proof fn law_untrack_undoes_track(before: PageOwners, after: PageOwners, phys: u64, rec: PageOwner)
    requires
        !before.addrs().contains(phys),
        after.owners@ == before.owners@.push((phys, rec)),
    ensures
        after.addrs().contains(phys),
        after.addrs().index_of_first(phys) == Some(before.owners@.len() as int),
        after.owners@[before.owners@.len() as int] == (phys, rec),
        after.owners@.update(before.owners@.len() as int, after.owners@.last()).drop_last() == before.owners@,
{
    let s = after.addrs();
    let n = before.owners@.len() as int;
    assert(s[n] == phys);
    s.index_of_first_ensures(phys);
    let j = s.index_of_first(phys)->0;
    if j < n {
        assert(s[j] == before.addrs()[j]);
    }
    assert(after.owners@.update(n, after.owners@.last()).drop_last() =~= before.owners@);
}

/// Removes the record of the block at `phys` and returns it. The last record
/// takes the place of the removed one.
pub fn untrack(owners: &mut PageOwners, phys: u64) -> (r: Option<PageOwner>)
    ensures
        final(owners).capacity == old(owners).capacity,
        kept_records(old(owners).owners@, final(owners).owners@),
        final(owners).owners@.len() <= old(owners).owners@.len(),
        match r {
            None => {
                &&& !old(owners).addrs().contains(phys)
                &&& final(owners).owners@ == old(owners).owners@
            },
            Some(o) => {
                let i = old(owners).addrs().index_of_first(phys);
                &&& old(owners).addrs().contains(phys)
                &&& i is Some
                &&& old(owners).owners@[i->0] == (phys, o)
                &&& final(owners).owners@ == old(owners).owners@.update(i->0, old(owners).owners@.last()).drop_last()
            },
        },
{
    let mut i: usize = 0;
    let n = owners.owners.len();
    while i < n
        invariant
            i <= n,
            n == owners.owners@.len(),
            owners.owners@ == old(owners).owners@,
            owners.capacity == old(owners).capacity,
            forall|k: int| 0 <= k < i ==> (#[trigger] owners.owners@[k]).0 != phys,
        decreases n - i,
    {
        if owners.owners[i].0 == phys {
            proof {
                let s = old(owners).addrs();
                assert(s[i as int] == phys);
                s.index_of_first_ensures(phys);
                let j = s.index_of_first(phys)->0;
                assert(j == i) by {
                    if j < i {
                        assert(owners.owners@[j].0 == s[j]);
                    }
                    if j > i {
                        assert(s[i as int] == phys);
                    }
                }
            }
            let (_, o) = owners.owners.swap_remove(i);
            proof {
                let o1 = old(owners).owners@;
                let o2 = owners.owners@;
                assert forall|k: int| 0 <= k < o2.len() implies o1.contains(#[trigger] o2[k]) by {
                    if k == i {
                        assert(o2[k] == o1[o1.len() - 1]);
                    } else {
                        assert(o2[k] == o1[k]);
                    }
                }
            }
            return Some(o);
        }
        i = i + 1;
    }
    proof {
        lemma_kept_refl(owners.owners@);
        let s = old(owners).addrs();
        if s.contains(phys) {
            let k = choose|k: int| 0 <= k < s.len() && s[k] == phys;
            assert(owners.owners@[k].0 == phys);
        }
    }
    None
}

/// The records of the blocks owned by `pid`, in table order.
pub fn owned_by(owners: &PageOwners, pid: Pid) -> (r: Vec<(u64, PageOwner)>)
    ensures
        r@ == owners.owners@.filter(|e: (u64, PageOwner)| e.1.pid == pid),
{
    let mut r: Vec<(u64, PageOwner)> = Vec::new();
    let mut i: usize = 0;
    let n = owners.owners.len();
    while i < n
        invariant
            i <= n,
            n == owners.owners@.len(),
            r@ == owners.owners@.subrange(0, i as int).filter(|e: (u64, PageOwner)| e.1.pid == pid),
        decreases n - i,
    {
        let e = owners.owners[i];
        proof {
            let s = owners.owners@;
            assert(s.subrange(0, i + 1) =~= s.subrange(0, i as int).push(s[i as int]));
            s.subrange(0, i as int).lemma_filter_push(s[i as int], |e: (u64, PageOwner)| e.1.pid == pid);
        }
        if e.1.pid == pid {
            r.push(e);
        }
        i = i + 1;
    }
    proof {
        assert(owners.owners@.subrange(0, n as int) =~= owners.owners@);
    }
    r
}

/// Number of records in `s` with the tag `tag`.
pub open spec fn tag_blocks(s: Seq<(u64, PageOwner)>, tag: Seq<char>) -> nat
    decreases s.len(),
{
    if s.len() == 0 {
        0
    } else {
        tag_blocks(s.drop_last(), tag) + if s.last().1.tag@ == tag { 1nat } else { 0nat }
    }
}

/// Number of pages in the blocks of the records in `s` with the tag `tag`.
pub open spec fn tag_pages(s: Seq<(u64, PageOwner)>, tag: Seq<char>) -> nat
    decreases s.len(),
{
    if s.len() == 0 {
        0
    } else {
        tag_pages(s.drop_last(), tag) + if s.last().1.tag@ == tag { vstd::arithmetic::power2::pow2(s.last().1.order as nat) } else { 0nat }
    }
}

proof fn lemma_tag_pages_mono(s: Seq<(u64, PageOwner)>, tag: Seq<char>, i: int)
    requires
        0 <= i <= s.len(),
    ensures
        tag_pages(s.subrange(0, i), tag) <= tag_pages(s, tag),
    decreases s.len() - i,
{
    if i < s.len() {
        lemma_tag_pages_mono(s, tag, i + 1);
        assert(s.subrange(0, i + 1).drop_last() =~= s.subrange(0, i));
    } else {
        assert(s.subrange(0, i) =~= s);
    }
}

/// The summary line of one tag: how many recorded blocks carry it and how
/// many pages they hold.
pub fn tag_usage(owners: &PageOwners, tag: &str) -> (r: (u64, u64))
    requires
        owners.owners@.len() <= u64::MAX,
        forall|i: int| 0 <= i < owners.owners@.len() ==> (#[trigger] owners.owners@[i]).1.order < 64,
        tag_pages(owners.owners@, tag@) <= u64::MAX,
    ensures
        r.0 == tag_blocks(owners.owners@, tag@),
        r.1 == tag_pages(owners.owners@, tag@),
{
    let ghost s = owners.owners@;
    let mut blocks: u64 = 0;
    let mut pages: u64 = 0;
    let mut i: usize = 0;
    while i < owners.owners.len()
        invariant
            s == owners.owners@,
            i <= s.len(),
            s.len() <= u64::MAX,
            forall|k: int| 0 <= k < s.len() ==> (#[trigger] s[k]).1.order < 64,
            tag_pages(s, tag@) <= u64::MAX,
            blocks == tag_blocks(s.subrange(0, i as int), tag@),
            pages == tag_pages(s.subrange(0, i as int), tag@),
            blocks <= i,
        decreases s.len() - i,
    {
        let e = owners.owners[i];
        proof {
            assert(s.subrange(0, i + 1).drop_last() =~= s.subrange(0, i as int));
            assert(s.subrange(0, i + 1).last() == s[i as int]);
            lemma_tag_pages_mono(s, tag@, i + 1);
        }
        if crate::text::str_eq(e.1.tag, tag) {
            let o = e.1.order as u64;
            proof {
                vstd::bits::lemma_u64_shl_is_mul(1, o);
                vstd::bits::lemma_u64_pow2_no_overflow(o as nat);
            }
            blocks = blocks + 1;
            pages = pages + (1u64 << o);
        }
        i = i + 1;
    }
    proof {
        assert(s.subrange(0, s.len() as int) =~= s);
    }
    (blocks, pages)
}

/// `a` comes before `b` in the order of their characters from position
/// `i` on (a proper prefix comes first).
pub open spec fn tag_less_from(a: Seq<char>, b: Seq<char>, i: int) -> bool
    decreases a.len() - i,
{
    if i < 0 || i >= a.len() {
        0 <= i < b.len()
    } else if i >= b.len() {
        false
    } else if a[i] != b[i] {
        a[i] < b[i]
    } else {
        tag_less_from(a, b, i + 1)
    }
}

/// `a` comes before `b` in lexicographic order of characters (the order of
/// their UTF-8 bytes).
pub open spec fn tag_less(a: Seq<char>, b: Seq<char>) -> bool {
    tag_less_from(a, b, 0)
}

/// Of two strings that agree before position `i`, one comes before the
/// other, or they agree from `i` on as well.
proof fn lemma_tag_total(a: Seq<char>, b: Seq<char>, i: int)
    requires
        0 <= i <= a.len(),
        i <= b.len(),
    ensures
        tag_less_from(a, b, i) || tag_less_from(b, a, i)
            || (a.len() == b.len() && forall|k: int| i <= k < a.len() ==> a[k] == b[k]),
    decreases a.len() - i,
{
    if i < a.len() && i < b.len() {
        if a[i] == b[i] {
            lemma_tag_total(a, b, i + 1);
            assert(tag_less_from(a, b, i) == tag_less_from(a, b, i + 1));
            assert(tag_less_from(b, a, i) == tag_less_from(b, a, i + 1));
        }
    }
}

/// Whether `a` comes before `b` (see `tag_less`).
pub fn tag_lt(a: &str, b: &str) -> (r: bool)
    ensures
        r == tag_less(a@, b@),
{
    let ca = crate::text::chars_of(a);
    let cb = crate::text::chars_of(b);
    let mut i: usize = 0;
    while i < ca.len() && i < cb.len()
        invariant
            ca@ == a@,
            cb@ == b@,
            i <= ca@.len(),
            i <= cb@.len(),
            tag_less(a@, b@) == tag_less_from(a@, b@, i as int),
        decreases ca@.len() - i,
    {
        if ca[i] != cb[i] {
            return ca[i] < cb[i];
        }
        i = i + 1;
    }
    i < cb.len()
}

/// The summary of one tag: the recorded blocks that carry it and the pages
/// they hold.
pub struct TagSummary {
    pub tag: &'static str,
    pub blocks: u64,
    pub pages: u64,
}

/// Some summary of `v` is the one of tag `t`.
pub open spec fn listed(v: Seq<TagSummary>, t: Seq<char>) -> bool {
    exists|j: int| 0 <= j < v.len() && (#[trigger] v[j]).tag@ == t
}

/// The tag of each record of `s`.
pub open spec fn tags_of(s: Seq<(u64, PageOwner)>) -> Seq<Seq<char>> {
    s.map_values(|e: (u64, PageOwner)| e.1.tag@)
}

/// The report of the table: the number of records, the capacity, and one
/// summary per distinct tag, in ascending order of tags.
pub fn dump(owners: &PageOwners) -> (r: (usize, usize, Vec<TagSummary>))
    requires
        owners.owners@.len() <= u64::MAX,
        forall|i: int| 0 <= i < owners.owners@.len() ==> (#[trigger] owners.owners@[i]).1.order < 64,
        forall|t: Seq<char>| #[trigger] tag_pages(owners.owners@, t) <= u64::MAX,
    ensures
        r.0 == owners.owners@.len(),
        r.1 == owners.capacity,
        forall|j: int| 0 <= j < r.2@.len() ==> tags_of(owners.owners@).contains((#[trigger] r.2@[j]).tag@)
            && r.2@[j].blocks == tag_blocks(owners.owners@, r.2@[j].tag@)
            && r.2@[j].pages == tag_pages(owners.owners@, r.2@[j].tag@),
        forall|k: int| 0 <= k < owners.owners@.len() ==> #[trigger] listed(r.2@, owners.owners@[k].1.tag@),
        forall|j: int| 0 <= j < r.2@.len() - 1 ==> tag_less((#[trigger] r.2@[j]).tag@, r.2@[j + 1].tag@),
{
    let ghost s = owners.owners@;
    let mut tags: Vec<&'static str> = Vec::new();
    let mut i: usize = 0;
    while i < owners.owners.len()
        invariant
            s == owners.owners@,
            i <= s.len(),
            forall|j: int| 0 <= j < tags@.len() ==> tags_of(s).contains((#[trigger] tags@[j])@),
            forall|k: int| 0 <= k < i ==> exists|j: int| 0 <= j < tags@.len() && (#[trigger] tags@[j])@ == (#[trigger] s[k]).1.tag@,
            forall|j: int| 0 <= j < tags@.len() - 1 ==> tag_less((#[trigger] tags@[j])@, tags@[j + 1]@),
            forall|j1: int, j2: int| 0 <= j1 < tags@.len() && 0 <= j2 < tags@.len() && j1 != j2 ==> (#[trigger] tags@[j1])@ != (#[trigger] tags@[j2])@,
        decreases s.len() - i,
    {
        let t = owners.owners[i].1.tag;
        proof {
            assert(tags_of(s)[i as int] == t@);
        }
        let mut found = false;
        let mut j: usize = 0;
        while j < tags.len()
            invariant
                j <= tags@.len(),
                found ==> exists|q: int| 0 <= q < tags@.len() && (#[trigger] tags@[q])@ == t@,
                !found ==> forall|q: int| 0 <= q < j ==> (#[trigger] tags@[q])@ != t@,
            decreases tags@.len() - j,
        {
            if crate::text::str_eq(tags[j], t) {
                found = true;
            }
            j = j + 1;
        }
        if !found {
            let mut pos: usize = 0;
            while pos < tags.len() && !tag_lt(t, tags[pos])
                invariant
                    pos <= tags@.len(),
                    forall|q: int| 0 <= q < pos ==> !tag_less(t@, (#[trigger] tags@[q])@),
                decreases tags@.len() - pos,
            {
                pos = pos + 1;
            }
            let ghost old_tags = tags@;
            proof {
                if pos > 0 {
                    assert(!tag_less(t@, old_tags[pos - 1]@));
                    assert(old_tags[pos - 1]@ != t@);
                    lemma_tag_total(t@, old_tags[pos - 1]@, 0);
                    if t@.len() == old_tags[pos - 1]@.len() && forall|k: int| 0 <= k < t@.len() ==> t@[k] == old_tags[pos - 1]@[k] {
                        assert(t@ =~= old_tags[pos - 1]@);
                    }
                }
            }
            tags.insert(pos, t);
            proof {
                assert forall|q: int| 0 <= q < tags@.len() implies tags_of(s).contains((#[trigger] tags@[q])@) by {
                    if q < pos {
                        assert(tags@[q] == old_tags[q]);
                    } else if q > pos {
                        assert(tags@[q] == old_tags[q - 1]);
                    }
                }
                assert forall|q: int| 0 <= q < tags@.len() - 1 implies tag_less((#[trigger] tags@[q])@, tags@[q + 1]@) by {
                    if q + 1 < pos {
                        assert(tags@[q] == old_tags[q] && tags@[q + 1] == old_tags[q + 1]);
                    } else if q > pos {
                        assert(tags@[q] == old_tags[q - 1] && tags@[q + 1] == old_tags[q]);
                    } else if q == pos {
                        assert(tags@[q + 1] == old_tags[pos as int]);
                    } else {
                        assert(tags@[q] == old_tags[q]);
                    }
                }
                assert forall|j1: int, j2: int| 0 <= j1 < tags@.len() && 0 <= j2 < tags@.len() && j1 != j2 implies (#[trigger] tags@[j1])@ != (#[trigger] tags@[j2])@ by {
                    let o1 = if j1 < pos { j1 } else { j1 - 1 };
                    let o2 = if j2 < pos { j2 } else { j2 - 1 };
                    if j1 != pos {
                        assert(tags@[j1] == old_tags[o1]);
                    }
                    if j2 != pos {
                        assert(tags@[j2] == old_tags[o2]);
                    }
                }
                assert forall|k: int| 0 <= k < i + 1 implies exists|q: int| 0 <= q < tags@.len() && (#[trigger] tags@[q])@ == (#[trigger] s[k]).1.tag@ by {
                    if k == i {
                        assert(tags@[pos as int]@ == s[k].1.tag@);
                    } else {
                        let q0 = choose|q: int| 0 <= q < old_tags.len() && (#[trigger] old_tags[q])@ == s[k].1.tag@;
                        if q0 < pos {
                            assert(tags@[q0] == old_tags[q0]);
                        } else {
                            assert(tags@[q0 + 1] == old_tags[q0]);
                        }
                    }
                }
            }
        }
        i = i + 1;
    }
    let mut out: Vec<TagSummary> = Vec::new();
    let mut j: usize = 0;
    while j < tags.len()
        invariant
            s == owners.owners@,
            j <= tags@.len(),
            out@.len() == j,
            s.len() <= u64::MAX,
            forall|k: int| 0 <= k < s.len() ==> (#[trigger] s[k]).1.order < 64,
            forall|t: Seq<char>| #[trigger] tag_pages(s, t) <= u64::MAX,
            forall|q: int| 0 <= q < j ==> (#[trigger] out@[q]).tag == tags@[q]
                && out@[q].blocks == tag_blocks(s, tags@[q]@) && out@[q].pages == tag_pages(s, tags@[q]@),
        decreases tags@.len() - j,
    {
        let t = tags[j];
        let (blocks, pages) = tag_usage(owners, t);
        out.push(TagSummary { tag: t, blocks, pages });
        j = j + 1;
    }
    let ghost o = out@;
    proof {
        assert forall|k: int| 0 <= k < owners.owners@.len() implies exists|q: int| 0 <= q < o.len() && (#[trigger] o[q]).tag@ == (#[trigger] owners.owners@[k]).1.tag@ by {
            assert(s[k] == owners.owners@[k]);
            let q0 = choose|q: int| 0 <= q < tags@.len() && (#[trigger] tags@[q])@ == s[k].1.tag@;
            assert(o[q0].tag == tags@[q0]);
            assert(o[q0].tag@ == owners.owners@[k].1.tag@);
        }
        assert forall|q: int| 0 <= q < o.len() - 1 implies tag_less((#[trigger] o[q]).tag@, o[q + 1].tag@) by {
            assert(o[q].tag == tags@[q] && o[q + 1].tag == tags@[q + 1]);
        }
    }
    let r = (owners.owners.len(), owners.capacity, out);
    proof {
        assert(r.2@ == o);
        assert forall|k: int| 0 <= k < owners.owners@.len() implies #[trigger] listed(r.2@, owners.owners@[k].1.tag@) by {
            let q0 = choose|q: int| 0 <= q < o.len() && (#[trigger] o[q]).tag@ == owners.owners@[k].1.tag@;
            assert(r.2@[q0] == o[q0]);
        }
    }
    r
}

} // verus!
