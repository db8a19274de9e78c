//! Pure parts of the system-call layer: path resolution and the plan for
//! copying bytes into user memory.

use vstd::prelude::*;
use crate::text::{chars_of, string_push};
use crate::paging::{PageTableManager, PhysMemory, translate_spec};
use crate::process::{Scheduler, Process};
use crate::fd::{FdKind, FileNode, OpenFile, OpenFiles, first_free};
use crate::fs::ramfs::{Ramfs, RamfsModel, model_write_file, dir_names, dir_prefix};
use crate::fs::procfs::{ProcfsNode, format_maps, format_status, maps_text, status_text, mapped_kb};
use crate::text::str_eq;
use crate::vma::all_proper;
use vstd::slice::slice_to_vec;
use vstd::utf8::encode_utf8;

verus! {

/// The pieces of `s` between slashes, as `str::split('/')` yields them.
pub open spec fn split_slash(s: Seq<char>) -> Seq<Seq<char>>
    decreases s.len(),
{
    if s.len() == 0 {
        seq![Seq::empty()]
    } else {
        let p = split_slash(s.drop_last());
        if s.last() == '/' {
            p.push(Seq::empty())
        } else {
            p.update(p.len() - 1, p.last().push(s.last()))
        }
    }
}

proof fn lemma_split_nonempty(s: Seq<char>)
    ensures
        split_slash(s).len() >= 1,
    decreases s.len(),
{
    if s.len() > 0 {
        lemma_split_nonempty(s.drop_last());
    }
}

/// The non-empty pieces of `cs`.
pub open spec fn nonempty(cs: Seq<Seq<char>>) -> Seq<Seq<char>>
    decreases cs.len(),
{
    if cs.len() == 0 {
        Seq::empty()
    } else {
        let p = nonempty(cs.drop_last());
        if cs.last().len() > 0 { p.push(cs.last()) } else { p }
    }
}

/// The directory stack after walking the components `comps` from `stack`:
/// empty components and "." stay, ".." goes up (not above the root), any
/// other name goes down.
pub open spec fn walk(stack: Seq<Seq<char>>, comps: Seq<Seq<char>>) -> Seq<Seq<char>>
    decreases comps.len(),
{
    if comps.len() == 0 {
        stack
    } else {
        step(walk(stack, comps.drop_last()), comps.last())
    }
}

pub open spec fn step(st: Seq<Seq<char>>, c: Seq<char>) -> Seq<Seq<char>> {
    if c.len() == 0 || c == seq!['.'] {
        st
    } else if c == seq!['.', '.'] {
        if st.len() > 0 { st.drop_last() } else { st }
    } else {
        st.push(c)
    }
}

/// The names of `st` with a slash between each two.
pub open spec fn join_slash(st: Seq<Seq<char>>) -> Seq<char>
    decreases st.len(),
{
    if st.len() == 0 {
        Seq::empty()
    } else if st.len() == 1 {
        st[0]
    } else {
        join_slash(st.drop_last()) + seq!['/'] + st.last()
    }
}

/// The absolute path that `raw` names from the directory `cwd`.
pub open spec fn resolve_spec(cwd: Seq<char>, raw: Seq<char>) -> Seq<char> {
    let start = if raw.len() > 0 && raw[0] == '/' { Seq::empty() } else { nonempty(split_slash(cwd)) };
    seq!['/'] + join_slash(walk(start, split_slash(raw)))
}

/// A directory name: not empty, without a slash.
pub open spec fn is_name(c: Seq<char>) -> bool {
    c.len() > 0 && !c.contains('/')
}

proof fn lemma_split_no_slash(s: Seq<char>)
    ensures
        forall|k: int| 0 <= k < split_slash(s).len() ==> !(#[trigger] split_slash(s)[k]).contains('/'),
    decreases s.len(),
{
    if s.len() > 0 {
        let p = split_slash(s.drop_last());
        lemma_split_no_slash(s.drop_last());
        lemma_split_nonempty(s.drop_last());
        if s.last() != '/' {
            assert forall|k: int| 0 <= k < split_slash(s).len() implies !(#[trigger] split_slash(s)[k]).contains('/') by {
                if k == p.len() - 1 {
                    let l = p.last().push(s.last());
                    assert(split_slash(s)[k] == l);
                    if l.contains('/') {
                        let j = choose|j: int| 0 <= j < l.len() && l[j] == '/';
                        if j < p.last().len() {
                            assert(p.last()[j] == '/');
                            assert(p.last().contains('/'));
                        }
                    }
                } else {
                    assert(split_slash(s)[k] == p[k]);
                }
            }
        } else {
            assert forall|k: int| 0 <= k < split_slash(s).len() implies !(#[trigger] split_slash(s)[k]).contains('/') by {
                if k < p.len() {
                    assert(split_slash(s)[k] == p[k]);
                } else {
                    assert(split_slash(s)[k] =~= Seq::<char>::empty());
                }
            }
        }
    }
}

proof fn lemma_nonempty_names(cs: Seq<Seq<char>>)
    requires
        forall|k: int| 0 <= k < cs.len() ==> !(#[trigger] cs[k]).contains('/'),
    ensures
        forall|k: int| 0 <= k < nonempty(cs).len() ==> is_name(#[trigger] nonempty(cs)[k]),
    decreases cs.len(),
{
    if cs.len() > 0 {
        assert forall|k: int| 0 <= k < cs.drop_last().len() implies !(#[trigger] cs.drop_last()[k]).contains('/') by {
            assert(cs.drop_last()[k] == cs[k]);
        }
        lemma_nonempty_names(cs.drop_last());
        assert(!cs[cs.len() - 1].contains('/'));
        let p = nonempty(cs.drop_last());
        assert forall|k: int| 0 <= k < nonempty(cs).len() implies is_name(#[trigger] nonempty(cs)[k]) by {
            if k < p.len() {
                assert(nonempty(cs)[k] == p[k]);
            }
        }
    }
}

proof fn lemma_walk_names(st: Seq<Seq<char>>, comps: Seq<Seq<char>>)
    requires
        forall|k: int| 0 <= k < st.len() ==> is_name(#[trigger] st[k]),
        forall|k: int| 0 <= k < comps.len() ==> !(#[trigger] comps[k]).contains('/'),
    ensures
        forall|k: int| 0 <= k < walk(st, comps).len() ==> is_name(#[trigger] walk(st, comps)[k]),
    decreases comps.len(),
{
    if comps.len() > 0 {
        assert forall|k: int| 0 <= k < comps.drop_last().len() implies !(#[trigger] comps.drop_last()[k]).contains('/') by {
            assert(comps.drop_last()[k] == comps[k]);
        }
        lemma_walk_names(st, comps.drop_last());
        let w = walk(st, comps.drop_last());
        let c = comps.last();
        assert(!comps[comps.len() - 1].contains('/'));
        assert forall|k: int| 0 <= k < step(w, c).len() implies is_name(#[trigger] step(w, c)[k]) by {
            if c.len() == 0 || c == seq!['.'] {
            } else if c == seq!['.', '.'] {
                if w.len() > 0 {
                    assert(step(w, c)[k] == w[k]);
                }
            } else {
                if k < w.len() {
                    assert(step(w, c)[k] == w[k]);
                }
            }
        }
    }
}

proof fn lemma_split_append(s: Seq<char>, c: Seq<char>)
    requires
        !c.contains('/'),
    ensures
        split_slash(s + seq!['/'] + c) == split_slash(s).push(c),
    decreases c.len(),
{
    let t = s + seq!['/'] + c;
    if c.len() == 0 {
        assert(t =~= s + seq!['/']);
        assert(t.drop_last() =~= s);
        assert(c =~= Seq::<char>::empty());
        assert(t.last() == '/');
    } else {
        let c0 = c.drop_last();
        assert(!c0.contains('/')) by {
            if c0.contains('/') {
                let j = choose|j: int| 0 <= j < c0.len() && c0[j] == '/';
                assert(c[j] == '/');
            }
        }
        lemma_split_append(s, c0);
        assert(t.drop_last() =~= s + seq!['/'] + c0);
        assert(t.last() == c.last());
        assert(c.last() != '/') by {
            assert(c[c.len() - 1] == c.last());
        }
        let pp = split_slash(s).push(c0);
        assert(split_slash(t) == pp.update(pp.len() - 1, pp.last().push(t.last())));
        assert(pp.update(pp.len() - 1, pp.last().push(c.last())) =~= split_slash(s).push(c)) by {
            assert(c0.push(c.last()) =~= c);
        }
    }
}

/// Resolving `raw/c` for one more component `c` (without a slash) goes on
/// from the resolution of `raw`: an empty component or "." stays there,
/// and a name other than ".." goes down into it.
pub proof fn law_resolve_one_more(cwd: Seq<char>, raw: Seq<char>, c: Seq<char>)
    requires
        raw.len() > 0,
        !c.contains('/'),
    ensures
        ({
            let p = resolve_spec(cwd, raw);
            let q = resolve_spec(cwd, raw + seq!['/'] + c);
            &&& (c.len() == 0 || c == seq!['.']) ==> q == p
            &&& (c.len() > 0 && c != seq!['.'] && c != seq!['.', '.']) ==>
                q == (if p == seq!['/'] { p + c } else { p + seq!['/'] + c })
        }),
{
    let r2 = raw + seq!['/'] + c;
    assert(r2[0] == raw[0]);
    let start = if raw.len() > 0 && raw[0] == '/' { Seq::empty() } else { nonempty(split_slash(cwd)) };
    lemma_split_append(raw, c);
    let sp = split_slash(raw);
    let st = walk(start, sp);
    assert(sp.push(c).drop_last() =~= sp);
    assert(walk(start, split_slash(r2)) == step(st, c));
    lemma_split_no_slash(cwd);
    lemma_nonempty_names(split_slash(cwd));
    lemma_split_no_slash(raw);
    lemma_walk_names(start, sp);
    let p = resolve_spec(cwd, raw);
    if c.len() > 0 && c != seq!['.'] && c != seq!['.', '.'] {
        assert(st.push(c).drop_last() =~= st);
        if st.len() == 0 {
            assert(join_slash(st) =~= Seq::<char>::empty());
            assert(join_slash(st.push(c)) == c);
            assert(p =~= seq!['/']);
        } else {
            assert(is_name(st[st.len() - 1]));
            assert(join_slash(st).len() > 0) by {
                if st.len() > 1 {
                    assert(join_slash(st) == join_slash(st.drop_last()) + seq!['/'] + st.last());
                }
            }
            assert(p.len() > 1);
            assert(p != seq!['/']);
            assert(resolve_spec(cwd, r2) =~= p + seq!['/'] + c);
        }
    }
}

/// An absolute path names the same place from every directory, and "/"
/// names the root.
pub proof fn law_absolute_ignores_cwd(cwd1: Seq<char>, cwd2: Seq<char>, raw: Seq<char>)
    requires
        raw.len() > 0,
        raw[0] == '/',
    ensures
        resolve_spec(cwd1, raw) == resolve_spec(cwd2, raw),
        resolve_spec(cwd1, seq!['/']) == seq!['/'],
{
    let r = seq!['/'];
    assert(r.drop_last() =~= Seq::<char>::empty());
    assert(split_slash(r) == split_slash(Seq::<char>::empty()).push(Seq::<char>::empty()));
    let sp = split_slash(r);
    assert(sp.drop_last().drop_last() =~= Seq::<Seq<char>>::empty());
    assert(walk(Seq::empty(), sp) =~= Seq::<Seq<char>>::empty()) by {
        assert(walk(Seq::empty(), sp.drop_last()) == step(walk(Seq::empty(), sp.drop_last().drop_last()), sp.drop_last().last()));
    }
    assert(join_slash(Seq::<Seq<char>>::empty()) =~= Seq::<char>::empty());
    assert(resolve_spec(cwd1, r) =~= seq!['/']);
}

/// `..` after a path names its parent: the resolved path loses its last
/// name, the root staying the root. Resolving `raw` gives either the root
/// (and so does `raw/..`), or the resolution of `raw/..` followed by one
/// more name.
pub proof fn law_dotdot_goes_up(cwd: Seq<char>, raw: Seq<char>)
    requires
        raw.len() > 0,
    ensures
        ({
            let p = resolve_spec(cwd, raw);
            let q = resolve_spec(cwd, raw + seq!['/', '.', '.']);
            ||| p == seq!['/'] && q == seq!['/']
            ||| exists|name: Seq<char>| is_name(name) && p == (if q == seq!['/'] { q + name } else { q + seq!['/'] + name })
        }),
{
    let r2 = raw + seq!['/', '.', '.'];
    assert(r2[0] == raw[0]);
    let start = if raw.len() > 0 && raw[0] == '/' { Seq::empty() } else { nonempty(split_slash(cwd)) };
    assert(r2.drop_last() =~= raw + seq!['/', '.']);
    assert(r2.drop_last().drop_last() =~= raw + seq!['/']);
    assert(r2.drop_last().drop_last().drop_last() =~= raw);
    lemma_split_nonempty(raw);
    let sp = split_slash(raw);
    assert(split_slash(raw + seq!['/']) == sp.push(Seq::empty()));
    let sp1 = sp.push(Seq::<char>::empty());
    assert(split_slash(raw + seq!['/', '.']) == sp1.update(sp1.len() - 1, sp1.last().push('.')));
    assert(Seq::<char>::empty().push('.') =~= seq!['.']);
    assert(sp1.update(sp1.len() - 1, sp1.last().push('.')) =~= sp.push(seq!['.']));
    let sp2 = sp.push(seq!['.']);
    assert(split_slash(r2) == sp2.update(sp2.len() - 1, sp2.last().push('.')));
    assert(seq!['.'].push('.') =~= seq!['.', '.']);
    assert(sp2.update(sp2.len() - 1, sp2.last().push('.')) =~= sp.push(seq!['.', '.']));
    let st = walk(start, sp);
    assert(sp.push(seq!['.', '.']).drop_last() =~= sp);
    assert(walk(start, split_slash(r2)) == step(st, seq!['.', '.']));
    lemma_split_no_slash(cwd);
    lemma_nonempty_names(split_slash(cwd));
    lemma_split_no_slash(raw);
    lemma_walk_names(start, sp);
    if st.len() > 0 {
        let st0 = st.drop_last();
        let name = st.last();
        assert(is_name(st[st.len() - 1]));
        assert(st0.push(name) =~= st);
        let p = resolve_spec(cwd, raw);
        let q = resolve_spec(cwd, r2);
        assert(q == seq!['/'] + join_slash(st0));
        if st0.len() == 0 {
            assert(join_slash(st0) =~= Seq::<char>::empty());
            assert(q =~= seq!['/']);
            assert(p =~= q + name);
        } else {
            assert(is_name(st0[st0.len() - 1])) by {
                assert(st0[st0.len() - 1] == st[st0.len() - 1]);
            }
            assert(join_slash(st0).len() > 0) by {
                if st0.len() == 1 {
                } else {
                    assert(join_slash(st0) == join_slash(st0.drop_last()) + seq!['/'] + st0.last());
                }
            }
            assert(q.len() > 1);
            assert(q != seq!['/']);
            assert(p =~= q + seq!['/'] + name);
        }
    } else {
        assert(join_slash(st) =~= Seq::<char>::empty());
    }
}

/// Applies `step` for the component `c`.
fn apply_step(stack: &mut Vec<Vec<char>>, c: Vec<char>)
    ensures
        final(stack)@.map_values(|v: Vec<char>| v@) == step(old(stack)@.map_values(|v: Vec<char>| v@), c@),
{
    let dot = c.len() == 1 && c[0] == '.';
    let dotdot = c.len() == 2 && c[0] == '.' && c[1] == '.';
    proof {
        assert(dot == (c@ == seq!['.'])) by {
            if c@ == seq!['.'] {
                assert(c@[0] == '.');
            }
            if dot {
                assert(c@ =~= seq!['.']);
            }
        }
        assert(dotdot == (c@ == seq!['.', '.'])) by {
            if c@ == seq!['.', '.'] {
                assert(c@[0] == '.' && c@[1] == '.');
            }
            if dotdot {
                assert(c@ =~= seq!['.', '.']);
            }
        }
    }
    let ghost before = stack@.map_values(|v: Vec<char>| v@);
    if c.len() == 0 || dot {
    } else if dotdot {
        if stack.len() > 0 {
            stack.pop();
            proof {
                assert(stack@.map_values(|v: Vec<char>| v@) =~= before.drop_last());
            }
        }
    } else {
        stack.push(c);
        proof {
            assert(stack@.map_values(|v: Vec<char>| v@) =~= before.push(c@));
        }
    }
}

/// Splits `s` at slashes and hands each piece, in order, to `keep`: the
/// pieces are pushed onto `stack` when `walk_them` is false (empty pieces
/// dropped), or walked with `step` when it is true.
fn feed(stack: &mut Vec<Vec<char>>, s: &Vec<char>, walk_them: bool)
    ensures
        walk_them ==> final(stack)@.map_values(|v: Vec<char>| v@) == walk(old(stack)@.map_values(|v: Vec<char>| v@), split_slash(s@)),
        !walk_them ==> final(stack)@.map_values(|v: Vec<char>| v@) == old(stack)@.map_values(|v: Vec<char>| v@) + nonempty(split_slash(s@)),
{
    let ghost st0 = stack@.map_values(|v: Vec<char>| v@);
    let mut cur: Vec<char> = Vec::new();
    let mut i: usize = 0;
    proof {
        assert(s@.subrange(0, 0) =~= Seq::<char>::empty());
    }
    while i < s.len()
        invariant
            i <= s@.len(),
            split_slash(s@.subrange(0, i as int)).last() == cur@,
            split_slash(s@.subrange(0, i as int)).len() >= 1,
            walk_them ==> stack@.map_values(|v: Vec<char>| v@) == walk(st0, split_slash(s@.subrange(0, i as int)).drop_last()),
            !walk_them ==> stack@.map_values(|v: Vec<char>| v@) == st0 + nonempty(split_slash(s@.subrange(0, i as int)).drop_last()),
        decreases s@.len() - i,
    {
        let c = s[i];
        let ghost pre = split_slash(s@.subrange(0, i as int));
        proof {
            let t = s@.subrange(0, i + 1);
            assert(t.drop_last() =~= s@.subrange(0, i as int));
            assert(t.last() == c);
        }
        if c == '/' {
            let piece = cur;
            cur = Vec::new();
            let ghost sb = stack@.map_values(|v: Vec<char>| v@);
            if walk_them {
                apply_step(stack, piece);
            } else if piece.len() > 0 {
                stack.push(piece);
                proof {
                    assert(stack@.map_values(|v: Vec<char>| v@) =~= sb.push(piece@));
                }
            }
            proof {
                let post = split_slash(s@.subrange(0, i + 1));
                assert(post == pre.push(Seq::empty()));
                assert(post.drop_last() =~= pre);
                assert(pre == pre.drop_last().push(pre.last()));
                if !walk_them {
                    assert(nonempty(pre) == (if pre.last().len() > 0 { nonempty(pre.drop_last()).push(pre.last()) } else { nonempty(pre.drop_last()) }));
                    assert(stack@.map_values(|v: Vec<char>| v@) =~= st0 + nonempty(pre));
                }
            }
        } else {
            cur.push(c);
            proof {
                let post = split_slash(s@.subrange(0, i + 1));
                assert(post == pre.update(pre.len() - 1, pre.last().push(c)));
                assert(post.drop_last() =~= pre.drop_last());
            }
        }
        i = i + 1;
    }
    proof {
        assert(s@.subrange(0, s@.len() as int) =~= s@);
        let all = split_slash(s@);
        assert(all == all.drop_last().push(all.last()));
    }
    if walk_them {
        apply_step(stack, cur);
    } else if cur.len() > 0 {
        let ghost before = stack@.map_values(|v: Vec<char>| v@);
        stack.push(cur);
        proof {
            assert(stack@.map_values(|v: Vec<char>| v@) =~= before.push(split_slash(s@).last()));
        }
    }
}

/// The absolute path that `raw_path` names from the directory `cwd`.
pub fn resolve_path(cwd: &str, raw_path: &str) -> (r: String)
    ensures
        r@ == resolve_spec(cwd@, raw_path@),
{
    let raw = chars_of(raw_path);
    let mut stack: Vec<Vec<char>> = Vec::new();
    proof {
        assert(stack@.map_values(|v: Vec<char>| v@) =~= Seq::<Seq<char>>::empty());
    }
    if !(raw.len() > 0 && raw[0] == '/') {
        let c = chars_of(cwd);
        feed(&mut stack, &c, false);
        proof {
            assert(Seq::<Seq<char>>::empty() + nonempty(split_slash(cwd@)) =~= nonempty(split_slash(cwd@)));
        }
    }
    feed(&mut stack, &raw, true);
    let mut out = String::new();
    string_push(&mut out, '/');
    let ghost st = stack@.map_values(|v: Vec<char>| v@);
    let mut k: usize = 0;
    while k < stack.len()
        invariant
            k <= stack@.len(),
            st == stack@.map_values(|v: Vec<char>| v@),
            out@ == seq!['/'] + join_slash(st.subrange(0, k as int)),
        decreases stack@.len() - k,
    {
        if k > 0 {
            string_push(&mut out, '/');
        }
        let name = &stack[k];
        let mut j: usize = 0;
        let ghost o0 = out@;
        while j < name.len()
            invariant
                j <= name@.len(),
                out@ == o0 + name@.subrange(0, j as int),
            decreases name@.len() - j,
        {
            string_push(&mut out, name[j]);
            proof {
                assert(name@.subrange(0, j + 1) =~= name@.subrange(0, j as int).push(name@[j as int]));
            }
            j = j + 1;
        }
        proof {
            let t = st.subrange(0, k + 1);
            assert(t.drop_last() =~= st.subrange(0, k as int));
            assert(t.last() == name@);
            assert(name@.subrange(0, name@.len() as int) =~= name@);
            if k == 0 {
                assert(t.len() == 1);
                assert(join_slash(t) == t[0]);
                assert(out@ =~= seq!['/'] + join_slash(t));
            } else {
                assert(out@ =~= seq!['/'] + join_slash(t));
            }
        }
        k = k + 1;
    }
    proof {
        assert(st.subrange(0, st.len() as int) =~= st);
    }
    out
}

/// One piece of a write into user memory: `len` bytes of the data from
/// `data_offset` go to the physical page `phys` from `page_offset` on.
#[derive(Clone, Copy, Debug, PartialEq, Eq, Structural)]
pub struct UserChunk {
    pub phys: u64,
    pub page_offset: usize,
    pub data_offset: usize,
    pub len: usize,
}

/// The pieces of writing `len` bytes (from offset `doff` of the data) at
/// user address `vaddr` through the tables at `pml4`, page by page, and
/// whether every page was mapped: the pieces stop at the first page that
/// is not.
pub open spec fn user_chunks(m: Map<u64, crate::paging::PageTable>, pml4: u64, vaddr: u64, len: int, doff: int) -> (Seq<UserChunk>, bool)
    decreases len,
{
    if len <= 0 {
        (Seq::empty(), true)
    } else {
        let page = vaddr & !0xfffu64;
        let off = vaddr & 0xfffu64;
        match translate_spec(m, pml4, page) {
            None => (Seq::empty(), false),
            Some(p) => {
                let avail = if 4096 - off < len { 4096 - off } else { len };
                let c = UserChunk { phys: p, page_offset: off as usize, data_offset: doff as usize, len: avail as usize };
                if avail < len {
                    proof {
                        crate::paging::lemma_index_bounds(vaddr);
                    }
                    let rest = user_chunks(m, pml4, (vaddr + avail) as u64, len - avail, doff + avail);
                    (seq![c] + rest.0, rest.1)
                } else {
                    (seq![c], true)
                }
            },
        }
    }
}

/// Plans writing `len` bytes at user address `vaddr` through `pt`: the
/// pieces to copy, and whether the whole range was mapped.
pub fn write_to_user_via_pt(pt: &PageTableManager, mem: &PhysMemory, vaddr: u64, len: usize) -> (r: (Vec<UserChunk>, bool))
    requires
        vaddr + len <= u64::MAX,
    ensures
        (r.0@, r.1) == user_chunks(mem@, pt.pml4(), vaddr, len as int, 0),
{
    let mut chunks: Vec<UserChunk> = Vec::new();
    let mut v = vaddr;
    let mut left = len;
    let mut done: usize = 0;
    loop
        invariant
            done + left == len,
            v == vaddr + done,
            vaddr + len <= u64::MAX,
            (chunks@ + user_chunks(mem@, pt.pml4(), v, left as int, done as int).0, user_chunks(mem@, pt.pml4(), v, left as int, done as int).1)
                == user_chunks(mem@, pt.pml4(), vaddr, len as int, 0),
        decreases left,
    {
        if left == 0 {
            proof {
                assert(chunks@ + Seq::<UserChunk>::empty() =~= chunks@);
            }
            return (chunks, true);
        }
        let page = v & !0xfffu64;
        let off = v & 0xfffu64;
        proof {
            crate::paging::lemma_index_bounds(v);
        }
        let phys = match pt.translate(page, mem) {
            Some(p) => p,
            None => {
                proof {
                    assert(chunks@ + Seq::<UserChunk>::empty() =~= chunks@);
                }
                return (chunks, false);
            },
        };
        let room = (4096 - off) as usize;
        let avail = if room < left { room } else { left };
        let c = UserChunk { phys: phys.as_u64(), page_offset: off as usize, data_offset: done, len: avail };
        let ghost rest = user_chunks(mem@, pt.pml4(), (v + avail) as u64, left - avail, done + avail);
        chunks.push(c);
        if avail >= left {
            return (chunks, true);
        }
        proof {
            assert(chunks@ + rest.0 =~= (chunks@.drop_last() + (seq![c] + rest.0)));
        }
        v = v + avail as u64;
        done = done + avail;
        left = left - avail;
    }
}

/// Plans writing `len` bytes at `vaddr` into the current process's
/// memory; nothing is written, and `false` returned, without a current
/// process.
pub fn write_to_user(sched: &Scheduler, mem: &PhysMemory, vaddr: u64, len: usize) -> (r: (Vec<UserChunk>, bool))
    requires
        vaddr + len <= u64::MAX,
    ensures
        match sched.current_spec() {
            Some(p) => (r.0@, r.1) == user_chunks(mem@, p.address_space.page_table.pml4(), vaddr, len as int, 0),
            None => r.0@.len() == 0 && !r.1,
        },
{
    match sched.current() {
        Some(p) => write_to_user_via_pt(&p.address_space.page_table, mem, vaddr, len),
        None => (Vec::new(), false),
    }
}


// ----------------------------------------------------------------------
// Opening files
// ----------------------------------------------------------------------

pub const O_ACCMODE: u64 = 0x3;
pub const O_WRONLY: u64 = 0x1;
pub const O_RDWR: u64 = 0x2;
pub const O_CREAT: u64 = 0o100;
pub const O_TRUNC: u64 = 0o1000;
pub const O_APPEND: u64 = 0o2000;
pub const O_DIRECTORY: u64 = 0o200000;

/// What a path opens.
#[derive(Clone, Copy, Debug, PartialEq, Eq, Structural)]
pub enum OpenTarget {
    Directory,
    Device(FdKind),
    ProcMaps,
    ProcStatus,
    Ram,
}

/// What `path` opened with `flags` refers to: a directory listing when
/// asked for or for the root, a device, a file of the calling process's
/// proc directory, or a file of the RAM file system.
pub open spec fn open_target(path: Seq<char>, flags: u64) -> OpenTarget {
    if flags & O_DIRECTORY != 0 || path == "/"@ {
        OpenTarget::Directory
    } else if path == "/dev/null"@ {
        OpenTarget::Device(FdKind::DevNull)
    } else if path == "/dev/zero"@ {
        OpenTarget::Device(FdKind::DevZero)
    } else if path == "/dev/tty"@ {
        OpenTarget::Device(FdKind::Serial)
    } else if path == "/proc/self/maps"@ {
        OpenTarget::ProcMaps
    } else if path == "/proc/self/status"@ {
        OpenTarget::ProcStatus
    } else {
        OpenTarget::Ram
    }
}

/// The file system after opening a RAM file: created empty with `O_CREAT`
/// when missing, emptied with `O_TRUNC` when it exists and is opened for
/// writing.
pub open spec fn open_fs_effect(fs: Ramfs, path: Seq<char>, flags: u64) -> Option<RamfsModel> {
    let acc = flags & O_ACCMODE;
    let writable = acc == O_WRONLY || acc == O_RDWR;
    if fs.find_spec(path) is None && flags & O_CREAT != 0 {
        Some(model_write_file(fs.model(), path, Seq::empty()))
    } else if fs.find_spec(path) is Some && flags & O_TRUNC != 0 && writable {
        Some(model_write_file(fs.model(), path, Seq::empty()))
    } else {
        None
    }
}

/// A process whose descriptor table took a new description `f`: the
/// lowest free slot, or -24 (too many open files) when none is free.
pub open spec fn installed(r: i64, p0: Process, p1: Process, f0: Seq<OpenFile>, f1: Seq<OpenFile>) -> bool {
    &&& p1 == (Process { fd_table: p1.fd_table, ..p0 })
    &&& match first_free(p0.fd_table.slots(), 0) {
        Some(i) => {
            &&& r == i
            &&& f1.len() == f0.len() + 1
            &&& f1.subrange(0, f0.len() as int) == f0
            &&& p1.fd_table.slots() == p0.fd_table.slots().update(i, Some(f0.len() as usize))
        },
        None => r == -24 && f1 == f0 && p1.fd_table.slots() == p0.fd_table.slots(),
    }
}

/// Installs `file` in the current process's table.
fn install_current(sched: &mut Scheduler, files: &mut OpenFiles, file: OpenFile) -> (r: i64)
    requires
        old(sched).wf(),
    ensures
        final(sched).wf(),
        final(sched).idle() == old(sched).idle(),
        final(sched).current_index() == old(sched).current_index(),
        final(sched).started() == old(sched).started(),
        ({
            let s = old(sched).procs();
            let cur = old(sched).current_index();
            if old(sched).started() && s[cur] is Some {
                let p1 = final(sched).procs()[cur]->0;
                &&& final(sched).procs() == s.update(cur, Some(p1))
                &&& installed(r, s[cur]->0, p1, old(files).files@, final(files).files@)
                &&& r >= 0 ==> final(files).files@.last() == file
            } else {
                &&& r == -1
                &&& final(sched).procs() == s
                &&& final(files).files@ == old(files).files@
            }
        }),
{
    match sched.current_mut() {
        Some(p) => {
            let ghost f0 = files.files@;
            proof {
                p.fd_table.lemma_len();
            }
            match p.fd_table.allocate(file, files) {
                Some(fd) => {
                    proof {
                        assert(files.files@.subrange(0, f0.len() as int) =~= f0);
                        assert(fd < 16);
                    }
                    fd as i64
                },
                None => -24,
            }
        },
        None => -1,
    }
}

/// A listing of the directory entries named `names`.
pub open spec fn dir_file(f: OpenFile, names: Seq<Seq<char>>) -> bool {
    &&& f.kind == FdKind::Directory && f.readable && !f.writable && !f.append
    &&& f.node is None && f.pipe is None && f.offset == 0
    &&& f.dir_entries matches Some(v) && v@.map_values(|n: String| n@) == names
}

/// A description of device `k`.
pub open spec fn device_file(f: OpenFile, k: FdKind) -> bool {
    &&& f.kind == k && f.readable && f.writable && !f.append
    &&& f.node is None && f.pipe is None && f.offset == 0 && f.dir_entries is None
}

/// A read-only file with the fixed contents `c`.
pub open spec fn proc_file(f: OpenFile, c: Seq<u8>) -> bool {
    &&& f.kind == FdKind::File && f.readable && !f.writable && !f.append
    &&& f.node matches Some(FileNode::Proc(n)) && n.contents() == c
    &&& f.pipe is None && f.offset == 0 && f.dir_entries is None
}

/// A file of the RAM file system on node `node`, with the rights that
/// `flags` ask for.
pub open spec fn ram_file(f: OpenFile, node: int, flags: u64) -> bool {
    let acc = flags & O_ACCMODE;
    &&& f.kind == FdKind::File
    &&& f.readable == (acc != O_WRONLY)
    &&& f.writable == (acc == O_WRONLY || acc == O_RDWR)
    &&& f.append == (flags & O_APPEND != 0)
    &&& f.node matches Some(FileNode::Ram(h)) && h.node() == node
    &&& f.pipe is None && f.offset == 0 && f.dir_entries is None
}

/// Opens the absolute `path` with `flags` for the current process and
/// returns the new descriptor, or -1 without a current process, -2 when a
/// file of the RAM file system is missing (and not created), -24 when the
/// descriptor table is full.
pub fn open_path(path: &str, flags: u64, fs: &mut Ramfs, sched: &mut Scheduler, files: &mut OpenFiles) -> (r: i64)
    requires
        old(fs).wf(),
        old(sched).wf(),
        open_target(path@, flags) == OpenTarget::ProcStatus && old(sched).started()
            && old(sched).procs()[old(sched).current_index()] is Some ==> {
            let p = old(sched).procs()[old(sched).current_index()]->0;
            all_proper(p.address_space.vmas@) && mapped_kb(p.address_space.vmas@) <= u64::MAX
        },
    ensures
        final(fs).wf(),
        final(sched).wf(),
        final(sched).idle() == old(sched).idle(),
        final(sched).current_index() == old(sched).current_index(),
        final(sched).started() == old(sched).started(),
        ({
            let target = open_target(path@, flags);
            let effect = open_fs_effect(*old(fs), path@, flags);
            if target == OpenTarget::Ram && effect is Some {
                final(fs).model() == effect->0
            } else {
                final(fs).model() == old(fs).model()
            }
        }),
        ({
            let target = open_target(path@, flags);
            let s = old(sched).procs();
            let cur = old(sched).current_index();
            let missing = target == OpenTarget::Ram && old(fs).find_spec(path@) is None && flags & O_CREAT == 0;
            if missing {
                &&& r == -2
                &&& final(sched).procs() == s
                &&& final(files).files@ == old(files).files@
            } else if !(old(sched).started() && s[cur] is Some) {
                &&& r == -1
                &&& final(sched).procs() == s
                &&& final(files).files@ == old(files).files@
            } else {
                let p0 = s[cur]->0;
                let p1 = final(sched).procs()[cur]->0;
                let f = final(files).files@.last();
                &&& final(sched).procs() == s.update(cur, Some(p1))
                &&& installed(r, p0, p1, old(files).files@, final(files).files@)
                &&& r >= 0 ==> match target {
                    OpenTarget::Directory => dir_file(f, dir_names(old(fs).paths(), dir_prefix(path@))),
                    OpenTarget::Device(k) => device_file(f, k),
                    OpenTarget::ProcMaps => proc_file(f, encode_utf8(maps_text(p0.address_space.vmas@))),
                    OpenTarget::ProcStatus => proc_file(f, encode_utf8(status_text(p0))),
                    OpenTarget::Ram => ram_file(f, final(fs).links()[final(fs).find_spec(path@)->0], flags),
                }
            }
        }),
{
    proof {
        reveal_strlit("/");
        reveal_strlit("/dev/null");
        reveal_strlit("/dev/zero");
        reveal_strlit("/dev/tty");
        reveal_strlit("/proc/self/maps");
        reveal_strlit("/proc/self/status");
    }
    if flags & O_DIRECTORY != 0 || str_eq(path, "/") {
        let names = fs.list_dir(path);
        return install_current(sched, files, OpenFile::directory(names));
    }
    if str_eq(path, "/dev/null") {
        return install_current(sched, files, OpenFile::device(FdKind::DevNull));
    }
    if str_eq(path, "/dev/zero") {
        return install_current(sched, files, OpenFile::device(FdKind::DevZero));
    }
    if str_eq(path, "/dev/tty") {
        return install_current(sched, files, OpenFile::device(FdKind::Serial));
    }
    let maps = str_eq(path, "/proc/self/maps");
    if maps || str_eq(path, "/proc/self/status") {
        let content = match sched.current_mut() {
            Some(p) => {
                if maps {
                    format_maps(p)
                } else {
                    format_status(p)
                }
            },
            None => return -1,
        };
        let node = ProcfsNode::new(slice_to_vec(content.as_str().as_bytes()));
        return install_current(sched, files, OpenFile::file(FileNode::Proc(node), true, false, false));
    }
    let acc = flags & O_ACCMODE;
    let readable = acc != O_WRONLY;
    let writable = acc == O_WRONLY || acc == O_RDWR;
    let mut node = fs.open(path);
    if node.is_none() {
        if flags & O_CREAT != 0 {
            let empty: Vec<u8> = Vec::new();
            let _ = fs.write_file(path, empty.as_slice());
            node = fs.open(path);
        }
    } else if flags & O_TRUNC != 0 && writable {
        let empty: Vec<u8> = Vec::new();
        let _ = fs.write_file(path, empty.as_slice());
        node = fs.open(path);
    }
    let h = match node {
        Some(h) => h,
        None => return -2,
    };
    let append = flags & O_APPEND != 0;
    install_current(sched, files, OpenFile::file(FileNode::Ram(h), readable, writable, append))
}


// ----------------------------------------------------------------------
// the system call table
// ----------------------------------------------------------------------

/// What a system call number asks for: a handler, or an answer given at
/// once.
#[derive(Clone, Copy, Debug, PartialEq, Eq, Structural)]
pub enum Syscall {
    Read,
    Write,
    Open,
    Close,
    Stat,
    Fstat,
    Newfstatat,
    Fcntl,
    Getpid,
    Getppid,
    Getcwd,
    Fork,
    Wait4,
    Chdir,
    Mkdir,
    Rename,
    Unlink,
    Unlinkat,
    Execve,
    Exit,
    Yield,
    Mmap,
    Munmap,
    Brk,
    Ioctl,
    Getdents64,
    SetTidAddress,
    Time,
    ArchPrctl,
    Writev,
    Pread64,
    Access,
    Dup,
    Dup2,
    Gettid,
    Uname,
    Futex,
    ClockGettime,
    ClockGetres,
    Lseek,
    Openat,
    Faccessat,
    Getrandom,
    /// Answered with this value and nothing else.
    Answer(i64),
}

/// The table of system calls by number (Linux x86-64 numbering): the
/// calls served, those answered at once, and -38 (not implemented) for
/// every other number.
pub open spec fn syscall_of(nr: u64) -> Syscall {
    if nr == 0 { Syscall::Read }
    else if nr == 1 { Syscall::Write }
    else if nr == 2 { Syscall::Open }
    else if nr == 3 { Syscall::Close }
    else if nr == 4 || nr == 6 { Syscall::Stat }
    else if nr == 5 { Syscall::Fstat }
    else if nr == 262 { Syscall::Newfstatat }
    else if nr == 72 { Syscall::Fcntl }
    else if nr == 39 { Syscall::Getpid }
    else if nr == 110 { Syscall::Getppid }
    else if nr == 107 { Syscall::Answer(0) }
    else if nr == 79 { Syscall::Getcwd }
    else if nr == 57 || nr == 56 { Syscall::Fork }
    else if nr == 61 { Syscall::Wait4 }
    else if nr == 80 { Syscall::Chdir }
    else if nr == 83 { Syscall::Mkdir }
    else if nr == 82 { Syscall::Rename }
    else if nr == 87 { Syscall::Unlink }
    else if nr == 263 { Syscall::Unlinkat }
    else if nr == 40 { Syscall::Answer(-22i64) }
    else if nr == 59 { Syscall::Execve }
    else if nr == 60 || nr == 231 { Syscall::Exit }
    else if nr == 24 { Syscall::Yield }
    else if nr == 9 { Syscall::Mmap }
    else if nr == 11 { Syscall::Munmap }
    else if nr == 10 { Syscall::Answer(0) }
    else if nr == 12 { Syscall::Brk }
    else if nr == 16 { Syscall::Ioctl }
    else if nr == 13 || nr == 14 { Syscall::Answer(0) }
    else if nr == 217 { Syscall::Getdents64 }
    else if nr == 218 { Syscall::SetTidAddress }
    else if nr == 201 { Syscall::Time }
    else if nr == 158 { Syscall::ArchPrctl }
    else if nr == 20 { Syscall::Writev }
    else if nr == 17 { Syscall::Pread64 }
    else if nr == 21 { Syscall::Access }
    else if nr == 32 { Syscall::Dup }
    else if nr == 33 { Syscall::Dup2 }
    else if nr == 35 || nr == 230 { Syscall::Answer(0) }
    else if nr == 102 || nr == 104 || nr == 108 { Syscall::Answer(0) }
    else if nr == 105 || nr == 106 { Syscall::Answer(0) }
    else if nr == 186 { Syscall::Gettid }
    else if nr == 63 { Syscall::Uname }
    else if nr == 202 { Syscall::Futex }
    else if nr == 228 { Syscall::ClockGettime }
    else if nr == 229 { Syscall::ClockGetres }
    else if nr == 8 { Syscall::Lseek }
    else if nr == 257 { Syscall::Openat }
    else if nr == 267 { Syscall::Answer(-2i64) }
    else if nr == 269 { Syscall::Faccessat }
    else if nr == 273 || nr == 302 { Syscall::Answer(0) }
    else if nr == 318 { Syscall::Getrandom }
    else if nr == 334 || nr == 332 { Syscall::Answer(-38i64) }
    else { Syscall::Answer(-38i64) }
}

/// The system call that number `nr` names.
pub fn decode_syscall(nr: u64) -> (r: Syscall)
    ensures
        r == syscall_of(nr),
{
    match nr {
        0 => Syscall::Read,
        1 => Syscall::Write,
        2 => Syscall::Open,
        3 => Syscall::Close,
        4 | 6 => Syscall::Stat,
        5 => Syscall::Fstat,
        262 => Syscall::Newfstatat,
        72 => Syscall::Fcntl,
        39 => Syscall::Getpid,
        110 => Syscall::Getppid,
        107 => Syscall::Answer(0),
        79 => Syscall::Getcwd,
        57 | 56 => Syscall::Fork,
        61 => Syscall::Wait4,
        80 => Syscall::Chdir,
        83 => Syscall::Mkdir,
        82 => Syscall::Rename,
        87 => Syscall::Unlink,
        263 => Syscall::Unlinkat,
        40 => Syscall::Answer(-22),
        59 => Syscall::Execve,
        60 | 231 => Syscall::Exit,
        24 => Syscall::Yield,
        9 => Syscall::Mmap,
        11 => Syscall::Munmap,
        10 => Syscall::Answer(0),
        12 => Syscall::Brk,
        16 => Syscall::Ioctl,
        13 | 14 => Syscall::Answer(0),
        217 => Syscall::Getdents64,
        218 => Syscall::SetTidAddress,
        201 => Syscall::Time,
        158 => Syscall::ArchPrctl,
        20 => Syscall::Writev,
        17 => Syscall::Pread64,
        21 => Syscall::Access,
        32 => Syscall::Dup,
        33 => Syscall::Dup2,
        35 | 230 => Syscall::Answer(0),
        102 | 104 | 108 => Syscall::Answer(0),
        105 | 106 => Syscall::Answer(0),
        186 => Syscall::Gettid,
        63 => Syscall::Uname,
        202 => Syscall::Futex,
        228 => Syscall::ClockGettime,
        229 => Syscall::ClockGetres,
        8 => Syscall::Lseek,
        257 => Syscall::Openat,
        267 => Syscall::Answer(-2),
        269 => Syscall::Faccessat,
        273 | 302 => Syscall::Answer(0),
        318 => Syscall::Getrandom,
        334 | 332 => Syscall::Answer(-38),
        _ => Syscall::Answer(-38),
    }
}

/// The pid of the current process once some process has been picked, or
/// `missing`.
pub fn current_pid(sched: &Scheduler, missing: u64) -> (r: u64)
    requires
        sched.wf(),
    ensures
        r == (if sched.started() && sched.procs()[sched.current_index()] is Some {
            sched.procs()[sched.current_index()]->0.pid
        } else {
            missing
        }),
{
    if !sched.is_started() {
        return missing;
    }
    match sched.current() {
        Some(p) => p.pid,
        None => missing,
    }
}

/// The parent pid of the current process once some process has been
/// picked, or 0.
pub fn current_ppid(sched: &Scheduler) -> (r: u64)
    requires
        sched.wf(),
    ensures
        r == (if sched.started() && sched.procs()[sched.current_index()] is Some {
            sched.procs()[sched.current_index()]->0.parent_pid
        } else {
            0
        }),
{
    if !sched.is_started() {
        return 0;
    }
    match sched.current() {
        Some(p) => p.parent_pid,
        None => 0,
    }
}

// ----------------------------------------------------------------------
// Saved user registers
// ----------------------------------------------------------------------

/// The user registers that the system-call entry saves on the kernel stack,
/// from the lowest address up.
#[derive(Clone, Copy, Debug, PartialEq, Eq, Structural)]
pub struct SyscallFrame {
    pub r15: u64,
    pub r14: u64,
    pub r13: u64,
    pub r12: u64,
    pub rbp: u64,
    pub rbx: u64,
    pub r9: u64,
    pub r8: u64,
    pub r10: u64,
    pub rdx: u64,
    pub rsi: u64,
    pub rdi: u64,
    pub rax: u64,
    pub user_rsp: u64,
    pub r11: u64,
    pub rcx: u64,
}

impl SyscallFrame {
    /// Sets the registers a program starts with after execve: every general
    /// register 0, the return address (`rcx`) at `entry`, the saved flags
    /// (`r11`) with interrupts enabled, and the user stack pointer at `rsp`.
    pub fn reset_for_exec(&mut self, entry: u64, rsp: u64)
        ensures
            *final(self) == (SyscallFrame {
                r15: 0, r14: 0, r13: 0, r12: 0, rbp: 0, rbx: 0, r9: 0, r8: 0, r10: 0,
                rdx: 0, rsi: 0, rdi: 0, rax: 0, user_rsp: rsp, r11: 0x202, rcx: entry,
            }),
    {
        self.rax = 0;
        self.rbx = 0;
        self.rcx = entry;
        self.rdx = 0;
        self.rsi = 0;
        self.rdi = 0;
        self.rbp = 0;
        self.r8 = 0;
        self.r9 = 0;
        self.r10 = 0;
        self.r11 = 0x202;
        self.r12 = 0;
        self.r13 = 0;
        self.r14 = 0;
        self.r15 = 0;
        self.user_rsp = rsp;
    }

    /// The frame a forked child returns to user mode with: the parent's,
    /// with 0 as the result of fork.
    pub fn for_child(&self) -> (r: SyscallFrame)
        ensures
            r == (SyscallFrame { rax: 0, ..*self }),
    {
        SyscallFrame { rax: 0, ..*self }
    }
}

} // verus!
