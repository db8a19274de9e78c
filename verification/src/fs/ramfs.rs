//! A file system kept in memory: a list of paths, each naming a node.
//! Several paths and open handles may share one node.

use vstd::prelude::*;
use vstd::utf8::encode_utf8;
use crate::fs::vfs::{FileType, Stat, read_at, read_count};
use vstd::slice::slice_to_vec;
use crate::text::{has_prefix, string_push, str_strip_prefix, str_contains_char, same_bytes, lemma_bytes_eq_chars};

verus! {

pub struct RamfsNode {
    pub file_type: FileType,
    pub data: Vec<u8>,
}

impl RamfsNode {
    pub fn stat_inner(&self) -> (r: Stat)
        ensures
            r == (Stat { file_type: self.file_type, size: self.data@.len() as usize }),
    {
        Stat { file_type: self.file_type, size: self.data.len() }
    }

    /// Copies the data from `offset` into `buf`, as many bytes as fit.
    pub fn read_inner(&self, offset: usize, buf: &mut [u8]) -> (r: Result<usize, &'static str>)
        ensures
            r matches Ok(n) && n == read_count(self.data@.len() as int, offset as int, old(buf)@.len() as int),
            final(buf)@.len() == old(buf)@.len(),
            r matches Ok(n) ==> forall|k: int| 0 <= k < n ==> #[trigger] final(buf)@[k] == self.data@[offset + k],
            r matches Ok(n) ==> forall|k: int| n <= k < final(buf)@.len() ==> #[trigger] final(buf)@[k] == old(buf)@[k],
    {
        Ok(read_at(self.data.as_slice(), offset, buf))
    }

    /// Writes `buf` at `offset`, growing the data with zeros as needed.
    pub fn write_inner(&mut self, offset: usize, buf: &[u8]) -> (r: Result<usize, &'static str>)
        requires
            offset + buf@.len() <= usize::MAX,
        ensures
            r == Ok::<usize, &'static str>(buf@.len() as usize),
            final(self).file_type == old(self).file_type,
            final(self).data@ == written(old(self).data@, offset as int, buf@),
    {
        let end = offset + buf.len();
        if end > self.data.len() {
            self.data.resize(end, 0u8);
        }
        let ghost grown = self.data@;
        let mut i: usize = 0;
        while i < buf.len()
            invariant
                i <= buf@.len(),
                self.file_type == old(self).file_type,
                end == offset + buf@.len(),
                self.data@.len() == grown.len(),
                grown.len() >= end,
                forall|k: int| 0 <= k < grown.len() && !(offset <= k < offset + i) ==> #[trigger] self.data@[k] == grown[k],
                forall|k: int| offset <= k < offset + i ==> #[trigger] self.data@[k] == buf@[k - offset],
            decreases buf@.len() - i,
        {
            self.data.set(offset + i, buf[i]);
            i = i + 1;
        }
        proof {
            let w = written(old(self).data@, offset as int, buf@);
            assert(self.data@.len() == w.len());
            assert forall|k: int| 0 <= k < w.len() implies #[trigger] self.data@[k] == w[k] by {
                if !(offset <= k < end) {
                    if k < old(self).data@.len() {
                        assert(grown[k] == old(self).data@[k]);
                    } else {
                        assert(grown[k] == 0u8);
                    }
                }
            }
            assert(self.data@ =~= w);
        }
        Ok(buf.len())
    }
}

/// `data` after `buf` was written at `offset`: zeros fill any gap, and the
/// length becomes at least `offset + buf.len()`.
pub open spec fn written(data: Seq<u8>, offset: int, buf: Seq<u8>) -> Seq<u8> {
    let end = offset + buf.len();
    let len = if end > data.len() { end } else { data.len() as int };
    Seq::new(len as nat, |k: int|
        if offset <= k < end {
            buf[k - offset]
        } else if k < data.len() {
            data[k]
        } else {
            0u8
        })
}

/// Reading at the offset of a write, into a buffer as long as what was
/// written, gives back exactly the bytes written; the bytes before the
/// offset are those of before.
pub proof fn law_read_returns_written(data: Seq<u8>, offset: int, buf: Seq<u8>)
    requires
        0 <= offset,
    ensures
        read_count(written(data, offset, buf).len() as int, offset, buf.len() as int) == buf.len(),
        forall|k: int| 0 <= k < buf.len() ==> #[trigger] written(data, offset, buf)[offset + k] == buf[k],
        forall|k: int| 0 <= k < offset && k < data.len() ==> #[trigger] written(data, offset, buf)[k] == data[k],
{
}

/// What `list_dir` looks for at the start of a path: the directory and a
/// slash, or a lone slash for the root.
pub open spec fn dir_prefix(dir: Seq<char>) -> Seq<char> {
    if dir == seq!['/'] {
        dir
    } else {
        dir.push('/')
    }
}

/// The name below `prefix` of the path `p`, when `p` lies directly inside.
pub open spec fn child_name(p: Seq<char>, prefix: Seq<char>) -> Option<Seq<char>> {
    if has_prefix(p, prefix) {
        let rest = p.subrange(prefix.len() as int, p.len() as int);
        if rest.len() > 0 && !rest.contains('/') {
            Some(rest)
        } else {
            None
        }
    } else {
        None
    }
}

/// The child names of the paths `ps` below `prefix`, in order.
pub open spec fn dir_names(ps: Seq<Seq<char>>, prefix: Seq<char>) -> Seq<Seq<char>>
    decreases ps.len(),
{
    if ps.len() == 0 {
        Seq::empty()
    } else {
        let prev = dir_names(ps.drop_last(), prefix);
        match child_name(ps.last(), prefix) {
            Some(n) => prev.push(n),
            None => prev,
        }
    }
}

/// Paths, the node of each path, and kind and contents of each node.
pub type RamfsModel = (Seq<Seq<char>>, Seq<int>, Seq<FileType>, Seq<Seq<u8>>);

/// The model after `write_file(path, data)`.
pub open spec fn model_write_file(m: RamfsModel, path: Seq<char>, data: Seq<u8>) -> RamfsModel {
    match m.0.index_of_first(path) {
        Some(i) => (m.0, m.1, m.2, m.3.update(m.1[i], data)),
        None => (m.0.push(path), m.1.push(m.3.len() as int), m.2.push(FileType::Regular), m.3.push(data)),
    }
}

/// The model after `mkdir(path)`.
pub open spec fn model_mkdir(m: RamfsModel, path: Seq<char>) -> RamfsModel {
    match m.0.index_of_first(path) {
        Some(i) => m,
        None => (m.0.push(path), m.1.push(m.3.len() as int), m.2.push(FileType::Directory), m.3.push(Seq::<u8>::empty())),
    }
}

/// Kind and contents of the file at `p` in the model `m`.
pub open spec fn model_lookup(m: RamfsModel, p: Seq<char>) -> Option<(FileType, Seq<u8>)> {
    match m.0.index_of_first(p) {
        Some(i) => Some((m.2[m.1[i]], m.3[m.1[i]])),
        None => None,
    }
}

/// Each path names a node of its own, and every node has a kind.
pub open spec fn model_ok(m: RamfsModel) -> bool {
    &&& m.0.len() == m.1.len()
    &&& m.2.len() == m.3.len()
    &&& forall|i: int| 0 <= i < m.1.len() ==> 0 <= #[trigger] m.1[i] < m.3.len()
    &&& forall|i: int, j: int| 0 <= i < m.1.len() && 0 <= j < m.1.len() && i != j ==> #[trigger] m.1[i] != #[trigger] m.1[j]
}

proof fn lemma_first_push(s: Seq<Seq<char>>, x: Seq<char>, y: Seq<char>)
    requires
        x != y,
    ensures
        s.push(y).index_of_first(x) == s.index_of_first(x),
{
    s.index_of_first_ensures(x);
    s.push(y).index_of_first_ensures(x);
    match s.index_of_first(x) {
        Some(i) => {
            assert(s.push(y)[i] == x);
            assert(s.push(y).contains(x));
            let j = s.push(y).index_of_first(x)->0;
            assert(j == i) by {
                if j < i {
                    assert(s[j] == x);
                }
                if j > i {
                    assert(s.push(y)[i] == x);
                }
            }
        },
        None => {
            if s.push(y).contains(x) {
                let j = choose|j: int| 0 <= j < s.push(y).len() && s.push(y)[j] == x;
                assert(j < s.len());
                assert(s[j] == x);
                assert(s.contains(x));
            }
        },
    }
}

/// Writing a file or making a directory keeps each path on a node of its
/// own; it leaves what another path holds as it was; and a written path
/// that held nothing or a regular file holds a regular file with exactly
/// the data written.
pub proof fn law_model_write(m: RamfsModel, p: Seq<char>, q: Seq<char>, d: Seq<u8>)
    requires
        model_ok(m),
    ensures
        model_ok(model_write_file(m, p, d)),
        model_ok(model_mkdir(m, p)),
        p != q ==> model_lookup(model_write_file(m, p, d), q) == model_lookup(m, q),
        p != q ==> model_lookup(model_mkdir(m, p), q) == model_lookup(m, q),
        (model_lookup(m, p) is None || model_lookup(m, p) matches Some((FileType::Regular, _)))
            ==> model_lookup(model_write_file(m, p, d), p) == Some((FileType::Regular, d)),
        !(model_lookup(m, p) matches Some((FileType::Regular, _)))
            ==> model_lookup(model_mkdir(m, p), p) matches Some((FileType::Directory, _)),
{
    m.0.index_of_first_ensures(p);
    m.0.index_of_first_ensures(q);
    match m.0.index_of_first(p) {
        Some(i) => {
            if p != q {
                if let Some(j) = m.0.index_of_first(q) {
                    assert(i != j);
                    assert(m.1[i] != m.1[j]);
                }
            }
        },
        None => {
            let n = m.3.len() as int;
            let m2 = model_write_file(m, p, d);
            let m3 = model_mkdir(m, p);
            assert forall|i: int, j: int| 0 <= i < m2.1.len() && 0 <= j < m2.1.len() && i != j implies #[trigger] m2.1[i] != #[trigger] m2.1[j] by {
                if i < m.1.len() && j < m.1.len() {
                    assert(m2.1[i] == m.1[i] && m2.1[j] == m.1[j]);
                }
            }
            assert forall|i: int, j: int| 0 <= i < m3.1.len() && 0 <= j < m3.1.len() && i != j implies #[trigger] m3.1[i] != #[trigger] m3.1[j] by {
                if i < m.1.len() && j < m.1.len() {
                    assert(m3.1[i] == m.1[i] && m3.1[j] == m.1[j]);
                }
            }
            assert forall|i: int| 0 <= i < m2.1.len() implies 0 <= #[trigger] m2.1[i] < m2.3.len() by {
                if i < m.1.len() {
                    assert(m2.1[i] == m.1[i]);
                }
            }
            assert forall|i: int| 0 <= i < m3.1.len() implies 0 <= #[trigger] m3.1[i] < m3.3.len() by {
                if i < m.1.len() {
                    assert(m3.1[i] == m.1[i]);
                }
            }
            if p != q {
                lemma_first_push(m.0, q, p);
                if let Some(j) = m.0.index_of_first(q) {
                    assert(m2.1[j] == m.1[j]);
                    assert(m3.1[j] == m.1[j]);
                }
            }
            m2.0.index_of_first_ensures(p);
            assert(m2.0[m.0.len() as int] == p);
            assert(m2.0.contains(p));
            let k = m2.0.index_of_first(p)->0;
            assert(k == m.0.len()) by {
                if k < m.0.len() {
                    assert(m.0[k] == p);
                    assert(m.0.contains(p));
                }
            }
        },
    }
}

struct Entry {
    path: String,
    node: usize,
}

/// An open file of the RAM file system: it names a node.
#[derive(Clone, Copy)]
pub struct RamfsHandle(usize);

impl RamfsHandle {
    pub closed spec fn node(&self) -> int {
        self.0 as int
    }
}

pub struct Ramfs {
    entries: Vec<Entry>,
    nodes: Vec<RamfsNode>,
}

impl Ramfs {
    /// The path of each entry, in order.
    pub closed spec fn paths(&self) -> Seq<Seq<char>> {
        self.entries@.map_values(|e: Entry| e.path@)
    }

    /// The node that each entry names.
    pub closed spec fn links(&self) -> Seq<int> {
        self.entries@.map_values(|e: Entry| e.node as int)
    }

    /// Kind of each node.
    pub closed spec fn node_types(&self) -> Seq<FileType> {
        self.nodes@.map_values(|n: RamfsNode| n.file_type)
    }

    /// Contents of each node.
    pub closed spec fn node_data(&self) -> Seq<Seq<u8>> {
        self.nodes@.map_values(|n: RamfsNode| n.data@)
    }

    /// Paths, links, node kinds and node contents together.
    pub open spec fn model(&self) -> RamfsModel {
        (self.paths(), self.links(), self.node_types(), self.node_data())
    }

    pub open spec fn wf(&self) -> bool {
        &&& self.links().len() == self.paths().len()
        &&& self.node_types().len() == self.node_data().len()
        &&& forall|i: int| 0 <= i < self.links().len() ==> 0 <= #[trigger] self.links()[i] < self.node_data().len()
    }

    /// Index of the first entry with path `p`.
    pub open spec fn find_spec(&self, p: Seq<char>) -> Option<int> {
        self.paths().index_of_first(p)
    }

    /// What `lookup` finds is what the model holds at that path.
    pub proof fn lemma_lookup_model(&self, p: Seq<char>)
        ensures
            self.lookup(p) == model_lookup(self.model(), p),
    {
    }

    /// Kind and contents of the file at `p`.
    pub open spec fn lookup(&self, p: Seq<char>) -> Option<(FileType, Seq<u8>)> {
        match self.find_spec(p) {
            Some(i) => Some((self.node_types()[self.links()[i]], self.node_data()[self.links()[i]])),
            None => None,
        }
    }

    pub fn new() -> (r: Self)
        ensures
            r.wf(),
            r.paths() == Seq::<Seq<char>>::empty(),
            r.node_data() == Seq::<Seq<u8>>::empty(),
    {
        let r = Self { entries: Vec::new(), nodes: Vec::new() };
        proof {
            assert(r.paths() =~= Seq::<Seq<char>>::empty());
            assert(r.node_data() =~= Seq::<Seq<u8>>::empty());
        }
        r
    }

    /// A handle names an existing node.
    pub open spec fn handle_ok(&self, h: RamfsHandle) -> bool {
        0 <= h.node() < self.node_data().len()
    }

    /// A handle on the node of the first entry with path `path`.
    pub fn open(&self, path: &str) -> (r: Option<RamfsHandle>)
        requires
            self.wf(),
        ensures
            match self.find_spec(path@) {
                Some(i) => r matches Some(h) && h.node() == self.links()[i] && self.handle_ok(h),
                None => r is None,
            },
    {
        match self.find(path) {
            Some(i) => {
                proof {
                    assert(self.links()[i as int] == self.entries@[i as int].node);
                }
                Some(RamfsHandle(self.entries[i].node))
            },
            None => None,
        }
    }

    /// Adds an empty file of type `file_type` at `path`, which must not
    /// exist yet.
    pub fn create(&mut self, path: &str, file_type: FileType) -> (r: Result<(), &'static str>)
        requires
            old(self).wf(),
        ensures
            final(self).wf(),
            old(self).find_spec(path@) is Some ==> {
                &&& r matches Err(e) && e@ == "file already exists"@
                &&& final(self).paths() == old(self).paths()
                &&& final(self).links() == old(self).links()
                &&& final(self).node_types() == old(self).node_types()
                &&& final(self).node_data() == old(self).node_data()
            },
            old(self).find_spec(path@) is None ==> {
                &&& r is Ok
                &&& final(self).paths() == old(self).paths().push(path@)
                &&& final(self).links() == old(self).links().push(old(self).node_data().len() as int)
                &&& final(self).node_types() == old(self).node_types().push(file_type)
                &&& final(self).node_data() == old(self).node_data().push(Seq::<u8>::empty())
            },
    {
        if self.find(path).is_some() {
            return Err("file already exists");
        }
        self.add_entry(path, file_type, Vec::new());
        Ok(())
    }

    /// Appends an entry for `path` naming a new node.
    fn add_entry(&mut self, path: &str, file_type: FileType, data: Vec<u8>)
        requires
            old(self).wf(),
        ensures
            final(self).wf(),
            final(self).paths() == old(self).paths().push(path@),
            final(self).links() == old(self).links().push(old(self).node_data().len() as int),
            final(self).node_types() == old(self).node_types().push(file_type),
            final(self).node_data() == old(self).node_data().push(data@),
    {
        let id = self.nodes.len();
        self.nodes.push(RamfsNode { file_type, data });
        self.entries.push(Entry { path: path.to_owned(), node: id });
        proof {
            assert(self.paths() =~= old(self).paths().push(path@));
            assert(self.links() =~= old(self).links().push(old(self).node_data().len() as int));
            assert(self.node_types() =~= old(self).node_types().push(file_type));
            assert(self.node_data() =~= old(self).node_data().push(data@));
        }
    }

    /// Replaces the contents of the file at `path`, or adds a regular file
    /// there with these contents.
    pub fn write_file(&mut self, path: &str, data: &[u8]) -> (r: Result<(), &'static str>)
        requires
            old(self).wf(),
        ensures
            final(self).wf(),
            r is Ok,
            final(self).model() == model_write_file(old(self).model(), path@, data@),
            final(self).lookup(path@) matches Some((_, d)) && d == data@,
            match old(self).find_spec(path@) {
                Some(i) => {
                    &&& final(self).paths() == old(self).paths()
                    &&& final(self).links() == old(self).links()
                    &&& final(self).node_types() == old(self).node_types()
                    &&& final(self).node_data() == old(self).node_data().update(old(self).links()[i], data@)
                },
                None => {
                    &&& final(self).paths() == old(self).paths().push(path@)
                    &&& final(self).links() == old(self).links().push(old(self).node_data().len() as int)
                    &&& final(self).node_types() == old(self).node_types().push(FileType::Regular)
                    &&& final(self).node_data() == old(self).node_data().push(data@)
                },
            },
    {
        match self.find(path) {
            Some(i) => {
                let id = self.entries[i].node;
                proof {
                    assert(self.links()[i as int] == id);
                }
                let ft = self.nodes[id].file_type;
                self.nodes.set(id, RamfsNode { file_type: ft, data: slice_to_vec(data) });
                proof {
                    assert(self.paths() =~= old(self).paths());
                    assert(self.links() =~= old(self).links());
                    assert(self.node_types() =~= old(self).node_types());
                    assert(self.node_data() =~= old(self).node_data().update(id as int, data@));
                }
            },
            None => {
                self.add_entry(path, FileType::Regular, slice_to_vec(data));
                proof {
                    let ps = self.paths();
                    ps.index_of_first_ensures(path@);
                    old(self).paths().index_of_first_ensures(path@);
                    assert(ps[ps.len() - 1] == path@);
                    let j = ps.index_of_first(path@)->0;
                    assert(j == ps.len() - 1) by {
                        if j < ps.len() - 1 {
                            assert(old(self).paths()[j] == path@);
                        }
                    }
                }
            },
        }
        Ok(())
    }

    /// Adds an empty directory at `path` unless something is there already.
    pub fn mkdir(&mut self, path: &str) -> (r: Result<(), &'static str>)
        requires
            old(self).wf(),
        ensures
            final(self).wf(),
            r is Ok,
            final(self).model() == model_mkdir(old(self).model(), path@),
            old(self).find_spec(path@) is Some ==> {
                &&& final(self).paths() == old(self).paths()
                &&& final(self).links() == old(self).links()
                &&& final(self).node_types() == old(self).node_types()
                &&& final(self).node_data() == old(self).node_data()
            },
            old(self).find_spec(path@) is None ==> {
                &&& final(self).paths() == old(self).paths().push(path@)
                &&& final(self).links() == old(self).links().push(old(self).node_data().len() as int)
                &&& final(self).node_types() == old(self).node_types().push(FileType::Directory)
                &&& final(self).node_data() == old(self).node_data().push(Seq::<u8>::empty())
            },
    {
        if self.find(path).is_some() {
            return Ok(());
        }
        self.add_entry(path, FileType::Directory, Vec::new());
        Ok(())
    }

    /// Symbolic links are not kept: the request is accepted and ignored.
    pub fn symlink(&mut self, path: &str, target: &str) -> (r: Result<(), &'static str>)
        ensures
            r is Ok,
            final(self).paths() == old(self).paths(),
            final(self).links() == old(self).links(),
            final(self).node_types() == old(self).node_types(),
            final(self).node_data() == old(self).node_data(),
    {
        let _ = (path, target);
        Ok(())
    }

    /// Removes the first entry with path `path`; its node stays for the
    /// handles that name it.
    pub fn unlink(&mut self, path: &str) -> (r: Result<(), &'static str>)
        requires
            old(self).wf(),
        ensures
            final(self).wf(),
            final(self).node_types() == old(self).node_types(),
            final(self).node_data() == old(self).node_data(),
            match old(self).find_spec(path@) {
                Some(i) => {
                    &&& r is Ok
                    &&& final(self).paths() == old(self).paths().remove(i)
                    &&& final(self).links() == old(self).links().remove(i)
                },
                None => {
                    &&& r matches Err(e) && e@ == "not found"@
                    &&& final(self).paths() == old(self).paths()
                    &&& final(self).links() == old(self).links()
                },
            },
    {
        match self.find(path) {
            Some(i) => {
                self.entries.remove(i);
                proof {
                    assert(self.paths() =~= old(self).paths().remove(i as int));
                    assert(self.links() =~= old(self).links().remove(i as int));
                    assert forall|k: int| 0 <= k < self.links().len() implies 0 <= #[trigger] self.links()[k] < self.node_data().len() by {
                        if k >= i {
                            assert(self.links()[k] == old(self).links()[k + 1]);
                        } else {
                            assert(self.links()[k] == old(self).links()[k]);
                        }
                    }
                }
                Ok(())
            },
            None => Err("not found"),
        }
    }

    /// Gives the first entry with path `old_path` the path `new_path`.
    pub fn rename(&mut self, old_path: &str, new_path: &str) -> (r: Result<(), &'static str>)
        requires
            old(self).wf(),
        ensures
            final(self).wf(),
            final(self).links() == old(self).links(),
            final(self).node_types() == old(self).node_types(),
            final(self).node_data() == old(self).node_data(),
            match old(self).find_spec(old_path@) {
                Some(i) => r is Ok && final(self).paths() == old(self).paths().update(i, new_path@),
                None => r matches Err(e) && e@ == "not found"@ && final(self).paths() == old(self).paths(),
            },
    {
        match self.find(old_path) {
            Some(i) => {
                let id = self.entries[i].node;
                self.entries.set(i, Entry { path: new_path.to_owned(), node: id });
                proof {
                    assert(self.paths() =~= old(self).paths().update(i as int, new_path@));
                    assert(self.links() =~= old(self).links());
                }
                Ok(())
            },
            None => Err("not found"),
        }
    }

    /// The names of the entries directly inside `dir`, in entry order.
    pub fn list_dir(&self, dir: &str) -> (r: Vec<String>)
        ensures
            r@.map_values(|n: String| n@) == dir_names(self.paths(), dir_prefix(dir@)),
    {
        let slash = "/";
        proof {
            reveal_strlit("/");
            lemma_bytes_eq_chars(dir@, slash@);
        }
        let root = same_bytes(dir.as_bytes(), slash.as_bytes());
        proof {
            assert(slash@ =~= seq!['/']);
        }
        let mut prefix = dir.to_owned();
        if !root {
            string_push(&mut prefix, '/');
        }
        let ghost pre = dir_prefix(dir@);
        let ghost ps = self.paths();
        let mut names: Vec<String> = Vec::new();
        let mut i: usize = 0;
        while i < self.entries.len()
            invariant
                i <= self.entries@.len(),
                ps == self.paths(),
                ps.len() == self.entries@.len(),
                prefix@ == pre,
                names@.map_values(|n: String| n@) == dir_names(ps.subrange(0, i as int), pre),
            decreases self.entries@.len() - i,
        {
            let path = self.entries[i].path.as_str();
            proof {
                assert(path@ == ps[i as int]);
                assert(ps.subrange(0, i + 1).drop_last() =~= ps.subrange(0, i as int));
                assert(ps.subrange(0, i + 1).last() == ps[i as int]);
            }
            let ghost before = names@;
            match str_strip_prefix(path, prefix.as_str()) {
                Some(rest) => {
                    if !rest.is_empty() && !str_contains_char(rest, '/') {
                        names.push(rest.to_owned());
                        proof {
                            assert(names@.map_values(|n: String| n@) =~= before.map_values(|n: String| n@).push(rest@));
                        }
                    }
                },
                None => {},
            }
            i = i + 1;
        }
        proof {
            assert(ps.subrange(0, ps.len() as int) =~= ps);
        }
        names
    }

    pub fn stat(&self, h: RamfsHandle) -> (r: Stat)
        requires
            self.wf(),
            self.handle_ok(h),
        ensures
            r == (Stat { file_type: self.node_types()[h.node()], size: self.node_data()[h.node()].len() as usize }),
    {
        self.nodes[h.0].stat_inner()
    }

    /// Reads the node of `h` from `offset` into `buf`.
    pub fn read(&self, h: RamfsHandle, offset: usize, buf: &mut [u8]) -> (r: Result<usize, &'static str>)
        requires
            self.wf(),
            self.handle_ok(h),
        ensures
            r matches Ok(n) && n == read_count(self.node_data()[h.node()].len() as int, offset as int, old(buf)@.len() as int),
            final(buf)@.len() == old(buf)@.len(),
            r matches Ok(n) ==> forall|k: int| 0 <= k < n ==> #[trigger] final(buf)@[k] == self.node_data()[h.node()][offset + k],
            r matches Ok(n) ==> forall|k: int| n <= k < final(buf)@.len() ==> #[trigger] final(buf)@[k] == old(buf)@[k],
    {
        self.nodes[h.0].read_inner(offset, buf)
    }

    /// Writes `buf` into the node of `h` at `offset`.
    pub fn write(&mut self, h: RamfsHandle, offset: usize, buf: &[u8]) -> (r: Result<usize, &'static str>)
        requires
            old(self).wf(),
            old(self).handle_ok(h),
            offset + buf@.len() <= usize::MAX,
        ensures
            final(self).wf(),
            r == Ok::<usize, &'static str>(buf@.len() as usize),
            final(self).paths() == old(self).paths(),
            final(self).links() == old(self).links(),
            final(self).node_types() == old(self).node_types(),
            final(self).node_data() == old(self).node_data().update(h.node(), written(old(self).node_data()[h.node()], offset as int, buf@)),
    {
        let mut node = RamfsNode { file_type: FileType::Regular, data: Vec::new() };
        std::mem::swap(&mut node, &mut self.nodes[h.0]);
        let r = node.write_inner(offset, buf);
        self.nodes.set(h.0, node);
        proof {
            assert(self.node_types() =~= old(self).node_types());
            assert(self.node_data() =~= old(self).node_data().update(h.node(), written(old(self).node_data()[h.node()], offset as int, buf@)));
            assert(self.paths() =~= old(self).paths());
            assert(self.links() =~= old(self).links());
        }
        r
    }

    /// Index of the first entry with path `path`.
    fn find(&self, path: &str) -> (r: Option<usize>)
        ensures
            r matches Some(i) ==> self.find_spec(path@) == Some(i as int) && i < self.entries@.len(),
            r is None ==> self.find_spec(path@) is None,
    {
        let p = path.as_bytes();
        let ghost ps = self.paths();
        let mut i: usize = 0;
        while i < self.entries.len()
            invariant
                i <= self.entries@.len(),
                ps == self.paths(),
                ps.len() == self.entries@.len(),
                p@ == encode_utf8(path@),
                forall|k: int| 0 <= k < i ==> #[trigger] ps[k] != path@,
            decreases self.entries@.len() - i,
        {
            let q = self.entries[i].path.as_str().as_bytes();
            proof {
                assert(ps[i as int] == self.entries@[i as int].path@);
                lemma_bytes_eq_chars(ps[i as int], path@);
            }
            if same_bytes(q, p) {
                proof {
                    ps.index_of_first_ensures(path@);
                    assert(ps.contains(path@));
                    let j = ps.index_of_first(path@)->0;
                    assert(j == i) by {
                        if j < i {
                            assert(ps[j] != path@);
                        }
                    }
                }
                return Some(i);
            }
            i = i + 1;
        }
        proof {
            ps.index_of_first_ensures(path@);
        }
        None
    }
}

} // verus!
