//! Unpacks a cpio archive in the "newc" format (magic "070701") into the
//! RAM file system.

use vstd::prelude::*;
use vstd::string::StringExecFns;
use vstd::utf8::{valid_utf8, decode_utf8};
use crate::fs::ramfs::{Ramfs, RamfsModel, model_write_file, model_mkdir, model_lookup, model_ok, law_model_write};
use crate::fs::vfs::FileType;
use crate::text::{has_prefix, str_from_utf8, str_strip_prefix, str_trim_end_char, str_eq, same_bytes};

verus! {

/// Size of a newc header.
pub const HEADER_LEN: usize = 110;

// ----------------------------------------------------------------------
// Hexadecimal fields
// ----------------------------------------------------------------------

/// Value of a hexadecimal digit in either case.
pub open spec fn hex_digit(b: u8) -> Option<int> {
    if 48 <= b <= 57 {
        Some(b - 48)
    } else if 97 <= b <= 102 {
        Some(b - 97 + 10)
    } else if 65 <= b <= 70 {
        Some(b - 65 + 10)
    } else {
        None
    }
}

/// Value of the first `n` bytes read as hexadecimal digits.
pub open spec fn hex_prefix(s: Seq<u8>, n: nat) -> Option<int>
    decreases n,
{
    if n == 0 {
        Some(0)
    } else {
        match (hex_prefix(s, (n - 1) as nat), hex_digit(s[n - 1])) {
            (Some(v), Some(d)) => Some(v * 16 + d),
            _ => None,
        }
    }
}

/// The eight-digit hexadecimal number at the start of `s`.
pub open spec fn hex8(s: Seq<u8>) -> Option<u64> {
    if s.len() < 8 {
        None
    } else {
        match hex_prefix(s, 8) {
            Some(v) => Some(v as u64),
            None => None,
        }
    }
}

pub open spec fn pow16(n: nat) -> int
    decreases n,
{
    if n == 0 {
        1
    } else {
        16 * pow16((n - 1) as nat)
    }
}

proof fn lemma_pow16_mono(i: nat, j: nat)
    requires
        i <= j,
    ensures
        1 <= pow16(i) <= pow16(j),
    decreases j,
{
    if j > 0 {
        if i < j {
            lemma_pow16_mono(i, (j - 1) as nat);
        } else {
            lemma_pow16_mono((j - 1) as nat, (j - 1) as nat);
        }
    }
}

/// Reads eight hexadecimal digits at the start of `s`.
fn parse_hex8(s: &[u8]) -> (r: Option<u64>)
    ensures
        r == hex8(s@),
{
    if s.len() < 8 {
        return None;
    }
    proof {
        reveal_with_fuel(pow16, 9);
        assert(pow16(8) == 0x1_0000_0000);
    }
    let mut val: u64 = 0;
    let mut i: usize = 0;
    while i < 8
        invariant
            i <= 8,
            s@.len() >= 8,
            pow16(8) == 0x1_0000_0000,
            hex_prefix(s@, i as nat) == Some(val as int),
            val < pow16(i as nat),
        decreases 8 - i,
    {
        let b = s[i];
        let digit: u8 = if b >= 48 && b <= 57 {
            b - 48
        } else if b >= 97 && b <= 102 {
            b - 97 + 10
        } else if b >= 65 && b <= 70 {
            b - 65 + 10
        } else {
            proof {
                assert(hex_prefix(s@, (i + 1) as nat) is None);
                lemma_hex_none(s@, (i + 1) as nat, 8);
            }
            return None;
        };
        proof {
            lemma_pow16_mono((i + 1) as nat, 8);
            assert(val * 16 + digit < pow16((i + 1) as nat)) by (nonlinear_arith)
                requires val < pow16(i as nat), digit < 16, pow16((i + 1) as nat) == 16 * pow16(i as nat);
        }
        val = val * 16 + digit as u64;
        i = i + 1;
    }
    Some(val)
}

proof fn lemma_hex_none(s: Seq<u8>, i: nat, n: nat)
    requires
        i <= n,
        hex_prefix(s, i) is None,
    ensures
        hex_prefix(s, n) is None,
    decreases n - i,
{
    if i < n {
        lemma_hex_none(s, i + 1, n);
    }
}

// ----------------------------------------------------------------------
// Headers
// ----------------------------------------------------------------------

/// The fields of a newc header that extraction needs.
pub struct Header {
    pub mode: u32,
    pub namesize: usize,
    pub filesize: usize,
}

/// The header at the start of `h`: mode, file size and name size read
/// from their eight-digit fields.
pub open spec fn header_spec(h: Seq<u8>) -> Option<Header> {
    match (hex8(h.subrange(14, 22)), hex8(h.subrange(54, 62)), hex8(h.subrange(94, 102))) {
        (Some(m), Some(f), Some(n)) => Some(Header { mode: m as u32, namesize: n as usize, filesize: f as usize }),
        _ => None,
    }
}

impl Header {
    pub fn parse(data: &[u8]) -> (r: Option<Self>)
        requires
            data@.len() >= 102,
        ensures
            r == header_spec(data@),
    {
        let mode = match parse_hex8(&data[14..22]) {
            Some(v) => v,
            None => return None,
        };
        let filesize = match parse_hex8(&data[54..62]) {
            Some(v) => v,
            None => return None,
        };
        let namesize = match parse_hex8(&data[94..102]) {
            Some(v) => v,
            None => return None,
        };
        Some(Self { mode: mode as u32, filesize: filesize as usize, namesize: namesize as usize })
    }
}

pub open spec fn align4_spec(x: int) -> int {
    (x + 3) - (x + 3) % 4
}

proof fn lemma_hex_bound(s: Seq<u8>, n: nat)
    ensures
        hex_prefix(s, n) matches Some(v) ==> 0 <= v < pow16(n),
    decreases n,
{
    if n > 0 {
        lemma_hex_bound(s, (n - 1) as nat);
        if let Some(v) = hex_prefix(s, (n - 1) as nat) {
            if let Some(d) = hex_digit(s[n - 1]) {
                assert(v * 16 + d < pow16(n)) by (nonlinear_arith)
                    requires 0 <= v < pow16((n - 1) as nat), 0 <= d < 16, pow16(n) == 16 * pow16((n - 1) as nat);
            }
        }
    }
}

proof fn lemma_header_bounds(h: Seq<u8>)
    requires
        h.len() >= 102,
    ensures
        header_spec(h) matches Some(hd) ==> hd.namesize < 0x1_0000_0000 && hd.filesize < 0x1_0000_0000,
{
    reveal_with_fuel(pow16, 9);
    lemma_hex_bound(h.subrange(54, 62), 8);
    lemma_hex_bound(h.subrange(94, 102), 8);
}

/// Rounds `x` up to a multiple of four.
fn align4(x: usize) -> (r: usize)
    requires
        x + 3 <= usize::MAX,
    ensures
        r == align4_spec(x as int),
{
    let y = x + 3;
    proof {
        assert(y & !3usize == y - y % 4) by (bit_vector);
    }
    y & !3
}

// ----------------------------------------------------------------------
// Names
// ----------------------------------------------------------------------

/// The bytes before the first NUL.
pub open spec fn until_nul(b: Seq<u8>) -> Seq<u8> {
    match b.index_of_first(0u8) {
        Some(i) => b.subrange(0, i),
        None => b,
    }
}

/// The name of an entry: the bytes before the first NUL as UTF-8, or
/// "<invalid>".
pub open spec fn name_chars(b: Seq<u8>) -> Seq<char> {
    if valid_utf8(until_nul(b)) {
        decode_utf8(until_nul(b))
    } else {
        "<invalid>"@
    }
}

/// The path of an entry: its name without a leading "./", after a "/".
pub open spec fn normalize_spec(name: Seq<char>) -> Seq<char> {
    if has_prefix(name, "./"@) {
        seq!['/'] + name.subrange(2, name.len() as int)
    } else {
        seq!['/'] + name
    }
}

/// Removes a leading "./" and puts the name below the root.
pub fn normalize_path(name: &str) -> (r: String)
    ensures
        r@ == normalize_spec(name@),
{
    proof {
        reveal_strlit("./");
        reveal_strlit("/");
    }
    let stripped = match str_strip_prefix(name, "./") {
        Some(rest) => rest,
        None => name,
    };
    let mut out = "/".to_owned();
    out.append(stripped);
    proof {
        assert("/"@ =~= seq!['/']);
        assert("./"@.len() == 2);
    }
    out
}

/// The bytes of `b` before its first NUL.
fn until_nul_exec(b: &[u8]) -> (r: &[u8])
    ensures
        r@ == until_nul(b@),
{
    let mut i: usize = 0;
    while i < b.len()
        invariant
            i <= b@.len(),
            forall|k: int| 0 <= k < i ==> b@[k] != 0u8,
        decreases b@.len() - i,
    {
        if b[i] == 0 {
            proof {
                b@.index_of_first_ensures(0u8);
                assert(b@.contains(0u8));
                let j = b@.index_of_first(0u8)->0;
                assert(j == i) by {
                    if j < i {
                        assert(b@[j] != 0u8);
                    }
                }
            }
            return &b[0..i];
        }
        i = i + 1;
    }
    proof {
        b@.index_of_first_ensures(0u8);
    }
    b
}


// ----------------------------------------------------------------------
// Extraction
// ----------------------------------------------------------------------

/// The bytes of "070701".
pub open spec fn newc_magic() -> Seq<u8> {
    seq![0x30u8, 0x37u8, 0x30u8, 0x37u8, 0x30u8, 0x31u8]
}

/// The file system model after unpacking the archive `data` from offset
/// `pos` on into a file system with model `m`. Unpacking stops at the end
/// of the data, at a bad magic or header, at a name or file running past
/// the end, and at the entry named "TRAILER!!!". Regular files are written,
/// directories made; the entry "." and entries of other kinds leave the
/// model as it is.
pub open spec fn cpio_from(m: RamfsModel, data: Seq<u8>, pos: int) -> RamfsModel
    decreases data.len() + 4 - pos,
{
    let p = align4_spec(pos);
    if pos < 0 || p + 110 > data.len() {
        m
    } else if data.subrange(p, p + 6) != newc_magic() {
        m
    } else {
        match header_spec(data.subrange(p, p + 110)) {
            None => m,
            Some(h) => {
                let q = p + 110;
                if q + h.namesize > data.len() {
                    m
                } else {
                    let name = name_chars(data.subrange(q, q + h.namesize));
                    let q2 = align4_spec(q + h.namesize);
                    if name == "TRAILER!!!"@ {
                        m
                    } else if q2 + h.filesize > data.len() {
                        m
                    } else {
                        let file_data = data.subrange(q2, q2 + h.filesize);
                        let next = align4_spec(q2 + h.filesize);
                        let kind = (h.mode >> 12u32) & 0xfu32;
                        let m2 = if kind == 8 && name != "."@ {
                            model_write_file(m, normalize_spec(name), file_data)
                        } else if kind == 4 && name != "."@ {
                            model_mkdir(m, normalize_spec(name))
                        } else {
                            m
                        };
                        cpio_from(m2, data, next)
                    }
                }
            },
        }
    }
}

/// The entries of the archive `data` from offset `pos` on, as far as they
/// are read: name, kind (the file-type bits of the mode) and data of each.
pub open spec fn cpio_entries(data: Seq<u8>, pos: int) -> Seq<(Seq<char>, u32, Seq<u8>)>
    decreases data.len() + 4 - pos,
{
    let p = align4_spec(pos);
    if pos < 0 || p + 110 > data.len() {
        Seq::empty()
    } else if data.subrange(p, p + 6) != newc_magic() {
        Seq::empty()
    } else {
        match header_spec(data.subrange(p, p + 110)) {
            None => Seq::empty(),
            Some(h) => {
                let q = p + 110;
                if q + h.namesize > data.len() {
                    Seq::empty()
                } else {
                    let name = name_chars(data.subrange(q, q + h.namesize));
                    let q2 = align4_spec(q + h.namesize);
                    if name == "TRAILER!!!"@ {
                        Seq::empty()
                    } else if q2 + h.filesize > data.len() {
                        Seq::empty()
                    } else {
                        let file_data = data.subrange(q2, q2 + h.filesize);
                        let next = align4_spec(q2 + h.filesize);
                        let kind = (h.mode >> 12u32) & 0xfu32;
                        seq![(name, kind, file_data)] + cpio_entries(data, next)
                    }
                }
            },
        }
    }
}

/// An entry that names a file or a directory at `path`.
pub open spec fn names_path(e: (Seq<char>, u32, Seq<u8>), path: Seq<char>) -> bool {
    (e.1 == 8 || e.1 == 4) && e.0 != "."@ && normalize_spec(e.0) == path
}

/// Unpacking touches only the paths that entries name: what the file
/// system holds at a path that no file or directory entry (other than
/// ".") from `pos` on names is left as it was.
pub proof fn law_unnamed_path_kept(m: RamfsModel, data: Seq<u8>, pos: int, path: Seq<char>)
    requires
        model_ok(m),
        forall|j: int| 0 <= j < cpio_entries(data, pos).len() ==> !names_path(#[trigger] cpio_entries(data, pos)[j], path),
    ensures
        model_lookup(cpio_from(m, data, pos), path) == model_lookup(m, path),
    decreases data.len() + 4 - pos,
{
    let es = cpio_entries(data, pos);
    let p = align4_spec(pos);
    if pos < 0 || p + 110 > data.len() || data.subrange(p, p + 6) != newc_magic() {
    } else {
        match header_spec(data.subrange(p, p + 110)) {
            None => {},
            Some(h) => {
                let q = p + 110;
                if q + h.namesize <= data.len() {
                    let name = name_chars(data.subrange(q, q + h.namesize));
                    let q2 = align4_spec(q + h.namesize);
                    if name != "TRAILER!!!"@ && q2 + h.filesize <= data.len() {
                        let file_data = data.subrange(q2, q2 + h.filesize);
                        let next = align4_spec(q2 + h.filesize);
                        let kind = (h.mode >> 12u32) & 0xfu32;
                        let rest = cpio_entries(data, next);
                        assert(es == seq![(name, kind, file_data)] + rest);
                        assert(!names_path(es[0], path));
                        assert forall|j: int| 0 <= j < rest.len() implies !names_path(#[trigger] rest[j], path) by {
                            assert(es[j + 1] == rest[j]);
                        }
                        law_model_write(m, normalize_spec(name), path, file_data);
                        let m2 = if kind == 8 && name != "."@ {
                            model_write_file(m, normalize_spec(name), file_data)
                        } else if kind == 4 && name != "."@ {
                            model_mkdir(m, normalize_spec(name))
                        } else {
                            m
                        };
                        law_unnamed_path_kept(m2, data, next, path);
                    }
                }
            },
        }
    }
}

/// Unpacking writes every regular file of the archive with exactly its
/// data, of any length: after unpacking, the path of a regular-file entry
/// (other than ".") holds a regular file with that entry's data, when no
/// later entry names the same path, no directory entry names it, and the
/// file system held no directory there.
pub proof fn law_extract_writes_files(m: RamfsModel, data: Seq<u8>, pos: int, k: int)
    requires
        model_ok(m),
        0 <= k < cpio_entries(data, pos).len(),
        cpio_entries(data, pos)[k].1 == 8,
        cpio_entries(data, pos)[k].0 != "."@,
        ({
            let es = cpio_entries(data, pos);
            let path = normalize_spec(es[k].0);
            &&& forall|j: int| k < j < es.len() ==> !names_path(#[trigger] es[j], path)
            &&& forall|j: int| 0 <= j < k ==> !(names_path(#[trigger] es[j], path) && es[j].1 == 4)
            &&& !(model_lookup(m, path) matches Some((FileType::Directory, _)))
        }),
    ensures
        model_lookup(cpio_from(m, data, pos), normalize_spec(cpio_entries(data, pos)[k].0))
            == Some((FileType::Regular, cpio_entries(data, pos)[k].2)),
    decreases data.len() + 4 - pos,
{
    let es = cpio_entries(data, pos);
    let path = normalize_spec(es[k].0);
    let p = align4_spec(pos);
    assert(!(pos < 0 || p + 110 > data.len() || data.subrange(p, p + 6) != newc_magic()));
    let h = header_spec(data.subrange(p, p + 110))->0;
    let q = p + 110;
    let name = name_chars(data.subrange(q, q + h.namesize));
    let q2 = align4_spec(q + h.namesize);
    let file_data = data.subrange(q2, q2 + h.filesize);
    let next = align4_spec(q2 + h.filesize);
    let kind = (h.mode >> 12u32) & 0xfu32;
    let rest = cpio_entries(data, next);
    assert(es == seq![(name, kind, file_data)] + rest);
    law_model_write(m, normalize_spec(name), path, file_data);
    let m2 = if kind == 8 && name != "."@ {
        model_write_file(m, normalize_spec(name), file_data)
    } else if kind == 4 && name != "."@ {
        model_mkdir(m, normalize_spec(name))
    } else {
        m
    };
    assert(cpio_from(m, data, pos) == cpio_from(m2, data, next));
    if k == 0 {
        assert forall|j: int| 0 <= j < rest.len() implies !names_path(#[trigger] rest[j], path) by {
            assert(es[j + 1] == rest[j]);
        }
        law_unnamed_path_kept(m2, data, next, path);
    } else {
        assert(es[k] == rest[k - 1]);
        assert(!(names_path(es[0], path) && es[0].1 == 4));
        assert forall|j: int| k - 1 < j < rest.len() implies !names_path(#[trigger] rest[j], path) by {
            assert(es[j + 1] == rest[j]);
        }
        assert forall|j: int| 0 <= j < k - 1 implies !(names_path(#[trigger] rest[j], path) && rest[j].1 == 4) by {
            assert(es[j + 1] == rest[j]);
        }
        law_extract_writes_files(m2, data, next, k - 1);
    }
}

/// Unpacking makes every directory of the archive: after unpacking, the
/// path of a directory entry (other than ".") holds a directory, when no
/// regular-file entry names the same path and the file system held no
/// regular file there.
pub proof fn law_extract_makes_dirs(m: RamfsModel, data: Seq<u8>, pos: int, k: int)
    requires
        model_ok(m),
        0 <= k < cpio_entries(data, pos).len(),
        cpio_entries(data, pos)[k].1 == 4,
        cpio_entries(data, pos)[k].0 != "."@,
        ({
            let es = cpio_entries(data, pos);
            let path = normalize_spec(es[k].0);
            &&& forall|j: int| 0 <= j < es.len() ==> !(names_path(#[trigger] es[j], path) && es[j].1 == 8)
            &&& !(model_lookup(m, path) matches Some((FileType::Regular, _)))
        }),
    ensures
        model_lookup(cpio_from(m, data, pos), normalize_spec(cpio_entries(data, pos)[k].0)) matches Some((FileType::Directory, _)),
    decreases data.len() + 4 - pos,
{
    let es = cpio_entries(data, pos);
    let path = normalize_spec(es[k].0);
    let p = align4_spec(pos);
    assert(!(pos < 0 || p + 110 > data.len() || data.subrange(p, p + 6) != newc_magic()));
    let h = header_spec(data.subrange(p, p + 110))->0;
    let q = p + 110;
    let name = name_chars(data.subrange(q, q + h.namesize));
    let q2 = align4_spec(q + h.namesize);
    let file_data = data.subrange(q2, q2 + h.filesize);
    let next = align4_spec(q2 + h.filesize);
    let kind = (h.mode >> 12u32) & 0xfu32;
    let rest = cpio_entries(data, next);
    assert(es == seq![(name, kind, file_data)] + rest);
    law_model_write(m, normalize_spec(name), path, file_data);
    let m2 = if kind == 8 && name != "."@ {
        model_write_file(m, normalize_spec(name), file_data)
    } else if kind == 4 && name != "."@ {
        model_mkdir(m, normalize_spec(name))
    } else {
        m
    };
    assert(cpio_from(m, data, pos) == cpio_from(m2, data, next));
    assert forall|j: int| 0 <= j < rest.len() implies !(names_path(#[trigger] rest[j], path) && rest[j].1 == 8) by {
        assert(es[j + 1] == rest[j]);
    }
    if k == 0 {
        assert(model_lookup(m2, path) matches Some((FileType::Directory, _)));
        lemma_dirs_kept(m2, data, next, path);
    } else {
        assert(es[k] == rest[k - 1]);
        assert(!(names_path(es[0], path) && es[0].1 == 8));
        assert(!(model_lookup(m2, path) matches Some((FileType::Regular, _))));
        law_extract_makes_dirs(m2, data, next, k - 1);
    }
}

/// A directory at `path` stays one while no regular-file entry names it.
proof fn lemma_dirs_kept(m: RamfsModel, data: Seq<u8>, pos: int, path: Seq<char>)
    requires
        model_ok(m),
        model_lookup(m, path) matches Some((FileType::Directory, _)),
        forall|j: int| 0 <= j < cpio_entries(data, pos).len()
            ==> !(names_path(#[trigger] cpio_entries(data, pos)[j], path) && cpio_entries(data, pos)[j].1 == 8),
    ensures
        model_lookup(cpio_from(m, data, pos), path) matches Some((FileType::Directory, _)),
    decreases data.len() + 4 - pos,
{
    let es = cpio_entries(data, pos);
    let p = align4_spec(pos);
    if pos < 0 || p + 110 > data.len() || data.subrange(p, p + 6) != newc_magic() {
    } else {
        match header_spec(data.subrange(p, p + 110)) {
            None => {},
            Some(h) => {
                let q = p + 110;
                if q + h.namesize <= data.len() {
                    let name = name_chars(data.subrange(q, q + h.namesize));
                    let q2 = align4_spec(q + h.namesize);
                    if name != "TRAILER!!!"@ && q2 + h.filesize <= data.len() {
                        let file_data = data.subrange(q2, q2 + h.filesize);
                        let next = align4_spec(q2 + h.filesize);
                        let kind = (h.mode >> 12u32) & 0xfu32;
                        let rest = cpio_entries(data, next);
                        assert(es == seq![(name, kind, file_data)] + rest);
                        assert(!(names_path(es[0], path) && es[0].1 == 8));
                        assert forall|j: int| 0 <= j < rest.len() implies !(names_path(#[trigger] rest[j], path) && rest[j].1 == 8) by {
                            assert(es[j + 1] == rest[j]);
                        }
                        law_model_write(m, normalize_spec(name), path, file_data);
                        let m2 = if kind == 8 && name != "."@ {
                            model_write_file(m, normalize_spec(name), file_data)
                        } else if kind == 4 && name != "."@ {
                            model_mkdir(m, normalize_spec(name))
                        } else {
                            m
                        };
                        assert(model_lookup(m2, path) matches Some((FileType::Directory, _)));
                        lemma_dirs_kept(m2, data, next, path);
                    }
                }
            },
        }
    }
}

/// Unpacks the archive `data` into `rootfs`: regular files are written,
/// directories made, symbolic links handed to the file system, other
/// entries skipped; a malformed or truncated archive ends the work early.
pub fn extract(data: &[u8], rootfs: &mut Ramfs)
    requires
        old(rootfs).wf(),
        data@.len() + 0x2_0000_0200 <= usize::MAX,
    ensures
        final(rootfs).wf(),
        final(rootfs).model() == cpio_from(old(rootfs).model(), data@, 0),
{
    let magic: [u8; 6] = [0x30, 0x37, 0x30, 0x37, 0x30, 0x31];
    let ghost target = cpio_from(rootfs.model(), data@, 0);
    let mut pos: usize = 0;
    loop
        invariant_except_break
            pos <= data@.len() + 3,
            cpio_from(rootfs.model(), data@, pos as int) == target,
        invariant
            rootfs.wf(),
            data@.len() + 0x2_0000_0200 <= usize::MAX,
            magic@ == newc_magic(),
        ensures
            rootfs.wf(),
            rootfs.model() == target,
        decreases data@.len() + 4 - pos,
    {
        let ghost m = rootfs.model();
        let ghost p0 = pos as int;
        pos = align4(pos);
        if pos + HEADER_LEN > data.len() {
            break;
        }
        if !same_bytes(&data[pos..pos + 6], magic.as_slice()) {
            break;
        }
        let hdr = match Header::parse(&data[pos..pos + HEADER_LEN]) {
            Some(h) => h,
            None => break,
        };
        proof {
            lemma_header_bounds(data@.subrange(pos as int, pos + HEADER_LEN));
        }
        proof {
            assert(data@.subrange(pos as int, pos + HEADER_LEN).subrange(14, 22) =~= data@.subrange(pos + 14, pos + 22));
        }
        pos = pos + HEADER_LEN;
        if pos + hdr.namesize > data.len() {
            break;
        }
        let nb = until_nul_exec(&data[pos..pos + hdr.namesize]);
        let name: &str = match str_from_utf8(nb) {
            Some(s) => s,
            None => "<invalid>",
        };
        pos = align4(pos + hdr.namesize);
        if str_eq(name, "TRAILER!!!") {
            break;
        }
        if pos + hdr.filesize > data.len() {
            break;
        }
        let file_data = &data[pos..pos + hdr.filesize];
        pos = align4(pos + hdr.filesize);
        let kind = (hdr.mode >> 12u32) & 0xf;
        if kind == 8 {
            if str_eq(name, ".") {
                continue;
            }
            let path = normalize_path(name);
            let _ = rootfs.write_file(path.as_str(), file_data);
        } else if kind == 4 {
            if str_eq(name, ".") {
                continue;
            }
            let path = normalize_path(name);
            let _ = rootfs.mkdir(path.as_str());
        } else if kind == 10 {
            let text = match str_from_utf8(file_data) {
                Some(s) => s,
                None => "",
            };
            let target_path = str_trim_end_char(text, '\0');
            let path = normalize_path(name);
            let _ = rootfs.symlink(path.as_str(), target_path);
        }
    }
}

} // verus!
