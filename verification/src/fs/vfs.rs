//! Types shared by the file systems.

use vstd::prelude::*;

verus! {

#[derive(Debug, Clone, Copy, PartialEq, Eq, Structural)]
pub enum FileType {
    Regular,
    Directory,
}

#[derive(Debug, Clone, Copy, PartialEq, Eq, Structural)]
pub struct Stat {
    pub file_type: FileType,
    pub size: usize,
}

/// `Ok(n)` where `n` bytes of `data` from `offset` fit into a buffer of
/// `buf_len` bytes.
pub open spec fn read_count(data_len: int, offset: int, buf_len: int) -> int {
    if offset >= data_len {
        0
    } else if buf_len < data_len - offset {
        buf_len
    } else {
        data_len - offset
    }
}

/// Copies the bytes of `data` from `offset` into the front of `buf`, as many
/// as fit; returns how many.
pub fn read_at(data: &[u8], offset: usize, buf: &mut [u8]) -> (n: usize)
    ensures
        n == read_count(data@.len() as int, offset as int, old(buf)@.len() as int),
        final(buf)@.len() == old(buf)@.len(),
        forall|k: int| 0 <= k < n ==> #[trigger] final(buf)@[k] == data@[offset + k],
        forall|k: int| n <= k < final(buf)@.len() ==> #[trigger] final(buf)@[k] == old(buf)@[k],
{
    if offset >= data.len() {
        return 0;
    }
    let avail = data.len() - offset;
    let n = if buf.len() < avail { buf.len() } else { avail };
    let mut i: usize = 0;
    while i < n
        invariant
            i <= n,
            n <= buf@.len(),
            offset + n <= data.len(),
            buf@.len() == old(buf)@.len(),
            forall|k: int| 0 <= k < i ==> #[trigger] buf@[k] == data@[offset + k],
            forall|k: int| n <= k < buf@.len() ==> #[trigger] buf@[k] == old(buf)@[k],
        decreases n - i,
    {
        buf[i] = data[offset + i];
        i = i + 1;
    }
    n
}

} // verus!
