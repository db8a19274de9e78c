//! Helpers of the user programs: decimal output, trimming of input lines
//! and the length of NUL-terminated strings.

use vstd::prelude::*;

verus! {

/// The ASCII decimal digits of `n`, without leading zeros ("0" for 0).
pub open spec fn dec_bytes(n: nat) -> Seq<u8>
    decreases n,
{
    if n < 10 {
        seq![(48 + n) as u8]
    } else {
        dec_bytes(n / 10).push((48 + n % 10) as u8)
    }
}

/// The text `write_num` prints for `n`: its digits, after a minus sign
/// when negative.
pub open spec fn num_text(n: i64) -> Seq<u8> {
    if n < 0 {
        seq![45u8] + dec_bytes((-n) as nat)
    } else {
        dec_bytes(n as nat)
    }
}

/// The bytes that print `n` in decimal.
pub fn write_num(n: i64) -> (r: Vec<u8>)
    requires
        n != i64::MIN,
    ensures
        r@ == num_text(n),
{
    let mut out: Vec<u8> = Vec::new();
    if n == 0 {
        out.push(48u8);
        return out;
    }
    let neg = n < 0;
    let mut m: u64 = if neg { (-n) as u64 } else { n as u64 };
    let mut buf: [u8; 20] = [0u8; 20];
    let mut i: usize = 20;
    let ghost total: nat = m as nat;
    proof {
        lemma_dec_len(total);
    }
    while m > 0
        invariant
            i <= 20,
            m <= total,
            total > 0,
            total < 0x8000_0000_0000_0000,
            m == 0 ==> buf@.subrange(i as int, 20) == dec_bytes(total),
            m > 0 ==> dec_bytes(total) == dec_bytes(m as nat) + buf@.subrange(i as int, 20),
            m > 0 ==> dec_bytes(m as nat).len() <= i,
        decreases m,
    {
        let d = (m % 10) as u8;
        let ghost tail = buf@.subrange(i as int, 20);
        proof {
            lemma_dec_len(m as nat);
        }
        i = i - 1;
        buf[i] = 48 + d;
        proof {
            assert(buf@.subrange(i as int, 20) =~= seq![(48 + m % 10) as u8] + tail);
            if m >= 10 {
                assert(dec_bytes(m as nat) == dec_bytes((m / 10) as nat).push((48 + m % 10) as u8));
                assert(dec_bytes(total) =~= dec_bytes((m / 10) as nat) + buf@.subrange(i as int, 20));
            } else {
                assert(dec_bytes(m as nat) == seq![(48 + m) as u8]);
                assert(dec_bytes(total) =~= buf@.subrange(i as int, 20));
            }
        }
        m = m / 10;
    }
    if neg {
        out.push(45u8);
    }
    let mut k = i;
    let ghost o0 = out@;
    while k < 20
        invariant
            i <= k <= 20,
            out@ == o0 + buf@.subrange(i as int, k as int),
        decreases 20 - k,
    {
        out.push(buf[k]);
        proof {
            assert(buf@.subrange(i as int, k + 1) =~= buf@.subrange(i as int, k as int).push(buf@[k as int]));
        }
        k = k + 1;
    }
    proof {
        if neg {
            assert(o0 =~= seq![45u8]);
        } else {
            assert(o0 =~= Seq::<u8>::empty());
        }
        assert(out@ =~= num_text(n));
    }
    out
}

proof fn lemma_dec_len(n: nat)
    requires
        n < 0x8000_0000_0000_0000,
    ensures
        1 <= dec_bytes(n).len() <= 19,
{
    reveal_with_fuel(pow10, 20);
    assert(pow10(19) == 10_000_000_000_000_000_000);
    lemma_dec_len_bound(n, 19);
}

pub open spec fn pow10(k: nat) -> nat
    decreases k,
{
    if k == 0 { 1 } else { 10 * pow10((k - 1) as nat) }
}

proof fn lemma_dec_len_bound(n: nat, k: nat)
    requires
        k >= 1,
        n < pow10(k),
    ensures
        1 <= dec_bytes(n).len() <= k,
    decreases k,
{
    if n >= 10 {
        assert(k >= 2) by {
            if k == 1 {
                assert(pow10(1) == 10) by {
                    reveal_with_fuel(pow10, 2);
                }
            }
        }
        assert(n / 10 < pow10((k - 1) as nat)) by (nonlinear_arith)
            requires n < pow10(k), pow10(k) == 10 * pow10((k - 1) as nat);
        lemma_dec_len_bound(n / 10, (k - 1) as nat);
    }
}

/// The byte is one that `trim` drops from the end of a line.
pub open spec fn trailing_junk(b: u8) -> bool {
    b == 13 || b == 10 || b == 0 || b == 32
}

/// `buf` without the carriage returns, newlines, NULs and spaces at its end.
pub open spec fn trim_spec(buf: Seq<u8>) -> Seq<u8>
    decreases buf.len(),
{
    if buf.len() > 0 && trailing_junk(buf.last()) {
        trim_spec(buf.drop_last())
    } else {
        buf
    }
}

pub fn trim(buf: &[u8]) -> (r: &[u8])
    ensures
        r@ == trim_spec(buf@),
{
    let mut end = buf.len();
    proof {
        assert(buf@.subrange(0, end as int) =~= buf@);
    }
    while end > 0 && (buf[end - 1] == 13 || buf[end - 1] == 10 || buf[end - 1] == 0 || buf[end - 1] == 32)
        invariant
            end <= buf@.len(),
            trim_spec(buf@.subrange(0, end as int)) == trim_spec(buf@),
        decreases end,
    {
        proof {
            let t = buf@.subrange(0, end as int);
            assert(t.drop_last() =~= buf@.subrange(0, end - 1));
        }
        end = end - 1;
    }
    proof {
        let t = buf@.subrange(0, end as int);
        if end > 0 {
            assert(t.last() == buf@[end - 1]);
        }
    }
    &buf[0..end]
}

/// Length of the NUL-terminated string at the start of `s`.
pub fn strlen(s: &[u8]) -> (r: usize)
    requires
        s@.contains(0u8),
    ensures
        r < s@.len(),
        s@[r as int] == 0u8,
        forall|k: int| 0 <= k < r ==> s@[k] != 0u8,
{
    let mut len: usize = 0;
    while s[len] != 0
        invariant
            len < s@.len(),
            s@.contains(0u8),
            forall|k: int| 0 <= k < len ==> s@[k] != 0u8,
        decreases s@.len() - len,
    {
        proof {
            let j = choose|j: int| 0 <= j < s@.len() && s@[j] == 0u8;
            assert(j > len);
        }
        len = len + 1;
    }
    len
}

} // verus!
