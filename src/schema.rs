//! The on-disk layout of the symbol database: little-endian fields, packed
//! records and the header.
use vstd::prelude::*;

verus! {

/// Format version written and accepted.
pub const MEMDB_VERSION: u32 = 1;

/// Bytes in the header.
pub const HEADER_SIZE: usize = 112;

/// Bytes in a string-slice descriptor.
pub const STORED_SLICE_SIZE: usize = 8;

/// Bytes in an index item.
pub const INDEX_ITEM_SIZE: usize = 11;

/// Bytes in a UUID table entry.
pub const INDEXED_UUID_SIZE: usize = 20;

/// Header offsets of the (start, count) and (start, end) fields.
pub const H_UUIDS_START: usize = 32;
pub const H_UUIDS_COUNT: usize = 40;
pub const H_VARIANTS_START: usize = 48;
pub const H_VARIANTS_COUNT: usize = 56;
pub const H_SYMBOLS_START: usize = 64;
pub const H_SYMBOLS_COUNT: usize = 72;
pub const H_NAMES_START: usize = 80;
pub const H_NAMES_COUNT: usize = 88;
pub const H_TAGGED_START: usize = 96;
pub const H_TAGGED_END: usize = 104;

/// Largest address an index item holds (40 bits).
pub const MAX_ADDR: u64 = 0xff_ffff_ffff;

/// Largest id an index item holds (24 bits).
pub const MAX_ID: u64 = 0xff_ffff;

/// Largest offset a string slice holds (40 bits).
pub const MAX_SLICE_OFFSET: u64 = 0xff_ffff_ffff;

/// Largest length a string slice holds (23 bits).
pub const MAX_SLICE_LEN: u64 = 0x7f_ffff;

pub open spec fn pow256(n: nat) -> nat
    decreases n,
{
    if n == 0 {
        1
    } else {
        256 * pow256((n - 1) as nat)
    }
}

/// The little-endian value of `b[off..off + n]`.
pub open spec fn le(b: Seq<u8>, off: int, n: nat) -> nat
    decreases n,
{
    if n == 0 {
        0
    } else {
        b[off] as nat + 256 * le(b, off + 1, (n - 1) as nat)
    }
}

/// The big-endian value of `b[off..off + n]`: its order is the byte order.
pub open spec fn be(b: Seq<u8>, off: int, n: nat) -> nat
    decreases n,
{
    if n == 0 {
        0
    } else {
        be(b, off, (n - 1) as nat) * 256 + b[off + n - 1] as nat
    }
}

/// The `n` little-endian bytes of `v`.
pub open spec fn le_bytes(v: nat, n: nat) -> Seq<u8>
    decreases n,
{
    if n == 0 {
        seq![]
    } else {
        seq![(v % 256) as u8] + le_bytes(v / 256, (n - 1) as nat)
    }
}

pub proof fn lemma_pow256_facts()
    ensures
        pow256(1) == 0x100,
        pow256(2) == 0x1_0000,
        pow256(3) == 0x100_0000,
        pow256(4) == 0x1_0000_0000,
        pow256(5) == 0x100_0000_0000,
        pow256(8) == 0x1_0000_0000_0000_0000,
        pow256(16) == 0x1_0000_0000_0000_0000_0000_0000_0000_0000,
{
    reveal_with_fuel(pow256, 17);
}

pub proof fn lemma_pow256_mono(a: nat, b: nat)
    requires
        a <= b,
    ensures
        pow256(a) <= pow256(b),
    decreases b,
{
    if a < b {
        lemma_pow256_mono(a, (b - 1) as nat);
    }
}

pub proof fn lemma_be_bound(b: Seq<u8>, off: int, n: nat)
    ensures
        be(b, off, n) < pow256(n),
    decreases n,
{
    if n > 0 {
        lemma_be_bound(b, off, (n - 1) as nat);
        let x = be(b, off, (n - 1) as nat);
        let y = b[off + n - 1] as nat;
        assert(x * 256 + y < pow256((n - 1) as nat) * 256) by (nonlinear_arith)
            requires
                x < pow256((n - 1) as nat),
                y < 256,
        ;
    }
}

/// Reading back what was written gives the value.
pub proof fn lemma_le_bytes(v: nat, n: nat, pre: Seq<u8>, post: Seq<u8>)
    requires
        v < pow256(n),
    ensures
        le(pre + le_bytes(v, n) + post, pre.len() as int, n) == v,
        le_bytes(v, n).len() == n,
    decreases n,
{
    if n > 0 {
        let s = pre + le_bytes(v, n) + post;
        let pre2 = pre.push((v % 256) as u8);
        assert(v / 256 < pow256((n - 1) as nat)) by (nonlinear_arith)
            requires
                v < 256 * pow256((n - 1) as nat),
        ;
        lemma_le_bytes(v / 256, (n - 1) as nat, pre2, post);
        assert(s =~= pre2 + le_bytes(v / 256, (n - 1) as nat) + post);
        assert(s[pre.len() as int] == (v % 256) as u8);
        assert(v == v % 256 + 256 * (v / 256)) by (nonlinear_arith);
    } else {
        assert(le_bytes(v, n) =~= seq![]);
    }
}

/// `b[off..off + n]` read as a little-endian integer.
pub fn read_le(b: &Vec<u8>, off: usize, n: usize) -> (r: u64)
    requires
        off + n <= b.len(),
        n <= 8,
    ensures
        r == le(b@, off as int, n as nat),
        r < pow256(n as nat),
{
    proof {
        lemma_pow256_facts();
    }
    let mut acc: u64 = 0;
    let mut k: usize = n;
    while k > 0
        invariant
            k <= n,
            n <= 8,
            off + n <= b.len(),
            acc == le(b@, off + k, (n - k) as nat),
            acc < pow256((n - k) as nat),
            pow256(8) == 0x1_0000_0000_0000_0000,
        decreases k,
    {
        k -= 1;
        let byte = b[off + k];
        proof {
            let m = (n - k - 1) as nat;
            lemma_pow256_mono(m + 1, 8);
            assert(pow256(m + 1) == 256 * pow256(m));
            assert(byte as nat + 256 * acc < pow256(m + 1)) by (nonlinear_arith)
                requires
                    acc < pow256(m),
                    byte < 256,
                    pow256(m + 1) == 256 * pow256(m),
            ;
            assert(le(b@, off + k, (n - k) as nat) == byte as nat + 256 * le(
                b@,
                off + k + 1,
                (n - k - 1) as nat,
            ));
        }
        acc = byte as u64 + 256 * acc;
    }
    acc
}

/// `b[off..off + 16]` read as a big-endian integer.
pub fn read_be16(b: &Vec<u8>, off: usize) -> (r: u128)
    requires
        off + 16 <= b.len(),
    ensures
        r == be(b@, off as int, 16),
{
    proof {
        lemma_pow256_facts();
    }
    let mut acc: u128 = 0;
    let mut k: usize = 0;
    while k < 16
        invariant
            k <= 16,
            off + 16 <= b.len(),
            acc == be(b@, off as int, k as nat),
            pow256(16) == 0x1_0000_0000_0000_0000_0000_0000_0000_0000,
        decreases 16 - k,
    {
        let byte = b[off + k];
        proof {
            lemma_be_bound(b@, off as int, (k + 1) as nat);
            lemma_pow256_mono((k + 1) as nat, 16);
        }
        acc = acc * 256 + byte as u128;
        k += 1;
    }
    acc
}

/// The big-endian value of a UUID's bytes.
pub fn uuid_key(u: &[u8; 16]) -> (r: u128)
    ensures
        r == be(u@, 0, 16),
{
    proof {
        lemma_pow256_facts();
    }
    let mut acc: u128 = 0;
    let mut k: usize = 0;
    while k < 16
        invariant
            k <= 16,
            u@.len() == 16,
            acc == be(u@, 0, k as nat),
            pow256(16) == 0x1_0000_0000_0000_0000_0000_0000_0000_0000,
        decreases 16 - k,
    {
        let byte = u[k];
        proof {
            lemma_be_bound(u@, 0, (k + 1) as nat);
            lemma_pow256_mono((k + 1) as nat, 16);
        }
        acc = acc * 256 + byte as u128;
        k += 1;
    }
    acc
}

/// Appends the `n` little-endian bytes of `v`.
pub fn push_le(out: &mut Vec<u8>, v: u64, n: usize)
    requires
        n <= 8,
        v < pow256(n as nat),
    ensures
        final(out)@ == old(out)@ + le_bytes(v as nat, n as nat),
{
    let mut k: usize = 0;
    let mut rest: u64 = v;
    while k < n
        invariant
            k <= n,
            old(out)@ + le_bytes(v as nat, n as nat) == out@ + le_bytes(rest as nat, (n - k) as nat),
        decreases n - k,
    {
        proof {
            let m = (n - k) as nat;
            assert(le_bytes(rest as nat, m) == seq![(rest % 256) as u8] + le_bytes(
                (rest / 256) as nat,
                (m - 1) as nat,
            ));
            assert(out@.push((rest % 256) as u8) + le_bytes((rest / 256) as nat, (m - 1) as nat)
                =~= out@ + le_bytes(rest as nat, m));
        }
        out.push((rest % 256) as u8);
        rest = rest / 256;
        k += 1;
    }
    assert(le_bytes(rest as nat, 0) =~= seq![]);
    assert(out@ + seq![] =~= out@);
}

} // verus!
