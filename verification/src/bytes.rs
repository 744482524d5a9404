//! Little-endian readers and writers over byte sequences, used by the ELF
//! linkage resolver and by the page patcher.

use vstd::prelude::*;

verus! {

/// The little-endian 16-bit value stored at `b[i .. i + 2]`.
pub open spec fn le16(b: Seq<u8>, i: int) -> nat {
    b[i] as nat + 0x100 * (b[i + 1] as nat)
}

/// The little-endian 32-bit value stored at `b[i .. i + 4]`.
pub open spec fn le32(b: Seq<u8>, i: int) -> nat {
    b[i] as nat + 0x100 * (b[i + 1] as nat) + 0x1_0000 * (b[i + 2] as nat) + 0x100_0000 * (b[i
        + 3] as nat)
}

/// The little-endian 64-bit value stored at `b[i .. i + 8]`.
pub open spec fn le64(b: Seq<u8>, i: int) -> nat {
    b[i] as nat + 0x100 * (b[i + 1] as nat) + 0x1_0000 * (b[i + 2] as nat) + 0x100_0000 * (b[i
        + 3] as nat) + 0x1_0000_0000 * (b[i + 4] as nat) + 0x100_0000_0000 * (b[i + 5] as nat)
        + 0x1_0000_0000_0000 * (b[i + 6] as nat) + 0x100_0000_0000_0000 * (b[i + 7] as nat)
}

pub fn read_le16(b: &[u8], i: usize) -> (r: u16)
    requires
        i + 2 <= b@.len(),
    ensures
        r as nat == le16(b@, i as int),
{
    b[i] as u16 + 0x100 * (b[i + 1] as u16)
}

pub fn read_le32(b: &[u8], i: usize) -> (r: u32)
    requires
        i + 4 <= b@.len(),
    ensures
        r as nat == le32(b@, i as int),
{
    b[i] as u32 + 0x100 * (b[i + 1] as u32) + 0x1_0000 * (b[i + 2] as u32) + 0x100_0000 * (b[i
        + 3] as u32)
}

pub fn read_le64(b: &[u8], i: usize) -> (r: u64)
    requires
        i + 8 <= b@.len(),
    ensures
        r as nat == le64(b@, i as int),
{
    b[i] as u64 + 0x100 * (b[i + 1] as u64) + 0x1_0000 * (b[i + 2] as u64) + 0x100_0000 * (b[i
        + 3] as u64) + 0x1_0000_0000 * (b[i + 4] as u64) + 0x100_0000_0000 * (b[i + 5] as u64)
        + 0x1_0000_0000_0000 * (b[i + 6] as u64) + 0x100_0000_0000_0000 * (b[i + 7] as u64)
}

/// Byte `k` of the little-endian encoding of `v`.
pub open spec fn le64_byte(v: u64, k: int) -> u8 {
    if k == 0 {
        (v as nat % 0x100) as u8
    } else if k == 1 {
        (v as nat / 0x100 % 0x100) as u8
    } else if k == 2 {
        (v as nat / 0x1_0000 % 0x100) as u8
    } else if k == 3 {
        (v as nat / 0x100_0000 % 0x100) as u8
    } else if k == 4 {
        (v as nat / 0x1_0000_0000 % 0x100) as u8
    } else if k == 5 {
        (v as nat / 0x100_0000_0000 % 0x100) as u8
    } else if k == 6 {
        (v as nat / 0x1_0000_0000_0000 % 0x100) as u8
    } else {
        (v as nat / 0x100_0000_0000_0000 % 0x100) as u8
    }
}

/// `b` with the little-endian encoding of `v` stored at `b[i .. i + 8]`.
pub open spec fn store_le64(b: Seq<u8>, i: int, v: u64) -> Seq<u8> {
    Seq::new(b.len(), |j: int| if i <= j < i + 8 { le64_byte(v, j - i) } else { b[j] })
}

/// Storing a 64-bit value and reading it back yields the value.
pub proof fn lemma_store_le64_read(b: Seq<u8>, i: int, v: u64)
    requires
        0 <= i,
        i + 8 <= b.len(),
    ensures
        le64(store_le64(b, i, v), i) == v as nat,
{
    let s = store_le64(b, i, v);
    assert(s[i] == le64_byte(v, 0));
    assert(s[i + 1] == le64_byte(v, 1));
    assert(s[i + 2] == le64_byte(v, 2));
    assert(s[i + 3] == le64_byte(v, 3));
    assert(s[i + 4] == le64_byte(v, 4));
    assert(s[i + 5] == le64_byte(v, 5));
    assert(s[i + 6] == le64_byte(v, 6));
    assert(s[i + 7] == le64_byte(v, 7));
    lemma_le64_bytes_value(v);
}

/// The eight little-endian bytes of `v` reassemble to `v`.
proof fn lemma_le64_bytes_value(v: u64)
    ensures
        le64_byte(v, 0) as nat + 0x100 * (le64_byte(v, 1) as nat) + 0x1_0000 * (le64_byte(
            v,
            2,
        ) as nat) + 0x100_0000 * (le64_byte(v, 3) as nat) + 0x1_0000_0000 * (le64_byte(
            v,
            4,
        ) as nat) + 0x100_0000_0000 * (le64_byte(v, 5) as nat) + 0x1_0000_0000_0000 * (le64_byte(
            v,
            6,
        ) as nat) + 0x100_0000_0000_0000 * (le64_byte(v, 7) as nat) == v as nat,
{
    let n = v as nat;
    assert(n / 0x100 / 0x100 == n / 0x1_0000) by (nonlinear_arith);
    assert(n / 0x1_0000 / 0x100 == n / 0x100_0000) by (nonlinear_arith);
    assert(n / 0x100_0000 / 0x100 == n / 0x1_0000_0000) by (nonlinear_arith);
    assert(n / 0x1_0000_0000 / 0x100 == n / 0x100_0000_0000) by (nonlinear_arith);
    assert(n / 0x100_0000_0000 / 0x100 == n / 0x1_0000_0000_0000) by (nonlinear_arith);
    assert(n / 0x1_0000_0000_0000 / 0x100 == n / 0x100_0000_0000_0000) by (nonlinear_arith);
    assert(n / 0x100_0000_0000_0000 < 0x100) by (nonlinear_arith)
        requires
            n < 0x1_0000_0000_0000_0000,
    ;
    assert(n == n % 0x100 + 0x100 * (n / 0x100));
    assert(n / 0x100 == n / 0x100 % 0x100 + 0x100 * (n / 0x100 / 0x100));
    assert(n / 0x1_0000 == n / 0x1_0000 % 0x100 + 0x100 * (n / 0x1_0000 / 0x100));
    assert(n / 0x100_0000 == n / 0x100_0000 % 0x100 + 0x100 * (n / 0x100_0000 / 0x100));
    assert(n / 0x1_0000_0000 == n / 0x1_0000_0000 % 0x100 + 0x100 * (n / 0x1_0000_0000 / 0x100));
    assert(n / 0x100_0000_0000 == n / 0x100_0000_0000 % 0x100 + 0x100 * (n / 0x100_0000_0000
        / 0x100));
    assert(n / 0x1_0000_0000_0000 == n / 0x1_0000_0000_0000 % 0x100 + 0x100 * (n
        / 0x1_0000_0000_0000 / 0x100));
    assert(n / 0x100_0000_0000_0000 == n / 0x100_0000_0000_0000 % 0x100);
}

/// Writes the little-endian encoding of `v` into `b[i .. i + 8]`.
pub fn write_le64(b: &mut Vec<u8>, i: usize, v: u64)
    requires
        i + 8 <= old(b)@.len(),
    ensures
        final(b)@ == store_le64(old(b)@, i as int, v),
{
    let n = b.len();
    assert(i + 8 <= n);
    let b0: u8 = (v % 0x100) as u8;
    let b1: u8 = (v / 0x100 % 0x100) as u8;
    let b2: u8 = (v / 0x1_0000 % 0x100) as u8;
    let b3: u8 = (v / 0x100_0000 % 0x100) as u8;
    let b4: u8 = (v / 0x1_0000_0000 % 0x100) as u8;
    let b5: u8 = (v / 0x100_0000_0000 % 0x100) as u8;
    let b6: u8 = (v / 0x1_0000_0000_0000 % 0x100) as u8;
    let b7: u8 = (v / 0x100_0000_0000_0000 % 0x100) as u8;
    b.set(i, b0);
    b.set(i + 1, b1);
    b.set(i + 2, b2);
    b.set(i + 3, b3);
    b.set(i + 4, b4);
    b.set(i + 5, b5);
    b.set(i + 6, b6);
    b.set(i + 7, b7);
    proof {
        assert(v as nat / 0x100 / 0x100 == v as nat / 0x1_0000) by (nonlinear_arith);
        assert(v as nat / 0x1_0000 / 0x100 == v as nat / 0x100_0000) by (nonlinear_arith);
        assert(v as nat / 0x100_0000 / 0x100 == v as nat / 0x1_0000_0000) by (nonlinear_arith);
        assert(v as nat / 0x1_0000_0000 / 0x100 == v as nat / 0x100_0000_0000) by (nonlinear_arith);
        assert(v as nat / 0x100_0000_0000 / 0x100 == v as nat / 0x1_0000_0000_0000)
            by (nonlinear_arith);
        assert(v as nat / 0x1_0000_0000_0000 / 0x100 == v as nat / 0x100_0000_0000_0000)
            by (nonlinear_arith);
        assert(b@ =~= store_le64(old(b)@, i as int, v));
    }
}

} // verus!
