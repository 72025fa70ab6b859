use vstd::prelude::*;

use byteorder::ByteOrder;

use crate::storage::be_u32;
use vstd::wrapping::u32_specs::wrapping_add;

verus! {

/// The byte order in which checksummed words are read.
#[derive(Debug, Clone, Copy, PartialEq, Eq, Structural)]
pub enum Endian {
    Big,
    Little,
}

/// The `u32` that four bytes hold, least significant byte first.
pub open spec fn le_u32(b: Seq<u8>) -> u32 {
    (b[3] as int * 0x1000000 + b[2] as int * 0x10000 + b[1] as int * 0x100 + b[0] as int) as u32
}

/// Word `k` (the four bytes from `4 * k`) of `b`.
pub open spec fn word(endian: Endian, b: Seq<u8>, k: int) -> u32 {
    let w = b.subrange(4 * k, 4 * k + 4);
    match endian {
        Endian::Big => be_u32(w),
        Endian::Little => le_u32(w),
    }
}

/// One step of SQLite's WAL checksum over chunk `k` of `b` (the two words
/// `x0 = word 2k` and `x1 = word 2k + 1`):
/// `s0 += x0 + s1; s1 += x1 + s0`, all modulo 2^32.
pub open spec fn chunk_step(endian: Endian, s: (u32, u32), b: Seq<u8>, k: int) -> (u32, u32) {
    let s0 = wrapping_add(s.0, wrapping_add(s.1, word(endian, b, 2 * k)));
    let s1 = wrapping_add(s.1, wrapping_add(s0, word(endian, b, 2 * k + 1)));
    (s0, s1)
}

/// The checksum state after the first `n` 8-byte chunks of `b`, starting
/// from `(s0, s1)`.
pub open spec fn chksum_chunks(endian: Endian, s0: u32, s1: u32, b: Seq<u8>, n: nat) -> (u32, u32)
    decreases n,
{
    if n == 0 {
        (s0, s1)
    } else {
        chunk_step(endian, chksum_chunks(endian, s0, s1, b, (n - 1) as nat), b, n - 1)
    }
}

/// Calls `byteorder::BigEndian::read_u32`, which reads the first four bytes
/// most significant first (and panics on fewer than four).
#[verifier::external_body]
fn read_u32_big(buf: &[u8]) -> (r: u32)
    requires
        buf@.len() >= 4,
    ensures
        r == be_u32(buf@.subrange(0, 4)),
{
    byteorder::BigEndian::read_u32(buf)
}

/// Calls `byteorder::LittleEndian::read_u32`, which reads the first four
/// bytes least significant first (and panics on fewer than four).
#[verifier::external_body]
fn read_u32_little(buf: &[u8]) -> (r: u32)
    requires
        buf@.len() >= 4,
    ensures
        r == le_u32(buf@.subrange(0, 4)),
{
    byteorder::LittleEndian::read_u32(buf)
}

/// Reads word `k` of `b`.
pub(crate) fn read_word(endian: Endian, b: &[u8], k: usize) -> (r: u32)
    requires
        4 * k + 4 <= b@.len(),
    ensures
        r == word(endian, b@, k as int),
{
    let len = b.len();
    let rest = vstd::slice::slice_subrange(b, 4 * k, len);
    proof {
        assert(rest@.subrange(0, 4) =~= b@.subrange(4 * k, 4 * k + 4));
    }
    match endian {
        Endian::Big => read_u32_big(rest),
        Endian::Little => read_u32_little(rest),
    }
}

/// Adds chunks `0..n` of `b` to the state `(s0, s1)`.
fn add_chunks(endian: Endian, s0: u32, s1: u32, b: &[u8]) -> (r: (u32, u32))
    requires
        b@.len() % 8 == 0,
    ensures
        r == chksum_chunks(endian, s0, s1, b@, (b@.len() / 8) as nat),
{
    let len = b.len();
    let n: usize = len / 8;
    let mut state: (u32, u32) = (s0, s1);
    let mut k: usize = 0;
    while k < n
        invariant
            n == b@.len() / 8,
            b@.len() % 8 == 0,
            b@.len() == len,
            k <= n,
            state == chksum_chunks(endian, s0, s1, b@, k as nat),
        decreases n - k,
    {
        let x0 = read_word(endian, b, 2 * k);
        let t0 = state.0.wrapping_add(state.1.wrapping_add(x0));
        let x1 = read_word(endian, b, 2 * k + 1);
        let t1 = state.1.wrapping_add(t0.wrapping_add(x1));
        state = (t0, t1);
        k = k + 1;
    }
    state
}

/// A running SQLite checksum.
pub struct SqliteChksum {
    s0: u32,
    s1: u32,
    endian: Endian,
}

impl SqliteChksum {
    pub closed spec fn state(self) -> (u32, u32) {
        (self.s0, self.s1)
    }

    pub closed spec fn spec_endian(self) -> Endian {
        self.endian
    }

    pub fn new(endian: Endian, s0: u32, s1: u32) -> (c: Self)
        ensures
            c.state() == (s0, s1),
            c.spec_endian() == endian,
    {
        SqliteChksum { s0, s1, endian }
    }

    /// Adds the words of `b`, two at a time, to the checksum.
    pub fn update(&mut self, b: &[u8])
        requires
            b@.len() % 8 == 0,
        ensures
            final(self).spec_endian() == old(self).spec_endian(),
            final(self).state() == chksum_chunks(
                old(self).spec_endian(),
                old(self).state().0,
                old(self).state().1,
                b@,
                (b@.len() / 8) as nat,
            ),
    {
        let (s0, s1) = add_chunks(self.endian, self.s0, self.s1, b);
        self.s0 = s0;
        self.s1 = s1;
    }

    pub fn read(&self) -> (r: (u32, u32))
        ensures
            r == self.state(),
    {
        (self.s0, self.s1)
    }
}

/// SQLite's checksum of `b` (whose length is a multiple of 8), starting
/// from `(s0, s1)`.
pub fn sqlite_chksum(endian: Endian, s0: u32, s1: u32, b: &[u8]) -> (r: (u32, u32))
    requires
        b@.len() % 8 == 0,
    ensures
        r == chksum_chunks(endian, s0, s1, b@, (b@.len() / 8) as nat),
{
    let mut chksum = SqliteChksum::new(endian, s0, s1);
    chksum.update(b);
    chksum.read()
}

/// The WAL checksum of `b` (whose length is a multiple of 8), starting from
/// `(s0, s1)`, computed in one pass.
pub fn wal_checksum(endian: Endian, s0: u32, s1: u32, b: &[u8]) -> (r: (u32, u32))
    requires
        b@.len() % 8 == 0,
    ensures
        r == chksum_chunks(endian, s0, s1, b@, (b@.len() / 8) as nat),
{
    add_chunks(endian, s0, s1, b)
}

/// The checksum of the first `n` chunks depends on those chunks alone.
proof fn lemma_chunks_prefix(endian: Endian, s0: u32, s1: u32, a: Seq<u8>, b: Seq<u8>, n: nat)
    requires
        8 * n <= a.len(),
    ensures
        chksum_chunks(endian, s0, s1, a + b, n) == chksum_chunks(endian, s0, s1, a, n),
    decreases n,
{
    if n > 0 {
        lemma_chunks_prefix(endian, s0, s1, a, b, (n - 1) as nat);
        let k = n - 1;
        assert((a + b).subrange(4 * (2 * k), 4 * (2 * k) + 4) =~= a.subrange(4 * (2 * k), 4 * (2 * k) + 4));
        assert((a + b).subrange(4 * (2 * k + 1), 4 * (2 * k + 1) + 4) =~= a.subrange(4 * (2 * k + 1), 4 * (2 * k + 1) + 4));
    }
}

/// Chunks of `b` taken after those of `a` (whose length is a multiple of 8)
/// continue from the state that `a` left.
proof fn lemma_chunks_suffix(endian: Endian, s0: u32, s1: u32, a: Seq<u8>, b: Seq<u8>, n: nat)
    requires
        a.len() % 8 == 0,
        8 * n <= b.len(),
    ensures
        chksum_chunks(endian, s0, s1, a + b, (a.len() / 8 + n) as nat) == {
            let (t0, t1) = chksum_chunks(endian, s0, s1, a, (a.len() / 8) as nat);
            chksum_chunks(endian, t0, t1, b, n)
        },
    decreases n,
{
    if n == 0 {
        lemma_chunks_prefix(endian, s0, s1, a, b, (a.len() / 8) as nat);
    } else {
        lemma_chunks_suffix(endian, s0, s1, a, b, (n - 1) as nat);
        let k = n - 1;
        let m = a.len() / 8 + k;
        assert(4 * (2 * m) == a.len() + 4 * (2 * k));
        assert((a + b).subrange(4 * (2 * m), 4 * (2 * m) + 4) =~= b.subrange(4 * (2 * k), 4 * (2 * k) + 4));
        assert((a + b).subrange(4 * (2 * m + 1), 4 * (2 * m + 1) + 4) =~= b.subrange(4 * (2 * k + 1), 4 * (2 * k + 1) + 4));
    }
}

/// Checksumming `a` and then `b` (lengths multiples of 8) gives the checksum
/// of `a` followed by `b`: a running checksum may be fed in any split.
pub proof fn lemma_chksum_concat(endian: Endian, s0: u32, s1: u32, a: Seq<u8>, b: Seq<u8>)
    requires
        a.len() % 8 == 0,
        b.len() % 8 == 0,
    ensures
        chksum_chunks(endian, s0, s1, a + b, ((a + b).len() / 8) as nat) == {
            let (t0, t1) = chksum_chunks(endian, s0, s1, a, (a.len() / 8) as nat);
            chksum_chunks(endian, t0, t1, b, (b.len() / 8) as nat)
        },
{
    lemma_chunks_suffix(endian, s0, s1, a, b, (b.len() / 8) as nat);
    assert((a + b).len() / 8 == a.len() / 8 + b.len() / 8);
}

} // verus!
