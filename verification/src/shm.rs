use vstd::prelude::*;

use crate::chksum::{chksum_chunks, read_word, sqlite_chksum, word, Endian};
use crate::page::PAGESIZE;
use crate::storage::be_bytes;
use vstd::wrapping::u32_specs::wrapping_add;

verus! {

/// Size of one shared-memory region of the WAL index.
pub const SHM_REGION_SIZE: usize = 32768;

/// Size of one copy of the WAL-index header.
pub const WAL_INDEX_HEADER_SIZE: usize = 48;

/// Size of the checkpoint information that follows the two header copies.
pub const CHECKPOINT_INFO_SIZE: usize = 40;

/// The WAL-index format version that SQLite expects.
pub const WAL_INDEX_VERSION: u32 = 3007000;

/// The bytes of a `u32`, least significant first.
pub open spec fn le_bytes(x: u32) -> Seq<u8> {
    seq![(x % 0x100) as u8, ((x / 0x100) % 0x100) as u8, ((x / 0x10000) % 0x100) as u8, (x / 0x1000000) as u8]
}

/// The bytes of a `u32` in the byte order `endian`.
pub open spec fn u32_bytes(endian: Endian, x: u32) -> Seq<u8> {
    match endian {
        Endian::Big => be_bytes(x),
        Endian::Little => le_bytes(x),
    }
}

/// The bytes of a `u16` in the byte order `endian`.
pub open spec fn u16_bytes(endian: Endian, x: u16) -> Seq<u8> {
    match endian {
        Endian::Big => seq![(x / 0x100) as u8, (x % 0x100) as u8],
        Endian::Little => seq![(x % 0x100) as u8, (x / 0x100) as u8],
    }
}

/// The first 40 bytes of the WAL-index header, its integers in the byte
/// order `endian` (the salts in the WAL's own order, big-endian): the
/// version, 4 unused bytes, the change counter, the init flag, the
/// big-endian-checksum flag, the page size, the number of valid frames (0),
/// the database size in pages, the last frame's checksum and the WAL salts.
pub open spec fn shm_header_body(
    endian: Endian,
    ichange: u32,
    db_size: u32,
    wal_chksum: (u32, u32),
    wal_salts: (u32, u32),
) -> Seq<u8> {
    u32_bytes(endian, WAL_INDEX_VERSION) + seq![0u8, 0u8, 0u8, 0u8] + u32_bytes(endian, ichange)
        + seq![1u8, 1u8] + u16_bytes(endian, PAGESIZE as u16) + u32_bytes(endian, 0) + u32_bytes(
        endian,
        db_size,
    ) + u32_bytes(endian, wal_chksum.0) + u32_bytes(endian, wal_chksum.1) + be_bytes(wal_salts.0)
        + be_bytes(wal_salts.1)
}

/// The whole WAL-index header: its body followed by the body's checksum
/// (big-endian words, starting from `(0, 0)`).
pub open spec fn shm_header(
    endian: Endian,
    ichange: u32,
    db_size: u32,
    wal_chksum: (u32, u32),
    wal_salts: (u32, u32),
) -> Seq<u8> {
    let body = shm_header_body(endian, ichange, db_size, wal_chksum, wal_salts);
    let c = chksum_chunks(Endian::Big, 0, 0, body, 5);
    body + u32_bytes(endian, c.0) + u32_bytes(endian, c.1)
}

/// The first shared-memory region after a reset: the header twice, then
/// zeros (the checkpoint information and the rest of the region).
pub open spec fn shm_region(
    endian: Endian,
    ichange: u32,
    db_size: u32,
    wal_chksum: (u32, u32),
    wal_salts: (u32, u32),
) -> Seq<u8> {
    let h = shm_header(endian, ichange, db_size, wal_chksum, wal_salts);
    h + h + Seq::new((SHM_REGION_SIZE - 2 * WAL_INDEX_HEADER_SIZE) as nat, |i: int| 0u8)
}

/// The change counter a reset writes: one more (wrapping) than the one the
/// first region holds at byte 8, or 0 when there is no region yet.
pub open spec fn next_ichange(endian: Endian, regions: Seq<Seq<u8>>) -> u32 {
    if regions.len() == 0 {
        0
    } else {
        wrapping_add(word(endian, regions[0], 2), 1)
    }
}

/// Appends the bytes of `x` in the byte order `endian`.
fn push_u32(out: &mut Vec<u8>, endian: Endian, x: u32)
    ensures
        final(out)@ == old(out)@ + u32_bytes(endian, x),
{
    let b0 = (x / 0x1000000) as u8;
    let b1 = ((x / 0x10000) % 0x100) as u8;
    let b2 = ((x / 0x100) % 0x100) as u8;
    let b3 = (x % 0x100) as u8;
    match endian {
        Endian::Big => {
            out.push(b0);
            out.push(b1);
            out.push(b2);
            out.push(b3);
        },
        Endian::Little => {
            out.push(b3);
            out.push(b2);
            out.push(b1);
            out.push(b0);
        },
    }
    assert(out@ =~= old(out)@ + u32_bytes(endian, x));
}

/// Appends the bytes of `x` in the byte order `endian`.
fn push_u16(out: &mut Vec<u8>, endian: Endian, x: u16)
    ensures
        final(out)@ == old(out)@ + u16_bytes(endian, x),
{
    match endian {
        Endian::Big => {
            out.push((x / 0x100) as u8);
            out.push((x % 0x100) as u8);
        },
        Endian::Little => {
            out.push((x % 0x100) as u8);
            out.push((x / 0x100) as u8);
        },
    }
    assert(out@ =~= old(out)@ + u16_bytes(endian, x));
}

/// Builds the first 40 bytes of the WAL-index header.
fn build_header_body(
    endian: Endian,
    ichange: u32,
    db_size: u32,
    wal_chksum: (u32, u32),
    wal_salts: (u32, u32),
) -> (r: Vec<u8>)
    ensures
        r@ == shm_header_body(endian, ichange, db_size, wal_chksum, wal_salts),
{
    let mut body: Vec<u8> = Vec::new();
    push_u32(&mut body, endian, WAL_INDEX_VERSION);
    let ghost s1 = body@;
    body.push(0u8);
    body.push(0u8);
    body.push(0u8);
    body.push(0u8);
    assert(body@ =~= s1 + seq![0u8, 0u8, 0u8, 0u8]);
    let ghost s2 = body@;
    push_u32(&mut body, endian, ichange);
    let ghost s3 = body@;
    body.push(1u8);
    body.push(1u8);
    assert(body@ =~= s3 + seq![1u8, 1u8]);
    push_u16(&mut body, endian, PAGESIZE as u16);
    push_u32(&mut body, endian, 0);
    push_u32(&mut body, endian, db_size);
    push_u32(&mut body, endian, wal_chksum.0);
    push_u32(&mut body, endian, wal_chksum.1);
    push_u32(&mut body, Endian::Big, wal_salts.0);
    push_u32(&mut body, Endian::Big, wal_salts.1);
    body
}

/// Builds the WAL-index header: its body and the body's checksum.
fn build_header(
    endian: Endian,
    ichange: u32,
    db_size: u32,
    wal_chksum: (u32, u32),
    wal_salts: (u32, u32),
) -> (r: Vec<u8>)
    ensures
        r@ == shm_header(endian, ichange, db_size, wal_chksum, wal_salts),
        r@.len() == WAL_INDEX_HEADER_SIZE,
{
    let body = build_header_body(endian, ichange, db_size, wal_chksum, wal_salts);
    let ghost b = body@;
    assert(b.len() == 40);
    let c = sqlite_chksum(Endian::Big, 0, 0, body.as_slice());
    assert(c == chksum_chunks(Endian::Big, 0, 0, b, 5));
    let mut header = body;
    push_u32(&mut header, endian, c.0);
    push_u32(&mut header, endian, c.1);
    assert(header@ == b + u32_bytes(endian, c.0) + u32_bytes(endian, c.1));
    header
}

/// Builds the first shared-memory region after a reset.
fn build_region(
    endian: Endian,
    ichange: u32,
    db_size: u32,
    wal_chksum: (u32, u32),
    wal_salts: (u32, u32),
) -> (r: Vec<u8>)
    ensures
        r@ == shm_region(endian, ichange, db_size, wal_chksum, wal_salts),
{
    let header = build_header(endian, ichange, db_size, wal_chksum, wal_salts);
    let ghost h = header@;
    let mut region: Vec<u8> = Vec::new();
    let mut i: usize = 0;
    while i < 2 * WAL_INDEX_HEADER_SIZE
        invariant
            header@ == h,
            h.len() == WAL_INDEX_HEADER_SIZE,
            0 <= i <= 2 * WAL_INDEX_HEADER_SIZE,
            region@ == (h + h).subrange(0, i as int),
        decreases 2 * WAL_INDEX_HEADER_SIZE - i,
    {
        let byte = if i < WAL_INDEX_HEADER_SIZE {
            header[i]
        } else {
            header[i - WAL_INDEX_HEADER_SIZE]
        };
        region.push(byte);
        i = i + 1;
        assert(region@ =~= (h + h).subrange(0, i as int));
    }
    while i < SHM_REGION_SIZE
        invariant
            2 * WAL_INDEX_HEADER_SIZE <= i <= SHM_REGION_SIZE,
            region@.len() == i,
            region@.subrange(0, 2 * WAL_INDEX_HEADER_SIZE as int) == h + h,
            forall|t: int| 2 * WAL_INDEX_HEADER_SIZE <= t < i ==> region@[t] == 0u8,
        decreases SHM_REGION_SIZE - i,
    {
        region.push(0u8);
        i = i + 1;
        assert(region@.subrange(0, 2 * WAL_INDEX_HEADER_SIZE as int) =~= (h + h));
    }
    assert(region@ =~= shm_region(endian, ichange, db_size, wal_chksum, wal_salts));
    region
}

/// The shared memory of SQLite's WAL index, one byte vector per region.
pub struct SqliteShm {
    data: Vec<Vec<u8>>,
}

impl View for SqliteShm {
    type V = Seq<Seq<u8>>;

    closed spec fn view(&self) -> Seq<Seq<u8>> {
        self.data@.map_values(|r: Vec<u8>| r@)
    }
}

impl SqliteShm {
    pub fn new() -> (s: Self)
        ensures
            s@ == Seq::<Seq<u8>>::empty(),
    {
        let s = SqliteShm { data: Vec::new() };
        assert(s@ =~= Seq::<Seq<u8>>::empty());
        s
    }

    /// The regions' bytes.
    pub fn regions(&self) -> (r: &Vec<Vec<u8>>)
        ensures
            r@.map_values(|v: Vec<u8>| v@) == self@,
    {
        &self.data
    }

    /// Drops every region.
    pub fn shm_unmap(&mut self)
        ensures
            final(self)@ == Seq::<Seq<u8>>::empty(),
    {
        self.data.clear();
        assert(self@ =~= Seq::<Seq<u8>>::empty());
    }

    /// Resets the WAL index to a WAL with no valid frame, whose last frame
    /// checksum and salts are `wal_chksum` and `wal_salts`, over a database
    /// of `db_page_cnt` pages: only the first region is kept, holding a
    /// fresh header (twice, see `shm_region`) with the change counter
    /// advanced, and zeros after it. The header's integers are written in
    /// the byte order `endian` (the machine's own, for SQLite).
    pub fn reset(&mut self, endian: Endian, db_page_cnt: usize, wal_chksum: (u32, u32), wal_salts: (u32, u32))
        requires
            forall|i: int| 0 <= i < old(self)@.len() ==> (#[trigger] old(self)@[i]).len() == SHM_REGION_SIZE,
        ensures
            final(self)@ == seq![
                shm_region(
                    endian,
                    next_ichange(endian, old(self)@),
                    db_page_cnt as u32,
                    wal_chksum,
                    wal_salts,
                ),
            ],
    {
        let ghost regions = self@;
        let next: u32 = if self.data.len() == 0 {
            0
        } else {
            proof {
                assert(regions[0] == self.data@[0]@);
            }
            read_word(endian, self.data[0].as_slice(), 2).wrapping_add(1)
        };
        let region = build_region(endian, next, db_page_cnt as u32, wal_chksum, wal_salts);
        if self.data.len() == 0 {
            self.data.push(region);
        } else {
            self.data.truncate(1);
            self.data.set(0, region);
        }
        assert(self@ =~= seq![shm_region(endian, next, db_page_cnt as u32, wal_chksum, wal_salts)]);
    }
}

} // verus!
