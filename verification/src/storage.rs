use vstd::prelude::*;

use std::collections::HashSet;
use std::io;

use crate::journal::{Cursor, Journal, JournalError, JournalId, JournalResult, Scannable};
use crate::iter::sorted_insert;
use crate::replication::{ReplicationDestination, ReplicationError, ReplicationSource};
use crate::lsn::{Lsn, LsnRange};
use crate::positioned_io::PositionedReader;
use crate::page::{
    header_key, header_keys, page_start, serialized_num_pages, strictly_decreasing, strictly_increasing,
    serialized_pages, SerializedPagesReader, SparsePages, PageIdx, Page, PAGESIZE, PAGE_IDX_SIZE,
};

verus! {

broadcast use {vstd::std_specs::hash::group_hash_axioms, vstd::std_specs::btree::group_btree_axioms, vstd::laws_cmp::group_laws_cmp};

// Useful SQLite header offsets
// The SQLite header is the first 100 bytes in page 0
// The following offsets are relative to the start of the header

// We use the file change counter to control SQLite caching
pub const FILE_CHANGE_COUNTER_OFFSET: usize = 24;

// The schema cookie is used to determine if the schema has changed
pub const SCHEMA_COOKIE_OFFSET: usize = 40;

// The page SQLite reserves for its pending-byte lock: the page holding byte
// 0x40000000 of the file, `0x40000000 / PAGESIZE + 1`.
pub const PENDING_BYTE_PAGE_IDX: u64 = 262145;

// SQLSync does not currently support SQLite extensions, so the usable page
// size is the whole page. If extensions are ever supported, this has to take
// the region they reserve at the end of each page into account.
pub const USABLE_PAGE_SIZE: u64 = 4096;

pub const PTRMAP_ENTRY_SIZE: u64 = 5;

// How far apart two ptrmap pages are. The 1 added to the number of entries
// per ptrmap page accounts for the ptrmap page itself (as in SQLite's
// btree.c).
pub const PAGES_PER_PTRMAP: u64 = USABLE_PAGE_SIZE / PTRMAP_ENTRY_SIZE + 1;

// The most ptrmap entries followed while resolving one page: a chain that
// visits each page index once is never longer.
pub const MAX_PTRMAP_CHAIN: u64 = 4294967297;

/// StorageChange specifies the type of change that occurred in storage
#[derive(Debug, Clone)]
pub enum StorageChange {
    /// Either the schema has changed, or so much of the storage has changed that it's not worth tracking
    /// All caches or query subscriptions should be invalidated
    Full,
    /// one or more table btrees have changed
    /// the root page indexes for each table are provided
    Tables { root_pages_sorted: Vec<PageIdx> },
}

/// The page that a serialized journal entry holds for `p`, if its index
/// section names `p`.
pub open spec fn entry_page(e: Seq<u8>, p: u32) -> Option<Seq<u8>> {
    let n = serialized_num_pages(e);
    if exists|i: int| 0 <= i < n && header_key(e, i) == p {
        let i = choose|i: int| 0 <= i < n && header_key(e, i) == p;
        Some(e.subrange(page_start(n, i), page_start(n, i) + PAGESIZE))
    } else {
        None
    }
}

/// The entries at lsns `[lo, hi)` are serialized pages with their indexes
/// in decreasing order (as `SparsePages::serialize_into` writes them).
pub open spec fn entries_wf<J: Scannable>(j: J, lo: int, hi: int) -> bool {
    forall|lsn: int| lo <= lsn < hi ==> strictly_decreasing(header_keys(#[trigger] j.entry(lsn)))
}

/// The entries at lsns `[lo, hi)` are long enough to hold the first slot of
/// an index section.
pub open spec fn entries_hold_index<J: Scannable>(j: J, lo: int, hi: int) -> bool {
    forall|lsn: int| lo <= lsn < hi ==> #[trigger] j.entry(lsn).len() >= PAGE_IDX_SIZE
}

/// The newest version of page `p` among the journal entries at lsns
/// `[lo, hi)`.
pub open spec fn journal_page<J: Scannable>(j: J, lo: int, hi: int, p: u32) -> Option<Seq<u8>>
    decreases hi - lo,
{
    if hi <= lo {
        None
    } else {
        match entry_page(j.entry(hi - 1), p) {
            Some(bytes) => Some(bytes),
            None => journal_page(j, lo, hi - 1, p),
        }
    }
}

/// The page index that byte position `pos` of the database file falls in
/// (page indexes start at 1).
pub open spec fn page_of(pos: u64) -> u32 {
    (pos / (PAGESIZE as u64) + 1) as u32
}

/// The big-endian bytes of a `u32`.
pub open spec fn be_bytes(x: u32) -> Seq<u8> {
    seq![(x / 0x1000000) as u8, ((x / 0x10000) % 0x100) as u8, ((x / 0x100) % 0x100) as u8, (x % 0x100) as u8]
}

/// Bytes read from page `p` at `offset`, with the database header's file
/// change counter replaced by `counter` when the read covers all of it.
pub open spec fn with_change_counter(bytes: Seq<u8>, p: u32, offset: int, counter: u32) -> Seq<u8> {
    let at = FILE_CHANGE_COUNTER_OFFSET - offset;
    if p == 1 && offset <= FILE_CHANGE_COUNTER_OFFSET && offset + bytes.len()
        >= FILE_CHANGE_COUNTER_OFFSET + 4 {
        Seq::new(
            bytes.len(),
            |i: int|
                if at <= i < at + 4 {
                    be_bytes(counter)[i - at]
                } else {
                    bytes[i]
                },
        )
    } else {
        bytes
    }
}

fn u32_to_be_bytes(x: u32) -> (r: [u8; 4])
    ensures
        r@ == be_bytes(x),
{
    let r = [(x / 0x1000000) as u8, ((x / 0x10000) % 0x100) as u8, ((x / 0x100) % 0x100) as u8, (x % 0x100) as u8];
    assert(r@ =~= be_bytes(x));
    r
}

/// The `u32` that four bytes hold, most significant byte first.
pub open spec fn be_u32(b: Seq<u8>) -> u32 {
    (b[0] as int * 0x1000000 + b[1] as int * 0x10000 + b[2] as int * 0x100 + b[3] as int) as u32
}

fn u32_from_be_bytes(b: &[u8; 5]) -> (r: u32)
    ensures
        r == be_u32(b@.subrange(1, 5)),
{
    (b[1] as u32) * 0x1000000 + (b[2] as u32) * 0x10000 + (b[3] as u32) * 0x100 + (b[4] as u32)
}

fn u32_from_be_array(b: &[u8; 4]) -> (r: u32)
    ensures
        r == be_u32(b@),
{
    (b[0] as u32) * 0x1000000 + (b[1] as u32) * 0x10000 + (b[2] as u32) * 0x100 + (b[3] as u32)
}

/// The ptrmap page that holds the entry of page `page` (for `page >= 2`).
pub open spec fn ptrmap_page_of(page: u64) -> u64 {
    let idx = ((page - 2) / PAGES_PER_PTRMAP as int) * PAGES_PER_PTRMAP + 2;
    if idx == PENDING_BYTE_PAGE_IDX {
        (idx + 1) as u64
    } else {
        idx as u64
    }
}

/// The position in the database file of the ptrmap entry of page `page`.
pub open spec fn ptrmap_entry_pos(page: u64) -> u64 {
    let ptrmap = ptrmap_page_of(page);
    ((ptrmap - 1) * PAGESIZE + (page - ptrmap - 1) * PTRMAP_ENTRY_SIZE) as u64
}

/// The version of page `p` that a read over `range` finds: the pending page
/// when pending pages are included and hold `p`, otherwise the newest entry of
/// journal `j` in `range` that holds `p`.
pub open spec fn source_of_page<J: Scannable>(
    j: J,
    pending: Map<PageIdx, Page>,
    range: LsnRange,
    include_pending: bool,
    p: u32,
) -> Option<Seq<u8>> {
    if include_pending && pending.contains_key(p) {
        Some(pending[p]@)
    } else {
        let r = j.lsns().spec_intersect(range);
        journal_page(j, r.lo(), r.hi(), p)
    }
}

/// A read of `len` bytes at `pos` finds the page it falls in.
pub open spec fn read_found<J: Scannable>(
    j: J,
    pending: Map<PageIdx, Page>,
    range: LsnRange,
    include_pending: bool,
    pos: u64,
    len: nat,
) -> bool {
    len > 0 && source_of_page(j, pending, range, include_pending, page_of(pos)) is Some
}

/// What a read at `pos` leaves in a buffer that held `buf`: the bytes of the
/// page it falls in (with `counter` as the file change counter of the
/// database header), or `buf` unchanged when the page is not found.
pub open spec fn read_into<J: Scannable>(
    j: J,
    pending: Map<PageIdx, Page>,
    counter: u32,
    range: LsnRange,
    include_pending: bool,
    pos: u64,
    buf: Seq<u8>,
) -> Seq<u8> {
    let p = page_of(pos);
    let off = (pos % (PAGESIZE as u64)) as int;
    if read_found(j, pending, range, include_pending, pos, buf.len()) {
        with_change_counter(
            source_of_page(j, pending, range, include_pending, p)->0.subrange(off, off + buf.len()),
            p,
            off,
            counter,
        )
    } else {
        buf
    }
}

/// Follows the ptrmap entries from page `page` towards the root page of its
/// b-tree, reading each entry over `range` into a buffer that holds `entry`
/// before the read, for at most `fuel` entries. `None` when the fuel runs
/// out; otherwise the root page, or `None` inside when the page belongs to no
/// b-tree (a ptrmap page, a free page, a page without a ptrmap entry).
pub open spec fn walk_to_root<J: Scannable>(
    j: J,
    pending: Map<PageIdx, Page>,
    counter: u32,
    range: LsnRange,
    include_pending: bool,
    page: u64,
    entry: Seq<u8>,
    fuel: nat,
) -> Option<Option<PageIdx>>
    decreases fuel,
{
    if fuel == 0 {
        None
    } else if page == 1 {
        // page 1 is the schema root page
        Some(Some(1))
    } else if page == 0 || ptrmap_page_of(page) == page {
        Some(None)
    } else {
        let e = read_into(j, pending, counter, range, include_pending, ptrmap_entry_pos(page), entry);
        if e[0] == 0 || e[0] == 2 {
            Some(None)
        } else if e[0] == 1 {
            Some(Some(page as PageIdx))
        } else {
            walk_to_root(
                j,
                pending,
                counter,
                range,
                include_pending,
                be_u32(e.subrange(1, 5)) as u64,
                e,
                (fuel - 1) as nat,
            )
        }
    }
}

/// The file change counter after one more change: SQLite's counter wraps.
pub open spec fn next_counter(c: u32) -> u32 {
    if c == u32::MAX {
        0
    } else {
        (c + 1) as u32
    }
}

/// The lsns of `committed` that come after every lsn of `visible`: the lsns
/// that committing (or resetting) makes visible.
pub open spec fn spec_lsns_after(committed: LsnRange, visible: LsnRange) -> LsnRange {
    LsnRange::from_bounds(crate::lsn::spec_max(committed.lo(), visible.hi()), committed.hi())
}

fn lsns_after(committed: &LsnRange, visible: &LsnRange) -> (r: LsnRange)
    requires
        committed.wf(),
        committed.has_next(),
        visible.has_next(),
    ensures
        r == spec_lsns_after(*committed, *visible),
        r.wf(),
{
    let first = match committed {
        LsnRange::Empty { nextlsn } => *nextlsn,
        LsnRange::NonEmpty { first, .. } => *first,
    };
    let visible_next = visible.next();
    let lo = if first < visible_next {
        visible_next
    } else {
        first
    };
    let hi = committed.next();
    if lo >= hi {
        LsnRange::Empty { nextlsn: hi }
    } else {
        LsnRange::NonEmpty { first: lo, last: hi - 1 }
    }
}

/// Appending serialized pages keeps every journal entry well formed.
proof fn pending_entries_wf<J: Scannable>(before: J, after: J, pending: Map<PageIdx, Page>)
    requires
        before.scannable_wf(),
        pending.dom().finite(),
        entries_wf(before, before.lsns().lo(), before.lsns().hi()),
        after.lsns() == before.lsns().spec_extend_by(1),
        after.entry(before.lsns().hi()) == serialized_pages(pending),
        forall|lsn: int| before.lsns().has(lsn) ==> #[trigger] after.entry(lsn) == before.entry(lsn),
    ensures
        entries_wf(after, after.lsns().lo(), after.lsns().hi()),
{
    crate::page::lemma_serialized_pages_layout(pending);
    before.lemma_scannable_wf();
    assert forall|lsn: int| after.lsns().lo() <= lsn < after.lsns().hi() implies strictly_decreasing(
        header_keys(#[trigger] after.entry(lsn)),
    ) by {
        if lsn < before.lsns().hi() {
            assert(before.lsns().has(lsn));
        }
    }
}

/// Taking all of a sequence gives the sequence.
proof fn lemma_take_all<T>(s: Seq<T>, n: int)
    ensures
        n == s.len() ==> s.take(n) == s,
{
    if n == s.len() {
        assert(s.take(n) =~= s);
    }
}

/// The larger of two optional page indexes; any page index is larger than
/// none.
pub open spec fn opt_max(a: Option<PageIdx>, b: Option<PageIdx>) -> Option<PageIdx> {
    match (a, b) {
        (None, _) => b,
        (_, None) => a,
        (Some(x), Some(y)) => Some(if x < y { y } else { x }),
    }
}

/// The largest page index that the journal entries at lsns `[lo, hi)` name
/// in their first index slot (their largest page index, when well formed).
pub open spec fn journal_max_page<J: Scannable>(j: J, lo: int, hi: int) -> Option<PageIdx>
    decreases hi - lo,
{
    if hi <= lo {
        None
    } else {
        opt_max(journal_max_page(j, lo, hi - 1), Some(header_key(j.entry(hi - 1), 0)))
    }
}

/// The largest page index of a set of pages.
pub open spec fn pages_max(m: Map<PageIdx, Page>) -> Option<PageIdx> {
    if m.dom().is_empty() {
        None
    } else {
        Some(choose|k: PageIdx| m.contains_key(k) && forall|x: PageIdx| m.contains_key(x) ==> x <= k)
    }
}

/// Builds the error reported for a chain of ptrmap entries that does not
/// end: `io::Error::new(io::ErrorKind::InvalidData, ..)`. Nothing is stated of
/// the value.
#[verifier::external_body]
fn invalid_data_error() -> io::Error {
    io::Error::new(io::ErrorKind::InvalidData, "ptrmap chain does not end")
}

/// The pages of a SQLite database: committed pages in a journal, one set of
/// pages per lsn, and pending pages that are not committed yet.
pub struct Storage<J> {
    journal: J,
    visible_lsn_range: LsnRange,
    pending: SparsePages,
    file_change_counter: u32,
    // the following three fields are reset whenever Storage::changes() is called
    last_schema_cookie: u32,
    changed_root_pages: HashSet<PageIdx>,
    changed_pages: HashSet<PageIdx>,
}

impl<J> Storage<J> {
    pub closed spec fn journal(self) -> J {
        self.journal
    }

    /// The lsns whose pages SQLite can see.
    pub closed spec fn visible(self) -> LsnRange {
        self.visible_lsn_range
    }

    /// The pages written but not committed.
    pub closed spec fn pending(self) -> Map<PageIdx, Page> {
        self.pending@
    }

    pub closed spec fn change_counter(self) -> u32 {
        self.file_change_counter
    }

    pub closed spec fn schema_cookie_seen(self) -> u32 {
        self.last_schema_cookie
    }

    /// Root pages of the tables changed since the last `changes`.
    pub closed spec fn changed_roots(self) -> Set<PageIdx> {
        self.changed_root_pages@
    }

    /// Pages changed and not yet traced to their root page.
    pub closed spec fn changed(self) -> Set<PageIdx> {
        self.changed_pages@
    }
}

impl<J: Journal> Storage<J> {
    pub open spec fn inv(self) -> bool {
        &&& self.journal().scannable_wf()
        &&& self.visible().wf()
        &&& self.visible().has_next()
    }

    /// The version of page `p` that a read over `range` finds: see
    /// `source_of_page`.
    pub open spec fn page_source(self, range: LsnRange, include_pending: bool, p: u32) -> Option<
        Seq<u8>,
    > {
        source_of_page(self.journal(), self.pending(), range, include_pending, p)
    }

    /// The journal entries a read over `range` may consult are well formed.
    pub open spec fn readable(self, range: LsnRange) -> bool {
        let r = self.journal().lsns().spec_intersect(range);
        entries_wf(self.journal(), r.lo(), r.hi())
    }

    /// A read of `len` bytes at `pos` over `range` finds the page it falls in.
    pub open spec fn read_finds(self, range: LsnRange, include_pending: bool, pos: u64, len: nat) -> bool {
        read_found(self.journal(), self.pending(), range, include_pending, pos, len)
    }

    /// What a read at `pos` over `range` leaves in a buffer that held `buf`:
    /// see `read_into`.
    pub open spec fn read_outcome(self, range: LsnRange, include_pending: bool, pos: u64, buf: Seq<u8>) -> Seq<u8> {
        read_into(self.journal(), self.pending(), self.change_counter(), range, include_pending, pos, buf)
    }

    /// Every journal entry holds serialized pages, their indexes in
    /// decreasing order, as `commit` writes them.
    pub open spec fn pages_wf(self) -> bool {
        entries_wf(self.journal(), self.journal().lsns().lo(), self.journal().lsns().hi())
    }

    /// A storage holds finitely many pending pages.
    pub proof fn lemma_pending_finite(self)
        ensures
            self.pending().dom().finite(),
    {
        self.pending.lemma_finite();
    }

    /// When every journal entry holds serialized pages, a read over any range
    /// consults well-formed entries only.
    pub proof fn lemma_readable(self, range: LsnRange)
        requires
            self.inv(),
            self.pages_wf(),
            range.wf(),
        ensures
            self.readable(range),
    {
        let j = self.journal();
        j.lemma_scannable_wf();
        let r = j.lsns().spec_intersect(range);
        assert forall|lsn: int| r.lo() <= lsn < r.hi() implies strictly_decreasing(
            header_keys(#[trigger] j.entry(lsn)),
        ) by {
            crate::lsn_laws::lemma_intersect_contents(j.lsns(), range, lsn);
        }
    }

    /// The root page that page slot `i` of the journal entry at `lsn`
    /// resolves to, as of that lsn.
    pub open spec fn entry_root(self, lsn: int, i: int) -> Option<Option<PageIdx>> {
        self.root_of(
            LsnRange::NonEmpty { first: 0, last: lsn as u64 },
            false,
            header_key(self.journal().entry(lsn), i),
        )
    }

    /// The root pages that the pages of the journal entries at lsns
    /// `[lo, hi)`, and the first `k` pages of the entry at `hi`, resolve to.
    pub open spec fn entry_roots(self, lo: int, hi: int, k: int) -> Set<PageIdx> {
        Set::new(
            |root: PageIdx|
                exists|lsn: int, i: int|
                    lo <= lsn <= hi && 0 <= i < serialized_num_pages(self.journal().entry(lsn)) && (
                    lsn < hi || i < k) && #[trigger] self.entry_root(lsn, i) == Some(Some(root)),
        )
    }

    /// The root pages of the tables that the journal entries in `range`
    /// change.
    pub open spec fn journal_roots(self, range: LsnRange) -> Set<PageIdx> {
        let r = self.journal().lsns().spec_intersect(range);
        self.entry_roots(r.lo(), r.hi(), 0)
    }

    /// The root pages of the tables that hold the pages `pages`, as SQLite
    /// sees them (the visible lsns and the pending pages).
    pub open spec fn page_roots(self, pages: Set<PageIdx>) -> Set<PageIdx> {
        Set::new(
            |root: PageIdx|
                exists|p: PageIdx|
                    pages.contains(p) && #[trigger] self.root_of(self.visible(), true, p) == Some(
                        Some(root),
                    ),
        )
    }

    /// Every page of the journal entries in `range` resolves, as of its own
    /// lsn, within `MAX_PTRMAP_CHAIN` ptrmap entries.
    pub open spec fn journal_roots_resolve(self, range: LsnRange) -> bool {
        let r = self.journal().lsns().spec_intersect(range);
        forall|lsn: int, i: int|
            r.lo() <= lsn < r.hi() && 0 <= i < serialized_num_pages(self.journal().entry(lsn))
                ==> #[trigger] self.entry_root(lsn, i) is Some
    }

    /// Every page of `pages` resolves, as SQLite sees it, within
    /// `MAX_PTRMAP_CHAIN` ptrmap entries.
    pub open spec fn pages_resolve(self, pages: Set<PageIdx>) -> bool {
        forall|p: PageIdx| #[trigger]
            pages.contains(p) ==> self.root_of(self.visible(), true, p) is Some
    }

    /// Every changed page resolves: see `pages_resolve`.
    pub open spec fn changed_roots_resolve(self) -> bool {
        self.pages_resolve(self.changed())
    }

    /// Two storages with the same journal, visible lsns, pending pages and
    /// file change counter resolve the same pages within the bound.
    proof fn lemma_same_resolve(self, other: Self, range: LsnRange, pages: Set<PageIdx>)
        requires
            self.journal() == other.journal(),
            self.visible() == other.visible(),
            self.pending() == other.pending(),
            self.change_counter() == other.change_counter(),
        ensures
            self.journal_roots_resolve(range) == other.journal_roots_resolve(range),
            self.pages_resolve(pages) == other.pages_resolve(pages),
    {
        let r = self.journal().lsns().spec_intersect(range);
        if self.journal_roots_resolve(range) {
            assert forall|lsn: int, i: int|
                r.lo() <= lsn < r.hi() && 0 <= i < serialized_num_pages(other.journal().entry(lsn))
                    implies #[trigger] other.entry_root(lsn, i) is Some by {
                assert(self.entry_root(lsn, i) == other.entry_root(lsn, i));
            }
        }
        if other.journal_roots_resolve(range) {
            assert forall|lsn: int, i: int|
                r.lo() <= lsn < r.hi() && 0 <= i < serialized_num_pages(self.journal().entry(lsn))
                    implies #[trigger] self.entry_root(lsn, i) is Some by {
                assert(self.entry_root(lsn, i) == other.entry_root(lsn, i));
            }
        }
        assert forall|p: PageIdx| #[trigger] self.root_of(self.visible(), true, p) == other.root_of(
            other.visible(),
            true,
            p,
        ) by {}
    }

    /// Two storages with the same journal, visible lsns, pending pages and
    /// file change counter resolve pages to the same root pages.
    proof fn lemma_same_roots(self, other: Self, range: LsnRange, pages: Set<PageIdx>)
        requires
            self.journal() == other.journal(),
            self.visible() == other.visible(),
            self.pending() == other.pending(),
            self.change_counter() == other.change_counter(),
        ensures
            self.journal_roots(range) == other.journal_roots(range),
            self.page_roots(pages) == other.page_roots(pages),
    {
        let r = self.journal().lsns().spec_intersect(range);
        assert forall|root: PageIdx| #[trigger]
            self.journal_roots(range).contains(root) implies other.journal_roots(range).contains(root) by {
            let (lsn, i) = choose|lsn: int, i: int|
                r.lo() <= lsn <= r.hi() && 0 <= i < serialized_num_pages(self.journal().entry(lsn)) && (
                lsn < r.hi() || i < 0) && #[trigger] self.entry_root(lsn, i) == Some(Some(root));
            assert(other.entry_root(lsn, i) == self.entry_root(lsn, i));
        }
        assert forall|root: PageIdx| #[trigger]
            other.journal_roots(range).contains(root) implies self.journal_roots(range).contains(root) by {
            let (lsn, i) = choose|lsn: int, i: int|
                r.lo() <= lsn <= r.hi() && 0 <= i < serialized_num_pages(other.journal().entry(lsn)) && (
                lsn < r.hi() || i < 0) && #[trigger] other.entry_root(lsn, i) == Some(Some(root));
            assert(other.entry_root(lsn, i) == self.entry_root(lsn, i));
        }
        assert(self.journal_roots(range) =~= other.journal_roots(range));
        assert forall|root: PageIdx| #[trigger]
            self.page_roots(pages).contains(root) implies other.page_roots(pages).contains(root) by {
            let p = choose|p: PageIdx|
                pages.contains(p) && #[trigger] self.root_of(self.visible(), true, p) == Some(Some(root));
            assert(other.root_of(other.visible(), true, p) == self.root_of(self.visible(), true, p));
        }
        assert forall|root: PageIdx| #[trigger]
            other.page_roots(pages).contains(root) implies self.page_roots(pages).contains(root) by {
            let p = choose|p: PageIdx|
                pages.contains(p) && #[trigger] other.root_of(other.visible(), true, p) == Some(Some(root));
            assert(other.root_of(other.visible(), true, p) == self.root_of(self.visible(), true, p));
        }
        assert(self.page_roots(pages) =~= other.page_roots(pages));
    }

    pub fn new(journal: J) -> (s: Self)
        requires
            journal.scannable_wf(),
        ensures
            s.inv(),
            s.journal() == journal,
            s.visible() == journal.lsns(),
            s.pending() == Map::<PageIdx, Page>::empty(),
            s.change_counter() == 0,
            s.schema_cookie_seen() == 0,
            s.changed_roots() == Set::<PageIdx>::empty(),
            s.changed() == Set::<PageIdx>::empty(),
    {
        let visible_lsn_range = journal.range();
        proof {
            journal.lemma_scannable_wf();
        }
        Self {
            journal,
            visible_lsn_range,
            pending: SparsePages::new(),
            file_change_counter: 0,
            last_schema_cookie: 0,
            changed_root_pages: HashSet::new(),
            changed_pages: HashSet::new(),
        }
    }

    /// The last lsn committed to the journal, if any.
    pub fn last_committed_lsn(&self) -> (r: Option<Lsn>)
        requires
            self.inv(),
        ensures
            r == (if self.journal().lsns().count() > 0 {
                Some((self.journal().lsns().hi() - 1) as Lsn)
            } else {
                None
            }),
    {
        proof {
            self.journal.lemma_scannable_wf();
        }
        self.journal.range().last()
    }

    pub fn has_committed_pages(&self) -> (r: bool)
        requires
            self.inv(),
        ensures
            r == (self.journal().lsns().count() > 0),
    {
        proof {
            self.journal.lemma_scannable_wf();
        }
        self.journal.range().is_non_empty()
    }

    /// The journal holds lsns past the last visible one.
    pub fn has_invisible_pages(&self) -> (r: bool)
        requires
            self.inv(),
        ensures
            r == (self.journal().lsns().count() > 0 && (self.visible().count() == 0
                || self.visible().hi() < self.journal().lsns().hi())),
    {
        proof {
            self.journal.lemma_scannable_wf();
        }
        let visible_last = self.visible_lsn_range.last();
        let committed_last = self.journal.range().last();
        match (visible_last, committed_last) {
            (_, None) => false,
            (None, Some(_)) => true,
            (Some(v), Some(c)) => v < c,
        }
    }

    /// Pages changed, or tables changed, since the last call of `changes`.
    pub fn has_changes(&self) -> (r: bool)
        ensures
            r == (self.changed().len() > 0 || self.changed_roots().len() > 0),
    {
        // it's not possible for the schema to change without also modifying pages
        // so we don't have to check the schema cookie here
        return self.changed_pages.len() > 0 || self.changed_root_pages.len() > 0;
    }

    /// The schema cookie in the database header, as SQLite sees it (the
    /// visible lsns and the pending pages); 0 when page 1 does not exist yet.
    fn schema_cookie(&self) -> (r: io::Result<u32>)
        requires
            self.inv(),
        ensures
            self.journal().gets_infallible() ==> r is Ok,
            r is Ok && self.readable(self.visible()) ==> r->Ok_0 == be_u32(
                self.read_outcome(self.visible(), true, SCHEMA_COOKIE_OFFSET as u64, seq![0u8; 4]),
            ),
    {
        let mut buf = [0u8; 4];
        proof {
            assert(buf@ =~= seq![0u8; 4]);
            let pos = SCHEMA_COOKIE_OFFSET as u64;
            assert(pos % (PAGESIZE as u64) == 40) by (nonlinear_arith)
                requires
                    pos == 40,
            ;
        }
        self.read_at_range(self.visible_lsn_range, true, SCHEMA_COOKIE_OFFSET as u64, &mut buf)?;
        Ok(u32_from_be_array(&buf))
    }

    /// The root page of page `page` as of `range`: see `walk_to_root`.
    pub open spec fn root_of(self, range: LsnRange, include_pending: bool, page: PageIdx) -> Option<
        Option<PageIdx>,
    > {
        self.root_walk(range, include_pending, page as u64, seq![0u8; 5], MAX_PTRMAP_CHAIN as nat)
    }

    /// See `walk_to_root`.
    pub open spec fn root_walk(
        self,
        range: LsnRange,
        include_pending: bool,
        page: u64,
        entry: Seq<u8>,
        fuel: nat,
    ) -> Option<Option<PageIdx>> {
        walk_to_root(
            self.journal(),
            self.pending(),
            self.change_counter(),
            range,
            include_pending,
            page,
            entry,
            fuel,
        )
    }

    /// The roots of the first `n` pages of `pages` are the roots of the set
    /// of all of them, once `n` reaches their number.
    proof fn lemma_seq_roots(self, pages: Seq<&PageIdx>, n: int)
        requires
            0 <= n <= pages.len(),
        ensures
            n == pages.len() ==> Set::new(
                |root: PageIdx|
                    exists|t: int|
                        0 <= t < n && #[trigger] self.root_of(self.visible(), true, *pages[t])
                            == Some(Some(root)),
            ) == self.page_roots(pages.unref().to_set()),
    {
        if n == pages.len() {
            let a = Set::new(
                |root: PageIdx|
                    exists|t: int|
                        0 <= t < n && #[trigger] self.root_of(self.visible(), true, *pages[t])
                            == Some(Some(root)),
            );
            let b = self.page_roots(pages.unref().to_set());
            assert forall|root: PageIdx| b.contains(root) implies a.contains(root) by {
                let p = choose|p: PageIdx|
                    pages.unref().to_set().contains(p) && #[trigger] self.root_of(
                        self.visible(),
                        true,
                        p,
                    ) == Some(Some(root));
                let t = choose|t: int| 0 <= t < pages.unref().len() && pages.unref()[t] == p;
                assert(*pages[t] == p);
            }
            assert forall|root: PageIdx| a.contains(root) implies b.contains(root) by {
                let t = choose|t: int|
                    0 <= t < n && #[trigger] self.root_of(self.visible(), true, *pages[t]) == Some(
                        Some(root),
                    );
                assert(pages.unref()[t] == *pages[t]);
                assert(pages.unref().to_set().contains(*pages[t]));
            }
            assert(a =~= b);
        }
    }

    /// Commits the pending pages to the journal as one entry, and makes every
    /// committed lsn visible. Nothing happens when no page is pending.
    pub fn commit(&mut self) -> (r: JournalResult<()>)
        requires
            old(self).inv(),
            old(self).pending().len() > 0 ==> old(self).journal().lsns().hi() < u64::MAX,
        ensures
            final(self).inv(),
            final(self).schema_cookie_seen() == old(self).schema_cookie_seen(),
            old(self).pending().len() == 0 ==> r is Ok && *final(self) == *old(self),
            old(self).pending().len() > 0 ==> final(self).pending() == Map::<PageIdx, Page>::empty(),
            old(self).pending().len() > 0 && r is Err ==> {
                // the append failed: nothing else changed
                ||| {
                    &&& final(self).journal().lsns() == old(self).journal().lsns()
                    &&& final(self).visible() == old(self).visible()
                    &&& final(self).change_counter() == old(self).change_counter()
                }
                // the append went through, tracing the new pages' roots failed
                ||| {
                    &&& final(self).journal().lsns() == old(self).journal().lsns().spec_extend_by(1)
                    &&& final(self).visible() == final(self).journal().lsns()
                    &&& final(self).change_counter() == next_counter(old(self).change_counter())
                }
            },
            old(self).pending().len() > 0 && old(self).journal().appends_infallible() ==> final(self).journal().lsns() == old(self).journal().lsns().spec_extend_by(1),
            old(self).pending().len() > 0 && old(self).journal().appends_infallible() && old(self).journal().gets_infallible() && old(self).pages_wf() && final(self).journal_roots_resolve(
                spec_lsns_after(final(self).journal().lsns(), old(self).visible()),
            ) ==> r is Ok,
            old(self).pending().len() > 0 && r is Ok ==> {
                &&& final(self).journal().lsns() == old(self).journal().lsns().spec_extend_by(1)
                &&& final(self).journal().entry(old(self).journal().lsns().hi()) == serialized_pages(
                    old(self).pending(),
                )
                &&& forall|lsn: int|
                    old(self).journal().lsns().has(lsn) ==> #[trigger] final(self).journal().entry(
                        lsn,
                    ) == old(self).journal().entry(lsn)
                &&& final(self).visible() == final(self).journal().lsns()
                &&& final(self).pending() == Map::<PageIdx, Page>::empty()
                &&& final(self).change_counter() == next_counter(old(self).change_counter())
                &&& final(self).changed() == Set::<PageIdx>::empty()
                &&& old(self).pages_wf() ==> final(self).pages_wf()
                &&& old(self).pages_wf() ==> final(self).changed_roots() == old(self).changed_roots()
                    + final(self).journal_roots(
                    spec_lsns_after(final(self).journal().lsns(), old(self).visible()),
                )
            },
    {
        if self.pending.num_pages() > 0 {
            let ghost old_lsns = self.journal.lsns();
            let mut pending = SparsePages::new();
            std::mem::swap(&mut pending, &mut self.pending);
            self.journal.append(pending)?;
            proof {
                self.journal.lemma_scannable_wf();
            }

            // calculate the LsnRange between the current visible range and the committed range
            let committed = self.journal.range();
            let new_lsns = lsns_after(&committed, &self.visible_lsn_range);
            // clear the changed pages list (update_changed_root_pages will scan the new lsns)
            self.changed_pages.clear();

            // update the visible range
            self.visible_lsn_range = committed;
            // update the file change counter
            self.file_change_counter = self.file_change_counter.wrapping_add(1);

            let ghost mid = *self;
            proof {
                old(self).pending.lemma_finite();
                if old(self).pages_wf() {
                    pending_entries_wf(old(self).journal(), self.journal, old(self).pending());
                    assert(mid.page_roots(Set::<PageIdx>::empty()) =~= Set::<PageIdx>::empty());
                }
            }
            // update changed root pages in the newly visible range
            match self.update_changed_root_pages(new_lsns) {
                Ok(()) => {},
                Err(e) => {
                    proof {
                        self.lemma_same_resolve(mid, new_lsns, Set::empty());
                        assert(mid.changed() =~= Set::<PageIdx>::empty());
                    }
                    return Err(JournalError::IoError(e));
                },
            }
            proof {
                self.lemma_same_roots(mid, new_lsns, Set::empty());
            }
        }
        Ok(())
    }

    /// Drops the pending pages and makes every committed lsn visible; the
    /// dropped pages count as changed.
    pub fn reset(&mut self) -> (r: io::Result<()>)
        requires
            old(self).inv(),
        ensures
            final(self).inv(),
            final(self).journal() == old(self).journal(),
            final(self).visible() == old(self).journal().lsns(),
            final(self).pending() == Map::<PageIdx, Page>::empty(),
            final(self).change_counter() == next_counter(old(self).change_counter()),
            final(self).schema_cookie_seen() == old(self).schema_cookie_seen(),
            old(self).journal().gets_infallible() && old(self).pages_wf() && final(self).journal_roots_resolve(
                spec_lsns_after(old(self).journal().lsns(), old(self).visible()),
            ) && final(self).pages_resolve(old(self).pending().dom()) ==> r is Ok,
            r is Ok ==> final(self).changed() == Set::<PageIdx>::empty(),
            r is Ok && old(self).pages_wf() ==> final(self).changed_roots() == old(
                self,
            ).changed_roots() + final(self).journal_roots(
                spec_lsns_after(old(self).journal().lsns(), old(self).visible()),
            ) + final(self).page_roots(old(self).pending().dom()),
    {
        // mark every page in pending as changed to ensure that we re-run queries that depended on the results of something in pending
        let idxs = self.pending.page_idxs();
        let mut changed: HashSet<PageIdx> = HashSet::new();
        let mut k: usize = 0;
        while k < idxs.len()
            invariant
                0 <= k <= idxs@.len(),
                changed@ == idxs@.subrange(0, k as int).to_set(),
            decreases idxs@.len() - k,
        {
            changed.insert(idxs[k]);
            k = k + 1;
            proof {
                assert(idxs@.subrange(0, k as int) =~= idxs@.subrange(0, k - 1).push(idxs@[k - 1]));
                broadcast use vstd::seq_lib::group_seq_properties;
            }
        }
        proof {
            assert(idxs@.subrange(0, idxs@.len() as int) =~= idxs@);
        }
        self.changed_pages = changed;

        // clear pending to revert uncommitted changes
        self.pending.clear();

        // calculate the LsnRange between the current visible range and the committed range
        proof {
            self.journal.lemma_scannable_wf();
        }
        let committed = self.journal.range();
        let new_lsns = lsns_after(&committed, &self.visible_lsn_range);

        // update the visible range to reveal committed changes
        self.visible_lsn_range = committed;
        // update the file change counter
        self.file_change_counter = self.file_change_counter.wrapping_add(1);

        // update changed root pages in the newly visible range
        let ghost mid = *self;
        match self.update_changed_root_pages(new_lsns) {
            Ok(()) => {},
            Err(e) => {
                proof {
                    self.lemma_same_resolve(mid, new_lsns, old(self).pending().dom());
                }
                return Err(e);
            },
        }
        proof {
            self.lemma_same_roots(mid, new_lsns, mid.changed());
        }

        Ok(())
    }

    /// Reports what changed since the last call: everything when the schema
    /// cookie changed, otherwise the root pages of the changed tables, in
    /// increasing order.
    pub fn changes(&mut self) -> (r: io::Result<StorageChange>)
        requires
            old(self).inv(),
        ensures
            final(self).inv(),
            final(self).journal() == old(self).journal(),
            final(self).visible() == old(self).visible(),
            final(self).pending() == old(self).pending(),
            final(self).change_counter() == old(self).change_counter(),
            old(self).journal().gets_infallible() && old(self).pages_wf()
                && old(self).changed_roots_resolve() ==> r is Ok,
            r is Ok ==> final(self).changed() == Set::<PageIdx>::empty(),
            r is Ok ==> final(self).changed_roots() == Set::<PageIdx>::empty(),
            r is Ok && old(self).pages_wf() ==> {
                let cookie = be_u32(
                    old(self).read_outcome(
                        old(self).visible(),
                        true,
                        SCHEMA_COOKIE_OFFSET as u64,
                        seq![0u8; 4],
                    ),
                );
                &&& final(self).schema_cookie_seen() == cookie
                &&& cookie != old(self).schema_cookie_seen() ==> r->Ok_0 is Full
                &&& cookie == old(self).schema_cookie_seen() ==> r->Ok_0 is Tables && strictly_increasing(
                    r->Ok_0->root_pages_sorted@,
                ) && r->Ok_0->root_pages_sorted@.to_set() == old(self).changed_roots() + old(
                    self,
                ).page_roots(old(self).changed())
            },
    {
        proof {
            if old(self).pages_wf() {
                old(self).lemma_readable(old(self).visible());
            }
        }
        // check to see if the schema has changed
        let schema_cookie = self.schema_cookie()?;
        if schema_cookie != self.last_schema_cookie {
            self.last_schema_cookie = schema_cookie;
            self.changed_root_pages.clear();
            self.changed_pages.clear();
            return Ok(StorageChange::Full);
        }

        // if the schema hasn't changed, then we need to trace which btrees have changed

        // accumulate any outstanding pages into changed_root_pages
        let ghost s0 = *self;
        self.update_changed_root_pages(LsnRange::empty())?;
        proof {
            if s0.pages_wf() {
                let none = LsnRange::Empty { nextlsn: 0 };
                assert(s0.journal_roots(none) =~= Set::<PageIdx>::empty()) by {
                    s0.journal.lemma_scannable_wf();
                    crate::lsn_laws::lemma_intersect_contents(s0.journal.lsns(), none, 0);
                }
            }
        }

        // gather changed root pages into sorted vec
        let mut root_pages_sorted: Vec<PageIdx> = Vec::new();
        let ghost roots = self.changed_root_pages@;
        for page_idx in it: self.changed_root_pages.iter()
            invariant
                strictly_increasing(root_pages_sorted@),
                self.changed_root_pages@ == roots,
                it.seq().unref().to_set() == roots,
                root_pages_sorted@.to_set() == it.seq().unref().take(it.index() as int).to_set(),
                it.index() == it.seq().len() ==> root_pages_sorted@.to_set() == roots,
        {
            let ghost idx = it.index() as int;
            sorted_insert(&mut root_pages_sorted, *page_idx);
            proof {
                assert(it.seq().unref().take(idx + 1) =~= it.seq().unref().take(idx).push(*page_idx));
                broadcast use vstd::seq_lib::group_seq_properties;
                lemma_take_all(it.seq().unref(), idx + 1);
            }
        }

        // reset variables
        self.last_schema_cookie = schema_cookie;
        self.changed_root_pages.clear();
        self.changed_pages.clear();

        Ok(StorageChange::Tables { root_pages_sorted })
    }

    /// The size of the database file, in bytes, as SQLite sees it: up to the
    /// end of the largest page index that a pending page or a visible journal
    /// entry holds.
    pub open spec fn spec_file_size(self) -> u64 {
        let r = self.journal().lsns().spec_intersect(self.visible());
        match opt_max(pages_max(self.pending()), journal_max_page(self.journal(), r.lo(), r.hi())) {
            None => 0,
            Some(n) => (n * PAGESIZE) as u64,
        }
    }

    pub fn file_size(&self) -> (r: io::Result<u64>)
        requires
            self.inv(),
        ensures
            ({
                let vr = self.journal().lsns().spec_intersect(self.visible());
                self.journal().gets_infallible() && entries_hold_index(self.journal(), vr.lo(), vr.hi())
                    ==> r is Ok
            }),
            r is Ok ==> r->Ok_0 == self.spec_file_size(),
    {
        let mut max_page_idx = self.pending.max_page_idx();
        proof {
            self.pending.lemma_finite();
            if max_page_idx is Some {
                assert(self.pending().contains_key(max_page_idx->0) && forall|x: PageIdx|
                    self.pending().contains_key(x) ==> x <= max_page_idx->0);
                let k = choose|k: PageIdx|
                    self.pending().contains_key(k) && forall|x: PageIdx|
                        self.pending().contains_key(x) ==> x <= k;
                assert(k <= max_page_idx->0 && max_page_idx->0 <= k);
            }
        }
        let ghost pmax = max_page_idx;
        let ghost jr = self.journal.lsns().spec_intersect(self.visible_lsn_range);
        proof {
            self.journal.lemma_scannable_wf();
            crate::lsn_laws::lemma_intersect_contents(self.journal.lsns(), self.visible_lsn_range, 0);
        }

        // if we have visible lsns in storage, then we need to scan them
        // to find the max page idx
        let mut cursor = self.journal.scan_range(self.visible_lsn_range);
        proof {
            cursor.lemma_fresh_wf();
        }
        while cursor.advance()?
            invariant
                self.inv(),
                cursor.wf(),
                cursor.source() == self.journal(),
                !cursor.reversed(),
                jr == self.journal().lsns().spec_intersect(self.visible()),
                jr.wf(),
                cursor.remaining().hi() == jr.hi(),
                jr.lo() <= cursor.remaining().lo(),
                max_page_idx == opt_max(
                    pmax,
                    journal_max_page(self.journal(), jr.lo(), cursor.remaining().lo()),
                ),
                pmax == pages_max(self.pending()),
            decreases cursor.remaining().count(),
        {
            proof {
                cursor.lemma_contents();
            }
            let pages = SerializedPagesReader(&cursor);
            let m = pages.max_page_idx()?;
            proof {
                // the reader reads through a reference to the cursor
                assert(pages.0.contents() == <&Cursor<'_, J> as PositionedReader>::contents(
                    &pages.0,
                ));
            }
            max_page_idx = match max_page_idx {
                None => Some(m),
                Some(x) => Some(if x < m { m } else { x }),
            };
        }

        match max_page_idx {
            Some(n) => Ok((n as u64) * (PAGESIZE as u64)),
            None => Ok(0),
        }
    }

    /// Writes one page, which SQLite addresses by its position `pos` in the
    /// database file, into the pending pages.
    pub fn write(&mut self, pos: u64, buf: &[u8]) -> (r: usize)
        requires
            buf@.len() == PAGESIZE,
        ensures
            r == PAGESIZE,
            final(self).journal() == old(self).journal(),
            final(self).visible() == old(self).visible(),
            final(self).pending().dom() == old(self).pending().dom().insert(page_of(pos)),
            final(self).pending()[page_of(pos)]@ == buf@,
            forall|p: PageIdx|
                p != page_of(pos) && old(self).pending().contains_key(p)
                    ==> #[trigger] final(self).pending()[p] == old(self).pending()[p],
            final(self).change_counter() == next_counter(old(self).change_counter()),
            final(self).schema_cookie_seen() == old(self).schema_cookie_seen(),
            final(self).changed_roots() == old(self).changed_roots(),
            final(self).changed() == old(self).changed().insert(page_of(pos)),
    {
        let page_idx = ((pos / (PAGESIZE as u64)) + 1) as PageIdx;

        let mut page: Page = [0u8; PAGESIZE];
        let mut i: usize = 0;
        while i < PAGESIZE
            invariant
                buf@.len() == PAGESIZE,
                page@.len() == PAGESIZE,
                0 <= i <= PAGESIZE,
                forall|t: int| 0 <= t < i ==> page@[t] == buf@[t],
            decreases PAGESIZE - i,
        {
            page[i] = buf[i];
            i = i + 1;
        }
        proof {
            assert(page@ =~= buf@);
        }
        self.pending.write(page_idx, page);

        // update the file change counter
        self.file_change_counter = self.file_change_counter.wrapping_add(1);

        // mark the page as changed
        self.changed_pages.insert(page_idx);

        buf.len()
    }

    /// Reads from the page that holds position `pos` of the database file, as
    /// SQLite sees it (the visible lsns and the pending pages).
    pub fn read(&mut self, pos: u64, buf: &mut [u8]) -> (r: io::Result<usize>)
        requires
            old(self).inv(),
            (pos % (PAGESIZE as u64)) + old(buf)@.len() <= PAGESIZE,
        ensures
            *final(self) == *old(self),
            final(buf)@.len() == old(buf)@.len(),
            old(self).journal().gets_infallible() ==> r is Ok,
            r is Ok && old(self).readable(old(self).visible()) ==> {
                &&& r->Ok_0 == if old(self).read_finds(
                    old(self).visible(),
                    true,
                    pos,
                    old(buf)@.len(),
                ) {
                    old(buf)@.len()
                } else {
                    0
                }
                &&& final(buf)@ == old(self).read_outcome(old(self).visible(), true, pos, old(buf)@)
            },
    {
        self.read_at_range(self.visible_lsn_range, true, pos, buf)
    }

    /// update_changed_root_pages does two things
    /// 1. it scans the journal, updating changed_root_pages for each frame
    /// 2. it updates changed_root_pages for every page in self.changed_pages
    fn update_changed_root_pages(&mut self, range: LsnRange) -> (r: io::Result<()>)
        requires
            old(self).inv(),
            range.wf(),
        ensures
            old(self).journal().gets_infallible() && old(self).pages_wf() && old(
                self,
            ).journal_roots_resolve(range) && old(self).changed_roots_resolve() ==> r is Ok,
            final(self).inv(),
            final(self).journal() == old(self).journal(),
            final(self).visible() == old(self).visible(),
            final(self).pending() == old(self).pending(),
            final(self).change_counter() == old(self).change_counter(),
            final(self).schema_cookie_seen() == old(self).schema_cookie_seen(),
            r is Ok ==> final(self).changed() == Set::<PageIdx>::empty(),
            r is Ok && old(self).pages_wf() ==> final(self).changed_roots() == old(
                self,
            ).changed_roots() + old(self).journal_roots(range) + old(self).page_roots(
                old(self).changed(),
            ),
    {
        let ghost s0 = *self;
        let ghost jr = self.journal.lsns().spec_intersect(range);
        proof {
            self.journal.lemma_scannable_wf();
            crate::lsn_laws::lemma_intersect_contents(self.journal.lsns(), range, 0);
        }
        // scan the journal, updating changed_root_pages for each frame
        let mut cursor = self.journal.scan_range(range);
        proof {
            cursor.lemma_fresh_wf();
        }
        while cursor.advance()?
            invariant
                s0 == *old(self),
                s0.inv(),
                cursor.wf(),
                cursor.source() == s0.journal(),
                !cursor.reversed(),
                jr == s0.journal().lsns().spec_intersect(range),
                jr.wf(),
                cursor.remaining().hi() == jr.hi(),
                jr.lo() <= cursor.remaining().lo(),
                self.journal == s0.journal(),
                self.visible_lsn_range == s0.visible(),
                self.pending@ == s0.pending(),
                self.file_change_counter == s0.change_counter(),
                self.last_schema_cookie == s0.schema_cookie_seen(),
                self.changed_pages@ == s0.changed(),
                s0.pages_wf() ==> self.changed_root_pages@ == s0.changed_roots() + s0.entry_roots(
                    jr.lo(),
                    cursor.remaining().lo(),
                    0,
                ),
            decreases cursor.remaining().count(),
        {
            let lsn = cursor.lsn().unwrap();
            proof {
                cursor.lemma_contents();
            }
            let pages = SerializedPagesReader(&cursor);
            let idxs = pages.page_idxs()?;
            proof {
                // the reader reads through a reference to the cursor
                assert(pages.0.contents() == <&Cursor<'_, J> as PositionedReader>::contents(
                    &pages.0,
                ));
            }
            let mut k: usize = 0;
            while k < idxs.len()
                invariant
                    s0 == *old(self),
                    s0.inv(),
                    cursor.wf(),
                    cursor.source() == s0.journal(),
                    !cursor.reversed(),
                    jr == s0.journal().lsns().spec_intersect(range),
                    jr.wf(),
                    cursor.remaining().hi() == jr.hi(),
                    cursor.remaining().lo() == lsn + 1,
                    0 <= k <= idxs@.len(),
                    idxs@ == header_keys(s0.journal().entry(lsn as int)),
                    jr.lo() <= lsn < jr.hi(),
                    s0.journal().lsns().has(lsn as int),
                    self.journal == s0.journal(),
                    self.visible_lsn_range == s0.visible(),
                    self.pending@ == s0.pending(),
                    self.file_change_counter == s0.change_counter(),
                    self.last_schema_cookie == s0.schema_cookie_seen(),
                    self.changed_pages@ == s0.changed(),
                    s0.pages_wf() ==> self.changed_root_pages@ == s0.changed_roots()
                        + s0.entry_roots(jr.lo(), lsn as int, k as int),
                decreases idxs@.len() - k,
            {
                // we need to resolve each page_idx to it's root page by only
                // looking at ptrmap pages that existed as of this lsn
                let root = self.resolve_root_page(LsnRange::new(0, lsn), false, idxs[k])?;
                proof {
                    if s0.pages_wf() {
                        s0.lemma_readable(LsnRange::NonEmpty { first: 0, last: lsn });
                        assert(s0.entry_root(lsn as int, k as int) == Some(root));
                    }
                }
                if let Some(root_page_idx) = root {
                    self.changed_root_pages.insert(root_page_idx);
                }
                k = k + 1;
                proof {
                    if s0.pages_wf() {
                        assert(self.changed_root_pages@ =~= s0.changed_roots() + s0.entry_roots(
                            jr.lo(),
                            lsn as int,
                            k as int,
                        ));
                    }
                }
            }
            proof {
                if s0.pages_wf() {
                    assert(s0.entry_roots(jr.lo(), lsn as int, k as int) =~= s0.entry_roots(
                        jr.lo(),
                        lsn + 1,
                        0,
                    ));
                }
            }
        }

        // finally, if we have any changed pages, update changed_root_pages for each page
        let ghost done = self.changed_root_pages@;
        for page_idx in it: self.changed_pages.iter()
            invariant
                s0 == *old(self),
                s0.inv(),
                self.journal == s0.journal(),
                self.visible_lsn_range == s0.visible(),
                self.pending@ == s0.pending(),
                self.file_change_counter == s0.change_counter(),
                self.last_schema_cookie == s0.schema_cookie_seen(),
                self.changed_pages@ == s0.changed(),
                it.seq().unref().to_set() == s0.changed(),
                s0.pages_wf() ==> self.changed_root_pages@ == done + Set::new(
                    |root: PageIdx|
                        exists|t: int|
                            0 <= t < it.index() && #[trigger] s0.root_of(
                                s0.visible(),
                                true,
                                *it.seq()[t],
                            ) == Some(Some(root)),
                ),
                it.index() == it.seq().len() ==> (s0.pages_wf() ==> self.changed_root_pages@
                    == done + s0.page_roots(it.seq().unref().to_set())),
        {
            // we need to resolve each page_idx to it's root page by only
            // looking at ptrmap pages that existed as of the last visible lsn
            let ghost idx = it.index() as int;
            proof {
                if s0.pages_wf() {
                    s0.lemma_readable(s0.visible());
                }
                assert(*page_idx == *it.seq()[idx]);
                assert(it.seq().unref()[idx] == *page_idx);
                assert(it.seq().unref().to_set().contains(*page_idx));
            }
            let root = self.resolve_root_page(self.visible_lsn_range, true, *page_idx)?;
            proof {
                if s0.pages_wf() {
                    s0.lemma_readable(s0.visible());
                }
            }
            if let Some(root_page_idx) = root {
                self.changed_root_pages.insert(root_page_idx);
            }
            proof {
                if s0.pages_wf() {
                    assert(*page_idx == *it.seq()[idx]);
                    assert(s0.root_of(s0.visible(), true, *page_idx) == Some(root));
                    assert(self.changed_root_pages@ =~= done + Set::new(
                        |root: PageIdx|
                            exists|t: int|
                                0 <= t < idx + 1 && #[trigger] s0.root_of(
                                    s0.visible(),
                                    true,
                                    *it.seq()[t],
                                ) == Some(Some(root)),
                    ));
                    s0.lemma_seq_roots(it.seq(), idx + 1);
                }
            }
        }

        // clear changed_pages
        self.changed_pages.clear();
        Ok(())
    }

    /// resolve_root_page returns the root page index for the given page at the
    /// given lsn range (potentially including pending pages)
    /// if the page does not map to a b-tree root page, then None is returned
    ///
    /// A chain of ptrmap entries that reaches page 1 ends there (page 1 is the
    /// schema root page), one that reaches page 0 names no page, and one that
    /// does not end within `MAX_PTRMAP_CHAIN` entries is reported as an
    /// `InvalidData` error.
    fn resolve_root_page(&self, range: LsnRange, include_pending: bool, page_idx: PageIdx) -> (r:
        io::Result<Option<PageIdx>>)
        requires
            self.inv(),
            range.wf(),
        ensures
            self.readable(range) && r is Ok ==> self.root_of(range, include_pending, page_idx) == Some(
                r->Ok_0,
            ),
            self.readable(range) && self.root_of(range, include_pending, page_idx) is None ==> r is Err,
            self.journal().gets_infallible() && self.readable(range) && self.root_of(
                range,
                include_pending,
                page_idx,
            ) is Some ==> r is Ok,
    {
        if page_idx == 1 {
            // page 1 is the schema root page
            proof {
                assert(self.root_of(range, include_pending, page_idx) == Some(Some(1u32)));
            }
            return Ok(Some(1));
        }

        let mut page = page_idx as u64;
        let mut ptrmap_entry = [0u8; 5];
        let mut steps: u64 = 0;
        let ghost target = self.root_of(range, include_pending, page_idx);
        proof {
            assert(ptrmap_entry@ =~= seq![0u8; 5]);
        }
        loop
            invariant
                self.inv(),
                range.wf(),
                page <= u32::MAX,
                steps <= MAX_PTRMAP_CHAIN,
                ptrmap_entry@.len() == 5,
                target == self.root_of(range, include_pending, page_idx),
                self.readable(range) ==> target == self.root_walk(
                    range,
                    include_pending,
                    page,
                    ptrmap_entry@,
                    (MAX_PTRMAP_CHAIN - steps) as nat,
                ),
            decreases MAX_PTRMAP_CHAIN - steps,
        {
            if steps == MAX_PTRMAP_CHAIN {
                return Err(invalid_data_error());
            }
            steps = steps + 1;
            if page == 1 {
                return Ok(Some(1));
            }
            if page == 0 {
                return Ok(None);
            }
            // which ptrmap are we referring to
            let ptrmap_n = (page - 2) / PAGES_PER_PTRMAP;
            proof {
                assert(ptrmap_n * 820 <= page - 2 < ptrmap_n * 820 + 820) by (nonlinear_arith)
                    requires
                        ptrmap_n == (page - 2) / 820,
                        page >= 2,
                ;
            }
            // what is the page index of the ptrmap
            let mut ptrmap_page_idx = (ptrmap_n * PAGES_PER_PTRMAP) + 2;

            if ptrmap_page_idx == PENDING_BYTE_PAGE_IDX {
                // for certain usable page sizes, it's possible for a ptrmap
                // page to share the same location as the pending byte lock page
                // in this case, sqlite simply moves the ptrmap to the next page
                // all other ptrmap locations are unchanged
                proof {
                    // not so for this page size
                    assert(false) by (nonlinear_arith)
                        requires
                            ptrmap_n * 820 + 2 == 262145,
                    ;
                }
                ptrmap_page_idx += 1;
            }

            if ptrmap_page_idx == page {
                // looking for a ptrmap, no root page
                return Ok(None);
            }

            // calculate the offset of the page within the ptrmap page
            let page_idx_offset = (page - ptrmap_page_idx - 1) * PTRMAP_ENTRY_SIZE;
            // convert the relative offset to an absolute offset within the file
            let page_idx_pos = ((ptrmap_page_idx - 1) * (PAGESIZE as u64)) + page_idx_offset;

            // read the ptrmap_entry for this page
            proof {
                assert(page_idx_pos == ptrmap_entry_pos(page));
                assert(page_idx_pos % 4096 == page_idx_offset) by (nonlinear_arith)
                    requires
                        page_idx_pos == (ptrmap_page_idx - 1) * 4096 + page_idx_offset,
                        0 <= page_idx_offset <= 4090,
                        ptrmap_page_idx >= 1,
                ;
            }
            self.read_at_range(range, include_pending, page_idx_pos, &mut ptrmap_entry)?;
            match ptrmap_entry[0] {
                0 => {
                    // page is missing, this can happen while we are rebasing
                    // right after we create a local table or index (for example)
                    return Ok(None);
                },
                1 => {
                    // page is a b-tree root page
                    // return the page
                    return Ok(Some(page as PageIdx));
                },
                2 => {
                    // page is a freelist page
                    return Ok(None);
                },
                _ => {
                    // ptrmap entry points at the next page in the chain
                    page = u32_from_be_bytes(&ptrmap_entry) as u64;
                },
            }
        }
    }

    fn read_at_range(
        &self,
        range: LsnRange,
        include_pending: bool,
        pos: u64,
        buf: &mut [u8],
    ) -> (r: io::Result<usize>)
        requires
            self.inv(),
            range.wf(),
            (pos % (PAGESIZE as u64)) + old(buf)@.len() <= PAGESIZE,
        ensures
            final(buf)@.len() == old(buf)@.len(),
            self.journal().gets_infallible() ==> r is Ok,
            r is Ok ==> r->Ok_0 == 0 || r->Ok_0 == old(buf)@.len(),
            r is Ok && self.readable(range) ==> {
                &&& r->Ok_0 == if self.read_finds(range, include_pending, pos, old(buf)@.len()) {
                    old(buf)@.len()
                } else {
                    0
                }
                &&& final(buf)@ == self.read_outcome(range, include_pending, pos, old(buf)@)
            },
    {
        let page_idx = ((pos / (PAGESIZE as u64)) + 1) as PageIdx;
        let page_offset = (pos % (PAGESIZE as u64)) as usize;
        let len = buf.len();
        let ghost p = page_idx;
        let ghost old_buf = buf@;

        // find the page by searching down through pending and then the journal
        let mut n = if include_pending {
            self.pending.read(page_idx, page_offset, buf)
        } else {
            0
        };
        let ghost jr = self.journal.lsns().spec_intersect(range);

        let fwd = self.journal.scan_range(range);
        proof {
            self.journal.lemma_scannable_wf();
            fwd.lemma_fresh_wf();
        }
        let mut cursor = fwd.into_rev();
        let ghost target = self.page_source(range, include_pending, p);
        let ghost off = page_offset as int;
        loop
            invariant
                self.inv(),
                cursor.wf(),
                cursor.source() == self.journal,
                cursor.reversed(),
                cursor.remaining().lo() == jr.lo(),
                cursor.remaining().hi() <= jr.hi(),
                jr == self.journal.lsns().spec_intersect(range),
                jr.wf(),
                target == self.page_source(range, include_pending, p),
                p == page_idx,
                off == page_offset,
                page_offset < PAGESIZE,
                off + len <= PAGESIZE,
                old_buf == old(buf)@,
                buf@.len() == len,
                len == old_buf.len(),
                n == 0 || n == len,
                n == 0 ==> buf@ == old_buf,
                len > 0 && n == 0 && self.readable(range) ==> target == journal_page(
                    self.journal,
                    jr.lo(),
                    cursor.remaining().hi(),
                    p,
                ),
                n != 0 && self.readable(range) ==> target is Some && buf@ == target->0.subrange(
                    off,
                    off + len,
                ),
            ensures
                n != 0 || cursor.remaining().count() <= 0,
            decreases cursor.remaining().count(),
        {
            if n != 0 {
                break;
            }
            let ghost h = cursor.remaining().hi();
            let more = cursor.advance()?;
            if !more {
                break;
            }
            let ghost lsn = h - 1;
            let ghost e = self.journal.entry(lsn);
            proof {
                cursor.lemma_contents();
            }
            let pages = SerializedPagesReader(&cursor);
            let rr = pages.read(page_idx, page_offset, buf);
            proof {
                // the reader reads through a reference to the cursor
                assert(pages.0.contents() == <&Cursor<'_, J> as PositionedReader>::contents(
                    &pages.0,
                ));
            }
            n = rr?;
            proof {
                assert(pages.0.contents() == e);
                if self.readable(range) && len > 0 {
                    // the entry is one of the well-formed ones the read consults
                    assert(jr.lo() <= lsn < jr.hi());
                    let ne = serialized_num_pages(e);
                    let keys = header_keys(e);
                    if n == 0 {
                        assert forall|i: int| 0 <= i < ne implies header_key(e, i) != p by {
                            assert(keys[i] == header_key(e, i));
                        }
                    } else {
                        let i = choose|i: int|
                            0 <= i < ne && header_key(e, i) == p && buf@ == e.subrange(
                                page_start(ne, i) + off,
                                page_start(ne, i) + off + len,
                            );
                        let j = choose|j: int| 0 <= j < ne && header_key(e, j) == p;
                        if i != j {
                            assert(keys[i] == header_key(e, i));
                            assert(keys[j] == header_key(e, j));
                            if i < j {
                                assert(keys[i] > keys[j]);
                            } else {
                                assert(keys[j] > keys[i]);
                            }
                        }
                        assert(i == j);
                        assert(page_start(ne, i) + PAGESIZE <= e.len()) by (nonlinear_arith)
                            requires
                                0 <= i < ne,
                                ne == e.len() / 4100,
                                page_start(ne, i) == ne * 4 + i * 4096,
                        ;
                        assert(entry_page(e, p) == Some(
                            e.subrange(page_start(ne, i), page_start(ne, i) + PAGESIZE),
                        ));
                        assert(buf@ =~= e.subrange(page_start(ne, i), page_start(ne, i) + PAGESIZE).subrange(
                            off,
                            off + len,
                        ));
                    }
                }
            }
        }

        if n != 0 {
            assert(n == buf.len());

            // if SQLite is potentially reading the file change counter
            // replace what is in the file with the current value
            if page_idx == 1 && page_offset <= FILE_CHANGE_COUNTER_OFFSET && page_offset + buf.len()
                >= FILE_CHANGE_COUNTER_OFFSET + 4 {
                // if pos = 0, then this should be FILE_CHANGE_COUNTER_OFFSET
                // if pos = FILE_CHANGE_COUNTER_OFFSET, this this should be 0
                let file_change_buf_offset = FILE_CHANGE_COUNTER_OFFSET - page_offset;
                let counter = u32_to_be_bytes(self.file_change_counter);
                let ghost before = buf@;
                let mut k: usize = 0;
                while k < 4
                    invariant
                        buf@.len() == before.len(),
                        file_change_buf_offset + 4 <= buf@.len(),
                        file_change_buf_offset <= FILE_CHANGE_COUNTER_OFFSET,
                        counter@ == be_bytes(self.file_change_counter),
                        0 <= k <= 4,
                        forall|t: int|
                            0 <= t < buf@.len() ==> buf@[t] == if file_change_buf_offset <= t
                                < file_change_buf_offset + k {
                                counter@[t - file_change_buf_offset]
                            } else {
                                before[t]
                            },
                    decreases 4 - k,
                {
                    buf[file_change_buf_offset + k] = counter[k];
                    k = k + 1;
                }
                assert(buf@ =~= with_change_counter(before, p, off, self.file_change_counter));
            }
            Ok(buf.len())
        } else {
            Ok(0)
        }
    }
}

impl<J: ReplicationSource> ReplicationSource for Storage<J> {
    open spec fn source_wf(&self) -> bool {
        self.journal().source_wf()
    }

    open spec fn source_view_id(&self) -> JournalId {
        self.journal().source_view_id()
    }

    open spec fn source_lsns(&self) -> LsnRange {
        self.journal().source_lsns()
    }

    open spec fn source_entry(&self, lsn: int) -> Seq<u8> {
        self.journal().source_entry(lsn)
    }

    open spec fn source_reads_infallible(&self) -> bool {
        self.journal().source_reads_infallible()
    }

    proof fn lemma_source_wf(&self) {
        self.journal().lemma_source_wf();
    }

    fn source_id(&self) -> (r: JournalId) {
        self.journal.source_id()
    }

    fn source_range(&self) -> (r: LsnRange) {
        self.journal.source_range()
    }

    fn read_lsn<'a>(&'a self, lsn: Lsn) -> (r: io::Result<Option<&'a [u8]>>) {
        self.journal.read_lsn(lsn)
    }
}

impl<J: ReplicationDestination> ReplicationDestination for Storage<J> {
    open spec fn dest_wf(&self) -> bool {
        self.journal().dest_wf()
    }

    open spec fn dest_range(&self, id: JournalId) -> Option<LsnRange> {
        self.journal().dest_range(id)
    }

    open spec fn dest_entry(&self, id: JournalId, lsn: int) -> Seq<u8> {
        self.journal().dest_entry(id, lsn)
    }

    fn range(&mut self, id: JournalId) -> (r: Result<LsnRange, ReplicationError>)
        ensures
            final(self).visible() == old(self).visible(),
            final(self).pending() == old(self).pending(),
    {
        self.journal.range(id)
    }

    fn write_lsn(&mut self, id: JournalId, lsn: Lsn, frame: Vec<u8>) -> (r: Result<
        (),
        ReplicationError,
    >)
        ensures
            final(self).visible() == old(self).visible(),
            final(self).pending() == old(self).pending(),
    {
        self.journal.write_lsn(id, lsn, frame)
    }
}

} // verus!
