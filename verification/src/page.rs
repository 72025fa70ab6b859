use vstd::prelude::*;

use std::collections::BTreeMap;
use std::io;

use vstd::bytes::{spec_u32_from_le_bytes, spec_u32_to_le_bytes, u32_from_le_bytes, u32_to_le_bytes, lemma_auto_spec_u32_to_from_le_bytes};

use crate::positioned_io::PositionedReader;
use crate::serialization::Serializable;
use vstd::std_specs::btree::{spec_btree_map_iter, increasing_seq};
use vstd::std_specs::iter::IteratorSpec;
use vstd::std_specs::cmp::OrdSpec;

verus! {

broadcast use {vstd::std_specs::btree::group_btree_axioms, vstd::laws_cmp::group_laws_cmp};

/// PageIdx is the 1-based index of a page in a SQLite database file
pub type PageIdx = u32;

pub const PAGESIZE: usize = 4096;

/// Size in bytes of a serialized page index.
pub const PAGE_IDX_SIZE: usize = 4;

/// One page of a SQLite database file.
pub type Page = [u8; PAGESIZE];

pub open spec fn strictly_increasing(s: Seq<u32>) -> bool {
    forall|i: int, j: int| 0 <= i < j < s.len() ==> s[i] < s[j]
}

pub open spec fn strictly_decreasing(s: Seq<u32>) -> bool {
    forall|i: int, j: int| 0 <= i < j < s.len() ==> s[i] > s[j]
}

/// The page indexes of a set, largest first.
pub open spec fn desc_keys(s: Set<u32>) -> Seq<u32> {
    choose|keys: Seq<u32>| strictly_decreasing(keys) && keys.to_set() == s
}

/// The index section of serialized pages: each page index as four
/// little-endian bytes, in the order given.
pub open spec fn index_bytes(keys: Seq<u32>) -> Seq<u8>
    decreases keys.len(),
{
    if keys.len() == 0 {
        Seq::empty()
    } else {
        index_bytes(keys.drop_last()) + spec_u32_to_le_bytes(keys.last())
    }
}

/// The page section of serialized pages: the pages of `m`, in the order of
/// `keys`.
pub open spec fn pages_bytes(keys: Seq<u32>, m: Map<u32, Page>) -> Seq<u8>
    decreases keys.len(),
{
    if keys.len() == 0 {
        Seq::empty()
    } else {
        pages_bytes(keys.drop_last(), m) + m[keys.last()]@
    }
}

/// Binary layout of Serialized Page objects is:
/// for each page_idx (sorted desc) [
///   page_idx: u32 (little endian)
/// ]
/// for each page (sorted by page_idx desc) [
///   page: [u8; PAGESIZE]
/// ]
pub open spec fn serialized_pages(m: Map<u32, Page>) -> Seq<u8> {
    let keys = desc_keys(m.dom());
    index_bytes(keys) + pages_bytes(keys, m)
}

proof fn lemma_index_bytes(keys: Seq<u32>)
    ensures
        index_bytes(keys).len() == 4 * keys.len(),
        forall|i: int|
            0 <= i < keys.len() ==> #[trigger] index_bytes(keys).subrange(4 * i, 4 * i + 4)
                == spec_u32_to_le_bytes(keys[i]),
    decreases keys.len(),
{
    lemma_auto_spec_u32_to_from_le_bytes();
    if keys.len() > 0 {
        let init = keys.drop_last();
        lemma_index_bytes(init);
        let a = index_bytes(init);
        let b = spec_u32_to_le_bytes(keys.last());
        assert forall|i: int| 0 <= i < keys.len() implies #[trigger] index_bytes(keys).subrange(
            4 * i,
            4 * i + 4,
        ) == spec_u32_to_le_bytes(keys[i]) by {
            if i < keys.len() - 1 {
                assert(index_bytes(keys).subrange(4 * i, 4 * i + 4) =~= a.subrange(4 * i, 4 * i + 4));
                assert(init[i] == keys[i]);
            } else {
                assert(index_bytes(keys).subrange(4 * i, 4 * i + 4) =~= b);
            }
        }
    }
}

proof fn lemma_pages_bytes(keys: Seq<u32>, m: Map<u32, Page>)
    ensures
        pages_bytes(keys, m).len() == PAGESIZE * keys.len(),
        forall|i: int|
            0 <= i < keys.len() ==> #[trigger] pages_bytes(keys, m).subrange(
                PAGESIZE * i,
                PAGESIZE * i + PAGESIZE,
            ) == m[keys[i]]@,
    decreases keys.len(),
{
    if keys.len() > 0 {
        let init = keys.drop_last();
        lemma_pages_bytes(init, m);
        let a = pages_bytes(init, m);
        let b = m[keys.last()]@;
        assert(b.len() == PAGESIZE);
        assert forall|i: int| 0 <= i < keys.len() implies #[trigger] pages_bytes(keys, m).subrange(
            PAGESIZE * i,
            PAGESIZE * i + PAGESIZE,
        ) == m[keys[i]]@ by {
            if i < keys.len() - 1 {
                assert(pages_bytes(keys, m).subrange(PAGESIZE * i, PAGESIZE * i + PAGESIZE)
                    =~= a.subrange(PAGESIZE * i, PAGESIZE * i + PAGESIZE));
                assert(init[i] == keys[i]);
            } else {
                assert(pages_bytes(keys, m).subrange(PAGESIZE * i, PAGESIZE * i + PAGESIZE) =~= b);
            }
        }
    }
}

/// Two strictly decreasing sequences with the same elements are equal.
proof fn lemma_strictly_decreasing_unique(a: Seq<u32>, b: Seq<u32>)
    requires
        strictly_decreasing(a),
        strictly_decreasing(b),
        a.to_set() == b.to_set(),
    ensures
        a == b,
    decreases a.len(),
{
    if a.len() == 0 {
        if b.len() > 0 {
            assert(b.to_set().contains(b[0]));
            assert(!a.to_set().contains(b[0]));
        }
        assert(a =~= b);
    } else {
        if b.len() == 0 {
            assert(a.to_set().contains(a[0]));
            assert(!b.to_set().contains(a[0]));
        }
        assert(a.to_set().contains(a[0]));
        assert(b.to_set().contains(b[0]));
        let ia = choose|k: int| 0 <= k < a.len() && a[k] == b[0];
        let ib = choose|k: int| 0 <= k < b.len() && b[k] == a[0];
        assert(a[0] >= a[ia]);
        assert(b[0] >= b[ib]);
        assert(a[0] == b[0]);
        let a1 = a.drop_first();
        let b1 = b.drop_first();
        assert(a1.to_set() =~= b1.to_set()) by {
            assert forall|x: u32| a1.to_set().contains(x) implies b1.to_set().contains(x) by {
                let k = choose|k: int| 0 <= k < a1.len() && a1[k] == x;
                assert(a[k + 1] == x);
                assert(x < a[0]);
                assert(b.to_set().contains(x));
                let j = choose|j: int| 0 <= j < b.len() && b[j] == x;
                assert(j != 0);
                assert(b1[j - 1] == x);
            }
            assert forall|x: u32| b1.to_set().contains(x) implies a1.to_set().contains(x) by {
                let k = choose|k: int| 0 <= k < b1.len() && b1[k] == x;
                assert(b[k + 1] == x);
                assert(x < b[0]);
                assert(a.to_set().contains(x));
                let j = choose|j: int| 0 <= j < a.len() && a[j] == x;
                assert(j != 0);
                assert(a1[j - 1] == x);
            }
        }
        lemma_strictly_decreasing_unique(a1, b1);
        assert(a1 == b1);
        assert(a.len() == b.len());
        assert(a =~= b) by {
            assert forall|k: int| 0 <= k < a.len() implies a[k] == b[k] by {
                if k > 0 {
                    assert(a[k] == a1[k - 1]);
                    assert(b[k] == b1[k - 1]);
                }
            }
        }
    }
}

fn sorted_keys(m: &BTreeMap<PageIdx, Page>) -> (v: Vec<PageIdx>)
    ensures
        v@.to_set() == m@.dom(),
        strictly_increasing(v@),
        v@.len() == m@.dom().len(),
{
    let mut v: Vec<PageIdx> = Vec::new();
    let ghost kvs = spec_btree_map_iter(m).remaining();
    for kv in it: m.iter()
        invariant
            v@ == it.seq().subrange(0, it.index()).map_values(|kv: (&u32, &Page)| *kv.0),
            it.seq() == kvs,
    {
        v.push(*kv.0);
    }
    let ghost keys = kvs.map_values(|kv: (&u32, &Page)| *kv.0);
    assert(v@ == keys);
    assert(increasing_seq(keys));
    assert forall|i: int, j: int| 0 <= i < j < v@.len() implies v@[i] < v@[j] by {
        assert(keys[i].cmp_spec(&keys[j]) is Less);
    }
    assert(v@.to_set() =~= m@.dom()) by {
        assert forall|k: u32| m@.dom().contains(k) implies v@.contains(k) by {
            assert(kvs.contains((&k, &m@[k])));
            let idx = choose|idx: int| 0 <= idx < kvs.len() && kvs[idx] == (&k, &m@[k]);
            assert(v@[idx] == k);
        }
        assert forall|k: u32| v@.contains(k) implies m@.dom().contains(k) by {
            let idx = choose|idx: int| 0 <= idx < v@.len() && v@[idx] == k;
            assert(m@.contains_key(*kvs[idx].0));
        }
    }
    proof {
        v@.unique_seq_to_set();
    }
    v
}

/// A set of database pages, each at its page index.
#[derive(Debug, Clone)]
pub struct SparsePages {
    pages: BTreeMap<PageIdx, Page>,
}

impl View for SparsePages {
    type V = Map<PageIdx, Page>;

    closed spec fn view(&self) -> Map<PageIdx, Page> {
        self.pages@
    }
}

impl Default for SparsePages {
    fn default() -> (r: SparsePages)
        ensures
            r@ == Map::<PageIdx, Page>::empty(),
    {
        SparsePages::new()
    }
}

impl SparsePages {
    pub fn new() -> (r: SparsePages)
        ensures
            r@ == Map::<PageIdx, Page>::empty(),
    {
        Self { pages: BTreeMap::new() }
    }

    /// A set of pages holds finitely many pages.
    pub proof fn lemma_finite(&self)
        ensures
            self@.dom().finite(),
    {
    }

    pub fn num_pages(&self) -> (n: usize)
        ensures
            n == self@.len(),
    {
        self.pages.len()
    }

    pub fn clear(&mut self)
        ensures
            final(self)@ == Map::<PageIdx, Page>::empty(),
    {
        self.pages.clear();
    }

    pub fn write(&mut self, page_idx: PageIdx, page: Page)
        ensures
            final(self)@ == old(self)@.insert(page_idx, page),
    {
        self.pages.insert(page_idx, page);
    }

    /// The page indexes held, in increasing order.
    pub fn page_idxs(&self) -> (v: Vec<PageIdx>)
        ensures
            v@.to_set() == self@.dom(),
            strictly_increasing(v@),
            v@.len() == self@.len(),
    {
        sorted_keys(&self.pages)
    }

    // returns the max page index of this sparse pages object
    pub fn max_page_idx(&self) -> (r: Option<PageIdx>)
        ensures
            r is None <==> self@.is_empty(),
            r is Some ==> self@.contains_key(r->0),
            r is Some ==> forall|k: PageIdx| self@.contains_key(k) ==> k <= r->0,
    {
        let keys = sorted_keys(&self.pages);
        if keys.len() == 0 {
            proof {
                if !self@.is_empty() {
                    let k = choose|k: PageIdx| self@.contains_key(k);
                    assert(keys@.to_set().contains(k));
                }
            }
            None
        } else {
            let k = keys[keys.len() - 1];
            proof {
                assert(keys@.to_set().contains(k));
                assert forall|x: PageIdx| self@.contains_key(x) implies x <= k by {
                    assert(keys@.to_set().contains(x));
                    let i = choose|i: int| 0 <= i < keys@.len() && keys@[i] == x;
                    if i < keys@.len() - 1 {
                        assert(keys@[i] < keys@[keys@.len() - 1]);
                    }
                }
            }
            Some(k)
        }
    }

    /// Copies bytes of the page at `page_idx`, starting at `page_offset`,
    /// into `buf`; returns the number of bytes copied: all of `buf` when the
    /// page is present, none when it is not.
    pub fn read(&self, page_idx: PageIdx, page_offset: usize, buf: &mut [u8]) -> (n: usize)
        requires
            self@.contains_key(page_idx) ==> page_offset + old(buf)@.len() <= PAGESIZE,
        ensures
            final(buf)@.len() == old(buf)@.len(),
            match self@.get(page_idx) {
                Some(page) => {
                    &&& n == old(buf)@.len()
                    &&& final(buf)@ == page@.subrange(
                        page_offset as int,
                        page_offset + old(buf)@.len(),
                    )
                },
                None => n == 0 && final(buf)@ == old(buf)@,
            },
    {
        match self.pages.get(&page_idx) {
            Some(page) => {
                let end = page_offset + buf.len();
                let ghost pv = page@;
                let mut i: usize = 0;
                while i < buf.len()
                    invariant
                        page_offset + buf@.len() <= PAGESIZE,
                        end == page_offset + buf@.len(),
                        page@ == pv,
                        pv.len() == PAGESIZE,
                        0 <= i <= buf@.len(),
                        forall|t: int| 0 <= t < i ==> buf@[t] == pv[page_offset + t],
                    decreases buf@.len() - i,
                {
                    buf[i] = page[page_offset + i];
                    i = i + 1;
                }
                assert(buf@ =~= pv.subrange(page_offset as int, end as int));
                buf.len()
            },
            None => 0,
        }
    }
}

/// The serialized form of SparsePages can be read using the SerializedPagesReader object below
impl Serializable for SparsePages {
    open spec fn serializable(&self) -> bool {
        !self@.is_empty()
    }

    open spec fn serialized(&self) -> Seq<u8> {
        serialized_pages(self@)
    }

    open spec fn serialize_infallible(&self) -> bool {
        true
    }

    fn serialize_into(&self, writer: &mut Vec<u8>) -> (r: io::Result<()>)
        ensures
            r is Ok,
    {
        let keys = sorted_keys(&self.pages);
        let n = keys.len();
        let ghost m = self@;
        let ghost desc = keys@.reverse();
        proof {
            assert(strictly_decreasing(desc));
            assert(desc.to_set() =~= keys@.to_set()) by {
                assert forall|x: u32| desc.to_set().contains(x) implies keys@.to_set().contains(x) by {
                    let k = choose|k: int| 0 <= k < desc.len() && desc[k] == x;
                    assert(keys@[n - 1 - k] == x);
                }
                assert forall|x: u32| keys@.to_set().contains(x) implies desc.to_set().contains(x) by {
                    let k = choose|k: int| 0 <= k < keys@.len() && keys@[k] == x;
                    assert(desc[n - 1 - k] == x);
                }
            }
            lemma_strictly_decreasing_unique(desc, desc_keys(m.dom()));
        }
        let ghost start = writer@;
        // serialize the page indexes, sorted desc
        let mut i: usize = 0;
        while i < n
            invariant
                n == keys@.len(),
                desc == keys@.reverse(),
                0 <= i <= n,
                writer@ == start + index_bytes(desc.subrange(0, i as int)),
            decreases n - i,
        {
            let idx_bytes = u32_to_le_bytes(keys[n - 1 - i]);
            writer.extend_from_slice(idx_bytes.as_slice());
            proof {
                let d = desc.subrange(0, i + 1);
                assert(d.drop_last() =~= desc.subrange(0, i as int));
                assert(d.last() == keys@[n - 1 - i]);
                assert(writer@ =~= start + index_bytes(d));
            }
            i = i + 1;
        }
        let ghost mid = writer@;
        // serialize the pages, sorted by page_idx desc
        let mut j: usize = 0;
        while j < n
            invariant
                n == keys@.len(),
                desc == keys@.reverse(),
                keys@.to_set() == m.dom(),
                m == self@,
                0 <= j <= n,
                writer@ == mid + pages_bytes(desc.subrange(0, j as int), m),
            decreases n - j,
        {
            let k = keys[n - 1 - j];
            proof {
                assert(keys@.to_set().contains(k));
            }
            let page = self.pages.get(&k).unwrap();
            writer.extend_from_slice(page.as_slice());
            proof {
                let d = desc.subrange(0, j + 1);
                assert(d.drop_last() =~= desc.subrange(0, j as int));
                assert(d.last() == k);
                assert(writer@ =~= mid + pages_bytes(d, m));
            }
            j = j + 1;
        }
        proof {
            assert(desc.subrange(0, n as int) =~= desc);
        }
        Ok(())
    }
}

/// Size in bytes of one page entry of serialized pages: its index and the
/// page itself.
pub open spec fn entry_size() -> int {
    PAGE_IDX_SIZE + PAGESIZE
}

/// The number of pages that serialized bytes hold.
pub open spec fn serialized_num_pages(c: Seq<u8>) -> int {
    c.len() as int / entry_size()
}

/// The page index stored at slot `i` of the index section.
pub open spec fn header_key(c: Seq<u8>, i: int) -> u32 {
    spec_u32_from_le_bytes(c.subrange(4 * i, 4 * i + 4))
}

/// The index section of serialized bytes, decoded.
pub open spec fn header_keys(c: Seq<u8>) -> Seq<u32> {
    Seq::new(serialized_num_pages(c) as nat, |i: int| header_key(c, i))
}

/// Where the page in slot `i` starts, in serialized bytes holding `n` pages.
pub open spec fn page_start(n: int, i: int) -> int {
    n * PAGE_IDX_SIZE + i * PAGESIZE
}

/// Reads pages from their serialized form (see `serialized_pages`).
pub struct SerializedPagesReader<R: PositionedReader>(pub R);

impl<R: PositionedReader> SerializedPagesReader<R> {
    pub fn num_pages(&self) -> (r: io::Result<usize>)
        ensures
            self.0.reads_infallible() ==> r is Ok,
            r is Ok ==> r->Ok_0 == serialized_num_pages(self.0.contents()),
            r is Ok ==> self.0.contents().len() <= usize::MAX,
    {
        let file_size = self.0.size()?;
        let num_pages = file_size / (PAGE_IDX_SIZE + PAGESIZE);
        Ok(num_pages)
    }

    /// The page index in the first slot, which is the largest one.
    pub fn max_page_idx(&self) -> (r: io::Result<PageIdx>)
        ensures
            self.0.reads_infallible() && self.0.contents().len() >= 4 ==> r is Ok,
            r is Ok ==> self.0.contents().len() >= 4 && r->Ok_0 == header_key(
                self.0.contents(),
                0,
            ),
    {
        let mut buf = [0u8; PAGE_IDX_SIZE];
        self.0.read_exact_at(0, &mut buf)?;
        Ok(u32_from_le_bytes(buf.as_slice()))
    }

    // returns a list of page indexes contained by this serialized pages object
    // sorted desc
    pub fn page_idxs(&self) -> (r: io::Result<Vec<PageIdx>>)
        ensures
            self.0.reads_infallible() ==> r is Ok,
            r is Ok ==> r->Ok_0@ == header_keys(self.0.contents()),
    {
        let num_pages = self.num_pages()?;
        let ghost c = self.0.contents();
        proof {
            assert(num_pages * 4 <= c.len()) by (nonlinear_arith)
                requires
                    num_pages == c.len() / 4100,
            ;
        }
        let total = num_pages * PAGE_IDX_SIZE;
        let mut buf = vec![0u8; total];
        self.0.read_exact_at(0, buf.as_mut_slice())?;
        let mut out: Vec<PageIdx> = Vec::new();
        let mut i: usize = 0;
        while i < num_pages
            invariant
                num_pages == serialized_num_pages(c),
                total == num_pages * 4,
                buf@.len() == total,
                total == 0 || buf@ == c.subrange(0, total as int),
                0 <= i <= num_pages,
                out@ == header_keys(c).subrange(0, i as int),
            decreases num_pages - i,
        {
            let chunk = vstd::slice::slice_subrange(buf.as_slice(), i * 4, i * 4 + 4);
            let key = u32_from_le_bytes(chunk);
            proof {
                assert(chunk@ =~= c.subrange(4 * i, 4 * i + 4));
            }
            out.push(key);
            i = i + 1;
            proof {
                assert(out@ =~= header_keys(c).subrange(0, i as int));
            }
        }
        proof {
            assert(header_keys(c).subrange(0, num_pages as int) =~= header_keys(c));
        }
        Ok(out)
    }

    // binary searches for the page at the given page_idx, returning the offset
    // of the page in this file
    fn find_page_start(&self, page_idx: PageIdx) -> (r: io::Result<Option<usize>>)
        ensures
            ({
                let c = self.0.contents();
                let n = serialized_num_pages(c);
                match r {
                    Ok(Some(off)) => exists|i: int|
                        0 <= i < n && header_key(c, i) == page_idx && off == page_start(n, i),
                    Ok(None) => strictly_decreasing(header_keys(c)) ==> forall|i: int|
                        0 <= i < n ==> header_key(c, i) != page_idx,
                    Err(_) => true,
                }
            }),
            self.0.reads_infallible() ==> r is Ok,
            r is Ok ==> self.0.contents().len() <= usize::MAX,
    {
        let num_pages = self.num_pages()?;
        let ghost c = self.0.contents();
        let ghost keys = header_keys(c);
        proof {
            assert(num_pages * 4100 <= c.len()) by (nonlinear_arith)
                requires
                    num_pages == c.len() / 4100,
            ;
        }
        let mut left: usize = 0;
        let mut right: usize = num_pages;
        let mut page_idx_buf = vec![0u8; PAGE_IDX_SIZE];

        while left < right
            invariant
                num_pages == serialized_num_pages(c),
                keys == header_keys(c),
                num_pages * 4100 <= c.len(),
                c.len() <= usize::MAX,
                c == self.0.contents(),
                page_idx_buf@.len() == 4,
                0 <= left <= right <= num_pages,
                strictly_decreasing(keys) ==> forall|i: int|
                    0 <= i < left ==> keys[i] > page_idx,
                strictly_decreasing(keys) ==> forall|i: int|
                    right <= i < num_pages ==> keys[i] < page_idx,
            decreases right - left,
        {
            let mid = left + (right - left) / 2;
            let mid_offset = mid * PAGE_IDX_SIZE;
            self.0.read_exact_at(mid_offset, page_idx_buf.as_mut_slice())?;
            let mid_idx = u32_from_le_bytes(page_idx_buf.as_slice());
            proof {
                assert(mid_idx == keys[mid as int]);
            }
            if mid_idx == page_idx {
                proof {
                    assert(mid * 4096 <= num_pages * 4096) by (nonlinear_arith)
                        requires
                            mid <= num_pages,
                    ;
                }
                let page_offset = (num_pages * PAGE_IDX_SIZE) + (mid * PAGESIZE);
                proof {
                    assert(header_key(c, mid as int) == page_idx);
                }
                return Ok(Some(page_offset));
            } else if mid_idx < page_idx {
                // pages are sorted in descending order, so we need to search left
                right = mid;
            } else {
                // pages are sorted in descending order, so we need to search right
                left = mid + 1;
            }
        }
        proof {
            if strictly_decreasing(keys) {
                assert forall|i: int| 0 <= i < num_pages implies header_key(c, i) != page_idx by {
                    assert(keys[i] == header_key(c, i));
                }
            }
        }
        Ok(None)
    }

    /// Reads from the page at `page_idx`, starting `page_offset` bytes into
    /// it, enough bytes to fill `buf`; returns how many bytes were read: all of
    /// `buf` when the page is present, none when it is not.
    pub fn read(&self, page_idx: PageIdx, page_offset: usize, buf: &mut [u8]) -> (r: io::Result<
        usize,
    >)
        requires
            page_offset < PAGESIZE,
            page_offset + old(buf)@.len() <= PAGESIZE,
        ensures
            final(buf)@.len() == old(buf)@.len(),
            self.0.reads_infallible() ==> r is Ok,
            ({
                let c = self.0.contents();
                let n = serialized_num_pages(c);
                match r {
                    Ok(k) => {
                        ||| (k == 0 && final(buf)@ == old(buf)@ && (strictly_decreasing(
                            header_keys(c),
                        ) ==> forall|i: int| 0 <= i < n ==> header_key(c, i) != page_idx))
                        ||| (k == old(buf)@.len() && exists|i: int|
                            0 <= i < n && header_key(c, i) == page_idx && (k == 0 || final(buf)@
                                == c.subrange(
                                page_start(n, i) + page_offset,
                                page_start(n, i) + page_offset + k,
                            )))
                    },
                    Err(_) => true,
                }
            }),
    {
        if let Some(start) = self.find_page_start(page_idx)? {
            let ghost c = self.0.contents();
            proof {
                let n = serialized_num_pages(c);
                let i = choose|i: int|
                    0 <= i < n && header_key(c, i) == page_idx && start == page_start(n, i);
                assert(start + PAGESIZE <= c.len()) by (nonlinear_arith)
                    requires
                        0 <= i < n,
                        n == c.len() / 4100,
                        start == n * 4 + i * 4096,
                ;
            }
            let read_start = start + page_offset;
            self.0.read_exact_at(read_start, buf)?;
            Ok(buf.len())
        } else {
            Ok(0)
        }
    }
}

proof fn lemma_finite_set_has_max(s: Set<u32>) -> (x: u32)
    requires
        s.finite(),
        !s.is_empty(),
    ensures
        s.contains(x),
        forall|y: u32| s.contains(y) ==> y <= x,
    decreases s.len(),
{
    let a = s.choose();
    let rest = s.remove(a);
    if rest.is_empty() {
        assert forall|y: u32| s.contains(y) implies y <= a by {
            if y != a {
                assert(rest.contains(y));
            }
        }
        a
    } else {
        let b = lemma_finite_set_has_max(rest);
        if a > b {
            a
        } else {
            b
        }
    }
}

proof fn lemma_desc_witness(s: Set<u32>) -> (w: Seq<u32>)
    requires
        s.finite(),
    ensures
        strictly_decreasing(w),
        w.to_set() == s,
    decreases s.len(),
{
    if s.is_empty() {
        let w = Seq::<u32>::empty();
        assert(w.to_set() =~= s);
        w
    } else {
        let x = lemma_finite_set_has_max(s);
        let rest = s.remove(x);
        let tail = lemma_desc_witness(rest);
        let w = seq![x] + tail;
        assert forall|i: int, j: int| 0 <= i < j < w.len() implies w[i] > w[j] by {
            if i > 0 {
                assert(w[i] == tail[i - 1]);
                assert(w[j] == tail[j - 1]);
            } else {
                assert(w[j] == tail[j - 1]);
                assert(tail.to_set().contains(tail[j - 1]));
            }
        }
        assert(w.to_set() =~= s) by {
            assert forall|y: u32| w.to_set().contains(y) implies s.contains(y) by {
                let k = choose|k: int| 0 <= k < w.len() && w[k] == y;
                if k > 0 {
                    assert(tail[k - 1] == y);
                    assert(tail.to_set().contains(y));
                }
            }
            assert forall|y: u32| s.contains(y) implies w.to_set().contains(y) by {
                if y == x {
                    assert(w[0] == y);
                } else {
                    assert(rest.contains(y));
                    let k = choose|k: int| 0 <= k < tail.len() && tail[k] == y;
                    assert(w[k + 1] == y);
                }
            }
        }
        w
    }
}

/// The page indexes of a finite set, largest first, exist and hold exactly
/// the set.
pub proof fn lemma_desc_keys(s: Set<u32>)
    requires
        s.finite(),
    ensures
        strictly_decreasing(desc_keys(s)),
        desc_keys(s).to_set() == s,
        desc_keys(s).len() == s.len(),
{
    let w = lemma_desc_witness(s);
    let d = desc_keys(s);
    assert(strictly_decreasing(d) && d.to_set() == s);
    assert(d.no_duplicates()) by {
        assert forall|i: int, j: int| 0 <= i < d.len() && 0 <= j < d.len() && i != j implies d[i]
            != d[j] by {
            if i < j {
                assert(d[i] > d[j]);
            } else {
                assert(d[j] > d[i]);
            }
        }
    }
    d.unique_seq_to_set();
}

/// Serialized pages hold one index slot and one page per page, the
/// indexes largest first; each slot's page is the page at that index.
pub proof fn lemma_serialized_pages_layout(m: Map<u32, Page>)
    requires
        m.dom().finite(),
    ensures
        ({
            let c = serialized_pages(m);
            let keys = desc_keys(m.dom());
            let n = keys.len() as int;
            &&& n == m.dom().len()
            &&& c.len() == n * entry_size()
            &&& serialized_num_pages(c) == n
            &&& header_keys(c) == keys
            &&& strictly_decreasing(header_keys(c))
            &&& forall|i: int|
                0 <= i < n ==> #[trigger] c.subrange(page_start(n, i), page_start(n, i) + PAGESIZE)
                    == m[keys[i]]@
        }),
{
    let c = serialized_pages(m);
    let keys = desc_keys(m.dom());
    let n = keys.len() as int;
    lemma_desc_keys(m.dom());
    lemma_index_bytes(keys);
    lemma_pages_bytes(keys, m);
    let a = index_bytes(keys);
    let b = pages_bytes(keys, m);
    assert(c.len() == n * 4100);
    assert((n * 4100) / 4100 == n) by (nonlinear_arith);
    assert forall|i: int| 0 <= i < n implies header_keys(c)[i] == keys[i] by {
        assert(c.subrange(4 * i, 4 * i + 4) =~= a.subrange(4 * i, 4 * i + 4));
        lemma_auto_spec_u32_to_from_le_bytes();
    }
    assert(header_keys(c) =~= keys);
    assert forall|i: int| 0 <= i < n implies #[trigger] c.subrange(
        page_start(n, i),
        page_start(n, i) + PAGESIZE,
    ) == m[keys[i]]@ by {
        assert(c.subrange(page_start(n, i), page_start(n, i) + PAGESIZE) =~= b.subrange(
            PAGESIZE * i,
            PAGESIZE * i + PAGESIZE,
        ));
    }
}

/// The index section of serialized pages is the list of their page
/// indexes (as `SparsePages::page_idxs` gives it, increasing) reversed: what
/// `SerializedPagesReader::page_idxs` reads. Its first slot, which
/// `SerializedPagesReader::max_page_idx` reads, is the largest index, and
/// `SerializedPagesReader::num_pages` reads the number of pages.
pub proof fn lemma_serialized_index_is_page_idxs_reversed(m: Map<u32, Page>, asc: Seq<u32>)
    requires
        m.dom().finite(),
        strictly_increasing(asc),
        asc.to_set() == m.dom(),
    ensures
        header_keys(serialized_pages(m)) == asc.reverse(),
        serialized_num_pages(serialized_pages(m)) == asc.len(),
        asc.len() > 0 ==> header_key(serialized_pages(m), 0) == asc.last(),
{
    lemma_serialized_pages_layout(m);
    lemma_desc_keys(m.dom());
    let d = asc.reverse();
    assert(strictly_decreasing(d)) by {
        assert forall|i: int, j: int| 0 <= i < j < d.len() implies d[i] > d[j] by {
            assert(d[i] == asc[asc.len() - 1 - i]);
            assert(d[j] == asc[asc.len() - 1 - j]);
        }
    }
    assert(d.to_set() =~= asc.to_set()) by {
        assert forall|x: u32| d.to_set().contains(x) implies asc.to_set().contains(x) by {
            let k = choose|k: int| 0 <= k < d.len() && d[k] == x;
            assert(asc[asc.len() - 1 - k] == x);
        }
        assert forall|x: u32| asc.to_set().contains(x) implies d.to_set().contains(x) by {
            let k = choose|k: int| 0 <= k < asc.len() && asc[k] == x;
            assert(d[asc.len() - 1 - k] == x);
        }
    }
    lemma_strictly_decreasing_unique(d, desc_keys(m.dom()));
    if asc.len() > 0 {
        assert(header_keys(serialized_pages(m))[0] == header_key(serialized_pages(m), 0));
    }
}

/// Reading a page through `SerializedPagesReader` from the bytes that
/// `SparsePages::serialize_into` wrote gives what `SparsePages::read` gives:
/// a page index is found exactly when the pages hold it, and the bytes found
/// are the page's bytes.
pub proof fn lemma_serialized_read_agrees(m: Map<u32, Page>, page_idx: u32, off: int, len: int)
    requires
        m.dom().finite(),
        0 <= off,
        0 <= len,
        off + len <= PAGESIZE,
    ensures
        ({
            let c = serialized_pages(m);
            let n = serialized_num_pages(c);
            &&& strictly_decreasing(header_keys(c))
            &&& m.contains_key(page_idx) <==> exists|i: int|
                0 <= i < n && header_key(c, i) == page_idx
            &&& forall|i: int|
                0 <= i < n && header_key(c, i) == page_idx ==> c.subrange(
                    page_start(n, i) + off,
                    page_start(n, i) + off + len,
                ) == m[page_idx]@.subrange(off, off + len)
        }),
{
    let c = serialized_pages(m);
    let keys = desc_keys(m.dom());
    let n = serialized_num_pages(c);
    lemma_serialized_pages_layout(m);
    lemma_desc_keys(m.dom());
    if m.contains_key(page_idx) {
        assert(keys.to_set().contains(page_idx));
        let i = choose|i: int| 0 <= i < keys.len() && keys[i] == page_idx;
        assert(header_keys(c)[i] == header_key(c, i));
    }
    assert forall|i: int| 0 <= i < n && header_key(c, i) == page_idx implies c.subrange(
        page_start(n, i) + off,
        page_start(n, i) + off + len,
    ) == m[page_idx]@.subrange(off, off + len) by {
        assert(header_keys(c)[i] == header_key(c, i));
        let whole = c.subrange(page_start(n, i), page_start(n, i) + PAGESIZE);
        assert(whole == m[keys[i]]@);
        assert(c.subrange(page_start(n, i) + off, page_start(n, i) + off + len) =~= whole.subrange(
            off,
            off + len,
        ));
    }
    assert forall|i: int| 0 <= i < n && header_key(c, i) == page_idx implies m.contains_key(
        page_idx,
    ) by {
        assert(header_keys(c)[i] == header_key(c, i));
        assert(keys[i] == page_idx);
        assert(keys.to_set().contains(keys[i]));
    }
}

} // verus!
