use vstd::prelude::*;

use std::collections::BTreeMap;

use crate::page::PageIdx;
use vstd::std_specs::btree::spec_btree_map_iter;
use vstd::std_specs::iter::IteratorSpec;

verus! {

broadcast use {vstd::std_specs::btree::group_btree_axioms, vstd::laws_cmp::group_laws_cmp};

/// Identifies an open file of the page store.
pub type FileIdx = u16;

/// A page of a file: the file and the page's index in it.
pub type PageKey = (FileIdx, PageIdx);

#[derive(Debug, PartialEq, Eq, Structural, Clone, Copy)]
enum Layer {
    Root,
    Branch,
}

/// How a file is opened (as SQLite asks for it).
#[derive(Debug, PartialEq, Eq, Structural, Clone, Copy)]
pub enum OpenAccess {
    /// Read access.
    Read,
    /// Write access (includes read access).
    Write,
    /// Create the file if it does not exist (includes write and read access).
    Create,
    /// Create the file, but throw if it it already exist (includes write and read access).
    CreateNew,
}

/// Why the file system refused a request.
#[derive(Debug, PartialEq, Eq, Structural, Clone, Copy)]
pub enum VfsError {
    /// An I/O error: an unknown file, an existing file that had to be new,
    /// or a read or write that does not fit in one page.
    IoErr,
}

fn zero_page<const PAGESIZE: usize>() -> (p: [u8; PAGESIZE])
    ensures
        p@ == Seq::new(PAGESIZE as nat, |i: int| 0u8),
{
    let p = [0u8; PAGESIZE];
    assert(p@ =~= Seq::new(PAGESIZE as nat, |i: int| 0u8));
    p
}

/// Files of pages, kept in memory: a root layer of pages, and a branch
/// layer of changes over it that can be committed to the root or rolled
/// back.
#[derive(Debug)]
pub struct Storage<const PAGESIZE: usize> {
    files: Vec<(String, FileIdx)>,
    root_pages: BTreeMap<PageKey, [u8; PAGESIZE]>,
    branch_pages: BTreeMap<PageKey, [u8; PAGESIZE]>,
    layer: Layer,
}

/// The pages of `m` that belong to file `fd`, each once.
fn keys_of_file<const PAGESIZE: usize>(m: &BTreeMap<PageKey, [u8; PAGESIZE]>, fd: FileIdx) -> (v: Vec<
    PageKey,
>)
    ensures
        v@.no_duplicates(),
        v@.to_set() == m@.dom().filter(|k: PageKey| k.0 == fd),
{
    let mut v: Vec<PageKey> = Vec::new();
    let iter = m.iter();
    let ghost kvs = iter.remaining();
    let ghost keys = kvs.map_values(|kv: (&PageKey, &[u8; PAGESIZE])| *kv.0);
    proof {
        assert forall|a: int, b: int| 0 <= a < b < keys.len() implies keys[a] != keys[b] by {
            if keys[a] == keys[b] {
                assert(m@[*kvs[a].0] == *kvs[a].1);
                assert(m@[*kvs[b].0] == *kvs[b].1);
                assert(kvs[a] == kvs[b]);
            }
        }
    }
    for kv in it: iter
        invariant
            it.seq() == kvs,
            keys == kvs.map_values(|kv: (&PageKey, &[u8; PAGESIZE])| *kv.0),
            forall|a: int, b: int| 0 <= a < b < keys.len() ==> keys[a] != keys[b],
            forall|t: int| 0 <= t < v@.len() ==> (#[trigger] v@[t]).0 == fd,
            forall|t: int| 0 <= t < v@.len() ==> keys.contains(#[trigger] v@[t]),
            forall|t: int, u: int|
                0 <= t < v@.len() && it.index() <= u < keys.len() ==> #[trigger] v@[t] != #[trigger] keys[u],
            forall|u: int| 0 <= u < it.index() && (#[trigger] keys[u]).0 == fd ==> v@.contains(keys[u]),
            forall|a: int, b: int| 0 <= a < b < v@.len() ==> v@[a] != v@[b],
    {
        let ghost idx = it.index() as int;
        let ghost old_v = v@;
        proof {
            assert(keys[idx] == *kv.0);
        }
        if kv.0.0 == fd {
            proof {
                assert(forall|t: int| 0 <= t < v@.len() ==> v@[t] != keys[idx]);
            }
            v.push(*kv.0);
            proof {
                assert(v@[v@.len() - 1] == keys[idx]);
                assert forall|u: int| 0 <= u < idx + 1 && (#[trigger] keys[u]).0 == fd implies v@.contains(keys[u]) by {
                    if u == idx {
                        assert(v@[v@.len() - 1] == keys[u]);
                    } else {
                        assert(old_v.contains(keys[u]));
                        let t = choose|t: int| 0 <= t < old_v.len() && old_v[t] == keys[u];
                        assert(v@[t] == keys[u]);
                    }
                }
            }
        }
        proof {
            assert forall|t: int, u: int|
                0 <= t < v@.len() && idx + 1 <= u < keys.len() implies #[trigger] v@[t] != #[trigger] keys[u] by {
                if t < old_v.len() {
                    assert(v@[t] == old_v[t]);
                } else {
                    assert(v@[t] == keys[idx]);
                }
            }
            assert forall|t: int| 0 <= t < v@.len() implies keys.contains(#[trigger] v@[t]) by {
                if t < old_v.len() {
                    assert(v@[t] == old_v[t]);
                } else {
                    assert(v@[t] == keys[idx]);
                }
            }
        }
    }
    proof {
        assert forall|k: PageKey| v@.to_set().contains(k) <==> m@.dom().filter(
            |k: PageKey| k.0 == fd,
        ).contains(k) by {
            if v@.to_set().contains(k) {
                let t = choose|t: int| 0 <= t < v@.len() && v@[t] == k;
                assert(keys.contains(v@[t]));
                let u = choose|u: int| 0 <= u < keys.len() && keys[u] == v@[t];
                assert(m@.contains_key(*kvs[u].0));
            }
            if m@.contains_key(k) && k.0 == fd {
                assert(kvs.contains((&k, &m@[k])));
                let u = choose|u: int| 0 <= u < kvs.len() && kvs[u] == (&k, &m@[k]);
                assert(keys[u] == k);
            }
        }
        assert(v@.to_set() =~= m@.dom().filter(|k: PageKey| k.0 == fd));
    }
    v
}

/// The pages of `m`, each with its key.
fn entries_of<const PAGESIZE: usize>(m: &BTreeMap<PageKey, [u8; PAGESIZE]>) -> (v: Vec<
    (PageKey, [u8; PAGESIZE]),
>)
    ensures
        forall|t: int| 0 <= t < v@.len() ==> m@.contains_key((#[trigger] v@[t]).0) && m@[v@[t].0] == v@[t].1,
        forall|k: PageKey| m@.contains_key(k) ==> exists|t: int| 0 <= t < v@.len() && (#[trigger] v@[t]).0 == k,
{
    let mut v: Vec<(PageKey, [u8; PAGESIZE])> = Vec::new();
    let iter = m.iter();
    let ghost kvs = iter.remaining();
    for kv in it: iter
        invariant
            it.seq() == kvs,
            v@.len() == it.index(),
            forall|t: int| 0 <= t < v@.len() ==> (#[trigger] v@[t]) == (*kvs[t].0, *kvs[t].1),
    {
        v.push((*kv.0, *kv.1));
    }
    proof {
        assert forall|t: int| 0 <= t < v@.len() implies m@.contains_key((#[trigger] v@[t]).0) && m@[v@[t].0] == v@[t].1 by {
            assert(m@.contains_key(*kvs[t].0) && m@[*kvs[t].0] == *kvs[t].1);
        }
        assert forall|k: PageKey| m@.contains_key(k) implies exists|t: int| 0 <= t < v@.len() && (#[trigger] v@[t]).0 == k by {
            assert(kvs.contains((&k, &m@[k])));
            let u = choose|u: int| 0 <= u < kvs.len() && kvs[u] == (&k, &m@[k]);
            assert(v@[u].0 == k);
        }
    }
    v
}

/// A page with the bytes `[offset, offset + buf.len())` replaced by `buf`.
pub open spec fn spliced(page: Seq<u8>, offset: int, buf: Seq<u8>) -> Seq<u8> {
    Seq::new(
        page.len(),
        |i: int|
            if offset <= i < offset + buf.len() {
                buf[i - offset]
            } else {
                page[i]
            },
    )
}

/// The offset of a position in its page lies in the page.
proof fn lemma_offset_in_page(pos: u64, size: u64)
    requires
        size > 0,
    ensures
        pos % size < size,
{
    assert(pos % size < size) by (nonlinear_arith)
        requires
            size > 0,
    ;
}

/// A count no larger than one whose multiple fits fits too.
proof fn lemma_count_bound(count: nat, bound: nat, size: nat)
    requires
        count <= bound,
        size > 0,
        bound * size <= usize::MAX,
    ensures
        count * size <= bound * size,
        count <= usize::MAX,
{
    assert(count * size <= bound * size) by (nonlinear_arith)
        requires
            count <= bound,
    ;
    assert(count <= count * size) by (nonlinear_arith)
        requires
            size > 0,
    ;
}

impl<const PAGESIZE: usize> Storage<PAGESIZE> {
    /// The file names, each with its file index, in the order they were
    /// created.
    pub closed spec fn file_table(self) -> Seq<(Seq<char>, FileIdx)> {
        self.files@.map_values(|f: (String, FileIdx)| (f.0@, f.1))
    }

    /// The file index of the file named `name`, if there is one.
    pub open spec fn file_of(self, name: Seq<char>) -> Option<FileIdx> {
        if exists|i: int| 0 <= i < self.file_table().len() && self.file_table()[i].0 == name {
            let i = choose|i: int| 0 <= i < self.file_table().len() && self.file_table()[i].0 == name;
            Some(self.file_table()[i].1)
        } else {
            None
        }
    }

    pub closed spec fn root(self) -> Map<PageKey, [u8; PAGESIZE]> {
        self.root_pages@
    }

    pub closed spec fn branch_layer(self) -> Map<PageKey, [u8; PAGESIZE]> {
        self.branch_pages@
    }

    /// Writes go to the branch layer.
    pub closed spec fn on_branch(self) -> bool {
        self.layer == Layer::Branch
    }

    /// The page as reads see it: the branch's version when it has one,
    /// otherwise the root's.
    pub open spec fn page_view(self, key: PageKey) -> Option<[u8; PAGESIZE]> {
        if self.branch_layer().contains_key(key) {
            Some(self.branch_layer()[key])
        } else if self.root().contains_key(key) {
            Some(self.root()[key])
        } else {
            None
        }
    }

    /// Every page the file `fd` has, in either layer.
    pub open spec fn file_pages(self, fd: FileIdx) -> Set<PageKey> {
        self.root().dom().union(self.branch_layer().dom()).filter(|k: PageKey| k.0 == fd)
    }

    /// No two files share a name, and outside a branch the branch layer is
    /// empty.
    pub open spec fn wf(self) -> bool {
        &&& forall|i: int, j: int|
            0 <= i < j < self.file_table().len() ==> self.file_table()[i].0 != self.file_table()[j].0
        &&& !self.on_branch() ==> self.branch_layer().dom().is_empty()
    }

    pub fn new() -> (s: Self)
        ensures
            s.wf(),
            s.file_table() == Seq::<(Seq<char>, FileIdx)>::empty(),
            s.root() == Map::<PageKey, [u8; PAGESIZE]>::empty(),
            s.branch_layer() == Map::<PageKey, [u8; PAGESIZE]>::empty(),
            !s.on_branch(),
    {
        let s = Self {
            files: Vec::new(),
            root_pages: BTreeMap::new(),
            branch_pages: BTreeMap::new(),
            layer: Layer::Root,
        };
        proof {
            assert(s.file_table() =~= Seq::<(Seq<char>, FileIdx)>::empty());
        }
        s
    }

    /// The size of file `fd`: a whole page for each page it has.
    fn file_size(&self, fd: FileIdx) -> (r: usize)
        requires
            self.wf(),
            PAGESIZE > 0,
            self.file_pages(fd).len() * PAGESIZE <= usize::MAX,
        ensures
            r == self.file_pages(fd).len() * PAGESIZE,
    {
        let root_keys = keys_of_file(&self.root_pages, fd);
        proof {
            self.root_pages@.dom().lemma_len_filter(|k: PageKey| k.0 == fd);
        }
        if self.layer == Layer::Root {
            proof {
                assert(self.file_pages(fd) =~= self.root().dom().filter(|k: PageKey| k.0 == fd));
                root_keys@.unique_seq_to_set();
                lemma_count_bound(root_keys@.len(), self.file_pages(fd).len(), PAGESIZE as nat);
            }
            root_keys.len() * PAGESIZE
        } else {
            let branch_keys = keys_of_file(&self.branch_pages, fd);
            let mut count: usize = root_keys.len();
            let ghost mut extra: Seq<PageKey> = Seq::empty();
            let ghost all_pages = self.file_pages(fd);
            proof {
                root_keys@.unique_seq_to_set();
                assert(root_keys@.to_set().subset_of(all_pages));
                vstd::set_lib::lemma_len_subset(root_keys@.to_set(), all_pages);
            }
            let mut i: usize = 0;
            while i < branch_keys.len()
                invariant
                    0 <= i <= branch_keys@.len(),
                    branch_keys@.no_duplicates(),
                    branch_keys@.to_set() == self.branch_layer().dom().filter(|k: PageKey| k.0 == fd),
                    root_keys@.no_duplicates(),
                    root_keys@.to_set() == self.root().dom().filter(|k: PageKey| k.0 == fd),
                    all_pages == self.file_pages(fd),
                    all_pages.finite(),
                    all_pages.len() * PAGESIZE <= usize::MAX,
                    PAGESIZE > 0,
                    count == root_keys@.len() + extra.len(),
                    (root_keys@ + extra).no_duplicates(),
                    (root_keys@ + extra).to_set().subset_of(all_pages),
                    forall|k: PageKey|
                        #![trigger extra.contains(k)]
                        extra.contains(k) <==> (branch_keys@.subrange(0, i as int).contains(k)
                            && !self.root().contains_key(k)),
                decreases branch_keys@.len() - i,
            {
                let k = branch_keys[i];
                let ghost extra0 = extra;
                proof {
                    (root_keys@ + extra).unique_seq_to_set();
                    vstd::set_lib::lemma_len_subset((root_keys@ + extra).to_set(), all_pages);
                    lemma_count_bound((root_keys@ + extra).len(), all_pages.len(), PAGESIZE as nat);
                }
                if !self.root_pages.contains_key(&k) {
                    proof {
                        let old_all = root_keys@ + extra;
                        assert(!extra.contains(k)) by {
                            if extra.contains(k) {
                                let t = choose|t: int| 0 <= t < i && branch_keys@[t] == k;
                                assert(branch_keys@.subrange(0, i as int).contains(k) ==> exists|t: int| 0 <= t < i && branch_keys@[t] == k);
                            }
                        }
                        assert(!root_keys@.contains(k)) by {
                            if root_keys@.contains(k) {
                                assert(root_keys@.to_set().contains(k));
                            }
                        }
                        assert(!old_all.contains(k));
                        extra = extra.push(k);
                        assert(root_keys@ + extra =~= old_all.push(k));
                        assert(branch_keys@.to_set().contains(k));
                        assert((root_keys@ + extra).to_set().subset_of(all_pages)) by {
                            assert forall|x: PageKey| (root_keys@ + extra).to_set().contains(x) implies all_pages.contains(x) by {
                                if x != k {
                                    let t = choose|t: int| 0 <= t < (root_keys@ + extra).len() && (root_keys@ + extra)[t] == x;
                                    assert(old_all[t] == x);
                                    assert(old_all.to_set().contains(x));
                                }
                            }
                        }
                        (root_keys@ + extra).unique_seq_to_set();
                        vstd::set_lib::lemma_len_subset((root_keys@ + extra).to_set(), all_pages);
                        lemma_count_bound((root_keys@ + extra).len(), all_pages.len(), PAGESIZE as nat);
                    }
                    count = count + 1;
                }
                proof {
                    let pre = branch_keys@.subrange(0, i as int);
                    let post = branch_keys@.subrange(0, i + 1);
                    assert(post =~= pre.push(k));
                    assert(extra == if self.root().contains_key(k) { extra0 } else { extra0.push(k) });
                    assert forall|x: PageKey| #![trigger extra.contains(x)]
                        extra.contains(x) <==> (post.contains(x) && !self.root().contains_key(x)) by {
                        assert(extra0.contains(x) <==> (pre.contains(x) && !self.root().contains_key(x)));
                        assert(post.contains(x) <==> (pre.contains(x) || x == k)) by {
                            if post.contains(x) && x != k {
                                let t = choose|t: int| 0 <= t < post.len() && post[t] == x;
                                assert(pre[t] == x);
                            }
                            if pre.contains(x) {
                                let t = choose|t: int| 0 <= t < pre.len() && pre[t] == x;
                                assert(post[t] == x);
                            }
                            if x == k {
                                assert(post[i as int] == x);
                            }
                        }
                        if !self.root().contains_key(k) {
                            assert(extra.contains(x) <==> (extra0.contains(x) || x == k)) by {
                                if extra.contains(x) && x != k {
                                    let t = choose|t: int| 0 <= t < extra.len() && extra[t] == x;
                                    assert(extra0[t] == x);
                                }
                                if extra0.contains(x) {
                                    let t = choose|t: int| 0 <= t < extra0.len() && extra0[t] == x;
                                    assert(extra[t] == x);
                                }
                                if x == k {
                                    assert(extra[extra.len() - 1] == x);
                                }
                            }
                        }
                    }
                }
                i = i + 1;
            }
            proof {
                assert(branch_keys@.subrange(0, i as int) =~= branch_keys@);
                let all = root_keys@ + extra;
                assert forall|k: PageKey| all_pages.contains(k) implies all.to_set().contains(k) by {
                    if self.root().contains_key(k) {
                        assert(root_keys@.to_set().contains(k));
                        let t = choose|t: int| 0 <= t < root_keys@.len() && root_keys@[t] == k;
                        assert(all[t] == k);
                    } else {
                        assert(branch_keys@.to_set().contains(k));
                        assert(extra.contains(k));
                        let t = choose|t: int| 0 <= t < extra.len() && extra[t] == k;
                        assert(all[root_keys@.len() + t] == k);
                    }
                }
                assert(all.to_set() =~= all_pages);
                all.unique_seq_to_set();
                lemma_count_bound(all.len(), all_pages.len(), PAGESIZE as nat);
            }
            count * PAGESIZE
        }
    }

    /// The page at `key`, as reads see it.
    fn page(&self, key: PageKey) -> (r: Option<&[u8; PAGESIZE]>)
        requires
            self.wf(),
        ensures
            match r {
                Some(p) => self.page_view(key) == Some(*p),
                None => self.page_view(key) is None,
            },
    {
        if self.layer == Layer::Root {
            self.root_pages.get(&key)
        } else {
            match self.branch_pages.get(&key) {
                Some(p) => Some(p),
                None => self.root_pages.get(&key),
            }
        }
    }

    /// Writes `buf` into the page at `key`, `offset` bytes into it, in the
    /// current layer; a page the layer does not have yet starts as the page
    /// reads see (or as zeros).
    fn write_page(&mut self, key: PageKey, offset: usize, buf: &[u8])
        requires
            old(self).wf(),
            offset + buf@.len() <= PAGESIZE,
        ensures
            final(self).wf(),
            final(self).file_table() == old(self).file_table(),
            final(self).on_branch() == old(self).on_branch(),
            ({
                let base = match old(self).page_view(key) {
                    Some(p) => p@,
                    None => Seq::new(PAGESIZE as nat, |i: int| 0u8),
                };
                let page = spliced(base, offset as int, buf@);
                &&& final(self).page_view(key) is Some
                &&& final(self).page_view(key)->0@ == page
                &&& old(self).on_branch() ==> final(self).root() == old(self).root()
                    && final(self).branch_layer().dom() == old(self).branch_layer().dom().insert(key)
                    && final(self).branch_layer().remove(key) == old(self).branch_layer().remove(key)
                &&& !old(self).on_branch() ==> final(self).branch_layer() == old(self).branch_layer()
                    && final(self).root().dom() == old(self).root().dom().insert(key)
                    && final(self).root().remove(key) == old(self).root().remove(key)
            }),
            forall|k: PageKey| k != key ==> #[trigger] final(self).page_view(k) == old(self).page_view(k),
    {
        let mut page: [u8; PAGESIZE] = match self.page(key) {
            Some(p) => *p,
            None => zero_page(),
        };
        let ghost base = page@;
        let mut i: usize = 0;
        while i < buf.len()
            invariant
                offset + buf@.len() <= PAGESIZE,
                page@.len() == PAGESIZE,
                base.len() == PAGESIZE,
                0 <= i <= buf@.len(),
                forall|t: int|
                    0 <= t < PAGESIZE ==> #[trigger] page@[t] == if offset <= t < offset + i {
                        buf@[t - offset]
                    } else {
                        base[t]
                    },
            decreases buf@.len() - i,
        {
            page[offset + i] = buf[i];
            i = i + 1;
        }
        proof {
            assert(page@ =~= spliced(base, offset as int, buf@));
        }
        if self.layer == Layer::Root {
            self.root_pages.insert(key, page);
        } else {
            self.branch_pages.insert(key, page);
        }
        proof {
            assert(self.file_table() == old(self).file_table());
            assert(self.root().remove(key) =~= old(self).root().remove(key));
            assert(self.branch_layer().remove(key) =~= old(self).branch_layer().remove(key));
        }
    }

    /// Starts a branch: writes go to the branch layer from now on.
    pub fn branch(&mut self)
        requires
            old(self).wf(),
        ensures
            final(self).wf(),
            final(self).on_branch(),
            final(self).file_table() == old(self).file_table(),
            final(self).root() == old(self).root(),
            final(self).branch_layer() == old(self).branch_layer(),
    {
        self.layer = Layer::Branch;
        assert(self.file_table() == old(self).file_table());
    }

    // no-op if we are on the root layer
    // move all pages at the current layer to the root
    // transition to the root layer
    pub fn commit(&mut self)
        requires
            old(self).wf(),
        ensures
            final(self).wf(),
            !final(self).on_branch(),
            final(self).file_table() == old(self).file_table(),
            final(self).root() == old(self).root().union_prefer_right(old(self).branch_layer()),
            final(self).branch_layer() == Map::<PageKey, [u8; PAGESIZE]>::empty(),
    {
        let entries = entries_of(&self.branch_pages);
        let ghost r0 = self.root_pages@;
        let ghost b0 = self.branch_pages@;
        let mut i: usize = 0;
        while i < entries.len()
            invariant
                0 <= i <= entries@.len(),
                self.branch_pages@ == b0,
                self.files@ == old(self).files@,
                r0 == old(self).root(),
                b0 == old(self).branch_layer(),
                forall|t: int| 0 <= t < entries@.len() ==> b0.contains_key((#[trigger] entries@[t]).0)
                    && b0[entries@[t].0] == entries@[t].1,
                self.root_pages@ == r0.union_prefer_right(
                    Map::new(
                        |k: PageKey| exists|t: int| 0 <= t < i && (#[trigger] entries@[t]).0 == k,
                        |k: PageKey| b0[k],
                    ),
                ),
            decreases entries@.len() - i,
        {
            let (key, page) = entries[i];
            self.root_pages.insert(key, page);
            i = i + 1;
            proof {
                assert(entries@[i - 1].0 == key);
                assert(self.root_pages@ =~= r0.union_prefer_right(
                    Map::new(
                        |k: PageKey| exists|t: int| 0 <= t < i && (#[trigger] entries@[t]).0 == k,
                        |k: PageKey| b0[k],
                    ),
                ));
            }
        }
        proof {
            assert(Map::new(
                |k: PageKey| exists|t: int| 0 <= t < i && (#[trigger] entries@[t]).0 == k,
                |k: PageKey| b0[k],
            ) =~= b0);
        }
        self.branch_pages.clear();
        self.layer = Layer::Root;
        assert(self.file_table() == old(self).file_table());
    }

    // throw away all pages on the Branch layer
    // transition to the root layer
    pub fn rollback(&mut self)
        requires
            old(self).wf(),
        ensures
            final(self).wf(),
            !final(self).on_branch(),
            final(self).file_table() == old(self).file_table(),
            final(self).root() == old(self).root(),
            final(self).branch_layer() == Map::<PageKey, [u8; PAGESIZE]>::empty(),
    {
        self.branch_pages.clear();
        self.layer = Layer::Root;
        assert(self.file_table() == old(self).file_table());
    }

    /// Opens the file named `name` (see `OpenAccess`).
    pub fn open(&mut self, name: &str, access: OpenAccess) -> (r: Result<VirtualFile<PAGESIZE>, VfsError>)
        requires
            old(self).wf(),
            access != OpenAccess::Read,
        ensures
            final(self).wf(),
            final(self).root() == old(self).root(),
            final(self).branch_layer() == old(self).branch_layer(),
            final(self).on_branch() == old(self).on_branch(),
            match r {
                Ok(file) => {
                    &&& access == OpenAccess::CreateNew ==> old(self).file_of(name@) is None
                    &&& access == OpenAccess::Write ==> old(self).file_of(name@) is Some
                    &&& final(self).file_of(name@) == Some(file.spec_fd())
                    &&& old(self).file_of(name@) is Some ==> final(self).file_table() == old(
                        self,
                    ).file_table()
                    &&& old(self).file_of(name@) is None ==> final(self).file_table() == old(
                        self,
                    ).file_table().push((name@, file.spec_fd())) && file.spec_fd()
                        == old(self).file_table().len() as FileIdx
                },
                Err(e) => {
                    &&& e == VfsError::IoErr
                    &&& *final(self) == *old(self)
                    &&& access == OpenAccess::Write ==> old(self).file_of(name@) is None
                    &&& access == OpenAccess::CreateNew ==> old(self).file_of(name@) is Some
                    &&& access == OpenAccess::Write || access == OpenAccess::CreateNew
                },
            },
    {
        match access {
            OpenAccess::Write => {
                match self.file_get(name) {
                    Some(fd) => Ok(VirtualFile { fd }),
                    None => Err(VfsError::IoErr),
                }
            },
            OpenAccess::Create => {
                let fd = self.file_get_or_create(name);
                Ok(VirtualFile { fd })
            },
            OpenAccess::CreateNew => {
                if self.file_exists(name) {
                    return Err(VfsError::IoErr);
                }
                let fd = self.file_get_or_create(name);
                Ok(VirtualFile { fd })
            },
            OpenAccess::Read => {
                proof {
                    assert(false);
                }
                Err(VfsError::IoErr)
            },
        }
    }

    /// Deletes the file named `name`; an unknown name is an error.
    pub fn delete(&mut self, name: &str) -> (r: Result<(), VfsError>)
        requires
            old(self).wf(),
        ensures
            final(self).wf(),
            final(self).root() == old(self).root(),
            final(self).branch_layer() == old(self).branch_layer(),
            final(self).on_branch() == old(self).on_branch(),
            r is Ok <==> old(self).file_of(name@) is Some,
            final(self).file_of(name@) is None,
            forall|other: Seq<char>|
                other != name@ ==> #[trigger] final(self).file_of(other) == old(self).file_of(other),
    {
        if self.file_delete(name) {
            Ok(())
        } else {
            Err(VfsError::IoErr)
        }
    }

    /// Where the file named `name` is in the file table.
    fn file_position(&self, name: &str) -> (r: Option<usize>)
        requires
            self.wf(),
        ensures
            match r {
                Some(i) => i < self.file_table().len() && self.file_table()[i as int].0 == name@,
                None => forall|i: int|
                    0 <= i < self.file_table().len() ==> self.file_table()[i].0 != name@,
            },
    {
        let key = name.to_owned();
        let mut i: usize = 0;
        while i < self.files.len()
            invariant
                key@ == name@,
                0 <= i <= self.files@.len(),
                self.file_table().len() == self.files@.len(),
                forall|t: int| 0 <= t < i ==> self.file_table()[t].0 != name@,
            decreases self.files@.len() - i,
        {
            if self.files[i].0 == key {
                return Some(i);
            }
            i = i + 1;
        }
        None
    }

    /// The file position found for a name holds the file's index.
    proof fn lemma_file_of(self, name: Seq<char>, i: int)
        requires
            self.wf(),
            0 <= i < self.file_table().len(),
            self.file_table()[i].0 == name,
        ensures
            self.file_of(name) == Some(self.file_table()[i].1),
    {
    }

    fn file_get(&self, name: &str) -> (r: Option<FileIdx>)
        requires
            self.wf(),
        ensures
            r == self.file_of(name@),
    {
        match self.file_position(name) {
            Some(i) => {
                proof {
                    self.lemma_file_of(name@, i as int);
                }
                Some(self.files[i].1)
            },
            None => None,
        }
    }

    pub fn file_exists(&self, name: &str) -> (r: bool)
        requires
            self.wf(),
        ensures
            r == self.file_of(name@) is Some,
    {
        self.file_get(name).is_some()
    }

    fn file_get_or_create(&mut self, name: &str) -> (fd: FileIdx)
        requires
            old(self).wf(),
        ensures
            final(self).wf(),
            final(self).root() == old(self).root(),
            final(self).branch_layer() == old(self).branch_layer(),
            final(self).on_branch() == old(self).on_branch(),
            final(self).file_of(name@) == Some(fd),
            old(self).file_of(name@) is Some ==> fd == old(self).file_of(name@)->0,
            old(self).file_of(name@) is Some ==> final(self).file_table() == old(self).file_table(),
            old(self).file_of(name@) is None ==> fd == old(self).file_table().len() as FileIdx
                && final(self).file_table() == old(self).file_table().push((name@, fd)),
    {
        if let Some(fd) = self.file_get(name) {
            fd
        } else {
            let fd = self.files.len() as FileIdx;
            let ghost before = self.file_table();
            self.files.push((name.to_owned(), fd));
            proof {
                assert(self.file_table() =~= before.push((name@, fd)));
                self.lemma_file_of(name@, before.len() as int);
            }
            fd
        }
    }

    fn file_delete(&mut self, name: &str) -> (r: bool)
        requires
            old(self).wf(),
        ensures
            final(self).wf(),
            final(self).root() == old(self).root(),
            final(self).branch_layer() == old(self).branch_layer(),
            final(self).on_branch() == old(self).on_branch(),
            r == old(self).file_of(name@) is Some,
            final(self).file_of(name@) is None,
            forall|other: Seq<char>|
                other != name@ ==> #[trigger] final(self).file_of(other) == old(self).file_of(other),
    {
        match self.file_position(name) {
            Some(i) => {
                let ghost before = self.file_table();
                self.files.remove(i);
                proof {
                    assert(self.file_table() =~= before.remove(i as int));
                    let after = self.file_table();
                    assert forall|other: Seq<char>|
                        other != name@ implies #[trigger] self.file_of(other) == old(self).file_of(
                            other,
                        ) by {
                        if exists|t: int| 0 <= t < before.len() && before[t].0 == other {
                            let t = choose|t: int| 0 <= t < before.len() && before[t].0 == other;
                            old(self).lemma_file_of(other, t);
                            let u = if t < i { t } else { t - 1 };
                            assert(after[u] == before[t]);
                            self.lemma_file_of(other, u);
                        } else {
                            assert forall|u: int| 0 <= u < after.len() implies after[u].0 != other by {
                                if u < i {
                                    assert(after[u] == before[u]);
                                } else {
                                    assert(after[u] == before[u + 1]);
                                }
                            }
                        }
                    }
                    assert forall|u: int| 0 <= u < after.len() implies after[u].0 != name@ by {
                        if u < i {
                            assert(after[u] == before[u]);
                        } else {
                            assert(after[u] == before[u + 1]);
                        }
                    }
                }
                true
            },
            None => false,
        }
    }
}

/// An open file of a page store: reads and writes go to the store's pages
/// of that file.
#[derive(Debug, Clone, Copy)]
pub struct VirtualFile<const PAGESIZE: usize> {
    fd: FileIdx,
}

impl<const PAGESIZE: usize> VirtualFile<PAGESIZE> {
    pub closed spec fn spec_fd(self) -> FileIdx {
        self.fd
    }

    pub fn fd(&self) -> (r: FileIdx)
        ensures
            r == self.spec_fd(),
    {
        self.fd
    }

    pub fn file_size(&self, storage: &Storage<PAGESIZE>) -> (r: u64)
        requires
            storage.wf(),
            PAGESIZE > 0,
            storage.file_pages(self.spec_fd()).len() * PAGESIZE <= usize::MAX,
        ensures
            r == storage.file_pages(self.spec_fd()).len() * PAGESIZE,
    {
        storage.file_size(self.fd) as u64
    }

    /// Writes `buf` at position `pos` of the file; it must fit in one page.
    pub fn write(&self, storage: &mut Storage<PAGESIZE>, pos: u64, buf: &[u8]) -> (r: Result<usize, VfsError>)
        requires
            old(storage).wf(),
            PAGESIZE > 0,
        ensures
            final(storage).wf(),
            final(storage).file_table() == old(storage).file_table(),
            final(storage).on_branch() == old(storage).on_branch(),
            ({
                let key = (self.spec_fd(), (pos / (PAGESIZE as u64)) as PageIdx);
                let offset = (pos % (PAGESIZE as u64)) as int;
                let base = match old(storage).page_view(key) {
                    Some(p) => p@,
                    None => Seq::new(PAGESIZE as nat, |i: int| 0u8),
                };
                if offset + buf@.len() > PAGESIZE {
                    &&& r == Err::<usize, VfsError>(VfsError::IoErr)
                    &&& *final(storage) == *old(storage)
                } else {
                    &&& r == Ok::<usize, VfsError>(buf@.len() as usize)
                    &&& final(storage).page_view(key) is Some
                    &&& final(storage).page_view(key)->0@ == spliced(base, offset, buf@)
                    &&& forall|k: PageKey| k != key ==> #[trigger] final(storage).page_view(k)
                        == old(storage).page_view(k)
                    // a write on a branch leaves the root layer alone, and a
                    // write on the root layer leaves the branch layer alone
                    &&& old(storage).on_branch() ==> final(storage).root() == old(storage).root()
                        && final(storage).branch_layer().dom() == old(storage).branch_layer().dom().insert(key)
                        && final(storage).branch_layer().remove(key) == old(storage).branch_layer().remove(key)
                    &&& !old(storage).on_branch() ==> final(storage).branch_layer() == old(storage).branch_layer()
                        && final(storage).root().dom() == old(storage).root().dom().insert(key)
                        && final(storage).root().remove(key) == old(storage).root().remove(key)
                }
            }),
    {
        if buf.len() > PAGESIZE {
            return Err(VfsError::IoErr);
        }

        // calculate the page offset
        let page = (pos / PAGESIZE as u64) as PageIdx;
        // calculate the position within the page to write
        let offset = (pos % PAGESIZE as u64) as usize;
        proof {
            lemma_offset_in_page(pos, PAGESIZE as u64);
        }

        if buf.len() > PAGESIZE - offset {
            return Err(VfsError::IoErr);
        }

        storage.write_page((self.fd, page), offset, buf);
        Ok(buf.len())
    }

    /// Reads into `buf` from position `pos` of the file; it must fit in one
    /// page. A page the file does not have reads nothing.
    pub fn read(&self, storage: &Storage<PAGESIZE>, pos: u64, buf: &mut [u8]) -> (r: Result<usize, VfsError>)
        requires
            storage.wf(),
            PAGESIZE > 0,
        ensures
            final(buf)@.len() == old(buf)@.len(),
            ({
                let key = (self.spec_fd(), (pos / (PAGESIZE as u64)) as PageIdx);
                let offset = (pos % (PAGESIZE as u64)) as int;
                let len = old(buf)@.len() as int;
                if offset + len > PAGESIZE {
                    r == Err::<usize, VfsError>(VfsError::IoErr) && final(buf)@ == old(buf)@
                } else {
                    match storage.page_view(key) {
                        Some(p) => r == Ok::<usize, VfsError>(len as usize) && final(buf)@
                            == p@.subrange(offset, offset + len),
                        None => r == Ok::<usize, VfsError>(0) && final(buf)@ == old(buf)@,
                    }
                }
            }),
    {
        if buf.len() > PAGESIZE {
            return Err(VfsError::IoErr);
        }

        // calculate the page offset
        let page = (pos / PAGESIZE as u64) as PageIdx;
        // calculate the position within the page to read
        let offset = (pos % PAGESIZE as u64) as usize;
        proof {
            lemma_offset_in_page(pos, PAGESIZE as u64);
        }

        if buf.len() > PAGESIZE - offset {
            return Err(VfsError::IoErr);
        }

        match storage.page((self.fd, page)) {
            Some(page) => {
                let mut i: usize = 0;
                while i < buf.len()
                    invariant
                        offset + buf@.len() <= PAGESIZE,
                        buf@.len() == old(buf)@.len(),
                        page@.len() == PAGESIZE,
                        0 <= i <= buf@.len(),
                        forall|t: int| 0 <= t < i ==> buf@[t] == page@[offset + t],
                    decreases buf@.len() - i,
                {
                    buf[i] = page[offset + i];
                    i = i + 1;
                }
                proof {
                    assert(buf@ =~= page@.subrange(offset as int, offset + buf@.len()));
                }
                Ok(buf.len())
            },
            None => Ok(0),
        }
    }
}

/// Reading back the bytes just written at an offset of a page gives the
/// bytes written.
pub proof fn lemma_read_back_write(page: Seq<u8>, offset: int, buf: Seq<u8>)
    requires
        0 <= offset,
        offset + buf.len() <= page.len(),
    ensures
        spliced(page, offset, buf).subrange(offset, offset + buf.len()) == buf,
        spliced(page, offset, buf).len() == page.len(),
{
    assert(spliced(page, offset, buf).subrange(offset, offset + buf.len()) =~= buf);
}

/// Committing a branch does not change what reads see.
pub proof fn lemma_commit_keeps_reads<const PAGESIZE: usize>(
    before: Storage<PAGESIZE>,
    after: Storage<PAGESIZE>,
    key: PageKey,
)
    requires
        after.root() == before.root().union_prefer_right(before.branch_layer()),
        after.branch_layer() == Map::<PageKey, [u8; PAGESIZE]>::empty(),
    ensures
        after.page_view(key) == before.page_view(key),
{
}

/// Rolling back a branch restores what reads saw before the branch started:
/// writes on a branch leave the root layer alone, and rolling back empties
/// the branch layer.
pub proof fn lemma_rollback_restores_reads<const PAGESIZE: usize>(
    start: Storage<PAGESIZE>,
    rolled_back: Storage<PAGESIZE>,
    key: PageKey,
)
    requires
        start.wf(),
        !start.on_branch(),
        rolled_back.root() == start.root(),
        rolled_back.branch_layer() == Map::<PageKey, [u8; PAGESIZE]>::empty(),
    ensures
        rolled_back.page_view(key) == start.page_view(key),
{
}

/// Rolling back after a run of writes on a branch restores what reads saw
/// before the branch started, and each file's pages (so its size): `branch` keeps the root layer, every write on
/// the branch keeps it (see `VirtualFile::write`), and `rollback` keeps it and
/// empties the branch layer.
pub proof fn lemma_rollback_after_writes<const PAGESIZE: usize>(
    start: Storage<PAGESIZE>,
    states: Seq<Storage<PAGESIZE>>,
    rolled_back: Storage<PAGESIZE>,
    key: PageKey,
)
    requires
        start.wf(),
        !start.on_branch(),
        states.len() > 0,
        states[0].root() == start.root(),
        forall|i: int|
            0 <= i < states.len() - 1 ==> #[trigger] states[i + 1].root() == states[i].root(),
        rolled_back.root() == states.last().root(),
        rolled_back.branch_layer() == Map::<PageKey, [u8; PAGESIZE]>::empty(),
    ensures
        rolled_back.page_view(key) == start.page_view(key),
        rolled_back.root() == start.root(),
        forall|fd: FileIdx| #[trigger] rolled_back.file_pages(fd) == start.file_pages(fd),
{
    lemma_root_kept(states, states.len() - 1);
    lemma_rollback_restores_reads(start, rolled_back, key);
    assert forall|fd: FileIdx| #[trigger] rolled_back.file_pages(fd) == start.file_pages(fd) by {
        assert(start.branch_layer().dom() =~= Set::<PageKey>::empty());
        assert(rolled_back.file_pages(fd) =~= start.file_pages(fd));
    }
}

/// Each state of a run in which every step keeps the root layer has the
/// first state's root layer.
proof fn lemma_root_kept<const PAGESIZE: usize>(states: Seq<Storage<PAGESIZE>>, k: int)
    requires
        0 <= k < states.len(),
        forall|i: int|
            0 <= i < states.len() - 1 ==> #[trigger] states[i + 1].root() == states[i].root(),
    ensures
        states[k].root() == states[0].root(),
    decreases k,
{
    if k > 0 {
        lemma_root_kept(states, k - 1);
        assert(states[(k - 1) + 1].root() == states[k - 1].root());
    }
}

/// A write changes only the bytes it writes: `spliced` keeps the page's
/// length, holds `buf` at `[offset, offset + buf.len())`, and every other
/// byte as the page held it.
pub proof fn lemma_spliced_bytes(page: Seq<u8>, offset: int, buf: Seq<u8>, i: int)
    requires
        0 <= offset,
        offset + buf.len() <= page.len(),
        0 <= i < page.len(),
    ensures
        spliced(page, offset, buf).len() == page.len(),
        offset <= i < offset + buf.len() ==> spliced(page, offset, buf)[i] == buf[i - offset],
        !(offset <= i < offset + buf.len()) ==> spliced(page, offset, buf)[i] == page[i],
{
}

/// Two writes to one page: the later one's bytes win where they overlap,
/// and the earlier one's bytes stay everywhere else.
pub proof fn lemma_spliced_twice(page: Seq<u8>, o1: int, b1: Seq<u8>, o2: int, b2: Seq<u8>, i: int)
    requires
        0 <= o1,
        o1 + b1.len() <= page.len(),
        0 <= o2,
        o2 + b2.len() <= page.len(),
        0 <= i < page.len(),
    ensures
        spliced(spliced(page, o1, b1), o2, b2)[i] == if o2 <= i < o2 + b2.len() {
            b2[i - o2]
        } else if o1 <= i < o1 + b1.len() {
            b1[i - o1]
        } else {
            page[i]
        },
{
}

} // verus!
