use vstd::prelude::*;

use crate::journal::{Journal, Scannable};
use crate::lsn::LsnRange;
use crate::page::{
    header_key, header_keys, page_start, serialized_num_pages, serialized_pages,
    strictly_decreasing, Page, PageIdx, PAGESIZE,
};
use crate::storage::{
    be_u32, entry_page, journal_page, page_of, ptrmap_entry_pos, ptrmap_page_of, spec_lsns_after,
    with_change_counter, Storage,
};

verus! {

/// A read of a page that was written and not committed yet gives back the
/// bytes written (with the current file change counter in the database
/// header), whatever range of lsns the read looks at.
pub proof fn lemma_read_after_write<J: Journal>(
    s: Storage<J>,
    range: LsnRange,
    pos: u64,
    data: Seq<u8>,
    read_pos: u64,
    buf: Seq<u8>,
)
    requires
        s.pending().contains_key(page_of(pos)),
        s.pending()[page_of(pos)]@ == data,
        page_of(read_pos) == page_of(pos),
        buf.len() > 0,
        (read_pos % (PAGESIZE as u64)) + buf.len() <= PAGESIZE,
    ensures
        ({
            let off = (read_pos % (PAGESIZE as u64)) as int;
            &&& s.read_finds(range, true, read_pos, buf.len())
            &&& s.read_outcome(range, true, read_pos, buf) == with_change_counter(
                data.subrange(off, off + buf.len()),
                page_of(read_pos),
                off,
                s.change_counter(),
            )
        }),
{
}

/// Writing a page leaves every other page as a read finds it.
pub proof fn lemma_write_keeps_other_pages<J: Journal>(
    before: Storage<J>,
    after: Storage<J>,
    pos: u64,
    range: LsnRange,
    include_pending: bool,
    p: PageIdx,
)
    requires
        after.journal() == before.journal(),
        after.pending().dom() == before.pending().dom().insert(page_of(pos)),
        forall|q: PageIdx|
            q != page_of(pos) && before.pending().contains_key(q) ==> #[trigger] after.pending()[q]
                == before.pending()[q],
        p != page_of(pos),
    ensures
        after.page_source(range, include_pending, p) == before.page_source(range, include_pending, p),
{
}

/// The newest version of a page among entries that agree on `[lo, hi)` is
/// the same.
proof fn lemma_journal_page_same_entries<J: Scannable>(a: J, b: J, lo: int, hi: int, p: PageIdx)
    requires
        forall|lsn: int| lo <= lsn < hi ==> #[trigger] a.entry(lsn) == b.entry(lsn),
    ensures
        journal_page(a, lo, hi, p) == journal_page(b, lo, hi, p),
    decreases hi - lo,
{
    if hi > lo {
        lemma_journal_page_same_entries(a, b, lo, hi - 1, p);
    }
}

/// A well-formed range intersected with itself is itself.
proof fn lemma_intersect_self(r: LsnRange)
    requires
        r.wf(),
        r.has_next(),
    ensures
        r.spec_intersect(r) == r,
{
}

/// The serialized pending pages hold each pending page at its index, and no
/// other page.
proof fn lemma_entry_page_of_serialized(m: Map<PageIdx, Page>, p: PageIdx)
    requires
        m.dom().finite(),
    ensures
        entry_page(serialized_pages(m), p) == if m.contains_key(p) {
            Some(m[p]@)
        } else {
            None::<Seq<u8>>
        },
{
    let c = serialized_pages(m);
    let n = serialized_num_pages(c);
    crate::page::lemma_serialized_read_agrees(m, p, 0, PAGESIZE as int);
    crate::page::lemma_serialized_pages_layout(m);
    if m.contains_key(p) {
        let i = choose|i: int| 0 <= i < n && header_key(c, i) == p;
        assert(c.subrange(page_start(n, i) + 0, page_start(n, i) + 0 + PAGESIZE) == m[p]@.subrange(
            0,
            PAGESIZE as int,
        ));
        assert(m[p]@.subrange(0, PAGESIZE as int) =~= m[p]@);
        assert(c.subrange(page_start(n, i), page_start(n, i) + PAGESIZE) =~= c.subrange(
            page_start(n, i) + 0,
            page_start(n, i) + 0 + PAGESIZE,
        ));
    }
}

/// Committing does not change what SQLite reads: when every committed lsn is
/// visible, each page reads the same before and after a commit (the pending
/// version of a page moves into the journal's newest entry).
pub proof fn lemma_commit_keeps_contents<J: Journal>(
    before: Storage<J>,
    after: Storage<J>,
    p: PageIdx,
)
    requires
        before.inv(),
        before.pending().len() > 0,
        before.visible() == before.journal().lsns(),
        after.inv(),
        after.journal().lsns() == before.journal().lsns().spec_extend_by(1),
        after.journal().entry(before.journal().lsns().hi()) == serialized_pages(before.pending()),
        forall|lsn: int|
            before.journal().lsns().has(lsn) ==> #[trigger] after.journal().entry(lsn)
                == before.journal().entry(lsn),
        after.visible() == after.journal().lsns(),
        after.pending() == Map::<PageIdx, Page>::empty(),
    ensures
        after.page_source(after.visible(), true, p) == before.page_source(before.visible(), true, p),
{
    let bj = before.journal();
    let aj = after.journal();
    bj.lemma_scannable_wf();
    aj.lemma_scannable_wf();
    lemma_intersect_self(bj.lsns());
    lemma_intersect_self(aj.lsns());
    let lo = bj.lsns().lo();
    let hi = bj.lsns().hi();
    assert(aj.lsns().lo() == lo && aj.lsns().hi() == hi + 1);
    before.lemma_pending_finite();
    lemma_entry_page_of_serialized(before.pending(), p);
    lemma_journal_page_same_entries(aj, bj, lo, hi, p);
}

/// After a reset, reads see the newest committed version of every page,
/// over every committed lsn, and no pending page.
pub proof fn lemma_reset_reads_committed<J: Journal>(after: Storage<J>, p: PageIdx)
    requires
        after.inv(),
        after.visible() == after.journal().lsns(),
        after.pending() == Map::<PageIdx, Page>::empty(),
    ensures
        after.page_source(after.visible(), true, p) == journal_page(
            after.journal(),
            after.journal().lsns().lo(),
            after.journal().lsns().hi(),
            p,
        ),
{
    after.journal().lemma_scannable_wf();
    lemma_intersect_self(after.journal().lsns());
}

/// Once `changes` has reported, nothing is left to report: `has_changes`
/// answers no until pages change again.
pub proof fn lemma_changes_leave_nothing<J: Journal>(after: Storage<J>)
    requires
        after.changed() == Set::<PageIdx>::empty(),
        after.changed_roots() == Set::<PageIdx>::empty(),
    ensures
        !(after.changed().len() > 0 || after.changed_roots().len() > 0),
{
}

/// How a ptrmap entry resolves a page (other than page 0, page 1 and the
/// ptrmap pages themselves) to the root page of its b-tree: kind 1 marks a
/// root page, which is its own root; kinds 0 (no entry) and 2 (a free page)
/// belong to no b-tree; every other kind (a b-tree child page, the first or
/// a later overflow page) belongs to the b-tree of the parent page that the
/// entry names, so the page resolves as that parent does.
pub proof fn lemma_ptrmap_kinds<J: Journal>(
    s: Storage<J>,
    range: LsnRange,
    include_pending: bool,
    page: u64,
    entry: Seq<u8>,
    fuel: nat,
)
    requires
        page != 0,
        page != 1,
        ptrmap_page_of(page) != page,
    ensures
        ({
            let e = s.read_outcome(range, include_pending, ptrmap_entry_pos(page), entry);
            let walk = s.root_walk(range, include_pending, page, entry, fuel + 1);
            &&& e[0] == 1 ==> walk == Some(Some(page as PageIdx))
            &&& (e[0] == 0 || e[0] == 2) ==> walk == Some(None::<PageIdx>)
            &&& (e[0] != 0 && e[0] != 1 && e[0] != 2) ==> walk == s.root_walk(
                range,
                include_pending,
                be_u32(e.subrange(1, 5)) as u64,
                e,
                fuel,
            )
        }),
{
}

/// Page 1 is the root of the schema table, and page 0 and the ptrmap pages
/// belong to no b-tree, whatever the ptrmap entries say.
pub proof fn lemma_fixed_roots<J: Journal>(
    s: Storage<J>,
    range: LsnRange,
    include_pending: bool,
    page: u64,
    entry: Seq<u8>,
    fuel: nat,
)
    ensures
        page == 1 ==> s.root_walk(range, include_pending, page, entry, fuel + 1) == Some(Some(1u32)),
        page == 0 || (page != 1 && ptrmap_page_of(page) == page) ==> s.root_walk(
            range,
            include_pending,
            page,
            entry,
            fuel + 1,
        ) == Some(None::<PageIdx>),
{
}

/// The lsns that committing or resetting makes visible are exactly the
/// committed lsns past every visible one: none is skipped and none is seen
/// twice.
pub proof fn lemma_lsns_after_contents(committed: LsnRange, visible: LsnRange, lsn: int)
    requires
        committed.wf(),
        committed.has_next(),
        visible.wf(),
    ensures
        spec_lsns_after(committed, visible).has(lsn) <==> (committed.has(lsn) && lsn >= visible.hi()),
        spec_lsns_after(committed, visible).wf(),
        spec_lsns_after(committed, visible).hi() == committed.hi() || spec_lsns_after(
            committed,
            visible,
        ).count() == 0,
{
}

/// The ptrmap entry of a page (one that is not itself a ptrmap page) lies
/// in the ptrmap page that covers it, which comes before it, and fits in
/// that page; two different pages have their entries at different places.
pub proof fn lemma_ptrmap_entry_place(page: u64, other: u64)
    requires
        2 <= page <= u32::MAX,
        ptrmap_page_of(page) != page,
        2 <= other <= u32::MAX,
        ptrmap_page_of(other) != other,
    ensures
        ptrmap_page_of(page) < page,
        page_of(ptrmap_entry_pos(page)) == ptrmap_page_of(page),
        ptrmap_entry_pos(page) % (PAGESIZE as u64) + 5 <= PAGESIZE,
        other != page ==> ptrmap_entry_pos(other) != ptrmap_entry_pos(page),
{
    let n = (page - 2) / 820;
    let m = (other - 2) / 820;
    assert(n * 820 <= page - 2 < n * 820 + 820) by (nonlinear_arith)
        requires
            n == (page - 2) / 820,
            page >= 2,
    ;
    assert(m * 820 <= other - 2 < m * 820 + 820) by (nonlinear_arith)
        requires
            m == (other - 2) / 820,
            other >= 2,
    ;
    assert(n * 820 + 2 != 262145) by (nonlinear_arith)
        requires
            n >= 0,
    ;
    assert(m * 820 + 2 != 262145) by (nonlinear_arith)
        requires
            m >= 0,
    ;
    let pp = n * 820 + 2;
    let po = m * 820 + 2;
    assert(ptrmap_page_of(page) == pp);
    assert(ptrmap_page_of(other) == po);
    let off = (page - pp - 1) * 5;
    let ooff = (other - po - 1) * 5;
    assert(0 <= off <= 4090);
    assert(0 <= ooff <= 4090);
    assert(ptrmap_entry_pos(page) == (pp - 1) * 4096 + off);
    assert(ptrmap_entry_pos(other) == (po - 1) * 4096 + ooff);
    assert(((pp - 1) * 4096 + off) % 4096 == off && ((pp - 1) * 4096 + off) / 4096 == pp - 1)
        by (nonlinear_arith)
        requires
            0 <= off < 4096,
            pp >= 1,
    ;
    assert(((po - 1) * 4096 + ooff) / 4096 == po - 1) by (nonlinear_arith)
        requires
            0 <= ooff < 4096,
            po >= 1,
    ;
    if other != page && ptrmap_entry_pos(other) == ptrmap_entry_pos(page) {
        assert(po == pp);
        assert(ooff == off);
        assert(false);
    }
}

} // verus!
