use vstd::prelude::*;
use vstd::utf8::encode_utf8;

use crate::btree::BPlusTree;
use crate::error::DbError;
use crate::heap::{Heap, Tid};
use crate::page::{law_read_back, lemma_only_inserted_readable, lemma_same_page, scan_directory, Page, PAGE_SIZE, SLOT_SIZE};
use crate::row::{
    decode_image,
    encode_field,
    encode_fields,
    encode_row,
    image_complete,
    image_readable,
    image_text_ok,
    law_decode_encode,
    lemma_complete_readable,
    row_fits,
    Row,
    RowView,
};

verus! {

/// `b` is a complete row image with valid text that decodes to `r`.
pub open spec fn holds_row(b: Seq<u8>, r: RowView) -> bool {
    &&& image_complete(b)
    &&& image_text_ok(b)
    &&& decode_image(b) == r
}

/// The live tuples among the first `n` slots of page `p`, in slot order.
pub open spec fn page_scan(p: Page, n: nat) -> Seq<Seq<u8>>
    decreases n,
{
    if n == 0 {
        Seq::empty()
    } else {
        page_scan(p, (n - 1) as nat) + match p.tuple(n - 1) {
            Some(b) => seq![b],
            None => Seq::empty(),
        }
    }
}

/// The live tuples of the first `n` pages of `h`, page by page.
pub open spec fn heap_scan(h: Heap, n: nat) -> Seq<Seq<u8>>
    decreases n,
{
    if n == 0 {
        Seq::empty()
    } else {
        heap_scan(h, (n - 1) as nat) + page_scan(h.page_at(n - 1), h.page_at(n - 1).slot_count())
    }
}

/// All live tuples of `h`, page by page and slot by slot.
pub open spec fn all_tuples(h: Heap) -> Seq<Seq<u8>> {
    heap_scan(h, h.page_count())
}

/// The index that reading the row images `ts` in order builds: each id maps
/// to the last row read with that id.
pub open spec fn rows_of(ts: Seq<Seq<u8>>) -> Map<i64, RowView>
    decreases ts.len(),
{
    if ts.len() == 0 {
        Map::empty()
    } else {
        let r = decode_image(ts.last());
        rows_of(ts.drop_last()).insert(r.id, r)
    }
}

/// `b` is a complete row image with valid text.
pub open spec fn good_image(b: Seq<u8>) -> bool {
    image_complete(b) && image_text_ok(b)
}

/// Tuple address `t1` comes before `t2` in a scan of a heap: by page, then
/// by slot.
pub open spec fn scanned_before(t1: Tid, t2: Tid) -> bool {
    t1.0 < t2.0 || (t1.0 == t2.0 && t1.1 < t2.1)
}

/// The heaps that [`Table::open`] reads without running past the end of a
/// tuple: every tuple that [`Row::decode`] cannot read comes after one that
/// fails to decode, where the scan stops.
pub open spec fn heap_openable(heap: Heap) -> bool {
    forall|t: Tid|
        #[trigger] heap.tuple_at(t) is Some && !image_readable(heap.tuple_at(t)->0) ==> exists|t2: Tid|
            scanned_before(t2, t) && #[trigger] heap.tuple_at(t2) is Some && !good_image(heap.tuple_at(t2)->0)
}

/// A table: rows in a heap, found by id through a B+ tree that maps each id
/// to the address of its row.
pub struct Table {
    heap: Heap,
    index: BPlusTree<Tid>,
    rows: Ghost<Map<i64, RowView>>,
}

impl View for Table {
    type V = Map<i64, RowView>;

    /// Each id to the row stored under it.
    closed spec fn view(&self) -> Map<i64, RowView> {
        self.rows@
    }
}

impl Table {
    /// The heap and the index are well formed, the index knows exactly the
    /// ids of the rows, and each points at an image of its row.
    pub closed spec fn wf(&self) -> bool {
        &&& self.heap.wf()
        &&& self.index.wf()
        &&& self.index@.dom() == self.rows@.dom()
        &&& forall|id: i64| #[trigger]
            self.rows@.contains_key(id) ==> self.rows@[id].id == id && match self.heap.tuple_at(
                self.index@[id],
            ) {
                Some(b) => holds_row(b, self.rows@[id]),
                None => false,
            }
    }

    /// The heap that holds the rows.
    pub closed spec fn spec_heap(&self) -> Heap {
        self.heap
    }

    /// Every live tuple of the heap is the one that the index finds under
    /// the id that the tuple holds: no row image was left behind by a later
    /// insert under the same id.
    pub closed spec fn heap_matches_index(&self) -> bool {
        forall|tid: Tid| #[trigger]
            self.heap.tuple_at(tid) matches Some(b) ==> self.index@.contains_key(decode_image(b).id)
                && self.index@[decode_image(b).id] == tid
    }

    /// An empty table whose index splits nodes above 4 keys.
    pub fn new() -> (t: Self)
        ensures
            t.wf(),
            t@ == Map::<i64, RowView>::empty(),
            t.spec_heap().page_count() == 0,
            t.heap_matches_index(),
            t.spec_heap().only_inserted(),
    {
        let t = Table { heap: Heap::new(), index: BPlusTree::new(4), rows: Ghost(Map::empty()) };
        assert(t.index@.dom() =~= t.rows@.dom());
        t
    }

    /// Stores `row` in the heap and indexes it under its id; a row already
    /// stored under that id is no longer found.  The result is where the
    /// image went.
    pub fn insert(&mut self, row: Row) -> (r: Result<Tid, DbError>)
        requires
            old(self).wf(),
            encode_row(row@).len() + SLOT_SIZE <= PAGE_SIZE,
            old(self).spec_heap().page_count() < u32::MAX,
        ensures
            final(self).wf(),
            r is Ok,
            final(self)@ == old(self)@.insert(row.id, row@),
            final(self).spec_heap().page_count() <= old(self).spec_heap().page_count() + 1,
            r matches Ok(tid) && final(self).spec_heap().tuple_at(tid) == Some(encode_row(row@))
                && old(self).spec_heap().tuple_at(tid) is None
                && forall|t: Tid| t != tid ==> #[trigger] final(self).spec_heap().tuple_at(t)
                == old(self).spec_heap().tuple_at(t),
            r matches Ok(tid) && {
                &&& forall|i: int| 0 <= i < tid.0 ==> !#[trigger] old(self).spec_heap().page_has_room(
                    i,
                    encode_row(row@).len(),
                )
                &&& tid.0 <= old(self).spec_heap().page_count()
                &&& tid.0 < old(self).spec_heap().page_count() ==> old(self).spec_heap().page_has_room(
                    tid.0 as int,
                    encode_row(row@).len(),
                )
            },
            old(self).heap_matches_index() && !old(self)@.contains_key(row.id)
                ==> final(self).heap_matches_index(),
            old(self).spec_heap().only_inserted() ==> final(self).spec_heap().only_inserted(),
    {
        let bytes = row.encode();
        proof {
            lemma_fits_in_page(row@);
            law_decode_encode(row@);
        }
        let tid = match self.heap.insert(&bytes) {
            Ok(tid) => tid,
            Err(e) => {
                proof {
                    assert(false);
                }
                return Err(e);
            },
        };
        let ghost old_index = self.index@;
        self.index.insert(row.id, tid);
        self.rows = Ghost(self.rows@.insert(row.id, row@));
        proof {
            assert(self.index@.dom() =~= self.rows@.dom());
            assert forall|id: i64| #[trigger] self.rows@.contains_key(id) implies self.rows@[id].id == id
                && match self.heap.tuple_at(self.index@[id]) {
                Some(b) => holds_row(b, self.rows@[id]),
                None => false,
            } by {
                if id != row.id {
                    assert(old(self).rows@.contains_key(id));
                    assert(old_index[id] != tid);
                }
            }
            if old(self).heap_matches_index() && !old(self)@.contains_key(row.id) {
                assert forall|t: Tid| #[trigger] self.heap.tuple_at(t) is Some implies {
                    let id = decode_image(self.heap.tuple_at(t)->0).id;
                    self.index@.contains_key(id) && self.index@[id] == t
                } by {
                    if t != tid {
                        let b = self.heap.tuple_at(t)->0;
                        assert(old(self).heap.tuple_at(t) == Some(b));
                        assert(old_index.contains_key(decode_image(b).id));
                    }
                }
            }
        }
        Ok(tid)
    }

    /// The row stored under `id`, if any.
    pub fn get(&self, id: i64) -> (r: Result<Option<Row>, DbError>)
        requires
            self.wf(),
        ensures
            r matches Ok(o) && match o {
                Some(row) => self@.contains_key(id) && row@ == self@[id] && row.id == id,
                None => !self@.contains_key(id),
            },
    {
        let tid = match self.index.get(&id) {
            Some(tid) => tid,
            None => return Ok(None),
        };
        let bytes = self.heap.get(*tid)?;
        match bytes {
            Some(b) => {
                proof {
                    lemma_complete_readable(b@);
                }
                let row = Row::decode(b)?;
                Ok(Some(row))
            },
            None => Ok(None),
        }
    }

    /// Rebuilds the index of a table from the rows stored in `heap`, read
    /// page by page and slot by slot; of several rows with one id the last
    /// one read is the one found.  Fails with a parse error when a row's
    /// text is not valid UTF-8.
    pub fn open(heap: Heap) -> (r: Result<Table, DbError>)
        requires
            heap.wf(),
            heap_openable(heap),
        ensures
            r matches Ok(t) ==> {
                &&& t.wf()
                &&& t.spec_heap() == heap
                &&& t@ == rows_of(all_tuples(heap))
                &&& forall|tid: Tid| #[trigger] heap.tuple_at(tid) matches Some(b) ==> good_image(b)
            },
            r matches Err(e) ==> (exists|tid: Tid| #[trigger] heap.tuple_at(tid) matches Some(b) && !good_image(b))
                && (e matches DbError::Parse(m) && m@ == "UTF-8"@),
    {
        let mut index: BPlusTree<Tid> = BPlusTree::new(4);
        let ghost mut rows: Map<i64, RowView> = Map::empty();
        let ghost mut seen: Seq<Seq<u8>> = Seq::empty();
        let n = heap.num_pages();
        let mut page_no: u32 = 0;
        proof {
            assert(index@.dom() =~= rows.dom());
        }
        while page_no < n
            invariant
                heap.wf(),
                heap_openable(heap),
                n == heap.page_count(),
                page_no <= n,
                seen == heap_scan(heap, page_no as nat),
                rows == rows_of(seen),
                index.wf(),
                index@.dom() == rows.dom(),
                forall|id: i64| #[trigger]
                    rows.contains_key(id) ==> rows[id].id == id && match heap.tuple_at(index@[id]) {
                        Some(b) => holds_row(b, rows[id]),
                        None => false,
                    },
                forall|t: Tid| t.0 < page_no ==> (#[trigger] heap.tuple_at(t) matches Some(b) ==> good_image(b)),
            decreases n - page_no,
        {
            let num_slots = heap.page(page_no).num_slots();
            let ghost page = heap.page_at(page_no as int);
            let mut slot: u16 = 0;
            while slot < num_slots
                invariant
                    heap.wf(),
                    heap_openable(heap),
                    n == heap.page_count(),
                    page_no < n,
                    page == heap.page_at(page_no as int),
                    num_slots == page.slot_count(),
                    slot <= num_slots,
                    seen == heap_scan(heap, page_no as nat) + page_scan(page, slot as nat),
                    rows == rows_of(seen),
                    index.wf(),
                    index@.dom() == rows.dom(),
                    forall|id: i64| #[trigger]
                        rows.contains_key(id) ==> rows[id].id == id && match heap.tuple_at(index@[id]) {
                            Some(b) => holds_row(b, rows[id]),
                            None => false,
                        },
                    forall|t: Tid| (t.0 < page_no || (t.0 == page_no && t.1 < slot)) ==> (#[trigger] heap.tuple_at(t) matches Some(b) ==> good_image(b)),
                decreases num_slots - slot,
            {
                let tid = (page_no, slot);
                let found = heap.get(tid)?;
                let ghost before = seen;
                match found {
                    Some(bytes) => {
                        proof {
                            if !image_readable(bytes@) {
                                assert(heap.tuple_at(tid) is Some && !image_readable(heap.tuple_at(tid)->0));
                                let t2 = choose|t2: Tid| scanned_before(t2, tid) && #[trigger] heap.tuple_at(t2) is Some
                                    && !good_image(heap.tuple_at(t2)->0);
                                assert(good_image(heap.tuple_at(t2)->0));
                            }
                        }
                        let row = match Row::decode(bytes) {
                            Ok(row) => row,
                            Err(e) => {
                                proof {
                                    assert(heap.tuple_at(tid) matches Some(b) && !good_image(b));
                                }
                                return Err(e);
                            },
                        };
                        let ghost old_rows = rows;
                        let ghost old_index = index@;
                        index.insert(row.id, tid);
                        proof {
                            rows = rows.insert(row.id, row@);
                            seen = seen.push(bytes@);
                            assert(seen.drop_last() =~= before);
                            assert(index@.dom() =~= rows.dom());
                            assert forall|id: i64| #[trigger] rows.contains_key(id) implies rows[id].id == id
                                && match heap.tuple_at(index@[id]) {
                                Some(b) => holds_row(b, rows[id]),
                                None => false,
                            } by {
                                if id != row.id {
                                    assert(old_rows.contains_key(id));
                                }
                            }
                        }
                    },
                    None => {},
                }
                proof {
                    assert(page_scan(page, (slot + 1) as nat) == page_scan(page, slot as nat) + match page.tuple(slot as int) {
                        Some(b) => seq![b],
                        None => Seq::<Seq<u8>>::empty(),
                    });
                    if found is None {
                        assert(seen =~= heap_scan(heap, page_no as nat) + page_scan(page, (slot + 1) as nat));
                    } else {
                        assert(seen =~= heap_scan(heap, page_no as nat) + page_scan(page, (slot + 1) as nat));
                    }
                }
                slot = slot + 1;
            }
            proof {
                assert forall|t: Tid| (t.0 < page_no + 1) implies (#[trigger] heap.tuple_at(t) matches Some(b) ==> good_image(b)) by {
                    if t.0 == page_no {
                        page.lemma_tuple_slot(t.1 as int);
                    }
                }
                assert(seen =~= heap_scan(heap, (page_no + 1) as nat));
            }
            page_no = page_no + 1;
        }
        proof {
            assert forall|tid: Tid| #[trigger] heap.tuple_at(tid) is Some implies good_image(heap.tuple_at(tid)->0) by {
                if tid.0 >= page_no {
                    assert(heap.tuple_at(tid) is None);
                }
            }
        }
        Ok(Table { heap, index, rows: Ghost(rows) })
    }

    /// Whether [`Table::open`] can read `heap`: see [`heap_openable`].
    pub fn can_open(heap: &Heap) -> (b: bool)
        requires
            heap.wf(),
        ensures
            b == heap_openable(*heap),
    {
        let n = heap.num_pages();
        let mut seen_bad = false;
        let mut page_no: u32 = 0;
        while page_no < n
            invariant
                heap.wf(),
                n == heap.page_count(),
                page_no <= n,
                seen_bad == exists|t: Tid|
                    t.0 < page_no && #[trigger] heap.tuple_at(t) is Some && !good_image(heap.tuple_at(t)->0),
                forall|t: Tid|
                    t.0 < page_no && #[trigger] heap.tuple_at(t) is Some && !image_readable(heap.tuple_at(t)->0)
                        ==> exists|t2: Tid|
                        scanned_before(t2, t) && #[trigger] heap.tuple_at(t2) is Some && !good_image(heap.tuple_at(t2)->0),
            decreases n - page_no,
        {
            let num_slots = heap.page(page_no).num_slots();
            let ghost page = heap.page_at(page_no as int);
            let mut slot: u16 = 0;
            while slot < num_slots
                invariant
                    heap.wf(),
                    n == heap.page_count(),
                    page_no < n,
                    page == heap.page_at(page_no as int),
                    num_slots == page.slot_count(),
                    slot <= num_slots,
                    seen_bad == exists|t: Tid|
                        (t.0 < page_no || (t.0 == page_no && t.1 < slot)) && #[trigger] heap.tuple_at(t) is Some
                            && !good_image(heap.tuple_at(t)->0),
                    forall|t: Tid|
                        (t.0 < page_no || (t.0 == page_no && t.1 < slot)) && #[trigger] heap.tuple_at(t) is Some
                            && !image_readable(heap.tuple_at(t)->0) ==> exists|t2: Tid|
                            scanned_before(t2, t) && #[trigger] heap.tuple_at(t2) is Some && !good_image(heap.tuple_at(t2)->0),
                decreases num_slots - slot,
            {
                let tid = (page_no, slot);
                let found = match heap.get(tid) {
                    Ok(f) => f,
                    Err(_) => {
                        proof {
                            assert(false);
                        }
                        None
                    },
                };
                match found {
                    Some(bytes) => {
                        if !Row::is_readable(bytes) {
                            if !seen_bad {
                                proof {
                                    assert(heap.tuple_at(tid) is Some && !image_readable(heap.tuple_at(tid)->0));
                                    assert(!(exists|t2: Tid|
                                        scanned_before(t2, tid) && #[trigger] heap.tuple_at(t2) is Some
                                            && !good_image(heap.tuple_at(t2)->0)));
                                }
                                return false;
                            }
                            proof {
                                if image_complete(bytes@) {
                                    lemma_complete_readable(bytes@);
                                }
                                let t0 = choose|t: Tid|
                                    (t.0 < page_no || (t.0 == page_no && t.1 < slot)) && #[trigger] heap.tuple_at(t) is Some
                                        && !good_image(heap.tuple_at(t)->0);
                                assert(scanned_before(t0, tid));
                            }
                        } else {
                            let ok = Row::decode(bytes).is_ok();
                            if !ok {
                                seen_bad = true;
                            }
                        }
                    },
                    None => {},
                }
                slot = slot + 1;
            }
            proof {
                assert forall|t: Tid| t.0 == page_no && #[trigger] heap.tuple_at(t) is Some implies t.1 < num_slots by {
                    page.lemma_tuple_slot(t.1 as int);
                }
            }
            page_no = page_no + 1;
        }
        proof {
            assert forall|t: Tid| #[trigger] heap.tuple_at(t) is Some implies t.0 < n by {}
        }
        true
    }

    /// Whether `row` can be inserted: its image fits in a page and the heap
    /// can take one more page.
    pub fn can_store(&self, row: &Row) -> (b: bool)
        requires
            self.wf(),
        ensures
            b == (encode_row(row@).len() + SLOT_SIZE <= PAGE_SIZE && self.spec_heap().page_count() < u32::MAX),
    {
        let bytes = row.encode();
        bytes.len() <= PAGE_SIZE - SLOT_SIZE && self.heap.num_pages() < u32::MAX
    }

    /// Number of pages of the heap.
    pub fn num_pages(&self) -> (n: u32)
        requires
            self.wf(),
        ensures
            n == self.spec_heap().page_count(),
    {
        self.heap.num_pages()
    }

    /// The heap that holds the rows, for writing its pages out.
    pub fn heap(&self) -> (h: &Heap)
        ensures
            *h == self.spec_heap(),
    {
        &self.heap
    }
}

/// The bytes of a list of fields are at least 4 per field, and at least as
/// many as the UTF-8 bytes of each field.
pub proof fn lemma_fields_len(fs: Seq<Seq<char>>)
    ensures
        encode_fields(fs).len() >= 4 * fs.len(),
        forall|j: int| 0 <= j < fs.len() ==> encode_fields(fs).len() >= #[trigger] encode_utf8(fs[j]).len(),
    decreases fs.len(),
{
    if fs.len() > 0 {
        let rest = fs.drop_first();
        lemma_fields_len(rest);
        vstd::bytes::lemma_auto_spec_u32_to_from_le_bytes();
        assert(encode_field(fs[0]).len() == 4 + encode_utf8(fs[0]).len());
        assert forall|j: int| 0 <= j < fs.len() implies encode_fields(fs).len() >= #[trigger] encode_utf8(fs[j]).len() by {
            if j > 0 {
                assert(fs[j] == rest[j - 1]);
            }
        }
    }
}

/// A row whose image fits in a page has lengths that fit in a `u32`.
pub proof fn lemma_fits_in_page(r: RowView)
    requires
        encode_row(r).len() + SLOT_SIZE <= PAGE_SIZE,
    ensures
        row_fits(r),
{
    lemma_fields_len(r.fields);
    vstd::bytes::lemma_auto_spec_u64_to_from_le_bytes();
    vstd::bytes::lemma_auto_spec_u32_to_from_le_bytes();
    assert(vstd::bytes::spec_u64_to_le_bytes(r.id as u64).len() == 8);
    assert(vstd::bytes::spec_u32_to_le_bytes(r.fields.len() as u32).len() == 4);
}


/// A read after a write: after [`Table::insert`] of a row, [`Table::get`] of
/// its id gives that row, and every other id gives what it gave before.
/// `after` is what the insert leaves when called on `before` with a row
/// whose view is `r`.
pub proof fn law_get_after_insert(before: Table, after: Table, r: RowView, id: i64)
    requires
        after@ == before@.insert(r.id, r),
    ensures
        after@.contains_key(r.id),
        after@[r.id] == r,
        id != r.id ==> (after@.contains_key(id) <==> before@.contains_key(id)),
        id != r.id && before@.contains_key(id) ==> after@[id] == before@[id],
{
}


/// The ids that [`rows_of`] knows are those of the images read, and each is
/// given the row of one of those images.
pub proof fn lemma_rows_of(ts: Seq<Seq<u8>>)
    ensures
        forall|id: i64| #[trigger]
            rows_of(ts).contains_key(id) <==> exists|i: int| 0 <= i < ts.len() && #[trigger] decode_image(ts[i]).id == id,
        forall|id: i64| #[trigger]
            rows_of(ts).contains_key(id) ==> exists|i: int| 0 <= i < ts.len() && #[trigger] decode_image(ts[i]).id == id
                && rows_of(ts)[id] == decode_image(ts[i]),
    decreases ts.len(),
{
    if ts.len() > 0 {
        let init = ts.drop_last();
        lemma_rows_of(init);
        let last = ts.len() - 1;
        assert forall|id: i64| #[trigger]
            rows_of(ts).contains_key(id) implies exists|i: int| 0 <= i < ts.len() && #[trigger] decode_image(ts[i]).id == id
                && rows_of(ts)[id] == decode_image(ts[i]) by {
            assert(ts.last() == ts[last]);
            if decode_image(ts[last]).id == id {
                assert(decode_image(ts[last]).id == id && rows_of(ts)[id] == decode_image(ts[last]));
            } else {
                let i = choose|i: int| 0 <= i < init.len() && #[trigger] decode_image(init[i]).id == id
                    && rows_of(init)[id] == decode_image(init[i]);
                assert(ts[i] == init[i]);
            }
        }
        assert forall|id: i64| (exists|i: int| 0 <= i < ts.len() && #[trigger] decode_image(ts[i]).id == id)
            implies #[trigger] rows_of(ts).contains_key(id) by {
            let i = choose|i: int| 0 <= i < ts.len() && #[trigger] decode_image(ts[i]).id == id;
            assert(ts.last() == ts[last]);
            if i < last {
                assert(init[i] == ts[i]);
                assert(decode_image(init[i]).id == id);
                assert(rows_of(init).contains_key(id));
            }
        }
    }
}

/// Each tuple that [`page_scan`] reads is a live tuple of one of the first
/// `n` slots, and each live tuple among them is read.
pub proof fn lemma_page_scan(p: Page, n: nat)
    ensures
        forall|i: int| 0 <= i < page_scan(p, n).len()
            ==> exists|s: int| 0 <= s < n && #[trigger] p.tuple(s) == Some(#[trigger] page_scan(p, n)[i]),
        forall|s: int| 0 <= s < n && #[trigger] p.tuple(s) is Some ==> page_scan(p, n).contains(p.tuple(s)->0),
    decreases n,
{
    if n > 0 {
        let m = (n - 1) as nat;
        lemma_page_scan(p, m);
        let head = page_scan(p, m);
        let full = page_scan(p, n);
        assert forall|i: int| 0 <= i < full.len()
            implies exists|s: int| 0 <= s < n && #[trigger] p.tuple(s) == Some(#[trigger] full[i]) by {
            if i < head.len() {
                assert(full[i] == head[i]);
            } else {
                assert(p.tuple(m as int) == Some(full[i]));
            }
        }
        assert forall|s: int| 0 <= s < n && #[trigger] p.tuple(s) is Some implies full.contains(p.tuple(s)->0) by {
            if s < m {
                let i = choose|i: int| 0 <= i < head.len() && head[i] == p.tuple(s)->0;
                assert(full[i] == head[i]);
            } else {
                assert(full[head.len() as int] == p.tuple(s)->0);
            }
        }
    }
}

/// Each tuple that [`heap_scan`] reads is a live tuple of one of the first
/// `n` pages, and each live tuple of those pages is read.
pub proof fn lemma_heap_scan(h: Heap, n: nat)
    requires
        h.wf(),
        n <= h.page_count(),
    ensures
        forall|b: Seq<u8>| #[trigger] heap_scan(h, n).contains(b)
            ==> exists|tid: Tid| tid.0 < n && #[trigger] h.tuple_at(tid) == Some(b),
        forall|tid: Tid| tid.0 < n && #[trigger] h.tuple_at(tid) is Some ==> heap_scan(h, n).contains(h.tuple_at(tid)->0),
    decreases n,
{
    if n > 0 {
        let m = (n - 1) as nat;
        lemma_heap_scan(h, m);
        let pg = h.page_at(m as int);
        h.lemma_wf_pages();
        pg.lemma_tuple_slot(0);
        lemma_page_scan(pg, pg.slot_count());
        let head = heap_scan(h, m);
        let tail = page_scan(pg, pg.slot_count());
        let full = heap_scan(h, n);
        assert(full == head + tail);
        assert forall|b: Seq<u8>| #[trigger] full.contains(b)
            implies exists|tid: Tid| tid.0 < n && #[trigger] h.tuple_at(tid) == Some(b) by {
            let i = choose|i: int| 0 <= i < full.len() && full[i] == b;
            if i < head.len() {
                assert(full[i] == head[i]);
                assert(head.contains(b));
            } else {
                let j = i - head.len();
                assert(full[i] == tail[j]);
                let s = choose|s: int| 0 <= s < pg.slot_count() && #[trigger] pg.tuple(s) == Some(tail[j]);
                let tid: Tid = (m as u32, s as u16);
                assert(h.tuple_at(tid) == Some(full[i]));
            }
        }
        assert forall|tid: Tid| tid.0 < n && #[trigger] h.tuple_at(tid) is Some
            implies full.contains(h.tuple_at(tid)->0) by {
            let b = h.tuple_at(tid)->0;
            if tid.0 < m {
                let i = choose|i: int| 0 <= i < head.len() && head[i] == b;
                assert(full[i] == head[i]);
            } else {
                pg.lemma_tuple_slot(tid.1 as int);
                assert(pg.tuple(tid.1 as int) is Some);
                let j = choose|j: int| 0 <= j < tail.len() && tail[j] == b;
                assert(full[head.len() + j] == tail[j]);
            }
        }
    }
}

/// Reopening a table: when every live tuple of a table's heap is the one its
/// index finds (as it is after [`Table::new`] and inserts under ids not yet
/// stored), every tuple of the heap is a complete row image with valid
/// text, so [`Table::open`] of that heap succeeds, and the rows it rebuilds
/// are exactly the rows of the table.
pub proof fn law_reopen_same_rows(t: Table)
    requires
        t.wf(),
        t.heap_matches_index(),
    ensures
        forall|tid: Tid| #[trigger] t.spec_heap().tuple_at(tid) matches Some(b)
            ==> image_complete(b) && image_text_ok(b),
        heap_openable(t.spec_heap()),
        rows_of(all_tuples(t.spec_heap())) == t@,
{
    let h = t.heap;
    let ts = all_tuples(h);
    h.lemma_wf_pages();
    lemma_heap_scan(h, h.page_count());
    lemma_rows_of(ts);
    assert forall|tid: Tid| #[trigger] h.tuple_at(tid) is Some implies image_complete(h.tuple_at(tid)->0)
        && image_text_ok(h.tuple_at(tid)->0) by {
        let id = decode_image(h.tuple_at(tid)->0).id;
        assert(t.rows@.contains_key(id));
    }
    assert forall|id: i64| #[trigger] t.rows@.contains_key(id) implies rows_of(ts).contains_key(id) by {
        let tid = t.index@[id];
        let b = h.tuple_at(tid)->0;
        assert(h.tuple_at(tid) is Some);
        if tid.0 >= h.page_count() {
            assert(h.tuple_at(tid) is None);
        }
        let i = choose|i: int| 0 <= i < ts.len() && ts[i] == b;
        assert(decode_image(ts[i]).id == id);
    }
    assert forall|id: i64| #[trigger] rows_of(ts).contains_key(id) implies t.rows@.contains_key(id)
        && rows_of(ts)[id] == t.rows@[id] by {
        let i = choose|i: int| 0 <= i < ts.len() && #[trigger] decode_image(ts[i]).id == id
            && rows_of(ts)[id] == decode_image(ts[i]);
        assert(ts.contains(ts[i]));
        let tid = choose|tid: Tid| tid.0 < h.page_count() && #[trigger] h.tuple_at(tid) == Some(ts[i]);
        assert(h.tuple_at(tid) is Some);
    }
    assert(rows_of(ts) =~= t.rows@);
    assert forall|tid: Tid| #[trigger] h.tuple_at(tid) is Some implies image_readable(h.tuple_at(tid)->0) by {
        lemma_complete_readable(h.tuple_at(tid)->0);
    }
}

/// Two heaps with the same first `n` pages read the same tuples from them.
proof fn lemma_heap_scan_same(h1: Heap, h2: Heap, n: nat)
    requires
        forall|i: int| 0 <= i < n ==> #[trigger] h1.page_at(i) == h2.page_at(i),
    ensures
        heap_scan(h1, n) == heap_scan(h2, n),
    decreases n,
{
    if n > 0 {
        lemma_heap_scan_same(h1, h2, (n - 1) as nat);
        assert(h1.page_at(n - 1) == h2.page_at(n - 1));
    }
}

/// Reopening a table from disk: when `t` is as in [`law_reopen_same_rows`]
/// and its heap holds only what inserts put there (as after [`Table::new`]
/// and [`Table::insert`]), [`Page::from_bytes`] reads each page of the heap
/// back from its data; a heap `h` that holds, page for page, what was read
/// back holds the same tuples as the heap of `t`, and the rows that
/// [`Table::open`] rebuilds from `h` are the rows of `t`.
pub proof fn law_reopen_from_disk(t: Table, h: Heap)
    requires
        t.wf(),
        t.heap_matches_index(),
        t.spec_heap().only_inserted(),
        h.wf(),
        h.page_count() == t.spec_heap().page_count(),
        forall|i: int| 0 <= i < h.page_count() ==> {
            &&& #[trigger] h.page_at(i).image() == t.spec_heap().page_at(i).image()
            &&& scan_directory(h.page_at(i).image(), 0, PAGE_SIZE as int) == Some(
                (h.page_at(i).slot_count(), h.page_at(i).upper()),
            )
        },
    ensures
        forall|i: int| 0 <= i < t.spec_heap().page_count()
            ==> scan_directory(#[trigger] t.spec_heap().page_at(i).image(), 0, PAGE_SIZE as int) is Some,
        forall|tid: Tid| #[trigger] h.tuple_at(tid) == t.spec_heap().tuple_at(tid),
        forall|tid: Tid| #[trigger] h.tuple_at(tid) matches Some(b) ==> image_complete(b) && image_text_ok(b),
        heap_openable(h),
        rows_of(all_tuples(h)) == t@,
{
    let g = t.spec_heap();
    g.lemma_wf_pages();
    g.lemma_only_inserted_pages();
    h.lemma_wf_pages();
    assert forall|i: int| #![trigger h.page_at(i)] #![trigger g.page_at(i)]
        0 <= i < g.page_count() implies h.page_at(i) == g.page_at(i)
        && scan_directory(g.page_at(i).image(), 0, PAGE_SIZE as int) is Some by {
        let p = g.page_at(i);
        lemma_only_inserted_readable(p);
        law_read_back(p);
        assert(h.page_at(i).image() == p.image());
        lemma_same_page(p, h.page_at(i));
    }
    lemma_heap_scan_same(h, g, g.page_count());
    law_reopen_same_rows(t);
    assert forall|tid: Tid| #[trigger] h.tuple_at(tid) is Some implies image_complete(h.tuple_at(tid)->0)
        && image_text_ok(h.tuple_at(tid)->0) by {
        assert(g.tuple_at(tid) == h.tuple_at(tid));
    }
    assert forall|tid: Tid| #[trigger] h.tuple_at(tid) is Some implies image_readable(h.tuple_at(tid)->0) by {
        lemma_complete_readable(h.tuple_at(tid)->0);
    }
}

} // verus!
