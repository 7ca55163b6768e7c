use vstd::prelude::*;

use crate::error::DbError;
use crate::page::{Page, PAGE_SIZE, SLOT_SIZE};

verus! {

/// Address of a tuple: page number, then slot number.
pub type Tid = (u32, u16);

/// A heap of slotted pages, numbered from 0.  A tuple goes into the first
/// page with room for it, or into a new page at the end.
pub struct Heap {
    pages: Vec<Page>,
}

impl Heap {
    /// Every page is well formed and every page number fits in a `u32`.
    pub closed spec fn wf(&self) -> bool {
        &&& self.pages@.len() <= u32::MAX
        &&& forall|i: int| 0 <= i < self.pages@.len() ==> #[trigger] self.pages@[i].wf()
    }

    /// Number of pages.
    pub closed spec fn page_count(&self) -> nat {
        self.pages@.len()
    }

    /// Page number `i`.
    pub closed spec fn page_at(&self, i: int) -> Page {
        self.pages@[i]
    }

    /// The tuple stored at `tid`, if there is one.
    pub open spec fn tuple_at(&self, tid: Tid) -> Option<Seq<u8>> {
        if tid.0 < self.page_count() {
            self.page_at(tid.0 as int).tuple(tid.1 as int)
        } else {
            None
        }
    }

    /// Every page holds only what inserts put there (see
    /// [`Page::only_inserted`]).
    pub closed spec fn only_inserted(&self) -> bool {
        forall|i: int| 0 <= i < self.pages@.len() ==> #[trigger] self.pages@[i].only_inserted()
    }

    /// A well-formed heap has page numbers that fit in a `u32` and
    /// well-formed pages.
    pub proof fn lemma_wf_pages(&self)
        requires
            self.wf(),
        ensures
            self.page_count() <= u32::MAX,
            forall|i: int| 0 <= i < self.page_count() ==> #[trigger] self.page_at(i).wf(),
    {
    }

    /// The pages of a heap that holds only what inserts put there each hold
    /// only what inserts put there.
    pub proof fn lemma_only_inserted_pages(&self)
        requires
            self.only_inserted(),
        ensures
            forall|i: int| 0 <= i < self.page_count() ==> #[trigger] self.page_at(i).only_inserted(),
    {
    }

    /// Whether page `i` has room for a tuple of `len` bytes.
    pub open spec fn page_has_room(&self, i: int, len: nat) -> bool {
        self.page_at(i).spec_free_space() >= SLOT_SIZE + len
    }

    /// A heap without pages.
    pub fn new() -> (h: Self)
        ensures
            h.wf(),
            h.page_count() == 0,
            h.only_inserted(),
    {
        Heap { pages: Vec::new() }
    }

    /// A heap made of the given pages, in order.
    pub fn from_pages(pages: Vec<Page>) -> (h: Self)
        requires
            pages@.len() <= u32::MAX,
            forall|i: int| 0 <= i < pages@.len() ==> #[trigger] pages@[i].wf(),
        ensures
            h.wf(),
            h.page_count() == pages@.len(),
            forall|i: int| 0 <= i < pages@.len() ==> #[trigger] h.page_at(i) == pages@[i],
    {
        Heap { pages }
    }

    /// Stores `bytes` in the first page with room for them, or in a new page
    /// at the end when no page has room.  Every other tuple keeps its place
    /// and its bytes.
    pub fn insert(&mut self, bytes: &[u8]) -> (r: Result<Tid, DbError>)
        requires
            old(self).wf(),
            bytes@.len() + SLOT_SIZE <= crate::page::PAGE_SIZE,
            old(self).page_count() < u32::MAX,
        ensures
            final(self).wf(),
            r matches Ok(tid) && {
                &&& final(self).tuple_at(tid) == Some(bytes@)
                &&& old(self).tuple_at(tid) is None
                &&& forall|t: Tid| t != tid ==> #[trigger] final(self).tuple_at(t) == old(self).tuple_at(t)
                &&& forall|i: int| 0 <= i < tid.0 ==> !old(self).page_has_room(i, bytes@.len())
                &&& forall|i: int|
                    0 <= i < old(self).page_count() && i != tid.0 ==> #[trigger] final(self).page_at(i)
                        == old(self).page_at(i)
                &&& final(self).page_at(tid.0 as int).spec_free_space() == (if tid.0 < old(self).page_count() {
                    old(self).page_at(tid.0 as int).spec_free_space()
                } else {
                    PAGE_SIZE as int
                }) - SLOT_SIZE - bytes@.len()
                &&& if tid.0 < old(self).page_count() {
                    &&& old(self).page_has_room(tid.0 as int, bytes@.len())
                    &&& final(self).page_count() == old(self).page_count()
                    &&& tid.1 == old(self).page_at(tid.0 as int).slot_count()
                } else {
                    &&& tid.0 == old(self).page_count()
                    &&& final(self).page_count() == old(self).page_count() + 1
                    &&& tid.1 == 0
                }
            },
            old(self).only_inserted() ==> final(self).only_inserted(),
    {
        let mut i: usize = 0;
        while i < self.pages.len()
            invariant
                self.wf(),
                self.pages@ == old(self).pages@,
                bytes@.len() + SLOT_SIZE <= crate::page::PAGE_SIZE,
                0 <= i <= self.pages@.len(),
                forall|j: int| 0 <= j < i ==> !old(self).page_has_room(j, bytes@.len()),
            decreases self.pages@.len() - i,
        {
            let ghost before = self.pages@[i as int];
            let mut page = Page::new();
            self.pages.set_and_swap(i, &mut page);
            let slot = page.insert_tuple(bytes);
            self.pages.set(i, page);
            match slot {
                Some(s) => {
                    let tid = (i as u32, s);
                    proof {
                        assert forall|t: Tid| t != tid implies #[trigger] self.tuple_at(t) == old(self).tuple_at(t) by {
                            if t.0 == i {
                                assert(t.1 != s);
                            }
                        }
                        assert forall|j: int| 0 <= j < self.pages@.len() implies #[trigger] self.pages@[j].wf()
                            && (old(self).only_inserted() ==> self.pages@[j].only_inserted()) by {
                            if j != i {
                                assert(self.pages@[j] == old(self).pages@[j]);
                            }
                        }
                        assert(old(self).tuple_at(tid) is None);
                    }
                    return Ok(tid);
                },
                None => {
                    proof {
                        assert(self.pages@ =~= old(self).pages@);
                    }
                },
            }
            i = i + 1;
        }
        let mut new_page = Page::new();
        let slot = new_page.insert_tuple(bytes);
        let s = match slot {
            Some(s) => s,
            None => {
                proof {
                    assert(false);
                }
                0
            },
        };
        self.pages.push(new_page);
        let tid = (i as u32, s);
        proof {
            assert forall|t: Tid| t != tid implies #[trigger] self.tuple_at(t) == old(self).tuple_at(t) by {
                if t.0 < i {
                    assert(self.pages@[t.0 as int] == old(self).pages@[t.0 as int]);
                } else if t.0 == i {
                    assert(t.1 != s);
                }
            }
            assert forall|j: int| 0 <= j < self.pages@.len() implies #[trigger] self.pages@[j].wf()
                && (old(self).only_inserted() ==> self.pages@[j].only_inserted()) by {
                if j < i {
                    assert(self.pages@[j] == old(self).pages@[j]);
                }
            }
        }
        Ok(tid)
    }

    /// The tuple at `tid`: `None` for a page number past the last page, a
    /// slot that was never handed out, or a deleted tuple.
    pub fn get(&self, tid: Tid) -> (r: Result<Option<&[u8]>, DbError>)
        requires
            self.wf(),
        ensures
            r matches Ok(o) && match o {
                Some(b) => self.tuple_at(tid) == Some(b@),
                None => self.tuple_at(tid) is None,
            },
    {
        let (page_no, slot) = tid;
        if page_no as usize >= self.pages.len() {
            return Ok(None);
        }
        Ok(self.pages[page_no as usize].get_tuple(slot))
    }

    /// The page that [`Heap::insert`] puts a tuple of `len` bytes into: the
    /// first page with room for it, or the number of pages when none has.
    pub fn first_fit(&self, len: usize) -> (p: u32)
        requires
            self.wf(),
        ensures
            forall|i: int| 0 <= i < p ==> !self.page_has_room(i, len as nat),
            p < self.page_count() ==> self.page_has_room(p as int, len as nat),
            p <= self.page_count(),
    {
        let mut i: usize = 0;
        while i < self.pages.len()
            invariant
                self.wf(),
                0 <= i <= self.pages@.len(),
                forall|j: int| 0 <= j < i ==> !self.page_has_room(j, len as nat),
            decreases self.pages@.len() - i,
        {
            let free = self.pages[i].free_space();
            if free >= SLOT_SIZE && len <= free - SLOT_SIZE {
                return i as u32;
            }
            i = i + 1;
        }
        i as u32
    }

    /// Number of pages.
    pub fn num_pages(&self) -> (n: u32)
        requires
            self.wf(),
        ensures
            n == self.page_count(),
    {
        self.pages.len() as u32
    }

    /// Page number `page_no`, as it would be written out.
    pub fn page(&self, page_no: u32) -> (p: &Page)
        requires
            page_no < self.page_count(),
        ensures
            *p == self.page_at(page_no as int),
    {
        &self.pages[page_no as usize]
    }
}

} // verus!
