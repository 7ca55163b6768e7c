use vstd::prelude::*;
use vstd::slice::{slice_subrange, slice_to_vec};

verus! {

/// Size in bytes of a slotted page.
pub const PAGE_SIZE: usize = 8192;

/// Size in bytes of one slot entry: a little-endian `u16` offset, then a
/// little-endian `u16` length.
pub const SLOT_SIZE: usize = 4;

/// The value of a little-endian `u16` stored in two bytes.
pub open spec fn le_u16(lo: u8, hi: u8) -> int {
    lo as int + 256 * (hi as int)
}

/// Offset stored in slot entry `k` of a page image.
pub open spec fn image_offset(data: Seq<u8>, k: int) -> int {
    le_u16(data[SLOT_SIZE * k], data[SLOT_SIZE * k + 1])
}

/// Length stored in slot entry `k` of a page image.
pub open spec fn image_length(data: Seq<u8>, k: int) -> int {
    le_u16(data[SLOT_SIZE * k + 2], data[SLOT_SIZE * k + 3])
}

/// The total length stored in the first `k` slot entries of a page image,
/// deleted tuples included.
pub open spec fn entries_length(data: Seq<u8>, k: nat) -> int
    decreases k,
{
    if k == 0 {
        0
    } else {
        entries_length(data, (k - 1) as nat) + image_length(data, k - 1)
    }
}

/// Reading the slot directory of a page image from entry `k`, the lowest
/// offset of a live tuple seen so far being `low`.  The tuple area starts
/// below the page end by the length of every tuple in the entries read, a
/// deleted one (offset 0) included; the directory ends at the first entry
/// that is all zeros or where no entry fits before the tuple area.  The
/// result is the number of slots and the start of the tuple area, or `None`
/// when the entries and their tuples do not fit in the page, a live entry
/// reaches past the page end, or a live tuple starts below the tuple area.
pub open spec fn scan_directory(data: Seq<u8>, k: nat, low: int) -> Option<(nat, int)>
    decreases PAGE_SIZE - SLOT_SIZE * k,
{
    let upper = PAGE_SIZE - entries_length(data, k);
    let end = if upper <= low {
        Some((k, upper))
    } else {
        None
    };
    if SLOT_SIZE * k + SLOT_SIZE > upper || SLOT_SIZE * k + SLOT_SIZE > PAGE_SIZE {
        end
    } else {
        let off = image_offset(data, k as int);
        let len = image_length(data, k as int);
        if off == 0 && len == 0 {
            end
        } else if SLOT_SIZE * k + SLOT_SIZE + len > upper {
            None
        } else if off == 0 {
            scan_directory(data, k + 1, low)
        } else if off + len > PAGE_SIZE {
            None
        } else {
            scan_directory(data, k + 1, if off < low { off } else { low })
        }
    }
}

/// Byte `j` of a slot entry for a tuple at `off` of `len` bytes: the offset,
/// then the length, each a little-endian `u16`.
pub open spec fn entry_byte(off: int, len: int, j: int) -> u8 {
    if j == 0 {
        (off % 256) as u8
    } else if j == 1 {
        (off / 256) as u8
    } else if j == 2 {
        (len % 256) as u8
    } else {
        (len / 256) as u8
    }
}

/// Byte `k` of a page image `old`, whose tuple area starts at `upper`,
/// after `bytes` are stored just below `upper` and their slot entry at
/// `pos`: every other byte stays.
pub open spec fn placed_byte(old: Seq<u8>, upper: int, pos: int, bytes: Seq<u8>, k: int) -> u8 {
    let off = upper - bytes.len();
    if off <= k < upper {
        bytes[k - off]
    } else if pos <= k < pos + SLOT_SIZE {
        entry_byte(off, bytes.len() as int, k - pos)
    } else {
        old[k]
    }
}

/// A slotted page: slot entries grow from the start of `data`, tuple bytes
/// grow from its end.  An entry whose offset is 0 marks a deleted tuple.
pub struct Page {
    pub data: [u8; PAGE_SIZE],
    num_slots: u16,
    free_start: u16,
    free_end: u16,
}

impl Page {
    /// Number of slots handed out so far.
    pub closed spec fn slot_count(&self) -> nat {
        self.num_slots as nat
    }

    /// The bytes of the page, as written to disk.
    pub closed spec fn image(&self) -> Seq<u8> {
        self.data@
    }

    /// End of the slot directory.
    pub closed spec fn lower(&self) -> int {
        self.free_start as int
    }

    /// Start of the tuple area.
    pub closed spec fn upper(&self) -> int {
        self.free_end as int
    }

    /// Bytes between the slot directory and the tuple area.
    pub closed spec fn spec_free_space(&self) -> int {
        self.upper() - self.lower()
    }

    /// Offset stored in slot entry `i`.
    pub closed spec fn slot_offset(&self, i: int) -> int {
        le_u16(self.data@[SLOT_SIZE * i], self.data@[SLOT_SIZE * i + 1])
    }

    /// Length stored in slot entry `i`.
    pub closed spec fn slot_length(&self, i: int) -> int {
        le_u16(self.data@[SLOT_SIZE * i + 2], self.data@[SLOT_SIZE * i + 3])
    }

    /// Whether slot `i` names a tuple that has not been deleted.
    pub closed spec fn is_live(&self, i: int) -> bool {
        0 <= i < self.slot_count() && self.slot_offset(i) != 0
    }

    /// The tuple stored in slot `i`, if the slot exists and is live.
    pub closed spec fn tuple(&self, i: int) -> Option<Seq<u8>> {
        if self.is_live(i) {
            Some(
                self.data@.subrange(
                    self.slot_offset(i),
                    self.slot_offset(i) + self.slot_length(i),
                ),
            )
        } else {
            None
        }
    }

    /// The layout invariant of a page.
    pub closed spec fn wf(&self) -> bool {
        &&& self.free_start as int == SLOT_SIZE * self.num_slots
        &&& self.free_start <= self.free_end
        &&& self.free_end as int <= PAGE_SIZE
        &&& forall|i: int|
            0 <= i < self.num_slots ==> #[trigger] self.slot_offset(i) == 0 || (self.free_end
                <= self.slot_offset(i) && self.slot_offset(i) + self.slot_length(i) <= PAGE_SIZE)
    }

    /// The page holds only what inserts put there: no slot was deleted, the
    /// tuple stored last starts the tuple area, and the free space between
    /// the directory and the tuple area is all zeros.
    pub closed spec fn only_inserted(&self) -> bool {
        &&& forall|i: int| 0 <= i < self.num_slots ==> #[trigger] self.slot_offset(i) != 0
        &&& if self.num_slots == 0 {
            self.free_end == PAGE_SIZE
        } else {
            self.slot_offset(self.num_slots - 1) == self.free_end
        }
        &&& forall|k: int| self.free_start <= k < self.free_end ==> #[trigger] self.data@[k] == 0
        &&& self.accounted()
    }

    /// The page can be read back from its image alone: the tuple area is as
    /// large as the tuples ever stored in it ([`Page::accounted`]), the free
    /// space between the directory and the tuple area is all zeros, and no
    /// slot entry is all zeros, which only a deleted empty tuple would leave
    /// and which reads as the end of the directory.
    pub closed spec fn readable_back(&self) -> bool {
        &&& self.accounted()
        &&& forall|k: int| self.free_start <= k < self.free_end ==> #[trigger] self.data@[k] == 0
        &&& forall|i: int|
            0 <= i < self.num_slots ==> !(#[trigger] self.slot_offset(i) == 0 && self.slot_length(i) == 0)
    }

    /// The total length of the tuples stored in the first `k` slots, deleted
    /// ones included.
    pub closed spec fn stored_bytes(&self, k: nat) -> int
        decreases k,
    {
        if k == 0 {
            0
        } else {
            self.stored_bytes((k - 1) as nat) + self.slot_length(k - 1)
        }
    }

    /// The tuple area is exactly as large as the tuples ever stored in the
    /// page: deleting a tuple gives none of its space back.
    pub closed spec fn accounted(&self) -> bool {
        self.free_end == PAGE_SIZE - self.stored_bytes(self.num_slots as nat)
    }

    /// The layout of a well-formed page stays inside it: the free space is
    /// between 0 and the page size, the slot directory and the free space
    /// together fit in the page, and every live tuple lies within the page,
    /// past its first byte.
    pub proof fn lemma_wf_bounds(&self)
        requires
            self.wf(),
        ensures
            0 <= self.spec_free_space() <= PAGE_SIZE,
            SLOT_SIZE * self.slot_count() + self.spec_free_space() <= PAGE_SIZE,
            forall|i: int|
                #![trigger self.tuple(i)]
                self.is_live(i) ==> self.slot_offset(i) >= 1 && self.slot_offset(i)
                    + self.slot_length(i) <= PAGE_SIZE,
    {
    }

    /// Only slots that were handed out hold tuples, and slot numbers fit in
    /// a `u16`.
    pub proof fn lemma_tuple_slot(&self, i: int)
        ensures
            self.tuple(i) is Some ==> 0 <= i < self.slot_count(),
            self.slot_count() <= u16::MAX,
    {
    }

    /// An empty page: no slots, all of it free.
    pub fn new() -> (p: Self)
        ensures
            p.wf(),
            p.slot_count() == 0,
            p.spec_free_space() == PAGE_SIZE,
            forall|i: int| #[trigger] p.tuple(i) == None::<Seq<u8>>,
            p.only_inserted(),
            p.image() == Seq::new(PAGE_SIZE as nat, |i: int| 0u8),
            p.accounted(),
            p.readable_back(),
    {
        Page { data: [0u8; PAGE_SIZE], num_slots: 0, free_start: 0, free_end: PAGE_SIZE as u16 }
    }

    /// Stores `bytes` in a new slot.  Fails, leaving the page as it was, when
    /// the slot entry and the bytes do not fit in the free space.
    #[verifier::rlimit(30)]
    pub fn insert_tuple(&mut self, bytes: &[u8]) -> (r: Option<u16>)
        requires
            old(self).wf(),
        ensures
            final(self).wf(),
            r is None <==> old(self).spec_free_space() < SLOT_SIZE + bytes@.len(),
            r is None ==> *final(self) == *old(self),
            r matches Some(s) ==> {
                &&& s == old(self).slot_count()
                &&& old(self).tuple(s as int) is None
                &&& final(self).slot_count() == old(self).slot_count() + 1
                &&& final(self).tuple(s as int) == Some(bytes@)
                &&& forall|i: int|
                    i != s ==> #[trigger] final(self).tuple(i) == old(self).tuple(i)
                &&& final(self).spec_free_space() == old(self).spec_free_space() - SLOT_SIZE
                    - bytes@.len()
            },
            old(self).only_inserted() ==> final(self).only_inserted(),
            r matches Some(s) ==> {
                &&& final(self).slot_offset(s as int) == old(self).upper() - bytes@.len()
                &&& final(self).upper() == old(self).upper() - bytes@.len()
                &&& final(self).lower() == old(self).lower() + SLOT_SIZE
                &&& final(self).image().len() == PAGE_SIZE
                &&& forall|k: int| 0 <= k < PAGE_SIZE ==> #[trigger] final(self).image()[k] == placed_byte(
                    old(self).image(),
                    old(self).upper(),
                    SLOT_SIZE * s,
                    bytes@,
                    k,
                )
            },
            r matches Some(s) ==> final(self).slot_length(s as int) == bytes@.len() && final(self).stored_bytes(
                final(self).slot_count(),
            ) == old(self).stored_bytes(old(self).slot_count()) + bytes@.len(),
            forall|i: int| 0 <= i < old(self).slot_count() ==> #[trigger] final(self).slot_length(i) == old(self).slot_length(i),
            old(self).accounted() ==> final(self).accounted(),
            old(self).readable_back() ==> final(self).readable_back(),
    {
        let len = bytes.len();
        let avail = (self.free_end - self.free_start) as usize;
        if avail < SLOT_SIZE || len > avail - SLOT_SIZE {
            return None;
        }
        let ghost old_page = *self;
        let slot_idx = self.num_slots;
        let pos = self.free_start as usize;
        let new_end = self.free_end as usize - len;
        let mut j: usize = 0;
        while j < len
            invariant
                self.num_slots == old_page.num_slots,
                self.free_start == old_page.free_start,
                self.free_end == old_page.free_end,
                old_page.free_end <= PAGE_SIZE,
                new_end + len == old_page.free_end,
                j <= len,
                len == bytes@.len(),
                forall|k: int|
                    0 <= k < PAGE_SIZE && !(new_end <= k < new_end + j) ==> #[trigger] self.data@[k]
                        == old_page.data@[k],
                forall|k: int| 0 <= k < j ==> #[trigger] self.data@[new_end + k] == bytes@[k],
            decreases len - j,
        {
            self.data[new_end + j] = bytes[j];
            j = j + 1;
        }
        let ghost copied = self.data@;
        let off = new_end as u16;
        let l = len as u16;
        self.data[pos] = (off % 256) as u8;
        self.data[pos + 1] = (off / 256) as u8;
        self.data[pos + 2] = (l % 256) as u8;
        self.data[pos + 3] = (l / 256) as u8;
        self.free_end = off;
        self.free_start = self.free_start + SLOT_SIZE as u16;
        self.num_slots = self.num_slots + 1;
        proof {
            let s = slot_idx as int;
            assert(self.slot_offset(s) == new_end);
            assert(self.slot_length(s) == len);
            assert forall|i: int| 0 <= i < old_page.num_slots implies self.slot_offset(i)
                == old_page.slot_offset(i) && self.slot_length(i) == old_page.slot_length(i) by {
                assert(SLOT_SIZE * i + 3 < pos);
            }
            assert forall|k: int| 0 <= k < PAGE_SIZE && !(pos <= k < pos + SLOT_SIZE) implies #[trigger] self.data@[k]
                == copied[k] by {}
            assert forall|k: int| 0 <= k < PAGE_SIZE implies #[trigger] self.data@[k] == placed_byte(
                old_page.data@,
                old_page.free_end as int,
                SLOT_SIZE * s,
                bytes@,
                k,
            ) by {
                if new_end <= k < new_end + len {
                    let j = k - new_end;
                    assert(copied[new_end + j] == bytes@[j]);
                    assert(self.data@[k] == copied[k]);
                } else if !(pos <= k < pos + SLOT_SIZE) {
                    assert(copied[k] == old_page.data@[k]);
                }
            }
            assert forall|k: int| 0 <= k < len implies self.data@[new_end + k] == #[trigger] bytes@[k] by {
                assert(copied[new_end + k] == bytes@[k]);
            }
            assert(self.data@.subrange(new_end as int, new_end + len) =~= bytes@);
            assert forall|i: int| 0 <= i < self.num_slots implies #[trigger] self.slot_offset(i) == 0 || (
            self.free_end <= self.slot_offset(i) && self.slot_offset(i) + self.slot_length(i)
                <= PAGE_SIZE) by {
                if i < old_page.num_slots {
                    assert(old_page.slot_offset(i) == 0 || (old_page.free_end <= old_page.slot_offset(i)
                        && old_page.slot_offset(i) + old_page.slot_length(i) <= PAGE_SIZE));
                }
            }
            assert forall|i: int| i != s implies #[trigger] self.tuple(i) == old_page.tuple(i) by {
                if old_page.is_live(i) {
                    let o = old_page.slot_offset(i);
                    let n = old_page.slot_length(i);
                    assert(self.data@.subrange(o, o + n) =~= old_page.data@.subrange(o, o + n));
                }
            }
            lemma_stored_bytes_same(old_page, *self, old_page.num_slots as nat);
            if forall|k: int| old_page.free_start <= k < old_page.free_end ==> #[trigger] old_page.data@[k] == 0 {
                assert forall|k: int| self.free_start <= k < self.free_end implies #[trigger] self.data@[k]
                    == 0 by {
                    assert(copied[k] == old_page.data@[k]);
                    assert(old_page.data@[k] == 0);
                }
            }
            if old_page.readable_back() {
                assert forall|i: int| 0 <= i < self.num_slots implies !(#[trigger] self.slot_offset(i) == 0
                    && self.slot_length(i) == 0) by {
                    if i < old_page.num_slots {
                        assert(!(old_page.slot_offset(i) == 0 && old_page.slot_length(i) == 0));
                    }
                }
            }
            if old_page.only_inserted() {
                assert forall|i: int| 0 <= i < self.num_slots implies #[trigger] self.slot_offset(i) != 0 by {
                    if i < old_page.num_slots {
                        assert(old_page.slot_offset(i) != 0);
                    }
                }
            }
        }
        Some(slot_idx)
    }

    /// The tuple in slot `slot_idx`: `None` for a slot that was never handed
    /// out or whose tuple was deleted.
    pub fn get_tuple(&self, slot_idx: u16) -> (r: Option<&[u8]>)
        requires
            self.wf(),
        ensures
            r matches Some(b) ==> self.tuple(slot_idx as int) == Some(b@),
            r is None ==> self.tuple(slot_idx as int) is None,
    {
        if slot_idx >= self.num_slots {
            return None;
        }
        let pos = slot_idx as usize * SLOT_SIZE;
        let offset = self.data[pos] as usize + self.data[pos + 1] as usize * 256;
        let length = self.data[pos + 2] as usize + self.data[pos + 3] as usize * 256;
        if offset == 0 {
            return None;
        }
        assert(self.slot_offset(slot_idx as int) == offset);
        Some(slice_subrange(self.data.as_slice(), offset, offset + length))
    }

    /// Marks the tuple in slot `slot_idx` deleted and hands back its bytes.
    /// The space it took is not reclaimed.
    pub fn delete_tuple(&mut self, slot_idx: u16) -> (r: Option<Vec<u8>>)
        requires
            old(self).wf(),
        ensures
            final(self).wf(),
            r matches Some(v) ==> old(self).tuple(slot_idx as int) == Some(v@),
            r is None ==> old(self).tuple(slot_idx as int) is None,
            r is None ==> *final(self) == *old(self),
            final(self).tuple(slot_idx as int) is None,
            forall|i: int|
                i != slot_idx ==> #[trigger] final(self).tuple(i) == old(self).tuple(i),
            final(self).slot_count() == old(self).slot_count(),
            final(self).spec_free_space() == old(self).spec_free_space(),
            forall|i: int| 0 <= i < old(self).slot_count() ==> #[trigger] final(self).slot_length(i) == old(self).slot_length(i),
            final(self).stored_bytes(final(self).slot_count()) == old(self).stored_bytes(old(self).slot_count()),
            old(self).accounted() ==> final(self).accounted(),
            old(self).readable_back() && (r matches Some(v) ==> v@.len() > 0) ==> final(self).readable_back(),
    {
        if slot_idx >= self.num_slots {
            return None;
        }
        let pos = slot_idx as usize * SLOT_SIZE;
        let offset = self.data[pos] as usize + self.data[pos + 1] as usize * 256;
        let length = self.data[pos + 2] as usize + self.data[pos + 3] as usize * 256;
        if offset == 0 {
            return None;
        }
        let ghost old_page = *self;
        assert(self.slot_offset(slot_idx as int) == offset);
        let tuple_data = slice_to_vec(slice_subrange(self.data.as_slice(), offset, offset + length));
        self.data[pos] = 0;
        self.data[pos + 1] = 0;
        proof {
            assert forall|i: int| 0 <= i < old_page.num_slots && i != slot_idx implies self.slot_offset(i)
                == old_page.slot_offset(i) && self.slot_length(i) == old_page.slot_length(i) by {
                assert(SLOT_SIZE * i + 3 < pos || SLOT_SIZE * i > pos + 3);
            }
            assert(self.slot_offset(slot_idx as int) == 0);
            assert forall|i: int| 0 <= i < old_page.num_slots implies #[trigger] self.slot_length(i) == old_page.slot_length(i) by {
                assert(SLOT_SIZE * i + 3 < PAGE_SIZE);
                assert(self.data@[SLOT_SIZE * i + 2] == old_page.data@[SLOT_SIZE * i + 2]);
                assert(self.data@[SLOT_SIZE * i + 3] == old_page.data@[SLOT_SIZE * i + 3]);
            }
            lemma_stored_bytes_same(old_page, *self, old_page.num_slots as nat);
            assert forall|i: int| 0 <= i < self.num_slots implies #[trigger] self.slot_offset(i) == 0 || (
            self.free_end <= self.slot_offset(i) && self.slot_offset(i) + self.slot_length(i)
                <= PAGE_SIZE) by {
                if i != slot_idx {
                    assert(old_page.slot_offset(i) == 0 || (old_page.free_end <= old_page.slot_offset(i)
                        && old_page.slot_offset(i) + old_page.slot_length(i) <= PAGE_SIZE));
                }
            }
            assert forall|i: int| i != slot_idx implies #[trigger] self.tuple(i) == old_page.tuple(i) by {
                if old_page.is_live(i) {
                    let o = old_page.slot_offset(i);
                    let n = old_page.slot_length(i);
                    assert(self.data@.subrange(o, o + n) =~= old_page.data@.subrange(o, o + n));
                }
            }
            if old_page.readable_back() && tuple_data@.len() > 0 {
                assert forall|i: int| 0 <= i < self.num_slots implies !(#[trigger] self.slot_offset(i) == 0
                    && self.slot_length(i) == 0) by {
                    if i != slot_idx {
                        assert(!(old_page.slot_offset(i) == 0 && old_page.slot_length(i) == 0));
                    }
                }
                assert forall|k: int| self.free_start <= k < self.free_end implies #[trigger] self.data@[k]
                    == 0 by {
                    assert(old_page.data@[k] == 0);
                }
            }
        }
        Some(tuple_data)
    }

    /// Bytes left between the slot directory and the tuple area.
    pub fn free_space(&self) -> (r: usize)
        requires
            self.wf(),
        ensures
            r == self.spec_free_space(),
    {
        (self.free_end - self.free_start) as usize
    }

    /// Number of slots handed out so far, deleted ones included.
    pub fn num_slots(&self) -> (r: u16)
        ensures
            r == self.slot_count(),
    {
        self.num_slots
    }

    /// The page whose image is `data`, as read back from disk: see
    /// [`scan_directory`].  Fails when the directory is inconsistent.
    pub fn from_bytes(data: [u8; PAGE_SIZE]) -> (r: Option<Page>)
        ensures
            r matches Some(p) ==> {
                &&& p.wf()
                &&& p.accounted()
                &&& p.image() == data@
                &&& scan_directory(data@, 0, PAGE_SIZE as int) == Some((p.slot_count(), p.upper()))
            },
            r is None ==> scan_directory(data@, 0, PAGE_SIZE as int) is None,
    {
        let mut k: usize = 0;
        let mut low: usize = PAGE_SIZE;
        let mut used: usize = 0;
        while SLOT_SIZE * k + SLOT_SIZE <= PAGE_SIZE - used
            invariant
                used == entries_length(data@, k as nat),
                SLOT_SIZE * k + used <= PAGE_SIZE,
                low <= PAGE_SIZE,
                scan_directory(data@, 0, PAGE_SIZE as int) == scan_directory(data@, k as nat, low as int),
                forall|i: int|
                    0 <= i < k ==> #[trigger] image_offset(data@, i) == 0 || (low <= image_offset(data@, i)
                        && image_offset(data@, i) + image_length(data@, i) <= PAGE_SIZE),
            ensures
                used == entries_length(data@, k as nat),
                SLOT_SIZE * k + used <= PAGE_SIZE,
                low <= PAGE_SIZE,
                scan_directory(data@, 0, PAGE_SIZE as int) == (if PAGE_SIZE - used <= low {
                    Some((k as nat, (PAGE_SIZE - used) as int))
                } else {
                    None
                }),
                forall|i: int|
                    0 <= i < k ==> #[trigger] image_offset(data@, i) == 0 || (low <= image_offset(data@, i)
                        && image_offset(data@, i) + image_length(data@, i) <= PAGE_SIZE),
            decreases PAGE_SIZE - SLOT_SIZE * k,
        {
            let pos = SLOT_SIZE * k;
            let off = data[pos] as usize + data[pos + 1] as usize * 256;
            let len = data[pos + 2] as usize + data[pos + 3] as usize * 256;
            assert(off == image_offset(data@, k as int));
            assert(len == image_length(data@, k as int));
            if off == 0 && len == 0 {
                break;
            }
            if pos + SLOT_SIZE + len > PAGE_SIZE - used {
                return None;
            }
            if off != 0 {
                if off + len > PAGE_SIZE {
                    return None;
                }
                if off < low {
                    low = off;
                }
            }
            used = used + len;
            k = k + 1;
        }
        if PAGE_SIZE - used > low {
            return None;
        }
        let p = Page {
            data,
            num_slots: k as u16,
            free_start: (SLOT_SIZE * k) as u16,
            free_end: (PAGE_SIZE - used) as u16,
        };
        proof {
            assert forall|i: int| 0 <= i < p.num_slots implies #[trigger] p.slot_offset(i) == 0 || (p.free_end
                <= p.slot_offset(i) && p.slot_offset(i) + p.slot_length(i) <= PAGE_SIZE) by {
                assert(p.slot_offset(i) == image_offset(data@, i));
                assert(p.slot_length(i) == image_length(data@, i));
            }
            p.lemma_stored_bytes_entries(k as nat);
        }
        Some(p)
    }

    /// The bytes stored in the first `k` slots are the lengths that the
    /// page image records in its first `k` slot entries.
    pub proof fn lemma_stored_bytes_entries(&self, k: nat)
        ensures
            self.stored_bytes(k) == entries_length(self.image(), k),
        decreases k,
    {
        if k > 0 {
            self.lemma_stored_bytes_entries((k - 1) as nat);
        }
    }
}

/// The lowest offset of a live tuple among the first `k` slot entries of
/// `p`, or the page size when none is lower: what [`scan_directory`] has
/// seen after `k` entries.
spec fn lowest_offset(p: Page, k: nat) -> int
    decreases k,
{
    if k == 0 {
        PAGE_SIZE as int
    } else {
        let low = lowest_offset(p, (k - 1) as nat);
        let off = p.slot_offset(k - 1);
        if off != 0 && off < low {
            off
        } else {
            low
        }
    }
}

proof fn lemma_lowest_offset(p: Page, k: nat)
    requires
        p.wf(),
        k <= p.num_slots,
    ensures
        p.free_end <= lowest_offset(p, k) <= PAGE_SIZE,
    decreases k,
{
    if k > 0 {
        lemma_lowest_offset(p, (k - 1) as nat);
        assert(p.slot_offset(k - 1) == 0 || p.free_end <= p.slot_offset(k - 1));
    }
}

/// The lengths recorded in the first `j` slot entries add up to no more
/// than those in the first `k`, for `j <= k`.
proof fn lemma_entries_length_mono(data: Seq<u8>, j: nat, k: nat)
    requires
        j <= k,
    ensures
        0 <= entries_length(data, j) <= entries_length(data, k),
    decreases k,
{
    if k > 0 {
        if j < k {
            lemma_entries_length_mono(data, j, (k - 1) as nat);
        } else {
            lemma_entries_length_mono(data, (k - 1) as nat, (k - 1) as nat);
        }
    }
}

proof fn lemma_scan_from(p: Page, k: nat)
    requires
        p.wf(),
        p.readable_back(),
        k <= p.num_slots,
    ensures
        scan_directory(p.data@, k, lowest_offset(p, k)) == Some((p.slot_count(), p.upper())),
    decreases p.num_slots - k,
{
    lemma_lowest_offset(p, k);
    p.lemma_stored_bytes_entries(p.num_slots as nat);
    let low = lowest_offset(p, k);
    let n = p.num_slots as nat;
    assert(image_offset(p.data@, k as int) == p.slot_offset(k as int));
    assert(image_length(p.data@, k as int) == p.slot_length(k as int));
    if k < p.num_slots {
        lemma_entries_length_mono(p.data@, k + 1, n);
        assert(entries_length(p.data@, k + 1) == entries_length(p.data@, k) + p.slot_length(k as int));
        assert(!(p.slot_offset(k as int) == 0 && p.slot_length(k as int) == 0));
        lemma_scan_from(p, k + 1);
        assert(lowest_offset(p, k + 1) == if p.slot_offset(k as int) != 0 && p.slot_offset(k as int) < low {
            p.slot_offset(k as int)
        } else {
            low
        });
    } else {
        assert(PAGE_SIZE - entries_length(p.data@, k) == p.free_end);
        if SLOT_SIZE * k + SLOT_SIZE <= p.free_end {
            let pos = SLOT_SIZE * k;
            assert(p.data@[pos] == 0);
            assert(p.data@[pos + 1] == 0);
            assert(p.data@[pos + 2] == 0);
            assert(p.data@[pos + 3] == 0);
        }
    }
}

/// A page reads back from its bytes whole, deleted tuples and all: for a
/// page made by [`Page::new`], [`Page::insert_tuple`] and
/// [`Page::delete_tuple`] (with no empty tuple deleted), [`scan_directory`]
/// finds in [`Page::image`] exactly its slots and the start of its tuple
/// area, so [`Page::from_bytes`] of its data gives a page with the same
/// image, slot count and free space, and so the same tuple in every slot.
pub proof fn law_read_back(p: Page)
    requires
        p.wf(),
        p.readable_back(),
    ensures
        scan_directory(p.image(), 0, PAGE_SIZE as int) == Some((p.slot_count(), p.upper())),
{
    lemma_scan_from(p, 0);
}

/// A page that only ever had tuples inserted into it can be read back
/// from its bytes.
pub proof fn lemma_only_inserted_readable(p: Page)
    requires
        p.only_inserted(),
    ensures
        p.readable_back(),
{
}

/// A well-formed page is determined by its image, its number of slots and
/// the start of its tuple area: so the page that [`Page::from_bytes`] reads
/// back from the data of a page covered by [`law_read_back`] is that page.
pub proof fn lemma_same_page(p: Page, q: Page)
    requires
        p.wf(),
        q.wf(),
        p.image() == q.image(),
        p.slot_count() == q.slot_count(),
        p.upper() == q.upper(),
    ensures
        p == q,
{
    assert(p.data =~= q.data);
}

/// Reading a page back from disk gives that page: when `q` is what
/// [`Page::from_bytes`] makes of the data of a page `p` covered by
/// [`law_read_back`], deleted tuples included, `q` is `p`, so it has the
/// same slots, the same tuple in every slot (none in a deleted one) and the
/// same free space.
pub proof fn law_reopen_page(p: Page, q: Page)
    requires
        p.wf(),
        p.readable_back(),
        q.wf(),
        q.image() == p.image(),
        scan_directory(p.image(), 0, PAGE_SIZE as int) == Some((q.slot_count(), q.upper())),
    ensures
        q == p,
        q.slot_count() == p.slot_count(),
        forall|i: int| #[trigger] q.tuple(i) == p.tuple(i),
        q.spec_free_space() == p.spec_free_space(),
{
    law_read_back(p);
    lemma_same_page(p, q);
}

/// Pages whose first `k` slot entries have the same lengths have stored as
/// many bytes in them.
pub proof fn lemma_stored_bytes_same(p: Page, q: Page, k: nat)
    requires
        forall|i: int| 0 <= i < k ==> #[trigger] p.slot_length(i) == q.slot_length(i),
    ensures
        p.stored_bytes(k) == q.stored_bytes(k),
    decreases k,
{
    if k > 0 {
        lemma_stored_bytes_same(p, q, (k - 1) as nat);
        assert(p.slot_length(k - 1) == q.slot_length(k - 1));
    }
}

/// Free space on a page that has only ever been made by [`Page::new`],
/// [`Page::insert_tuple`] and [`Page::delete_tuple`]: it is the page size
/// less a slot entry for every slot handed out and the length of every tuple
/// ever stored, deleted ones included; so the slot entries and those tuples
/// together never exceed the page.
pub proof fn law_free_space(p: Page)
    requires
        p.wf(),
        p.accounted(),
    ensures
        p.spec_free_space() == PAGE_SIZE - SLOT_SIZE * p.slot_count() - p.stored_bytes(p.slot_count()),
        SLOT_SIZE * p.slot_count() + p.stored_bytes(p.slot_count()) <= PAGE_SIZE,
{
}

/// A call made on a page: storing bytes, or deleting the tuple of a slot.
pub enum PageCall {
    Insert(Seq<u8>),
    Delete(u16),
}

/// What the calls made on a page since it was new leave in it: the tuple
/// of each slot handed out, `None` once deleted, and the free space.
pub struct PageModel {
    pub slots: Seq<Option<Seq<u8>>>,
    pub free: int,
}

/// The page that `calls`, made in turn on a new page, leave: an insert
/// takes a new slot and a slot entry plus its bytes of free space when they
/// fit, and otherwise changes nothing; a delete empties a slot that was
/// handed out and gives no space back.
pub open spec fn replay(calls: Seq<PageCall>) -> PageModel
    decreases calls.len(),
{
    if calls.len() == 0 {
        PageModel { slots: Seq::empty(), free: PAGE_SIZE as int }
    } else {
        let m = replay(calls.drop_last());
        match calls.last() {
            PageCall::Insert(b) => if m.free >= SLOT_SIZE + b.len() {
                PageModel { slots: m.slots.push(Some(b)), free: m.free - SLOT_SIZE - b.len() }
            } else {
                m
            },
            PageCall::Delete(s) => if s < m.slots.len() {
                PageModel { slots: m.slots.update(s as int, None), free: m.free }
            } else {
                m
            },
        }
    }
}

/// Page `p1` is what [`Page::insert_tuple`] or [`Page::delete_tuple`]
/// leaves after call `c` on page `p0`, as their contracts say.
pub open spec fn page_call(p0: Page, c: PageCall, p1: Page) -> bool {
    &&& p1.wf()
    &&& match c {
        PageCall::Insert(b) => if p0.spec_free_space() < SLOT_SIZE + b.len() {
            p1 == p0
        } else {
            &&& p1.slot_count() == p0.slot_count() + 1
            &&& p1.tuple(p0.slot_count() as int) == Some(b)
            &&& forall|i: int| i != p0.slot_count() ==> #[trigger] p1.tuple(i) == p0.tuple(i)
            &&& p1.spec_free_space() == p0.spec_free_space() - SLOT_SIZE - b.len()
        },
        PageCall::Delete(s) => {
            &&& p1.slot_count() == p0.slot_count()
            &&& p1.tuple(s as int) is None
            &&& forall|i: int| i != s ==> #[trigger] p1.tuple(i) == p0.tuple(i)
            &&& p1.spec_free_space() == p0.spec_free_space()
        },
    }
}

/// Page `p` holds what model `m` describes.
pub open spec fn holds_model(p: Page, m: PageModel) -> bool {
    &&& p.slot_count() == m.slots.len()
    &&& p.spec_free_space() == m.free
    &&& forall|i: int| #[trigger] p.tuple(i) == if 0 <= i < m.slots.len() {
        m.slots[i]
    } else {
        None
    }
}

proof fn lemma_replay_prefix(pages: Seq<Page>, calls: Seq<PageCall>, n: int)
    requires
        pages.len() == calls.len() + 1,
        0 <= n <= calls.len(),
        holds_model(pages[0], replay(Seq::empty())),
        forall|j: int| 0 <= j < calls.len() ==> page_call(pages[j], #[trigger] calls[j], pages[j + 1]),
    ensures
        holds_model(pages[n], replay(calls.take(n))),
    decreases n,
{
    if n > 0 {
        lemma_replay_prefix(pages, calls, n - 1);
        let m = replay(calls.take(n - 1));
        assert(calls.take(n).drop_last() =~= calls.take(n - 1));
        assert(calls.take(n).last() == calls[n - 1]);
        let p0 = pages[n - 1];
        let p1 = pages[n];
        assert(page_call(p0, calls[n - 1], p1));
        let m1 = replay(calls.take(n));
        match calls[n - 1] {
            PageCall::Insert(b) => {
                if p0.spec_free_space() >= SLOT_SIZE + b.len() {
                    assert forall|i: int| #[trigger] p1.tuple(i) == if 0 <= i < m1.slots.len() {
                        m1.slots[i]
                    } else {
                        None
                    } by {
                        if i != p0.slot_count() {
                            assert(p1.tuple(i) == p0.tuple(i));
                        }
                    }
                }
            },
            PageCall::Delete(s) => {
                assert forall|i: int| #[trigger] p1.tuple(i) == if 0 <= i < m1.slots.len() {
                    m1.slots[i]
                } else {
                    None
                } by {
                    if i != s {
                        assert(p1.tuple(i) == p0.tuple(i));
                    }
                }
            },
        }
    } else {
        assert(calls.take(0) =~= Seq::<PageCall>::empty());
    }
}

/// A page after a run of calls: when `pages` go from a page as
/// [`Page::new`] makes it through one call of `calls` each (as
/// [`page_call`] says of [`Page::insert_tuple`] and [`Page::delete_tuple`]),
/// the last page holds what [`replay`] describes: each slot handed out
/// holds the bytes stored in it unless it was deleted, every other slot is
/// empty, and the free space is the page size less a slot entry and the
/// bytes of every insert that fitted, deleted or not.
pub proof fn law_page_after_calls(pages: Seq<Page>, calls: Seq<PageCall>)
    requires
        pages.len() == calls.len() + 1,
        pages[0].slot_count() == 0,
        pages[0].spec_free_space() == PAGE_SIZE,
        forall|i: int| #[trigger] pages[0].tuple(i) == None::<Seq<u8>>,
        forall|j: int| 0 <= j < calls.len() ==> page_call(pages[j], #[trigger] calls[j], pages[j + 1]),
    ensures
        holds_model(pages.last(), replay(calls)),
{
    let m0 = replay(Seq::<PageCall>::empty());
    assert forall|i: int| #[trigger] pages[0].tuple(i) == if 0 <= i < m0.slots.len() {
        m0.slots[i]
    } else {
        None
    } by {}
    lemma_replay_prefix(pages, calls, calls.len() as int);
    assert(calls.take(calls.len() as int) =~= calls);
}

} // verus!
