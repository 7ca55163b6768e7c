use vstd::prelude::*;
use vstd::bytes::{spec_u32_from_le_bytes, spec_u32_to_le_bytes, u32_to_le_bytes};

use crate::error::DbError;
use crate::page::{PAGE_SIZE, SLOT_SIZE};
use crate::row::{decode_image, encode_row, image_complete, image_text_ok, law_decode_encode, Row, RowView};
use crate::heap::Tid;
use crate::table::Table;

verus! {

/// A write-ahead log record for inserting `r`: the length of the row's
/// image as a little-endian `u32`, then the image.
pub open spec fn insert_record(r: RowView) -> Seq<u8> {
    spec_u32_to_le_bytes(encode_row(r).len() as u32) + encode_row(r)
}

/// The bytes to append to the write-ahead log for an insert of `row`.
pub fn wal_record(row: &Row) -> (rec: Vec<u8>)
    ensures
        rec@ == insert_record(row@),
{
    let mut bytes = row.encode();
    let mut rec = u32_to_le_bytes(bytes.len() as u32);
    rec.append(&mut bytes);
    rec
}

/// The rows of a table after inserting `rows` in order into `m`.
pub open spec fn apply_rows(m: Map<i64, RowView>, rows: Seq<RowView>) -> Map<i64, RowView>
    decreases rows.len(),
{
    if rows.len() == 0 {
        m
    } else {
        apply_rows(m, rows.drop_last()).insert(rows.last().id, rows.last())
    }
}

/// The ids of `rows` are distinct and none of them is in `m`.
pub open spec fn fresh_ids(m: Map<i64, RowView>, rows: Seq<RowView>) -> bool {
    &&& forall|j: int| 0 <= j < rows.len() ==> !m.contains_key(#[trigger] rows[j].id)
    &&& forall|j: int, k: int| 0 <= j < k < rows.len() ==> #[trigger] rows[j].id != #[trigger] rows[k].id
}

/// The ids after inserting `rows` into `m`: those of `m` and those of the
/// rows.
pub proof fn lemma_apply_rows_dom(m: Map<i64, RowView>, rows: Seq<RowView>, id: i64)
    ensures
        apply_rows(m, rows).contains_key(id) <==> m.contains_key(id) || exists|j: int|
            0 <= j < rows.len() && #[trigger] rows[j].id == id,
    decreases rows.len(),
{
    if rows.len() > 0 {
        let rest = rows.drop_last();
        lemma_apply_rows_dom(m, rest, id);
        if exists|j: int| 0 <= j < rest.len() && #[trigger] rest[j].id == id {
            let j = choose|j: int| 0 <= j < rest.len() && #[trigger] rest[j].id == id;
            assert(rows[j] == rest[j]);
        }
        if exists|j: int| 0 <= j < rows.len() && #[trigger] rows[j].id == id {
            let j = choose|j: int| 0 <= j < rows.len() && #[trigger] rows[j].id == id;
            if j < rest.len() {
                assert(rest[j] == rows[j]);
            } else {
                assert(rows.last() == rows[j]);
            }
        }
    }
}

/// The next step of a commit: write and sync log record `i`, apply the
/// buffered rows to the table, or stop.
#[derive(PartialEq, Eq, Structural)]
pub enum CommitStep {
    Log(usize),
    Apply,
    Done,
}

/// The step that [`Transaction::next_step`] gives for a transaction of `n`
/// rows with `logged` records written and the rows applied or not.
pub open spec fn commit_step(n: nat, logged: nat, applied: bool) -> CommitStep {
    if applied {
        CommitStep::Done
    } else if logged < n {
        CommitStep::Log(logged as usize)
    } else {
        CommitStep::Apply
    }
}

/// The steps of a commit of `n` rows taken from `logged` records written
/// and the rows applied or not, `k` of them: writing a record counts it as
/// written, applying marks the rows applied, and nothing follows done.
pub open spec fn commit_run(n: nat, logged: nat, applied: bool, k: nat) -> Seq<CommitStep>
    decreases k,
{
    if k == 0 {
        Seq::empty()
    } else {
        let s = commit_step(n, logged, applied);
        match s {
            CommitStep::Log(_) => seq![s] + commit_run(n, logged + 1, applied, (k - 1) as nat),
            CommitStep::Apply => seq![s] + commit_run(n, logged, true, (k - 1) as nat),
            CommitStep::Done => seq![s],
        }
    }
}

/// Write-ahead order: a commit of `n` rows, from no record written, writes
/// the log records 0 to `n - 1` in order, then applies the rows, then is
/// done; the rows are applied only after every record is written.
pub proof fn law_log_before_apply(n: nat)
    requires
        n <= usize::MAX,
    ensures
        commit_run(n, 0, false, n + 2) == Seq::new(n, |i: int| CommitStep::Log(i as usize)).push(CommitStep::Apply).push(
            CommitStep::Done,
        ),
{
    lemma_commit_run(n, 0);
    assert(Seq::new((n - 0) as nat, |i: int| CommitStep::Log((i + 0) as usize)) =~= Seq::new(n, |i: int| CommitStep::Log(i as usize)));
}

proof fn lemma_commit_run(n: nat, logged: nat)
    requires
        logged <= n <= usize::MAX,
    ensures
        commit_run(n, logged, false, (n - logged + 2) as nat) == Seq::new((n - logged) as nat, |i: int| CommitStep::Log((i + logged) as usize)).push(
            CommitStep::Apply,
        ).push(CommitStep::Done),
    decreases n - logged,
{
    let lhs = commit_run(n, logged, false, (n - logged + 2) as nat);
    let rhs = Seq::new((n - logged) as nat, |i: int| CommitStep::Log((i + logged) as usize)).push(CommitStep::Apply).push(CommitStep::Done);
    if logged < n {
        lemma_commit_run(n, logged + 1);
        let rest = commit_run(n, logged + 1, false, (n - logged - 1 + 2) as nat);
        assert(lhs == seq![CommitStep::Log(logged as usize)] + rest);
        assert(lhs =~= rhs);
    } else {
        assert(commit_run(n, logged, true, 1) == seq![CommitStep::Done]);
        assert(lhs =~= rhs);
    }
}

/// A transaction: rows buffered until commit, when they are logged and
/// then applied to the table in order.
pub struct Transaction {
    pending: Vec<Row>,
}

impl Transaction {
    /// The rows buffered so far, in order.
    pub closed spec fn pending_rows(&self) -> Seq<RowView> {
        self.pending@.map_values(|r: Row| r@)
    }

    /// A transaction with nothing buffered.
    pub fn begin() -> (t: Self)
        ensures
            t.pending_rows() == Seq::<RowView>::empty(),
    {
        let t = Transaction { pending: Vec::new() };
        assert(t.pending_rows() =~= Seq::<RowView>::empty());
        t
    }

    /// Buffers `row`; nothing reaches the table before the commit.
    pub fn insert(&mut self, row: Row)
        ensures
            final(self).pending_rows() == old(self).pending_rows().push(row@),
    {
        let ghost r = row@;
        self.pending.push(row);
        assert(self.pending_rows() =~= old(self).pending_rows().push(r));
    }

    /// The log records of the buffered rows, in order: each must be written
    /// to the log before [`Transaction::commit`] applies the rows.
    pub fn records(&self) -> (recs: Vec<Vec<u8>>)
        ensures
            recs@.len() == self.pending_rows().len(),
            forall|i: int| 0 <= i < recs@.len() ==> #[trigger] recs@[i]@ == insert_record(self.pending_rows()[i]),
    {
        let mut recs: Vec<Vec<u8>> = Vec::new();
        let mut i: usize = 0;
        while i < self.pending.len()
            invariant
                0 <= i <= self.pending@.len(),
                recs@.len() == i,
                forall|j: int| 0 <= j < i ==> #[trigger] recs@[j]@ == insert_record(self.pending_rows()[j]),
            decreases self.pending@.len() - i,
        {
            recs.push(wal_record(&self.pending[i]));
            i = i + 1;
        }
        recs
    }

    /// Whether the table can take every buffered row: each image fits in a
    /// page, and the heap can take one more page per row.
    pub open spec fn fits(&self, t: &Table) -> bool {
        &&& t.spec_heap().page_count() + self.pending_rows().len() < u32::MAX
        &&& forall|i: int| 0 <= i < self.pending_rows().len() ==> encode_row(#[trigger] self.pending_rows()[i]).len() + SLOT_SIZE <= PAGE_SIZE
    }

    /// Whether the table can take every buffered row: see
    /// [`Transaction::fits`].
    pub fn can_commit(&self, table: &Table) -> (b: bool)
        requires
            table.wf(),
        ensures
            b == self.fits(table),
    {
        let pages = table.num_pages();
        if self.pending.len() >= (u32::MAX - pages) as usize {
            return false;
        }
        let mut i: usize = 0;
        while i < self.pending.len()
            invariant
                0 <= i <= self.pending@.len(),
                forall|j: int| 0 <= j < i ==> encode_row(#[trigger] self.pending_rows()[j]).len() + SLOT_SIZE <= PAGE_SIZE,
            decreases self.pending@.len() - i,
        {
            let image = self.pending[i].encode();
            if !(image.len() <= PAGE_SIZE - SLOT_SIZE) {
                proof {
                    assert(self.pending_rows()[i as int] == self.pending@[i as int]@);
                }
                return false;
            }
            proof {
                assert(self.pending_rows()[i as int] == self.pending@[i as int]@);
            }
            i = i + 1;
        }
        true
    }

    /// Applies the buffered rows to `table`, in order.  The result is where
    /// each row's image went, in the same order.
    pub fn commit(self, table: &mut Table) -> (r: Result<Vec<Tid>, DbError>)
        requires
            old(table).wf(),
            self.fits(old(table)),
        ensures
            final(table).wf(),
            final(table)@ == apply_rows(old(table)@, self.pending_rows()),
            r matches Ok(tids) && tids@.len() == self.pending_rows().len() && forall|i: int|
                0 <= i < tids@.len() ==> #[trigger] final(table).spec_heap().tuple_at(tids@[i]) == Some(
                    encode_row(self.pending_rows()[i]),
                ),
            old(table).spec_heap().only_inserted() ==> final(table).spec_heap().only_inserted(),
            old(table).heap_matches_index() && fresh_ids(old(table)@, self.pending_rows())
                ==> final(table).heap_matches_index(),
    {
        let ghost rows = self.pending_rows();
        let mut pending = self.pending;
        assert(forall|j: int| 0 <= j < pending@.len() ==> #[trigger] pending@[j]@ == rows[j]);
        let mut tids: Vec<Tid> = Vec::new();
        let mut i: usize = 0;
        let n = pending.len();
        while i < n
            invariant
                tids@.len() == i,
                forall|j: int| 0 <= j < i ==> #[trigger] table.spec_heap().tuple_at(tids@[j]) == Some(encode_row(rows[j])),
                n == pending@.len(),
                rows.len() == n,
                forall|j: int| i <= j < n ==> #[trigger] pending@[j]@ == rows[j],
                0 <= i <= n,
                table.wf(),
                table.spec_heap().page_count() <= old(table).spec_heap().page_count() + i,
                old(table).spec_heap().page_count() + n < u32::MAX,
                forall|j: int| 0 <= j < n ==> encode_row(#[trigger] rows[j]).len() + SLOT_SIZE <= PAGE_SIZE,
                table@ == apply_rows(old(table)@, rows.take(i as int)),
                old(table).spec_heap().only_inserted() ==> table.spec_heap().only_inserted(),
                old(table).heap_matches_index() && fresh_ids(old(table)@, rows) ==> table.heap_matches_index(),
            decreases n - i,
        {
            let mut row = Row { id: 0, fields: Vec::new() };
            pending.set_and_swap(i, &mut row);
            proof {
                assert(row@ == rows[i as int]);
            }
            let ghost before = table.spec_heap();
            proof {
                lemma_apply_rows_dom(old(table)@, rows.take(i as int), row.id);
                if fresh_ids(old(table)@, rows) {
                    assert forall|j: int| 0 <= j < rows.take(i as int).len() implies #[trigger] rows.take(
                        i as int,
                    )[j].id != row.id by {
                        assert(rows.take(i as int)[j] == rows[j]);
                    }
                }
            }
            let tid = match table.insert(row) {
                Ok(tid) => tid,
                Err(e) => {
                    proof {
                        assert(false);
                    }
                    return Err(e);
                },
            };
            proof {
                assert(rows.take(i + 1).drop_last() =~= rows.take(i as int));
                assert forall|j: int| 0 <= j < i implies #[trigger] table.spec_heap().tuple_at(tids@[j]) == Some(encode_row(rows[j])) by {
                    assert(before.tuple_at(tids@[j]) is Some);
                    assert(tids@[j] != tid);
                }
            }
            tids.push(tid);
            i = i + 1;
        }
        proof {
            assert(rows.take(n as int) =~= rows);
        }
        Ok(tids)
    }

    /// What a commit of this transaction does next, with `logged` of its log
    /// records known to be written and synced, and the rows applied or not:
    /// the next record is written while any is left; the rows are applied
    /// only once every record is written; then the commit is done.
    pub fn next_step(&self, logged: usize, applied: bool) -> (a: CommitStep)
        ensures
            a == commit_step(self.pending_rows().len(), logged as nat, applied),
    {
        if applied {
            CommitStep::Done
        } else if logged < self.pending.len() {
            CommitStep::Log(logged)
        } else {
            CommitStep::Apply
        }
    }

    /// Drops the buffered rows: the table is left as it was.
    pub fn rollback(self) {
    }
}


/// A log record holds its row: its first four bytes give the length of
/// the rest, and the rest is an image that decodes to the row, for every
/// row that fits in a page.
pub proof fn law_record_holds_row(r: RowView)
    requires
        encode_row(r).len() + SLOT_SIZE <= PAGE_SIZE,
    ensures
        insert_record(r).len() >= 4,
        spec_u32_from_le_bytes(insert_record(r).subrange(0, 4)) == insert_record(r).len() - 4,
        image_complete(insert_record(r).subrange(4, insert_record(r).len() as int)),
        image_text_ok(insert_record(r).subrange(4, insert_record(r).len() as int)),
        decode_image(insert_record(r).subrange(4, insert_record(r).len() as int)) == r,
{
    crate::table::lemma_fits_in_page(r);
    law_decode_encode(r);
    vstd::bytes::lemma_auto_spec_u32_to_from_le_bytes();
    let rec = insert_record(r);
    let img = encode_row(r);
    let hdr = spec_u32_to_le_bytes(img.len() as u32);
    assert(hdr.len() == 4);
    assert(rec.subrange(0, 4) =~= hdr);
    assert(rec.subrange(4, rec.len() as int) =~= img);
}

/// A commit leaves each committed row findable when no later row in the
/// transaction has its id, and leaves the rows of every other id as they
/// were.
pub proof fn law_commit_last_wins(m: Map<i64, RowView>, rows: Seq<RowView>, i: int, id: i64)
    requires
        0 <= i < rows.len(),
        forall|j: int| i < j < rows.len() ==> #[trigger] rows[j].id != rows[i].id,
        forall|j: int| 0 <= j < rows.len() ==> #[trigger] rows[j].id != id,
    ensures
        apply_rows(m, rows).contains_key(rows[i].id),
        apply_rows(m, rows)[rows[i].id] == rows[i],
        apply_rows(m, rows).contains_key(id) == m.contains_key(id),
        m.contains_key(id) ==> apply_rows(m, rows)[id] == m[id],
    decreases rows.len(),
{
    let last = rows.len() - 1;
    if i < last {
        let rest = rows.drop_last();
        assert forall|j: int| i < j < rest.len() implies #[trigger] rest[j].id != rest[i].id by {
            assert(rest[j] == rows[j]);
        }
        assert forall|j: int| 0 <= j < rest.len() implies #[trigger] rest[j].id != id by {
            assert(rest[j] == rows[j]);
        }
        law_commit_last_wins(m, rest, i, id);
        assert(rows[last].id != rows[i].id);
        assert(rows[last].id != id);
    } else {
        if rows.len() > 1 {
            let rest = rows.drop_last();
            assert forall|j: int| 0 <= j < rest.len() implies #[trigger] rest[j].id != id by {
                assert(rest[j] == rows[j]);
            }
            law_commit_keeps_others(m, rest, id);
        } else {
            assert(rows.drop_last() =~= Seq::<RowView>::empty());
            assert(apply_rows(m, rows.drop_last()) == m);
        }
        assert(rows[last].id != id);
    }
}

/// A commit leaves the row of an id that none of its rows has as it was.
pub proof fn law_commit_keeps_others(m: Map<i64, RowView>, rows: Seq<RowView>, id: i64)
    requires
        forall|j: int| 0 <= j < rows.len() ==> #[trigger] rows[j].id != id,
    ensures
        apply_rows(m, rows).contains_key(id) == m.contains_key(id),
        m.contains_key(id) ==> apply_rows(m, rows)[id] == m[id],
    decreases rows.len(),
{
    if rows.len() > 0 {
        let rest = rows.drop_last();
        assert forall|j: int| 0 <= j < rest.len() implies #[trigger] rest[j].id != id by {
            assert(rest[j] == rows[j]);
        }
        law_commit_keeps_others(m, rest, id);
        assert(rows[rows.len() - 1].id != id);
    }
}

} // verus!
