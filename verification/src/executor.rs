use vstd::prelude::*;

use crate::error::DbError;
use crate::page::{PAGE_SIZE, SLOT_SIZE};
use crate::query::{push_char, Stmt, StmtView};
use crate::row::{encode_row, Row, RowView};
use crate::table::Table;

verus! {

/// The digit character for `d`, which is below 10.
pub open spec fn digit_char(d: nat) -> char {
    (d + '0' as nat) as char
}

/// The decimal digits of `m`, most significant first, without leading zeros.
pub open spec fn nat_text(m: nat) -> Seq<char>
    decreases m,
{
    if m < 10 {
        seq![digit_char(m)]
    } else {
        nat_text(m / 10).push(digit_char(m % 10))
    }
}

/// `n` written in decimal, with a `-` when it is negative.
pub open spec fn int_text(n: int) -> Seq<char> {
    if n < 0 {
        seq!['-'] + nat_text((-n) as nat)
    } else {
        nat_text(n as nat)
    }
}

/// What `{:?}` prints for a row with `id` and `fields`.
pub uninterp spec fn row_debug_text(id: i64, fields: Seq<Seq<char>>) -> Seq<char>;

/// `{:?}` of a row: the `Debug` text of the struct.
#[verifier::external_body]
fn debug_text(row: &Row) -> (s: String)
    ensures
        s@ == row_debug_text(row.id, row@.fields),
{
    format!("{:?}", row)
}

/// The character of digit `d`.
fn digit_to_char(d: u64) -> (c: char)
    requires
        d < 10,
    ensures
        c == digit_char(d as nat),
{
    (48u8 + d as u8) as char
}

/// `n` written in decimal: see [`int_text`].
pub fn decimal(n: i64) -> (s: String)
    ensures
        s@ == int_text(n as int),
{
    let mut m: u64 = if n < 0 {
        (0i128 - n as i128) as u64
    } else {
        n as u64
    };
    let ghost total: nat = m as nat;
    let mut rev: Vec<char> = Vec::new();
    while m >= 10
        invariant
            nat_text(total) == nat_text(m as nat) + rev@.reverse(),
        decreases m,
    {
        let c = digit_to_char(m % 10);
        let ghost before = rev@;
        rev.push(c);
        proof {
            assert(rev@.reverse() =~= seq![c] + before.reverse());
            assert(nat_text(m as nat) == nat_text((m / 10) as nat).push(c));
            assert(nat_text(total) =~= nat_text((m / 10) as nat) + rev@.reverse());
        }
        m = m / 10;
    }
    let c = digit_to_char(m);
    let ghost before = rev@;
    rev.push(c);
    proof {
        assert(rev@.reverse() =~= seq![c] + before.reverse());
        assert(nat_text(total) =~= rev@.reverse());
    }
    let mut s = String::new();
    if n < 0 {
        push_char(&mut s, '-');
    }
    let ghost prefix = s@;
    let mut i = rev.len();
    while i > 0
        invariant
            i <= rev@.len(),
            s@ == prefix + rev@.reverse().subrange(0, rev@.len() - i),
        decreases i,
    {
        i = i - 1;
        push_char(&mut s, rev[i]);
        proof {
            assert(rev@.reverse()[rev@.len() - i - 1] == rev@[i as int]);
            assert(s@ =~= prefix + rev@.reverse().subrange(0, rev@.len() - i));
        }
    }
    proof {
        assert(rev@.reverse().subrange(0, rev@.len() as int) =~= rev@.reverse());
        assert(total == if n < 0 { -n } else { n as int });
    }
    s
}

/// What running `s` on a table with rows `before` leaves (`after`) and
/// answers (`r`): an insert stores the row under its id; a select with an
/// id answers the row's `Debug` text or that there is none; a select
/// without an id is not implemented.
pub open spec fn execute_outcome(
    s: StmtView,
    before: Map<i64, RowView>,
    after: Map<i64, RowView>,
    r: Result<String, DbError>,
) -> bool {
    match s {
        StmtView::Insert { id, fields, .. } => {
            &&& after == before.insert(id, RowView { id, fields })
            &&& r matches Ok(m) && m@ == "Inserted row with id="@ + int_text(id as int)
        },
        StmtView::Select { where_id, .. } => {
            &&& after == before
            &&& r matches Ok(m) && match where_id {
                Some(id) => if before.contains_key(id) {
                    m@ == row_debug_text(id, before[id].fields)
                } else {
                    m@ == "Row with id="@ + int_text(id as int) + " not found"@
                },
                None => m@ == "SELECT * not implemented yet"@,
            }
        },
    }
}

/// The inserts that a table can take: the row's image fits in a page and
/// the heap can take one more page.
pub open spec fn executable(s: StmtView, t: &Table) -> bool {
    s matches StmtView::Insert { id, fields, .. } ==> encode_row(RowView { id, fields }).len()
        + SLOT_SIZE <= PAGE_SIZE && t.spec_heap().page_count() < u32::MAX
}

/// Runs a statement against a table: see [`execute_outcome`].
pub fn execute(stmt: Stmt, table: &mut Table) -> (r: Result<String, DbError>)
    requires
        old(table).wf(),
        executable(stmt@, old(table)),
    ensures
        final(table).wf(),
        execute_outcome(stmt@, old(table)@, final(table)@, r),
        old(table).spec_heap().only_inserted() ==> final(table).spec_heap().only_inserted(),
        old(table).heap_matches_index() && !(stmt@ matches StmtView::Insert { id, .. } && old(
            table,
        )@.contains_key(id)) ==> final(table).heap_matches_index(),
{
    match stmt {
        Stmt::Insert { table: _, id, fields } => {
            let row = Row { id, fields };
            proof {
                assert(row@ == RowView { id, fields: row@.fields });
            }
            table.insert(row)?;
            let msg = "Inserted row with id=".to_owned().concat(decimal(id).as_str());
            Ok(msg)
        },
        Stmt::Select { table: _, where_id } => match where_id {
            Some(id) => match table.get(id)? {
                Some(row) => Ok(debug_text(&row)),
                None => {
                    let msg = "Row with id=".to_owned().concat(decimal(id).as_str()).concat(" not found");
                    Ok(msg)
                },
            },
            None => Ok("SELECT * not implemented yet".to_owned()),
        },
    }
}

/// A select after an insert: when an insert of a row with `id` and `fields`
/// takes a table from rows `t0` to `t1`, a select of `id` on `t1` leaves the
/// rows as they are and answers the `Debug` text of that row.
pub proof fn law_select_after_insert(
    t0: Map<i64, RowView>,
    t1: Map<i64, RowView>,
    t2: Map<i64, RowView>,
    insert_table: Seq<char>,
    select_table: Seq<char>,
    id: i64,
    fields: Seq<Seq<char>>,
    r1: Result<String, DbError>,
    r2: Result<String, DbError>,
)
    requires
        execute_outcome(StmtView::Insert { table: insert_table, id, fields }, t0, t1, r1),
        execute_outcome(StmtView::Select { table: select_table, where_id: Some(id) }, t1, t2, r2),
    ensures
        t2 == t1,
        r2 matches Ok(m) && m@ == row_debug_text(id, fields),
{
}

} // verus!
