//! The lookup table from track identifiers to tracks, built once for a batch.

use std::collections::HashMap;
use vstd::prelude::*;

verus! {

/// One track as it was read from a batch: its identifier and the time values
/// of its points, in the order of the points.
#[derive(Debug, PartialEq, Eq)]
pub struct TrackRecord {
    pub id: i32,
    pub times: Vec<i64>,
}

/// Puts together what was read of one row of a batch.  The row holds a
/// track only where its identifier, both coordinate lists and its time
/// values could all be read; a row with a field that could not be read is
/// dropped, and the batch goes on without it.
pub fn read_track(
    id: Option<i32>,
    xs_read: bool,
    ys_read: bool,
    times: Option<Vec<i64>>,
) -> (row: Option<TrackRecord>)
    ensures
        row is Some <==> id is Some && xs_read && ys_read && times is Some,
        row matches Some(record) ==> Some(record.id) == id && Some(record.times) == times,
{
    match (id, times) {
        (Some(id), Some(times)) => if xs_read && ys_read {
            Some(TrackRecord { id, times })
        } else {
            None
        },
        _ => None,
    }
}

/// Whether a row of the batch holds a track with this identifier.  A row that
/// could not be read holds none.
pub open spec fn holds_id(row: Option<TrackRecord>, id: i32) -> bool {
    row matches Some(record) && record.id == id
}

/// The last row that holds a track with this identifier, if any row does.
pub open spec fn last_row_of(rows: Seq<Option<TrackRecord>>, id: i32) -> Option<int>
    decreases rows.len(),
{
    if rows.len() == 0 {
        None
    } else if holds_id(rows.last(), id) {
        Some(rows.len() - 1)
    } else {
        last_row_of(rows.drop_last(), id)
    }
}

/// An identifier has a last row exactly when some row holds it; that row
/// holds it, and no later row does.
pub proof fn lemma_last_row_of(rows: Seq<Option<TrackRecord>>, id: i32)
    ensures
        last_row_of(rows, id) is None <==> forall|i: int|
            0 <= i < rows.len() ==> !holds_id(#[trigger] rows[i], id),
        last_row_of(rows, id) matches Some(r) ==> {
            &&& 0 <= r < rows.len()
            &&& holds_id(rows[r], id)
            &&& forall|j: int| r < j < rows.len() ==> !holds_id(#[trigger] rows[j], id)
        },
    decreases rows.len(),
{
    if rows.len() > 0 {
        let front = rows.drop_last();
        lemma_last_row_of(front, id);
        if !holds_id(rows.last(), id) {
            assert forall|i: int| 0 <= i < front.len() implies rows[i] == #[trigger] front[i] by {}
            if last_row_of(front, id) is None {
                assert forall|i: int| 0 <= i < rows.len() implies !holds_id(
                    #[trigger] rows[i],
                    id,
                ) by {
                    if i < front.len() {
                        assert(rows[i] == front[i]);
                    }
                }
            } else {
                let r = last_row_of(front, id)->0;
                assert(rows[r] == front[r]);
                assert forall|j: int| r < j < rows.len() implies !holds_id(
                    #[trigger] rows[j],
                    id,
                ) by {
                    if j < front.len() {
                        assert(rows[j] == front[j]);
                    }
                }
            }
        }
    }
}

/// The tracks of one batch, found by identifier.
///
/// The table keeps the rows it was built from.  A row that could not be read
/// is in no lookup; of several rows with one identifier the last is found.
pub struct TrackTable {
    rows: Vec<Option<TrackRecord>>,
    by_id: HashMap<i32, usize>,
}

impl TrackTable {
    #[verifier::type_invariant]
    spec fn indexed(self) -> bool {
        Self::indexes(self.by_id@, self.rows@)
    }

    /// The index holds, for every identifier, its last row and nothing else.
    spec fn indexes(by_id: Map<i32, usize>, rows: Seq<Option<TrackRecord>>) -> bool {
        forall|id: i32|
            #![trigger by_id.contains_key(id)]
            #![trigger last_row_of(rows, id)]
            match last_row_of(rows, id) {
                Some(r) => by_id.contains_key(id) && by_id[id] == r,
                None => !by_id.contains_key(id),
            }
    }

    /// The rows of the batch, in their order, as the table was built from
    /// them.
    pub closed spec fn source(&self) -> Seq<Option<TrackRecord>> {
        self.rows@
    }

    /// Builds the table of a batch.  `rows` holds one entry for each row of
    /// the batch, `None` where the row could not be read.
    pub fn build(rows: Vec<Option<TrackRecord>>) -> (table: TrackTable)
        ensures
            table.source() == rows@,
    {
        let mut by_id: HashMap<i32, usize> = HashMap::new();
        let mut i: usize = 0;
        while i < rows.len()
            invariant
                i <= rows.len(),
                Self::indexes(by_id@, rows@.take(i as int)),
            decreases rows.len() - i,
        {
            let ghost before = by_id@;
            let ghost seen = rows@.take(i as int);
            let ghost next = rows@.take(i + 1);
            proof {
                assert(next.drop_last() =~= seen);
                assert(next.last() == rows@[i as int]);
            }
            match &rows[i] {
                Some(record) => {
                    by_id.insert(record.id, i);
                    assert forall|id: i32|
                        #![trigger by_id@.contains_key(id)]
                        #![trigger last_row_of(next, id)]
                        match last_row_of(next, id) {
                            Some(r) => by_id@.contains_key(id) && by_id@[id] == r,
                            None => !by_id@.contains_key(id),
                        } by {
                        if id != record.id {
                            assert(before.contains_key(id) == by_id@.contains_key(id));
                            assert(last_row_of(next, id) == last_row_of(seen, id));
                        }
                    }
                },
                None => {
                    assert forall|id: i32|
                        #![trigger by_id@.contains_key(id)]
                        #![trigger last_row_of(next, id)]
                        match last_row_of(next, id) {
                            Some(r) => by_id@.contains_key(id) && by_id@[id] == r,
                            None => !by_id@.contains_key(id),
                        } by {
                        assert(before.contains_key(id) == by_id@.contains_key(id));
                        assert(last_row_of(next, id) == last_row_of(seen, id));
                    }
                },
            }
            i += 1;
        }
        assert(rows@.take(rows.len() as int) =~= rows@);
        TrackTable { rows, by_id }
    }

    /// The row of the batch that holds the track with this identifier, and
    /// the track.  There is one exactly when some row holds the identifier,
    /// and it is the last such row.
    pub fn get(&self, id: i32) -> (found: Option<(usize, &TrackRecord)>)
        ensures
            match last_row_of(self.source(), id) {
                Some(r) => found matches Some((row, record)) && row == r && Some(*record)
                    == self.source()[r],
                None => found is None,
            },
    {
        proof {
            use_type_invariant(self);
            lemma_last_row_of(self.rows@, id);
        }
        match self.by_id.get(&id) {
            Some(row) => {
                let row = *row;
                match &self.rows[row] {
                    Some(record) => Some((row, record)),
                    None => None,
                }
            },
            None => None,
        }
    }
}

} // verus!
