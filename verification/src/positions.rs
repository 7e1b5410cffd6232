//! Position indices: where in its data file each revision is.

use vstd::prelude::*;

use crate::layout::RevisionID;

verus! {

/// A place in a data file, counted in bytes.
pub type Offset = u64;

/// The length of a compressed revision, in bytes.
pub type RecordLength = u64;

/// The path of a data file.
pub type RecordFileName = String;

/// Where a revision is: its data file, and where in that file it begins and how long it is.
pub type Position = (RecordFileName, Offset, RecordLength);

/// Where in its data file a revision is.
#[derive(Clone, Copy, Debug, PartialEq, Eq)]
pub struct PositionEntry {
    pub revision_id: RevisionID,
    pub record_start: Offset,
    pub record_length: RecordLength,
}

/// A revision could not be retrieved.
#[derive(Clone, Copy, Debug, PartialEq, Eq)]
pub struct RetrievalError {}

impl RetrievalError {
    /// What the error says to its reader.
    pub fn message(&self) -> (r: String)
        ensures
            r@ == "retrieval error while trying to access revisions on disk"@,
    {
        "retrieval error while trying to access revisions on disk".to_string()
    }
}

/// Why the position of a revision could not be told.
#[derive(Clone, Copy, Debug, PartialEq, Eq)]
pub enum LookupError {
    /// The row with this number could not be read, and none before it lists the revision.
    UnreadableRow(usize),
    /// No row lists the revision.
    NotFound(RetrievalError),
}

/// The first row that lists the revision `id`, unless a row before it could not be read. A row
/// that could not be read is `None`.
pub open spec fn located(rows: Seq<Option<PositionEntry>>, id: RevisionID) -> Result<
    PositionEntry,
    LookupError,
>
    decreases rows.len(),
{
    if rows.len() == 0 {
        Err(LookupError::NotFound(RetrievalError {  }))
    } else {
        match located(rows.drop_last(), id) {
            Err(LookupError::NotFound(error)) => match rows.last() {
                None => Err(LookupError::UnreadableRow((rows.len() - 1) as usize)),
                Some(row) => if row.revision_id == id {
                    Ok(row)
                } else {
                    Err(LookupError::NotFound(error))
                },
            },
            decided => decided,
        }
    }
}

/// Once the lookup is decided, further rows do not change it.
pub proof fn lemma_located_decided(rows: Seq<Option<PositionEntry>>, id: RevisionID, n: int)
    requires
        0 <= n <= rows.len(),
        !(located(rows.take(n), id) matches Err(LookupError::NotFound(_))),
    ensures
        located(rows, id) == located(rows.take(n), id),
    decreases rows.len(),
{
    if n < rows.len() {
        assert(rows.drop_last().take(n) =~= rows.take(n));
        lemma_located_decided(rows.drop_last(), id, n);
    } else {
        assert(rows.take(n) =~= rows);
    }
}

/// A lookup gives the first row of the id, if every row before it could be read. It fails at the
/// first row that could not be read, if none before it is of the id, and finds nothing if all
/// rows could be read and none is of the id.
pub proof fn law_first_row_decides(rows: Seq<Option<PositionEntry>>, id: RevisionID)
    requires
        rows.len() <= usize::MAX,
    ensures
        match located(rows, id) {
            Ok(row) => row.revision_id == id && exists|i: int|
                {
                    &&& 0 <= i < rows.len()
                    &&& #[trigger] rows[i] == Some(row)
                    &&& forall|j: int|
                        0 <= j < i ==> (#[trigger] rows[j]) is Some && (rows[j]->0).revision_id
                            != id
                },
            Err(LookupError::UnreadableRow(n)) => {
                &&& n < rows.len()
                &&& rows[n as int] is None
                &&& forall|j: int|
                    0 <= j < n ==> (#[trigger] rows[j]) is Some && (rows[j]->0).revision_id != id
            },
            Err(LookupError::NotFound(_)) => forall|j: int|
                0 <= j < rows.len() ==> (#[trigger] rows[j]) is Some && (rows[j]->0).revision_id
                    != id,
        },
    decreases rows.len(),
{
    if rows.len() > 0 {
        let rest = rows.drop_last();
        let n = rows.len() - 1;
        law_first_row_decides(rest, id);
        assert(rows[n] == rows.last());
        assert(forall|j: int| 0 <= j < n ==> #[trigger] rows[j] == rest[j]);
        match located(rest, id) {
            Ok(row) => {
                let i = choose|i: int|
                    {
                        &&& 0 <= i < rest.len()
                        &&& #[trigger] rest[i] == Some(row)
                        &&& forall|j: int|
                            0 <= j < i ==> (#[trigger] rest[j]) is Some && (
                            rest[j]->0).revision_id != id
                    };
                assert(rows[i] == Some(row));
            },
            Err(_) => {},
        }
    }
}

} // verus!
