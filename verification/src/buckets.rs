//! How revisions are split by date. Revision ids are taken to grow over time, so the range of
//! ids is cut into stretches, and each stretch has a temporary date file.

use vstd::prelude::*;

use crate::layout::N_REVISION_FILES;
use crate::layout::RevisionID;
use crate::positions::PositionEntry;

verus! {

/// Whether `m` is the largest of the numbers.
pub open spec fn is_largest(ids: Seq<RevisionID>, m: RevisionID) -> bool {
    ids.contains(m) && forall|i: int| 0 <= i < ids.len() ==> #[trigger] ids[i] <= m
}

/// The revisions that the rows of a position index list.
pub open spec fn row_ids(rows: Seq<PositionEntry>) -> Seq<RevisionID> {
    rows.map_values(|row: PositionEntry| row.revision_id)
}

/// The largest revision id in one position index. `None` where the index is empty.
pub fn largest_id_in_file(rows: &Vec<PositionEntry>) -> (r: Option<RevisionID>)
    ensures
        r is None <==> rows@.len() == 0,
        r matches Some(m) ==> is_largest(row_ids(rows@), m),
        forall|i: int|
            0 <= i < rows@.len() ==> r is Some && (#[trigger] rows@[i]).revision_id <= r->0,
        r matches Some(m) ==> exists|i: int|
            0 <= i < rows@.len() && (#[trigger] rows@[i]).revision_id == m,
{
    if rows.len() == 0 {
        return None;
    }
    let mut largest: RevisionID = rows[0].revision_id;
    assert(row_ids(rows@)[0] == largest);
    for i in 1..rows.len()
        invariant
            1 <= rows@.len(),
            row_ids(rows@).contains(largest),
            forall|j: int| 0 <= j < i ==> (#[trigger] row_ids(rows@)[j]) <= largest,
    {
        if rows[i].revision_id > largest {
            largest = rows[i].revision_id;
            assert(row_ids(rows@)[i as int] == largest);
        }
    }
    proof {
        let ids = row_ids(rows@);
        assert(rows@[ids.index_of(largest)].revision_id == largest);
        assert forall|i: int| 0 <= i < rows@.len() implies (#[trigger] rows@[i]).revision_id
            <= largest by {
            assert(ids[i] <= largest);
        }
    }
    Some(largest)
}

/// The values of those that are there.
pub open spec fn present(maxima: Seq<Option<RevisionID>>) -> Seq<RevisionID> {
    maxima.map_values(|m: Option<RevisionID>| m->0)
}

/// The largest revision id of all, from the largest of each position index. `None` where there
/// are no indices, or where one of them is empty.
pub fn get_largest_id(maxima: &Vec<Option<RevisionID>>) -> (r: Option<RevisionID>)
    ensures
        r is None <==> maxima@.len() == 0 || maxima@.contains(None),
        r matches Some(m) ==> is_largest(present(maxima@), m),
        r matches Some(m) ==> forall|i: int|
            0 <= i < maxima@.len() ==> (#[trigger] maxima@[i]) is Some && maxima@[i]->0 <= m,
        r matches Some(m) ==> exists|i: int|
            0 <= i < maxima@.len() && #[trigger] maxima@[i] == Some(m),
{
    let mut largest: Option<RevisionID> = None;
    for i in 0..maxima.len()
        invariant
            largest is None <==> i == 0,
            forall|j: int| 0 <= j < i ==> (#[trigger] maxima@[j]) is Some,
            i > 0 ==> is_largest(present(maxima@.take(i as int)), largest->0),
    {
        let ghost before = present(maxima@.take(i as int));
        let ghost after = present(maxima@.take(i + 1));
        match maxima[i] {
            None => {
                assert(maxima@[i as int] is None);
                return None;
            },
            Some(m) => {
                assert(after =~= before.push(m));
                assert(after[i as int] == m);
                proof {
                    if i > 0 {
                        let k = before.index_of(largest->0);
                        assert(after[k] == largest->0);
                    }
                }
                largest = match largest {
                    Some(l) => Some(if l < m { m } else { l }),
                    None => Some(m),
                };
            },
        }
    }
    assert(maxima@.take(maxima@.len() as int) =~= maxima@);
    proof {
        if maxima@.len() > 0 {
            let values = present(maxima@);
            assert(maxima@[values.index_of(largest->0)] == largest);
            assert forall|i: int| 0 <= i < maxima@.len() implies (#[trigger] maxima@[i]) is Some
                && maxima@[i]->0 <= largest->0 by {
                assert(values[i] <= largest->0);
            }
        }
    }
    largest
}

/// About how many ids each temporary date file is for.
pub fn approx_bucket_size(largest_id: RevisionID) -> (r: u64)
    ensures
        r == largest_id / N_REVISION_FILES,
        200 * r <= largest_id < 200 * r + 200,
{
    largest_id / N_REVISION_FILES
}

/// The number of the stretch that a revision belongs to, for stretches of `size` ids. The last
/// stretch also has the ids that remain past all stretches.
pub open spec fn bucket(id: RevisionID, size: u64) -> int {
    let quotient = (id / size) as int;
    if quotient < N_REVISION_FILES {
        quotient
    } else {
        N_REVISION_FILES - 1
    }
}

/// The number of the stretch that a revision belongs to, for stretches of `size` ids.
pub fn date_bucket(id: RevisionID, size: u64) -> (r: u64)
    requires
        size > 0,
    ensures
        r == bucket(id, size),
        r < 200,
        r * size <= id,
        r < 199 ==> id < (r + 1) * size,
{
    proof {
        law_stretches_are_intervals(id, size, bucket(id, size));
    }
    let quotient: u64 = id / size;
    if quotient < N_REVISION_FILES {
        quotient
    } else {
        N_REVISION_FILES - 1  // handle last remainders
    }
}

/// The number, among all temporary date files, of the one that a revision's date goes to, for
/// stretches of `size` ids. `None` where the size is zero.
pub fn date_file_index(id: RevisionID, size: u64) -> (r: Option<usize>)
    ensures
        r is Some <==> size > 0,
        r matches Some(i) ==> i == bucket(id, size) && i < N_REVISION_FILES,
        r matches Some(i) ==> i < 200 && i * size <= id && (i < 199 ==> id < (i + 1) * size),
{
    if size == 0 {
        return None;
    }
    Some(date_bucket(id, size) as usize)
}

/// Every revision's date has a file to go to, and it is one of all temporary date files.
pub proof fn law_which_dates_have_a_file(id: RevisionID, size: u64)
    requires
        size > 0,
    ensures
        0 <= bucket(id, size) < N_REVISION_FILES,
{
}

/// The stretches follow one another: each has `size` ids, but for the last, which has all ids
/// from its beginning on.
pub proof fn law_stretches_are_intervals(id: RevisionID, size: u64, k: int)
    requires
        size > 0,
        0 <= k < N_REVISION_FILES,
    ensures
        bucket(id, size) == k <==> k * size <= id && (k == N_REVISION_FILES - 1 || id < (k + 1)
            * size),
{
    let q = (id / size) as int;
    let r = (id % size) as int;
    vstd::arithmetic::div_mod::lemma_fundamental_div_mod(id as int, size as int);
    assert(k * size <= id <==> k <= q) by (nonlinear_arith)
        requires
            id == size * q + r,
            0 <= r < size,
    ;
    assert(id < (k + 1) * size <==> q < k + 1) by (nonlinear_arith)
        requires
            id == size * q + r,
            0 <= r < size,
    ;
}

/// Later revisions do not go to earlier files.
pub proof fn law_later_ids_go_further(a: RevisionID, b: RevisionID, size: u64)
    requires
        size > 0,
        a <= b,
    ensures
        bucket(a, size) <= bucket(b, size),
{
    vstd::arithmetic::div_mod::lemma_div_is_ordered(a as int, b as int, size as int);
}

/// The largest of the largest ids of several indices is the largest id in any of them.
pub proof fn law_largest_of_all_files(
    files: Seq<Seq<PositionEntry>>,
    maxima: Seq<Option<RevisionID>>,
    m: RevisionID,
)
    requires
        files.len() == maxima.len(),
        forall|f: int|
            0 <= f < files.len() ==> maxima[f] is Some && is_largest(
                row_ids(#[trigger] files[f]),
                maxima[f]->0,
            ),
        is_largest(present(maxima), m),
    ensures
        forall|f: int, i: int|
            0 <= f < files.len() && 0 <= i < files[f].len() ==> (
            #[trigger] files[f][i]).revision_id <= m,
        exists|f: int| 0 <= f < files.len() && row_ids(#[trigger] files[f]).contains(m),
{
    assert forall|f: int, i: int| 0 <= f < files.len() && 0 <= i < files[f].len() implies (
    #[trigger] files[f][i]).revision_id <= m by {
        assert(row_ids(files[f])[i] <= maxima[f]->0);
        assert(present(maxima)[f] <= m);
    }
    let f = present(maxima).index_of(m);
    assert(row_ids(files[f]).contains(m));
}

} // verus!
