//! Compressed revisions, and the data files that they are appended to.

use vstd::prelude::*;

use crate::date_index::DateEntry;
use crate::external;
use crate::instant;
use crate::instant::Instant;
use crate::layout;
use crate::layout::RevisionID;
use crate::positions::Offset;
use crate::positions::PositionEntry;
use crate::positions::RecordLength;
use crate::positions::RetrievalError;
use crate::text;

verus! {

/// How hard revisions are compressed.
pub const BROTLI_COMPRESSION_LEVEL: u32 = 8;

/// The number of columns of a downloaded revision.
pub const N_COLUMNS: usize = 11;

/// The members of a stored revision: the columns of a downloaded one, with their names.
pub open spec fn members_of(columns: Seq<Seq<char>>) -> Seq<(Seq<char>, Seq<char>)> {
    seq![
        ("id"@, columns[0]),
        ("parent_id"@, columns[1]),
        ("page_title"@, columns[2]),
        ("contributor_id"@, columns[3]),
        ("contributor_name"@, columns[4]),
        ("contributor_ip"@, columns[5]),
        ("timestamp"@, columns[6]),
        ("text"@, columns[7]),
        ("comment"@, columns[8]),
        ("page_id"@, columns[9]),
        ("page_ns"@, columns[10]),
    ]
}

/// The text that is stored of a revision with these columns.
pub open spec fn stored_text(columns: Seq<Seq<char>>) -> Seq<char> {
    external::json_object_text(members_of(columns))
}

/// A member of a stored revision.
fn member(name: &str, value: &String) -> (r: (String, String))
    ensures
        r.0@ == name@,
        r.1@ == value@,
{
    (name.to_string(), value.clone())
}

/// The members of a stored revision: the columns of a downloaded one, with their names.
pub fn revision_members(record: &Vec<String>) -> (r: Vec<(String, String)>)
    requires
        record@.len() >= N_COLUMNS,
    ensures
        external::member_views(r@) == members_of(text::views(record@)),
        r@.len() == 11,
        forall|i: int| 0 <= i < 11 ==> (#[trigger] r@[i]).1@ == record@[i]@,
        forall|i: int|
            0 <= i < 11 ==> (#[trigger] r@[i]).0@ == seq![
                "id"@,
                "parent_id"@,
                "page_title"@,
                "contributor_id"@,
                "contributor_name"@,
                "contributor_ip"@,
                "timestamp"@,
                "text"@,
                "comment"@,
                "page_id"@,
                "page_ns"@,
            ][i],
{
    let mut members: Vec<(String, String)> = Vec::new();
    members.push(member("id", &record[0]));
    members.push(member("parent_id", &record[1]));
    members.push(member("page_title", &record[2]));
    members.push(member("contributor_id", &record[3]));
    members.push(member("contributor_name", &record[4]));
    members.push(member("contributor_ip", &record[5]));
    members.push(member("timestamp", &record[6]));
    members.push(member("text", &record[7]));
    members.push(member("comment", &record[8]));
    members.push(member("page_id", &record[9]));
    members.push(member("page_ns", &record[10]));
    assert(external::member_views(members@) =~= members_of(text::views(record@)));
    members
}

/// The members of a stored revision have different names.
proof fn lemma_names_are_distinct(columns: Seq<Seq<char>>)
    ensures
        external::distinct_names(members_of(columns)),
{
    reveal_strlit("id");
    reveal_strlit("parent_id");
    reveal_strlit("page_title");
    reveal_strlit("contributor_id");
    reveal_strlit("contributor_name");
    reveal_strlit("contributor_ip");
    reveal_strlit("timestamp");
    reveal_strlit("text");
    reveal_strlit("comment");
    reveal_strlit("page_id");
    reveal_strlit("page_ns");
    let members = members_of(columns);
    assert forall|i: int, j: int| 0 <= i < j < members.len() implies (#[trigger] members[i]).0 != (
    #[trigger] members[j]).0 by {
        let (a, b) = (members[i].0, members[j].0);
        assert(a.len() != b.len() || a[0] != b[0] || a[5] != b[5] || a[13] != b[13]);
    }
}

/// Equal members are equal columns.
proof fn lemma_members_give_columns(a: Seq<Seq<char>>, b: Seq<Seq<char>>)
    requires
        a.len() >= N_COLUMNS,
        b.len() >= N_COLUMNS,
        members_of(a) == members_of(b),
    ensures
        a.take(N_COLUMNS as int) == b.take(N_COLUMNS as int),
{
    assert forall|i: int| 0 <= i < N_COLUMNS implies a[i] == b[i] by {
        assert(members_of(a)[i].1 == a[i]);
        assert(members_of(b)[i].1 == b[i]);
    }
    assert(a.take(N_COLUMNS as int) =~= b.take(N_COLUMNS as int));
}

/// Columns behind those that are named have no part in what is stored.
pub proof fn law_further_columns_are_not_stored(a: Seq<Seq<char>>, b: Seq<Seq<char>>)
    requires
        a.len() >= N_COLUMNS,
        b.len() >= N_COLUMNS,
        a.take(N_COLUMNS as int) == b.take(N_COLUMNS as int),
    ensures
        stored_text(a) == stored_text(b),
{
    assert forall|i: int| 0 <= i < N_COLUMNS implies a[i] == b[i] by {
        assert(a.take(N_COLUMNS as int)[i] == b.take(N_COLUMNS as int)[i]);
    }
    assert(members_of(a) =~= members_of(b));
}

/// Every column is stored, under its own name and no other: the member number `i` has the name and
/// the value of the column number `i`, whatever is in this column and in the others.
pub proof fn law_every_column_has_its_own_name(columns: Seq<Seq<char>>)
    ensures
        members_of(columns).len() == 11,
        forall|i: int|
            0 <= i < 11 ==> #[trigger] members_of(columns)[i] == (
                seq![
                    "id"@,
                    "parent_id"@,
                    "page_title"@,
                    "contributor_id"@,
                    "contributor_name"@,
                    "contributor_ip"@,
                    "timestamp"@,
                    "text"@,
                    "comment"@,
                    "page_id"@,
                    "page_ns"@,
                ][i],
                columns[i],
            ),
{
}

/// What is stored of a revision is the JSON object of all of its columns, each under its own name.
pub proof fn law_stored_text_has_every_column(columns: Seq<Seq<char>>)
    ensures
        stored_text(columns) == external::json_object_text(
            Seq::new(
                11,
                |i: int|
                    (
                        seq![
                            "id"@,
                            "parent_id"@,
                            "page_title"@,
                            "contributor_id"@,
                            "contributor_name"@,
                            "contributor_ip"@,
                            "timestamp"@,
                            "text"@,
                            "comment"@,
                            "page_id"@,
                            "page_ns"@,
                        ][i],
                        columns[i],
                    ),
            ),
        ),
{
    assert(members_of(columns) =~= Seq::new(
        11,
        |i: int|
            (
                seq![
                    "id"@,
                    "parent_id"@,
                    "page_title"@,
                    "contributor_id"@,
                    "contributor_name"@,
                    "contributor_ip"@,
                    "timestamp"@,
                    "text"@,
                    "comment"@,
                    "page_id"@,
                    "page_ns"@,
                ][i],
                columns[i],
            ),
    ));
}

/// Changing one column changes the member of that column, to the new value, and no other.
pub proof fn law_one_column_changes_one_member(
    columns: Seq<Seq<char>>,
    i: int,
    value: Seq<char>,
)
    requires
        columns.len() >= 11,
        0 <= i < 11,
    ensures
        members_of(columns.update(i, value)) == members_of(columns).update(
            i,
            (members_of(columns)[i].0, value),
        ),
{
    assert(members_of(columns.update(i, value)) =~= members_of(columns).update(
        i,
        (members_of(columns)[i].0, value),
    ));
}

/// Whether `bytes` stand for the revision with these columns, and for no other: there are some, and
/// they decompress to its text, which is not the text of a revision with other columns.
pub open spec fn stands_for(bytes: Seq<u8>, columns: Seq<Seq<char>>) -> bool {
    &&& bytes.len() > 0
    &&& external::brotli_text(bytes) == Some(stored_text(columns))
    &&& forall|other: Seq<Seq<char>>|
        other.len() >= N_COLUMNS && #[trigger] stored_text(other) == stored_text(columns)
            ==> other.take(N_COLUMNS as int) == columns.take(N_COLUMNS as int)
}

/// Bytes that stand for a revision decompress to the JSON object of all of its columns.
pub proof fn law_bytes_hold_every_column(bytes: Seq<u8>, columns: Seq<Seq<char>>)
    requires
        stands_for(bytes, columns),
    ensures
        bytes.len() > 0,
        external::brotli_text(bytes) == Some(
            external::json_object_text(
                Seq::new(
                    11,
                    |i: int|
                        (
                            seq![
                                "id"@,
                                "parent_id"@,
                                "page_title"@,
                                "contributor_id"@,
                                "contributor_name"@,
                                "contributor_ip"@,
                                "timestamp"@,
                                "text"@,
                                "comment"@,
                                "page_id"@,
                                "page_ns"@,
                            ][i],
                            columns[i],
                        ),
                ),
            ),
        ),
{
    law_stored_text_has_every_column(columns);
}

/// Bytes that stand for revisions with different columns are different.
pub proof fn law_other_columns_give_other_bytes(
    a: Seq<Seq<char>>,
    a_bytes: Seq<u8>,
    b: Seq<Seq<char>>,
    b_bytes: Seq<u8>,
)
    requires
        a.len() >= N_COLUMNS,
        b.len() >= N_COLUMNS,
        stands_for(a_bytes, a),
        stands_for(b_bytes, b),
        a.take(N_COLUMNS as int) != b.take(N_COLUMNS as int),
    ensures
        a_bytes != b_bytes,
{
    assert(stored_text(a) != stored_text(b));
}

/// A downloaded revision as it is stored: compressed JSON. Decompressing it gives its text back,
/// and with it all of its columns: bytes that stand for one revision stand for no other. Which of
/// the bytes that stand for it come out is up to the compressor.
pub fn revision_to_bytes(record: &Vec<String>) -> (r: Vec<u8>)
    requires
        record@.len() >= N_COLUMNS,
    ensures
        stands_for(r@, text::views(record@)),
        r@.len() > 0,
        external::brotli_text(r@) == Some(
            external::json_object_text(
                Seq::new(
                    11,
                    |i: int|
                        (
                            seq![
                                "id"@,
                                "parent_id"@,
                                "page_title"@,
                                "contributor_id"@,
                                "contributor_name"@,
                                "contributor_ip"@,
                                "timestamp"@,
                                "text"@,
                                "comment"@,
                                "page_id"@,
                                "page_ns"@,
                            ][i],
                            record@[i]@,
                        ),
                ),
            ),
        ),
{
    let record_string = external::json_object(revision_members(record));
    let bytes = external::brotli_compress(record_string.as_str(), BROTLI_COMPRESSION_LEVEL);
    proof {
        let own = text::views(record@);
        lemma_names_are_distinct(own);
        assert forall|other: Seq<Seq<char>>|
            other.len() >= N_COLUMNS && #[trigger] stored_text(other) == stored_text(
                own,
            ) implies other.take(N_COLUMNS as int) == own.take(N_COLUMNS as int) by {
            assert(external::same_names(members_of(other), members_of(own)));
            lemma_members_give_columns(other, own);
        }
        law_stored_text_has_every_column(own);
        assert(Seq::new(
            11,
            |i: int|
                (
                    seq![
                        "id"@,
                        "parent_id"@,
                        "page_title"@,
                        "contributor_id"@,
                        "contributor_name"@,
                        "contributor_ip"@,
                        "timestamp"@,
                        "text"@,
                        "comment"@,
                        "page_id"@,
                        "page_ns"@,
                    ][i],
                    record@[i]@,
                ),
        ) =~= members_of(own));
    }
    bytes
}

/// The text of a stored revision.
pub fn revision_text(bytes: &Vec<u8>) -> (r: Result<String, RetrievalError>)
    ensures
        match external::brotli_text(bytes@) {
            Some(stored) => r is Ok && r->Ok_0@ == stored,
            None => r is Err,
        },
{
    match external::brotli_decompress(bytes) {
        Ok(stored) => Ok(stored),
        Err(_) => Err(RetrievalError {  }),
    }
}

/// A downloaded revision, ready to be written.
pub struct PreparedRevision {
    /// Which revision it is.
    pub revision_id: RevisionID,
    /// The number of the data file that it goes to.
    pub file_index: usize,
    /// When it was made.
    pub instant: Instant,
    /// What is written.
    pub bytes: Vec<u8>,
}

/// The id of a revision with these columns.
pub open spec fn id_of(columns: Seq<Seq<char>>) -> Option<RevisionID> {
    text::unsigned_value(columns[0])
}

/// When a revision with these columns was made.
pub open spec fn instant_of_columns(columns: Seq<Seq<char>>) -> Option<Instant> {
    instant::instant_of(external::rfc3339_parts(columns[6]))
}

/// Why a downloaded revision is not stored.
pub enum Refusal {
    /// A column is missing, or the id cannot be read. Nothing of the revision is written.
    Unreadable,
    /// The time cannot be read. The bytes are written to the data file all the same, but no index
    /// is told of them.
    Undated { file_index: usize, bytes: Vec<u8> },
}

/// Puts a revision together that is ready to be written, or tells why it is not stored: its id
/// cannot be read, or its time could not.
pub fn assemble_revision(id: &str, instant: Option<Instant>, bytes: Vec<u8>) -> (r: Result<
    PreparedRevision,
    Refusal,
>)
    ensures
        match (text::unsigned_value(id@), instant) {
            (Some(revision_id), Some(at)) => r == Ok::<PreparedRevision, Refusal>(
                PreparedRevision {
                    revision_id,
                    file_index: layout::file_of(revision_id) as usize,
                    instant: at,
                    bytes,
                },
            ),
            (Some(revision_id), None) => r == Err::<PreparedRevision, Refusal>(
                Refusal::Undated {
                    file_index: layout::file_of(revision_id) as usize,
                    bytes,
                },
            ),
            (None, _) => r == Err::<PreparedRevision, Refusal>(Refusal::Unreadable),
        },
        r matches Ok(prepared) ==> prepared.file_index == prepared.revision_id % 200,
{
    match text::parse_unsigned(id) {
        Some(revision_id) => {
            let file_index = layout::file_index(revision_id);
            match instant {
                Some(instant) => Ok(PreparedRevision { revision_id, file_index, instant, bytes }),
                None => Err(Refusal::Undated { file_index, bytes }),
            }
        },
        None => Err(Refusal::Unreadable),
    }
}

/// Whether bytes can be made of a revision with these columns: no column is missing, and its id
/// can be read.
pub open spec fn writable(columns: Seq<Seq<char>>) -> bool {
    columns.len() >= N_COLUMNS && id_of(columns) is Some
}

/// Whether a revision with these columns can be stored: it can be written, and its time can be
/// read.
pub open spec fn storable(columns: Seq<Seq<char>>) -> bool {
    writable(columns) && instant_of_columns(columns) is Some
}

/// Whether `prepared` is the revision with these columns, ready to be written.
pub open spec fn is_prepared(prepared: PreparedRevision, columns: Seq<Seq<char>>) -> bool {
    &&& Some(prepared.revision_id) == id_of(columns)
    &&& prepared.file_index == layout::file_of(prepared.revision_id)
    &&& Some(prepared.instant) == instant_of_columns(columns)
    &&& stands_for(prepared.bytes@, columns)
}

/// Whether `refusal` tells why the revision with these columns is not stored.
pub open spec fn is_refusal(refusal: Refusal, columns: Seq<Seq<char>>) -> bool {
    match refusal {
        Refusal::Unreadable => !writable(columns),
        Refusal::Undated { file_index, bytes } => {
            &&& writable(columns)
            &&& instant_of_columns(columns) is None
            &&& file_index == layout::file_of(id_of(columns)->0)
            &&& stands_for(bytes@, columns)
        },
    }
}

/// A revision can be stored exactly if it has eleven columns or more, its first column is a number
/// and its seventh is a date and time. Nothing else has a part in it.
pub proof fn law_what_can_be_stored(columns: Seq<Seq<char>>)
    ensures
        writable(columns) <==> columns.len() >= 11 && text::unsigned_value(columns[0]) is Some,
        storable(columns) <==> columns.len() >= 11 && text::unsigned_value(columns[0]) is Some
            && external::rfc3339_parts(columns[6]) is Some,
{
}

/// What is ready to be written has the id that its first column tells, goes to the file that the id
/// leaves when it is divided by their number, and was made when its seventh column tells.
pub proof fn law_prepared_by_its_columns(prepared: PreparedRevision, columns: Seq<Seq<char>>)
    requires
        is_prepared(prepared, columns),
    ensures
        text::unsigned_value(columns[0]) == Some(prepared.revision_id),
        prepared.file_index == prepared.revision_id % 200,
        external::rfc3339_parts(columns[6]) == Some(
            (prepared.instant.seconds, prepared.instant.nanos, prepared.instant.offset),
        ),
        stands_for(prepared.bytes@, columns),
{
}

/// A revision is unreadable exactly if a column is missing or its id cannot be read; otherwise it
/// is undated, and what is written of it stands for all of its columns.
pub proof fn law_refused_by_its_columns(refusal: Refusal, columns: Seq<Seq<char>>)
    requires
        is_refusal(refusal, columns),
    ensures
        refusal is Unreadable <==> columns.len() < 11 || text::unsigned_value(columns[0]) is None,
        refusal matches Refusal::Undated { file_index, bytes } ==> {
            &&& external::rfc3339_parts(columns[6]) is None
            &&& file_index == text::unsigned_value(columns[0])->0 % 200
            &&& stands_for(bytes@, columns)
        },
{
}

/// Makes a downloaded revision ready to be written, or tells why it is not stored.
pub fn prepare_revision(record: &Vec<String>) -> (r: Result<PreparedRevision, Refusal>)
    ensures
        match r {
            Ok(prepared) => storable(text::views(record@)) && is_prepared(
                prepared,
                text::views(record@),
            ),
            Err(refusal) => !storable(text::views(record@)) && is_refusal(
                refusal,
                text::views(record@),
            ),
        },
        r is Ok <==> record@.len() >= 11 && text::unsigned_value(record@[0]@) is Some
            && external::rfc3339_parts(record@[6]@) is Some,
        r matches Ok(prepared) ==> {
            &&& text::unsigned_value(record@[0]@) == Some(prepared.revision_id)
            &&& prepared.file_index == prepared.revision_id % 200
            &&& external::rfc3339_parts(record@[6]@) == Some(
                (prepared.instant.seconds, prepared.instant.nanos, prepared.instant.offset),
            )
        },
        r matches Err(refusal) ==> (refusal is Unreadable <==> record@.len() < 11
            || text::unsigned_value(record@[0]@) is None),
{
    if record.len() < N_COLUMNS {
        return Err(Refusal::Unreadable);
    }
    assert(text::views(record@)[0] == record@[0]@);
    assert(text::views(record@)[6] == record@[6]@);
    let bytes = revision_to_bytes(record);
    let instant = instant::parse_instant(record[6].as_str());
    assemble_revision(record[0].as_str(), instant, bytes)
}

/// The columns of the rows that could be read. A row that could not be read is `None`.
pub open spec fn readable_rows(rows: Seq<Option<Vec<String>>>) -> Seq<Seq<Seq<char>>>
    decreases rows.len(),
{
    if rows.len() == 0 {
        Seq::empty()
    } else {
        let rest = readable_rows(rows.drop_last());
        match rows.last() {
            Some(record) => rest.push(text::views(record@)),
            None => rest,
        }
    }
}

/// Every row that could be read is kept, once and in its place among the others, with all of its
/// columns, however many rows there are.
pub proof fn law_every_readable_row_is_kept(rows: Seq<Option<Vec<String>>>)
    ensures
        readable_rows(rows) == rows.filter(|row: Option<Vec<String>>| row is Some).map_values(
            |row: Option<Vec<String>>| row->0@.map_values(|column: String| column@),
        ),
    decreases rows.len(),
{
    reveal(Seq::filter);
    let kept = rows.filter(|row: Option<Vec<String>>| row is Some);
    if rows.len() > 0 {
        law_every_readable_row_is_kept(rows.drop_last());
    }
    assert(readable_rows(rows) =~= kept.map_values(
        |row: Option<Vec<String>>| row->0@.map_values(|column: String| column@),
    ));
}

/// Rows can be read part by part, and what is read of one row is that row, or nothing where it
/// could not be read.
pub proof fn law_rows_are_read_in_parts(
    a: Seq<Option<Vec<String>>>,
    b: Seq<Option<Vec<String>>>,
    record: Vec<String>,
)
    ensures
        readable_rows(a + b) == readable_rows(a) + readable_rows(b),
        readable_rows(seq![Some(record)]) == seq![record@.map_values(|column: String| column@)],
        readable_rows(seq![None]) == Seq::<Seq<Seq<char>>>::empty(),
    decreases b.len(),
{
    if b.len() == 0 {
        assert(a + b =~= a);
        assert(readable_rows(a) + readable_rows(b) =~= readable_rows(a));
    } else {
        assert((a + b).drop_last() =~= a + b.drop_last());
        law_rows_are_read_in_parts(a, b.drop_last(), record);
        assert(readable_rows(a + b) =~= readable_rows(a) + readable_rows(b));
    }
    reveal_with_fuel(readable_rows, 2);
    let one: Seq<Option<Vec<String>>> = seq![Some(record)];
    let none: Seq<Option<Vec<String>>> = seq![None];
    assert(one.drop_last() =~= Seq::empty());
    assert(none.drop_last() =~= Seq::empty());
    assert(readable_rows(one) =~= seq![record@.map_values(|column: String| column@)]);
}

/// Whether a row does not stand in the way: it could not be read, and is passed over, or the
/// revision in it can be stored.
pub open spec fn passes(row: Option<Vec<String>>) -> bool {
    match row {
        Some(record) => storable(text::views(record@)),
        None => true,
    }
}

/// A row stands in the way exactly if it could be read and its revision cannot be stored.
pub proof fn law_which_rows_pass(record: Vec<String>)
    ensures
        passes(None),
        passes(Some(record)) <==> record@.len() >= 11 && text::unsigned_value(record@[0]@) is Some
            && external::rfc3339_parts(record@[6]@) is Some,
{
    if record@.len() >= 11 {
        assert(text::views(record@)[0] == record@[0]@);
        assert(text::views(record@)[6] == record@[6]@);
    }
}

/// Makes downloaded revisions ready to be written, in their order, up to the first that is not
/// stored. Rows that could not be read are passed over. Returns the revisions, and the number of
/// the row where they end early, with the reason.
pub fn prepare_revisions(rows: &Vec<Option<Vec<String>>>) -> (r: (
    Vec<PreparedRevision>,
    Option<(usize, Refusal)>,
))
    ensures
        match r.1 {
            Some((k, refusal)) => {
                &&& k < rows@.len()
                &&& forall|j: int| 0 <= j < k ==> passes(#[trigger] rows@[j])
                &&& rows@[k as int] matches Some(record) && !storable(text::views(record@))
                    && is_refusal(refusal, text::views(record@))
            },
            None => forall|j: int| 0 <= j < rows@.len() ==> passes(#[trigger] rows@[j]),
        },
        ({
            let n = match r.1 {
                Some((k, _)) => k as int,
                None => rows@.len() as int,
            };
            let read = readable_rows(rows@.take(n));
            &&& r.0@.len() == read.len()
            &&& forall|i: int| 0 <= i < read.len() ==> is_prepared(#[trigger] r.0@[i], read[i])
        }),
        ({
            let n = match r.1 {
                Some((k, _)) => k as int,
                None => rows@.len() as int,
            };
            let read = rows@.take(n).filter(|row: Option<Vec<String>>| row is Some);
            &&& r.0@.len() == read.len()
            &&& forall|i: int|
                0 <= i < read.len() ==> is_prepared(
                    #[trigger] r.0@[i],
                    read[i]->0@.map_values(|column: String| column@),
                )
        }),
{
    let ghost mut done: Seq<Seq<Seq<char>>> = Seq::empty();
    let mut all: Vec<PreparedRevision> = Vec::new();
    for i in 0..rows.len()
        invariant
            done == readable_rows(rows@.take(i as int)),
            all@.len() == done.len(),
            forall|j: int| 0 <= j < i ==> passes(#[trigger] rows@[j]),
            forall|j: int| 0 <= j < done.len() ==> is_prepared(#[trigger] all@[j], done[j]),
    {
        proof {
            assert(rows@.take(i + 1).drop_last() =~= rows@.take(i as int));
        }
        match &rows[i] {
            Some(record) => {
                match prepare_revision(record) {
                    Ok(prepared) => {
                        all.push(prepared);
                    },
                    Err(refusal) => {
                        proof {
                            law_every_readable_row_is_kept(rows@.take(i as int));
                        }
                        return (all, Some((i, refusal)));
                    },
                }
            },
            None => {},
        }
        proof {
            done = readable_rows(rows@.take(i + 1));
        }
    }
    assert(rows@.take(rows@.len() as int) =~= rows@);
    proof {
        law_every_readable_row_is_kept(rows@);
    }
    (all, None)
}

/// Keeps count of what has been written to a data file.
pub struct WriteCounter {
    size: u64,
    written: Ghost<Seq<u8>>,
}

impl View for WriteCounter {
    type V = Seq<u8>;

    /// Everything that has been written.
    closed spec fn view(&self) -> Seq<u8> {
        self.written@
    }
}

impl WriteCounter {
    /// The count is right.
    pub closed spec fn wf(&self) -> bool {
        self.size == self.written@.len()
    }

    /// The counter of an empty file.
    pub fn new() -> (r: WriteCounter)
        ensures
            r.wf(),
            r@ == Seq::<u8>::empty(),
    {
        WriteCounter { size: 0, written: Ghost(Seq::empty()) }
    }

    /// How many bytes have been written.
    pub fn size(&self) -> (r: u64)
        requires
            self.wf(),
        ensures
            r == self@.len(),
    {
        self.size
    }

    /// Takes note that `bytes` have been written behind everything else.
    pub fn write_all(&mut self, bytes: &Vec<u8>)
        requires
            old(self).wf(),
            old(self)@.len() + bytes@.len() <= u64::MAX,
        ensures
            final(self).wf(),
            final(self)@ == old(self)@ + bytes@,
    {
        self.size = self.size + bytes.len() as u64;
        self.written = Ghost(self.written@ + bytes@);
    }
}

/// Takes note that a compressed revision has been written, and tells where it begins and how
/// long it is.
pub fn write_compressed_revision(compressed_bytes: &Vec<u8>, counter: &mut WriteCounter) -> (r: (
    Offset,
    RecordLength,
))
    requires
        old(counter).wf(),
        old(counter)@.len() + compressed_bytes@.len() <= u64::MAX,
    ensures
        final(counter).wf(),
        final(counter)@ == old(counter)@ + compressed_bytes@,
        r.0 == old(counter)@.len(),
        r.1 == compressed_bytes@.len(),
{
    let record_start = counter.size();
    counter.write_all(compressed_bytes);
    (record_start, compressed_bytes.len() as u64)
}

/// A revision that has been written: when it was made, and where it is.
#[derive(Clone, Copy, Debug, PartialEq, Eq)]
pub struct StoredRevision {
    pub instant: Instant,
    pub revision_id: RevisionID,
    pub record_start: Offset,
    pub record_length: RecordLength,
}

/// Takes note that a prepared revision has been written to its data file.
pub fn store_revision(prepared: &PreparedRevision, counter: &mut WriteCounter) -> (r:
    StoredRevision)
    requires
        old(counter).wf(),
        old(counter)@.len() + prepared.bytes@.len() <= u64::MAX,
    ensures
        final(counter).wf(),
        final(counter)@ == old(counter)@ + prepared.bytes@,
        r.instant == prepared.instant,
        r.revision_id == prepared.revision_id,
        r.record_start == old(counter)@.len(),
        r.record_length == prepared.bytes@.len(),
{
    let (record_start, record_length) = write_compressed_revision(&prepared.bytes, counter);
    StoredRevision {
        instant: prepared.instant,
        revision_id: prepared.revision_id,
        record_start,
        record_length,
    }
}

/// What the indices are told of a stored revision.
#[derive(Clone, Copy, Debug, PartialEq, Eq)]
pub struct IndexRow {
    /// For the list of dates.
    pub date: DateEntry,
    /// The number of the position index that `position` goes to.
    pub file_index: usize,
    /// For the position index.
    pub position: PositionEntry,
}

/// What the indices are told of a stored revision.
pub open spec fn index_row(stored: StoredRevision) -> IndexRow {
    IndexRow {
        date: DateEntry { revision_id: stored.revision_id, instant: stored.instant },
        file_index: layout::file_of(stored.revision_id) as usize,
        position: PositionEntry {
            revision_id: stored.revision_id,
            record_start: stored.record_start,
            record_length: stored.record_length,
        },
    }
}

/// The indices are told of a stored revision what it is: the list of dates its id and the instant
/// at which it was made, to the nanosecond and with its offset, and the position index of its file
/// its id, where it begins and how long it is.
pub proof fn law_indices_are_told_what_was_stored(stored: StoredRevision)
    ensures
        index_row(stored).date.revision_id == stored.revision_id,
        index_row(stored).date.instant.seconds == stored.instant.seconds,
        index_row(stored).date.instant.nanos == stored.instant.nanos,
        index_row(stored).date.instant.offset == stored.instant.offset,
        index_row(stored).file_index == stored.revision_id % 200,
        index_row(stored).position.revision_id == stored.revision_id,
        index_row(stored).position.record_start == stored.record_start,
        index_row(stored).position.record_length == stored.record_length,
{
}

/// What the indices are told of the stored revisions, in their order.
pub fn index_rows(stored: &Vec<StoredRevision>) -> (r: Vec<IndexRow>)
    ensures
        r@ == stored@.map_values(|s: StoredRevision| index_row(s)),
        r@.len() == stored@.len(),
        forall|i: int|
            0 <= i < stored@.len() ==> {
                &&& (#[trigger] r@[i]).date.revision_id == stored@[i].revision_id
                &&& r@[i].date.instant == stored@[i].instant
                &&& r@[i].file_index == stored@[i].revision_id % 200
                &&& r@[i].position.revision_id == stored@[i].revision_id
                &&& r@[i].position.record_start == stored@[i].record_start
                &&& r@[i].position.record_length == stored@[i].record_length
            },
{
    let mut rows: Vec<IndexRow> = Vec::new();
    for i in 0..stored.len()
        invariant
            rows@.len() == i,
            forall|j: int| 0 <= j < i ==> (#[trigger] rows@[j]) == index_row(stored@[j]),
    {
        let StoredRevision { instant, revision_id, record_start, record_length } = stored[i];
        let row = IndexRow {
            date: DateEntry { revision_id, instant },
            file_index: layout::file_index(revision_id),
            position: PositionEntry { revision_id, record_start, record_length },
        };
        rows.push(row);
    }
    assert(rows@ =~= stored@.map_values(|s: StoredRevision| index_row(s)));
    rows
}

} // verus!
