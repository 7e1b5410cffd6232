//! Where everything is kept: directories, and the names of the files in them.

use vstd::prelude::*;

use crate::external;
use crate::text;

verus! {

/// A revision of a page.
pub type RevisionID = u64;

/// Directory of the indices.
pub const FAST_DIR: &'static str = "/fast_dir";

/// Directory of the compressed revisions.
pub const BIG_DIR: &'static str = "/big_dir";

/// Directory of the named pipes that the downloader opens.
pub const PIPE_DIR: &'static str = "/pipes";

/// Every revision and its time, before they are split by date.
pub const DATES_TO_IDS_INTERMEDIARY_CSV: &'static str = "fast_dir/dates_to_ids.csv";

/// The starting date of every date index, with the index's path.
pub const SUPER_DATE_BTREE_FILE: &'static str = "fast_dir/super_date_btree_file.json";

/// Number of files that revisions, positions and dates are each spread over. The files have to
/// be built anew when it changes.
pub const N_REVISION_FILES: u64 = 200;

/// Describes the path of a temporary date file.
pub const TEMPORARY_PATH_PATTERN: &'static str = "/fast_dir/(\\d+)_temp_date_mapping.csv";

/// Describes the name of a named pipe that holds revisions.
pub const PIPE_NAME_PATTERN: &'static str = "revisions-\\d+-\\d+\\.pipe";

/// Whether `part` occurs in `whole`.
pub open spec fn contains_text(whole: Seq<char>, part: Seq<char>) -> bool {
    exists|i: int|
        0 <= i <= whole.len() - part.len() && #[trigger] whole.subrange(i, i + part.len()) == part
}

/// The path of the data file with the given number.
pub open spec fn data_path(file: nat) -> Seq<char> {
    BIG_DIR@ + "/"@ + text::decimal(file)
}

/// The path of the position index with the given number.
pub open spec fn position_index_path(file: nat) -> Seq<char> {
    FAST_DIR@ + "/"@ + text::decimal(file) + "_maps.csv"@
}

/// The path of a temporary date file, by the digits in it.
pub open spec fn temporary_path_of(digits: Seq<char>) -> Seq<char> {
    FAST_DIR@ + "/"@ + digits + "_temp_date_mapping.csv"@
}

/// The path of the temporary date file with the given number.
pub open spec fn temporary_path(file: nat) -> Seq<char> {
    temporary_path_of(text::decimal(file))
}

/// Whether `path` names a temporary date file.
pub open spec fn is_temporary_path(path: Seq<char>) -> bool {
    exists|digits: Seq<char>|
        text::all_digits(digits) && path == #[trigger] temporary_path_of(digits)
}

/// Whether `text` is made up of `before`, the path of a temporary date file and `after`, and no
/// such path begins in `before`.
pub open spec fn is_first_in(
    text: Seq<char>,
    before: Seq<char>,
    path: Seq<char>,
    after: Seq<char>,
) -> bool {
    &&& text == before + path + after
    &&& is_temporary_path(path)
    &&& !contains_text(before, FAST_DIR@ + "/"@)
}

/// The path of the date index that is built from what `found` stands for.
pub open spec fn date_index_path(found: Seq<char>) -> Seq<char> {
    FAST_DIR@ + "/"@ + found + "_date_map.json"@
}

/// The name of a pipe of revisions, by its two numbers.
pub open spec fn pipe_name(first: Seq<char>, last: Seq<char>) -> Seq<char> {
    "revisions-"@ + first + "-"@ + last + ".pipe"@
}

/// Whether `name` is that of a pipe of revisions.
pub open spec fn is_pipe_name(name: Seq<char>) -> bool {
    exists|first: Seq<char>, last: Seq<char>|
        text::all_digits(first) && text::all_digits(last) && name == #[trigger] pipe_name(
            first,
            last,
        )
}

/// Whether `text` is made up of `before`, the name of a pipe of revisions and `after`.
pub open spec fn is_pipe_name_in(
    text: Seq<char>,
    before: Seq<char>,
    name: Seq<char>,
    after: Seq<char>,
) -> bool {
    text == before + name + after && is_pipe_name(name)
}

/// The paths of all data files, by number.
pub open spec fn data_paths() -> Seq<Seq<char>> {
    Seq::new(N_REVISION_FILES as nat, |i: int| data_path(i as nat))
}

/// The paths of all position indices, by number.
pub open spec fn position_index_paths() -> Seq<Seq<char>> {
    Seq::new(N_REVISION_FILES as nat, |i: int| position_index_path(i as nat))
}

/// The paths of all temporary date files, whose numbers begin at one.
pub open spec fn temporary_paths() -> Seq<Seq<char>> {
    Seq::new(N_REVISION_FILES as nat, |i: int| temporary_path((i + 1) as nat))
}

/// The number of the file that a revision belongs to.
pub open spec fn file_of(id: RevisionID) -> nat {
    id as nat % N_REVISION_FILES as nat
}

/// The number of the data file, and of the position index, that a revision belongs to.
pub fn file_index(id: RevisionID) -> (r: usize)
    ensures
        r == file_of(id),
        r < N_REVISION_FILES,
        r == id % 200,
{
    (id % N_REVISION_FILES) as usize
}

/// `directory`, a slash, `number` and `suffix`.
fn numbered_path(directory: &str, number: u64, suffix: &str) -> (r: String)
    ensures
        r@ == directory@ + "/"@ + text::decimal(number as nat) + suffix@,
{
    let mut path = directory.to_string();
    path.append("/");
    text::push_decimal(&mut path, number);
    path.append(suffix);
    path
}

/// The path of the data file that holds the revision `id`.
pub fn path_from_revision_id(id: RevisionID) -> (r: String)
    ensures
        r@ == data_path(file_of(id)),
        r@ == "/big_dir"@ + "/"@ + text::decimal(id as nat % 200),
{
    let path = numbered_path(BIG_DIR, id % N_REVISION_FILES, "");
    proof {
        reveal_strlit("");
        assert(path@ =~= data_path(file_of(id)));
    }
    path
}

/// The path of the position index that lists the revision `id`.
pub fn position_map_file_from_id(id: RevisionID) -> (r: String)
    ensures
        r@ == position_index_path(file_of(id)),
        r@ == "/fast_dir"@ + "/"@ + text::decimal(id as nat % 200) + "_maps.csv"@,
{
    numbered_path(FAST_DIR, id % N_REVISION_FILES, "_maps.csv")
}

/// The paths of all data files, by number.
pub fn all_revisions_files() -> (r: Vec<String>)
    ensures
        text::views(r@) == data_paths(),
        r@.len() == 200,
        forall|i: int|
            0 <= i < 200 ==> (#[trigger] r@[i])@ == "/big_dir"@ + "/"@ + text::decimal(i as nat),
{
    let mut paths: Vec<String> = Vec::new();
    for i in 0..N_REVISION_FILES
        invariant
            paths@.len() == i,
            forall|j: int| 0 <= j < i ==> (#[trigger] paths@[j])@ == data_path(j as nat),
    {
        let path = path_from_revision_id(i);
        paths.push(path);
    }
    assert(text::views(paths@) =~= data_paths());
    paths
}

/// The paths of all position indices, by number.
pub fn all_ids_to_positions_paths() -> (r: Vec<String>)
    ensures
        text::views(r@) == position_index_paths(),
        r@.len() == 200,
        forall|i: int|
            0 <= i < 200 ==> (#[trigger] r@[i])@ == "/fast_dir"@ + "/"@ + text::decimal(i as nat)
                + "_maps.csv"@,
{
    let mut paths: Vec<String> = Vec::new();
    for i in 0..N_REVISION_FILES
        invariant
            paths@.len() == i,
            forall|j: int| 0 <= j < i ==> (#[trigger] paths@[j])@ == position_index_path(j as nat),
    {
        let path = position_map_file_from_id(i);
        paths.push(path);
    }
    assert(text::views(paths@) =~= position_index_paths());
    paths
}

/// The paths of all temporary date files, in order. Their numbers begin at one.
pub fn all_temporary_little_date_file_paths() -> (r: Vec<String>)
    ensures
        text::views(r@) == temporary_paths(),
        r@.len() == 200,
        forall|i: int|
            0 <= i < 200 ==> (#[trigger] r@[i])@ == "/fast_dir"@ + "/"@ + text::decimal(
                (i + 1) as nat,
            ) + "_temp_date_mapping.csv"@,
{
    let mut paths: Vec<String> = Vec::new();
    for i in 0..N_REVISION_FILES
        invariant
            paths@.len() == i,
            forall|j: int|
                0 <= j < i ==> (#[trigger] paths@[j])@ == temporary_path((j + 1) as nat),
    {
        let path = numbered_path(FAST_DIR, i + 1, "_temp_date_mapping.csv");
        paths.push(path);
    }
    assert(text::views(paths@) =~= temporary_paths());
    paths
}

/// The path of the date index for what was found of a temporary date file's path.
pub fn date_index_path_for(found: &str) -> (r: String)
    ensures
        r@ == date_index_path(found@),
        r@ == "/fast_dir"@ + "/"@ + found@ + "_date_map.json"@,
{
    let mut path = FAST_DIR.to_string();
    path.append("/");
    path.append(found);
    path.append("_date_map.json");
    path
}

/// The path of the date index that is built from a temporary date file: the whole of what
/// matches in the file's path goes into it, and nothing around it. `None` where nothing in the
/// path matches.
pub fn temporary_little_date_file_path_to_date_to_id_path(little_file_path: &str) -> (r: Option<
    String,
>)
    ensures
        match external::regex_first_match(TEMPORARY_PATH_PATTERN@, little_file_path@) {
            Some(found) => r is Some && r->0@ == date_index_path(found),
            None => r is None,
        },
        match external::regex_first_match(
            "/fast_dir/(\\d+)_temp_date_mapping.csv"@,
            little_file_path@,
        ) {
            Some(found) => r is Some && r->0@ == "/fast_dir"@ + "/"@ + found + "_date_map.json"@,
            None => r is None,
        },
        is_temporary_path(little_file_path@) ==> r is Some && r->0@ == date_index_path(
            little_file_path@,
        ),
        forall|before: Seq<char>, path: Seq<char>, after: Seq<char>| #[trigger]
            is_first_in(little_file_path@, before, path, after) ==> r is Some && r->0@
                == date_index_path(path),
{
    proof {
        let (path, none) = (little_file_path@, Seq::<char>::empty());
        reveal_strlit("/");
        assert(path =~= none + path + none);
        assert(is_temporary_path(path) ==> is_first_in(path, none, path, none));
    }
    match external::first_match(TEMPORARY_PATH_PATTERN, little_file_path) {
        Some(found) => Some(date_index_path_for(found.as_str())),
        None => None,
    }
}

/// A revision is looked for in the data file that its number among all data files stands for,
/// and its position in the position index of the same number.
pub proof fn law_revision_paths_are_listed(id: RevisionID)
    ensures
        file_of(id) < N_REVISION_FILES,
        data_paths()[file_of(id) as int] == data_path(file_of(id)),
        position_index_paths()[file_of(id) as int] == position_index_path(file_of(id)),
{
}

/// What stands between a fixed beginning and a fixed end can be read back.
proof fn lemma_middle(before: Seq<char>, m: Seq<char>, n: Seq<char>, after: Seq<char>)
    requires
        before + m + after == before + n + after,
    ensures
        m == n,
{
    let (a, b) = (before + m + after, before + n + after);
    let start = before.len() as int;
    assert(a.len() == b.len());
    assert(m =~= a.subrange(start, start + m.len()));
    assert(n =~= b.subrange(start, start + n.len()));
}

/// Different numbers stand for different files.
pub proof fn law_paths_are_distinct(m: nat, n: nat)
    requires
        m != n,
    ensures
        data_path(m) != data_path(n),
        position_index_path(m) != position_index_path(n),
        temporary_path(m) != temporary_path(n),
        date_index_path(temporary_path(m)) != date_index_path(temporary_path(n)),
{
    text::law_decimal_injective(m, n);
    let (dm, dn) = (text::decimal(m), text::decimal(n));
    if data_path(m) == data_path(n) {
        let before = BIG_DIR@ + "/"@;
        assert(before + dm + Seq::<char>::empty() =~= data_path(m));
        assert(before + dn + Seq::<char>::empty() =~= data_path(n));
        lemma_middle(before, dm, dn, Seq::empty());
    }
    let before = FAST_DIR@ + "/"@;
    if position_index_path(m) == position_index_path(n) {
        lemma_middle(before, dm, dn, "_maps.csv"@);
    }
    if temporary_path(m) == temporary_path(n) {
        lemma_middle(before, dm, dn, "_temp_date_mapping.csv"@);
    }
    if date_index_path(temporary_path(m)) == date_index_path(temporary_path(n)) {
        lemma_middle(before, temporary_path(m), temporary_path(n), "_date_map.json"@);
    }
}

/// Every temporary date file has a path of the form that its date index is named after.
pub proof fn law_temporary_paths_are_recognised(file: nat)
    ensures
        is_temporary_path(temporary_path(file)),
{
    text::law_decimal_denotes(file);
}

/// There are two hundred files of each kind, and a revision belongs to the one that its id leaves
/// when it is divided by their number: two revisions share a file exactly where their ids differ
/// by a multiple of it.
pub proof fn law_revisions_are_spread_by_remainder(a: RevisionID, b: RevisionID)
    ensures
        file_of(a) < 200,
        a == 200 * (a as int / 200) + file_of(a),
        file_of(a) == file_of(b) <==> (a - b) % 200 == 0,
        data_paths().len() == 200,
        position_index_paths().len() == 200,
        temporary_paths().len() == 200,
{
    let (x, y) = (a as int, b as int);
    assert(x == 200 * (x / 200) + x % 200 && y == 200 * (y / 200) + y % 200);
}

/// The number of a file can be read back from its path, between a fixed beginning and a fixed end.
/// The number is written without leading zeros. The paths stand in order of these numbers, which
/// begin at zero, or at one for temporary date files.
pub proof fn law_paths_hold_the_number(file: nat)
    ensures
        data_path(file) == "/big_dir"@ + "/"@ + text::decimal(file),
        position_index_path(file) == "/fast_dir"@ + "/"@ + text::decimal(file) + "_maps.csv"@,
        temporary_path(file) == "/fast_dir"@ + "/"@ + text::decimal(file)
            + "_temp_date_mapping.csv"@,
        file < 200 ==> data_paths()[file as int] == data_path(file),
        file < 200 ==> position_index_paths()[file as int] == position_index_path(file),
        1 <= file <= 200 ==> temporary_paths()[file - 1] == temporary_path(file),
        text::digits_value(text::decimal(file)) == file,
{
    text::law_decimal_denotes(file);
}

/// The path of a date index holds the whole path of the temporary date file that it is built from.
pub proof fn law_date_index_path_holds_what_was_found(found: Seq<char>)
    ensures
        date_index_path(found) == "/fast_dir"@ + "/"@ + found + "_date_map.json"@,
{
}

/// A pipe of revisions is recognised by any two numbers in its name, and so is a temporary date
/// file by any number in its path.
pub proof fn law_names_with_digits_are_recognised(first: Seq<char>, last: Seq<char>)
    requires
        first.len() > 0,
        last.len() > 0,
        forall|i: int| 0 <= i < first.len() ==> '0' <= #[trigger] first[i] <= '9',
        forall|i: int| 0 <= i < last.len() ==> '0' <= #[trigger] last[i] <= '9',
    ensures
        is_pipe_name("revisions-"@ + first + "-"@ + last + ".pipe"@),
        is_temporary_path("/fast_dir"@ + "/"@ + first + "_temp_date_mapping.csv"@),
{
    assert(is_pipe_name(pipe_name(first, last)));
    assert(is_temporary_path(temporary_path_of(first)));
}

} // verus!
