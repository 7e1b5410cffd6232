use wikipedia_revisions_server::download::{
    downloader_arguments, downloader_arguments_for, loader_failure,
};
use wikipedia_revisions_server::layout::{
    all_ids_to_positions_paths, all_revisions_files, all_temporary_little_date_file_paths,
    date_index_path_for, file_index, path_from_revision_id, position_map_file_from_id,
    temporary_little_date_file_path_to_date_to_id_path, BIG_DIR, DATES_TO_IDS_INTERMEDIARY_CSV,
    FAST_DIR, N_REVISION_FILES, PIPE_DIR, SUPER_DATE_BTREE_FILE,
};
use wikipedia_revisions_server::text::{parse_unsigned, push_decimal, push_signed_decimal};

fn decimal(n: u64) -> String {
    let mut out = String::new();
    push_decimal(&mut out, n);
    out
}

#[test]
fn decimal_notation() {
    assert_eq!(decimal(0), "0");
    assert_eq!(decimal(9), "9");
    assert_eq!(decimal(10), "10");
    assert_eq!(decimal(1_234_567_890), "1234567890");
    assert_eq!(decimal(u64::MAX), "18446744073709551615");
    let mut out = String::from("n=");
    push_decimal(&mut out, 305);
    assert_eq!(out, "n=305");
}

#[test]
fn signed_decimal_notation() {
    let mut out = String::new();
    push_signed_decimal(&mut out, i32::MIN);
    push_signed_decimal(&mut out, 0);
    push_signed_decimal(&mut out, 17);
    assert_eq!(out, "-2147483648017");
}

#[test]
fn parsing_undoes_decimal_notation() {
    for n in [0, 1, 10, 199, 200, 987_654_321, u64::MAX - 1, u64::MAX] {
        assert_eq!(parse_unsigned(&decimal(n)), Some(n));
    }
}

#[test]
fn parsing_agrees_with_the_standard_library() {
    let texts = [
        "", "+", "-", "+7", "-7", "-0", "++7", "7+", "007", " 7", "7 ", "7a", "\u{0664}", "1_000",
        "18446744073709551615", "18446744073709551616", "000000000000000000000000000012",
        "99999999999999999999999", "+18446744073709551615",
    ];
    for text in texts {
        assert_eq!(parse_unsigned(text), u64::from_str_radix(text, 10).ok(), "{}", text);
    }
}

#[test]
fn directories_and_fixed_files() {
    assert_eq!(FAST_DIR, "/fast_dir");
    assert_eq!(BIG_DIR, "/big_dir");
    assert_eq!(PIPE_DIR, "/pipes");
    assert_eq!(DATES_TO_IDS_INTERMEDIARY_CSV, "fast_dir/dates_to_ids.csv");
    assert_eq!(SUPER_DATE_BTREE_FILE, "fast_dir/super_date_btree_file.json");
    assert_eq!(N_REVISION_FILES, 200);
}

#[test]
fn paths_by_revision() {
    assert_eq!(path_from_revision_id(0), "/big_dir/0");
    assert_eq!(path_from_revision_id(199), "/big_dir/199");
    assert_eq!(path_from_revision_id(200), "/big_dir/0");
    assert_eq!(path_from_revision_id(u64::MAX), "/big_dir/15");
    assert_eq!(position_map_file_from_id(1234), "/fast_dir/34_maps.csv");
    assert_eq!(file_index(1234), 34);
}

#[test]
fn revision_paths_are_among_all_paths() {
    let files = all_revisions_files();
    let indices = all_ids_to_positions_paths();
    for id in [0, 1, 199, 200, 201, 123_456_789, u64::MAX] {
        assert_eq!(files[file_index(id)], path_from_revision_id(id));
        assert_eq!(indices[file_index(id)], position_map_file_from_id(id));
    }
}

#[test]
fn all_paths() {
    let files = all_revisions_files();
    assert_eq!(files.len(), 200);
    assert_eq!(files[0], "/big_dir/0");
    assert_eq!(files[199], "/big_dir/199");
    let indices = all_ids_to_positions_paths();
    assert_eq!(indices.len(), 200);
    assert_eq!(indices[42], "/fast_dir/42_maps.csv");
    let temporary = all_temporary_little_date_file_paths();
    assert_eq!(temporary.len(), 200);
    assert_eq!(temporary[0], "/fast_dir/1_temp_date_mapping.csv");
    assert_eq!(temporary[199], "/fast_dir/200_temp_date_mapping.csv");
}

#[test]
fn paths_are_distinct() {
    let mut all = all_revisions_files();
    all.extend(all_ids_to_positions_paths());
    let temporary = all_temporary_little_date_file_paths();
    for path in &temporary {
        all.push(temporary_little_date_file_path_to_date_to_id_path(path).unwrap());
    }
    all.extend(temporary);
    let count = all.len();
    all.sort();
    all.dedup();
    assert_eq!(all.len(), count);
}

#[test]
fn date_index_is_named_after_the_whole_match() {
    assert_eq!(
        temporary_little_date_file_path_to_date_to_id_path("/fast_dir/7_temp_date_mapping.csv"),
        Some("/fast_dir//fast_dir/7_temp_date_mapping.csv_date_map.json".to_string())
    );
    assert_eq!(
        temporary_little_date_file_path_to_date_to_id_path(
            "before/fast_dir/12_temp_date_mapping-csvafter"
        ),
        Some("/fast_dir//fast_dir/12_temp_date_mapping-csv_date_map.json".to_string())
    );
    for path in all_temporary_little_date_file_paths() {
        let around = format!("x{}y", path);
        assert_eq!(
            temporary_little_date_file_path_to_date_to_id_path(&around),
            temporary_little_date_file_path_to_date_to_id_path(&path)
        );
    }
    assert_eq!(
        temporary_little_date_file_path_to_date_to_id_path(
            "/fast_dir/fast_dir/3_temp_date_mapping.csv/fast_dir/4_temp_date_mapping.csv"
        ),
        Some("/fast_dir//fast_dir/3_temp_date_mapping.csv_date_map.json".to_string())
    );
    assert_eq!(
        temporary_little_date_file_path_to_date_to_id_path("/fast_dir/_temp_date_mapping.csv"),
        None
    );
    assert_eq!(temporary_little_date_file_path_to_date_to_id_path(""), None);
    assert_eq!(date_index_path_for("x"), "/fast_dir/x_date_map.json");
}

#[test]
fn downloader_is_started_with() {
    assert_eq!(downloader_arguments_for("20201201", 8), ["/fast_dir", "20201201", "8", "/pipes"]);
    assert_eq!(downloader_arguments_for("20201201", 1)[2], "2");
    assert_eq!(downloader_arguments_for("20201201", 0)[2], "2");
    assert_eq!(downloader_arguments_for("20201201", 2)[2], "2");
    let here = downloader_arguments("20201201");
    assert_eq!(here, downloader_arguments_for("20201201", num_cpus::get()));
}

#[test]
fn downloader_failures() {
    assert_eq!(loader_failure(true, Some(0)), None);
    assert_eq!(loader_failure(true, None), None);
    assert_eq!(loader_failure(false, Some(3)), Some("loader failed. Exit code: 3".to_string()));
    assert_eq!(loader_failure(false, Some(-9)), Some("loader failed. Exit code: -9".to_string()));
    assert_eq!(
        loader_failure(false, None),
        Some("loader failed. No exit code collected.".to_string())
    );
}
