use zipclean::planner::normalize_file_name;
use zipclean::planner::search_zip_content_path_to_delete;
use zipclean::planner::sort_path_by_depth;
use zipclean::planner::unpack_mode;
use zipclean::zip::CentralDirectoryFileHeader;

#[test]
fn unpack_all_delete_mode() {
    let mut codes = Vec::new();
    codes.push(1);
    codes.push(2);
    assert_eq!(codes, unpack_mode(3));
}

#[test]
fn trim_dot_slash_in_path() {
    assert_eq!("A/A/B.txt", normalize_file_name("../A/../A/./B.txt"));
}

#[test]
fn unpack_single_bits() {
    assert_eq!(unpack_mode(1), vec![1]);
    assert_eq!(unpack_mode(2), vec![2]);
    assert_eq!(unpack_mode(0), Vec::<u32>::new());
    assert_eq!(unpack_mode(0xFF), vec![1, 2, 3, 4, 5, 6, 7, 8]);
}

#[test]
fn normalize_backslashes() {
    assert_eq!("A/B.txt", normalize_file_name("..\\A\\.\\B.txt"));
    assert_eq!("plain.txt", normalize_file_name("plain.txt"));
    assert_eq!("", normalize_file_name(""));
}

fn header(name: &str, size: u32) -> CentralDirectoryFileHeader {
    CentralDirectoryFileHeader {
        file_name: name.to_string(),
        uncompressed_size: size,
        general_purpose_bit_flag: [0, 0],
    }
}

#[test]
fn select_paths_matching_observed_sizes() {
    let headers = vec![
        header("a.txt", 5),
        header("b.txt", 7),
        header("../c.txt", 9),
    ];
    let observed = vec![Some(5u64), Some(8u64), Some(9u64)];
    let paths = search_zip_content_path_to_delete(&headers, "base", &observed);
    assert_eq!(paths, vec!["base/a.txt".to_string(), "base/c.txt".to_string()]);
}

#[test]
fn select_nothing_when_nothing_observed() {
    let headers = vec![header("a.txt", 5)];
    let observed = vec![None];
    let paths = search_zip_content_path_to_delete(&headers, "base", &observed);
    assert!(paths.is_empty());
}

#[test]
fn sort_deepest_first_then_lexicographic() {
    let mut paths = vec![
        "a/b".to_string(),
        "z".to_string(),
        "a/b/c".to_string(),
        "a".to_string(),
        "a/a".to_string(),
    ];
    sort_path_by_depth(&mut paths);
    assert_eq!(paths, vec!["a/b/c", "a/a", "a/b", "a", "z"]);
}
