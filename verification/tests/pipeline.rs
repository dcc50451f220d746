//! Tests of the scanning pipeline: token extraction, the two filters,
//! and package-name normalization.

use cdeps::extract::{extract_header_name, get_includes, ScanError};
use cdeps::filter::{
    final_path_segment, is_source_extension, remove_local_files_from_includes,
    remove_stdlib_headers,
};
use cdeps::normalize::{extract_names_from_headers, extract_pkg_name};
use cdeps::utils::{ends_with_any, find_first_of_any};

fn strings(items: &[&str]) -> Vec<String> {
    items.iter().map(|s| s.to_string()).collect()
}

#[test]
fn normalize_slash_takes_first_segment() {
    assert_eq!(extract_pkg_name(&"foo/bar.h".to_string()), "foo");
    assert_eq!(extract_pkg_name(&"foo/baz.h".to_string()), "foo");
}

#[test]
fn normalize_dot_takes_stem() {
    assert_eq!(extract_pkg_name(&"zlib.h".to_string()), "zlib");
}

#[test]
fn normalize_strips_version_and_case() {
    assert_eq!(extract_pkg_name(&"sdl2/SDL.h".to_string()), "sdl");
}

#[test]
fn normalize_pure_digits_gives_empty() {
    assert_eq!(extract_pkg_name(&"9".to_string()), "");
}

#[test]
fn normalize_cuts_at_first_digit_anywhere() {
    // The stem ends in a digit, so it is cut at the first digit of the
    // stem, not at the start of the trailing run.
    assert_eq!(extract_pkg_name(&"lib2foo3".to_string()), "lib");
    // A digit in the middle alone does not trigger the cut.
    assert_eq!(extract_pkg_name(&"lib2foo".to_string()), "lib2foo");
}

#[test]
fn normalize_whole_token_without_separators() {
    assert_eq!(extract_pkg_name(&"Boost".to_string()), "boost");
}

#[test]
fn ends_with_any_checks_final_character() {
    assert!(ends_with_any(&"sdl2".to_string(), &"0123456789".to_string()));
    assert!(!ends_with_any(&"zlib".to_string(), &"0123456789".to_string()));
    assert!(!ends_with_any(&"".to_string(), &"0123456789".to_string()));
}

#[test]
fn find_first_of_any_returns_first_position_or_max() {
    assert_eq!(find_first_of_any(&"lib2foo3".to_string(), &"0123456789".to_string()), 3);
    assert_eq!(find_first_of_any(&"zlib".to_string(), &"0123456789".to_string()), usize::MAX);
}

#[test]
fn header_name_angle_form() {
    assert_eq!(extract_header_name("#include <stdio.h>"), Some("stdio.h".to_string()));
}

#[test]
fn header_name_quoted_form() {
    assert_eq!(extract_header_name("#include \"mylocal.h\""), Some("mylocal.h".to_string()));
}

#[test]
fn header_name_missing_closing_delimiter() {
    assert_eq!(extract_header_name("#include <stdio.h"), None);
    assert_eq!(extract_header_name("#include \"mylocal.h"), None);
}

#[test]
fn get_includes_extracts_sorts_and_dedups() {
    let files = strings(&[
        "#include <fmt/core.h>\n#include <zlib.h>\nint main() { return 0; }\n",
        "#include <zlib.h>\n#include <assert.h>\n",
    ]);
    let table = strings(&["assert.h", "stdio.h"]);
    let got = get_includes(&files, &table).unwrap();
    assert_eq!(got, strings(&["fmt/core.h", "zlib.h"]));
}

#[test]
fn get_includes_ignores_mid_line_directives() {
    let files = strings(&["// #include <fake.h>\n  #include <indented.h>\n"]);
    let table = strings(&[]);
    let got = get_includes(&files, &table).unwrap();
    assert!(got.is_empty());
}

#[test]
fn get_includes_fails_fast_on_malformed_line() {
    let files = strings(&["#include <ok.h>\n#include <broken.h\n"]);
    let table = strings(&[]);
    assert_eq!(get_includes(&files, &table), Err(ScanError::MalformedDirective));
}

#[test]
fn get_includes_handles_missing_trailing_newline_and_crlf() {
    let files = strings(&["#include <a.h>\r\n#include <b.h>"]);
    let table = strings(&[]);
    let got = get_includes(&files, &table).unwrap();
    assert_eq!(got, strings(&["a.h", "b.h"]));
}

#[test]
fn get_includes_of_no_files_is_empty() {
    let got = get_includes(&vec![], &strings(&["stdio.h"])).unwrap();
    assert!(got.is_empty());
}

#[test]
fn stdlib_filter_removes_every_table_entry() {
    let table = strings(&["assert.h", "stdio.h", "string", "vector"]);
    let includes = strings(&["stdio.h", "vector", "fmt/core.h", "string", "assert.h"]);
    let got = remove_stdlib_headers(&includes, &table);
    assert_eq!(got, strings(&["fmt/core.h"]));
    for entry in &table {
        assert!(!got.contains(entry));
    }
}

#[test]
fn local_filter_matches_final_path_segment() {
    let locals = strings(&["mylocal.h", "util.h"]);
    let includes = strings(&["deep/path/mylocal.h", "util.h", "fmt/core.h"]);
    let got = remove_local_files_from_includes(&includes, &locals);
    assert_eq!(got, strings(&["fmt/core.h"]));
}

#[test]
fn final_path_segment_takes_part_after_last_slash() {
    assert_eq!(final_path_segment(&"a/b/c.h".to_string()), "c.h");
    assert_eq!(final_path_segment(&"c.h".to_string()), "c.h");
}

#[test]
fn source_extensions_match_by_substring() {
    assert!(is_source_extension(&".c".to_string()));
    assert!(is_source_extension(&".h".to_string()));
    assert!(is_source_extension(&".cpp".to_string()));
    assert!(is_source_extension(&".hpp".to_string()));
    assert!(is_source_extension(&".cc".to_string()));
    assert!(!is_source_extension(&".txt".to_string()));
    assert!(!is_source_extension(&".rs".to_string()));
}

#[test]
fn candidates_are_sorted_and_distinct() {
    let headers = strings(&["zlib.h", "fmt/core.h", "zlib1.h", "fmt/format.h", "SDL2/SDL.h"]);
    let got = extract_names_from_headers(&headers);
    assert_eq!(got, strings(&["fmt", "sdl", "zlib"]));
    let mut sorted = got.clone();
    sorted.sort();
    sorted.dedup();
    assert_eq!(got, sorted);
}

#[test]
fn pipeline_is_idempotent_on_unchanged_tree() {
    let files = strings(&["#include <fmt/core.h>\n#include <zlib.h>\n"]);
    let table = strings(&["stdio.h"]);
    let locals = strings(&["a.c"]);
    let run = || {
        let includes = get_includes(&files, &table).unwrap();
        let external = remove_local_files_from_includes(&includes, &locals);
        extract_names_from_headers(&external)
    };
    assert_eq!(run(), run());
}

#[test]
fn local_and_stdlib_tree_yields_no_candidates() {
    // A tree of one source file whose two directives name a standard
    // header and a header the tree itself provides.
    let files = strings(&["#include <stdio.h>\n#include \"mylocal.h\"\n"]);
    let table = strings(&["stdio.h"]);
    let locals = strings(&["a.c", "mylocal.h"]);
    let includes = get_includes(&files, &table).unwrap();
    assert_eq!(includes, strings(&["mylocal.h"]));
    let external = remove_local_files_from_includes(&includes, &locals);
    assert!(external.is_empty());
    let candidates = extract_names_from_headers(&external);
    assert!(candidates.is_empty());
}
