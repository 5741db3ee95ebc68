use sort_big_file::engine::{join_lines, FileSorter, ProgramArguments};
use sort_big_file::naming::{usize_to_string, ChunkId};
use sort_big_file::sorting::{clone_chunk, merge_sorted, sort_content, sort_strings};

fn lines(words: &[&str]) -> Vec<String> {
    words.iter().map(|w| w.to_string()).collect()
}

fn sorter(lines_per_file: usize) -> FileSorter {
    FileSorter {
        input: String::new(),
        output: String::new(),
        lines_per_file,
    }
}

#[test]
fn decimal_rendering() {
    assert_eq!(usize_to_string(0), "0");
    assert_eq!(usize_to_string(7), "7");
    assert_eq!(usize_to_string(10), "10");
    assert_eq!(usize_to_string(907), "907");
}

#[test]
fn chunk_file_names() {
    assert_eq!(ChunkId { level: 0, index: 0 }.file_name(), "0_0.txt");
    assert_eq!(ChunkId { level: 12, index: 345 }.file_name(), "12_345.txt");
    assert_eq!(FileSorter::get_sub_file_name(1, 2), "1_2.txt");
}

#[test]
fn defaults() {
    let sorter = FileSorter::default();
    assert_eq!(sorter.input, "");
    assert_eq!(sorter.output, "");
    assert_eq!(sorter.lines_per_file, 10);
    let arguments = ProgramArguments::default();
    assert_eq!(arguments.input, "");
    assert_eq!(arguments.output, "");
}

#[test]
fn new_takes_paths_and_chunk_size() {
    let arguments = ProgramArguments {
        input: "in.txt".to_string(),
        output: "out.txt".to_string(),
    };
    let with_size = FileSorter::new(&arguments, Some(4));
    assert_eq!(with_size.input, "in.txt");
    assert_eq!(with_size.output, "out.txt");
    assert_eq!(with_size.lines_per_file, 4);
    let without = FileSorter::new(&arguments, None);
    assert_eq!(without.lines_per_file, 10);
}

#[test]
fn join_lines_uses_single_newlines() {
    assert_eq!(join_lines(&lines(&[])), "");
    assert_eq!(join_lines(&lines(&["a"])), "a");
    assert_eq!(join_lines(&lines(&["a", "b", "c"])), "a\nb\nc");
}

#[test]
fn sort_content_splits_on_whitespace_and_sorts() {
    assert_eq!(sort_content("b a"), lines(&["a", "b"]));
    assert_eq!(sort_content("  x \t y\n z "), lines(&["x", "y", "z"]));
    assert_eq!(sort_content(""), lines(&[]));
}

#[test]
fn sort_strings_orders_lexicographically() {
    let out = sort_strings(lines(&["pear", "apple", "orange", "Apple", "apple"]));
    assert_eq!(out, lines(&["Apple", "apple", "apple", "orange", "pear"]));
}

#[test]
fn merge_sorted_interleaves() {
    let out = merge_sorted(&lines(&["a", "c", "e"]), &lines(&["b", "d"]));
    assert_eq!(out, lines(&["a", "b", "c", "d", "e"]));
}

#[test]
fn merge_sorted_keeps_duplicates() {
    let out = merge_sorted(&lines(&["a", "b"]), &lines(&["a", "b"]));
    assert_eq!(out, lines(&["a", "a", "b", "b"]));
}

#[test]
fn merge_sorted_with_an_empty_side() {
    let out = merge_sorted(&lines(&[]), &lines(&["a", "b"]));
    assert_eq!(out, lines(&["a", "b"]));
}

#[test]
fn clone_chunk_copies() {
    let original = lines(&["x", "y"]);
    assert_eq!(clone_chunk(&original), original);
}

#[test]
fn split_files_respects_chunk_bounds() {
    // nine lines with four lines per chunk: chunks of sizes 4, 4 and 1
    let input = lines(&["i", "h", "g", "f", "e", "d", "c", "b", "a"]);
    let ((level, count), chunks) = sorter(4).split_files(&input);
    assert_eq!(level, 0);
    assert_eq!(count, 3);
    assert_eq!(chunks.len(), 3);
    assert_eq!(chunks[0], lines(&["f", "g", "h", "i"]));
    assert_eq!(chunks[1], lines(&["b", "c", "d", "e"]));
    assert_eq!(chunks[2], lines(&["a"]));
}

#[test]
fn split_files_of_empty_input_yields_no_chunk() {
    let ((level, count), chunks) = sorter(10).split_files(&lines(&[]));
    assert_eq!(level, 0);
    assert_eq!(count, 0);
    assert!(chunks.is_empty());
}

#[test]
fn merge_files_of_few_files_does_nothing() {
    let (name, content) = FileSorter::merge_files(0, Vec::new());
    assert_eq!(name, "");
    assert!(content.is_empty());
    let (name, content) = FileSorter::merge_files(0, vec![lines(&["a", "b"])]);
    assert_eq!(name, "");
    assert_eq!(content, lines(&["a", "b"]));
}

#[test]
fn merge_files_reports_the_surviving_file() {
    let files = vec![lines(&["a", "d"]), lines(&["b", "e"]), lines(&["c"])];
    let (name, content) = FileSorter::merge_files(0, files);
    // three files take two passes: the survivor is file 0 of level 2
    assert_eq!(name, "2_0.txt");
    assert_eq!(content, lines(&["a", "b", "c", "d", "e"]));
}

#[test]
fn merge_preserves_the_multiset_even_for_unsorted_inputs() {
    let out = merge_sorted(&lines(&["b", "a"]), &lines(&["c"]));
    let mut sorted = out.clone();
    sorted.sort();
    assert_eq!(out.len(), 3);
    assert_eq!(sorted, lines(&["a", "b", "c"]));
}

#[test]
fn five_files_survive_at_level_three() {
    let files = vec![
        lines(&["e"]),
        lines(&["d"]),
        lines(&["c"]),
        lines(&["b"]),
        lines(&["a"]),
    ];
    let (name, content) = FileSorter::merge_files(0, files);
    // 5 files become 3, then 2, then 1: the survivor is file 0 of level 3
    assert_eq!(name, "3_0.txt");
    assert_eq!(content, lines(&["a", "b", "c", "d", "e"]));
}

#[test]
fn twenty_five_words_in_chunks_of_ten() {
    let words = [
        "whale", "yak", "zebra", "vole", "urchin", "tiger", "stoat", "rhino", "quail", "pig",
        "otter", "newt", "mole", "lynx", "koala", "jay", "ibis", "hare", "gnu", "fox", "emu",
        "dog", "cat", "bee", "ant",
    ];
    let input = lines(&words);
    let s = sorter(10);
    let ((_, count), chunks) = s.split_files(&input);
    assert_eq!(count, 3);
    assert_eq!(chunks[0].len(), 10);
    assert_eq!(chunks[1].len(), 10);
    assert_eq!(chunks[2].len(), 5);
    let out = s.sort_file(&input);
    let mut expected: Vec<String> = input.clone();
    expected.sort();
    assert_eq!(out, expected);
    assert_eq!(out.len(), 25);
}

#[test]
fn single_line_input_comes_back_unchanged() {
    let out = sorter(10).sort_file(&lines(&["zebra"]));
    assert_eq!(out, lines(&["zebra"]));
}

#[test]
fn empty_input_sorts_to_empty_output() {
    let out = sorter(10).sort_file(&lines(&[]));
    assert!(out.is_empty());
}

#[test]
fn duplicates_survive_and_sit_together() {
    let out = sorter(2).sort_file(&lines(&["b", "a", "b", "c", "a", "a"]));
    assert_eq!(out, lines(&["a", "a", "a", "b", "b", "c"]));
}

#[test]
fn sorting_twice_changes_nothing() {
    let once = sorter(3).sort_file(&lines(&["d", "b", "a", "c", "e", "b", "f", "a"]));
    let twice = sorter(3).sort_file(&once);
    assert_eq!(once, twice);
}

#[test]
fn tokens_within_a_line_are_records_of_their_own() {
    // the in-chunk sort works on whitespace tokens, not on whole lines
    let out = sorter(10).sort_file(&lines(&["b a", "c"]));
    assert_eq!(out, lines(&["a", "b", "c"]));
}
