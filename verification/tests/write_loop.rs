use simplerotate::plan::SimpleRotate;
use simplerotate::simfs::SimDir;
use simplerotate::writer::WriterState;
use simplerotate::writer::initial_output_file_size;

fn bytes(s: &str) -> Vec<u8> {
    s.as_bytes().to_vec()
}

fn read_str(dir: &SimDir, name: &str) -> Option<String> {
    dir.read(&String::from(name)).map(|v| String::from_utf8(v.clone()).unwrap())
}

#[test]
fn lines_below_threshold_are_concatenated_in_order() {
    let sr = SimpleRotate::new("lock", 100, "output", 3);
    let mut dir = SimDir::new();
    let lines = vec![bytes("aa\n"), bytes("bbb\n"), bytes("c\n")];
    sr.run_sim(&mut dir, &lines);
    assert_eq!(read_str(&dir, "output"), Some(String::from("aa\nbbb\nc\n")));
    assert_eq!(read_str(&dir, "output.1"), None);
}

#[test]
fn reaching_the_threshold_exactly_rotates_before_the_next_line() {
    let sr = SimpleRotate::new("lock", 7, "output", 3);
    let mut dir = SimDir::new();
    let lines = vec![bytes("abc\n"), bytes("de\n"), bytes("x\n")];
    // 4 + 3 bytes reach the threshold of 7 exactly: both lines rotate into
    // the first backup and the next line starts a fresh file
    sr.run_sim(&mut dir, &lines);
    assert_eq!(read_str(&dir, "output"), Some(String::from("x\n")));
    assert_eq!(read_str(&dir, "output.1"), Some(String::from("abc\nde\n")));
}

#[test]
fn one_oversized_line_is_written_completely_before_rotating() {
    let sr = SimpleRotate::new("lock", 3, "output", 3);
    let mut dir = SimDir::new();
    let lines = vec![bytes("abcdefgh")];
    sr.run_sim(&mut dir, &lines);
    assert_eq!(read_str(&dir, "output"), Some(String::from("")));
    assert_eq!(read_str(&dir, "output.1"), Some(String::from("abcdefgh")));
}

#[test]
fn rotation_against_an_empty_directory_leaves_a_fresh_empty_output() {
    let sr = SimpleRotate::new("lock", 5, "output", 3);
    let mut dir = SimDir::new();
    let lines = vec![bytes("abcdef")];
    sr.run_sim(&mut dir, &lines);
    assert_eq!(read_str(&dir, "output"), Some(String::from("")));
    assert_eq!(read_str(&dir, "output.1"), Some(String::from("abcdef")));
    assert_eq!(read_str(&dir, "output.2"), None);
}

#[test]
fn truncation_only_when_at_most_one_file_is_retained() {
    let sr = SimpleRotate::new("lock", 4, "output", 1);
    let mut dir = SimDir::new();
    let lines = vec![bytes("abcd"), bytes("ef")];
    // the first line meets the threshold; with no backup slots the file is
    // simply truncated and the second line starts it over
    sr.run_sim(&mut dir, &lines);
    assert_eq!(read_str(&dir, "output"), Some(String::from("ef")));
    assert_eq!(read_str(&dir, "output.1"), None);
}

#[test]
fn restart_against_existing_output_resumes_the_byte_count() {
    let sr = SimpleRotate::new("lock", 10, "output", 3);
    let mut dir = SimDir::new();
    dir.write(&String::from("output"), bytes("12345"));
    // 5 bytes already on disk, 5 more reach the threshold of 10 exactly:
    // exactly one rotation, carrying the old and the new bytes together
    let lines = vec![bytes("abcde")];
    sr.run_sim(&mut dir, &lines);
    assert_eq!(read_str(&dir, "output"), Some(String::from("")));
    assert_eq!(read_str(&dir, "output.1"), Some(String::from("12345abcde")));
    assert_eq!(read_str(&dir, "output.2"), None);
}

#[test]
fn end_to_end_three_lines_two_files() {
    let sr = SimpleRotate::new("lock", 10, "output", 3);
    let mut dir = SimDir::new();
    let lines = vec![bytes("aaaaa\n"), bytes("bbbbb\n"), bytes("ccccc\n")];
    // line 1: 6 bytes, below 10. line 2: cumulative 12 >= 10, rotate: the
    // first two lines move to output.1 and a fresh output starts. line 3:
    // 6 bytes into the fresh file.
    sr.run_sim(&mut dir, &lines);
    assert_eq!(read_str(&dir, "output"), Some(String::from("ccccc\n")));
    assert_eq!(read_str(&dir, "output.1"), Some(String::from("aaaaa\nbbbbb\n")));
    assert_eq!(read_str(&dir, "output.2"), None);
}

#[test]
fn byte_count_trigger_is_a_lower_bound() {
    let mut state = WriterState::start(0);
    assert!(!state.record_line(5, 10));
    assert_eq!(state.bytes_since_rotation, 5);
    assert!(state.record_line(5, 10));
    assert_eq!(state.bytes_since_rotation, 0);
    assert!(state.record_line(20, 10));
    assert_eq!(state.bytes_since_rotation, 0);
}

#[test]
fn byte_count_seed_comes_from_the_disk_size() {
    assert_eq!(initial_output_file_size(Some(5)), 5);
    assert_eq!(initial_output_file_size(Some(0)), 0);
    assert_eq!(initial_output_file_size(None), 0);
}

#[test]
fn writer_seeds_from_existing_output_without_rewriting_it() {
    let sr = SimpleRotate::new("lock", 100, "output", 3);
    let mut dir = SimDir::new();
    dir.write(&String::from("output"), bytes("kept"));
    let lines = vec![bytes("+more")];
    sr.run_sim(&mut dir, &lines);
    assert_eq!(read_str(&dir, "output"), Some(String::from("kept+more")));
}
