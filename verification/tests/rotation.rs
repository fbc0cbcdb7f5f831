use simplerotate::plan::SimpleRotate;
use simplerotate::simfs::SimDir;

fn bytes(s: &str) -> Vec<u8> {
    s.as_bytes().to_vec()
}

fn read_str(dir: &SimDir, name: &str) -> Option<String> {
    dir.read(&String::from(name)).map(|v| String::from_utf8(v.clone()).unwrap())
}

#[test]
fn plan_has_one_step_per_backup_slot() {
    let sr = SimpleRotate::new("lock", 1024 * 1024, "output", 10);
    assert_eq!(sr.rotation_info_list.len(), 9);
    assert_eq!(sr.rotation_info_list[0].from_filename().as_str(), "output.8");
    assert_eq!(sr.rotation_info_list[0].to_filename().as_str(), "output.9");
    assert_eq!(sr.rotation_info_list[8].from_filename().as_str(), "output");
    assert_eq!(sr.rotation_info_list[8].to_filename().as_str(), "output.1");
}

#[test]
fn plan_runs_highest_generation_first() {
    let steps = SimpleRotate::rotation_info_list("output", 3);
    assert_eq!(steps.len(), 2);
    assert_eq!(steps[0].from_filename().as_str(), "output.1");
    assert_eq!(steps[0].to_filename().as_str(), "output.2");
    assert_eq!(steps[1].from_filename().as_str(), "output");
    assert_eq!(steps[1].to_filename().as_str(), "output.1");
}

#[test]
fn plan_is_empty_for_at_most_one_retained_file() {
    assert_eq!(SimpleRotate::rotation_info_list("output", 0).len(), 0);
    assert_eq!(SimpleRotate::rotation_info_list("output", 1).len(), 0);
}

#[test]
fn plan_names_use_decimal_numbers() {
    let steps = SimpleRotate::rotation_info_list("out", 13);
    assert_eq!(steps[0].from_filename().as_str(), "out.11");
    assert_eq!(steps[0].to_filename().as_str(), "out.12");
    assert_eq!(steps[2].from_filename().as_str(), "out.9");
    assert_eq!(steps[2].to_filename().as_str(), "out.10");
}

#[test]
fn rotation_shifts_contents_up_and_frees_the_active_name() {
    let sr = SimpleRotate::new("lock", 10, "output", 3);
    let mut dir = SimDir::new();
    dir.write(&String::from("output"), bytes("A"));
    dir.write(&String::from("output.1"), bytes("B"));
    sr.rotate_sim(&mut dir);
    assert_eq!(read_str(&dir, "output"), None);
    assert_eq!(read_str(&dir, "output.1"), Some(String::from("A")));
    assert_eq!(read_str(&dir, "output.2"), Some(String::from("B")));
}

#[test]
fn rotation_evicts_the_oldest_generation() {
    let sr = SimpleRotate::new("lock", 10, "output", 3);
    let mut dir = SimDir::new();
    dir.write(&String::from("output"), bytes("new"));
    dir.write(&String::from("output.1"), bytes("old"));
    dir.write(&String::from("output.2"), bytes("oldest"));
    sr.rotate_sim(&mut dir);
    assert_eq!(read_str(&dir, "output"), None);
    assert_eq!(read_str(&dir, "output.1"), Some(String::from("new")));
    assert_eq!(read_str(&dir, "output.2"), Some(String::from("old")));
    assert_eq!(read_str(&dir, "output.3"), None);
}

#[test]
fn rotation_with_no_files_changes_nothing() {
    let sr = SimpleRotate::new("lock", 10, "output", 5);
    let mut dir = SimDir::new();
    sr.rotate_sim(&mut dir);
    assert_eq!(read_str(&dir, "output"), None);
    assert_eq!(read_str(&dir, "output.1"), None);
}

#[test]
fn rotation_with_missing_sources_still_runs_remaining_steps() {
    // only the active file exists: the first steps fail harmlessly and the
    // last one still moves it into the first backup slot
    let sr = SimpleRotate::new("lock", 10, "output", 4);
    let mut dir = SimDir::new();
    dir.write(&String::from("output"), bytes("data"));
    sr.rotate_sim(&mut dir);
    assert_eq!(read_str(&dir, "output"), None);
    assert_eq!(read_str(&dir, "output.1"), Some(String::from("data")));
    assert_eq!(read_str(&dir, "output.2"), None);
    assert_eq!(read_str(&dir, "output.3"), None);
}

#[test]
fn simdir_rename_overwrites_target_and_reports_missing_source() {
    let mut dir = SimDir::new();
    dir.write(&String::from("a"), bytes("one"));
    dir.write(&String::from("b"), bytes("two"));
    assert!(dir.rename(&String::from("a"), &String::from("b")));
    assert_eq!(read_str(&dir, "a"), None);
    assert_eq!(read_str(&dir, "b"), Some(String::from("one")));
    assert!(!dir.rename(&String::from("missing"), &String::from("b")));
    assert_eq!(read_str(&dir, "b"), Some(String::from("one")));
}
