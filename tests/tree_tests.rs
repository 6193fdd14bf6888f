use dir_sizes::error::FsError;
use dir_sizes::parse::{parse_input, CommandType, InstructionLine, ListedFile};
use dir_sizes::query::{SMALL_DIRECTORY_LIMIT, USABLE_CAPACITY};
use dir_sizes::replay::construct_file_system;
use dir_sizes::tree::{DataFile, Directory};

fn lines(text: &[&str]) -> Vec<String> {
    text.iter().map(|l| l.to_string()).collect()
}

fn build(text: &[&str]) -> Result<Directory, FsError> {
    let instructions = parse_input(&lines(text))?;
    construct_file_system(instructions)
}

fn child<'a>(d: &'a Directory, name: &str) -> &'a Directory {
    d.sub_directories().iter().find(|c| c.name() == name).unwrap()
}

const SCENARIO: [&str; 8] = [
    "$ cd /", "$ ls", "dir a", "100 f.txt", "$ cd a", "$ ls", "200 g.txt", "$ cd ..",
];

#[test]
fn scenario_sizes() {
    let root = build(&SCENARIO).unwrap();
    assert_eq!(root.name(), "/");
    assert_eq!(root.get_size(), 300);
    assert_eq!(child(&root, "a").get_size(), 200);
    assert_eq!(root.file_sizes(), vec![100]);
    assert_eq!(child(&root, "a").file_sizes(), vec![200]);
}

#[test]
fn scenario_threshold_sum() {
    let root = build(&SCENARIO).unwrap();
    assert_eq!(root.sum_of_small_directories(SMALL_DIRECTORY_LIMIT), 500);
    assert_eq!(root.sum_of_small_directories(250), 200);
    assert_eq!(root.sum_of_small_directories(200), 0);
}

#[test]
fn scenario_deletion_candidate() {
    let root = build(&SCENARIO).unwrap();
    assert_eq!(root.smallest_deletion_candidate(200), Ok(200));
    assert_eq!(root.smallest_deletion_candidate(50), Ok(300));
    assert_eq!(root.smallest_deletion_candidate(300), Ok(200));
}

#[test]
fn deletion_candidate_underflow_is_refused() {
    let root = build(&SCENARIO).unwrap();
    assert_eq!(root.smallest_deletion_candidate(USABLE_CAPACITY), Err(FsError::CapacityNotExceeded));
    assert_eq!(root.smallest_deletion_candidate(301), Err(FsError::CapacityNotExceeded));
}

#[test]
fn scenario_cursor_returns_to_root() {
    let root = build(&SCENARIO).unwrap();
    assert!(root.path_directory().is_none());
    assert!(child(&root, "a").path_directory().is_none());
}

#[test]
fn unbalanced_descents_leave_marker_chain() {
    let root = build(&["$ cd /", "$ ls", "dir a", "$ cd a", "$ ls", "dir b", "$ cd b", "$ ls", "5 x"]).unwrap();
    assert_eq!(root.path_directory().as_deref(), Some("a"));
    let a = child(&root, "a");
    assert_eq!(a.path_directory().as_deref(), Some("b"));
    assert!(child(a, "b").path_directory().is_none());
    assert_eq!(child(a, "b").file_sizes(), vec![5]);
}

#[test]
fn cd_root_leaves_cursor_in_place() {
    let root = build(&["$ ls", "dir a", "$ cd a", "$ cd /", "7 x"]).unwrap();
    assert_eq!(child(&root, "a").file_sizes(), vec![7]);
    assert!(root.file_sizes().is_empty());
}

#[test]
fn duplicate_directory_is_refused() {
    assert_eq!(build(&["$ cd /", "$ ls", "dir a", "dir a"]).err(), Some(FsError::DuplicateDirectory));
}

#[test]
fn relisting_files_appends_duplicates() {
    let root = build(&["$ ls", "10 x", "$ ls", "10 x"]).unwrap();
    assert_eq!(root.file_sizes(), vec![10, 10]);
    assert_eq!(root.get_size(), 20);
}

#[test]
fn ascend_past_root_is_refused() {
    assert_eq!(build(&["$ cd /", "$ cd .."]).err(), Some(FsError::AscendAboveRoot));
    assert_eq!(build(&["$ ls", "dir a", "$ cd a", "$ cd ..", "$ cd .."]).err(), Some(FsError::AscendAboveRoot));
}

#[test]
fn missing_directory_is_refused() {
    assert_eq!(build(&["$ cd /", "$ cd nowhere"]).err(), Some(FsError::MissingDirectory));
}

#[test]
fn malformed_lines_are_refused() {
    assert_eq!(parse_input(&lines(&["$ ls", "nospace"])).err(), Some(FsError::MalformedLine));
    assert_eq!(parse_input(&lines(&["12x f.txt"])).err(), Some(FsError::MalformedLine));
    assert_eq!(parse_input(&lines(&["-3 f.txt"])).err(), Some(FsError::MalformedLine));
    assert_eq!(parse_input(&lines(&["18446744073709551616 f"])).err(), Some(FsError::MalformedLine));
}

#[test]
fn parse_instruction_reads_commands() {
    match CommandType::parse_instruction("cd foo") {
        CommandType::ChangeDirectory { directory_name } => assert_eq!(directory_name, "foo"),
        CommandType::List => panic!("expected cd"),
    }
    assert!(matches!(CommandType::parse_instruction("ls"), CommandType::List));
    assert!(matches!(CommandType::parse_instruction("cdx"), CommandType::List));
}

#[test]
fn parse_line_reads_entries() {
    match ListedFile::parse_line("dir some dir") {
        Ok(ListedFile::Directory { name }) => assert_eq!(name, "some dir"),
        _ => panic!("expected a directory"),
    }
    assert!(matches!(ListedFile::parse_line("1234 a.txt"), Ok(ListedFile::GeneralFile { size: 1234 })));
    assert!(matches!(ListedFile::parse_line("+5 b"), Ok(ListedFile::GeneralFile { size: 5 })));
    assert!(matches!(ListedFile::parse_line("7 name with spaces"), Ok(ListedFile::GeneralFile { size: 7 })));
    assert_eq!(ListedFile::parse_line("abc").err(), Some(FsError::MalformedLine));
}

#[test]
fn parse_input_keeps_line_order() {
    let v = parse_input(&lines(&["$ cd x", "$ ls", "dir y", "3 z"])).unwrap();
    assert_eq!(v.len(), 4);
    assert!(matches!(&v[0], InstructionLine::Command(CommandType::ChangeDirectory { directory_name }) if directory_name == "x"));
    assert!(matches!(&v[1], InstructionLine::Command(CommandType::List)));
    assert!(matches!(&v[2], InstructionLine::ListContent(ListedFile::Directory { name }) if name == "y"));
    assert!(matches!(&v[3], InstructionLine::ListContent(ListedFile::GeneralFile { size: 3 })));
}

#[test]
fn additivity_on_synthetic_tree() {
    let mut root = Directory::new("/".to_string());
    root.push_file(DataFile { content_size: 10 });
    root.push_file(DataFile { content_size: 20 });
    root.push_directory(Directory::new("b".to_string())).unwrap();
    root.push_directory(Directory::new("d".to_string())).unwrap();
    root.push_path("b".to_string()).unwrap();
    root.push_file(DataFile { content_size: 5 });
    root.push_directory(Directory::new("c".to_string())).unwrap();
    root.push_path("c".to_string()).unwrap();
    root.push_file(DataFile { content_size: 7 });
    root.pop_path().unwrap();
    root.pop_path().unwrap();
    let b = child(&root, "b");
    assert_eq!(child(b, "c").get_size(), 7);
    assert_eq!(b.get_size(), 12);
    assert_eq!(child(&root, "d").get_size(), 0);
    assert_eq!(root.get_size(), 42);
    for d in root.sub_directories() {
        assert!(root.get_size() >= d.get_size());
    }
}

#[test]
fn rotation_keeps_child_order() {
    let mut root = Directory::new("/".to_string());
    root.push_directory(Directory::new("p".to_string())).unwrap();
    root.push_directory(Directory::new("q".to_string())).unwrap();
    root.push_directory(Directory::new("r".to_string())).unwrap();
    root.push_path("q".to_string()).unwrap();
    root.push_file(DataFile { content_size: 1 });
    let names: Vec<&String> = root.sub_directories().iter().map(|d| d.name()).collect();
    assert_eq!(names, vec!["p", "q", "r"]);
    assert_eq!(root.path_directory().as_deref(), Some("q"));
}

#[test]
fn get_pathed_directory_detaches_marked_child() {
    let mut root = Directory::new("/".to_string());
    assert!(root.get_pathed_directory().is_none());
    root.push_directory(Directory::new("a".to_string())).unwrap();
    root.push_path("a".to_string()).unwrap();
    let a = root.get_pathed_directory().unwrap();
    assert_eq!(a.name(), "a");
    assert!(root.sub_directories().is_empty());
    assert_eq!(root.path_directory().as_deref(), Some("a"));
}

#[test]
fn push_path_to_missing_child_changes_nothing() {
    let mut root = Directory::new("/".to_string());
    assert_eq!(root.push_path("a".to_string()), Err(FsError::MissingDirectory));
    assert!(root.path_directory().is_none());
    assert_eq!(root.pop_path(), Err(FsError::AscendAboveRoot));
}

#[test]
fn size_saturates() {
    let mut root = Directory::new("/".to_string());
    root.push_file(DataFile { content_size: u64::MAX });
    root.push_file(DataFile { content_size: 1 });
    assert_eq!(root.get_size(), u64::MAX);
}

#[test]
fn queries_are_deterministic() {
    let root = build(&["$ ls", "dir a", "dir b", "50000 f", "$ cd a", "$ ls", "30000 g", "$ cd ..", "$ cd b", "$ ls", "70000 h"]).unwrap();
    let first = root.sum_of_small_directories(SMALL_DIRECTORY_LIMIT);
    let second = root.sum_of_small_directories(SMALL_DIRECTORY_LIMIT);
    assert_eq!(first, second);
    assert_eq!(first, 100_000);
    let d1 = root.smallest_deletion_candidate(100_000);
    let d2 = root.smallest_deletion_candidate(100_000);
    assert_eq!(d1, d2);
    assert_eq!(d1, Ok(70000));
}
