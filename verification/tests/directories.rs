use advent_of_code::helpers::parsing::{iterate_all, AocLineParsable};
use advent_of_code::solutions::day07;
use advent_of_code::solutions::day07::{
    ChangeDirCommand, Command, DirectoryNode, DirectoryTree, File, InputLine,
};

const SESSION: &str = "$ cd /\n$ ls\ndir a\n14848514 b.txt\n8504156 c.dat\ndir d\n$ cd a\n$ ls\ndir e\n29116 f\n2557 g\n62596 h.lst\n$ cd e\n$ ls\n584 i\n$ cd ..\n$ cd ..\n$ cd d\n$ ls\n4060174 j\n8033020 d.log\n5626152 d.ext\n7214296 k\n";

#[test]
fn small_directories_add_up() {
    assert_eq!(day07::part_one(SESSION), Some(95437));
    assert_eq!(day07::part_one(""), Some(0));
    assert_eq!(day07::part_one("$ ls\n5 a\n7 b"), Some(12));
}

#[test]
fn the_smallest_directory_that_frees_enough() {
    assert_eq!(day07::part_two(SESSION), Some(24933642));
    // Nothing has to be freed on an empty disk.
    assert_eq!(day07::part_two(""), None);
    assert_eq!(day07::part_two("$ ls\n39999999 a\n"), None);
    assert_eq!(day07::part_two("$ ls\n40000000 a\n"), Some(40000000));
    assert_eq!(day07::part_two("$ ls\n40000001 a\n"), Some(40000001));
    assert_eq!(day07::part_two("$ ls\n70000001 a\n"), None);
    assert_eq!(
        day07::part_two("$ ls\n30000000 a\n$ cd x\n$ ls\n20000000 b\n$ cd y\n$ ls\n10000000 c\n"),
        Some(30000000)
    );
}

#[test]
fn sessions_that_cannot_be_followed() {
    assert_eq!(day07::part_one("$ cd ..\n"), None);
    assert_eq!(day07::part_one("$ cd a\n$ cd /\n"), None);
    assert_eq!(day07::part_one("$ cd a\n$ cd ..\n$ cd /\n$ ls\n3 x\n"), Some(3));
    assert!(day07::parse_from_command_input(b"$ cd a\n$ cd ..\n$ cd ..\n").is_none());
}

#[test]
fn lines_of_a_session_are_read() {
    let lines: Vec<InputLine> = iterate_all(b"$ cd /\n$ cd ..\n$ cd abc\n$ ls\ndir x\n12 y.txt\nrest");
    assert_eq!(
        lines,
        vec![
            InputLine::Command(Command::ChangeDir(ChangeDirCommand::Root)),
            InputLine::Command(Command::ChangeDir(ChangeDirCommand::Up)),
            InputLine::Command(Command::ChangeDir(ChangeDirCommand::Down {
                directory: b"abc".to_vec()
            })),
            InputLine::Command(Command::List),
            InputLine::File(File { is_directory: true, size: None }),
            InputLine::File(File { is_directory: false, size: Some(12) }),
        ]
    );
    assert_eq!(File::parse(b"dir a\n", 0), Some((File { is_directory: true, size: None }, 5)));
    assert_eq!(File::parse(b"4294967295 a", 0).map(|(f, to)| (f.size, to)), Some((Some(u32::MAX), 12)));
    assert_eq!(File::parse(b"4294967296 a", 0), None);
    assert_eq!(File::parse(b"12a", 0), None);
    assert_eq!(Command::parse(b"$ ls -l", 0), Some((Command::List, 4)));
    assert_eq!(Command::parse(b"$ cat", 0), None);
    assert_eq!(Command::parse(b"ls", 0), None);
    assert_eq!(Command::parse(b"$ cd a\rb\n", 0), None);
    assert_eq!(
        InputLine::parse_from_line(b"$ cd a\r\n", 0),
        Some((InputLine::Command(Command::ChangeDir(ChangeDirCommand::Down { directory: b"a".to_vec() })), 6))
    );
}

#[test]
fn the_tree_grows_with_the_directories_entered() {
    let (mut tree, root) = DirectoryTree::new();
    assert_eq!(root, 0);
    assert_eq!(tree.dirs().len(), 1);
    assert_eq!(tree.dirs()[0].name, b"/".to_vec());
    let a = day07::change_dir(&mut tree, root, ChangeDirCommand::Down { directory: b"a".to_vec() }).unwrap();
    let b = day07::change_dir(&mut tree, root, ChangeDirCommand::Down { directory: b"b".to_vec() }).unwrap();
    let deep = day07::change_dir(&mut tree, a, ChangeDirCommand::Down { directory: b"b".to_vec() }).unwrap();
    assert_eq!((a, b, deep), (1, 2, 3));
    assert_eq!(day07::change_dir(&mut tree, root, ChangeDirCommand::Down { directory: b"a".to_vec() }), Some(a));
    assert_eq!(day07::change_dir(&mut tree, a, ChangeDirCommand::Down { directory: b"b".to_vec() }), Some(deep));
    assert_eq!(day07::change_dir(&mut tree, deep, ChangeDirCommand::Up), Some(a));
    assert_eq!(day07::change_dir(&mut tree, a, ChangeDirCommand::Up), Some(root));
    assert_eq!(day07::change_dir(&mut tree, root, ChangeDirCommand::Up), None);
    assert_eq!(day07::change_dir(&mut tree, root, ChangeDirCommand::Root), Some(root));
    assert_eq!(day07::change_dir(&mut tree, b, ChangeDirCommand::Root), None);
    assert_eq!(tree.dirs().len(), 4);
    let root_node: DirectoryNode = DirectoryNode::new_root();
    assert_eq!((root_node.name, root_node.files.len(), root_node.size), (b"/".to_vec(), 0, None));
}

#[test]
fn sizes_are_worked_out_bottom_up() {
    let (tree, root) = day07::parse_from_command_input(SESSION.as_bytes()).unwrap();
    assert!(tree.dirs().iter().all(|dir| dir.size.is_none()));
    let names: Vec<&[u8]> = tree.dirs().iter().map(|dir| dir.name.as_slice()).collect();
    assert_eq!(names, vec![&b"/"[..], &b"a"[..], &b"e"[..], &b"d"[..]]);
    let sized = day07::calculate_directory_sizes(tree, root).unwrap();
    let sizes: Vec<Option<usize>> = sized.dirs().iter().map(|dir| dir.size).collect();
    assert_eq!(sizes, vec![Some(48381165), Some(94853), Some(584), Some(24933642)]);
}
