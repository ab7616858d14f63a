use advent2022::day07;
use advent2022::day07::{build_directories, cd, dir, ls, part1, part2, Directory, File};

const SAMPLE_INPUT: &str = "$ cd /
$ ls
dir a
14848514 b.txt
8504156 c.dat
dir d
$ cd a
$ ls
dir e
29116 f
2557 g
62596 h.lst
$ cd e
$ ls
584 i
$ cd ..
$ cd ..
$ cd d
$ ls
4060174 j
8033020 d.log
5626152 d.ext
7214296 k";

#[test]
fn day07_part1_test() {
    let answer = part1(SAMPLE_INPUT);
    assert_eq!(answer, 95437)
}

#[test]
fn day07_part2_test() {
    let answer = part2(SAMPLE_INPUT);
    assert_eq!(answer, 24933642)
}

#[test]
fn session_lines() {
    assert_eq!(cd(b"$ cd /"), Some(b"/".to_vec()));
    assert_eq!(cd(b"$ cd .."), Some(b"..".to_vec()));
    assert_eq!(cd(b"$ cd abc.d"), Some(b"abc".to_vec()));
    assert_eq!(cd(b"$ cd 1"), None);
    assert_eq!(cd(b"$ cd"), None);
    assert!(ls(b"$ ls"));
    assert!(ls(b"$ ls -l"));
    assert!(!ls(b"$ l"));
    assert_eq!(dir(b"dir abc"), Some(b"abc".to_vec()));
    assert_eq!(dir(b"dir "), None);
    assert_eq!(day07::file(b"123 a.txt"), Some(File { size: 123 }));
    assert_eq!(day07::file(b"-5x"), Some(File { size: -5 }));
    assert_eq!(day07::file(b"123"), None);
    assert_eq!(day07::file(b"x 123"), None);
    assert_eq!(day07::file(b"99999999999 a"), None);
}

#[test]
fn directories_of_the_sample() {
    let directories = build_directories(SAMPLE_INPUT);
    assert_eq!(directories.len(), 4);
    let names: Vec<&[u8]> = directories.iter().map(|d| d.name.as_slice()).collect();
    assert_eq!(names, vec![&b"/"[..], &b"a"[..], &b"e"[..], &b"d"[..]]);
    assert_eq!(directories[2].path, vec![b"/".to_vec(), b"a".to_vec()]);
    assert_eq!(directories[0].dir_names, vec![b"a".to_vec(), b"d".to_vec()]);
    assert_eq!(directories[0].file_size(), 23352670);
    assert_eq!(directories[0].size(&directories), 48381165);
    assert_eq!(directories[1].size(&directories), 94853);
    assert_eq!(directories[2].size(&directories), 584);
    assert_eq!(directories[3].size(&directories), 24933642);
    assert!(directories[2].is_in(&directories[1]));
    assert!(!directories[2].is_in(&directories[0]));
    let mut lone = Directory { path: vec![], name: b"x".to_vec(), dir_names: vec![], files: vec![] };
    lone.add_file(File { size: 5 });
    lone.add_file(File { size: -2 });
    lone.add_directory(b"y".to_vec());
    assert_eq!(lone.size(&directories), 3);
    assert_eq!(lone.dir_names, vec![b"y".to_vec()]);
}
