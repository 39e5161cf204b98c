use tag_engine::graph::local_path;
use tag_engine::index::TagIndex;
use tag_engine::paths::{components, local_part, split_root_path};
use tag_engine::query::{intersection, list_of, set_of, union};
use tag_engine::server::{parse_request, request_tags, RequestKind};
use tag_engine::tags::{contains_name, difference};
use tag_engine::text::{chars_of, join, space, split, starts_with, string_of, trim, words};

fn strings(lines: &[&str]) -> Vec<String> {
    lines.iter().map(|l| l.to_string()).collect()
}

#[test]
fn split_root_path_cuts_after_the_last_slash() {
    let mut path = "/home/user/root".to_string();
    let (base, local) = split_root_path(&mut path);
    assert_eq!(base, "/home/user/");
    assert_eq!(local, "root");
    assert_eq!(path, "/home/user/");
    let mut path = "root".to_string();
    assert_eq!(split_root_path(&mut path), (String::new(), "root".to_string()));
    assert_eq!(path, "");
    let mut path = "/home/user/".to_string();
    assert_eq!(split_root_path(&mut path), ("/home/user/".to_string(), String::new()));
    let mut path = String::new();
    assert_eq!(split_root_path(&mut path), (String::new(), String::new()));
}

#[test]
fn local_path_takes_the_base_off() {
    let mut path = "/home/user/root/a/x.txt".to_string();
    assert_eq!(local_path(&mut path, "/home/user/".to_string()), "root/a/x.txt");
    assert_eq!(path, "/home/user/");
    let mut path = "/home/user/root".to_string();
    assert_eq!(local_path(&mut path, String::new()), "/home/user/root");
    assert_eq!(path, "");
    let mut path = "/d\u{e9}p\u{f4}t/racine/x".to_string();
    assert_eq!(local_path(&mut path, "/d\u{e9}p\u{f4}t/".to_string()), "racine/x");
    let mut path = "abc".to_string();
    assert_eq!(local_path(&mut path, "abc".to_string()), "");
}

#[test]
fn local_part_of_paths_under_and_outside_the_base() {
    let base = "/home/user/".to_string();
    assert_eq!(
        local_part(&"/home/user/root/a".to_string(), &base),
        Some("root/a".to_string())
    );
    assert_eq!(local_part(&"/home/other/root".to_string(), &base), None);
    assert_eq!(local_part(&"/home".to_string(), &base), None);
    assert_eq!(local_part(&base, &base), Some(String::new()));
}

#[test]
fn components_of_paths() {
    assert_eq!(components("root/a/x.txt"), strings(&["root", "a", "x.txt"]));
    assert_eq!(components("/root/a"), strings(&["root", "a"]));
    assert_eq!(components("root"), strings(&["root"]));
    assert_eq!(components(""), Vec::<String>::new());
    assert_eq!(components("root/"), strings(&["root", ""]));
    assert_eq!(components("//root"), strings(&["", "root"]));
}

#[test]
fn split_and_join() {
    assert_eq!(split("a/b/c", '/'), strings(&["a", "b", "c"]));
    assert_eq!(split("", '/'), strings(&[""]));
    assert_eq!(split("/", '/'), strings(&["", ""]));
    assert_eq!(split("a//b", '/'), strings(&["a", "", "b"]));
    assert_eq!(split("abc", ' '), strings(&["abc"]));
    assert_eq!(join(&strings(&["a", "b", "c"]), '/'), "a/b/c");
    assert_eq!(join(&strings(&["a"]), '/'), "a");
    assert_eq!(join(&Vec::new(), '/'), "");
    assert_eq!(join(&strings(&["", ""]), '/'), "/");
    assert_eq!(join(&split("/x//y/", '/'), '/'), "/x//y/");
}

#[test]
fn trim_and_words() {
    assert_eq!(trim("  a b \t\n"), "a b");
    assert_eq!(trim(""), "");
    assert_eq!(trim(" \t "), "");
    assert_eq!(trim("abc"), "abc");
    assert_eq!(trim("\u{a0}x\u{3000}"), "x");
    assert_eq!(words("  red   crimson "), strings(&["red", "crimson"]));
    assert_eq!(words("red"), strings(&["red"]));
    assert_eq!(words(""), Vec::<String>::new());
    assert_eq!(words(" \n "), Vec::<String>::new());
    assert_eq!(words("a\tb\nc"), strings(&["a", "b", "c"]));
}

#[test]
fn white_space_is_what_unicode_says() {
    for code in 0..0x3100u32 {
        if let Some(c) = char::from_u32(code) {
            assert_eq!(space(c), c.is_whitespace());
        }
    }
}

#[test]
fn characters_and_prefixes() {
    assert_eq!(chars_of("a\u{e9}z"), vec!['a', '\u{e9}', 'z']);
    assert_eq!(chars_of(""), Vec::<char>::new());
    assert_eq!(string_of(&vec!['a', 'b', 'c', 'd'], 1, 3), "bc");
    assert_eq!(string_of(&vec!['a', 'b'], 2, 2), "");
    assert!(starts_with("/home/user/root", "/home/"));
    assert!(starts_with("abc", ""));
    assert!(starts_with("abc", "abc"));
    assert!(!starts_with("abc", "abcd"));
    assert!(!starts_with("abc", "abd"));
}

#[test]
fn requests_are_read_from_bytes() {
    match parse_request(&b"0x0  red AND blue \n".to_vec()) {
        Some(RequestKind::Entries(request)) => assert_eq!(request, "red AND blue"),
        _ => panic!("not read as a query"),
    }
    match parse_request(&b"0x0".to_vec()) {
        Some(RequestKind::Entries(request)) => assert_eq!(request, ""),
        _ => panic!("not read as a query"),
    }
    assert!(matches!(parse_request(&b"0x1".to_vec()), Some(RequestKind::Tags)));
    assert!(matches!(parse_request(&b"0x1 whatever".to_vec()), Some(RequestKind::Tags)));
    match parse_request(&b"0x2 red crimson".to_vec()) {
        Some(RequestKind::RenameTag(request)) => assert_eq!(request, "red crimson"),
        _ => panic!("not read as a renaming"),
    }
    match parse_request(&vec![0x30, 0x78, 0x30, 0x20, 0xe9, 0x20]) {
        Some(RequestKind::Entries(request)) => assert_eq!(request, "\u{e9}"),
        _ => panic!("not read as a query"),
    }
    assert!(parse_request(&b"0x".to_vec()).is_none());
    assert!(parse_request(&Vec::new()).is_none());
    assert!(parse_request(&b"0x3".to_vec()).is_none());
    assert!(parse_request(&b"1x0 red".to_vec()).is_none());
    assert!(parse_request(&b"0y0 red".to_vec()).is_none());
    assert!(parse_request(&b" 0x0".to_vec()).is_none());
}

#[test]
fn index_holds_each_name_once() {
    let mut index = TagIndex::new();
    assert_eq!(index.len(), 0);
    assert_eq!(index.get(&"red".to_string()), None);
    index.insert("red".to_string(), 3);
    index.insert("blue".to_string(), 5);
    index.insert("red".to_string(), 7);
    assert_eq!(index.len(), 2);
    assert_eq!(index.get(&"red".to_string()), Some(7));
    assert_eq!(index.get(&"blue".to_string()), Some(5));
    assert!(index.contains_key(&"blue".to_string()));
    assert!(!index.contains_key(&"green".to_string()));
    let mut keys = index.keys();
    keys.sort();
    assert_eq!(keys, strings(&["blue", "red"]));
    assert_eq!(index.remove(&"green".to_string()), None);
    assert_eq!(index.remove(&"red".to_string()), Some(7));
    assert_eq!(index.remove(&"red".to_string()), None);
    assert_eq!(index.len(), 1);
    assert_eq!(index.keys(), strings(&["blue"]));
}

#[test]
fn tags_are_listed_in_order() {
    let mut index = TagIndex::new();
    for (i, name) in ["zulu", "alpha", "Zed", "mike", "alphabet", "", "\u{e9}t\u{e9}"]
        .iter()
        .enumerate()
    {
        index.insert(name.to_string(), i as u32);
    }
    assert_eq!(
        request_tags(&index),
        strings(&["", "Zed", "alpha", "alphabet", "mike", "zulu", "\u{e9}t\u{e9}"])
    );
    assert_eq!(request_tags(&TagIndex::new()), Vec::<String>::new());
}

#[test]
fn lists_of_names() {
    let a = strings(&["red", "blue", "green"]);
    let b = strings(&["blue", "black"]);
    assert!(contains_name(&a, &"blue".to_string()));
    assert!(!contains_name(&a, &"black".to_string()));
    assert!(!contains_name(&Vec::new(), &"black".to_string()));
    assert_eq!(difference(&a, &b), strings(&["red", "green"]));
    assert_eq!(difference(&b, &a), strings(&["black"]));
    assert_eq!(difference(&a, &a), Vec::<String>::new());
    assert_eq!(difference(&a, &Vec::new()), a);
}

#[test]
fn sets_of_handles() {
    let a = set_of(&vec![4, 1, 9, 4]);
    let b = set_of(&vec![9, 2, 4, 2]);
    assert_eq!(a.len(), 3);
    assert!(a.contains(&9) && a.contains(&4) && a.contains(&1));
    let mut both = list_of(&intersection(&a, &b));
    both.sort();
    assert_eq!(both, vec![4, 9]);
    assert!(intersection(&a, &set_of(&Vec::new())).is_empty());
    let mut either = list_of(&union(&a, &b));
    either.sort();
    assert_eq!(either, vec![1, 2, 4, 9]);
    let mut right = list_of(&union(&set_of(&Vec::new()), &b));
    right.sort();
    assert_eq!(right, vec![2, 4, 9]);
    assert_eq!(list_of(&set_of(&Vec::new())), Vec::<u32>::new());
}

fn sample_texts() -> Vec<String> {
    let alphabet = ['a', 'b', ' ', '/', '\t', '\n', 'A', '\u{e9}', '\u{a0}', 'x', ' ', '/'];
    let mut state: u64 = 0x2545_f491_4f6c_dd1d;
    let mut texts = Vec::new();
    for round in 0..400 {
        let len = round % 9;
        let mut text = String::new();
        for _ in 0..len {
            state ^= state << 13;
            state ^= state >> 7;
            state ^= state << 17;
            text.push(alphabet[(state % alphabet.len() as u64) as usize]);
        }
        texts.push(text);
    }
    texts
}

#[test]
fn text_functions_agree_with_the_standard_library() {
    for text in sample_texts() {
        let pieces: Vec<String> = text.split('/').map(|p| p.to_string()).collect();
        assert_eq!(split(&text, '/'), pieces);
        assert_eq!(join(&pieces, '/'), text);
        let spaced: Vec<String> = text.split(' ').map(|p| p.to_string()).collect();
        assert_eq!(split(&text, ' '), spaced);
        assert_eq!(trim(&text), text.trim());
        let found: Vec<String> = text.split_whitespace().map(|p| p.to_string()).collect();
        assert_eq!(words(&text), found);
        assert_eq!(chars_of(&text), text.chars().collect::<Vec<char>>());
        for prefix in sample_texts().iter().take(40) {
            assert_eq!(starts_with(&text, prefix), text.starts_with(prefix.as_str()));
        }
    }
}

#[test]
fn tag_names_are_sorted_as_the_standard_library_sorts() {
    let mut index = TagIndex::new();
    let mut expected: Vec<String> = Vec::new();
    for (i, text) in sample_texts().into_iter().enumerate() {
        if !expected.contains(&text) {
            expected.push(text.clone());
        }
        index.insert(text, i as u32);
    }
    expected.sort();
    assert_eq!(request_tags(&index), expected);
    assert_eq!(index.len(), expected.len());
}
