use tag_engine::graph::{
    get_node_index, make_graph, make_subgraph, move_entry, remove_entries, update_tags, MyGraph,
    NodeKind, Probe, ScanEntry,
};
use tag_engine::index::TagIndex;
use tag_engine::links::{kind_of, room_for};
use tag_engine::moving::{is_inside, parent_of, MoveOutcome};
use tag_engine::query::{entries, expression_to_entries, make_path};
use tag_engine::server::{handle_request, write_response};
use tag_engine::tags::get_tags;
use tag_engine::{dispatcher, Event, Handled};

const BASE: &str = "/home/user/";

fn tags(names: &[&str]) -> Option<Vec<String>> {
    Some(names.iter().map(|n| n.to_string()).collect())
}

fn probes(depth: usize, directory: bool, names: &[&str]) -> Vec<Option<Probe>> {
    let mut v: Vec<Option<Probe>> = Vec::new();
    for _ in 0..depth {
        v.push(None);
    }
    v.push(Some(Probe { directory, tags: tags(names) }));
    v
}

fn scan(path: &str, depth: usize, directory: bool, names: &[&str]) -> ScanEntry {
    ScanEntry { path: path.to_string(), probes: probes(depth, directory, names) }
}

// root/{a{x.txt[tags=red,blue]}, b.txt[tags=red]}
fn sample() -> (MyGraph, TagIndex, u32) {
    make_graph(
        "/home/user/root".to_string(),
        BASE.to_string(),
        None,
        vec![
            scan("root/a", 1, true, &[]),
            scan("root/a/x.txt", 2, false, &["red", "blue"]),
            scan("root/b.txt", 1, false, &["red"]),
        ],
    )
}

fn ask(request: &str, root: u32, graph: &mut MyGraph, index: &mut TagIndex) -> Vec<String> {
    let buffer: Vec<u8> = request.as_bytes().to_vec();
    handle_request(&buffer, root, graph, index, &BASE.to_string()).lines
}

fn strings(lines: &[&str]) -> Vec<String> {
    lines.iter().map(|l| l.to_string()).collect()
}

#[test]
fn bootstrap_lists_tags_and_answers_queries() {
    let (mut graph, mut index, root) = sample();
    assert_eq!(ask("0x1", root, &mut graph, &mut index), strings(&["blue", "red"]));
    assert_eq!(
        ask("0x0 red", root, &mut graph, &mut index),
        strings(&["/home/user/root/a/x.txt", "/home/user/root/b.txt"])
    );
    assert_eq!(
        ask("0x0 red AND blue", root, &mut graph, &mut index),
        strings(&["/home/user/root/a/x.txt"])
    );
    assert_eq!(
        ask("0x0 red OR blue", root, &mut graph, &mut index),
        strings(&["/home/user/root/a/x.txt", "/home/user/root/b.txt"])
    );
}

#[test]
fn created_file_brings_its_tag() {
    let (mut graph, mut index, root) = sample();
    let handled = dispatcher(
        Event::Created {
            path: "/home/user/root/c.txt".to_string(),
            probes: probes(1, false, &["green"]),
        },
        &mut index,
        &mut graph,
        root,
        BASE.to_string(),
    );
    let added = match handled {
        Handled::Added(Some(entry)) => entry,
        _ => panic!("the file was not added"),
    };
    assert_eq!(get_node_index(root, &graph, "root/c.txt".to_string()), Some(added));
    assert_eq!(ask("0x1", root, &mut graph, &mut index), strings(&["blue", "green", "red"]));
    assert_eq!(
        ask("0x0 green", root, &mut graph, &mut index),
        strings(&["/home/user/root/c.txt"])
    );
}

#[test]
fn removed_directory_takes_its_tags_along() {
    let (mut graph, mut index, root) = sample();
    let handled = dispatcher(
        Event::Removed { path: "/home/user/root/a".to_string() },
        &mut index,
        &mut graph,
        root,
        BASE.to_string(),
    );
    assert!(matches!(handled, Handled::Removed(true)));
    assert_eq!(ask("0x1", root, &mut graph, &mut index), strings(&["red"]));
    assert_eq!(
        ask("0x0 red", root, &mut graph, &mut index),
        strings(&["/home/user/root/b.txt"])
    );
    assert_eq!(get_node_index(root, &graph, "root/a".to_string()), None);
    assert_eq!(get_node_index(root, &graph, "root/a/x.txt".to_string()), None);
    assert_eq!(ask("0x0 blue", root, &mut graph, &mut index), strings(&["No files"]));
}

#[test]
fn renamed_into_a_new_directory() {
    let (mut graph, mut index, root) = sample();
    dispatcher(
        Event::Removed { path: "/home/user/root/a".to_string() },
        &mut index,
        &mut graph,
        root,
        BASE.to_string(),
    );
    dispatcher(
        Event::Created {
            path: "/home/user/root/a-new".to_string(),
            probes: probes(1, true, &[]),
        },
        &mut index,
        &mut graph,
        root,
        BASE.to_string(),
    );
    let before = get_node_index(root, &graph, "root/b.txt".to_string());
    let handled = dispatcher(
        Event::Renamed {
            old_path: "/home/user/root/b.txt".to_string(),
            new_path: "/home/user/root/a-new/b.txt".to_string(),
            probes: Vec::new(),
        },
        &mut index,
        &mut graph,
        root,
        BASE.to_string(),
    );
    assert!(matches!(handled, Handled::Moved(MoveOutcome::Reparented)));
    assert_eq!(
        ask("0x0 red", root, &mut graph, &mut index),
        strings(&["/home/user/root/a-new/b.txt"])
    );
    assert_eq!(get_node_index(root, &graph, "root/a-new/b.txt".to_string()), before);
    assert_eq!(get_node_index(root, &graph, "root/b.txt".to_string()), None);
}

#[test]
fn renamed_in_place_keeps_node_and_tags() {
    let (mut graph, mut index, root) = sample();
    let before = get_node_index(root, &graph, "root/b.txt".to_string());
    assert!(before.is_some());
    let handled = dispatcher(
        Event::Renamed {
            old_path: "/home/user/root/b.txt".to_string(),
            new_path: "/home/user/root/b2.txt".to_string(),
            probes: Vec::new(),
        },
        &mut index,
        &mut graph,
        root,
        BASE.to_string(),
    );
    assert!(matches!(handled, Handled::Moved(MoveOutcome::Renamed)));
    assert_eq!(get_node_index(root, &graph, "root/b2.txt".to_string()), before);
    assert_eq!(get_node_index(root, &graph, "root/b.txt".to_string()), None);
    assert_eq!(get_tags(&graph, before.unwrap()), strings(&["red"]));
    assert_eq!(
        ask("0x0 red", root, &mut graph, &mut index),
        strings(&["/home/user/root/a/x.txt", "/home/user/root/b2.txt"])
    );
}

#[test]
fn tag_gets_another_name() {
    let (mut graph, mut index, root) = sample();
    let buffer: Vec<u8> = "0x2 red crimson".as_bytes().to_vec();
    let reply = handle_request(&buffer, root, &mut graph, &mut index, &BASE.to_string());
    assert_eq!(
        reply.lines,
        strings(&[
            "Rename \"red\" to \"crimson\" for files :",
            "/home/user/root/a/x.txt",
            "/home/user/root/b.txt",
        ])
    );
    let renaming = reply.renaming.expect("the adapter is to be told");
    assert_eq!(renaming.old_name, "red");
    assert_eq!(renaming.new_name, "crimson");
    assert_eq!(
        renaming.paths,
        strings(&["/home/user/root/a/x.txt", "/home/user/root/b.txt"])
    );
    assert_eq!(ask("0x1", root, &mut graph, &mut index), strings(&["blue", "crimson"]));
    assert_eq!(ask("0x0 red", root, &mut graph, &mut index), strings(&["No files"]));
    assert_eq!(
        ask("0x0 crimson", root, &mut graph, &mut index),
        strings(&["/home/user/root/a/x.txt", "/home/user/root/b.txt"])
    );
}

#[test]
fn tag_renamed_to_its_own_name_changes_nothing() {
    let (mut graph, mut index, root) = sample();
    let x = get_node_index(root, &graph, "root/a/x.txt".to_string()).unwrap();
    let mut before = get_tags(&graph, x);
    before.sort();
    let red = index.get(&"red".to_string());
    let buffer: Vec<u8> = "0x2 red red".as_bytes().to_vec();
    let reply = handle_request(&buffer, root, &mut graph, &mut index, &BASE.to_string());
    assert_eq!(reply.lines[0], "Rename \"red\" to \"red\" for files :");
    assert_eq!(reply.lines.len(), 3);
    assert_eq!(index.get(&"red".to_string()), red);
    let mut after = get_tags(&graph, x);
    after.sort();
    assert_eq!(after, before);
    assert_eq!(ask("0x1", root, &mut graph, &mut index), strings(&["blue", "red"]));
}

#[test]
fn tag_cannot_take_the_name_of_another() {
    let (mut graph, mut index, root) = sample();
    let buffer: Vec<u8> = "0x2 red blue".as_bytes().to_vec();
    let reply = handle_request(&buffer, root, &mut graph, &mut index, &BASE.to_string());
    assert_eq!(reply.lines, strings(&["Bad request"]));
    assert!(reply.renaming.is_none());
    assert_eq!(ask("0x1", root, &mut graph, &mut index), strings(&["blue", "red"]));
    assert_eq!(
        ask("0x0 red", root, &mut graph, &mut index),
        strings(&["/home/user/root/a/x.txt", "/home/user/root/b.txt"])
    );
}

#[test]
fn rename_requests_that_are_refused() {
    let (mut graph, mut index, root) = sample();
    assert_eq!(ask("0x2 red", root, &mut graph, &mut index), strings(&["Bad request"]));
    assert_eq!(ask("0x2", root, &mut graph, &mut index), strings(&["Bad request"]));
    assert_eq!(ask("0x2 a b c", root, &mut graph, &mut index), strings(&["Bad request"]));
    assert_eq!(
        ask("0x2 green lime", root, &mut graph, &mut index),
        strings(&["No tag with this old name"])
    );
    assert_eq!(ask("0x1", root, &mut graph, &mut index), strings(&["blue", "red"]));
}

#[test]
fn rename_request_with_more_white_space() {
    let (mut graph, mut index, root) = sample();
    let lines = ask("0x2   blue \t navy \n", root, &mut graph, &mut index);
    assert_eq!(
        lines,
        strings(&["Rename \"blue\" to \"navy\" for files :", "/home/user/root/a/x.txt"])
    );
    assert_eq!(ask("0x1", root, &mut graph, &mut index), strings(&["navy", "red"]));
}

#[test]
fn empty_and_unknown_expressions_select_nothing() {
    let (mut graph, mut index, root) = sample();
    assert_eq!(ask("0x0", root, &mut graph, &mut index), strings(&["No files"]));
    assert_eq!(ask("0x0   ", root, &mut graph, &mut index), strings(&["No files"]));
    assert_eq!(ask("0x0 green", root, &mut graph, &mut index), strings(&["No files"]));
    assert_eq!(
        ask("0x0 red AND green", root, &mut graph, &mut index),
        strings(&["No files"])
    );
    assert_eq!(
        ask("0x0 blue OR green", root, &mut graph, &mut index),
        strings(&["/home/user/root/a/x.txt"])
    );
    assert_eq!(
        expression_to_entries(String::new(), root, &graph, &index, BASE.to_string()),
        Vec::<String>::new()
    );
    assert_eq!(
        expression_to_entries("green".to_string(), root, &graph, &index, BASE.to_string()),
        Vec::<String>::new()
    );
}

#[test]
fn malformed_expressions_select_nothing() {
    let (mut graph, mut index, root) = sample();
    assert_eq!(ask("0x0 red blue", root, &mut graph, &mut index), strings(&["No files"]));
    assert_eq!(ask("0x0 AND", root, &mut graph, &mut index), strings(&["No files"]));
    assert_eq!(ask("0x0 red AND", root, &mut graph, &mut index), strings(&["No files"]));
    assert_eq!(ask("0x0 red AND OR blue", root, &mut graph, &mut index), strings(&["No files"]));
    assert_eq!(ask("0x0 OR red", root, &mut graph, &mut index), strings(&["No files"]));
    assert_eq!(ask("0x0 red OR OR blue", root, &mut graph, &mut index), strings(&["No files"]));
    assert_eq!(ask("0x0 red  blue", root, &mut graph, &mut index), strings(&["No files"]));
    assert_eq!(
        expression_to_entries("red AND".to_string(), root, &graph, &index, BASE.to_string()),
        Vec::<String>::new()
    );
}

#[test]
fn and_binds_tighter_than_or() {
    let (mut graph, mut index, root) = make_graph(
        "/home/user/root".to_string(),
        BASE.to_string(),
        None,
        vec![
            scan("root/one", 1, false, &["a"]),
            scan("root/two", 1, false, &["b", "c"]),
            scan("root/three", 1, false, &["c"]),
            scan("root/four", 1, false, &["b"]),
        ],
    );
    assert_eq!(
        ask("0x0 a OR b AND c", root, &mut graph, &mut index),
        strings(&["/home/user/root/one", "/home/user/root/two"])
    );
    assert_eq!(
        ask("0x0 b AND c OR a", root, &mut graph, &mut index),
        strings(&["/home/user/root/one", "/home/user/root/two"])
    );
    assert_eq!(
        ask("0x0 a AND b OR c", root, &mut graph, &mut index),
        strings(&["/home/user/root/three", "/home/user/root/two"])
    );
}

#[test]
fn requests_without_a_known_code() {
    let (mut graph, mut index, root) = sample();
    assert_eq!(ask("0x3 red", root, &mut graph, &mut index), strings(&["Invalid request"]));
    assert_eq!(ask("0x", root, &mut graph, &mut index), strings(&["Invalid request"]));
    assert_eq!(ask("", root, &mut graph, &mut index), strings(&["Invalid request"]));
    assert_eq!(ask("red", root, &mut graph, &mut index), strings(&["Invalid request"]));
}

#[test]
fn response_bytes() {
    assert_eq!(write_response(strings(&["No files"])), b"No files\n".to_vec());
    assert_eq!(write_response(strings(&["a", "bc"])), b"a\nbc\n".to_vec());
    assert_eq!(write_response(Vec::new()), Vec::<u8>::new());
    assert_eq!(write_response(strings(&["\u{e9}"])), vec![0xc3, 0xa9, 0x0a]);
}

#[test]
fn adding_a_path_twice_changes_nothing() {
    let (mut graph, mut index, root) = sample();
    let first = make_subgraph(
        root,
        &mut index,
        &mut graph,
        "root/d/e.txt".to_string(),
        &vec![
            None,
            Some(Probe { directory: true, tags: tags(&["dir"]) }),
            Some(Probe { directory: false, tags: tags(&["red", "new"]) }),
        ],
    );
    assert!(first.is_some());
    assert_eq!(graph.node_count(), 10);
    assert_eq!(graph.edge_count(), 11);
    let second = make_subgraph(
        root,
        &mut index,
        &mut graph,
        "root/d/e.txt".to_string(),
        &vec![
            None,
            Some(Probe { directory: true, tags: tags(&["dir"]) }),
            Some(Probe { directory: false, tags: tags(&["red", "new"]) }),
        ],
    );
    assert_eq!(second, first);
    assert_eq!(graph.node_count(), 10);
    assert_eq!(graph.edge_count(), 11);
    assert_eq!(
        ask("0x1", root, &mut graph, &mut index),
        strings(&["blue", "dir", "new", "red"])
    );
    assert_eq!(
        ask("0x0 new", root, &mut graph, &mut index),
        strings(&["/home/user/root/d/e.txt"])
    );
    assert_eq!(ask("0x0 dir", root, &mut graph, &mut index), strings(&["/home/user/root/d"]));
}

#[test]
fn a_path_that_cannot_be_completed_is_not_started() {
    let (mut graph, mut index, root) = sample();
    // no probe for `d`
    assert_eq!(
        make_subgraph(
            root,
            &mut index,
            &mut graph,
            "root/d/e.txt".to_string(),
            &probes(2, false, &[])
        ),
        None
    );
    // the first name is not the root's
    assert_eq!(
        make_subgraph(root, &mut index, &mut graph, "other/d".to_string(), &probes(1, true, &[])),
        None
    );
    // `b.txt` is a file
    assert_eq!(
        make_subgraph(
            root,
            &mut index,
            &mut graph,
            "root/b.txt/e".to_string(),
            &probes(2, false, &[])
        ),
        None
    );
    // `d` is probed as a file
    assert_eq!(
        make_subgraph(
            root,
            &mut index,
            &mut graph,
            "root/d/e".to_string(),
            &vec![
                None,
                Some(Probe { directory: false, tags: None }),
                Some(Probe { directory: false, tags: None }),
            ]
        ),
        None
    );
    assert_eq!(make_subgraph(root, &mut index, &mut graph, String::new(), &Vec::new()), None);
    assert_eq!(graph.node_count(), 6);
    assert_eq!(graph.edge_count(), 6);
    assert_eq!(get_node_index(root, &graph, "root/d".to_string()), None);
}

#[test]
fn refresh_sets_the_tags_of_an_entry() {
    let (mut graph, mut index, root) = sample();
    let x = get_node_index(root, &graph, "root/a/x.txt".to_string()).unwrap();
    assert!(update_tags(tags(&["blue", "green", "green"]), &mut index, &mut graph, x));
    let mut now = get_tags(&graph, x);
    now.sort();
    assert_eq!(now, strings(&["blue", "green"]));
    assert_eq!(ask("0x1", root, &mut graph, &mut index), strings(&["blue", "green", "red"]));
    assert_eq!(
        ask("0x0 red", root, &mut graph, &mut index),
        strings(&["/home/user/root/b.txt"])
    );
    // absent: no tags
    assert!(update_tags(None, &mut index, &mut graph, x));
    assert_eq!(get_tags(&graph, x), Vec::<String>::new());
    assert_eq!(ask("0x1", root, &mut graph, &mut index), strings(&["red"]));
    // a tag node is no entry
    let red = index.get(&"red".to_string()).unwrap();
    assert!(!update_tags(tags(&["blue"]), &mut index, &mut graph, red));
    assert!(!update_tags(tags(&["blue"]), &mut index, &mut graph, 4000));
    assert_eq!(ask("0x1", root, &mut graph, &mut index), strings(&["red"]));
}

#[test]
fn metadata_change_refreshes_tags() {
    let (mut graph, mut index, root) = sample();
    let handled = dispatcher(
        Event::MetadataChanged { path: "/home/user/root/a".to_string(), tags: tags(&["dir"]) },
        &mut index,
        &mut graph,
        root,
        BASE.to_string(),
    );
    assert!(matches!(handled, Handled::Refreshed(true)));
    assert_eq!(ask("0x0 dir", root, &mut graph, &mut index), strings(&["/home/user/root/a"]));
    let handled = dispatcher(
        Event::MetadataChanged { path: "/home/user/root/zzz".to_string(), tags: tags(&["dir"]) },
        &mut index,
        &mut graph,
        root,
        BASE.to_string(),
    );
    assert!(matches!(handled, Handled::Unresolved));
}

#[test]
fn events_outside_the_tree_are_dropped() {
    let (mut graph, mut index, root) = sample();
    let handled = dispatcher(
        Event::Removed { path: "/elsewhere/root/a".to_string() },
        &mut index,
        &mut graph,
        root,
        BASE.to_string(),
    );
    assert!(matches!(handled, Handled::Unresolved));
    let handled = dispatcher(
        Event::Created { path: "/else".to_string(), probes: probes(1, false, &[]) },
        &mut index,
        &mut graph,
        root,
        BASE.to_string(),
    );
    assert!(matches!(handled, Handled::Unresolved));
    let handled = dispatcher(Event::Other, &mut index, &mut graph, root, BASE.to_string());
    assert!(matches!(handled, Handled::Ignored));
    assert_eq!(graph.node_count(), 6);
}

#[test]
fn renaming_from_an_unknown_path_adds_the_new_one() {
    let (mut graph, mut index, root) = sample();
    let handled = dispatcher(
        Event::Renamed {
            old_path: "/home/user/root/unseen.txt".to_string(),
            new_path: "/home/user/root/seen.txt".to_string(),
            probes: probes(1, false, &["blue"]),
        },
        &mut index,
        &mut graph,
        root,
        BASE.to_string(),
    );
    assert!(matches!(handled, Handled::Added(Some(_))));
    assert_eq!(
        ask("0x0 blue", root, &mut graph, &mut index),
        strings(&["/home/user/root/a/x.txt", "/home/user/root/seen.txt"])
    );
}

#[test]
fn paths_that_lead_nowhere() {
    let (graph, _index, root) = sample();
    assert_eq!(get_node_index(root, &graph, "root".to_string()), Some(root));
    assert_eq!(get_node_index(root, &graph, "/root".to_string()), Some(root));
    assert!(get_node_index(root, &graph, "root/a".to_string()).is_some());
    assert_eq!(get_node_index(root, &graph, "root/missing".to_string()), None);
    assert_eq!(get_node_index(root, &graph, "root/missing/x.txt".to_string()), None);
    assert_eq!(get_node_index(root, &graph, "root/a/missing".to_string()), None);
    assert_eq!(get_node_index(root, &graph, "other/a".to_string()), None);
    assert_eq!(get_node_index(root, &graph, String::new()), None);
    assert_eq!(get_node_index(root, &graph, "root/".to_string()), None);
    assert_eq!(get_node_index(root, &graph, "root/b.txt/x".to_string()), None);
}

#[test]
fn moves_that_are_dropped() {
    let (mut graph, _index, root) = make_graph(
        "/home/user/root".to_string(),
        BASE.to_string(),
        None,
        vec![
            scan("root/a", 1, true, &[]),
            scan("root/a/inner", 2, true, &[]),
            scan("root/a/x.txt", 2, false, &[]),
            scan("root/x.txt", 1, false, &[]),
            scan("root/y.txt", 1, false, &[]),
        ],
    );
    let a = get_node_index(root, &graph, "root/a".to_string()).unwrap();
    let x = get_node_index(root, &graph, "root/x.txt".to_string()).unwrap();
    let y = get_node_index(root, &graph, "root/y.txt".to_string()).unwrap();
    // into itself, into what lies inside it
    assert_eq!(move_entry(root, a, &mut graph, "root/a/a".to_string()), MoveOutcome::Dropped);
    assert_eq!(
        move_entry(root, a, &mut graph, "root/a/inner/a".to_string()),
        MoveOutcome::Dropped
    );
    // the root does not move
    assert_eq!(move_entry(root, root, &mut graph, "root/a/root".to_string()), MoveOutcome::Dropped);
    assert_eq!(move_entry(root, root, &mut graph, "other".to_string()), MoveOutcome::Dropped);
    // the directory is not there, or is a file
    assert_eq!(move_entry(root, x, &mut graph, "root/b/x.txt".to_string()), MoveOutcome::Dropped);
    assert_eq!(
        move_entry(root, x, &mut graph, "root/y.txt/x.txt".to_string()),
        MoveOutcome::Dropped
    );
    // the name is taken
    assert_eq!(move_entry(root, x, &mut graph, "root/a/x.txt".to_string()), MoveOutcome::Dropped);
    assert_eq!(move_entry(root, x, &mut graph, "root/y.txt".to_string()), MoveOutcome::Dropped);
    // no entry
    assert_eq!(move_entry(root, 4000, &mut graph, "root/z".to_string()), MoveOutcome::Dropped);
    assert_eq!(get_node_index(root, &graph, "root/x.txt".to_string()), Some(x));
    assert_eq!(get_node_index(root, &graph, "root/y.txt".to_string()), Some(y));
    assert_eq!(get_node_index(root, &graph, "root/a".to_string()), Some(a));
    assert_eq!(graph.node_count(), 6);
    assert_eq!(graph.edge_count(), 5);
}

#[test]
fn moves_that_are_made() {
    let (mut graph, mut index, root) = sample();
    let a = get_node_index(root, &graph, "root/a".to_string()).unwrap();
    let b = get_node_index(root, &graph, "root/b.txt".to_string()).unwrap();
    let x = get_node_index(root, &graph, "root/a/x.txt".to_string()).unwrap();
    // to its own name
    assert_eq!(move_entry(root, b, &mut graph, "root/b.txt".to_string()), MoveOutcome::Renamed);
    assert_eq!(get_node_index(root, &graph, "root/b.txt".to_string()), Some(b));
    // into a directory, under the name it has
    assert_eq!(
        move_entry(root, b, &mut graph, "root/a/other.txt".to_string()),
        MoveOutcome::Reparented
    );
    assert_eq!(get_node_index(root, &graph, "root/a/b.txt".to_string()), Some(b));
    assert_eq!(get_node_index(root, &graph, "root/a/other.txt".to_string()), None);
    assert_eq!(parent_of(&graph, b), Some(a));
    // a directory with what lies inside it
    assert_eq!(move_entry(root, a, &mut graph, "root/c".to_string()), MoveOutcome::Renamed);
    assert_eq!(get_node_index(root, &graph, "root/c/x.txt".to_string()), Some(x));
    assert_eq!(get_node_index(root, &graph, "root/c/b.txt".to_string()), Some(b));
    assert_eq!(
        ask("0x0 red", root, &mut graph, &mut index),
        strings(&["/home/user/root/c/b.txt", "/home/user/root/c/x.txt"])
    );
    assert_eq!(graph.node_count(), 6);
    assert_eq!(graph.edge_count(), 6);
}

#[test]
fn removal_keeps_what_is_outside() {
    let (mut graph, mut index, root) = sample();
    let a = get_node_index(root, &graph, "root/a".to_string()).unwrap();
    let b = get_node_index(root, &graph, "root/b.txt".to_string()).unwrap();
    assert!(!remove_entries(root, root, &mut graph, &mut index));
    assert!(!remove_entries(root, 4000, &mut graph, &mut index));
    let blue = index.get(&"blue".to_string()).unwrap();
    assert!(!remove_entries(root, blue, &mut graph, &mut index));
    assert_eq!(graph.node_count(), 6);
    assert!(remove_entries(root, a, &mut graph, &mut index));
    assert_eq!(graph.node_count(), 3);
    assert_eq!(graph.edge_count(), 2);
    assert_eq!(kind_of(&graph, a), None);
    assert_eq!(kind_of(&graph, b), Some(NodeKind::File));
    assert_eq!(index.get(&"blue".to_string()), None);
    assert!(index.get(&"red".to_string()).is_some());
    assert!(remove_entries(root, b, &mut graph, &mut index));
    assert_eq!(graph.node_count(), 1);
    assert_eq!(graph.edge_count(), 0);
    assert_eq!(index.len(), 0);
    assert_eq!(kind_of(&graph, root), Some(NodeKind::Directory));
}

#[test]
fn inside_and_parent() {
    let (graph, index, root) = sample();
    let a = get_node_index(root, &graph, "root/a".to_string()).unwrap();
    let x = get_node_index(root, &graph, "root/a/x.txt".to_string()).unwrap();
    let b = get_node_index(root, &graph, "root/b.txt".to_string()).unwrap();
    assert_eq!(parent_of(&graph, x), Some(a));
    assert_eq!(parent_of(&graph, a), Some(root));
    assert_eq!(parent_of(&graph, root), None);
    assert_eq!(parent_of(&graph, index.get(&"red".to_string()).unwrap()), None);
    assert!(is_inside(&graph, root, a, x));
    assert!(is_inside(&graph, root, root, x));
    assert!(is_inside(&graph, root, x, x));
    assert!(!is_inside(&graph, root, x, a));
    assert!(!is_inside(&graph, root, a, b));
}

#[test]
fn paths_and_entries_of_a_tag() {
    let (graph, index, root) = sample();
    let x = get_node_index(root, &graph, "root/a/x.txt".to_string()).unwrap();
    assert_eq!(make_path(root, &graph, x, &BASE.to_string()), "/home/user/root/a/x.txt");
    assert_eq!(make_path(root, &graph, root, &BASE.to_string()), "/home/user/root");
    assert_eq!(make_path(root, &graph, x, &String::new()), "root/a/x.txt");
    let red = index.get(&"red".to_string()).unwrap();
    assert_eq!(
        entries(root, &graph, red, &BASE.to_string()),
        strings(&["/home/user/root/a/x.txt", "/home/user/root/b.txt"])
    );
    assert_eq!(entries(root, &graph, x, &BASE.to_string()), Vec::<String>::new());
}

#[test]
fn bootstrap_with_root_tags_and_unusable_entries() {
    let (mut graph, mut index, root) = make_graph(
        "/srv/data".to_string(),
        "/srv/".to_string(),
        tags(&["top"]),
        vec![
            scan("data/zeta", 1, false, &["zulu", "alpha"]),
            // its directory was never seen
            scan("data/lost/file", 2, false, &["ghost"]),
            // not under the root
            scan("other/file", 1, false, &["ghost"]),
            scan("data/alpha", 1, false, &["mike", "alpha"]),
        ],
    );
    let base = "/srv/".to_string();
    let buffer: Vec<u8> = b"0x1".to_vec();
    assert_eq!(
        handle_request(&buffer, root, &mut graph, &mut index, &base).lines,
        strings(&["alpha", "mike", "top", "zulu"])
    );
    let buffer: Vec<u8> = b"0x0 alpha".to_vec();
    assert_eq!(
        handle_request(&buffer, root, &mut graph, &mut index, &base).lines,
        strings(&["/srv/data/alpha", "/srv/data/zeta"])
    );
    let buffer: Vec<u8> = b"0x0 top".to_vec();
    assert_eq!(
        handle_request(&buffer, root, &mut graph, &mut index, &base).lines,
        strings(&["/srv/data"])
    );
    assert_eq!(graph.node_count(), 7);
}

#[test]
fn room_is_counted_in_nodes_and_in_edges() {
    let (graph, _index, _root) = make_graph(
        "/home/user/root".to_string(),
        BASE.to_string(),
        None,
        vec![
            scan("root/one", 1, false, &["a", "b", "c"]),
            scan("root/two", 1, false, &["a", "b", "c"]),
        ],
    );
    assert_eq!(graph.node_count(), 6);
    assert_eq!(graph.edge_count(), 8);
    assert!(room_for(&graph, 0));
    assert!(room_for(&graph, 0xffff_ffff - 9));
    assert!(!room_for(&graph, 0xffff_ffff - 8));
    let (lone, _index, _root) =
        make_graph("/home/user/root".to_string(), BASE.to_string(), None, Vec::new());
    assert!(room_for(&lone, 0xffff_ffff - 2));
    assert!(!room_for(&lone, 0xffff_ffff - 1));
    assert!(!room_for(&lone, usize::MAX));
}

#[test]
fn looking_for_an_entry_in_a_directory() {
    let (graph, index, root) = sample();
    let a = get_node_index(root, &graph, "root/a".to_string()).unwrap();
    let x = get_node_index(root, &graph, "root/a/x.txt".to_string()).unwrap();
    let mut found = false;
    assert_eq!(tag_engine::graph::find_parent(&graph, root, &"a".to_string(), &mut found), a);
    assert!(found);
    assert_eq!(tag_engine::graph::find_parent(&graph, a, &"x.txt".to_string(), &mut found), x);
    assert!(found);
    assert_eq!(tag_engine::graph::find_parent(&graph, root, &"x.txt".to_string(), &mut found), root);
    assert!(!found);
    // a tag is on `x.txt`, but `x.txt` is not in the tag
    let red = index.get(&"red".to_string()).unwrap();
    found = true;
    assert_eq!(tag_engine::graph::find_parent(&graph, red, &"x.txt".to_string(), &mut found), red);
    assert!(!found);
    assert_eq!(tag_engine::graph::find_parent(&graph, x, &"a".to_string(), &mut found), x);
    assert!(!found);
    assert_eq!(
        tag_engine::graph::resolve(root, &graph, &vec!["root".to_string(), "a".to_string()]),
        Some(a)
    );
    assert_eq!(tag_engine::graph::resolve(root, &graph, &Vec::new()), None);
}

#[test]
fn tags_are_put_on_and_taken_off() {
    let (mut graph, mut index, root) = sample();
    let b = get_node_index(root, &graph, "root/b.txt".to_string()).unwrap();
    let x = get_node_index(root, &graph, "root/a/x.txt".to_string()).unwrap();
    tag_engine::graph::add_tags(
        &vec!["blue".to_string(), "new".to_string(), "red".to_string()],
        &mut index,
        &mut graph,
        b,
    );
    let mut now = get_tags(&graph, b);
    now.sort();
    assert_eq!(now, strings(&["blue", "new", "red"]));
    assert_eq!(graph.node_count(), 7);
    assert_eq!(graph.edge_count(), 8);
    tag_engine::graph::remove_tags(
        &vec!["red".to_string(), "new".to_string(), "unknown".to_string()],
        &mut index,
        &mut graph,
        b,
    );
    assert_eq!(get_tags(&graph, b), strings(&["blue"]));
    assert_eq!(index.get(&"new".to_string()), None);
    assert!(index.get(&"red".to_string()).is_some());
    assert_eq!(graph.node_count(), 6);
    assert_eq!(graph.edge_count(), 6);
    let mut others = get_tags(&graph, x);
    others.sort();
    assert_eq!(others, strings(&["blue", "red"]));
    assert_eq!(ask("0x0 red", root, &mut graph, &mut index), strings(&["/home/user/root/a/x.txt"]));
}

#[test]
fn subtree_is_listed_with_its_tags() {
    let (graph, index, root) = sample();
    let a = get_node_index(root, &graph, "root/a".to_string()).unwrap();
    let x = get_node_index(root, &graph, "root/a/x.txt".to_string()).unwrap();
    let b = get_node_index(root, &graph, "root/b.txt".to_string()).unwrap();
    let red = index.get(&"red".to_string()).unwrap();
    let blue = index.get(&"blue".to_string()).unwrap();
    let mut listed: Vec<u32> = vec![77];
    let mut tagged: Vec<u32> = Vec::new();
    tag_engine::graph::entries_to_remove(a, &graph, &mut listed, &mut tagged);
    assert_eq!(listed, vec![77, a, x]);
    tagged.sort();
    let mut both = vec![red, blue];
    both.sort();
    assert_eq!(tagged, both);
    let mut listed: Vec<u32> = Vec::new();
    let mut tagged: Vec<u32> = Vec::new();
    tag_engine::graph::entries_to_remove(root, &graph, &mut listed, &mut tagged);
    listed.sort();
    let mut all = vec![root, a, x, b];
    all.sort();
    assert_eq!(listed, all);
    tagged.sort();
    let mut thrice = vec![red, red, blue];
    thrice.sort();
    assert_eq!(tagged, thrice);
}

#[test]
fn handles_are_used_again_without_confusion() {
    let (mut graph, mut index, root) = sample();
    let a = get_node_index(root, &graph, "root/a".to_string()).unwrap();
    assert!(remove_entries(root, a, &mut graph, &mut index));
    assert_eq!(graph.node_count(), 3);
    let added = make_subgraph(
        root,
        &mut index,
        &mut graph,
        "root/n/m/o.txt".to_string(),
        &vec![
            None,
            Some(Probe { directory: true, tags: None }),
            Some(Probe { directory: true, tags: tags(&["blue", "deep"]) }),
            Some(Probe { directory: false, tags: tags(&["red", "deep"]) }),
        ],
    );
    assert!(added.is_some());
    assert_eq!(graph.node_count(), 8);
    assert_eq!(graph.edge_count(), 9);
    assert_eq!(ask("0x1", root, &mut graph, &mut index), strings(&["blue", "deep", "red"]));
    assert_eq!(
        ask("0x0 deep", root, &mut graph, &mut index),
        strings(&["/home/user/root/n/m", "/home/user/root/n/m/o.txt"])
    );
    assert_eq!(
        ask("0x0 deep AND red OR blue", root, &mut graph, &mut index),
        strings(&["/home/user/root/n/m", "/home/user/root/n/m/o.txt"])
    );
    assert_eq!(
        ask("0x0 red AND deep", root, &mut graph, &mut index),
        strings(&["/home/user/root/n/m/o.txt"])
    );
    let n = get_node_index(root, &graph, "root/n".to_string()).unwrap();
    assert_eq!(get_tags(&graph, n), Vec::<String>::new());
    assert_eq!(kind_of(&graph, n), Some(NodeKind::Directory));
    assert_eq!(kind_of(&graph, added.unwrap()), Some(NodeKind::File));
    assert!(remove_entries(root, n, &mut graph, &mut index));
    assert_eq!(ask("0x1", root, &mut graph, &mut index), strings(&["red"]));
    assert_eq!(graph.node_count(), 3);
    assert_eq!(graph.edge_count(), 2);
}

#[test]
fn tags_that_stay_keep_their_handles() {
    let (mut graph, mut index, root) = sample();
    let x = get_node_index(root, &graph, "root/a/x.txt".to_string()).unwrap();
    let a = get_node_index(root, &graph, "root/a".to_string()).unwrap();
    let red = index.get(&"red".to_string()).unwrap();
    let blue = index.get(&"blue".to_string()).unwrap();
    // blue is on x.txt only, and stays on it
    assert!(update_tags(tags(&["blue", "green"]), &mut index, &mut graph, x));
    assert_eq!(index.get(&"blue".to_string()), Some(blue));
    assert_eq!(index.get(&"red".to_string()), Some(red));
    assert_eq!(kind_of(&graph, blue), Some(NodeKind::Tag));
    assert_eq!(entries(root, &graph, blue, &BASE.to_string()), strings(&["/home/user/root/a/x.txt"]));
    assert_eq!(entries(root, &graph, red, &BASE.to_string()), strings(&["/home/user/root/b.txt"]));
    // red is on b.txt, outside of what goes
    assert!(remove_entries(root, a, &mut graph, &mut index));
    assert_eq!(index.get(&"red".to_string()), Some(red));
    assert_eq!(index.get(&"blue".to_string()), None);
    assert_eq!(index.get(&"green".to_string()), None);
    assert_eq!(kind_of(&graph, red), Some(NodeKind::Tag));
    assert_eq!(entries(root, &graph, red, &BASE.to_string()), strings(&["/home/user/root/b.txt"]));
}

#[test]
fn renaming_lists_each_path_once() {
    let (mut graph, mut index, root) = sample();
    let buffer: Vec<u8> = b"0x2 blue navy".to_vec();
    let reply = handle_request(&buffer, root, &mut graph, &mut index, &BASE.to_string());
    let renaming = reply.renaming.expect("the adapter is to be told");
    assert_eq!(renaming.paths, strings(&["/home/user/root/a/x.txt"]));
    assert_eq!(reply.lines.len(), 2);
}
