use std::collections::{BTreeMap, BTreeSet};

use tag_engine::graph::{get_node_index, make_graph, MyGraph, Probe};
use tag_engine::index::TagIndex;
use tag_engine::server::handle_request;
use tag_engine::{dispatcher, Event};

const TOP: &str = "/w/";

struct Walk {
    state: u64,
}

impl Walk {
    fn next(&mut self, bound: usize) -> usize {
        self.state ^= self.state << 13;
        self.state ^= self.state >> 7;
        self.state ^= self.state << 17;
        (self.state % bound as u64) as usize
    }
}

// what the tree is taken to be: for each path from the root down, whether it
// is a directory, and its tags
type Tree = BTreeMap<String, (bool, BTreeSet<String>)>;

fn lines(request: &str, root: u32, graph: &mut MyGraph, index: &mut TagIndex) -> Vec<String> {
    let buffer: Vec<u8> = request.as_bytes().to_vec();
    handle_request(&buffer, root, graph, index, &TOP.to_string()).lines
}

fn all_tags(tree: &Tree) -> BTreeSet<String> {
    tree.values().flat_map(|(_, tags)| tags.iter().cloned()).collect()
}

fn compare(tree: &Tree, root: u32, graph: &mut MyGraph, index: &mut TagIndex) {
    let tags = all_tags(tree);
    assert_eq!(lines("0x1", root, graph, index), tags.iter().cloned().collect::<Vec<String>>());
    for tag in &tags {
        let mut expected: Vec<String> = tree
            .iter()
            .filter(|(_, (_, tags))| tags.contains(tag))
            .map(|(path, _)| format!("{}{}", TOP, path))
            .collect();
        expected.sort();
        assert_eq!(lines(&format!("0x0 {}", tag), root, graph, index), expected);
    }
    let mut seen = BTreeSet::new();
    for path in tree.keys() {
        let entry = get_node_index(root, graph, path.clone()).expect("a path of the tree");
        assert!(seen.insert(entry));
    }
    let marks: usize = tree.values().map(|(_, tags)| tags.len()).sum();
    assert_eq!(graph.node_count(), tree.len() + tags.len());
    assert_eq!(graph.edge_count(), tree.len() - 1 + marks);
}

fn pick_tags(walk: &mut Walk) -> Vec<String> {
    let names = ["red", "green", "blue", "cyan", "pink"];
    let mut tags = Vec::new();
    for _ in 0..walk.next(4) {
        tags.push(names[walk.next(names.len())].to_string());
    }
    tags
}

fn pick_path(tree: &Tree, walk: &mut Walk) -> String {
    let paths: Vec<&String> = tree.keys().collect();
    paths[walk.next(paths.len())].clone()
}

fn depth(path: &str) -> usize {
    path.matches('/').count()
}

fn leaf_probes(path: &str, directory: bool, tags: &[String]) -> Vec<Option<Probe>> {
    let mut probes: Vec<Option<Probe>> = Vec::new();
    for _ in 0..depth(path) {
        probes.push(None);
    }
    probes.push(Some(Probe { directory, tags: Some(tags.to_vec()) }));
    probes
}

#[test]
fn graph_follows_a_long_walk_of_events() {
    let (mut graph, mut index, root) =
        make_graph("/w/r".to_string(), TOP.to_string(), None, Vec::new());
    let mut tree: Tree = BTreeMap::new();
    tree.insert("r".to_string(), (true, BTreeSet::new()));
    let mut walk = Walk { state: 0x9e37_79b9_7f4a_7c15 };
    let names = ["a", "b", "c", "d", "e"];
    for _ in 0..600 {
        match walk.next(6) {
            0 | 1 => {
                let parent = pick_path(&tree, &mut walk);
                let path = format!("{}/{}", parent, names[walk.next(names.len())]);
                let directory = walk.next(2) == 0;
                let tags = pick_tags(&mut walk);
                let fits = tree[&parent].0;
                let known = tree.contains_key(&path);
                dispatcher(
                    Event::Created {
                        path: format!("{}{}", TOP, path),
                        probes: leaf_probes(&path, directory, &tags),
                    },
                    &mut index,
                    &mut graph,
                    root,
                    TOP.to_string(),
                );
                if fits && !known {
                    tree.insert(path, (directory, tags.into_iter().collect()));
                }
            }
            2 => {
                let path = pick_path(&tree, &mut walk);
                let tags = pick_tags(&mut walk);
                dispatcher(
                    Event::MetadataChanged {
                        path: format!("{}{}", TOP, path),
                        tags: Some(tags.clone()),
                    },
                    &mut index,
                    &mut graph,
                    root,
                    TOP.to_string(),
                );
                tree.get_mut(&path).unwrap().1 = tags.into_iter().collect();
            }
            3 => {
                let path = pick_path(&tree, &mut walk);
                dispatcher(
                    Event::Removed { path: format!("{}{}", TOP, path) },
                    &mut index,
                    &mut graph,
                    root,
                    TOP.to_string(),
                );
                if path != "r" {
                    let inside = format!("{}/", path);
                    tree.retain(|p, _| p != &path && !p.starts_with(&inside));
                }
            }
            4 => {
                let path = pick_path(&tree, &mut walk);
                let parent = pick_path(&tree, &mut walk);
                let own = &path[..path.rfind('/').unwrap_or(0)];
                let last = if parent == own {
                    names[walk.next(names.len())].to_string()
                } else {
                    path[path.rfind('/').map(|i| i + 1).unwrap_or(0)..].to_string()
                };
                let target = format!("{}/{}", parent, last);
                dispatcher(
                    Event::Renamed {
                        old_path: format!("{}{}", TOP, path),
                        new_path: format!("{}{}", TOP, target),
                        probes: Vec::new(),
                    },
                    &mut index,
                    &mut graph,
                    root,
                    TOP.to_string(),
                );
                let inside = format!("{}/", path);
                let made = path != "r"
                    && tree[&parent].0
                    && parent != path
                    && !parent.starts_with(&inside)
                    && (!tree.contains_key(&target) || target == path);
                if made && target != path {
                    let moved: Vec<String> = tree
                        .keys()
                        .filter(|p| *p == &path || p.starts_with(&inside))
                        .cloned()
                        .collect();
                    for p in moved {
                        let value = tree.remove(&p).unwrap();
                        tree.insert(format!("{}{}", target, &p[path.len()..]), value);
                    }
                }
            }
            _ => {
                let tags: Vec<String> = all_tags(&tree).into_iter().collect();
                let fresh = ["red", "gold", "blue", "grey"];
                if !tags.is_empty() {
                    let old = tags[walk.next(tags.len())].clone();
                    let new = fresh[walk.next(fresh.len())].to_string();
                    let answer = lines(&format!("0x2 {} {}", old, new), root, &mut graph, &mut index);
                    if new == old || !tags.contains(&new) {
                        assert_eq!(answer[0], format!("Rename \"{}\" to \"{}\" for files :", old, new));
                        for (_, marks) in tree.values_mut() {
                            if marks.remove(&old) {
                                marks.insert(new.clone());
                            }
                        }
                    } else {
                        assert_eq!(answer, vec!["Bad request".to_string()]);
                    }
                }
            }
        }
        compare(&tree, root, &mut graph, &mut index);
    }
    assert!(tree.len() > 1);
}
