//! A tag engine: a graph of the files and directories under a watched root
//! and of the tags that are on them, kept in step with the filesystem event
//! by event, and queried with tag expressions.

pub mod node;
pub mod store;
pub mod links;
pub mod index;
pub mod text;
pub mod parse;
pub mod paths;
pub mod tree;
pub mod grow;
pub mod tags;
pub mod graph;
pub mod prune;
pub mod moving;
pub mod query;
pub mod server;
pub mod laws;

use vstd::prelude::*;
use crate::store::MyGraph;
use crate::links::view_of;
use crate::index::TagIndex;
use crate::paths::local_part;
use crate::tree::{well_formed, resolve_spec, components_spec, indexed, lemma_same_tree_wf};
use crate::graph::{Probe, make_subgraph, get_node_index, added};
use crate::tags::{update_tags, refreshed, fresh_names};
use crate::prune::{remove_entries, pruned};
use crate::moving::{move_entry, moved, MoveOutcome};

verus! {

/// What happened in the watched tree, with what the filesystem said when it
/// was looked at afterwards. Paths are absolute.
#[derive(Debug)]
pub enum Event {
    /// A file or directory came into being. `probes[i]` is what the
    /// filesystem says of the path up to and with its name at position `i`,
    /// counted from the root of the watched tree.
    Created { path: String, probes: Vec<Option<Probe>> },
    /// The metadata of a path changed; `tags` are the tags that it has now.
    MetadataChanged { path: String, tags: Option<Vec<String>> },
    /// A file or directory is gone.
    Removed { path: String },
    /// A file or directory has another path. `probes` are for the new path,
    /// as for `Created`.
    Renamed { old_path: String, new_path: String, probes: Vec<Option<Probe>> },
    /// Anything else.
    Other,
}

/// What was done about an event.
#[derive(Debug)]
pub enum Handled {
    /// A path was added; with the entry that it leads to, if it leads to one.
    Added(Option<u32>),
    /// The tags of an entry were refreshed, or not.
    Refreshed(bool),
    /// A subtree was taken out, or not.
    Removed(bool),
    /// An entry was moved, or not.
    Moved(MoveOutcome),
    /// The event names a path that the graph does not have.
    Unresolved,
    /// The event is of no concern.
    Ignored,
}

/// The names of an absolute path from the watched root down, if the path
/// lies under the base.
pub open spec fn local_names(path: Seq<char>, base: Seq<char>) -> Option<Seq<Seq<char>>> {
    if base.is_prefix_of(path) {
        Some(components_spec(path.skip(base.len() as int)))
    } else {
        None
    }
}

/// The entry that an absolute path leads to, if it leads to one.
pub open spec fn target(g: &MyGraph, root: u32, path: Seq<char>, base: Seq<char>) -> Option<u32> {
    match local_names(path, base) {
        Some(names) => resolve_spec(view_of(g), root, names),
        None => None,
    }
}

/// What the dispatcher does about an event.
///
/// A created path is added. A change of metadata refreshes the tags of the
/// entry, a removal takes its subtree out, a renaming moves it; each of them
/// is left undone where the path leads to no entry. A renaming from a path
/// that leads to no entry adds the new path. Other events change nothing.
pub open spec fn dispatched(
    g0: &MyGraph,
    g1: &MyGraph,
    idx0: Map<Seq<char>, u32>,
    idx1: Map<Seq<char>, u32>,
    root: u32,
    base: Seq<char>,
    event: Event,
    r: Handled,
) -> bool {
    let same = view_of(g1) == view_of(g0) && idx1 == idx0;
    match event {
        Event::Created { path, probes } => match local_names(path@, base) {
            Some(names) => r matches Handled::Added(x) && added(
                g0,
                g1,
                idx0,
                idx1,
                root,
                names,
                probes@,
                x,
            ),
            None => r is Unresolved && same,
        },
        Event::MetadataChanged { path, tags } => match target(g0, root, path@, base) {
            Some(entry) => r matches Handled::Refreshed(done) && refreshed(
                g0,
                g1,
                idx0,
                idx1,
                entry,
                fresh_names(tags),
                done,
            ),
            None => r is Unresolved && same,
        },
        Event::Removed { path } => match target(g0, root, path@, base) {
            Some(entry) => r matches Handled::Removed(done) && pruned(
                g0,
                g1,
                idx0,
                idx1,
                root,
                entry,
                done,
            ),
            None => r is Unresolved && same,
        },
        Event::Renamed { old_path, new_path, probes } => match local_names(new_path@, base) {
            Some(names) => match target(g0, root, old_path@, base) {
                Some(entry) => r matches Handled::Moved(outcome) && moved(
                    g0,
                    g1,
                    root,
                    entry,
                    names,
                    outcome,
                ) && idx1 == idx0,
                None => r matches Handled::Added(x) && added(
                    g0,
                    g1,
                    idx0,
                    idx1,
                    root,
                    names,
                    probes@,
                    x,
                ),
            },
            None => r is Unresolved && same,
        },
        Event::Other => r is Ignored && same,
    }
}

/// Brings the graph in step with one event.
pub fn dispatcher(
    event: Event,
    tags_index: &mut TagIndex,
    graph: &mut MyGraph,
    root_index: u32,
    base: String,
) -> (r: Handled)
    requires
        well_formed(old(graph), old(tags_index), root_index),
    ensures
        well_formed(final(graph), final(tags_index), root_index),
        dispatched(
            old(graph),
            final(graph),
            old(tags_index)@,
            final(tags_index)@,
            root_index,
            base@,
            event,
            r,
        ),
{
    match event {
        Event::Created { path, probes } => {
            match local_part(&path, &base) {
                Some(local) => Handled::Added(
                    make_subgraph(root_index, tags_index, graph, local, &probes),
                ),
                None => Handled::Unresolved,
            }
        },
        Event::MetadataChanged { path, tags } => {
            let found = match local_part(&path, &base) {
                Some(local) => get_node_index(root_index, graph, local),
                None => None,
            };
            match found {
                Some(entry_index) => {
                    let done = update_tags(tags, tags_index, graph, entry_index);
                    proof {
                        lemma_same_tree_wf(view_of(old(graph)), view_of(graph), root_index);
                    }
                    Handled::Refreshed(done)
                },
                None => Handled::Unresolved,
            }
        },
        Event::Removed { path } => {
            let found = match local_part(&path, &base) {
                Some(local) => get_node_index(root_index, graph, local),
                None => None,
            };
            match found {
                Some(entry_index) => Handled::Removed(
                    remove_entries(root_index, entry_index, graph, tags_index),
                ),
                None => Handled::Unresolved,
            }
        },
        Event::Renamed { old_path, new_path, probes } => {
            let new_local = match local_part(&new_path, &base) {
                Some(local) => local,
                None => {
                    return Handled::Unresolved;
                },
            };
            let found = match local_part(&old_path, &base) {
                Some(local) => get_node_index(root_index, graph, local),
                None => None,
            };
            match found {
                Some(entry_index) => {
                    let outcome = move_entry(root_index, entry_index, graph, new_local);
                    proof {
                        assert(indexed(view_of(old(graph)), tags_index@));
                        assert(indexed(view_of(graph), tags_index@));
                    }
                    Handled::Moved(outcome)
                },
                None => Handled::Added(
                    make_subgraph(root_index, tags_index, graph, new_local, &probes),
                ),
            }
        },
        Event::Other => Handled::Ignored,
    }
}

} // verus!
