use vstd::prelude::*;

verus! {

/// The weight carried by every edge: edges are unlabelled, and what an edge
/// means follows from the kinds of its two endpoints.
#[derive(Debug, Clone)]
pub struct Nil;

impl Nil {
    /// The one weight that an edge can have.
    pub fn new() -> (r: Self) {
        Nil
    }
}

/// The three kinds of node that the graph holds.
#[derive(Debug, Clone, Copy, PartialEq, Eq, Structural)]
pub enum NodeKind {
    Tag,
    File,
    Directory,
}

/// A node of the graph: a name and a kind. For a file or a directory the name
/// is its basename within its parent, for a tag it is the tag itself.
#[derive(Debug, Clone)]
pub struct Node {
    pub name: String,
    pub kind: NodeKind,
}

/// A node as the contracts speak of it: its name as a sequence of
/// characters, and its kind.
pub struct NodeView {
    pub name: Seq<char>,
    pub kind: NodeKind,
}

impl View for Node {
    type V = NodeView;

    open spec fn view(&self) -> NodeView {
        NodeView { name: self.name@, kind: self.kind }
    }
}

impl Node {
    /// A node of the given name and kind.
    pub fn new(name: String, kind: NodeKind) -> (r: Self)
        ensures
            r.name == name,
            r.kind == kind,
    {
        Node { name, kind }
    }

    /// Gives the node another name; its kind stays.
    pub fn set_name(&mut self, name: String)
        ensures
            final(self).name == name,
            final(self).kind == old(self).kind,
    {
        self.name = name;
    }
}

} // verus!
