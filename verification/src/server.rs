//! The requests that a client can make, and the answers to them.
//!
//! A request is a code of three characters, `0x0`, `0x1` or `0x2`, and after
//! it a payload. An answer is a list of lines.

use vstd::prelude::*;
use vstd::string::StringExecFns;

use crate::node::{NodeKind, NodeView};
use crate::store::MyGraph;
use crate::links::{GraphView, view_of, rename_node, node_total, edge_total};
use crate::index::TagIndex;
use crate::text::{views, sort_strings, sorted, push_char, trim, trim_spec, words, words_spec};
use crate::parse::{postfix_spec, tokens_spec};
use crate::query::{entries, expression_to_entries, eval_spec, tag_table, full_path};
use crate::tree::{
    well_formed,
    links_typed,
    indexed,
    no_orphans,
    same_tree,
    lemma_same_tree_by,
    lemma_same_tree_wf,
};

verus! {

/// A request, as it was read.
#[derive(Debug, Clone)]
pub enum RequestKind {
    /// `0x0`: the entries that a tag expression selects.
    Entries(String),
    /// `0x1`: all tags.
    Tags,
    /// `0x2`: give a tag another name.
    RenameTag(String),
}

/// A request as the contracts speak of it.
pub enum RequestView {
    Entries(Seq<char>),
    Tags,
    RenameTag(Seq<char>),
}

impl View for RequestKind {
    type V = RequestView;

    open spec fn view(&self) -> RequestView {
        match self {
            RequestKind::Entries(s) => RequestView::Entries(s@),
            RequestKind::Tags => RequestView::Tags,
            RequestKind::RenameTag(s) => RequestView::RenameTag(s@),
        }
    }
}

/// What the tag adapter is to be told after a tag got another name: to
/// write the new name in place of the old one on each of the paths.
#[derive(Debug)]
pub struct Renaming {
    pub old_name: String,
    pub new_name: String,
    pub paths: Vec<String>,
}

/// The answer to a request: the lines to send, and what is to be done on
/// disk.
#[derive(Debug)]
pub struct Reply {
    pub lines: Vec<String>,
    pub renaming: Option<Renaming>,
}

/// Each byte taken for the character with that code.
pub open spec fn latin1(bytes: Seq<u8>) -> Seq<char> {
    bytes.map_values(|b: u8| b as char)
}

/// The request that the bytes hold: the first three are the code, the rest,
/// without the white space around it, is the payload. `None` where there are
/// fewer than three bytes or the code is none of the three.
pub open spec fn parse_spec(bytes: Seq<u8>) -> Option<RequestView> {
    if bytes.len() < 3 {
        None
    } else if bytes[0] != 0x30 || bytes[1] != 0x78 {
        None
    } else if bytes[2] == 0x30 {
        Some(RequestView::Entries(trim_spec(latin1(bytes.skip(3)))))
    } else if bytes[2] == 0x31 {
        Some(RequestView::Tags)
    } else if bytes[2] == 0x32 {
        Some(RequestView::RenameTag(trim_spec(latin1(bytes.skip(3)))))
    } else {
        None
    }
}

/// The bytes of an answer: each line in UTF-8, with a line feed after it.
pub open spec fn response_spec(lines: Seq<Seq<char>>) -> Seq<u8>
    decreases lines.len(),
{
    if lines.len() == 0 {
        Seq::<u8>::empty()
    } else {
        response_spec(lines.drop_last()) + vstd::utf8::encode_utf8(lines.last()) + seq![10u8]
    }
}

/// The first line of the answer to a renaming.
pub open spec fn rename_header(old_name: Seq<char>, new_name: Seq<char>) -> Seq<char> {
    "Rename \""@ + old_name + "\" to \""@ + new_name + "\" for files :"@
}

/// The lines that answer the tag expression `request`: the paths that it
/// selects, in ascending order, or the one line `No files`.
pub open spec fn entries_reply(
    v: GraphView,
    idx: Map<Seq<char>, u32>,
    root: u32,
    base: Seq<char>,
    request: Seq<char>,
    lines: Seq<Seq<char>>,
) -> bool {
    let picked = eval_spec(tag_table(v, idx), postfix_spec(tokens_spec(request)));
    if picked.len() == 0 {
        lines == seq!["No files"@]
    } else {
        &&& sorted(lines)
        &&& lines.len() == picked.len()
        &&& forall|p: Seq<char>|
            lines.contains(p) <==> exists|e: u32|
                picked.contains(e) && #[trigger] full_path(v, root, base, e) == p
    }
}

/// The lines that list the tags: each name in the index once, in ascending
/// order.
pub open spec fn tags_reply(idx: Map<Seq<char>, u32>, lines: Seq<Seq<char>>) -> bool {
    &&& sorted(lines)
    &&& lines.no_duplicates()
    &&& lines.to_set() == idx.dom()
}

/// The tag `old_name` can be given the name `new_name`: it is a tag, and no
/// other tag has the new name.
pub open spec fn renamable(idx: Map<Seq<char>, u32>, old_name: Seq<char>, new_name: Seq<char>) -> bool {
    idx.contains_key(old_name) && (new_name == old_name || !idx.contains_key(new_name))
}

/// What a request to give a tag another name does, and how it is answered.
/// The paths of the renaming are those of the entries that the tag is on,
/// one for each entry, in ascending order.
pub open spec fn renamed(
    g0: &MyGraph,
    g1: &MyGraph,
    idx0: Map<Seq<char>, u32>,
    idx1: Map<Seq<char>, u32>,
    root: u32,
    base: Seq<char>,
    request: Seq<char>,
    reply: Reply,
) -> bool {
    let v = view_of(g0);
    let w = view_of(g1);
    let names = words_spec(request);
    &&& same_tree(v, w)
    &&& w.links == v.links
    &&& node_total(g1) == node_total(g0)
    &&& edge_total(g1) == edge_total(g0)
    &&& names.len() != 2 ==> views(reply.lines@) == seq!["Bad request"@]
    &&& names.len() == 2 && !idx0.contains_key(names[0]) ==> views(reply.lines@)
        == seq!["No tag with this old name"@]
    &&& names.len() == 2 && idx0.contains_key(names[0]) && !renamable(idx0, names[0], names[1])
        ==> views(reply.lines@) == seq!["Bad request"@]
    &&& reply.renaming is Some <==> names.len() == 2 && renamable(idx0, names[0], names[1])
    &&& reply.renaming is None ==> w == v && idx1 == idx0
    &&& reply.renaming is Some ==> ({
        let tag = idx0[names[0]];
        &&& reply.renaming->0.old_name@ == names[0]
        &&& reply.renaming->0.new_name@ == names[1]
        &&& idx1 == idx0.remove(names[0]).insert(names[1], tag)
        &&& w.nodes == v.nodes.insert(tag, NodeView { name: names[1], kind: NodeKind::Tag })
        &&& views(reply.lines@) == seq![rename_header(names[0], names[1])] + views(
            reply.renaming->0.paths@,
        )
        &&& sorted(views(reply.renaming->0.paths@))
        &&& reply.renaming->0.paths@.len() == Set::new(|e: u32| v.links.contains((tag, e))).len()
        &&& forall|p: Seq<char>|
            views(reply.renaming->0.paths@).contains(p) <==> exists|e: u32|
                v.links.contains((tag, e)) && #[trigger] full_path(w, root, base, e) == p
    })
}

/// How a request is answered, and what it changes. Only a renaming changes
/// anything.
pub open spec fn answered(
    g0: &MyGraph,
    g1: &MyGraph,
    idx0: Map<Seq<char>, u32>,
    idx1: Map<Seq<char>, u32>,
    root: u32,
    base: Seq<char>,
    bytes: Seq<u8>,
    reply: Reply,
) -> bool {
    match parse_spec(bytes) {
        None => {
            &&& views(reply.lines@) == seq!["Invalid request"@]
            &&& reply.renaming is None
            &&& view_of(g1) == view_of(g0)
            &&& idx1 == idx0
        },
        Some(RequestView::Entries(request)) => {
            &&& entries_reply(view_of(g0), idx0, root, base, request, views(reply.lines@))
            &&& reply.renaming is None
            &&& view_of(g1) == view_of(g0)
            &&& idx1 == idx0
        },
        Some(RequestView::Tags) => {
            &&& tags_reply(idx0, views(reply.lines@))
            &&& reply.renaming is None
            &&& view_of(g1) == view_of(g0)
            &&& idx1 == idx0
        },
        Some(RequestView::RenameTag(request)) => renamed(
            g0,
            g1,
            idx0,
            idx1,
            root,
            base,
            request,
            reply,
        ),
    }
}

/// Reads a request from the bytes that came in.
pub fn parse_request(buffer: &Vec<u8>) -> (r: Option<RequestKind>)
    ensures
        match r {
            Some(kind) => parse_spec(buffer@) == Some(kind@),
            None => parse_spec(buffer@) is None,
        },
{
    if buffer.len() < 3 {
        return None;
    }
    if buffer[0] != 0x30 || buffer[1] != 0x78 {
        return None;
    }
    let code = buffer[2];
    if code != 0x30 && code != 0x31 && code != 0x32 {
        return None;
    }
    if code == 0x31 {
        return Some(RequestKind::Tags);
    }
    let mut request = String::new();
    let mut i: usize = 3;
    proof {
        assert(request@ =~= latin1(buffer@.subrange(3, 3)));
    }
    while i < buffer.len()
        invariant
            3 <= i <= buffer@.len(),
            request@ == latin1(buffer@.subrange(3, i as int)),
        decreases buffer@.len() - i,
    {
        push_char(&mut request, buffer[i] as char);
        i += 1;
        proof {
            assert(buffer@.subrange(3, i as int) =~= buffer@.subrange(3, i - 1).push(
                buffer@[i - 1],
            ));
            assert(request@ =~= latin1(buffer@.subrange(3, i as int)));
        }
    }
    proof {
        assert(buffer@.subrange(3, i as int) =~= buffer@.skip(3));
    }
    let request = trim(request.as_str());
    if code == 0x30 {
        Some(RequestKind::Entries(request))
    } else {
        Some(RequestKind::RenameTag(request))
    }
}

/// The bytes to send for an answer: each line, with a line feed after it.
pub fn write_response(entries: Vec<String>) -> (response: Vec<u8>)
    ensures
        response@ == response_spec(views(entries@)),
{
    let mut response: Vec<u8> = Vec::new();
    let mut i: usize = 0;
    while i < entries.len()
        invariant
            i <= entries@.len(),
            response@ == response_spec(views(entries@).take(i as int)),
        decreases entries@.len() - i,
    {
        proof {
            assert(views(entries@).take(i + 1).drop_last() =~= views(entries@).take(i as int));
            assert(views(entries@).take(i + 1).last() == entries@[i as int]@);
        }
        let bytes = entries[i].as_str().as_bytes();
        response.extend_from_slice(bytes);
        response.push(10u8);
        i += 1;
    }
    proof {
        assert(views(entries@).take(i as int) =~= views(entries@));
    }
    response
}

/// Answers `0x0`: the paths of the entries that the tag expression selects,
/// one to a line, in ascending order; the one line `No files` where it
/// selects none.
pub fn request_entries(
    request: String,
    root_index: u32,
    graph: &MyGraph,
    tags_index: &TagIndex,
    base_path: String,
) -> (lines: Vec<String>)
    requires
        well_formed(graph, tags_index, root_index),
    ensures
        entries_reply(
            view_of(graph),
            tags_index@,
            root_index,
            base_path@,
            request@,
            views(lines@),
        ),
{
    let found = expression_to_entries(request, root_index, graph, tags_index, base_path);
    if found.len() == 0 {
        let mut lines: Vec<String> = Vec::new();
        lines.push(String::from_str("No files"));
        proof {
            assert(views(lines@) =~= seq!["No files"@]);
        }
        lines
    } else {
        found
    }
}

/// Answers `0x1`: the names of all tags, one to a line, in ascending order.
pub fn request_tags(tags_index: &TagIndex) -> (lines: Vec<String>)
    requires
        tags_index.wf(),
    ensures
        tags_reply(tags_index@, views(lines@)),
{
    let mut lines = tags_index.keys();
    let ghost unsorted = views(lines@);
    sort_strings(&mut lines);
    proof {
        let now = views(lines@);
        unsorted.to_multiset_ensures();
        now.to_multiset_ensures();
        unsorted.lemma_multiset_has_no_duplicates();
        now.lemma_multiset_has_no_duplicates_conv();
        assert forall|n: Seq<char>| now.to_set().contains(n) <==> unsorted.to_set().contains(
            n,
        ) by {
            assert(now.to_multiset().count(n) == unsorted.to_multiset().count(n));
            assert(now.contains(n) <==> now.to_multiset().count(n) > 0);
            assert(unsorted.contains(n) <==> unsorted.to_multiset().count(n) > 0);
        }
        assert(now.to_set() =~= unsorted.to_set());
    }
    lines
}

/// Giving a tag node a name that no other tag has keeps all as it is but
/// for that name.
pub proof fn lemma_rename_tag(
    v: GraphView,
    w: GraphView,
    idx: Map<Seq<char>, u32>,
    old_name: Seq<char>,
    new_name: Seq<char>,
)
    requires
        links_typed(v),
        indexed(v, idx),
        no_orphans(v),
        renamable(idx, old_name, new_name),
        w.nodes == v.nodes.insert(
            idx[old_name],
            NodeView { name: new_name, kind: NodeKind::Tag },
        ),
        w.links == v.links,
    ensures
        links_typed(w),
        indexed(w, idx.remove(old_name).insert(new_name, idx[old_name])),
        no_orphans(w),
        same_tree(v, w),
        forall|x: u32, n: Seq<char>| #[trigger]
            w.tags_of(x).contains(n) <==> (n == new_name && v.tags_of(x).contains(old_name)) || (n
                != new_name && n != old_name && v.tags_of(x).contains(n)),
        new_name == old_name ==> w.nodes == v.nodes && idx.remove(old_name).insert(
            new_name,
            idx[old_name],
        ) == idx,
{
    let t = idx[old_name];
    let idx2 = idx.remove(old_name).insert(new_name, t);
    assert(v.is_tag(t));
    assert forall|a: u32| (v.is_tag(a) <==> w.is_tag(a)) && (v.is_dir(a) <==> w.is_dir(a)) && (
    v.is_entry(a) <==> w.is_entry(a)) by {}
    assert(links_typed(w)) by {
        assert forall|a: u32, b: u32| #[trigger] w.links.contains((a, b)) implies w.is_entry(b)
            && (w.is_tag(a) || w.is_dir(a)) by {
            assert(v.links.contains((a, b)));
        }
    }
    assert(indexed(w, idx2)) by {
        assert forall|n: Seq<char>| #[trigger] idx2.contains_key(n) implies w.is_tag(idx2[n])
            && w.nodes[idx2[n]].name == n by {
            if n != new_name {
                assert(idx.contains_key(n));
                assert(v.is_tag(idx[n]));
                assert(v.nodes[idx[n]].name == n);
            }
        }
        assert forall|x: u32| #[trigger] w.is_tag(x) implies idx2.contains_key(w.nodes[x].name)
            && idx2[w.nodes[x].name] == x by {
            assert(v.is_tag(x));
            if x != t {
                assert(idx.contains_key(v.nodes[x].name));
            }
        }
    }
    assert(no_orphans(w)) by {
        assert forall|x: u32| #[trigger] w.is_tag(x) implies exists|y: u32|
            w.links.contains((x, y)) by {
            assert(v.is_tag(x));
        }
    }
    lemma_same_tree_by(v, w);
    assert forall|x: u32, n: Seq<char>| #[trigger]
        w.tags_of(x).contains(n) <==> (n == new_name && v.tags_of(x).contains(old_name)) || (n
            != new_name && n != old_name && v.tags_of(x).contains(n)) by {
        if w.tags_of(x).contains(n) {
            let a = choose|a: u32| #[trigger] w.tagged(a, x) && w.nodes[a].name == n;
            assert(v.tagged(a, x));
            assert(v.is_tag(a));
            if a != t {
                assert(idx.contains_key(v.nodes[a].name));
            }
        }
        if n == new_name && v.tags_of(x).contains(old_name) {
            let a = choose|a: u32| #[trigger] v.tagged(a, x) && v.nodes[a].name == old_name;
            assert(v.is_tag(a));
            assert(a == t);
            assert(w.tagged(t, x));
        }
        if n != new_name && n != old_name && v.tags_of(x).contains(n) {
            let a = choose|a: u32| #[trigger] v.tagged(a, x) && v.nodes[a].name == n;
            assert(w.tagged(a, x));
        }
    }
    if new_name == old_name {
        assert(w.nodes =~= v.nodes);
        assert(idx2 =~= idx);
    }
}

/// Answers `0x2`: gives the tag named by the first word of the payload the
/// name that the second word gives.
///
/// With a payload of two words, the first a tag and the second not the name
/// of another tag, the tag's node and the index get the new name, the answer
/// is a header line and after it the paths of the entries that the tag is
/// on, and the renaming says what is to be written to disk for each of them.
/// Otherwise nothing changes and the answer is one line: `Bad request` where
/// the payload is not two words or the new name is taken, `No tag with this
/// old name` where the first word is no tag.
pub fn request_rename_tag(
    request: String,
    root_index: u32,
    graph: &mut MyGraph,
    tags_index: &mut TagIndex,
    base_path: String,
) -> (reply: Reply)
    requires
        well_formed(old(graph), old(tags_index), root_index),
    ensures
        well_formed(final(graph), final(tags_index), root_index),
        renamed(
            old(graph),
            final(graph),
            old(tags_index)@,
            final(tags_index)@,
            root_index,
            base_path@,
            request@,
            reply,
        ),
{
    let ghost v = view_of(graph);
    let ghost idx = tags_index@;
    let mut v_words = words(request.as_str());
    if v_words.len() != 2 {
        return Reply { lines: one_line("Bad request"), renaming: None };
    }
    let new_name = v_words.pop().unwrap();
    let old_name = v_words.pop().unwrap();
    let tag = match tags_index.get(&old_name) {
        Some(tag) => tag,
        None => {
            return Reply { lines: one_line("No tag with this old name"), renaming: None };
        },
    };
    if new_name != old_name && tags_index.contains_key(&new_name) {
        return Reply { lines: one_line("Bad request"), renaming: None };
    }
    tags_index.remove(&old_name);
    tags_index.insert(new_name.clone(), tag);
    rename_node(graph, tag, new_name.clone());
    proof {
        lemma_rename_tag(v, view_of(graph), idx, old_name@, new_name@);
        lemma_same_tree_wf(v, view_of(graph), root_index);
    }
    let paths = entries(root_index, graph, tag, &base_path);
    let mut header = String::from_str("Rename \"");
    header.append(old_name.as_str());
    header.append("\" to \"");
    header.append(new_name.as_str());
    header.append("\" for files :");
    let mut lines: Vec<String> = Vec::new();
    proof {
        assert(header@ =~= rename_header(old_name@, new_name@));
    }
    lines.push(header);
    let mut i: usize = 0;
    proof {
        assert(views(lines@) =~= seq![rename_header(old_name@, new_name@)] + views(paths@).take(
            0,
        ));
    }
    while i < paths.len()
        invariant
            i <= paths@.len(),
            views(lines@) == seq![rename_header(old_name@, new_name@)] + views(paths@).take(
                i as int,
            ),
        decreases paths@.len() - i,
    {
        let ghost before = views(lines@);
        lines.push(paths[i].clone());
        i += 1;
        proof {
            assert(views(lines@) =~= before.push(paths@[i - 1]@));
            assert(views(paths@).take(i as int) =~= views(paths@).take(i - 1).push(
                paths@[i - 1]@,
            ));
            assert(views(lines@) =~= seq![rename_header(old_name@, new_name@)] + views(
                paths@,
            ).take(i as int));
        }
    }
    proof {
        assert(views(paths@).take(i as int) =~= views(paths@));
    }
    Reply { lines, renaming: Some(Renaming { old_name, new_name, paths }) }
}

/// A list of one line.
fn one_line(text: &str) -> (lines: Vec<String>)
    ensures
        views(lines@) == seq![text@],
{
    let mut lines: Vec<String> = Vec::new();
    lines.push(String::from_str(text));
    proof {
        assert(views(lines@) =~= seq![text@]);
    }
    lines
}

/// Answers the request that the bytes hold. Bytes that hold no request are
/// answered with the one line `Invalid request`.
pub fn handle_request(
    buffer: &Vec<u8>,
    root_index: u32,
    graph: &mut MyGraph,
    tags_index: &mut TagIndex,
    base_path: &String,
) -> (reply: Reply)
    requires
        well_formed(old(graph), old(tags_index), root_index),
    ensures
        well_formed(final(graph), final(tags_index), root_index),
        answered(
            old(graph),
            final(graph),
            old(tags_index)@,
            final(tags_index)@,
            root_index,
            base_path@,
            buffer@,
            reply,
        ),
{
    match parse_request(buffer) {
        Some(RequestKind::Entries(request)) => {
            let lines = request_entries(request, root_index, graph, tags_index, base_path.clone());
            Reply { lines, renaming: None }
        },
        Some(RequestKind::Tags) => {
            let lines = request_tags(tags_index);
            Reply { lines, renaming: None }
        },
        Some(RequestKind::RenameTag(request)) => request_rename_tag(
            request,
            root_index,
            graph,
            tags_index,
            base_path.clone(),
        ),
        None => Reply { lines: one_line("Invalid request"), renaming: None },
    }
}

} // verus!
