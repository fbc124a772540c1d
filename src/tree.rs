//! The metadata document: a tree of directories and files, and its pre-order listing.
use vstd::prelude::*;

verus! {

broadcast use {vstd::std_specs::vec::group_vec_axioms, vstd::seq::group_seq_axioms};

/// One named member of a directory.
pub struct Child {
    pub name: String,
    pub node: Node,
}

/// A node of the metadata document.
pub enum Node {
    /// A directory and its members, keyed by name.
    Directory(Vec<Child>),
    /// A file: where its bytes start, relative to the file-data region, and how many there are.
    File { offset: u64, size: u64 },
}

/// A decoded metadata document: the child mapping of its root.
pub struct Document {
    pub files: Vec<Child>,
}

/// One entry of a listing, in mathematical form. Directories have offset and size zero.
pub struct EntryView {
    pub path: Seq<char>,
    pub is_dir: bool,
    pub offset: nat,
    pub size: nat,
}

/// One entry of a listing: its path inside the archive, and what it is.
#[derive(Debug, Clone, PartialEq, Eq)]
pub struct Entry {
    pub path: String,
    pub is_dir: bool,
    pub offset: u64,
    pub size: u64,
}

impl View for Entry {
    type V = EntryView;

    open spec fn view(&self) -> EntryView {
        EntryView {
            path: self.path@,
            is_dir: self.is_dir,
            offset: self.offset as nat,
            size: self.size as nat,
        }
    }
}

/// The views of a sequence of entries.
pub open spec fn views(s: Seq<Entry>) -> Seq<EntryView> {
    s.map_values(|e: Entry| e@)
}

/// The path of member `name` of the directory at `prefix`; members of the root have their
/// bare name.
pub open spec fn join_path(prefix: Seq<char>, name: Seq<char>) -> Seq<char> {
    if prefix.len() == 0 {
        name
    } else {
        prefix + seq!['/'] + name
    }
}

/// Pre-order listing of `node`, found at `path`: the node first, then its members in order.
pub open spec fn list_node(node: Node, path: Seq<char>) -> Seq<EntryView>
    decreases node, 0int,
{
    match node {
        Node::Directory(children) => seq![EntryView { path, is_dir: true, offset: 0, size: 0 }]
            + list_children(children@, path, 0),
        Node::File { offset, size } => seq![
            EntryView { path, is_dir: false, offset: offset as nat, size: size as nat },
        ],
    }
}

/// Pre-order listing of the members from index `i` on of the directory at `prefix`.
pub open spec fn list_children(children: Seq<Child>, prefix: Seq<char>, i: int) -> Seq<EntryView>
    decreases children, children.len() - i,
{
    if 0 <= i < children.len() {
        list_node(children[i].node, join_path(prefix, children[i].name@)) + list_children(
            children,
            prefix,
            i + 1,
        )
    } else {
        seq![]
    }
}

/// Pre-order listing of a whole document; the root itself is not listed.
pub open spec fn listing(doc: Document) -> Seq<EntryView> {
    list_children(doc.files@, seq![], 0)
}

/// Appending a member to a directory appends that member's listing to the directory's.
pub proof fn lemma_list_children_push(s: Seq<Child>, c: Child, prefix: Seq<char>, i: int)
    requires
        0 <= i <= s.len(),
    ensures
        list_children(s.push(c), prefix, i) == list_children(s, prefix, i) + list_node(
            c.node,
            join_path(prefix, c.name@),
        ),
    decreases s.len() - i,
{
    if i < s.len() {
        lemma_list_children_push(s, c, prefix, i + 1);
        assert(s.push(c)[i] == s[i]);
        assert(list_children(s.push(c), prefix, i) =~= list_children(s, prefix, i) + list_node(
            c.node,
            join_path(prefix, c.name@),
        ));
    } else {
        assert(s.push(c)[i] == c);
        assert(list_children(s.push(c), prefix, i + 1) =~= seq![]);
        assert(list_children(s.push(c), prefix, i) =~= list_children(s, prefix, i) + list_node(
            c.node,
            join_path(prefix, c.name@),
        ));
    }
}

/// The path of member `name` of the directory at `prefix`.
pub fn join_name(prefix: &String, name: &String) -> (r: String)
    ensures
        r@ == join_path(prefix@, name@),
{
    if prefix.as_str().is_empty() {
        name.clone()
    } else {
        let with_slash = prefix.clone().concat("/");
        proof {
            reveal_strlit("/");
        }
        with_slash.concat(name.as_str())
    }
}

proof fn lemma_views_push(s: Seq<Entry>, e: Entry)
    ensures
        views(s.push(e)) == views(s).push(e@),
{
    assert(views(s.push(e)) =~= views(s).push(e@));
}

fn collect_node(node: &Node, path: String, out: &mut Vec<Entry>)
    ensures
        views(final(out)@) == views(old(out)@) + list_node(*node, path@),
    decreases node,
{
    match node {
        Node::Directory(children) => {
            proof {
                lemma_views_push(out@, Entry { path: path, is_dir: true, offset: 0, size: 0 });
            }
            out.push(Entry { path: path.clone(), is_dir: true, offset: 0, size: 0 });
            collect_children(children, &path, out);
            assert(views(final(out)@) =~= views(old(out)@) + list_node(*node, path@));
        },
        Node::File { offset, size } => {
            proof {
                lemma_views_push(out@, Entry { path: path, is_dir: false, offset: *offset, size: *size });
            }
            out.push(Entry { path, is_dir: false, offset: *offset, size: *size });
            assert(views(final(out)@) =~= views(old(out)@) + list_node(*node, path@));
        },
    }
}

fn collect_children(children: &Vec<Child>, prefix: &String, out: &mut Vec<Entry>)
    ensures
        views(final(out)@) == views(old(out)@) + list_children(children@, prefix@, 0),
    decreases children,
{
    let mut i: usize = 0;
    while i < children.len()
        invariant
            0 <= i <= children.len(),
            views(old(out)@) + list_children(children@, prefix@, 0) == views(out@)
                + list_children(children@, prefix@, i as int),
        decreases children.len() - i,
    {
        let path = join_name(prefix, &children[i].name);
        let ghost before = views(out@);
        collect_node(&children[i].node, path, out);
        assert(list_children(children@, prefix@, i as int) == list_node(
            children[i as int].node,
            path@,
        ) + list_children(children@, prefix@, i + 1));
        assert(before + list_children(children@, prefix@, i as int) =~= views(out@)
            + list_children(children@, prefix@, i + 1));
        i = i + 1;
    }
    assert(list_children(children@, prefix@, i as int) =~= seq![]);
    assert(views(out@) + list_children(children@, prefix@, i as int) =~= views(out@));
}

impl Document {
    /// All entries of the document in depth-first pre-order: each directory before its
    /// members, each member's path its directory's path, `/`, and its name.
    pub fn iterate_entries(&self) -> (r: Vec<Entry>)
        ensures
            views(r@) == listing(*self),
    {
        let mut out: Vec<Entry> = Vec::new();
        let root = String::new();
        collect_children(&self.files, &root, &mut out);
        assert(views(out@) =~= views(Seq::<Entry>::empty()) + listing(*self));
        out
    }
}

/// Listing a document twice gives the same sequence of entries.
pub proof fn lemma_listing_repeatable(doc: Document, first: Seq<Entry>, second: Seq<Entry>)
    requires
        views(first) == listing(doc),
        views(second) == listing(doc),
    ensures
        views(first) == views(second),
{
}

} // verus!
