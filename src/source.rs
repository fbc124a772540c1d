//! Building a source tree from matched paths, one path at a time.
use vstd::prelude::*;

use crate::pack::string_views;
use crate::tree::{Child, Document, Node};

verus! {

broadcast use {vstd::std_specs::vec::group_vec_axioms, vstd::seq::group_seq_axioms};

/// Index of the first member of `s` from `i` on named `name`; `s.len()` when there is none.
pub open spec fn find_member(s: Seq<Child>, name: Seq<char>, i: nat) -> nat
    decreases s.len() - i,
{
    if i >= s.len() {
        s.len()
    } else if s[i as int].name@ == name {
        i
    } else {
        find_member(s, name, i + 1)
    }
}

/// The node reached by following the names `parts` down from the members `s`.
pub open spec fn node_at(s: Seq<Child>, parts: Seq<Seq<char>>) -> Option<Node>
    decreases parts.len(),
{
    if parts.len() == 0 {
        None
    } else {
        let j = find_member(s, parts[0], 0);
        if j >= s.len() {
            None
        } else if parts.len() == 1 {
            Some(s[j as int].node)
        } else {
            match s[j as int].node {
                Node::Directory(members) => node_at(members@, parts.drop_first()),
                Node::File { .. } => None,
            }
        }
    }
}

/// `after` is `before` with the path `parts` added: members not named `parts[0]` are unchanged,
/// the names of all members stay, at most one member is appended, and where the path goes on
/// through a directory that was there, the same holds inside it.
pub open spec fn added_along(before: Seq<Child>, after: Seq<Child>, parts: Seq<Seq<char>>) -> bool
    decreases parts.len(),
{
    &&& after.len() == before.len() || after.len() == before.len() + 1
    &&& forall|k: int|
        0 <= k < before.len() ==> (#[trigger] after[k]).name@ == before[k].name@ && (
        before[k].name@ != parts[0] ==> after[k] == before[k])
    &&& parts.len() > 1 ==> {
        let j = find_member(before, parts[0], 0);
        j < before.len() ==> match (before[j as int].node, after[j as int].node) {
            (Node::Directory(inner_before), Node::Directory(inner_after)) => added_along(
                inner_before@,
                inner_after@,
                parts.drop_first(),
            ),
            (Node::Directory(_), Node::File { .. }) => false,
            _ => true,
        }
    }
}

/// What is found at the added path: the file itself, or some directory.
pub open spec fn placed_as(found: Option<Node>, node: Node) -> bool {
    match node {
        Node::File { .. } => found == Some(node),
        Node::Directory(_) => found matches Some(Node::Directory(_)),
    }
}

proof fn lemma_find_member(s: Seq<Child>, name: Seq<char>, i: nat, j: nat)
    requires
        i <= j <= s.len(),
        forall|k: int| i <= k < j ==> (#[trigger] s[k]).name@ != name,
        j < s.len() ==> s[j as int].name@ == name,
    ensures
        find_member(s, name, i) == j,
    decreases j - i,
{
    if i < j {
        lemma_find_member(s, name, i + 1, j);
    }
}

fn add_from(children: &mut Vec<Child>, parts: &Vec<String>, i: usize, node: Node)
    requires
        i < parts@.len(),
    ensures
        added_along(old(children)@, final(children)@, string_views(parts@).skip(i as int)),
        placed_as(node_at(final(children)@, string_views(parts@).skip(i as int)), node),
    decreases parts@.len() - i,
{
    let ghost ps = string_views(parts@).skip(i as int);
    assert(ps[0] == parts@[i as int]@);
    let mut j: usize = 0;
    while j < children.len() && !(children[j].name == parts[i])
        invariant
            j <= children@.len(),
            i < parts@.len(),
            forall|k: int| 0 <= k < j ==> (#[trigger] children@[k]).name@ != parts@[i as int]@,
        decreases children@.len() - j,
    {
        j = j + 1;
    }
    let ghost before = children@;
    let found = j < children.len();
    if parts.len() - i == 1 {
        if !found {
            children.push(Child { name: parts[i].clone(), node });
        } else {
            let keep = match (&children[j].node, &node) {
                (Node::Directory(_), Node::Directory(_)) => true,
                _ => false,
            };
            if !keep {
                let old_child = children.remove(j);
                children.insert(j, Child { name: old_child.name, node });
            }
        }
        assert(final(children)@.len() > 0);
        proof {
            lemma_find_member(children@, ps[0], 0, j as nat);
        }
        assert(ps.len() == 1);
    } else {
        proof {
            lemma_find_member(before, ps[0], 0, j as nat);
        }
        let (name, members) = if !found {
            (parts[i].clone(), Vec::new())
        } else {
            let old_child = children.remove(j);
            match old_child.node {
                Node::Directory(m) => (old_child.name, m),
                Node::File { .. } => (old_child.name, Vec::new()),
            }
        };
        let mut members = members;
        add_from(&mut members, parts, i + 1, node);
        let ghost inner = members@;
        let child = Child { name, node: Node::Directory(members) };
        if !found {
            children.push(child);
        } else {
            children.insert(j, child);
        }
        proof {
            lemma_find_member(children@, ps[0], 0, j as nat);
            assert(string_views(parts@).skip(i + 1) =~= ps.drop_first());
        }
    }
    assert forall|k: int| 0 <= k < before.len() implies (#[trigger] children@[k]).name@
        == before[k].name@ && (before[k].name@ != ps[0] ==> children@[k] == before[k]) by {
        if k != j {
            assert(children@[k] == before[k]);
        }
    }
}

impl Document {
    /// Adds `node` at the path `parts` (its names from the root down), making each directory on
    /// the way where none of that name exists and reusing those that do; a file on the way
    /// becomes a directory. A file at the end replaces what stood there; a directory at the
    /// end keeps a directory that stood there. An empty path changes nothing.
    pub fn add_match(&mut self, parts: &Vec<String>, node: Node)
        ensures
            parts@.len() == 0 ==> *final(self) == *old(self),
            parts@.len() > 0 ==> added_along(
                old(self).files@,
                final(self).files@,
                string_views(parts@),
            ),
            parts@.len() > 0 ==> placed_as(node_at(final(self).files@, string_views(parts@)), node),
    {
        if parts.len() > 0 {
            add_from(&mut self.files, parts, 0, node);
            assert(string_views(parts@).skip(0) =~= string_views(parts@));
        }
    }
}

} // verus!
