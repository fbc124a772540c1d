//! Assigning each file of a source tree its place in the file-data region.
use vstd::prelude::*;

use crate::tree::{
    join_name, join_path, lemma_list_children_push, list_children, list_node, listing, Child,
    Document, EntryView, Node,
};
use crate::ArchiveError;

verus! {

broadcast use {vstd::std_specs::vec::group_vec_axioms, vstd::seq::group_seq_axioms};

/// The largest size that a file in an archive may have.
pub const MAX_FILE_SIZE: u64 = 4294967295;

/// The bytes that an entry takes in the file-data region.
pub open spec fn file_size(e: EntryView) -> nat {
    if e.is_dir {
        0
    } else {
        e.size
    }
}

/// The bytes that all files of a listing take together.
pub open spec fn total_size(s: Seq<EntryView>) -> nat
    decreases s.len(),
{
    if s.len() == 0 {
        0
    } else {
        file_size(s[0]) + total_size(s.drop_first())
    }
}

/// `e` placed at `at`: a file gets that offset, a directory stays as it is.
pub open spec fn placed(e: EntryView, at: nat) -> EntryView {
    if e.is_dir {
        e
    } else {
        EntryView { path: e.path, is_dir: false, offset: at, size: e.size }
    }
}

/// The listing with each file placed right after the files before it, the first at `start`.
pub open spec fn allocate(s: Seq<EntryView>, start: nat) -> Seq<EntryView>
    decreases s.len(),
{
    if s.len() == 0 {
        seq![]
    } else {
        seq![placed(s[0], start)] + allocate(s.drop_first(), start + file_size(s[0]))
    }
}

/// A file entry larger than the format allows.
pub open spec fn oversize(e: EntryView) -> bool {
    !e.is_dir && e.size > MAX_FILE_SIZE
}

/// No file of the listing is too large, and all of them fit after `start` in 64-bit offsets.
pub open spec fn packable(s: Seq<EntryView>, start: nat) -> bool {
    &&& forall|k: int| 0 <= k < s.len() ==> !oversize(#[trigger] s[k])
    &&& start + total_size(s) <= u64::MAX
}

/// The paths of the files of a listing, in order.
pub open spec fn file_paths(s: Seq<EntryView>) -> Seq<Seq<char>>
    decreases s.len(),
{
    if s.len() == 0 {
        seq![]
    } else {
        (if s[0].is_dir {
            seq![]
        } else {
            seq![s[0].path]
        }) + file_paths(s.drop_first())
    }
}

/// The file entries of a listing, in order.
pub open spec fn file_entries(s: Seq<EntryView>) -> Seq<EntryView>
    decreases s.len(),
{
    if s.len() == 0 {
        seq![]
    } else {
        (if s[0].is_dir {
            seq![]
        } else {
            seq![s[0]]
        }) + file_entries(s.drop_first())
    }
}

/// The views of a sequence of strings.
pub open spec fn string_views(v: Seq<String>) -> Seq<Seq<char>> {
    v.map_values(|s: String| s@)
}

/// The total size of two listings one after the other is the sum of their totals.
pub proof fn lemma_total_concat(a: Seq<EntryView>, b: Seq<EntryView>)
    ensures
        total_size(a + b) == total_size(a) + total_size(b),
    decreases a.len(),
{
    if a.len() > 0 {
        assert((a + b).drop_first() =~= a.drop_first() + b);
        lemma_total_concat(a.drop_first(), b);
    } else {
        assert(a + b =~= b);
    }
}

/// Placing two listings one after the other places the second right after the first.
pub proof fn lemma_allocate_concat(a: Seq<EntryView>, b: Seq<EntryView>, start: nat)
    ensures
        allocate(a + b, start) == allocate(a, start) + allocate(b, start + total_size(a)),
    decreases a.len(),
{
    if a.len() > 0 {
        assert((a + b).drop_first() =~= a.drop_first() + b);
        lemma_allocate_concat(a.drop_first(), b, start + file_size(a[0]));
        assert(allocate(a + b, start) =~= allocate(a, start) + allocate(b, start + total_size(a)));
    } else {
        assert(a + b =~= b);
        assert(allocate(a + b, start) =~= allocate(a, start) + allocate(b, start + total_size(a)));
    }
}

/// The file paths of two listings one after the other are theirs one after the other.
pub proof fn lemma_file_paths_concat(a: Seq<EntryView>, b: Seq<EntryView>)
    ensures
        file_paths(a + b) == file_paths(a) + file_paths(b),
    decreases a.len(),
{
    if a.len() > 0 {
        assert((a + b).drop_first() =~= a.drop_first() + b);
        lemma_file_paths_concat(a.drop_first(), b);
        assert(file_paths(a + b) =~= file_paths(a) + file_paths(b));
    } else {
        assert(a + b =~= b);
        assert(file_paths(a + b) =~= file_paths(a) + file_paths(b));
    }
}

/// Two listings one after the other can be packed exactly when the first can, and the second
/// can after it.
pub proof fn lemma_packable_concat(a: Seq<EntryView>, b: Seq<EntryView>, start: nat)
    ensures
        packable(a + b, start) <==> packable(a, start) && packable(b, start + total_size(a)),
{
    lemma_total_concat(a, b);
    if packable(a, start) && packable(b, start + total_size(a)) {
        assert forall|k: int| 0 <= k < (a + b).len() implies !oversize(#[trigger] (a + b)[k]) by {
            if k < a.len() {
                assert((a + b)[k] == a[k]);
            } else {
                assert((a + b)[k] == b[k - a.len()]);
            }
        }
    }
    if packable(a + b, start) {
        assert forall|k: int| 0 <= k < a.len() implies !oversize(#[trigger] a[k]) by {
            assert((a + b)[k] == a[k]);
        }
        assert forall|k: int| 0 <= k < b.len() implies !oversize(#[trigger] b[k]) by {
            assert((a + b)[k + a.len()] == b[k]);
        }
    }
}

proof fn lemma_string_views_push(v: Seq<String>, s: String)
    ensures
        string_views(v.push(s)) == string_views(v).push(s@),
{
    assert(string_views(v.push(s)) =~= string_views(v).push(s@));
}

fn pack_node(node: &Node, path: String, offset: &mut u64, files: &mut Vec<String>) -> (r: Result<
    Node,
    ArchiveError,
>)
    ensures
        r is Ok <==> packable(list_node(*node, path@), *old(offset) as nat),
        r is Ok ==> list_node(r->Ok_0, path@) == allocate(
            list_node(*node, path@),
            *old(offset) as nat,
        ),
        r is Ok ==> *final(offset) == *old(offset) + total_size(list_node(*node, path@)),
        r is Ok ==> string_views(final(files)@) == string_views(old(files)@) + file_paths(
            list_node(*node, path@),
        ),
        r is Err ==> r->Err_0 == ArchiveError::Oversize,
    decreases node,
{
    let ghost listed = list_node(*node, path@);
    match node {
        Node::Directory(children) => {
            let ghost rest = list_children(children@, path@, 0);
            assert(listed.drop_first() =~= rest);
            let r = pack_children(children, &path, offset, files);
            match r {
                Ok(built) => {
                    let out = Node::Directory(built);
                    assert(list_node(out, path@) =~= allocate(listed, *old(offset) as nat));
                    assert(file_paths(listed) =~= file_paths(rest));
                    proof {
                        assert forall|k: int| 0 <= k < listed.len() implies !oversize(
                            #[trigger] listed[k],
                        ) by {
                            if k > 0 {
                                assert(listed[k] == rest[k - 1]);
                            }
                        }
                    }
                    Ok(out)
                },
                Err(e) => {
                    proof {
                        if packable(listed, *old(offset) as nat) {
                            assert forall|k: int| 0 <= k < rest.len() implies !oversize(
                                #[trigger] rest[k],
                            ) by {
                                assert(listed[k + 1] == rest[k]);
                            }
                        }
                    }
                    Err(e)
                },
            }
        },
        Node::File { offset: _, size } => {
            let ghost entry = EntryView { path: path@, is_dir: false, offset: 0, size: *size as nat };
            assert(listed.drop_first() =~= Seq::<EntryView>::empty());
            assert(listed[0].size == *size);
            assert(listed[0].path == path@);
            assert(!listed[0].is_dir);
            assert(allocate(Seq::<EntryView>::empty(), 0) == Seq::<EntryView>::empty());
            assert(file_paths(Seq::<EntryView>::empty()) == Seq::<Seq<char>>::empty());
            assert(total_size(Seq::<EntryView>::empty()) == 0);
            if *size > MAX_FILE_SIZE {
                assert(oversize(listed[0]));
                return Err(ArchiveError::Oversize);
            }
            match offset.checked_add(*size) {
                None => Err(ArchiveError::Oversize),
                Some(next) => {
                    let at = *offset;
                    let ghost p = path@;
                    proof {
                        lemma_string_views_push(files@, path);
                    }
                    files.push(path);
                    *offset = next;
                    let out = Node::File { offset: at, size: *size };
                    assert(allocate(listed.drop_first(), at as nat + file_size(listed[0]))
                        =~= Seq::<EntryView>::empty());
                    assert(allocate(listed, at as nat) =~= seq![placed(listed[0], at as nat)]);
                    assert(list_node(out, p) =~= allocate(listed, at as nat));
                    assert(file_paths(listed) =~= seq![p]);
                    Ok(out)
                },
            }
        },
    }
}

fn pack_children(children: &Vec<Child>, prefix: &String, offset: &mut u64, files: &mut Vec<
    String,
>) -> (r: Result<Vec<Child>, ArchiveError>)
    ensures
        r is Ok <==> packable(list_children(children@, prefix@, 0), *old(offset) as nat),
        r is Ok ==> list_children(r->Ok_0@, prefix@, 0) == allocate(
            list_children(children@, prefix@, 0),
            *old(offset) as nat,
        ),
        r is Ok ==> *final(offset) == *old(offset) + total_size(
            list_children(children@, prefix@, 0),
        ),
        r is Ok ==> string_views(final(files)@) == string_views(old(files)@) + file_paths(
            list_children(children@, prefix@, 0),
        ),
        r is Err ==> r->Err_0 == ArchiveError::Oversize,
    decreases children,
{
    let ghost start = *offset as nat;
    let ghost files0 = string_views(files@);
    let ghost whole = list_children(children@, prefix@, 0);
    let ghost mut done: Seq<EntryView> = seq![];
    let mut built: Vec<Child> = Vec::new();
    let mut i: usize = 0;
    assert(done + whole =~= whole);
    while i < children.len()
        invariant
            0 <= i <= children.len(),
            whole == list_children(children@, prefix@, 0),
            start == *old(offset) as nat,
            files0 == string_views(old(files)@),
            done + list_children(children@, prefix@, i as int) == whole,
            list_children(built@, prefix@, 0) == allocate(done, start),
            *offset == start + total_size(done),
            packable(done, start),
            string_views(files@) == files0 + file_paths(done),
        decreases children.len() - i,
    {
        let path = join_name(prefix, &children[i].name);
        let ghost seg = list_node(children[i as int].node, path@);
        let ghost rest = list_children(children@, prefix@, i + 1);
        assert(list_children(children@, prefix@, i as int) == seg + rest);
        assert(whole == done + seg + rest) by {
            assert(done + (seg + rest) =~= done + seg + rest);
        }
        proof {
            lemma_packable_concat(done + seg, rest, start);
            lemma_packable_concat(done, seg, start);
            lemma_total_concat(done, seg);
        }
        match pack_node(&children[i].node, path, offset, files) {
            Ok(node) => {
                let child = Child { name: children[i].name.clone(), node };
                proof {
                    lemma_list_children_push(built@, child, prefix@, 0);
                    lemma_allocate_concat(done, seg, start);
                    lemma_file_paths_concat(done, seg);
                }
                built.push(child);
                proof {
                    done = done + seg;
                }
                assert(done + rest == whole);
                i = i + 1;
            },
            Err(e) => {
                assert(!packable(seg, start + total_size(done)));
                assert(!packable(done + seg, start));
                assert(!packable(whole, start));
                return Err(e);
            },
        }
    }
    assert(list_children(children@, prefix@, i as int) =~= Seq::<EntryView>::empty());
    assert(done =~= whole);
    Ok(built)
}

/// The outcome of packing: the metadata document with every file placed, and the paths of the
/// files in the order their bytes follow each other in the file-data region.
pub struct Packed {
    pub document: Document,
    pub files: Vec<String>,
}

/// Places every file of `source` in the file-data region, in pre-order, each right after the
/// one before it and the first at offset zero; the offsets that `source` holds are ignored.
/// Fails with `Oversize` exactly when a file is larger than `MAX_FILE_SIZE` or the files do
/// not fit in 64-bit offsets together.
pub fn walk_and_pack(source: &Document) -> (r: Result<Packed, ArchiveError>)
    ensures
        r is Ok <==> packable(listing(*source), 0),
        r is Ok ==> listing(r->Ok_0.document) == allocate(listing(*source), 0),
        r is Ok ==> string_views(r->Ok_0.files@) == file_paths(listing(*source)),
        r is Err ==> r->Err_0 == ArchiveError::Oversize,
{
    let mut offset: u64 = 0;
    let mut files: Vec<String> = Vec::new();
    let root = String::new();
    let r = pack_children(&source.files, &root, &mut offset, &mut files);
    match r {
        Ok(built) => {
            assert(string_views(files@) =~= file_paths(listing(*source)));
            Ok(Packed { document: Document { files: built }, files })
        },
        Err(e) => Err(e),
    }
}

/// The file paths of a listing are the paths of its file entries.
pub proof fn lemma_file_paths_entries(s: Seq<EntryView>)
    ensures
        file_paths(s).len() == file_entries(s).len(),
        forall|q: int|
            0 <= q < file_entries(s).len() ==> #[trigger] file_paths(s)[q] == file_entries(s)[q].path
                && !file_entries(s)[q].is_dir,
    decreases s.len(),
{
    if s.len() > 0 {
        lemma_file_paths_entries(s.drop_first());
    }
}

/// Placing a listing and then taking its files is taking its files and then placing them.
pub proof fn lemma_file_entries_allocate(s: Seq<EntryView>, start: nat)
    ensures
        file_entries(allocate(s, start)) == allocate(file_entries(s), start),
    decreases s.len(),
{
    if s.len() > 0 {
        let rest = s.drop_first();
        let next = start + file_size(s[0]);
        lemma_file_entries_allocate(rest, next);
        let a = allocate(s, start);
        assert(a.drop_first() =~= allocate(rest, next));
        if s[0].is_dir {
            assert(file_entries(s) =~= file_entries(rest));
            assert(file_entries(a) =~= file_entries(allocate(rest, next)));
        } else {
            let f = file_entries(s);
            assert(f =~= seq![s[0]] + file_entries(rest));
            assert(f.drop_first() =~= file_entries(rest));
            assert(file_entries(a) =~= allocate(f, start));
        }
    } else {
        assert(file_entries(allocate(s, start)) =~= allocate(file_entries(s), start));
    }
}

/// A source holding a file larger than `MAX_FILE_SIZE`, such as one of 2^32 bytes, cannot be
/// packed: `walk_and_pack` fails on it with `Oversize`.
pub proof fn lemma_oversize_rejected(source: Document, k: int)
    requires
        0 <= k < listing(source).len(),
        !listing(source)[k].is_dir,
        listing(source)[k].size > MAX_FILE_SIZE,
    ensures
        !packable(listing(source), 0),
{
    assert(oversize(listing(source)[k]));
}

/// Placing keeps each entry's path, kind and size, and puts every file inside
/// `[start, start + total_size(s))`.
pub proof fn lemma_allocate_bounds(s: Seq<EntryView>, start: nat)
    ensures
        allocate(s, start).len() == s.len(),
        forall|k: int|
            0 <= k < s.len() ==> {
                let e = #[trigger] allocate(s, start)[k];
                &&& e.path == s[k].path
                &&& e.is_dir == s[k].is_dir
                &&& e.size == s[k].size
                &&& !e.is_dir ==> start <= e.offset && e.offset + e.size <= start + total_size(s)
            },
    decreases s.len(),
{
    if s.len() > 0 {
        let rest = s.drop_first();
        let next = start + file_size(s[0]);
        lemma_allocate_bounds(rest, next);
        let a = allocate(s, start);
        assert forall|k: int| 0 < k < s.len() implies #[trigger] a[k] == allocate(rest, next)[k
            - 1] && s[k] == rest[k - 1] by {}
    }
}

/// Files placed later start where earlier ones have ended.
pub proof fn lemma_allocate_ordered(s: Seq<EntryView>, start: nat)
    ensures
        forall|i: int, j: int|
            0 <= i < j < s.len() && !(#[trigger] allocate(s, start)[i]).is_dir && !(
            #[trigger] allocate(s, start)[j]).is_dir ==> allocate(s, start)[i].offset + allocate(
                s,
                start,
            )[i].size <= allocate(s, start)[j].offset,
    decreases s.len(),
{
    if s.len() > 0 {
        let rest = s.drop_first();
        let next = start + file_size(s[0]);
        let a = allocate(s, start);
        let b = allocate(rest, next);
        lemma_allocate_ordered(rest, next);
        lemma_allocate_bounds(rest, next);
        lemma_allocate_bounds(s, start);
        assert forall|i: int, j: int|
            0 <= i < j < s.len() && !(#[trigger] a[i]).is_dir && !(
            #[trigger] a[j]).is_dir implies a[i].offset + a[i].size <= a[j].offset by {
            assert(a[j] == b[j - 1]);
            if i > 0 {
                assert(a[i] == b[i - 1]);
            } else {
                assert(a[i] == placed(s[0], start));
            }
        }
    }
}

/// In a packed document, the byte ranges `[offset, offset + size)` of two different file
/// entries never overlap, and each lies inside the file-data region, whose length is the total
/// size of the files.
pub proof fn lemma_offsets_disjoint(source: Document, packed: Document)
    requires
        listing(packed) == allocate(listing(source), 0),
    ensures
        forall|i: int, j: int|
            0 <= i < listing(packed).len() && 0 <= j < listing(packed).len() && i != j && !(
            #[trigger] listing(packed)[i]).is_dir && !(#[trigger] listing(packed)[j]).is_dir
                ==> listing(packed)[i].offset + listing(packed)[i].size <= listing(packed)[j].offset
                || listing(packed)[j].offset + listing(packed)[j].size <= listing(packed)[i].offset,
        forall|i: int|
            0 <= i < listing(packed).len() && !(#[trigger] listing(packed)[i]).is_dir
                ==> listing(packed)[i].offset + listing(packed)[i].size <= total_size(
                listing(source),
            ),
{
    lemma_allocate_ordered(listing(source), 0);
    lemma_allocate_bounds(listing(source), 0);
}

} // verus!
