//! The archive as bytes: header, metadata document, padding, then the files' bytes; and the
//! steps that unpack it.
use vstd::prelude::*;

use crate::header::{
    encode_header, fields_of, header_bytes, header_for, lemma_header_round_trip, Header,
    HEADER_LEN, MAX_METADATA_SIZE,
};
use crate::pack::{
    allocate, file_entries, file_paths, file_size, lemma_file_entries_allocate,
    lemma_file_paths_entries, total_size,
};
use crate::tree::{listing, views, Document, EntryView};
use crate::util::{align_size, aligned};
use crate::ArchiveError;

verus! {

broadcast use {vstd::std_specs::vec::group_vec_axioms, vstd::seq::group_seq_axioms};

/// `n` zero bytes.
pub open spec fn zeros(n: nat) -> Seq<u8> {
    Seq::new(n, |i: int| 0u8)
}

/// The byte sequences of `s` one after the other.
pub open spec fn concat_all(s: Seq<Seq<u8>>) -> Seq<u8>
    decreases s.len(),
{
    if s.len() == 0 {
        seq![]
    } else {
        s[0] + concat_all(s.drop_first())
    }
}

/// The views of a sequence of byte vectors.
pub open spec fn byte_views(v: Seq<Vec<u8>>) -> Seq<Seq<u8>> {
    v.map_values(|b: Vec<u8>| b@)
}

/// Header, metadata document and padding: everything in front of the file data.
pub open spec fn archive_head(metadata: Seq<u8>) -> Seq<u8> {
    header_bytes(header_for(metadata.len() as int)) + metadata + zeros(
        (aligned(metadata.len() as int) - metadata.len()) as nat,
    )
}

/// A whole archive: its head, then the contents of the files in order, with nothing between.
pub open spec fn archive_bytes(metadata: Seq<u8>, contents: Seq<Seq<u8>>) -> Seq<u8> {
    archive_head(metadata) + concat_all(contents)
}

/// Appending one more byte sequence appends its bytes to the concatenation.
pub proof fn lemma_concat_all_push(s: Seq<Seq<u8>>, b: Seq<u8>)
    ensures
        concat_all(s.push(b)) == concat_all(s) + b,
    decreases s.len(),
{
    if s.len() == 0 {
        assert(s.push(b).drop_first() =~= Seq::<Seq<u8>>::empty());
        assert(s.push(b)[0] == b);
        assert(concat_all(Seq::<Seq<u8>>::empty()) == Seq::<u8>::empty());
        assert(concat_all(s.push(b)) =~= concat_all(s) + b);
    } else {
        assert(s.push(b).drop_first() =~= s.drop_first().push(b));
        lemma_concat_all_push(s.drop_first(), b);
        assert(concat_all(s.push(b)) =~= concat_all(s) + b);
    }
}

fn append_bytes(out: &mut Vec<u8>, bytes: &[u8])
    ensures
        final(out)@ == old(out)@ + bytes@,
{
    let mut i: usize = 0;
    while i < bytes.len()
        invariant
            0 <= i <= bytes@.len(),
            out@ == old(out)@ + bytes@.subrange(0, i as int),
        decreases bytes.len() - i,
    {
        out.push(bytes[i]);
        i = i + 1;
        assert(out@ =~= old(out)@ + bytes@.subrange(0, i as int));
    }
    assert(bytes@.subrange(0, i as int) =~= bytes@);
}

/// Everything that precedes the file data in an archive whose metadata document is
/// `metadata`. Fails with `Oversize` exactly when the document is too long for the header's
/// fields.
pub fn frame_metadata(metadata: &[u8]) -> (r: Result<Vec<u8>, ArchiveError>)
    ensures
        r is Ok <==> metadata@.len() <= MAX_METADATA_SIZE,
        r is Ok ==> r->Ok_0@ == archive_head(metadata@),
        r is Err ==> r->Err_0 == ArchiveError::Oversize,
{
    if metadata.len() > MAX_METADATA_SIZE {
        return Err(ArchiveError::Oversize);
    }
    let mut out = encode_header(metadata.len());
    append_bytes(&mut out, metadata);
    let padded = align_size(metadata.len());
    let mut k: usize = metadata.len();
    let ghost before = out@;
    while k < padded
        invariant
            metadata.len() <= k <= padded,
            padded == aligned(metadata@.len() as int),
            out@ == before + zeros((k - metadata.len()) as nat),
        decreases padded - k,
    {
        out.push(0u8);
        k = k + 1;
        assert(out@ =~= before + zeros((k - metadata.len()) as nat));
    }
    Ok(out)
}

/// The whole archive: the head framed around `metadata`, then each of `contents` in order.
/// Fails with `Oversize` exactly when the document is too long for the header's fields.
pub fn write_archive(metadata: &[u8], contents: &Vec<Vec<u8>>) -> (r: Result<
    Vec<u8>,
    ArchiveError,
>)
    ensures
        r is Ok <==> metadata@.len() <= MAX_METADATA_SIZE,
        r is Ok ==> r->Ok_0@ == archive_bytes(metadata@, byte_views(contents@)),
        r is Err ==> r->Err_0 == ArchiveError::Oversize,
{
    let mut out = match frame_metadata(metadata) {
        Ok(head) => head,
        Err(e) => {
            return Err(e);
        },
    };
    let ghost head = out@;
    let mut i: usize = 0;
    assert(byte_views(contents@).take(0) =~= Seq::<Seq<u8>>::empty());
    while i < contents.len()
        invariant
            0 <= i <= contents@.len(),
            out@ == head + concat_all(byte_views(contents@).take(i as int)),
        decreases contents.len() - i,
    {
        proof {
            lemma_concat_all_push(byte_views(contents@).take(i as int), contents@[i as int]@);
            assert(byte_views(contents@).take(i as int).push(contents@[i as int]@)
                =~= byte_views(contents@).take(i + 1));
        }
        append_bytes(&mut out, contents[i].as_slice());
        i = i + 1;
    }
    assert(byte_views(contents@).take(i as int) =~= byte_views(contents@));
    Ok(out)
}

/// Where in the archive a file's bytes are: `start` is absolute.
#[derive(Debug, Clone, Copy, PartialEq, Eq, Structural)]
pub struct Region {
    pub start: u64,
    pub size: u64,
}

/// The region of a file entry, when its end fits in 64 bits.
pub open spec fn region_fits(header: Header, e: EntryView) -> bool {
    header.data_start_spec() + e.offset + e.size <= u64::MAX
}

/// Where the bytes of a file placed at `offset` with `size` bytes stand in the archive. Fails
/// with `Format` exactly when the region's end does not fit in 64 bits.
pub fn file_region(header: &Header, offset: u64, size: u64) -> (r: Result<Region, ArchiveError>)
    ensures
        r is Ok <==> header.data_start_spec() + offset + size <= u64::MAX,
        r is Ok ==> r->Ok_0 == (Region {
            start: (header.data_start_spec() + offset) as u64,
            size,
        }),
        r is Err ==> r->Err_0 == ArchiveError::Format,
{
    let base = header.data_start();
    match base.checked_add(offset) {
        None => Err(ArchiveError::Format),
        Some(start) => match start.checked_add(size) {
            None => Err(ArchiveError::Format),
            Some(_) => Ok(Region { start, size }),
        },
    }
}

/// The bytes of `region` in an archive held in memory. Fails with `Format` exactly when the
/// archive ends before the region does.
pub fn read_region(archive: &[u8], region: Region) -> (r: Result<Vec<u8>, ArchiveError>)
    ensures
        r is Ok <==> region.start + region.size <= archive@.len(),
        r is Ok ==> r->Ok_0@ == archive@.subrange(
            region.start as int,
            region.start + region.size,
        ),
        r is Err ==> r->Err_0 == ArchiveError::Format,
{
    let len = archive.len() as u64;
    if region.start > len || region.size > len - region.start {
        return Err(ArchiveError::Format);
    }
    let start = region.start as usize;
    let end = start + region.size as usize;
    let mut out: Vec<u8> = Vec::new();
    let mut i: usize = start;
    while i < end
        invariant
            start <= i <= end,
            end <= archive@.len(),
            start == region.start,
            end == region.start + region.size,
            out@ == archive@.subrange(start as int, i as int),
        decreases end - i,
    {
        out.push(archive[i]);
        i = i + 1;
        assert(out@ =~= archive@.subrange(start as int, i as int));
    }
    Ok(out)
}

/// One step of unpacking a whole archive.
#[derive(Debug, Clone, PartialEq, Eq)]
pub enum Step {
    /// Create this directory, unless it exists.
    MakeDir { path: String },
    /// Write the bytes of `region` to this path.
    CopyFile { path: String, region: Region },
}

/// `step` unpacks the listed entry `e` of an archive with `header`.
pub open spec fn step_for(step: Step, e: EntryView, header: Header) -> bool {
    match step {
        Step::MakeDir { path } => e.is_dir && path@ == e.path,
        Step::CopyFile { path, region } => {
            &&& !e.is_dir
            &&& path@ == e.path
            &&& region.start == header.data_start_spec() + e.offset
            &&& region.size == e.size
        },
    }
}

/// The steps that unpack every entry of `doc`, one per entry and in the order of the listing,
/// so that each directory is made before anything inside it. Fails with `Format` exactly when
/// some file's region does not fit in 64 bits.
pub fn plan_extract_all(header: &Header, doc: &Document) -> (r: Result<Vec<Step>, ArchiveError>)
    ensures
        r is Ok <==> forall|k: int|
            0 <= k < listing(*doc).len() && !(#[trigger] listing(*doc)[k]).is_dir ==> region_fits(
                *header,
                listing(*doc)[k],
            ),
        r is Ok ==> r->Ok_0@.len() == listing(*doc).len() && forall|k: int|
            0 <= k < listing(*doc).len() ==> step_for(
                #[trigger] r->Ok_0@[k],
                listing(*doc)[k],
                *header,
            ),
        r is Err ==> r->Err_0 == ArchiveError::Format,
{
    let entries = doc.iterate_entries();
    let ghost l = listing(*doc);
    assert(views(entries@).len() == entries@.len());
    let mut steps: Vec<Step> = Vec::new();
    let mut i: usize = 0;
    while i < entries.len()
        invariant
            0 <= i <= entries@.len(),
            views(entries@) == l,
            l == listing(*doc),
            steps@.len() == i,
            forall|k: int| 0 <= k < i ==> step_for(#[trigger] steps@[k], l[k], *header),
            forall|k: int| 0 <= k < i && !(#[trigger] l[k]).is_dir ==> region_fits(*header, l[k]),
        decreases entries.len() - i,
    {
        let e = &entries[i];
        assert(l[i as int] == e@);
        if e.is_dir {
            steps.push(Step::MakeDir { path: e.path.clone() });
        } else {
            match file_region(header, e.offset, e.size) {
                Ok(region) => {
                    steps.push(Step::CopyFile { path: e.path.clone(), region });
                },
                Err(err) => {
                    return Err(err);
                },
            }
        }
        i = i + 1;
    }
    Ok(steps)
}

/// `k` is the first file entry of `l` whose path is `target`.
pub open spec fn first_file_at(l: Seq<EntryView>, target: Seq<char>, k: int) -> bool {
    &&& 0 <= k < l.len()
    &&& !l[k].is_dir
    &&& l[k].path == target
    &&& forall|j: int| 0 <= j < k ==> !(!(#[trigger] l[j]).is_dir && l[j].path == target)
}

/// Some file entry of `l` has path `target`.
pub open spec fn has_file_at(l: Seq<EntryView>, target: Seq<char>) -> bool {
    exists|k: int| 0 <= k < l.len() && !(#[trigger] l[k]).is_dir && l[k].path == target
}

/// The region of the file entry of `doc` at path `target` (the first, should there be more).
/// Fails with `NotFound` exactly when no file entry has that path, and with `Format` when its
/// region does not fit in 64 bits.
pub fn plan_extract_one(header: &Header, doc: &Document, target: &str) -> (r: Result<
    Region,
    ArchiveError,
>)
    ensures
        r matches Err(ArchiveError::NotFound) <==> !has_file_at(listing(*doc), target@),
        r is Ok ==> exists|k: int|
            first_file_at(listing(*doc), target@, k) && r->Ok_0 == (Region {
                start: (header.data_start_spec() + listing(*doc)[k].offset) as u64,
                size: listing(*doc)[k].size as u64,
            }),
        r matches Err(ArchiveError::Format) ==> exists|k: int|
            first_file_at(listing(*doc), target@, k) && !region_fits(*header, listing(*doc)[k]),
        r is Err ==> r->Err_0 == ArchiveError::NotFound || r->Err_0 == ArchiveError::Format,
{
    let entries = doc.iterate_entries();
    let ghost l = listing(*doc);
    let wanted = target.to_owned();
    let mut i: usize = 0;
    while i < entries.len()
        invariant
            0 <= i <= entries@.len(),
            views(entries@) == l,
            l == listing(*doc),
            wanted@ == target@,
            forall|j: int| 0 <= j < i ==> !(!(#[trigger] l[j]).is_dir && l[j].path == target@),
        decreases entries.len() - i,
    {
        let e = &entries[i];
        assert(l[i as int] == e@);
        if !e.is_dir && e.path == wanted {
            assert(first_file_at(l, target@, i as int));
            return file_region(header, e.offset, e.size);
        }
        i = i + 1;
    }
    assert(!has_file_at(l, target@));
    Err(ArchiveError::NotFound)
}

proof fn lemma_regions(f: Seq<EntryView>, c: Seq<Seq<u8>>, start: nat)
    requires
        f.len() == c.len(),
        forall|q: int| 0 <= q < f.len() ==> !(#[trigger] f[q]).is_dir && f[q].size == c[q].len(),
    ensures
        concat_all(c).len() == total_size(f),
        forall|q: int|
            0 <= q < f.len() ==> {
                let e = #[trigger] allocate(f, start)[q];
                &&& start <= e.offset
                &&& e.offset - start + e.size <= concat_all(c).len()
                &&& e.size == c[q].len()
                &&& concat_all(c).subrange(e.offset - start, e.offset - start + e.size) == c[q]
            },
    decreases f.len(),
{
    if f.len() > 0 {
        let rest = f.drop_first();
        let next = start + file_size(f[0]);
        assert forall|q: int| 0 <= q < rest.len() implies !(#[trigger] rest[q]).is_dir
            && rest[q].size == c.drop_first()[q].len() by {
            assert(rest[q] == f[q + 1]);
        }
        lemma_regions(rest, c.drop_first(), next);
        lemma_allocate_len(rest, next);
        lemma_allocate_len(f, start);
        let a = allocate(f, start);
        let whole = concat_all(c);
        assert(whole == c[0] + concat_all(c.drop_first()));
        assert forall|q: int| 0 <= q < f.len() implies {
            let e = #[trigger] a[q];
            &&& start <= e.offset
            &&& e.offset - start + e.size <= whole.len()
            &&& e.size == c[q].len()
            &&& whole.subrange(e.offset - start, e.offset - start + e.size) == c[q]
        } by {
            if q == 0 {
                assert(a[0] == placed_file(f[0], start));
                assert(whole.subrange(0, c[0].len() as int) =~= c[0]);
            } else {
                let e = a[q];
                assert(e == allocate(rest, next)[q - 1]);
                assert(c.drop_first()[q - 1] == c[q]);
                let lo = e.offset - next;
                assert(whole.subrange(e.offset - start, e.offset - start + e.size)
                    =~= concat_all(c.drop_first()).subrange(lo, lo + e.size));
            }
        }
    }
}

spec fn placed_file(e: EntryView, at: nat) -> EntryView {
    EntryView { path: e.path, is_dir: false, offset: at, size: e.size }
}

/// Packing and reading back agree: in the archive written from a packed document's metadata
/// and the contents of its files, the header decodes to the one written for that metadata, the
/// metadata follows it unchanged, and the bytes at the data start plus each file's offset,
/// for its size, are exactly the contents of the file at that path.
pub proof fn lemma_round_trip(
    source: Document,
    packed: Document,
    metadata: Seq<u8>,
    contents: Seq<Seq<u8>>,
)
    requires
        listing(packed) == allocate(listing(source), 0),
        metadata.len() <= MAX_METADATA_SIZE,
        contents.len() == file_entries(listing(source)).len(),
        forall|q: int|
            0 <= q < contents.len() ==> (#[trigger] contents[q]).len() == file_entries(
                listing(source),
            )[q].size,
    ensures
        fields_of(archive_bytes(metadata, contents)) == header_for(metadata.len() as int),
        archive_bytes(metadata, contents).subrange(
            HEADER_LEN as int,
            HEADER_LEN + metadata.len(),
        ) == metadata,
        file_entries(listing(packed)).len() == contents.len(),
        forall|q: int|
            0 <= q < contents.len() ==> {
                let e = #[trigger] file_entries(listing(packed))[q];
                let start = header_for(metadata.len() as int).data_start_spec() + e.offset;
                &&& e.path == file_paths(listing(source))[q]
                &&& archive_bytes(metadata, contents).subrange(start, start + e.size)
                    == contents[q]
            },
{
    let n = metadata.len() as int;
    let src = listing(source);
    let f = file_entries(src);
    let head = archive_head(metadata);
    let bytes = archive_bytes(metadata, contents);
    lemma_archive_prefix(metadata, contents);
    lemma_file_entries_allocate(src, 0);
    lemma_file_paths_entries(src);
    lemma_allocate_len(f, 0);
    assert forall|q: int| 0 <= q < f.len() implies !(#[trigger] f[q]).is_dir && f[q].size
        == contents[q].len() by {
        assert(file_paths(src)[q] == f[q].path);
    }
    lemma_regions(f, contents, 0);
    assert(head.len() == header_for(n).data_start_spec());
    assert forall|q: int| 0 <= q < contents.len() implies {
        let e = #[trigger] file_entries(listing(packed))[q];
        let start = header_for(n).data_start_spec() + e.offset;
        &&& e.path == file_paths(src)[q]
        &&& bytes.subrange(start, start + e.size) == contents[q]
    } by {
        let e = file_entries(listing(packed))[q];
        assert(e == allocate(f, 0)[q]);
        assert(file_paths(src)[q] == f[q].path);
        let start = header_for(n).data_start_spec() + e.offset;
        assert(bytes.subrange(start, start + e.size) =~= concat_all(contents).subrange(
            e.offset as int,
            (e.offset + e.size) as int,
        ));
    }
}

proof fn lemma_archive_prefix(metadata: Seq<u8>, contents: Seq<Seq<u8>>)
    requires
        metadata.len() <= MAX_METADATA_SIZE,
    ensures
        fields_of(archive_bytes(metadata, contents)) == header_for(metadata.len() as int),
        archive_bytes(metadata, contents).subrange(
            HEADER_LEN as int,
            HEADER_LEN + metadata.len(),
        ) == metadata,
        archive_head(metadata).len() == header_for(metadata.len() as int).data_start_spec(),
{
    let n = metadata.len() as int;
    let head = archive_head(metadata);
    let bytes = archive_bytes(metadata, contents);
    let hb = header_bytes(header_for(n));
    let rest = metadata + zeros((aligned(n) - n) as nat) + concat_all(contents);
    lemma_header_round_trip(n);
    assert(hb.len() == 16);
    assert(bytes =~= hb + rest);
    assert(bytes.subrange(0, 16) =~= hb.subrange(0, 16));
    lemma_fields_prefix(bytes, hb);
    assert(bytes.subrange(HEADER_LEN as int, HEADER_LEN + n) =~= metadata);
}

proof fn lemma_fields_prefix(a: Seq<u8>, b: Seq<u8>)
    requires
        a.len() >= 16,
        b.len() >= 16,
        a.subrange(0, 16) == b.subrange(0, 16),
    ensures
        fields_of(a) == fields_of(b),
{
    assert(a.subrange(0, 4) =~= a.subrange(0, 16).subrange(0, 4));
    assert(b.subrange(0, 4) =~= b.subrange(0, 16).subrange(0, 4));
    assert(a.subrange(4, 8) =~= a.subrange(0, 16).subrange(4, 8));
    assert(b.subrange(4, 8) =~= b.subrange(0, 16).subrange(4, 8));
    assert(a.subrange(8, 12) =~= a.subrange(0, 16).subrange(8, 12));
    assert(b.subrange(8, 12) =~= b.subrange(0, 16).subrange(8, 12));
    assert(a.subrange(12, 16) =~= a.subrange(0, 16).subrange(12, 16));
    assert(b.subrange(12, 16) =~= b.subrange(0, 16).subrange(12, 16));
}

proof fn lemma_allocate_len(s: Seq<EntryView>, start: nat)
    ensures
        allocate(s, start).len() == s.len(),
        forall|q: int|
            0 <= q < s.len() ==> (#[trigger] allocate(s, start)[q]).path == s[q].path
                && allocate(s, start)[q].size == s[q].size,
    decreases s.len(),
{
    if s.len() > 0 {
        lemma_allocate_len(s.drop_first(), start + file_size(s[0]));
        assert forall|q: int| 0 < q < s.len() implies #[trigger] allocate(s, start)[q] == allocate(
            s.drop_first(),
            start + file_size(s[0]),
        )[q - 1] by {}
    }
}

} // verus!
