use rasar::archive::{
    file_region, frame_metadata, plan_extract_all, plan_extract_one, read_region, write_archive,
    Region, Step,
};
use rasar::decimal::parse_offset;
use rasar::encode::decimal_string;
use rasar::header::{decode_header, encode_header, Header, MAX_METADATA_SIZE};
use rasar::pack::{walk_and_pack, Packed, MAX_FILE_SIZE};
use rasar::tree::{join_name, Child, Document, Entry, Node};
use rasar::util::{align_size, read_u32, write_u32};
use rasar::ArchiveError;

const EMPTY_DOC: &[u8] = b"{\"files\":{}}";

fn file(name: &str, size: u64) -> Child {
    Child { name: name.to_string(), node: Node::File { offset: 0, size } }
}

fn dir(name: &str, children: Vec<Child>) -> Child {
    Child { name: name.to_string(), node: Node::Directory(children) }
}

fn nested_source() -> Document {
    Document { files: vec![file("a.txt", 3), dir("sub", vec![file("b.txt", 2)])] }
}

fn paths(entries: &[Entry]) -> Vec<String> {
    entries.iter().map(|e| e.path.clone()).collect()
}

fn packed_nested() -> (Packed, Vec<u8>) {
    let packed = walk_and_pack(&nested_source()).unwrap();
    let metadata = packed.document.encode().into_bytes();
    let archive = write_archive(&metadata, &vec![b"abc".to_vec(), b"de".to_vec()]).unwrap();
    (packed, archive)
}

#[test]
fn align_size_rounds_up_to_four() {
    assert_eq!(align_size(0), 0);
    assert_eq!(align_size(1), 4);
    assert_eq!(align_size(3), 4);
    assert_eq!(align_size(4), 4);
    assert_eq!(align_size(12), 12);
    assert_eq!(align_size(13), 16);
}

#[test]
fn read_u32_is_little_endian() {
    assert_eq!(read_u32(&[0x78, 0x56, 0x34, 0x12]), 0x1234_5678);
    assert_eq!(read_u32(&[0xff, 0xff, 0xff, 0xff, 0x01]), u32::MAX);
    assert_eq!(read_u32(&[0x01, 0x02]), 0x0201);
    assert_eq!(read_u32(&[]), 0);
}

#[test]
fn write_u32_writes_four_bytes_only() {
    let mut buf = [9u8; 6];
    write_u32(&mut buf, 0x1234_5678);
    assert_eq!(buf, [0x78, 0x56, 0x34, 0x12, 9, 9]);
    let mut short = [0u8; 2];
    write_u32(&mut short, 0xaabb_ccdd);
    assert_eq!(short, [0xdd, 0xcc]);
}

#[test]
fn u32_round_trip() {
    for v in [0u32, 1, 255, 256, 65535, 0x0102_0304, u32::MAX] {
        let mut buf = [0u8; 4];
        write_u32(&mut buf, v);
        assert_eq!(read_u32(&buf), v);
    }
}

#[test]
fn header_for_empty_document() {
    let bytes = encode_header(EMPTY_DOC.len());
    assert_eq!(bytes, vec![4, 0, 0, 0, 20, 0, 0, 0, 16, 0, 0, 0, 12, 0, 0, 0]);
}

#[test]
fn header_for_unaligned_document() {
    let bytes = encode_header(13);
    assert_eq!(bytes, vec![4, 0, 0, 0, 24, 0, 0, 0, 20, 0, 0, 0, 13, 0, 0, 0]);
    let h = decode_header(&bytes).unwrap();
    assert_eq!(h.data_start(), 32);
}

#[test]
fn header_consistency_holds_for_sizes() {
    for n in [0usize, 1, 2, 3, 4, 5, 100, 1001] {
        let h = decode_header(&encode_header(n)).unwrap();
        let size = h.metadata_size as u64;
        let padded = h.metadata_size_padded as u64;
        assert_eq!(size, n as u64);
        assert!(size + 4 <= padded && padded <= size + 7);
        assert_eq!(h.header_size as u64, padded + 4);
        assert_eq!(h.data_start(), 16 + align_size(n) as u64);
    }
}

#[test]
fn header_round_trip_largest() {
    let bytes = encode_header(MAX_METADATA_SIZE);
    let h = decode_header(&bytes).unwrap();
    assert_eq!(
        h,
        Header {
            version: 4,
            header_size: 4294967292,
            metadata_size_padded: 4294967288,
            metadata_size: 4294967284,
        }
    );
}

#[test]
fn decode_header_too_short() {
    assert_eq!(decode_header(&[4, 0, 0, 0, 20, 0, 0]), Err(ArchiveError::Format));
}

#[test]
fn decode_header_inconsistent() {
    assert_eq!(
        decode_header(&[4, 0, 0, 0, 21, 0, 0, 0, 16, 0, 0, 0, 12, 0, 0, 0]),
        Err(ArchiveError::Format)
    );
    assert_eq!(
        decode_header(&[5, 0, 0, 0, 20, 0, 0, 0, 16, 0, 0, 0, 12, 0, 0, 0]),
        Err(ArchiveError::Format)
    );
    assert_eq!(
        decode_header(&[4, 0, 0, 0, 24, 0, 0, 0, 20, 0, 0, 0, 12, 0, 0, 0]),
        Err(ArchiveError::Format)
    );
}

#[test]
fn empty_directory_packs_to_empty_document() {
    let packed = walk_and_pack(&Document { files: vec![] }).unwrap();
    assert!(packed.document.files.is_empty());
    assert!(packed.files.is_empty());
    assert!(packed.document.iterate_entries().is_empty());
    let archive = write_archive(EMPTY_DOC, &vec![]).unwrap();
    assert_eq!(archive.len(), 28);
    let h = decode_header(&archive).unwrap();
    assert_eq!(&archive[16..16 + h.metadata_size as usize], EMPTY_DOC);
}

#[test]
fn nested_tree_lists_in_pre_order() {
    let packed = walk_and_pack(&nested_source()).unwrap();
    let entries = packed.document.iterate_entries();
    assert_eq!(paths(&entries), vec!["a.txt", "sub", "sub/b.txt"]);
    assert_eq!(
        entries,
        vec![
            Entry { path: "a.txt".to_string(), is_dir: false, offset: 0, size: 3 },
            Entry { path: "sub".to_string(), is_dir: true, offset: 0, size: 0 },
            Entry { path: "sub/b.txt".to_string(), is_dir: false, offset: 3, size: 2 },
        ]
    );
    assert_eq!(packed.files, vec!["a.txt".to_string(), "sub/b.txt".to_string()]);
}

#[test]
fn nested_tree_extracts_contents() {
    let (packed, archive) = packed_nested();
    let h = decode_header(&archive).unwrap();
    let steps = plan_extract_all(&h, &packed.document).unwrap();
    assert_eq!(steps.len(), 3);
    let mut written: Vec<(String, Vec<u8>)> = Vec::new();
    let mut dirs: Vec<String> = Vec::new();
    for step in steps {
        match step {
            Step::MakeDir { path } => dirs.push(path),
            Step::CopyFile { path, region } => {
                written.push((path, read_region(&archive, region).unwrap()))
            }
        }
    }
    assert_eq!(dirs, vec!["sub".to_string()]);
    assert_eq!(
        written,
        vec![
            ("a.txt".to_string(), b"abc".to_vec()),
            ("sub/b.txt".to_string(), b"de".to_vec()),
        ]
    );
}

#[test]
fn single_file_extraction() {
    let (packed, archive) = packed_nested();
    let h = decode_header(&archive).unwrap();
    let region = plan_extract_one(&h, &packed.document, "sub/b.txt").unwrap();
    assert_eq!(region.size, 2);
    assert_eq!(read_region(&archive, region).unwrap(), b"de".to_vec());
    let first = plan_extract_one(&h, &packed.document, "a.txt").unwrap();
    assert_eq!(read_region(&archive, first).unwrap(), b"abc".to_vec());
}

#[test]
fn single_file_extraction_not_found() {
    let (packed, archive) = packed_nested();
    let h = decode_header(&archive).unwrap();
    assert_eq!(
        plan_extract_one(&h, &packed.document, "missing.txt"),
        Err(ArchiveError::NotFound)
    );
    assert_eq!(plan_extract_one(&h, &packed.document, "sub"), Err(ArchiveError::NotFound));
    assert_eq!(plan_extract_one(&h, &packed.document, "b.txt"), Err(ArchiveError::NotFound));
}

#[test]
fn oversize_file_is_rejected() {
    let source = Document { files: vec![file("ok.bin", 1), dir("d", vec![file("big.bin", 4294967296)])] };
    assert!(matches!(walk_and_pack(&source), Err(ArchiveError::Oversize)));
}

#[test]
fn largest_file_is_accepted() {
    let source = Document { files: vec![file("max.bin", MAX_FILE_SIZE), file("next.bin", 7)] };
    let packed = walk_and_pack(&source).unwrap();
    let entries = packed.document.iterate_entries();
    assert_eq!(entries[0].offset, 0);
    assert_eq!(entries[1].offset, 4294967295);
}

#[test]
fn offsets_do_not_overlap() {
    let source = Document {
        files: vec![
            file("a", 10),
            dir("d", vec![file("x", 0), dir("e", vec![file("y", 5)]), file("z", 7)]),
            file("b", 1),
        ],
    };
    let packed = walk_and_pack(&source).unwrap();
    let files: Vec<Entry> =
        packed.document.iterate_entries().into_iter().filter(|e| !e.is_dir).collect();
    assert_eq!(files.iter().map(|e| e.offset).collect::<Vec<u64>>(), vec![0, 10, 10, 15, 22]);
    for i in 0..files.len() {
        for j in 0..files.len() {
            if i != j {
                let (a, b) = (&files[i], &files[j]);
                assert!(a.offset + a.size <= b.offset || b.offset + b.size <= a.offset);
            }
        }
        assert!(files[i].offset + files[i].size <= 23);
    }
}

#[test]
fn listing_twice_is_identical() {
    let packed = walk_and_pack(&nested_source()).unwrap();
    let first = packed.document.iterate_entries();
    let second = packed.document.iterate_entries();
    assert_eq!(first, second);
}

#[test]
fn round_trip_regions_hold_contents() {
    let source = Document {
        files: vec![dir("x", vec![file("one", 4), file("two", 0)]), file("three", 5)],
    };
    let packed = walk_and_pack(&source).unwrap();
    let contents = vec![b"1111".to_vec(), Vec::new(), b"33333".to_vec()];
    let metadata = b"{\"files\":{\"z\":1}}";
    let archive = write_archive(metadata, &contents).unwrap();
    assert_eq!(archive.len(), 16 + 20 + 9);
    let h = decode_header(&archive).unwrap();
    assert_eq!(h.metadata_size as usize, metadata.len());
    let steps = plan_extract_all(&h, &packed.document).unwrap();
    let mut got: Vec<Vec<u8>> = Vec::new();
    for step in steps {
        if let Step::CopyFile { region, .. } = step {
            got.push(read_region(&archive, region).unwrap());
        }
    }
    assert_eq!(got, contents);
    assert_eq!(packed.files, vec!["x/one".to_string(), "x/two".to_string(), "three".to_string()]);
}

#[test]
fn frame_metadata_pads_with_zeros() {
    let head = frame_metadata(b"abcde").unwrap();
    assert_eq!(head.len(), 24);
    assert_eq!(&head[16..21], b"abcde");
    assert_eq!(&head[21..], &[0, 0, 0]);
    assert_eq!(read_u32(&head[4..8]), 16);
}

#[test]
fn file_region_overflow_is_format_error() {
    let h = decode_header(&encode_header(12)).unwrap();
    assert_eq!(file_region(&h, 4, 6), Ok(Region { start: 32, size: 6 }));
    assert_eq!(file_region(&h, u64::MAX - 10, 1), Err(ArchiveError::Format));
}

#[test]
fn read_region_past_end_is_format_error() {
    let archive = vec![1u8, 2, 3, 4];
    assert_eq!(read_region(&archive, Region { start: 1, size: 2 }), Ok(vec![2, 3]));
    assert_eq!(read_region(&archive, Region { start: 3, size: 2 }), Err(ArchiveError::Format));
    assert_eq!(read_region(&archive, Region { start: 9, size: 0 }), Err(ArchiveError::Format));
}

#[test]
fn extract_all_rejects_overflowing_offset() {
    let doc = Document {
        files: vec![Child {
            name: "f".to_string(),
            node: Node::File { offset: u64::MAX - 3, size: 1 },
        }],
    };
    let h = decode_header(&encode_header(12)).unwrap();
    assert_eq!(plan_extract_all(&h, &doc), Err(ArchiveError::Format));
}

#[test]
fn parse_offset_values() {
    assert_eq!(parse_offset("0"), Ok(0));
    assert_eq!(parse_offset("1234"), Ok(1234));
    assert_eq!(parse_offset("+7"), Ok(7));
    assert_eq!(parse_offset("18446744073709551615"), Ok(u64::MAX));
    assert_eq!(parse_offset("18446744073709551616"), Err(ArchiveError::Format));
    assert_eq!(parse_offset(""), Err(ArchiveError::Format));
    assert_eq!(parse_offset("+"), Err(ArchiveError::Format));
    assert_eq!(parse_offset("-1"), Err(ArchiveError::Format));
    assert_eq!(parse_offset("12a"), Err(ArchiveError::Format));
}

#[test]
fn join_name_uses_slash() {
    assert_eq!(join_name(&String::new(), &"a".to_string()), "a");
    assert_eq!(join_name(&"d/e".to_string(), &"f".to_string()), "d/e/f");
}

#[test]
fn empty_document_text() {
    let packed = walk_and_pack(&Document { files: vec![] }).unwrap();
    assert_eq!(packed.document.encode(), "{\"files\":{}}");
}

#[test]
fn nested_document_text() {
    let packed = walk_and_pack(&nested_source()).unwrap();
    assert_eq!(
        packed.document.encode(),
        "{\"files\":{\"a.txt\":{\"offset\":\"0\",\"size\":3},\"sub\":{\"files\":{\"b.txt\":{\"offset\":\"3\",\"size\":2}}}}}"
    );
}

#[test]
fn names_are_escaped_in_document_text() {
    let doc = Document { files: vec![file("a\"b\\c", 1)] };
    assert_eq!(doc.encode(), "{\"files\":{\"a\\\"b\\\\c\":{\"offset\":\"0\",\"size\":1}}}");
}

#[test]
fn decimal_string_values() {
    assert_eq!(decimal_string(0), "0");
    assert_eq!(decimal_string(7), "7");
    assert_eq!(decimal_string(10), "10");
    assert_eq!(decimal_string(4294967295), "4294967295");
    assert_eq!(decimal_string(u64::MAX), "18446744073709551615");
    for n in [0u64, 9, 10, 99, 100, 123456789, u64::MAX] {
        assert_eq!(parse_offset(&decimal_string(n)), Ok(n));
    }
}

fn parts(names: &[&str]) -> Vec<String> {
    names.iter().map(|n| n.to_string()).collect()
}

#[test]
fn glob_matches_build_the_same_tree() {
    let mut doc = Document { files: vec![] };
    doc.add_match(&parts(&["a.txt"]), Node::File { offset: 0, size: 3 });
    doc.add_match(&parts(&["sub"]), Node::Directory(vec![]));
    doc.add_match(&parts(&["sub", "b.txt"]), Node::File { offset: 0, size: 2 });
    let from_glob = walk_and_pack(&doc).unwrap();
    let from_walk = walk_and_pack(&nested_source()).unwrap();
    assert_eq!(from_glob.document.iterate_entries(), from_walk.document.iterate_entries());
    assert_eq!(from_glob.files, from_walk.files);
}

#[test]
fn glob_match_makes_missing_directories() {
    let mut doc = Document { files: vec![] };
    doc.add_match(&parts(&["x", "y", "z.txt"]), Node::File { offset: 0, size: 4 });
    doc.add_match(&parts(&["x", "w.txt"]), Node::File { offset: 0, size: 1 });
    let entries = doc.iterate_entries();
    assert_eq!(paths(&entries), vec!["x", "x/y", "x/y/z.txt", "x/w.txt"]);
}

#[test]
fn glob_match_reuses_and_replaces() {
    let mut doc = Document { files: vec![] };
    doc.add_match(&parts(&["d"]), Node::Directory(vec![]));
    doc.add_match(&parts(&["d", "f"]), Node::File { offset: 0, size: 1 });
    doc.add_match(&parts(&["d"]), Node::Directory(vec![]));
    doc.add_match(&parts(&["d", "f"]), Node::File { offset: 0, size: 9 });
    doc.add_match(&parts(&[]), Node::File { offset: 0, size: 5 });
    let entries = doc.iterate_entries();
    assert_eq!(paths(&entries), vec!["d", "d/f"]);
    assert_eq!(entries[1].size, 9);
    doc.add_match(&parts(&["d", "f", "g"]), Node::File { offset: 0, size: 2 });
    let entries = doc.iterate_entries();
    assert_eq!(paths(&entries), vec!["d", "d/f", "d/f/g"]);
    assert!(entries[1].is_dir);
}
