use near_git_storage::delta::{apply_delta, is_delta_whole};
use near_git_storage::diff::compute_delta;
use near_git_storage::object::{
    are_known, is_known_type, type_from_bits, type_to_bits, PackObject, ParseResult,
    UnresolvedDelta,
};
use near_git_storage::packfile::{
    make_entry, parse, parse_checked, read_head_at, resolve_entries, Head, ParsedEntry,
};
use near_git_storage::packing::{
    build, build_with_bases, encode_entry, is_storable, plan_pack, Form,
};
use near_git_storage::plain_pack;
use near_git_storage::varint::{encode_ofs_offset, encode_pack_header, encode_size};
use near_git_storage::zlib::{zlib_compress, zlib_decompress, zlib_decompress_checked};
use sha1::{Digest, Sha1};

fn blob(data: &[u8]) -> PackObject {
    PackObject { obj_type: "blob".to_string(), data: data.to_vec() }
}

fn object(obj_type: &str, data: &[u8]) -> PackObject {
    PackObject { obj_type: obj_type.to_string(), data: data.to_vec() }
}

fn pack_start(count: u32) -> Vec<u8> {
    let mut pack = b"PACK".to_vec();
    pack.extend_from_slice(&2u32.to_be_bytes());
    pack.extend_from_slice(&count.to_be_bytes());
    pack
}

fn push_checksum(pack: &mut Vec<u8>) {
    let checksum = Sha1::digest(pack.as_slice());
    pack.extend_from_slice(&checksum);
}

fn noise(len: usize) -> Vec<u8> {
    let mut x: u32 = 1;
    let mut bytes = Vec::new();
    for _ in 0..len {
        x = x.wrapping_mul(1_664_525).wrapping_add(1_013_904_223);
        bytes.push((x >> 24) as u8);
    }
    bytes
}

fn refusal(pack: &[u8]) -> String {
    match parse_checked(pack) {
        Some(Err(e)) => e,
        _ => panic!("the pack is not refused"),
    }
}

fn plain_refusal(pack: &[u8]) -> String {
    match plain_pack::parse_checked(pack) {
        Some(Err(e)) => e,
        _ => panic!("the pack is not refused"),
    }
}

fn contents(result: &ParseResult) -> Vec<Vec<u8>> {
    result.objects.iter().map(|o| o.data.clone()).collect()
}

#[test]
fn packfile_test_roundtrip() {
    let objects = vec![blob(b"hello world\n"), blob(b"another file\n")];

    let packed = build(&objects);
    let result = parse(&packed).unwrap();
    assert_eq!(result.objects.len(), 2);
    assert!(result.deltas.is_empty());
    let mut datas: Vec<&[u8]> = result.objects.iter().map(|o| o.data.as_slice()).collect();
    datas.sort();
    assert!(datas.contains(&b"hello world\n".as_slice()));
    assert!(datas.contains(&b"another file\n".as_slice()));

    let packed = plain_pack::build(&objects);
    let result = plain_pack::parse(&packed).unwrap();
    assert_eq!(result.objects.len(), 2);
    assert!(result.deltas.is_empty());
    assert_eq!(result.objects[0].obj_type, "blob");
    assert_eq!(result.objects[0].data, b"hello world\n");
    assert_eq!(result.objects[1].obj_type, "blob");
    assert_eq!(result.objects[1].data, b"another file\n");
}

#[test]
fn packfile_test_sha1() {
    let obj = blob(b"hello world");
    assert_eq!(obj.sha1(), "95d09f2b10159347eece71399a7e2e907ea3df4f");
}

#[test]
fn packfile_test_apply_delta() {
    let source = b"hello";
    let delta = vec![
        5,
        11,
        0x91, 0x00,
        0x05,
        6, b' ', b'w', b'o', b'r', b'l', b'd',
    ];
    let result = apply_delta(source, &delta).unwrap();
    assert_eq!(result, b"hello world");
}

#[test]
fn test_ofs_delta() {
    let base_data = b"hello world\n";
    let target_data = b"hello world! updated\n";
    let delta_bytes = compute_delta(base_data, target_data);

    let mut pack = pack_start(2);
    let obj1_start = pack.len();
    encode_pack_header(&mut pack, 3, base_data.len() as u64);
    pack.extend_from_slice(&zlib_compress(base_data));
    let obj2_start = pack.len();
    encode_pack_header(&mut pack, 6, delta_bytes.len() as u64);
    encode_ofs_offset(&mut pack, (obj2_start - obj1_start) as u64);
    pack.extend_from_slice(&zlib_compress(&delta_bytes));
    push_checksum(&mut pack);

    let result = parse(&pack).unwrap();
    assert_eq!(result.objects.len(), 2, "should have 2 resolved objects");
    assert!(result.deltas.is_empty(), "should have no unresolved deltas");
    assert_eq!(result.objects[0].data, base_data);
    assert_eq!(result.objects[1].data, target_data);
    assert_eq!(result.objects[1].obj_type, "blob");
}

#[test]
fn test_build_delta_compression() {
    let base = b"line 1: hello world content here\nline 2: more content\nline 3: even more\n";
    let target = b"line 1: hello world content HERE\nline 2: more content\nline 3: even more\n";
    let objects = vec![blob(base), blob(target)];
    let packed_with_delta = build(&objects);

    let mut packed_no_delta = pack_start(2);
    for obj in &objects {
        encode_pack_header(&mut packed_no_delta, type_to_bits(&obj.obj_type), obj.data.len() as u64);
        packed_no_delta.extend_from_slice(&zlib_compress(&obj.data));
    }
    push_checksum(&mut packed_no_delta);

    println!(
        "Pack with delta: {} bytes, without: {} bytes",
        packed_with_delta.len(),
        packed_no_delta.len()
    );
    assert!(
        packed_with_delta.len() < packed_no_delta.len(),
        "Delta pack ({}) should be smaller than full pack ({})",
        packed_with_delta.len(),
        packed_no_delta.len()
    );

    let result = parse(&packed_with_delta).unwrap();
    assert_eq!(result.objects.len(), 2);
    assert!(result.deltas.is_empty());
    let datas = contents(&result);
    assert!(datas.contains(&base.to_vec()));
    assert!(datas.contains(&target.to_vec()));

    assert_eq!(plain_pack::build(&objects), packed_no_delta);
}

#[test]
fn test_build_with_bases_cross_pack_delta() {
    let base_data: Vec<u8> = (0..200)
        .map(|i| format!("line {}: hello world content\n", i))
        .collect::<String>()
        .into_bytes();
    let mut new_data = base_data.clone();
    new_data[500] = b'X';

    let base_obj = blob(&base_data);
    let new_obj = blob(&new_data);
    let pack_full = build(&[new_obj.clone()]);
    let pack_delta = build_with_bases(&[new_obj.clone()], &[base_obj.clone()]);

    println!(
        "Cross-pack delta: full={} bytes, with_bases={} bytes",
        pack_full.len(),
        pack_delta.len()
    );
    assert!(
        pack_delta.len() < pack_full.len(),
        "Thin pack ({}) should be smaller than full pack ({})",
        pack_delta.len(),
        pack_full.len()
    );

    let result = parse(&pack_delta).unwrap();
    assert_eq!(result.deltas.len(), 1, "Should have 1 REF_DELTA");
    assert_eq!(result.deltas[0].base_sha, base_obj.sha1());

    let resolved = apply_delta(&base_data, &result.deltas[0].delta_data).unwrap();
    assert_eq!(resolved, new_data);
}

#[test]
fn names_depend_on_type_and_content() {
    assert_eq!(blob(b"").sha1(), "e69de29bb2d1d6434b8b29ae775ad8c2e48c5391");
    assert_eq!(object("tree", b"").sha1(), "4b825dc642cb6eb9a060e54bf8d69288fbee4904");
}

#[test]
fn types_and_their_bits() {
    assert_eq!(type_from_bits(1), Some("commit"));
    assert_eq!(type_from_bits(2), Some("tree"));
    assert_eq!(type_from_bits(3), Some("blob"));
    assert_eq!(type_from_bits(4), Some("tag"));
    assert_eq!(type_from_bits(0), None);
    assert_eq!(type_from_bits(7), None);
    assert_eq!(type_to_bits("commit"), 1);
    assert_eq!(type_to_bits("tree"), 2);
    assert_eq!(type_to_bits("blob"), 3);
    assert_eq!(type_to_bits("tag"), 4);
    assert!(is_known_type("tag"));
    assert!(!is_known_type("note"));
    assert!(are_known(&[blob(b"a"), object("tree", b"")]));
    assert!(!are_known(&[blob(b"a"), object("note", b"")]));
}

#[test]
fn headers_and_distances() {
    let mut out = Vec::new();
    encode_pack_header(&mut out, 3, 12);
    assert_eq!(out, [0x3c]);
    out.clear();
    encode_pack_header(&mut out, 3, 16);
    assert_eq!(out, [0xb0, 0x01]);
    out.clear();
    encode_pack_header(&mut out, 7, 5000);
    assert_eq!(out, [0xf8, 0xb8, 0x02]);
    out.clear();
    encode_ofs_offset(&mut out, 127);
    assert_eq!(out, [0x7f]);
    out.clear();
    encode_ofs_offset(&mut out, 128);
    assert_eq!(out, [0x80, 0x00]);
    out.clear();
    encode_ofs_offset(&mut out, 16512);
    assert_eq!(out, [0x80, 0x80, 0x00]);
    out.clear();
    encode_size(&mut out, 300);
    assert_eq!(out, [0xac, 0x02]);
}

#[test]
fn zlib_gives_back_what_it_took() {
    let data = b"the same words, the same words, the same words".to_vec();
    let packed = zlib_compress(&data);
    assert!(packed.len() < data.len());
    assert_eq!(zlib_decompress(&packed), data);
    assert_eq!(zlib_decompress_checked(&packed), Some(data.clone()));
    let mut followed = packed.clone();
    followed.extend_from_slice(b"trailing");
    assert_eq!(zlib_decompress(&followed), data);
    assert_eq!(zlib_decompress_checked(b"no stream"), None);
    assert_eq!(zlib_decompress_checked(&packed[..packed.len() - 1]), None);
}

#[test]
fn headers_that_are_refused() {
    assert_eq!(refusal(b"PACK"), "packfile too short");
    assert_eq!(refusal(b"JACK\0\0\0\x02\0\0\0\0"), "invalid packfile magic");
    assert_eq!(refusal(b"PACK\0\0\0\x04\0\0\0\0"), "unsupported packfile version: 4");
    assert_eq!(plain_refusal(b"PACK\0\0\0\x01\0\0\0\0"), "unsupported packfile version: 1");
    assert_eq!(parse(b"PACK\0\0\0\x03\0\0\0\0").unwrap().objects.len(), 0);
    assert_eq!(plain_pack::parse(b"PACK\0\0\0\x02\0\0\0\0").unwrap().objects.len(), 0);
}

#[test]
fn entries_that_are_refused() {
    let start = pack_start(1);
    assert_eq!(refusal(&start), "unexpected end of packfile");
    let mut pack = start.clone();
    pack.push(0xb0);
    assert_eq!(refusal(&pack), "unexpected end of packfile in size");
    let mut pack = start.clone();
    pack.push(0x70);
    pack.extend_from_slice(&[1; 19]);
    assert_eq!(refusal(&pack), "unexpected end of packfile in ref_delta base SHA");
    let mut pack = start.clone();
    pack.push(0x50);
    assert_eq!(refusal(&pack), "unknown object type: 5");
    let mut pack = start.clone();
    pack.push(0x30);
    pack.extend_from_slice(b"not zlib");
    assert_eq!(refusal(&pack), "zlib decompression failed: corrupt deflate stream");
    let mut pack = start.clone();
    pack.push(0x70);
    pack.extend_from_slice(&[1; 20]);
    pack.extend_from_slice(b"not zlib");
    assert_eq!(refusal(&pack), "zlib decompression failed for delta: corrupt deflate stream");
    let mut pack = start.clone();
    pack.push(0x60);
    pack.push(1);
    pack.extend_from_slice(b"not zlib");
    assert_eq!(refusal(&pack), "zlib decompression failed for ofs_delta: corrupt deflate stream");
    let mut pack = start.clone();
    pack.push(0x60);
    pack.push(13);
    assert_eq!(refusal(&pack), "ofs_delta offset 13 exceeds object position 12");
    let mut pack = start.clone();
    pack.push(0x60);
    pack.push(1);
    pack.extend_from_slice(&zlib_compress(&[0, 0]));
    assert_eq!(refusal(&pack), "ofs_delta base at offset 11 not found");
    assert_eq!(plain_refusal(&pack), "ofs_delta objects not yet supported (offset=1)");
}

#[test]
fn packs_that_break_off_or_refer_to_themselves() {
    let mut pack = pack_start(1);
    pack.push(0x60);
    assert!(parse_checked(&pack).is_none());
    assert!(plain_pack::parse_checked(&pack).is_none());
    pack.push(0x80);
    assert!(parse_checked(&pack).is_none());
    let mut pack = pack_start(1);
    pack.push(0x60);
    pack.push(0);
    pack.extend_from_slice(&zlib_compress(&[0, 0]));
    assert!(parse_checked(&pack).is_none());
}

#[test]
fn a_delta_on_a_delta_elsewhere_is_refused() {
    let mut pack = pack_start(2);
    let first = pack.len();
    pack.push(0x70);
    pack.extend_from_slice(&[0xab; 20]);
    pack.extend_from_slice(&zlib_compress(&[0, 0]));
    let second = pack.len();
    pack.push(0x60);
    encode_ofs_offset(&mut pack, (second - first) as u64);
    pack.extend_from_slice(&zlib_compress(&[0, 0]));
    assert_eq!(refusal(&pack), "cannot resolve ref_delta as ofs_delta base");

    let pack = [pack_start(1), pack[12..second].to_vec()].concat();
    let result = parse(&pack).unwrap();
    assert_eq!(result.objects.len(), 0);
    assert_eq!(result.deltas[0].base_sha, "abababababababababababababababababababab");
    assert_eq!(result.deltas[0].delta_data, [0, 0]);
    let plain = plain_pack::parse(&pack).unwrap();
    assert_eq!(plain.deltas[0].base_sha, result.deltas[0].base_sha);
}

#[test]
fn packs_are_ordered_by_type_and_size() {
    let objects = vec![
        object("tree", b"t"),
        blob(b"small"),
        object("commit", b"c"),
        blob(b"a larger blob"),
        blob(b"sameA"),
    ];
    let result = parse(&build(&objects)).unwrap();
    let seen: Vec<(&str, &[u8])> =
        result.objects.iter().map(|o| (o.obj_type.as_str(), o.data.as_slice())).collect();
    assert_eq!(
        seen,
        [
            ("blob", b"a larger blob".as_slice()),
            ("blob", b"small".as_slice()),
            ("blob", b"sameA".as_slice()),
            ("commit", b"c".as_slice()),
            ("tree", b"t".as_slice()),
        ]
    );
}

#[test]
fn thin_packs_keep_what_has_no_base() {
    let base: Vec<u8> = (0..1000u32).map(|i| (i * i % 251) as u8).collect();
    let mut edited = base.clone();
    edited[700] ^= 0xff;
    let other: Vec<u8> = (0..400u32).map(|i| (i * 7 % 253) as u8).collect();
    let pack = build_with_bases(&[blob(&other), blob(&edited)], &[object("tree", &base), blob(&base)]);
    let result = parse(&pack).unwrap();
    assert_eq!(contents(&result), [other]);
    assert_eq!(result.deltas.len(), 1);
    assert_eq!(result.deltas[0].base_sha, blob(&base).sha1());
    assert_eq!(apply_delta(&base, &result.deltas[0].delta_data).unwrap(), edited);
}

#[test]
fn a_delta_is_stored_when_it_is_shorter() {
    let mut base = vec![3u8; 16];
    let mut other = base.clone();
    base.extend_from_slice(&[1; 100]);
    other.extend_from_slice(&[2; 100]);
    let delta = compute_delta(&base, &other);
    assert_eq!(delta.len(), 105);
    let objects = [blob(&base), blob(&other)];
    let plan = plan_pack(&objects, &[]);
    assert!(matches!(plan[0].form, Form::Whole));
    assert!(matches!(&plan[1].form, Form::OnPrevious(d) if *d == delta));
    assert_eq!(contents(&parse(&build(&objects)).unwrap()), [base, other]);
}

#[test]
fn a_delta_on_a_base_saves_a_tenth() {
    let base = b"0123456789abcdef".to_vec();
    let grown = |n: usize| [base.clone(), vec![b'z'; n]].concat();
    assert_eq!(compute_delta(&base, &grown(94)).len(), 99);
    let pack = build_with_bases(&[blob(&grown(94))], &[blob(&base)]);
    assert_eq!(pack, build(&[blob(&grown(94))]));
    assert_eq!(contents(&parse(&pack).unwrap()), [grown(94)]);

    assert_eq!(compute_delta(&base, &grown(93)).len(), 98);
    let plan = plan_pack(&[blob(&grown(93))], &[blob(&base)]);
    assert!(matches!(plan[0].form, Form::Whole));
    assert_eq!(compute_delta(&base, &grown(90)).len(), 95);
    let plan = plan_pack(&[blob(&grown(90))], &[blob(&base)]);
    assert!(matches!(plan[0].form, Form::Whole));
    assert_eq!(compute_delta(&base, &grown(84)).len(), 89);
    let plan = plan_pack(&[blob(&grown(84))], &[blob(&base)]);
    assert!(matches!(&plan[0].form, Form::OnBase(0, d) if d.len() == 89));

    // The object before it is no base elsewhere: there any saving counts.
    let objects = [blob(&grown(94)), blob(&grown(95))];
    let plan = plan_pack(&objects, &[blob(&base)]);
    assert!(matches!(plan[0].form, Form::Whole));
    assert!(matches!(plan[1].form, Form::OnPrevious(_)));
}

#[test]
fn the_pack_ends_in_its_checksum() {
    let pack = build(&[blob(b"x")]);
    let (body, checksum) = pack.split_at(pack.len() - 20);
    assert_eq!(Sha1::digest(body).as_slice(), checksum);
    assert_eq!(&pack[..12], b"PACK\0\0\0\x02\0\0\0\x01");
}

#[test]
fn deltas_rebuild_their_targets() {
    let base: Vec<u8> = (0..70_000u32).map(|i| (i % 251) as u8 ^ (i / 251) as u8).collect();
    let mut target = base[100..].to_vec();
    target.extend_from_slice(b"something new at the end");
    let delta = compute_delta(&base, &target);
    assert!(delta.len() < 100);
    assert_eq!(apply_delta(&base, &delta).unwrap(), target);
    assert_eq!(compute_delta(b"", b""), [0, 0]);
    assert_eq!(compute_delta(b"", b"ab"), [0, 2, 2, b'a', b'b']);
    assert_eq!(
        compute_delta(b"0123456789abcdef", b"0123456789abcdef"),
        [16, 16, 0x90, 16]
    );
    let long = vec![7u8; 300];
    assert_eq!(apply_delta(b"", &compute_delta(b"", &long)).unwrap(), long);
}

#[test]
fn deltas_that_are_refused() {
    assert_eq!(apply_delta(b"", &[]).unwrap_err(), "unexpected end of delta size");
    assert_eq!(apply_delta(b"", &[0x80]).unwrap_err(), "unexpected end of delta size");
    assert_eq!(apply_delta(b"", &[0, 0, 0]).unwrap_err(), "delta instruction byte 0 is reserved");
    assert_eq!(apply_delta(b"", &[0, 3, 3, b'a']).unwrap_err(), "delta insert out of bounds");
    assert_eq!(
        apply_delta(b"abc", &[3, 4, 0x91, 1, 3]).unwrap_err(),
        "delta copy out of bounds: offset=1, size=3, source_len=3"
    );
    assert_eq!(
        apply_delta(b"abc", &[3, 4, 0x90, 3]).unwrap_err(),
        "delta target size mismatch: expected 4, got 3"
    );
    assert!(!is_delta_whole(b"abc", &[3, 3, 0x91]));
    assert!(is_delta_whole(b"abc", &[3, 3, 0x90, 3]));
}

#[test]
fn heads_are_read() {
    let mut data = vec![0xff, 0xb1, 0x01];
    data.extend_from_slice(&[0x70; 21]);
    assert!(matches!(read_head_at(&data, 1), Some(Ok((Head::Object("blob"), 3)))));
    match read_head_at(&data, 3) {
        Some(Ok((Head::Named(name), at))) => {
            assert_eq!(name, [0x70; 20]);
            assert_eq!(at, 24);
        }
        _ => panic!("no delta"),
    }
    assert!(matches!(read_head_at(&[0x60, 0x81, 0x02], 0), Some(Ok((Head::Back(258), 3)))));
    assert!(read_head_at(&[0x60, 0x81], 0).is_none());
}

#[test]
fn entries_are_resolved_in_turn() {
    let first = make_entry(Head::Object("tree"), 12, b"hello".to_vec());
    let second = make_entry(Head::Back(8), 20, vec![5, 6, 0x90, 5, 1, b'!']);
    let third = make_entry(Head::Named(vec![1; 20]), 30, vec![9]);
    let fourth = make_entry(Head::Back(20), 40, vec![6, 1, 0x91, 5, 1]);
    let result = resolve_entries(&vec![(12, first), (20, second), (30, third), (40, fourth)])
        .unwrap()
        .unwrap();
    assert_eq!(contents(&result), [b"hello".to_vec(), b"hello!".to_vec(), b"!".to_vec()]);
    assert!(result.objects.iter().all(|o| o.obj_type == "tree"));
    assert_eq!(result.deltas.len(), 1);
    assert_eq!(result.deltas[0].base_sha, "01".repeat(20));

    let back = |base_pos: usize, delta: &[u8]| ParsedEntry::OfsDelta {
        base_pos,
        delta_data: delta.to_vec(),
    };
    let named = UnresolvedDelta { base_sha: String::new(), delta_data: Vec::new() };
    let entries = vec![(12, ParsedEntry::RefDelta(named)), (20, back(12, &[0, 0]))];
    assert_eq!(
        resolve_entries(&entries).unwrap().unwrap_err(),
        "cannot resolve ref_delta as ofs_delta base"
    );
    let entries = vec![(12, ParsedEntry::Object(blob(b""))), (20, back(12, &[0]))];
    assert_eq!(
        resolve_entries(&entries).unwrap().unwrap_err(),
        "unexpected end of delta size"
    );
    let entries = vec![(12, ParsedEntry::Object(blob(b""))), (20, back(12, &[0, 0, 0x81]))];
    assert!(resolve_entries(&entries).is_none());
}

#[test]
fn packs_are_planned() {
    let base = noise(1000);
    let mut near_base = base.clone();
    near_base[500] ^= 1;
    let mut near_that = near_base.clone();
    near_that[10] ^= 1;
    near_that.pop();
    let objects = [blob(&near_that), object("tree", b"small"), blob(&near_base)];
    let plan = plan_pack(&objects, &[blob(b"unlike"), blob(&base)]);
    assert_eq!(plan.iter().map(|e| e.place).collect::<Vec<_>>(), [2, 0, 1]);
    match &plan[0].form {
        Form::OnBase(1, delta) => assert_eq!(apply_delta(&base, delta).unwrap(), near_base),
        _ => panic!("not on the base"),
    }
    match &plan[1].form {
        Form::OnPrevious(delta) => assert_eq!(apply_delta(&near_base, delta).unwrap(), near_that),
        _ => panic!("not on the previous object"),
    }
    assert!(matches!(plan[2].form, Form::Whole));

    // What follows an object on a base cannot be resolved within the pack.
    let pack = build_with_bases(&objects, &[blob(b"unlike"), blob(&base)]);
    assert_eq!(refusal(&pack), "cannot resolve ref_delta as ofs_delta base");
    assert_eq!(contents(&parse(&build(&objects)).unwrap())[..2], [near_base, near_that]);

    assert!(is_storable(&objects, &[]));
    assert!(!is_storable(&[object("note", &base)], &[]));
    assert!(is_storable(&[object("note", &base)], &[object("note", &base)]));
}

#[test]
fn entries_are_written() {
    let o = object("commit", b"abc");
    assert_eq!(encode_entry(&Form::Whole, &o, b"", 9, b"Z"), [0x13, b'Z']);
    let on_base = Form::OnBase(0, vec![0; 20]);
    assert_eq!(encode_entry(&on_base, &o, b"NAME", 9, b"Z"), b"\xf4\x01NAMEZ");
    let on_previous = Form::OnPrevious(vec![1]);
    assert_eq!(encode_entry(&on_previous, &o, b"NAME", 9, b"Z"), [0x61, 9, b'Z']);
    assert_eq!(o.to_named_bytes(), b"commit 3\0abc");
}
