use near_git_storage::json::{get, get_text, read_json, read_json_list, Json};
use near_git_storage::merge::merge_packs;
use near_git_storage::object::PackObject;
use near_git_storage::packfile::parse;
use near_git_storage::packing::{build, build_with_bases};
use near_git_storage::pktline::{encode, flush, read_until_flush};
use near_git_storage::refs::RefUpdate;
use near_git_storage::server::{
    call_error_body, call_failure_body, code_hash, fetch_step, info_refs_body, info_refs_type, interpret_call,
    make_receive_pack_response, near_credentials_body, near_info_body, nothing_wanted_body,
    parse_asked, parse_command, parse_packfile_body, push_call_body, read_fetch,
    read_near_call, read_push, receive_pack_body, upload_pack_body, NearCall, PushReply,
};

const ZERO: &str = "0000000000000000000000000000000000000000";

fn pair(name: &str, sha: &str) -> (String, String) {
    (name.to_string(), sha.to_string())
}

fn blob(data: &[u8]) -> PackObject {
    PackObject { obj_type: "blob".to_string(), data: data.to_vec() }
}

fn lines_of(body: &[u8]) -> (Vec<String>, Vec<u8>) {
    let (lines, rest) = read_until_flush(body);
    (lines.into_iter().map(|l| String::from_utf8(l).unwrap()).collect(), rest.to_vec())
}

fn fields(u: &RefUpdate) -> (&str, Option<&str>, &str) {
    (&u.name, u.old_sha.as_deref(), &u.new_sha)
}

#[test]
fn an_empty_repository_is_advertised() {
    let body = info_refs_body("git-upload-pack", &vec![]);
    let (first, rest) = lines_of(&body);
    assert_eq!(first, ["# service=git-upload-pack\n"]);
    let (lines, rest) = lines_of(&rest);
    assert_eq!(
        lines,
        [format!("{} capabilities^{{}}\0report-status delete-refs\n", ZERO)]
    );
    assert!(rest.is_empty());
    assert_eq!(
        info_refs_type("git-upload-pack"),
        "application/x-git-upload-pack-advertisement"
    );
}

#[test]
fn refs_are_advertised_behind_head() {
    let refs = vec![pair("refs/heads/dev", "aa"), pair("refs/heads/main", "bb")];
    let (_, rest) = lines_of(&info_refs_body("git-receive-pack", &refs));
    assert_eq!(
        lines_of(&rest).0,
        [
            "bb HEAD\0report-status delete-refs symref=HEAD:refs/heads/main\n",
            "aa refs/heads/dev\n",
            "bb refs/heads/main\n",
        ]
    );
    let refs = vec![pair("refs/heads/dev", "aa"), pair("refs/heads/master", "cc")];
    let (_, rest) = lines_of(&info_refs_body("git-receive-pack", &refs));
    assert!(lines_of(&rest).0[0].ends_with("symref=HEAD:refs/heads/master\n"));
    let refs = vec![pair("refs/heads/dev", "aa"), pair("refs/heads/x", "cc")];
    let (_, rest) = lines_of(&info_refs_body("git-receive-pack", &refs));
    assert!(lines_of(&rest).0[0].ends_with("symref=HEAD:refs/heads/dev\n"));
}

#[test]
fn a_push_is_read() {
    let mut body = Vec::new();
    let first = format!("{} aa refs/heads/main\0 report-status", ZERO);
    body.extend_from_slice(&encode(first.as_bytes()));
    body.extend_from_slice(&encode(b"bb cc refs/heads/a b\n"));
    body.extend_from_slice(&encode(b"no command"));
    body.extend_from_slice(&encode(b"\xff cc r"));
    body.extend_from_slice(&flush());
    body.extend_from_slice(b"PACKdata");
    let (updates, pack) = read_push(&body);
    assert_eq!(pack, b"PACKdata");
    assert_eq!(updates.len(), 3);
    assert_eq!(fields(&updates[0]), ("refs/heads/main", None, "aa"));
    assert_eq!(fields(&updates[1]), ("refs/heads/a b", Some("bb"), "cc"));
    assert_eq!(fields(&updates[2]), ("r", Some("\u{fffd}"), "cc"));
    assert!(parse_command("only one").is_none());
    assert_eq!(fields(&parse_command("a\0x b c\0d\n\n").unwrap()), ("c", Some("a"), "b"));
}

#[test]
fn a_push_is_reported() {
    let updates = vec![
        parse_command("a b refs/heads/main").unwrap(),
        parse_command("a b refs/tags/v1").unwrap(),
    ];
    let body = receive_pack_body(PushReply::Accepted, &updates);
    assert_eq!(
        lines_of(&body).0,
        ["unpack ok\n", "ok refs/heads/main\n", "ok refs/tags/v1\n"]
    );
    let body = receive_pack_body(PushReply::Refused("why".to_string()), &updates);
    assert_eq!(lines_of(&body).0, ["ng unpack why\n"]);
    let body = receive_pack_body(PushReply::Unreachable, &updates);
    assert_eq!(lines_of(&body).0, ["ng unpack contract call failed\n"]);
    assert_eq!(make_receive_pack_response(&vec!["x".to_string()]), b"0006x\n0000");
}

#[test]
fn a_fetch_is_read() {
    let mut body = Vec::new();
    body.extend_from_slice(&encode(b"want aa side-band\n"));
    body.extend_from_slice(&encode(b"  want bb  "));
    body.extend_from_slice(&encode(b"want "));
    body.extend_from_slice(&encode(b"have cc\n"));
    body.extend_from_slice(&flush());
    body.extend_from_slice(&encode(b"done"));
    let (wants, haves) = read_fetch(&body);
    assert_eq!(wants, ["aa", "bb"]);
    assert_eq!(haves, ["cc"]);
    assert_eq!(read_fetch(b"").0.len(), 0);
    assert_eq!(parse_asked(" want aa bb", "want "), Some("aa".to_string()));
    assert_eq!(parse_asked("wanted aa", "want "), None);
    assert_eq!(parse_asked("have ", "have "), None);
    assert_eq!(nothing_wanted_body(), b"0008NAK\n0000");
    assert_eq!(fetch_step(&body), None);
    assert_eq!(fetch_step(&body[body.len() - 8..]).unwrap(), b"0008NAK\n0000");
    assert_eq!(fetch_step(b"0000").unwrap(), b"0008NAK\n0000");
}

#[test]
fn a_fetch_is_answered_with_one_pack() {
    let base: Vec<u8> = (0..1000u32).map(|i| (i * i % 251) as u8).collect();
    let mut edited = base.clone();
    edited[10] ^= 1;
    let first = build(&[blob(&base)]);
    let second = build_with_bases(&[blob(&edited)], &[blob(&base)]);
    assert_eq!(parse(&second).unwrap().deltas.len(), 1);
    let packs = vec![first.clone(), b"no pack".to_vec(), second.clone()];

    let merged = merge_packs(&packs).unwrap();
    assert_eq!(merged.iter().map(|o| o.data.clone()).collect::<Vec<_>>(), [base.clone(), edited.clone()]);

    let body = upload_pack_body(&packs).unwrap();
    assert_eq!(&body[..8], b"0008NAK\n");
    let result = parse(&body[8..]).unwrap();
    assert!(result.deltas.is_empty());
    assert_eq!(result.objects.len(), 2);
    assert_eq!(result.objects[0].data, base);
    assert_eq!(result.objects[1].data, edited);

    assert_eq!(merge_packs(&vec![second]).unwrap().len(), 0);
    let broken = b"PACK\0\0\0\x02\0\0\0\x01\x60".to_vec();
    assert!(merge_packs(&vec![first, broken.clone()]).is_none());
    assert!(upload_pack_body(&vec![broken]).is_none());
}

#[test]
fn replies_in_json() {
    assert_eq!(
        near_info_body("http://localhost:3030", "repo.factory.sandbox"),
        "{\"contractId\":\"repo.factory.sandbox\",\"rpcUrl\":\"http://localhost:3030\"}"
    );
    assert_eq!(
        near_credentials_body("u", "c", "a", "p", "s"),
        "{\"accountId\":\"a\",\"contractId\":\"c\",\"publicKey\":\"p\",\"rpcUrl\":\"u\",\"secretKey\":\"s\"}"
    );
    assert_eq!(push_call_body(true, "H"), "{\"success\":true,\"txHash\":\"H\"}");
    assert_eq!(
        push_call_body(false, "H"),
        "{\"error\":\"push failed\",\"success\":false,\"txHash\":\"H\"}"
    );
    assert_eq!(
        call_failure_body("why", "H"),
        "{\"error\":\"why\",\"success\":false,\"txHash\":\"H\"}"
    );
    assert_eq!(
        call_error_body("a \"b\" \\ \n\u{1}\u{7f}\u{e9}"),
        "{\"error\":\"a \\\"b\\\" \\\\ \\n\\u0001\u{7f}\u{e9}\",\"success\":false}"
    );
    assert_eq!(
        call_error_body("\u{8}\t\u{c}\r\u{1f}"),
        "{\"error\":\"\\b\\t\\f\\r\\u001f\",\"success\":false}"
    );
    assert_eq!(parse_packfile_body(b"x").unwrap(), "{\"error\":\"packfile too short\"}");
    assert_eq!(
        parse_packfile_body(b"PACK\0\0\0\x02\0\0\0\0").unwrap(),
        "{\"deltas\":[],\"objects\":[]}"
    );
    assert!(parse_packfile_body(b"PACK\0\0\0\x02\0\0\0\x01\x60").is_none());
}

#[test]
fn calls_are_read() {
    let body = br#"{"method":"push","args":{"pack_data":"UEFDSw==","ref_updates":[
        {"name":"refs/heads/main","old_sha":null,"new_sha":"aa"},{"old_sha":"bb"}]}}"#;
    match read_near_call(body) {
        NearCall::Push(pack, updates) => {
            assert_eq!(pack, b"PACK");
            assert_eq!(updates.len(), 2);
            assert_eq!(fields(&updates[0]), ("refs/heads/main", None, "aa"));
            assert_eq!(fields(&updates[1]), ("", Some("bb"), ""));
        }
        _ => panic!("no push"),
    }
    match read_near_call(br#"{"method":"push","args":{"pack_data":"%","ref_updates":3}}"#) {
        NearCall::Push(pack, updates) => assert!(pack.is_empty() && updates.is_empty()),
        _ => panic!("no push"),
    }
    assert!(matches!(read_near_call(br#"{"method":"get_refs"}"#), NearCall::Other(m) if m == "get_refs"));
    assert!(matches!(read_near_call(b"[]"), NearCall::Other(m) if m.is_empty()));
    assert!(matches!(
        read_near_call(b"{"),
        NearCall::Malformed(e) if e == "EOF while parsing an object at line 1 column 1"
    ));
}

#[test]
fn a_call_of_plain_values() {
    let text = |s: &str| Json::Text(s.to_string());
    let update = Json::Record(vec![
        ("new_sha".to_string(), text("bb")),
        ("old_sha".to_string(), text("aa")),
        ("name".to_string(), text("refs/heads/main")),
        ("name".to_string(), text("second")),
    ]);
    let request = Json::Record(vec![
        ("method".to_string(), text("push")),
        (
            "args".to_string(),
            Json::Record(vec![
                ("pack_data".to_string(), text("UEFDSw==")),
                ("ref_updates".to_string(), Json::List(vec![update, Json::Bool(true)])),
            ]),
        ),
    ]);
    match interpret_call(&request) {
        NearCall::Push(pack, updates) => {
            assert_eq!(pack, b"PACK");
            assert_eq!(updates.len(), 2);
            assert_eq!(fields(&updates[0]), ("refs/heads/main", Some("aa"), "bb"));
            assert_eq!(fields(&updates[1]), ("", None, ""));
        }
        _ => panic!("no push"),
    }
    assert!(matches!(interpret_call(&Json::Null), NearCall::Other(m) if m.is_empty()));
}

#[test]
fn json_is_read_as_plain_values() {
    let value = read_json(br#"{"a":[null,true,-1.5e3,"x\n"],"b":{"c":""},"a":7}"#).unwrap();
    assert!(matches!(get(&value, "a"), Some(Json::Number(n)) if n == "7"));
    assert!(matches!(get(&value, "b"), Some(Json::Record(f)) if f.len() == 1 && f[0].0 == "c"));
    assert!(get(&value, "c").is_none());
    assert_eq!(get_text(get(&value, "b").unwrap(), "c"), Some(String::new()));
    assert_eq!(get_text(&value, "a"), None);

    let list = read_json_list("[null, false, \"x\\n\", [[]]]").unwrap();
    assert_eq!(list.len(), 4);
    assert!(matches!(list[0], Json::Null));
    assert!(matches!(list[1], Json::Bool(false)));
    assert!(matches!(&list[2], Json::Text(s) if s == "x\n"));
    assert!(matches!(&list[3], Json::List(l) if l.len() == 1));
    assert!(read_json_list("7").is_err());
}

#[test]
fn code_goes_by_its_hash() {
    assert_eq!(
        code_hash(b"abc"),
        "ba7816bf8f01cfea414140de5dae2223b00361a396177a9cb410ff61f20015ad"
    );
}
