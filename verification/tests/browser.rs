use ed25519_dalek::{Signature, Signer, SigningKey, Verifier};
use near_git_storage::browser::{
    apply_delta, build_packfile, build_packfile_checked, build_packfile_with_bases,
    build_packfile_with_bases_checked, create_signed_transaction, git_sha1, objects_of,
    parse_packfile, parse_packfile_checked,
};
use near_git_storage::diff::compute_delta;
use near_git_storage::encoding::{borsh_write_string, encode_push_args};
use near_git_storage::json::Json;
use near_git_storage::object::PackObject;
use near_git_storage::packing::{build, build_with_bases};
use near_git_storage::refs::RefUpdate;
use near_git_storage::transaction::{attach_signature, encode_call};
use base64::Engine;
use sha2::{Digest, Sha256};

fn blob(data: &[u8]) -> PackObject {
    PackObject { obj_type: "blob".to_string(), data: data.to_vec() }
}

fn sign(public: &str, private: &str, hash: &str, deposit: &str) -> Result<String, String> {
    create_signed_transaction(
        "alice.near",
        public,
        private,
        "repo.near",
        "push",
        "{}",
        7,
        hash,
        300,
        deposit,
    )
}

fn b58(bytes: &[u8]) -> String {
    bs58::encode(bytes).into_string()
}

#[test]
fn a_pack_as_json() {
    let pack = build(&[blob(b"hello world"), blob(b"\x00\xff")]);
    assert_eq!(
        parse_packfile(&pack).unwrap(),
        "{\"deltas\":[],\"objects\":[{\"data\":\"aGVsbG8gd29ybGQ=\",\"obj_type\":\"blob\"},\
         {\"data\":\"AP8=\",\"obj_type\":\"blob\"}]}"
    );
    assert_eq!(parse_packfile(b"PACK").unwrap_err(), "packfile too short");
    assert_eq!(
        parse_packfile(b"PACK\0\0\0\x02\0\0\0\0").unwrap(),
        "{\"deltas\":[],\"objects\":[]}"
    );
    assert!(parse_packfile_checked(b"PACK\0\0\0\x02\0\0\0\x01\x60").is_none());
    assert!(parse_packfile_checked(&pack).unwrap().is_ok());
}

#[test]
fn a_pack_from_json() {
    let json = "[{\"obj_type\":\"tree\",\"data\":\"AAEC\"},{\"data\":\"aGk=\"},{\"obj_type\":7},5]";
    let pack = build_packfile(json).unwrap();
    let text = parse_packfile(&pack).unwrap();
    assert_eq!(
        text,
        "{\"deltas\":[],\"objects\":[{\"data\":\"aGk=\",\"obj_type\":\"blob\"},\
         {\"data\":\"\",\"obj_type\":\"blob\"},{\"data\":\"\",\"obj_type\":\"blob\"},\
         {\"data\":\"AAEC\",\"obj_type\":\"tree\"}]}"
    );
    assert_eq!(
        build_packfile("{").unwrap_err(),
        "invalid type: map, expected a sequence at line 1 column 0"
    );
    assert!(build_packfile_checked("[{\"obj_type\":\"note\"}]").is_none());
    assert_eq!(build_packfile_checked(json).unwrap().unwrap(), pack);
    let bad = build_packfile("[{\"data\":\"aGk\"},{\"data\":\"aGl=\"},{\"data\":\"a Gk=\"}]").unwrap();
    assert_eq!(parse_packfile(&bad).unwrap().matches("\"data\":\"\"").count(), 3);
}

#[test]
fn a_thin_pack_from_json() {
    let base: Vec<u8> = (0..1000u32).map(|i| (i * i % 251) as u8).collect();
    let mut edited = base.clone();
    edited[700] ^= 0xff;
    let list = |data: &[u8]| {
        let text = base64::engine::general_purpose::STANDARD.encode(data);
        format!("[{{\"obj_type\":\"blob\",\"data\":\"{}\"}}]", text)
    };
    let pack = build_packfile_with_bases(&list(&edited), &list(&base)).unwrap();
    assert_eq!(pack, build_with_bases(&[blob(&edited)], &[blob(&base)]));
    let text = parse_packfile(&pack).unwrap();
    assert!(text.contains(&format!("\"base_sha\":\"{}\"", git_sha1("blob", &base))));
    assert!(text.ends_with("\"objects\":[]}"));
    assert_eq!(build_packfile_with_bases_checked(&list(&edited), &list(&base)).unwrap().unwrap(), pack);

    let wrong = "invalid type: map, expected a sequence at line 1 column 0";
    assert_eq!(build_packfile_with_bases("{", "7").unwrap_err(), wrong);
    assert_eq!(build_packfile_with_bases("[]", "{").unwrap_err(), wrong);
    assert!(build_packfile_with_bases_checked("[{\"obj_type\":\"note\"}]", "[]").is_none());
}

#[test]
fn objects_of_plain_values() {
    let items = vec![
        Json::Record(vec![("data".to_string(), Json::Text("aGk=".to_string()))]),
        Json::Number("7".to_string()),
    ];
    let objects = objects_of(&items);
    assert_eq!(objects.len(), 2);
    assert_eq!((objects[0].obj_type.as_str(), objects[0].data.as_slice()), ("blob", b"hi".as_slice()));
    assert_eq!((objects[1].obj_type.as_str(), objects[1].data.len()), ("blob", 0));
}

#[test]
fn objects_by_their_names() {
    assert_eq!(git_sha1("blob", b"hello world"), "95d09f2b10159347eece71399a7e2e907ea3df4f");
    let delta = compute_delta(b"abc", b"abcd");
    assert_eq!(apply_delta(b"abc", &delta).unwrap(), b"abcd");
}

#[test]
fn a_signed_transaction() {
    let secret = [9u8; 32];
    let key = SigningKey::from_bytes(&secret);
    let public = key.verifying_key().to_bytes();
    let hash = [4u8; 32];
    let text = sign(&b58(&public), &b58(&secret), &b58(&hash), "5").unwrap();
    let bytes = base64::engine::general_purpose::STANDARD.decode(&text).unwrap();

    let mut expected = Vec::new();
    expected.extend_from_slice(b"\x0a\0\0\0alice.near\0");
    expected.extend_from_slice(&public);
    expected.extend_from_slice(&7u64.to_le_bytes());
    expected.extend_from_slice(b"\x09\0\0\0repo.near");
    expected.extend_from_slice(&hash);
    expected.extend_from_slice(b"\x01\0\0\0\x02\x04\0\0\0push\x02\0\0\0{}");
    expected.extend_from_slice(&300u64.to_le_bytes());
    expected.extend_from_slice(&5u128.to_le_bytes());
    assert_eq!(bytes[..expected.len()], expected[..]);
    assert_eq!(bytes[expected.len()], 0);
    let signature = Signature::from_slice(&bytes[expected.len() + 1..]).unwrap();
    assert!(key.verifying_key().verify(&Sha256::digest(&expected), &signature).is_ok());

    let call =
        encode_call("alice.near", &public, 7, "repo.near", &hash, "push", "{}", 300, 5);
    assert_eq!(call, expected);
    let by_hand = key.sign(&Sha256::digest(&call)).to_bytes();
    assert_eq!(attach_signature(&call, &by_hand), bytes);

    let pair = b58(&key.to_keypair_bytes());
    assert_eq!(sign(&b58(&public), &pair, &b58(&hash), "+5").unwrap(), text);
}

#[test]
fn keys_and_amounts_that_are_refused() {
    let (key, hash) = (b58(&[9; 32]), b58(&[4; 32]));
    assert_eq!(
        sign(&key, "0", &hash, "0").unwrap_err(),
        "bad private key: provided string contained invalid character '0' at byte 0"
    );
    assert_eq!(
        sign(&key, "", &hash, "0").unwrap_err(),
        "unexpected key length: 0 (expected 32 or 64)"
    );
    let mismatched = b58(&[9; 64]);
    assert!(sign(&key, &mismatched, &hash, "0").unwrap_err().starts_with("bad keypair: "));
    assert!(sign("l", &key, &hash, "0").unwrap_err().starts_with("bad public key: "));
    assert!(sign(&key, &key, "\u{e9}", "0").unwrap_err().starts_with("bad block hash: "));
    assert_eq!(
        sign(&key, &key, &b58(&[4; 31]), "0").unwrap_err(),
        "block hash must be 32 bytes, got 31"
    );
    assert_eq!(
        sign(&key, &key, &hash, "").unwrap_err(),
        "bad deposit: cannot parse integer from empty string"
    );
    assert_eq!(
        sign(&key, &key, &hash, "1x").unwrap_err(),
        "bad deposit: invalid digit found in string"
    );
    assert_eq!(
        sign(&key, &key, &hash, "340282366920938463463374607431768211456").unwrap_err(),
        "bad deposit: number too large to fit in target type"
    );
    assert!(sign(&key, &key, &hash, "340282366920938463463374607431768211455").is_ok());
}

#[test]
fn leading_zeros_in_base58() {
    let mut secret = [0u8; 32];
    secret[31] = 1;
    let hash = [0u8; 32];
    assert!(b58(&secret).starts_with("1111"));
    assert!(sign("", &b58(&secret), &b58(&hash), "0").is_ok());
}

#[test]
fn push_arguments_in_borsh() {
    let updates = vec![
        RefUpdate {
            name: "refs/heads/main".to_string(),
            old_sha: None,
            new_sha: "ab".to_string(),
        },
        RefUpdate {
            name: "x".to_string(),
            old_sha: Some("cd".to_string()),
            new_sha: "ef".to_string(),
        },
    ];
    let bytes = encode_push_args(b"PK", &updates);
    assert_eq!(
        bytes,
        b"\x02\0\0\0PK\x02\0\0\0\x0f\0\0\0refs/heads/main\0\x02\0\0\0ab\
          \x01\0\0\0x\x01\x02\0\0\0cd\x02\0\0\0ef"
    );
    let (pack, rows): (Vec<u8>, Vec<(String, Option<String>, String)>) =
        borsh::from_slice(&bytes).unwrap();
    assert_eq!(pack, b"PK");
    assert_eq!(rows[1], ("x".to_string(), Some("cd".to_string()), "ef".to_string()));
    let mut buf = vec![7];
    borsh_write_string(&mut buf, "\u{e9}");
    assert_eq!(buf, [7, 2, 0, 0, 0, 0xc3, 0xa9]);
}
