use near_git_storage::refs::{check_updates, RefUpdate};
use near_git_storage::storage::{GitStorage, Transfer, SERVICE_FEE};

const OWNER: &str = "owner.sandbox";
const MAIN: &str = "refs/heads/main";
const FIRST: &str = "aaaa000000000000000000000000000000000001";
const SECOND: &str = "aaaa000000000000000000000000000000000002";
const ZERO: &str = "0000000000000000000000000000000000000000";

fn deploy(owner: Option<&str>, factory: Option<&str>) -> Result<(GitStorage, Transfer), String> {
    GitStorage::new(
        "repo.sandbox",
        owner.map(String::from),
        factory.map(String::from),
        OWNER.to_string(),
        "gitfactory.testnet".to_string(),
    )
}

fn setup() -> GitStorage {
    deploy(None, None).unwrap().0
}

fn update(name: &str, old: Option<&str>, new: &str) -> RefUpdate {
    RefUpdate {
        name: name.to_string(),
        old_sha: old.map(|s| s.to_string()),
        new_sha: new.to_string(),
    }
}

fn pair(name: &str, sha: &str) -> (String, String) {
    (name.to_string(), sha.to_string())
}

#[test]
fn test_push_pack_and_retrieve() {
    let mut repo = setup();
    let pack_data = b"PACK\x00\x00\x00\x02\x00\x00\x00\x00fake-pack-data-here";
    repo.push(OWNER, pack_data.to_vec(), vec![update(MAIN, None, FIRST)]).unwrap();

    let refs = repo.get_refs();
    assert_eq!(refs.len(), 1);
    assert_eq!(refs[0].0, "refs/heads/main");
    assert_eq!(refs[0].1, "aaaa000000000000000000000000000000000001");
    assert_eq!(repo.get_pack_count(), 1);
    let packs = repo.get_packs(0);
    assert_eq!(packs.len(), 1);
    assert_eq!(packs[0], pack_data);
}

#[test]
fn test_incremental_packs() {
    let mut repo = setup();
    repo.push(OWNER, b"pack-one".to_vec(), vec![update(MAIN, None, FIRST)]).unwrap();
    repo.push(OWNER, b"pack-two".to_vec(), vec![update(MAIN, Some(FIRST), SECOND)]).unwrap();
    assert_eq!(repo.get_pack_count(), 2);

    let all = repo.get_packs(0);
    assert_eq!(all.len(), 2);
    assert_eq!(all[0], b"pack-one");
    assert_eq!(all[1], b"pack-two");

    let new_only = repo.get_packs(1);
    assert_eq!(new_only.len(), 1);
    assert_eq!(new_only[0], b"pack-two");
    assert!(repo.get_packs(2).is_empty());
    assert!(repo.get_packs(9).is_empty());
}

#[test]
fn test_empty_push_updates_refs() {
    let mut repo = setup();
    repo.push(OWNER, b"pack-data".to_vec(), vec![update(MAIN, None, FIRST)]).unwrap();
    repo.push(OWNER, Vec::new(), vec![update(MAIN, Some(FIRST), SECOND)]).unwrap();
    assert_eq!(repo.get_pack_count(), 1);
    let refs = repo.get_refs();
    assert_eq!(refs[0].1, "aaaa000000000000000000000000000000000002");
}

#[test]
fn test_ref_cas_failure() {
    let mut repo = setup();
    repo.push(OWNER, b"pack".to_vec(), vec![update(MAIN, None, FIRST)]).unwrap();
    let result = repo.push(OWNER, b"pack2".to_vec(), vec![update(MAIN, Some(ZERO), SECOND)]);
    assert_eq!(
        result.unwrap_err(),
        format!(
            "Ref update CAS failure for 'refs/heads/main': expected Some(\"{}\"), got Some(\"{}\")",
            ZERO, FIRST
        )
    );
    assert_eq!(repo.get_pack_count(), 1);
    assert_eq!(repo.get_refs(), [pair(MAIN, FIRST)]);
}

#[test]
fn test_get_refs_empty() {
    let repo = setup();
    let refs = repo.get_refs();
    assert!(refs.is_empty());
}

#[test]
fn test_self_delete_by_owner() {
    let mut repo = setup();
    let deletion = repo.self_delete(OWNER, "repo.factory.sandbox").unwrap();
    assert_eq!(deletion.account, "repo.factory.sandbox");
    assert_eq!(deletion.beneficiary, OWNER);
}

#[test]
fn test_self_delete_rejected_for_non_owner() {
    let mut repo = setup();
    let result = repo.self_delete("nonowner.sandbox", "repo.factory.sandbox");
    assert_eq!(result.unwrap_err(), "Only the owner can perform this action");
    assert_eq!(repo.get_owner(), OWNER);
}

#[test]
fn a_new_repository_costs_a_fee() {
    let (repo, fee) = deploy(None, None).unwrap();
    assert_eq!(repo.get_owner(), OWNER);
    assert_eq!(repo.get_pack_count(), 0);
    assert_eq!(fee.to, "gitfactory.testnet");
    assert_eq!(fee.amount, SERVICE_FEE);
    assert_eq!(SERVICE_FEE, near_sdk::NearToken::from_millinear(100).as_yoctonear());
}

#[test]
fn only_the_owner_pushes() {
    let mut repo = setup();
    let result = repo.push("other.sandbox", b"pack".to_vec(), vec![update(MAIN, None, FIRST)]);
    assert_eq!(result.unwrap_err(), "Only the owner can perform this action");
    assert!(repo.get_refs().is_empty());
    assert_eq!(repo.get_pack_count(), 0);
}

#[test]
fn a_push_is_made_whole_or_not_at_all() {
    let mut repo = setup();
    let updates = vec![update(MAIN, None, FIRST), update("refs/tags/v1", Some(FIRST), FIRST)];
    let result = repo.push(OWNER, b"pack".to_vec(), updates);
    assert_eq!(
        result.unwrap_err(),
        format!(
            "Ref update CAS failure for 'refs/tags/v1': expected Some(\"{}\"), got None",
            FIRST
        )
    );
    assert!(repo.get_refs().is_empty());
    assert!(repo.get_packs(0).is_empty());
}

#[test]
fn updates_of_one_ref_follow_each_other() {
    let mut repo = setup();
    let updates = vec![
        update(MAIN, None, FIRST),
        update("refs/heads/dev", None, FIRST),
        update(MAIN, Some(FIRST), SECOND),
    ];
    repo.push(OWNER, Vec::new(), updates).unwrap();
    assert_eq!(repo.get_refs(), [pair(MAIN, SECOND), pair("refs/heads/dev", FIRST)]);
    let updates = vec![update(MAIN, None, FIRST)];
    assert_eq!(
        repo.push(OWNER, Vec::new(), updates).unwrap_err(),
        format!(
            "Ref update CAS failure for 'refs/heads/main': expected None, got Some(\"{}\")",
            SECOND
        )
    );
}

#[test]
fn clearing_leaves_nothing() {
    let mut repo = setup();
    repo.push(OWNER, b"one".to_vec(), vec![update(MAIN, None, FIRST)]).unwrap();
    repo.push(OWNER, b"two".to_vec(), Vec::new()).unwrap();
    assert_eq!(
        repo.clear_storage("other.sandbox").unwrap_err(),
        "Only the owner can perform this action"
    );
    assert_eq!(repo.get_pack_count(), 2);
    repo.clear_storage(OWNER).unwrap();
    assert!(repo.get_refs().is_empty());
    assert!(repo.get_packs(0).is_empty());
    assert_eq!(repo.get_pack_count(), 0);
    repo.push(OWNER, b"three".to_vec(), vec![update(MAIN, None, SECOND)]).unwrap();
    assert_eq!(repo.get_packs(0), [b"three".to_vec()]);
    assert_eq!(repo.get_refs(), [pair(MAIN, SECOND)]);
}

#[test]
fn messages_quote_what_they_name() {
    let updates = vec![update("a\"b", Some("x\ny"), "z")];
    assert_eq!(
        check_updates(&vec![None], &updates).unwrap_err(),
        "Ref update CAS failure for 'a\"b': expected Some(\"x\\ny\"), got None"
    );
    assert!(check_updates(&vec![Some("x\ny".to_string())], &updates).is_ok());
}

#[test]
fn a_repository_is_saved_between_calls() {
    let mut repo = setup();
    repo.push(OWNER, b"one".to_vec(), vec![update(MAIN, None, FIRST)]).unwrap();
    let saved = repo.save();
    assert_eq!(
        saved,
        b"\x01\0\0\0\x02\0\0\0Rv\x02\0\0\0Rm\x01\0\0\0P\x01\0\0\0\x0d\0\0\0owner.sandbox"
    );
    drop(repo);

    let mut repo = GitStorage::load(&saved).unwrap();
    assert_eq!(repo.save(), saved);
    assert_eq!(repo.get_owner(), OWNER);
    assert_eq!(repo.get_refs(), [pair(MAIN, FIRST)]);
    assert_eq!(repo.get_packs(0), [b"one".to_vec()]);
    repo.push(OWNER, b"two".to_vec(), vec![update(MAIN, Some(FIRST), SECOND)]).unwrap();
    let saved = repo.save();
    drop(repo);

    let repo = GitStorage::load(&saved).unwrap();
    assert_eq!(repo.get_refs(), [pair(MAIN, SECOND)]);
    assert_eq!(repo.get_packs(1), [b"two".to_vec()]);

    assert!(GitStorage::load(&saved[..saved.len() - 1]).is_none());
    assert!(GitStorage::load(b"").is_none());
    let mut other = saved.clone();
    other[20] = b'Q';
    assert!(GitStorage::load(&other).is_none());
    let mut other = saved.clone();
    let last = other.len() - 1;
    other[last] = 0xff;
    assert!(GitStorage::load(&other).is_none());
    let mut other = saved.clone();
    other[4] = 9;
    assert!(GitStorage::load(&other).is_none());
}

#[test]
fn a_repository_has_room() {
    let repo = setup();
    assert!(repo.has_room(&b"pack".to_vec(), &vec![update(MAIN, None, FIRST)]));
    assert!(repo.has_room(&Vec::new(), &Vec::new()));
}

#[test]
fn a_repository_for_someone_else() {
    let (repo, _) = deploy(Some("other.sandbox"), None).unwrap();
    assert_eq!(repo.get_owner(), "other.sandbox");
    let (repo, _) = deploy(None, Some("repo.sandbox")).unwrap();
    assert_eq!(repo.get_owner(), OWNER);
    let refused = deploy(None, Some("factory.sandbox")).err().unwrap();
    assert_eq!(refused, "Only the factory can initialize its repositories");
}

#[test]
fn a_loaded_repository_is_tested() {
    let mut repo = setup();
    assert!(repo.is_in_order());
    let names = vec![update(MAIN, None, FIRST), update("refs/tags/v1", None, SECOND)];
    repo.push(OWNER, b"one".to_vec(), names).unwrap();
    assert!(repo.is_listable());
    assert!(repo.is_in_order());
    let saved = repo.save();
    drop(repo);

    let mut repo = GitStorage::load(&saved).unwrap();
    assert!(repo.is_in_order());
    drop(repo);

    let mut more_packs = saved.clone();
    more_packs[21] = 3;
    let mut repo = GitStorage::load(&more_packs).unwrap();
    assert_eq!(repo.get_pack_count(), 3);
    assert!(repo.is_listable());
    assert!(!repo.is_in_order());
    assert_eq!(repo.get_packs(0), [b"one".to_vec()]);
    repo.push(OWNER, b"four".to_vec(), Vec::new()).unwrap();
    assert_eq!(repo.get_packs(0), [b"one".to_vec(), b"four".to_vec()]);
    drop(repo);

    let mut more_refs = saved.clone();
    more_refs[0] = 3;
    let mut repo = GitStorage::load(&more_refs).unwrap();
    assert!(!repo.is_listable());
    assert!(!repo.is_in_order());
    drop(repo);

    near_sdk::env::storage_write(b"Rv\x02\0\0\0", b"\x04\0\0\0lost");
    let mut repo = GitStorage::load(&more_refs).unwrap();
    assert!(!repo.is_listable());
    drop(repo);

    near_sdk::env::storage_write(b"Rv\x02\0\0\0", b"\x0f\0\0\0refs/heads/main");
    let mut repo = GitStorage::load(&more_refs).unwrap();
    assert!(repo.is_listable());
    assert!(!repo.is_in_order());
    assert_eq!(repo.get_refs().len(), 3);
    repo.clear_storage(OWNER).unwrap();
    assert!(repo.get_refs().is_empty());
    assert!(repo.is_in_order());
}
