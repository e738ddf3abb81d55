use near_git_storage::factory::{GitFactory, Web4Request, Web4Response, SETUP_GAS};
use near_git_storage::storage::{GitStorage, SERVICE_FEE};
use std::collections::HashMap;

const CALLER: &str = "user1.sandbox";
const HASH: &str = "000102030405060708090a0b0c0d0e0f101112131415161718191a1b1c1d1eff";

fn factory() -> GitFactory {
    GitFactory::new("creator.sandbox".to_string(), HASH.to_string()).unwrap()
}

fn refusal(hash: &str) -> String {
    match GitFactory::new("creator.sandbox".to_string(), hash.to_string()) {
        Err(e) => e,
        Ok(_) => panic!("the hash is not refused"),
    }
}

#[test]
fn a_repository_is_a_sub_account() {
    let creation = factory()
        .create_repo(CALLER, "myrepo".to_string(), "factory.sandbox", SERVICE_FEE * 50)
        .unwrap();
    assert_eq!(creation.account, "myrepo.factory.sandbox");
    assert_eq!(creation.funding, SERVICE_FEE * 49);
    assert_eq!(creation.code_hash[..4], [0, 1, 2, 3]);
    assert_eq!(creation.code_hash.len(), 32);
    assert_eq!(creation.method, "new");
    assert_eq!(
        creation.arguments,
        b"{\"factory\":\"factory.sandbox\",\"owner\":\"user1.sandbox\"}"
    );
    assert_eq!(creation.deposit, 0);
    assert_eq!(creation.gas, SETUP_GAS);
    assert_eq!(SETUP_GAS, near_sdk::Gas::from_tgas(10).as_gas());
}

#[test]
fn test_factory_create_repo() {
    let creation = factory()
        .create_repo(CALLER, "myrepo".to_string(), "factory1.sandbox", SERVICE_FEE * 20)
        .unwrap();
    assert_eq!(creation.account, "myrepo.factory1.sandbox");

    let setup: serde_json::Value = serde_json::from_slice(&creation.arguments).unwrap();
    let account = |key: &str| setup[key].as_str().map(String::from);
    let (mut repo, _) = GitStorage::new(
        "factory1.sandbox",
        account("owner"),
        account("factory"),
        "signer.sandbox".to_string(),
        "gitfactory.testnet".to_string(),
    )
    .unwrap();
    assert_eq!(repo.get_owner(), CALLER);
    assert!(repo.push(CALLER, b"hello from factory repo".to_vec(), Vec::new()).is_ok());
    assert!(repo.push("signer.sandbox", b"pack".to_vec(), Vec::new()).is_err());
}

#[test]
fn test_factory_repo_rejects_direct_init() {
    let result = GitStorage::new(
        "rogue1.sandbox",
        Some("attacker1.sandbox".to_string()),
        Some("factory1.sandbox".to_string()),
        "rogue1.sandbox".to_string(),
        "gitfactory.testnet".to_string(),
    );
    assert!(result.is_err(), "Direct deployment with factory param should fail");
    assert_eq!(result.err().unwrap(), "Only the factory can initialize its repositories");
}

#[test]
fn the_hash_reads_back() {
    let factory = factory();
    assert_eq!(factory.get_global_contract_hash(), HASH);
    assert_eq!(factory.get_owner(), "creator.sandbox");
}

#[test]
fn hashes_that_are_refused() {
    let short = "global_contract_hash must be 32 bytes (64 hex chars)";
    assert_eq!(refusal(""), short);
    assert_eq!(refusal("00"), short);
    assert_eq!(refusal(&"ab".repeat(33)), short);
    assert_eq!(refusal("0"), "Invalid hex in hash");
    assert_eq!(refusal(&"g0".repeat(32)), "Invalid hex in hash");
    assert_eq!(refusal(&"+f".repeat(32)), "Invalid hex in hash");
    assert_eq!(refusal(&"0-".repeat(32)), "Invalid hex in hash");
    assert_eq!(refusal("\u{e9}"), "Invalid hex in hash");
}

#[test]
fn hashes_in_either_case() {
    let upper = GitFactory::new("a.b".to_string(), HASH.to_uppercase()).unwrap();
    assert_eq!(upper.get_global_contract_hash(), HASH);
}

#[test]
fn only_the_owner_sets_the_hash() {
    let mut factory = factory();
    let other = "ab".repeat(32);
    assert_eq!(
        factory.set_global_contract_hash("other.sandbox", other.clone()).unwrap_err(),
        "Only the factory owner can update the global contract hash"
    );
    assert_eq!(factory.get_global_contract_hash(), HASH);
    assert_eq!(
        factory.set_global_contract_hash("creator.sandbox", "zz".to_string()).unwrap_err(),
        "Invalid hex in hash"
    );
    assert_eq!(factory.get_global_contract_hash(), HASH);
    factory.set_global_contract_hash("creator.sandbox", other.clone()).unwrap();
    assert_eq!(factory.get_global_contract_hash(), other);
}

#[test]
fn names_that_are_refused() {
    let deposit = SERVICE_FEE * 2;
    for name in ["", "UPPER", "two..dots", "-dash", "dash-", "sp ace", "\u{e9}"] {
        let result = factory().create_repo(CALLER, name.to_string(), "factory.sandbox", deposit);
        assert_eq!(result.unwrap_err(), "Invalid repo name", "{:?}", name);
    }
    let long = "a".repeat(64 - ".factory.sandbox".len());
    assert!(factory().create_repo(CALLER, long.clone(), "factory.sandbox", deposit).is_ok());
    let longer = format!("{}a", long);
    assert!(factory().create_repo(CALLER, longer, "factory.sandbox", deposit).is_err());
    assert!(factory().create_repo(CALLER, "my-repo_2".to_string(), "factory.sandbox", deposit).is_ok());
}

#[test]
fn a_repository_is_funded() {
    let result = factory().create_repo(CALLER, "r".to_string(), "factory.sandbox", SERVICE_FEE);
    assert_eq!(
        result.unwrap_err(),
        "Attach more than 0.1 NEAR (0.1 service fee + storage funding)"
    );
    let creation =
        factory().create_repo(CALLER, "r".to_string(), "factory.sandbox", SERVICE_FEE + 1).unwrap();
    assert_eq!(creation.funding, 1);
}

#[test]
fn the_page_is_served() {
    let request = Web4Request {
        path: "/".to_string(),
        params: HashMap::new(),
        query: HashMap::new(),
    };
    let Web4Response::Body { content_type, body } = factory().web4_get(request, "PGh0bWw+");
    assert_eq!(content_type, "text/html");
    assert_eq!(body, "PGh0bWw+");
}
