use near_git_storage::refs::RefUpdate;
use near_git_storage::remote::{
    advance_push, begin_push, collect_new_shas, contract_id, credentials_path, default_rpc,
    finish, list_reply, pack_objects_input, parse_first_words, parse_push_spec, parse_push_specs, plan_push,
    private_key, push_result, resolve_local_ref, rev_list_args, signer_account, step,
    HelperState, HelperStep, PushAction, PushEvent, PushPlan, PushStage,
};
use near_git_storage::words::{chars_of, text_from, trim, word};

fn pair(name: &str, sha: &str) -> (String, String) {
    (name.to_string(), sha.to_string())
}

fn run(lines: &[&str]) -> Vec<HelperStep> {
    let mut state = HelperState::Idle;
    let mut steps = Vec::new();
    for line in lines {
        let (next, done) = step(state, line);
        state = next;
        steps.push(done);
    }
    steps.push(finish(state));
    steps
}

fn fields(u: &RefUpdate) -> (&str, Option<&str>, &str) {
    (&u.name, u.old_sha.as_deref(), &u.new_sha)
}

#[test]
fn contracts_are_named_by_urls() {
    assert_eq!(contract_id("near://repo.testnet"), "repo.testnet");
    assert_eq!(contract_id("near::repo.testnet"), "repo.testnet");
    assert_eq!(contract_id("repo.testnet"), "repo.testnet");
    assert_eq!(contract_id("near://near::x"), "near::x");
}

#[test]
fn single_commands() {
    let steps = run(&["", "capabilities\n", "list", "list for-push", "option verbosity 1", "what"]);
    assert!(matches!(&steps[0], HelperStep::Wait));
    assert!(matches!(&steps[1], HelperStep::Reply(s) if s == "fetch\npush\n\n"));
    assert!(matches!(&steps[2], HelperStep::List));
    assert!(matches!(&steps[3], HelperStep::List));
    assert!(matches!(&steps[4], HelperStep::Reply(s) if s == "unsupported\n"));
    assert!(matches!(&steps[5], HelperStep::Unknown(s) if s == "what"));
    assert!(matches!(&steps[6], HelperStep::Wait));
}

#[test]
fn a_batch_of_fetches() {
    let steps = run(&["fetch aa refs/heads/main", "fetch bb x", "other", "", "list"]);
    assert!(matches!(&steps[0], HelperStep::Wait));
    assert!(matches!(&steps[3], HelperStep::Fetch(w) if w == &["aa", "bb"]));
    assert!(matches!(&steps[4], HelperStep::List));
    let steps = run(&["fetch aa x"]);
    assert!(matches!(&steps[1], HelperStep::Fetch(w) if w == &["aa"]));
}

#[test]
fn a_batch_of_pushes() {
    let steps = run(&["push a:b", " push +c:d ", ""]);
    assert!(matches!(&steps[0], HelperStep::Unlock));
    assert!(matches!(&steps[1], HelperStep::Wait));
    assert!(matches!(&steps[2], HelperStep::Push(l) if l == &["push a:b", "push +c:d"]));
    let steps = run(&["push a:b"]);
    assert!(matches!(&steps[1], HelperStep::Push(l) if l == &["push a:b"]));
}

#[test]
fn refs_are_listed() {
    assert_eq!(list_reply(&vec![]), "\n");
    assert_eq!(
        list_reply(&vec![pair("refs/heads/main", "aa"), pair("refs/heads/master", "bb")]),
        "aa refs/heads/main\nbb refs/heads/master\n@refs/heads/main HEAD\n\n"
    );
    assert_eq!(
        list_reply(&vec![pair("refs/heads/master", "bb")]),
        "bb refs/heads/master\n@refs/heads/master HEAD\n\n"
    );
    assert_eq!(list_reply(&vec![pair("refs/heads/dev", "cc")]), "cc refs/heads/dev\n\n");
}

#[test]
fn push_specs_are_read() {
    let op = parse_push_spec("push +refs/heads/a:refs/heads/b").unwrap();
    assert!(op.force);
    assert_eq!(op.src_ref, "refs/heads/a");
    assert_eq!(op.dst_ref, "refs/heads/b");
    let op = parse_push_spec("push :x:y").unwrap();
    assert!(!op.force);
    assert_eq!((op.src_ref.as_str(), op.dst_ref.as_str()), ("", "x:y"));
    assert!(parse_push_spec("push nothing").is_none());
    let lines = vec!["push a:b".to_string(), "x".to_string(), "c:d".to_string()];
    assert_eq!(parse_push_specs(&lines).len(), 2);
}

#[test]
fn pushes_are_planned() {
    let remote = vec![pair("m", "old"), pair("m", "older"), pair("n", "x")];
    let op = parse_push_spec("push a:m").unwrap();
    match plan_push(&op, "new", &remote) {
        PushPlan::Update(u) => assert_eq!(fields(&u), ("m", Some("older"), "new")),
        PushPlan::Refuse(_) => panic!("refused"),
    }
    assert!(matches!(plan_push(&op, "", &remote), PushPlan::Refuse(l) if l == "error m cannot resolve ref"));
    let op = parse_push_spec("push :m").unwrap();
    assert!(matches!(plan_push(&op, "x", &remote), PushPlan::Refuse(l) if l == "error m delete not supported yet"));
    assert_eq!(push_result("m", &None), "ok m");
    assert_eq!(push_result("m", &Some("why".to_string())), "error m why");
}

#[test]
fn a_push_step_by_step() {
    let remote = vec![pair("m", "old")];
    let (stage, action) = begin_push(parse_push_spec("push a:m").unwrap());
    assert!(matches!(action, PushAction::Resolve(s) if s == "a"));
    let (stage, action) = advance_push(stage, PushEvent::Packed(vec![1]), &remote);
    assert!(matches!(action, PushAction::Nothing));
    let (stage, action) = advance_push(stage, PushEvent::Resolved(true, b"new\n".to_vec()), &remote);
    assert!(matches!(action, PushAction::List(a) if a == ["rev-list", "--objects", "new", "--not", "old"]));
    let (stage, action) = advance_push(stage, PushEvent::Listed(true, b"new\n".to_vec()), &remote);
    assert!(matches!(action, PushAction::Pack(s) if s == "new\n--not\nold\n"));
    let (stage, action) = advance_push(stage, PushEvent::Packed(vec![1, 2]), &remote);
    assert!(matches!(action, PushAction::Send(p, u) if p == [1, 2] && fields(&u) == ("m", Some("old"), "new")));
    let (stage, action) = advance_push(stage, PushEvent::Sent(None), &remote);
    assert!(matches!(action, PushAction::Report(l) if l == "ok m"));
    assert!(matches!(stage, PushStage::Finished));
}

#[test]
fn a_push_of_nothing_new() {
    let remote = vec![];
    let (stage, _) = begin_push(parse_push_spec("push a:m").unwrap());
    let (stage, action) = advance_push(stage, PushEvent::Resolved(true, b"new".to_vec()), &remote);
    assert!(matches!(action, PushAction::List(a) if a == ["rev-list", "--objects", "new"]));
    let (stage, action) = advance_push(stage, PushEvent::Listed(false, b"ignored".to_vec()), &remote);
    assert!(matches!(action, PushAction::Send(p, u) if p.is_empty() && fields(&u) == ("m", None, "new")));
    let (_, action) = advance_push(stage, PushEvent::Sent(Some("no".to_string())), &remote);
    assert!(matches!(action, PushAction::Report(l) if l == "error m no"));
    let (stage, action) = begin_push(parse_push_spec("push :m").unwrap());
    assert!(matches!(action, PushAction::Report(l) if l == "error m delete not supported yet"));
    assert!(matches!(stage, PushStage::Finished));
}

#[test]
fn what_git_says() {
    assert_eq!(rev_list_args("n", &None), ["rev-list", "--objects", "n"]);
    assert_eq!(collect_new_shas(true, b"aa\nbb path\r\n\n  cc x\n"), ["aa", "bb", "cc"]);
    assert!(collect_new_shas(false, b"aa\n").is_empty());
    assert_eq!(parse_first_words("one two\n\nthree"), ["one", "three"]);
    assert!(collect_new_shas(true, b"").is_empty());
    assert_eq!(pack_objects_input("n", &None), "n\n");
    assert_eq!(resolve_local_ref(true, b" aa \n"), "aa");
    assert_eq!(resolve_local_ref(false, b"aa"), "");
}

#[test]
fn the_network_and_the_key() {
    assert_eq!(default_rpc("mainnet"), "https://rpc.mainnet.fastnear.com");
    assert_eq!(default_rpc("testnet"), "https://rpc.testnet.fastnear.com");
    assert_eq!(default_rpc(""), "https://rpc.testnet.fastnear.com");
    let env = Some("env".to_string());
    assert_eq!(signer_account("me@repo", env.clone()), "me");
    assert_eq!(signer_account("repo", env), "env");
    assert_eq!(signer_account("repo", None), "repo");
    assert_eq!(credentials_path("/h", "testnet", "a.b"), "/h/.near-credentials/testnet/a.b.json");
    assert_eq!(private_key(b"{\"private_key\":\"k\"}").unwrap(), Some("k".to_string()));
    assert_eq!(private_key(b"{\"private_key\":1}").unwrap(), None);
    assert!(private_key(b"x").is_err());
}

#[test]
fn white_space_is_that_of_unicode() {
    for c in (0..0x3100u32).filter_map(char::from_u32) {
        let text = format!("{}x{}", c, c);
        let chars = chars_of(&text);
        assert_eq!(text_from(trim(&chars)), text.trim(), "{:?}", c);
    }
    let chars = chars_of(" one \u{2003}two ");
    assert_eq!(text_from(word(&chars, 0)), "one");
    assert_eq!(text_from(word(&chars, 1)), "two");
    assert_eq!(text_from(word(&chars, 2)), "");
}
