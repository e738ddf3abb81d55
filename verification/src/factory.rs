//! The factory contract, which creates repositories.

use crate::json::{
    ascending_keys_are_plain, field_at, field_views, field_views_index, json_text, text_at,
    text_field, write_json, Json, JsonView,
};
use crate::storage::{new_owner, SERVICE_FEE};
use crate::text::{hex_char, hex_digit_value, hex_text, hex_value, same_text, to_hex};
use std::collections::HashMap;
use vstd::prelude::*;
use vstd::string::*;
use vstd::utf8::encode_utf8;

verus! {

/// The gas for the call that sets up a new repository: ten teragas.
pub const SETUP_GAS: u64 = 10_000_000_000_000;

/// A request of a web page from the factory.
#[derive(Debug)]
pub struct Web4Request {
    /// The path of the page.
    pub path: String,
    /// Further parameters.
    pub params: HashMap<String, String>,
    /// The query behind the path.
    pub query: HashMap<String, Vec<String>>,
}

/// The answer to a request of a web page.
#[derive(Debug)]
pub enum Web4Response {
    /// A page.
    Body {
        /// Its media type.
        content_type: String,
        /// Its content in base64.
        body: String,
    },
}

/// What the factory asks for to create a repository: an account with funds, the global contract
/// code, and a call that sets it up.
#[derive(Debug)]
pub struct RepoCreation {
    /// The account that is created.
    pub account: String,
    /// What it is funded with, in yoctoNEAR.
    pub funding: u128,
    /// The hash of its code.
    pub code_hash: Vec<u8>,
    /// The method that sets it up.
    pub method: String,
    /// The arguments of that method.
    pub arguments: Vec<u8>,
    /// The deposit for that call, in yoctoNEAR.
    pub deposit: u128,
    /// The gas for that call.
    pub gas: u64,
}

/// A character that separates the parts of an account name.
pub open spec fn is_separator(c: char) -> bool {
    c == '-' || c == '_' || c == '.'
}

/// Whether a text is the name of an account: 2 to 64 lower-case letters, digits and separators,
/// where no separator is first, last or next to another.
pub open spec fn account_name(s: Seq<char>) -> bool {
    &&& 2 <= s.len() <= 64
    &&& forall|i: int|
        0 <= i < s.len() ==> 'a' <= #[trigger] s[i] <= 'z' || '0' <= s[i] <= '9' || is_separator(s[i])
    &&& !is_separator(s[0])
    &&& !is_separator(s.last())
    &&& forall|i: int| 0 < i < s.len() && is_separator(#[trigger] s[i]) ==> !is_separator(s[i - 1])
}

/// Whether `near_sdk::AccountId` can be parsed from a text. It checks the length, which it
/// takes in bytes, the characters, and where the separators are.
#[verifier::external_body]
fn is_account_name(s: &str) -> (r: bool)
    ensures
        r == account_name(s@),
{
    s.parse::<near_sdk::AccountId>().is_ok()
}

/// The byte that two hexadecimal digits stand for.
pub open spec fn hex_pair(a: u8, b: u8) -> Option<u8> {
    match (hex_value(a), hex_value(b)) {
        (Some(high), Some(low)) => Some((16 * high + low) as u8),
        _ => None,
    }
}

/// The bytes that pairs of hexadecimal digits stand for.
pub open spec fn hex_decoded(s: Seq<u8>) -> Option<Seq<u8>>
    decreases s.len(),
{
    if s.len() == 0 {
        Some(Seq::empty())
    } else if s.len() == 1 {
        None
    } else {
        match (hex_pair(s[0], s[1]), hex_decoded(s.skip(2))) {
            (Some(byte), Some(rest)) => Some(seq![byte] + rest),
            _ => None,
        }
    }
}

/// The hash of 32 bytes that a text stands for in hexadecimal, or what is wrong with the text.
pub open spec fn hash_of(text: Seq<char>) -> Result<Seq<u8>, Seq<char>> {
    match hex_decoded(encode_utf8(text)) {
        None => Err("Invalid hex in hash"@),
        Some(bytes) => if bytes.len() != 32 {
            Err("global_contract_hash must be 32 bytes (64 hex chars)"@)
        } else {
            Ok(bytes)
        },
    }
}

proof fn lemma_hex_text(bytes: Seq<u8>)
    ensures
        encode_utf8(hex_text(bytes)).len() == 2 * bytes.len(),
        forall|i: int|
            0 <= i < bytes.len() ==> #[trigger] encode_utf8(hex_text(bytes))[2 * i] == hex_char(
                bytes[i] as nat / 16,
            ) as u8 && encode_utf8(hex_text(bytes))[2 * i + 1] == hex_char(bytes[i] as nat % 16) as u8,
{
    let text = hex_text(bytes);
    assert(vstd::utf8::is_ascii_chars(text));
    vstd::utf8::is_ascii_chars_encode_utf8(text);
    assert forall|i: int| 0 <= i < bytes.len() implies #[trigger] encode_utf8(text)[2 * i] == hex_char(
        bytes[i] as nat / 16,
    ) as u8 && encode_utf8(text)[2 * i + 1] == hex_char(bytes[i] as nat % 16) as u8 by {
        assert(text[2 * i] == hex_char(bytes[i] as nat / 16));
        assert(text[2 * i + 1] == hex_char(bytes[i] as nat % 16));
    }
}

proof fn lemma_hex_decoded(s: Seq<u8>, bytes: Seq<u8>)
    requires
        s.len() == 2 * bytes.len(),
        forall|i: int|
            0 <= i < bytes.len() ==> #[trigger] s[2 * i] == hex_char(bytes[i] as nat / 16) as u8 && s[2 * i
                + 1] == hex_char(bytes[i] as nat % 16) as u8,
    ensures
        hex_decoded(s) == Some(bytes),
    decreases bytes.len(),
{
    if bytes.len() == 0 {
        assert(bytes =~= Seq::empty());
    } else {
        let (t, rest) = (s.skip(2), bytes.drop_first());
        assert(s[2 * 0int] == hex_char(bytes[0] as nat / 16) as u8);
        assert forall|i: int| 0 <= i < rest.len() implies #[trigger] t[2 * i] == hex_char(
            rest[i] as nat / 16,
        ) as u8 && t[2 * i + 1] == hex_char(rest[i] as nat % 16) as u8 by {
            assert(s[2 * (i + 1)] == hex_char(bytes[i + 1] as nat / 16) as u8);
        }
        lemma_hex_decoded(t, rest);
        assert(seq![bytes[0]] + rest =~= bytes);
    }
}

/// Bytes in hexadecimal decode to the bytes.
pub proof fn hex_reads_back(bytes: Seq<u8>)
    ensures
        hex_decoded(encode_utf8(hex_text(bytes))) == Some(bytes),
{
    lemma_hex_text(bytes);
    lemma_hex_decoded(encode_utf8(hex_text(bytes)), bytes);
}

/// What decodes from hexadecimal has a byte for every two digits, the value of the first counting
/// sixteen times.
pub proof fn hex_is_read_in_pairs(s: Seq<u8>, i: int)
    requires
        hex_decoded(s) is Some,
        0 <= i < hex_decoded(s)->0.len(),
    ensures
        s.len() == 2 * hex_decoded(s)->0.len(),
        hex_value(s[2 * i]) matches Some(high) && hex_value(s[2 * i + 1]) matches Some(low)
            && hex_decoded(s)->0[i] == 16 * high + low,
    decreases s.len(),
{
    let rest = s.skip(2);
    assert(s.len() >= 2);
    if i > 0 {
        hex_is_read_in_pairs(rest, i - 1);
        assert(rest[2 * (i - 1)] == s[2 * i]);
        assert(rest[2 * (i - 1) + 1] == s[2 * i + 1]);
        assert((seq![hex_pair(s[0], s[1])->0] + hex_decoded(rest)->0)[i] == hex_decoded(rest)->0[i
            - 1]);
    } else if rest.len() > 0 {
        hex_is_read_in_pairs(rest, 0);
    }
}

/// A hash that is given in the lower-case hexadecimal of 32 bytes is these bytes, so what
/// `get_global_contract_hash` returns is what was set.
pub proof fn hash_reads_back(bytes: Seq<u8>)
    requires
        bytes.len() == 32,
    ensures
        hash_of(hex_text(bytes)) == Ok::<Seq<u8>, Seq<char>>(bytes),
{
    lemma_hex_text(bytes);
    lemma_hex_decoded(encode_utf8(hex_text(bytes)), bytes);
}

/// The factory that creates repositories, all with the same code.
pub struct GitFactory {
    global_contract_hash: Vec<u8>,
    owner: String,
}

/// The model of the factory.
#[verifier::ext_equal]
pub struct FactoryView {
    /// The hash of the code that new repositories get.
    pub hash: Seq<u8>,
    /// The account that owns the factory.
    pub owner: Seq<char>,
}

impl View for GitFactory {
    type V = FactoryView;

    closed spec fn view(&self) -> FactoryView {
        FactoryView { hash: self.global_contract_hash@, owner: self.owner@ }
    }
}

/// The account of a repository.
pub open spec fn repo_account(repo_name: Seq<char>, factory: Seq<char>) -> Seq<char> {
    repo_name + "."@ + factory
}

/// Why a repository is not created, if it is not.
pub open spec fn creation_refusal(
    repo_name: Seq<char>,
    factory: Seq<char>,
    deposit: u128,
) -> Option<Seq<char>> {
    if !account_name(repo_account(repo_name, factory)) {
        Some("Invalid repo name"@)
    } else if deposit <= SERVICE_FEE {
        Some("Attach more than 0.1 NEAR (0.1 service fee + storage funding)"@)
    } else {
        None
    }
}

/// What a new repository is set up with, as JSON: the factory and the owner.
pub open spec fn setup_json(caller: Seq<char>, factory: Seq<char>) -> JsonView {
    JsonView::Record(
        seq![("factory"@, JsonView::Text(factory)), ("owner"@, JsonView::Text(caller))],
    )
}

/// Writes what a new repository is set up with.
fn write_setup(caller: &str, factory: &str) -> (r: String)
    ensures
        r@ == json_text(setup_json(caller@, factory@)),
{
    let fields = vec![text_field("factory", factory), text_field("owner", caller)];
    proof {
        reveal_strlit("factory");
        reveal_strlit("owner");
        field_views_index(fields@);
        ascending_keys_are_plain(field_views(fields@));
        assert(field_views(fields@) =~= setup_json(caller@, factory@)->Record_0);
    }
    write_json(&Json::Record(fields))
}

/// A repository is refused just when its account, the name of the repository, a dot and the account
/// of the factory, is none that can be, or no more than a tenth of a NEAR is attached.
pub proof fn creation_is_refused_exactly(repo_name: Seq<char>, factory: Seq<char>, deposit: u128)
    ensures
        repo_account(repo_name, factory) == repo_name + seq!['.'] + factory,
        creation_refusal(repo_name, factory, deposit) is None <==> account_name(
            repo_name + seq!['.'] + factory,
        ) && deposit > 100_000_000_000_000_000_000_000,
        creation_refusal(repo_name, factory, deposit) == Some("Invalid repo name"@)
            || creation_refusal(repo_name, factory, deposit) is None || account_name(
            repo_name + seq!['.'] + factory,
        ),
{
    reveal_strlit(".");
    assert("."@ =~= seq!['.']);
}

/// A hash is taken just when it is 64 hexadecimal digits.
pub proof fn hash_has_64_digits(text: Seq<char>)
    ensures
        hash_of(text) is Ok ==> encode_utf8(text).len() == 64 && forall|i: int|
            0 <= i < 64 ==> hex_value(#[trigger] encode_utf8(text)[i]) is Some,
        encode_utf8(text).len() == 64 && (forall|i: int|
            0 <= i < 64 ==> hex_value(#[trigger] encode_utf8(text)[i]) is Some) ==> hash_of(text) is Ok,
{
    let s = encode_utf8(text);
    if hash_of(text) is Ok {
        hex_is_read_in_pairs(s, 0);
        assert forall|i: int| 0 <= i < 64 implies hex_value(#[trigger] s[i]) is Some by {
            hex_is_read_in_pairs(s, i / 2);
            assert(i == 2 * (i / 2) || i == 2 * (i / 2) + 1);
        }
    }
    if s.len() == 64 && forall|i: int| 0 <= i < 64 ==> hex_value(#[trigger] s[i]) is Some {
        lemma_all_digits(s);
    }
}

proof fn lemma_all_digits(s: Seq<u8>)
    requires
        s.len() % 2 == 0,
        forall|i: int| 0 <= i < s.len() ==> hex_value(#[trigger] s[i]) is Some,
    ensures
        hex_decoded(s) matches Some(bytes) && 2 * bytes.len() == s.len(),
    decreases s.len(),
{
    if s.len() > 0 {
        let rest = s.skip(2);
        assert forall|i: int| 0 <= i < rest.len() implies hex_value(#[trigger] rest[i]) is Some by {
            assert(hex_value(s[i + 2]) is Some);
        }
        lemma_all_digits(rest);
        assert(hex_value(s[0]) is Some && hex_value(s[1]) is Some);
    }
}

impl GitFactory {
    /// Whether the hash has its 32 bytes.
    pub open spec fn wf(&self) -> bool {
        self@.hash.len() == 32
    }

    /// Decodes hexadecimal.
    fn decode_hex(hex: &str) -> (r: Result<Vec<u8>, String>)
        ensures
            match hex_decoded(encode_utf8(hex@)) {
                Some(bytes) => r matches Ok(v) && v@ == bytes,
                None => r matches Err(e) && e@ == "Invalid hex in hash"@,
            },
    {
        let s = hex.as_bytes();
        let mut bytes: Vec<u8> = Vec::new();
        let mut i: usize = 0;
        assert(s@.skip(0) =~= s@);
        assert(match hex_decoded(s@) {
            Some(b) => hex_decoded(s@) == Some(bytes@ + b),
            None => true,
        }) by {
            if let Some(b) = hex_decoded(s@) {
                assert(bytes@ + b =~= b);
            }
        }
        while i < s.len()
            invariant
                i <= s@.len(),
                s@ == encode_utf8(hex@),
                match hex_decoded(s@.skip(i as int)) {
                    Some(b) => hex_decoded(s@) == Some(bytes@ + b),
                    None => hex_decoded(s@) is None,
                },
            decreases s@.len() - i,
        {
            let ghost rest = s@.skip(i as int);
            if s.len() - i < 2 {
                return Err("Invalid hex in hash".to_owned());
            }
            assert(rest.skip(2) =~= s@.skip(i + 2));
            let low: u8 = match hex_digit_value(s[i + 1]) {
                Some(v) => v,
                None => {
                    return Err("Invalid hex in hash".to_owned());
                },
            };
            let high: u8 = match hex_digit_value(s[i]) {
                Some(v) => v,
                None => {
                    return Err("Invalid hex in hash".to_owned());
                },
            };
            let byte: u8 = 16 * high + low;
            let ghost before = bytes@;
            bytes.push(byte);
            i += 2;
            proof {
                if let Some(b) = hex_decoded(s@.skip(i as int)) {
                    assert(before + (seq![byte] + b) =~= bytes@ + b);
                }
            }
        }
        assert(bytes@ + Seq::empty() =~= bytes@);
        Ok(bytes)
    }

    /// Decodes a hash.
    fn decode_hash(text: &str) -> (r: Result<Vec<u8>, String>)
        ensures
            match hash_of(text@) {
                Ok(bytes) => r matches Ok(v) && v@ == bytes,
                Err(m) => r matches Err(e) && e@ == m,
            },
    {
        match GitFactory::decode_hex(text) {
            Err(e) => Err(e),
            Ok(hash) => {
                if hash.len() != 32 {
                    Err("global_contract_hash must be 32 bytes (64 hex chars)".to_owned())
                } else {
                    Ok(hash)
                }
            },
        }
    }

    /// A factory that its creator owns.
    pub fn new(predecessor: String, global_contract_hash: String) -> (r: Result<GitFactory, String>)
        ensures
            match hash_of(global_contract_hash@) {
                Ok(bytes) => r matches Ok(f) && f.wf() && f@ == (FactoryView {
                    hash: bytes,
                    owner: predecessor@,
                }),
                Err(m) => r matches Err(e) && e@ == m,
            },
    {
        match GitFactory::decode_hash(global_contract_hash.as_str()) {
            Err(e) => Err(e),
            Ok(hash) => Ok(GitFactory { global_contract_hash: hash, owner: predecessor }),
        }
    }

    /// What creates a repository as a sub-account of the factory, owned by the caller. The fee
    /// is kept, and the rest of the deposit funds the new account.
    pub fn create_repo(
        &self,
        caller: &str,
        repo_name: String,
        factory_account: &str,
        deposit: u128,
    ) -> (r: Result<RepoCreation, String>)
        ensures
            match creation_refusal(repo_name@, factory_account@, deposit) {
                Some(m) => r matches Err(e) && e@ == m,
                None => r matches Ok(c) && c.account@ == repo_account(repo_name@, factory_account@)
                    && c.funding == deposit - SERVICE_FEE && c.code_hash@ == self@.hash && c.method@
                    == "new"@ && c.arguments@ == encode_utf8(
                    json_text(setup_json(caller@, factory_account@)),
                ) && c.deposit == 0 && c.gas == SETUP_GAS,
            },
    {
        let mut account = repo_name.clone();
        account.append(".");
        account.append(factory_account);
        if !is_account_name(account.as_str()) {
            return Err("Invalid repo name".to_owned());
        }
        if deposit <= SERVICE_FEE {
            return Err(
                "Attach more than 0.1 NEAR (0.1 service fee + storage funding)".to_owned(),
            );
        }
        let setup = write_setup(caller, factory_account);
        Ok(
            RepoCreation {
                account,
                funding: deposit - SERVICE_FEE,
                code_hash: crate::object::copy_bytes(&self.global_contract_hash),
                method: "new".to_owned(),
                arguments: crate::object::copy_bytes(setup.as_str().as_bytes()),
                deposit: 0,
                gas: SETUP_GAS,
            },
        )
    }

    /// Sets the hash of the code that repositories get from now on. Only the owner may.
    pub fn set_global_contract_hash(
        &mut self,
        caller: &str,
        global_contract_hash: String,
    ) -> (r: Result<(), String>)
        ensures
            if caller@ != old(self)@.owner {
                (r matches Err(e) && e@ == "Only the factory owner can update the global contract hash"@)
                    && final(self)@ == old(self)@
            } else {
                match hash_of(global_contract_hash@) {
                    Ok(bytes) => r is Ok && final(self)@ == (FactoryView {
                        hash: bytes,
                        owner: old(self)@.owner,
                    }),
                    Err(m) => (r matches Err(e) && e@ == m) && final(self)@ == old(self)@,
                }
            },
            old(self).wf() ==> final(self).wf(),
    {
        if !same_text(caller, self.owner.as_str()) {
            return Err("Only the factory owner can update the global contract hash".to_owned());
        }
        match GitFactory::decode_hash(global_contract_hash.as_str()) {
            Err(e) => Err(e),
            Ok(hash) => {
                self.global_contract_hash = hash;
                Ok(())
            },
        }
    }

    /// The hash of the code that new repositories get, in hexadecimal.
    pub fn get_global_contract_hash(&self) -> (r: String)
        ensures
            r@ == hex_text(self@.hash),
    {
        to_hex(&self.global_contract_hash)
    }

    /// The account that owns the factory.
    pub fn get_owner(&self) -> (r: String)
        ensures
            r@ == self@.owner,
    {
        self.owner.clone()
    }

    /// The page on which repositories are created, whatever the request. `page` is its content
    /// in base64.
    pub fn web4_get(&self, request: Web4Request, page: &str) -> (r: Web4Response)
        ensures
            r matches Web4Response::Body { content_type, body } && content_type@ == "text/html"@ && body@
                == page@,
    {
        Web4Response::Body { content_type: "text/html".to_owned(), body: page.to_owned() }
    }
}

/// A repository that the factory sets up belongs to the caller of `create_repo`, whoever signed,
/// and nobody but the factory can set one up with the same arguments.
pub proof fn creation_is_owned(
    caller: Seq<char>,
    factory: Seq<char>,
    predecessor: Seq<char>,
    signer: Seq<char>,
)
    ensures
        ({
            let setup = setup_json(caller, factory);
            let owner = new_owner(
                predecessor,
                text_at(setup, "owner"@),
                text_at(setup, "factory"@),
                signer,
            );
            if predecessor == factory {
                owner == Ok::<Seq<char>, Seq<char>>(caller)
            } else {
                owner is Err
            }
        }),
{
    reveal_strlit("factory");
    reveal_strlit("owner");
    reveal_with_fuel(field_at, 2);
    assert("factory"@.len() != "owner"@.len());
}

/// A repository's account ends in that of the factory, and what is paid for it is the fee and
/// its funds, of which there are some.
pub proof fn creation_is_funded(repo_name: Seq<char>, factory: Seq<char>, deposit: u128)
    requires
        creation_refusal(repo_name, factory, deposit) is None,
    ensures
        deposit - SERVICE_FEE > 0,
        account_name(repo_account(repo_name, factory)),
        repo_account(repo_name, factory).skip(repo_name.len() as int + 1) == factory,
        repo_name.len() > 0,
{
    reveal_strlit(".");
    let account = repo_account(repo_name, factory);
    assert(account.skip(repo_name.len() as int + 1) =~= factory);
    if repo_name.len() == 0 {
        assert(account[0] == '.');
    }
}

} // verus!
