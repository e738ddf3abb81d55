//! Signed transactions.

use crate::delta::push_bytes;
use crate::digest::{sha256_digest, sha256_of};
use crate::encoding::{
    amount_fault, amount_of, base58_bytes, base58_fault, base64_bytes, base64_reads_back,
    base64_text, borsh_write_string, counted, from_base58, le_bytes, le_bytes_read_back, le_value,
    lemma_widths, parse_amount, push_counted, push_le, to_base64,
};
use crate::object::copy_bytes;
use crate::text::{decimal, push_decimal};
use ed25519_dalek::Signer;
use vstd::prelude::*;
use vstd::string::*;
use vstd::utf8::{decode_utf8, encode_utf8};

verus! {

/// What is wrong with a key pair, as `ed25519_dalek::SigningKey::from_keypair_bytes` has it;
/// `None` for one whose public half belongs to its secret half.
pub uninterp spec fn keypair_fault(pair: Seq<u8>) -> Option<Seq<char>>;

/// The Ed25519 signature of a message with a secret key, as `ed25519_dalek::SigningKey::sign`
/// computes it.
pub uninterp spec fn ed25519_signature(secret: Seq<u8>, message: Seq<u8>) -> Seq<u8>;

/// `ed25519_dalek::SigningKey::from_keypair_bytes`: the secret key of a pair is its first half.
/// The error is that of ed25519_dalek as text.
#[verifier::external_body]
fn keypair_secret(pair: &[u8]) -> (r: Result<Vec<u8>, String>)
    requires
        pair@.len() == 64,
    ensures
        match keypair_fault(pair@) {
            None => r matches Ok(secret) && secret@ == pair@.take(32),
            Some(m) => r matches Err(e) && e@ == m,
        },
{
    ed25519_dalek::SigningKey::from_keypair_bytes(pair.try_into().unwrap())
        .map(|key| key.to_bytes().to_vec())
        .map_err(|e| e.to_string())
}

/// `ed25519_dalek::SigningKey::sign`, with the key of these 32 bytes: a function of the key and
/// the message, 64 bytes long.
#[verifier::external_body]
fn ed25519_sign(secret: &[u8], message: &[u8]) -> (r: Vec<u8>)
    requires
        secret@.len() == 32,
    ensures
        r@ == ed25519_signature(secret@, message@),
        r@.len() == 64,
{
    let key = ed25519_dalek::SigningKey::from_bytes(secret.try_into().unwrap());
    key.sign(message).to_bytes().to_vec()
}

/// A transaction that calls one function, as borsh writes it.
pub open spec fn call_bytes(
    signer_id: Seq<char>,
    public_key: Seq<u8>,
    nonce: u64,
    receiver_id: Seq<char>,
    block_hash: Seq<u8>,
    method_name: Seq<char>,
    args: Seq<char>,
    gas: u64,
    deposit: u128,
) -> Seq<u8> {
    counted(encode_utf8(signer_id)) + seq![0u8] + public_key + le_bytes(nonce as nat, 8) + counted(
        encode_utf8(receiver_id),
    ) + block_hash + le_bytes(1, 4) + seq![2u8] + counted(encode_utf8(method_name)) + counted(
        encode_utf8(args),
    ) + le_bytes(gas as nat, 8) + le_bytes(deposit as nat, 16)
}

/// A transaction with its signature.
pub open spec fn signed_bytes(transaction: Seq<u8>, signature: Seq<u8>) -> Seq<u8> {
    transaction + seq![0u8] + signature
}

/// The secret key in a private key of 32 or 64 bytes, or what is wrong with it.
pub open spec fn secret_of(private_key: Seq<char>) -> Result<Seq<u8>, Seq<char>> {
    match base58_bytes(private_key) {
        None => Err("bad private key: "@ + base58_fault(private_key)),
        Some(key) => if key.len() == 64 {
            match keypair_fault(key) {
                None => Ok(key.take(32)),
                Some(m) => Err("bad keypair: "@ + m),
            }
        } else if key.len() == 32 {
            Ok(key)
        } else {
            Err(
                "unexpected key length: "@ + decimal(key.len()) + " (expected 32 or 64)"@,
            )
        },
    }
}

/// The public key, or what is wrong with it.
pub open spec fn public_key_of(public_key: Seq<char>) -> Result<Seq<u8>, Seq<char>> {
    match base58_bytes(public_key) {
        None => Err("bad public key: "@ + base58_fault(public_key)),
        Some(key) => Ok(key),
    }
}

/// The block hash, or what is wrong with it.
pub open spec fn block_hash_of(block_hash: Seq<char>) -> Result<Seq<u8>, Seq<char>> {
    match base58_bytes(block_hash) {
        None => Err("bad block hash: "@ + base58_fault(block_hash)),
        Some(hash) => if hash.len() != 32 {
            Err("block hash must be 32 bytes, got "@ + decimal(hash.len()))
        } else {
            Ok(hash)
        },
    }
}

/// The deposit, or what is wrong with it.
pub open spec fn deposit_of(deposit: Seq<char>) -> Result<u128, Seq<char>> {
    match amount_of(deposit) {
        Some(n) => Ok(n),
        None => Err("bad deposit: "@ + amount_fault(deposit)),
    }
}

/// A signed transaction in base64, or what is wrong with the first of its parts that something
/// is wrong with.
pub open spec fn signed_transaction(
    signer_id: Seq<char>,
    public_key: Seq<char>,
    private_key: Seq<char>,
    receiver_id: Seq<char>,
    method_name: Seq<char>,
    args: Seq<char>,
    nonce: u64,
    block_hash: Seq<char>,
    gas: u64,
    deposit: Seq<char>,
) -> Result<Seq<char>, Seq<char>> {
    match (
        secret_of(private_key),
        public_key_of(public_key),
        block_hash_of(block_hash),
        deposit_of(deposit),
    ) {
        (Err(m), _, _, _) => Err(m),
        (_, Err(m), _, _) => Err(m),
        (_, _, Err(m), _) => Err(m),
        (_, _, _, Err(m)) => Err(m),
        (Ok(secret), Ok(key), Ok(hash), Ok(amount)) => {
            let transaction = call_bytes(
                signer_id,
                key,
                nonce,
                receiver_id,
                hash,
                method_name,
                args,
                gas,
                amount,
            );
            Ok(
                base64_text(
                    signed_bytes(transaction, ed25519_signature(secret, sha256_of(transaction))),
                ),
            )
        },
    }
}

/// Where the fields of a call are in its bytes.
pub open spec fn call_places(
    signer_id: Seq<char>,
    public_key: Seq<u8>,
    receiver_id: Seq<char>,
    block_hash: Seq<u8>,
    method_name: Seq<char>,
    args: Seq<char>,
) -> CallPlaces {
    let key = 5 + encode_utf8(signer_id).len();
    let nonce = key + public_key.len();
    let receiver = nonce + 12;
    let hash = receiver + encode_utf8(receiver_id).len();
    let count = hash + block_hash.len();
    let method = count + 9;
    let arguments = method + encode_utf8(method_name).len() + 4;
    let gas = arguments + encode_utf8(args).len();
    CallPlaces {
        key: key as int,
        nonce: nonce as int,
        receiver: receiver as int,
        hash: hash as int,
        count: count as int,
        method: method as int,
        arguments: arguments as int,
        gas: gas as int,
    }
}

/// The places at which the fields of a call start.
pub struct CallPlaces {
    /// The public key.
    pub key: int,
    /// The nonce, of eight bytes.
    pub nonce: int,
    /// The receiver, behind its length in four bytes.
    pub receiver: int,
    /// The block hash.
    pub hash: int,
    /// The number of actions, in four bytes.
    pub count: int,
    /// The name of the method, behind its length in four bytes.
    pub method: int,
    /// The arguments, behind their length in four bytes.
    pub arguments: int,
    /// The gas, of eight bytes, and the deposit, of sixteen.
    pub gas: int,
}

/// A call reads back: whoever takes its fields off the bytes in turn, each text and the arguments
/// with their lengths in front, gets those that were given, for every nonce, gas and deposit.
pub proof fn call_reads_back(
    signer_id: Seq<char>,
    public_key: Seq<u8>,
    nonce: u64,
    receiver_id: Seq<char>,
    block_hash: Seq<u8>,
    method_name: Seq<char>,
    args: Seq<char>,
    gas: u64,
    deposit: u128,
)
    requires
        encode_utf8(signer_id).len() <= u32::MAX,
        encode_utf8(receiver_id).len() <= u32::MAX,
        encode_utf8(method_name).len() <= u32::MAX,
        encode_utf8(args).len() <= u32::MAX,
    ensures
        ({
            let r = call_bytes(
                signer_id,
                public_key,
                nonce,
                receiver_id,
                block_hash,
                method_name,
                args,
                gas,
                deposit,
            );
            let at = call_places(
                signer_id,
                public_key,
                receiver_id,
                block_hash,
                method_name,
                args,
            );
            &&& le_value(r.subrange(0, 4)) == encode_utf8(signer_id).len()
            &&& r.subrange(4, at.key - 1) == encode_utf8(signer_id)
            &&& r[at.key - 1] == 0
            &&& r.subrange(at.key, at.nonce) == public_key
            &&& le_value(r.subrange(at.nonce, at.nonce + 8)) == nonce
            &&& le_value(r.subrange(at.receiver - 4, at.receiver)) == encode_utf8(receiver_id).len()
            &&& r.subrange(at.receiver, at.hash) == encode_utf8(receiver_id)
            &&& r.subrange(at.hash, at.count) == block_hash
            &&& le_value(r.subrange(at.count, at.count + 4)) == 1
            &&& r[at.count + 4] == 2
            &&& le_value(r.subrange(at.method - 4, at.method)) == encode_utf8(method_name).len()
            &&& r.subrange(at.method, at.arguments - 4) == encode_utf8(method_name)
            &&& le_value(r.subrange(at.arguments - 4, at.arguments)) == encode_utf8(args).len()
            &&& r.subrange(at.arguments, at.gas) == encode_utf8(args)
            &&& le_value(r.subrange(at.gas, at.gas + 8)) == gas
            &&& le_value(r.subrange(at.gas + 8, at.gas + 24)) == deposit
            &&& r.len() == at.gas + 24
        }),
{
    let r = call_bytes(
        signer_id,
        public_key,
        nonce,
        receiver_id,
        block_hash,
        method_name,
        args,
        gas,
        deposit,
    );
    let at = call_places(signer_id, public_key, receiver_id, block_hash, method_name, args);
    let (a, b, m, c) = (
        counted(encode_utf8(signer_id)),
        counted(encode_utf8(receiver_id)),
        counted(encode_utf8(method_name)),
        counted(encode_utf8(args)),
    );
    lemma_counted_parts(encode_utf8(signer_id));
    lemma_counted_parts(encode_utf8(receiver_id));
    lemma_counted_parts(encode_utf8(method_name));
    lemma_counted_parts(encode_utf8(args));
    lemma_widths(1, nonce, deposit);
    lemma_widths(1, gas, deposit);
    le_bytes_read_back(1, 4);
    le_bytes_read_back(nonce as nat, 8);
    le_bytes_read_back(gas as nat, 8);
    le_bytes_read_back(deposit as nat, 16);
    let (n, one, g, d) = (
        le_bytes(nonce as nat, 8),
        le_bytes(1, 4),
        le_bytes(gas as nat, 8),
        le_bytes(deposit as nat, 16),
    );
    let p0 = a + seq![0u8];
    let p1 = p0 + public_key;
    let p2 = p1 + n;
    let p3 = p2 + b;
    let p4 = p3 + block_hash;
    let p5 = p4 + one;
    let p6 = p5 + seq![2u8];
    let p7 = p6 + m;
    let p8 = p7 + c;
    let p9 = p8 + g;
    assert(r == p9 + d);
    assert(r.take(r.len() as int) =~= r);
    lemma_field(p9, d, r);
    lemma_field(p8, g, r);
    lemma_field(p7, c, r);
    lemma_field(p6, m, r);
    lemma_field(p5, seq![2u8], r);
    lemma_field(p4, one, r);
    lemma_field(p3, block_hash, r);
    lemma_field(p2, b, r);
    lemma_field(p1, n, r);
    lemma_field(p0, public_key, r);
    lemma_field(a, seq![0u8], r);
    lemma_within(r, 0, a);
    lemma_within(r, p2.len() as int, b);
    lemma_within(r, p6.len() as int, m);
    lemma_within(r, p7.len() as int, c);
    assert(r.subrange(a.len() as int, a.len() as int + 1)[0] == r[a.len() as int]);
    assert(r.subrange(p5.len() as int, p5.len() as int + 1)[0] == r[p5.len() as int]);
    assert(r.subrange(0, a.len() as int) =~= r.take(a.len() as int));
}

/// A field behind the fields before it is where these end.
proof fn lemma_field(before: Seq<u8>, field: Seq<u8>, all: Seq<u8>)
    requires
        before.len() + field.len() <= all.len(),
        all.take((before + field).len() as int) == before + field,
    ensures
        all.take(before.len() as int) == before,
        all.subrange(before.len() as int, (before.len() + field.len()) as int) == field,
{
    let front = all.take((before + field).len() as int);
    assert(all.take(before.len() as int) =~= front.take(before.len() as int));
    assert((before + field).take(before.len() as int) =~= before);
    assert(all.subrange(before.len() as int, (before.len() + field.len()) as int) =~= front.skip(
        before.len() as int,
    ));
    assert((before + field).skip(before.len() as int) =~= field);
}

/// A field with its length in front: the length, and what it is the length of.
proof fn lemma_within(all: Seq<u8>, at: int, field: Seq<u8>)
    requires
        0 <= at,
        4 <= field.len(),
        at + field.len() <= all.len(),
        all.subrange(at, at + field.len()) == field,
    ensures
        all.subrange(at, at + 4) == field.take(4),
        all.subrange(at + 4, at + field.len()) == field.skip(4),
{
    let part = all.subrange(at, at + field.len());
    assert(all.subrange(at, at + 4) =~= part.take(4));
    assert(all.subrange(at + 4, at + field.len()) =~= part.skip(4));
}

proof fn lemma_counted_parts(bytes: Seq<u8>)
    requires
        bytes.len() <= u32::MAX,
    ensures
        counted(bytes).len() == bytes.len() + 4,
        le_value(counted(bytes).take(4)) == bytes.len(),
        counted(bytes).skip(4) == bytes,
{
    lemma_widths(bytes.len(), 0, 0);
    le_bytes_read_back(bytes.len(), 4);
    assert(counted(bytes).take(4) =~= le_bytes(bytes.len(), 4));
    assert(counted(bytes).skip(4) =~= bytes);
}

/// Calls with the same bytes ask for the same: two that differ in a name, a key, the nonce, the
/// block, the arguments, the gas or the deposit differ in their bytes.
pub proof fn calls_are_unique(
    first: (Seq<char>, Seq<u8>, u64, Seq<char>, Seq<u8>, Seq<char>, Seq<char>, u64, u128),
    second: (Seq<char>, Seq<u8>, u64, Seq<char>, Seq<u8>, Seq<char>, Seq<char>, u64, u128),
)
    requires
        forall|t: Seq<char>|
            t == first.0 || t == first.3 || t == first.5 || t == first.6 || t == second.0 || t
                == second.3 || t == second.5 || t == second.6 ==> #[trigger] encode_utf8(t).len()
                <= u32::MAX,
        first.1.len() == second.1.len(),
        first.4.len() == second.4.len(),
        call_bytes(
            first.0,
            first.1,
            first.2,
            first.3,
            first.4,
            first.5,
            first.6,
            first.7,
            first.8,
        ) == call_bytes(
            second.0,
            second.1,
            second.2,
            second.3,
            second.4,
            second.5,
            second.6,
            second.7,
            second.8,
        ),
    ensures
        first == second,
{
    broadcast use vstd::utf8::encode_utf8_decode_utf8;

    let (f, s) = (first, second);
    call_reads_back(f.0, f.1, f.2, f.3, f.4, f.5, f.6, f.7, f.8);
    call_reads_back(s.0, s.1, s.2, s.3, s.4, s.5, s.6, s.7, s.8);
    assert(f.0 == decode_utf8(encode_utf8(f.0)) && s.0 == decode_utf8(encode_utf8(s.0)));
    assert(f.3 == decode_utf8(encode_utf8(f.3)) && s.3 == decode_utf8(encode_utf8(s.3)));
    assert(f.5 == decode_utf8(encode_utf8(f.5)) && s.5 == decode_utf8(encode_utf8(s.5)));
    assert(f.6 == decode_utf8(encode_utf8(f.6)) && s.6 == decode_utf8(encode_utf8(s.6)));
}

/// The private key of a signed transaction: the bytes that it holds in base58, or the first half
/// of them where they are a pair of keys that belong together.
pub open spec fn signs_with(private_key: Seq<char>, secret: Seq<u8>) -> bool {
    &&& secret.len() == 32
    &&& base58_bytes(private_key) matches Some(key) && (key == secret || key.len() == 64
        && keypair_fault(key) is None && key.take(32) == secret)
}

/// A transaction is signed whenever its keys, its block hash and its deposit can be read, and
/// then it holds in base64 the call, a zero byte and the signature of the call's digest.
pub proof fn transaction_is_signed(
    signer_id: Seq<char>,
    public_key: Seq<char>,
    private_key: Seq<char>,
    receiver_id: Seq<char>,
    method_name: Seq<char>,
    args: Seq<char>,
    nonce: u64,
    block_hash: Seq<char>,
    gas: u64,
    deposit: Seq<char>,
    secret: Seq<u8>,
    key: Seq<u8>,
    hash: Seq<u8>,
    amount: u128,
)
    requires
        signs_with(private_key, secret),
        base58_bytes(public_key) == Some(key),
        base58_bytes(block_hash) == Some(hash),
        hash.len() == 32,
        amount_of(deposit) == Some(amount),
    ensures
        ({
            let call = call_bytes(
                signer_id,
                key,
                nonce,
                receiver_id,
                hash,
                method_name,
                args,
                gas,
                amount,
            );
            let signed = signed_transaction(
                signer_id,
                public_key,
                private_key,
                receiver_id,
                method_name,
                args,
                nonce,
                block_hash,
                gas,
                deposit,
            );
            &&& signed is Ok
            &&& base64_bytes(signed->Ok_0) == call + seq![0u8] + ed25519_signature(
                secret,
                sha256_of(call),
            )
        }),
{
    let call = call_bytes(
        signer_id,
        key,
        nonce,
        receiver_id,
        hash,
        method_name,
        args,
        gas,
        amount,
    );
    base64_reads_back(call + seq![0u8] + ed25519_signature(secret, sha256_of(call)));
}

/// No transaction is signed where a key, the block hash or the deposit cannot be read.
pub proof fn faulty_transaction_is_refused(
    signer_id: Seq<char>,
    public_key: Seq<char>,
    private_key: Seq<char>,
    receiver_id: Seq<char>,
    method_name: Seq<char>,
    args: Seq<char>,
    nonce: u64,
    block_hash: Seq<char>,
    gas: u64,
    deposit: Seq<char>,
)
    requires
        (forall|secret: Seq<u8>| !signs_with(private_key, secret)) || base58_bytes(public_key) is None
            || !(base58_bytes(block_hash) matches Some(hash) && hash.len() == 32) || amount_of(
            deposit,
        ) is None,
    ensures
        signed_transaction(
            signer_id,
            public_key,
            private_key,
            receiver_id,
            method_name,
            args,
            nonce,
            block_hash,
            gas,
            deposit,
        ) is Err,
{
    if let Ok(secret) = secret_of(private_key) {
        assert(signs_with(private_key, secret));
    }
}

/// `message` with `detail` behind it.
fn with_detail(message: &str, detail: &str) -> (r: String)
    ensures
        r@ == message@ + detail@,
{
    let mut m = message.to_owned();
    m.append(detail);
    m
}

fn decode_secret(private_key: &str) -> (r: Result<Vec<u8>, String>)
    ensures
        match secret_of(private_key@) {
            Ok(secret) => r matches Ok(v) && v@ == secret && secret.len() == 32,
            Err(m) => r matches Err(e) && e@ == m,
        },
{
    let key = match from_base58(private_key) {
        Err(e) => {
            return Err(with_detail("bad private key: ", e.as_str()));
        },
        Ok(key) => key,
    };
    if key.len() == 64 {
        match keypair_secret(&key) {
            Err(e) => Err(with_detail("bad keypair: ", e.as_str())),
            Ok(secret) => Ok(secret),
        }
    } else if key.len() == 32 {
        Ok(key)
    } else {
        let mut m = "unexpected key length: ".to_owned();
        push_decimal(&mut m, key.len() as u64);
        m.append(" (expected 32 or 64)");
        Err(m)
    }
}

fn decode_block_hash(block_hash: &str) -> (r: Result<Vec<u8>, String>)
    ensures
        match block_hash_of(block_hash@) {
            Ok(hash) => r matches Ok(v) && v@ == hash,
            Err(m) => r matches Err(e) && e@ == m,
        },
{
    match from_base58(block_hash) {
        Err(e) => Err(with_detail("bad block hash: ", e.as_str())),
        Ok(hash) => {
            if hash.len() != 32 {
                let mut m = "block hash must be 32 bytes, got ".to_owned();
                push_decimal(&mut m, hash.len() as u64);
                Err(m)
            } else {
                Ok(hash)
            }
        },
    }
}

/// A transaction that calls one function, before it is signed.
pub fn encode_call(
    signer_id: &str,
    public_key: &[u8],
    nonce: u64,
    receiver_id: &str,
    block_hash: &[u8],
    method_name: &str,
    args_json: &str,
    gas: u64,
    deposit: u128,
) -> (r: Vec<u8>)
    ensures
        r@ == call_bytes(
            signer_id@,
            public_key@,
            nonce,
            receiver_id@,
            block_hash@,
            method_name@,
            args_json@,
            gas,
            deposit,
        ),
{
    let mut bytes: Vec<u8> = Vec::new();
    borsh_write_string(&mut bytes, signer_id);
    bytes.push(0);
    push_bytes(&mut bytes, public_key);
    push_le(&mut bytes, nonce as u128, 8);
    borsh_write_string(&mut bytes, receiver_id);
    push_bytes(&mut bytes, block_hash);
    push_le(&mut bytes, 1, 4);
    bytes.push(2);
    borsh_write_string(&mut bytes, method_name);
    push_counted(&mut bytes, args_json.as_bytes());
    push_le(&mut bytes, gas as u128, 8);
    push_le(&mut bytes, deposit, 16);
    assert(bytes@ =~= call_bytes(
        signer_id@,
        public_key@,
        nonce,
        receiver_id@,
        block_hash@,
        method_name@,
        args_json@,
        gas,
        deposit,
    ));
    bytes
}

/// A transaction with its signature.
pub fn attach_signature(transaction: &[u8], signature: &[u8]) -> (r: Vec<u8>)
    ensures
        r@ == signed_bytes(transaction@, signature@),
{
    let mut bytes = copy_bytes(transaction);
    bytes.push(0);
    push_bytes(&mut bytes, signature);
    assert(bytes@ =~= signed_bytes(transaction@, signature@));
    bytes
}

/// Creates a signed transaction that calls one function of a contract, in base64.
///
/// The keys and the block hash are in base58, the keys without their `ed25519:` prefix. The
/// nonce is one more than that of the access key, and the deposit is in yoctoNEAR.
pub fn create_signed_transaction(
    signer_id: &str,
    public_key_b58: &str,
    private_key_b58: &str,
    receiver_id: &str,
    method_name: &str,
    args_json: &str,
    nonce: u64,
    block_hash_b58: &str,
    gas: u64,
    deposit: &str,
) -> (r: Result<String, String>)
    ensures
        match signed_transaction(
            signer_id@,
            public_key_b58@,
            private_key_b58@,
            receiver_id@,
            method_name@,
            args_json@,
            nonce,
            block_hash_b58@,
            gas,
            deposit@,
        ) {
            Ok(text) => r matches Ok(t) && t@ == text,
            Err(m) => r matches Err(e) && e@ == m,
        },
{
    let secret = match decode_secret(private_key_b58) {
        Err(e) => {
            return Err(e);
        },
        Ok(v) => v,
    };
    let public_key = match from_base58(public_key_b58) {
        Err(e) => {
            return Err(with_detail("bad public key: ", e.as_str()));
        },
        Ok(v) => v,
    };
    let block_hash = match decode_block_hash(block_hash_b58) {
        Err(e) => {
            return Err(e);
        },
        Ok(v) => v,
    };
    let amount: u128 = match parse_amount(deposit) {
        Err(e) => {
            return Err(with_detail("bad deposit: ", e.as_str()));
        },
        Ok(n) => n,
    };
    let transaction = encode_call(
        signer_id,
        &public_key,
        nonce,
        receiver_id,
        &block_hash,
        method_name,
        args_json,
        gas,
        amount,
    );
    let hash = sha256_digest(&transaction);
    let signature = ed25519_sign(&secret, &hash);
    Ok(to_base64(&attach_signature(&transaction, &signature)))
}

} // verus!
