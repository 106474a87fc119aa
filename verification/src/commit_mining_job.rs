//! `CommitMiningJob` (client to server): a Job Negotiator proposes a set of
//! transactions to the upstream pool; and `CommitMiningJobSuccess` (server to
//! client). Each has its size, its encoding and a decoder.
use crate::byte_order::{le_bytes, le_value, lemma_byte_bound_values, push_le};
use crate::codec::{
    all_six, enc_b0255, enc_b064k, enc_ids, lemma_assoc, lemma_at, lemma_ids_at, lemma_prefixed_at,
    lemma_uint_at, lemma_fixed_parsed,
    lemma_fixed_roundtrip, lemma_ids_parsed, lemma_ids_roundtrip, lemma_prefixed_parsed,
    lemma_prefixed_roundtrip, lemma_uint_parsed, lemma_uint_roundtrip, parse_fixed, parse_ids,
    parse_prefixed, parse_uint, push_b0255, push_b064k, push_bytes, push_ids, read_b0255,
    read_b064k, read_ids, read_matches, read_u16, read_u256, read_u32, read_u64, ShortTxIdList,
    B0255, B064K, U256,
};
use crate::error::Error;
use vstd::prelude::*;

verus! {

/// ## CommitMiningJob (Client -> Server)
/// A request sent by the Job Negotiator that proposes a selected set of
/// transactions to the upstream (pool) node.
#[derive(Debug, Clone, PartialEq, Eq)]
pub struct CommitMiningJob {
    pub request_id: u32,
    pub mining_job_token: B0255,
    pub version: u32,
    pub coninbase_tx_version: u32,
    pub coninbase_prefix: B0255,
    pub coninbase_tx_input_nsequence: u32,
    pub coninbase_tx_value_remaining: u64,
    pub coinbase_tx_outputs: B064K,
    pub coinbase_tx_locktime: u32,
    pub min_extranonce_size: u16,
    pub tx_short_hash_nonce: u64,
    pub tx_short_hash_list: ShortTxIdList,
    pub tx_hash_list_hash: U256,
    pub excess_data: B064K,
}

/// A `CommitMiningJob` with its byte fields as sequences.
pub struct CommitMiningJobView {
    pub request_id: u32,
    pub mining_job_token: Seq<u8>,
    pub version: u32,
    pub coninbase_tx_version: u32,
    pub coninbase_prefix: Seq<u8>,
    pub coninbase_tx_input_nsequence: u32,
    pub coninbase_tx_value_remaining: u64,
    pub coinbase_tx_outputs: Seq<u8>,
    pub coinbase_tx_locktime: u32,
    pub min_extranonce_size: u16,
    pub tx_short_hash_nonce: u64,
    pub tx_short_hash_list: Seq<Seq<u8>>,
    pub tx_hash_list_hash: Seq<u8>,
    pub excess_data: Seq<u8>,
}

impl View for CommitMiningJob {
    type V = CommitMiningJobView;

    open spec fn view(&self) -> CommitMiningJobView {
        CommitMiningJobView {
            request_id: self.request_id,
            mining_job_token: self.mining_job_token@,
            version: self.version,
            coninbase_tx_version: self.coninbase_tx_version,
            coninbase_prefix: self.coninbase_prefix@,
            coninbase_tx_input_nsequence: self.coninbase_tx_input_nsequence,
            coninbase_tx_value_remaining: self.coninbase_tx_value_remaining,
            coinbase_tx_outputs: self.coinbase_tx_outputs@,
            coinbase_tx_locktime: self.coinbase_tx_locktime,
            min_extranonce_size: self.min_extranonce_size,
            tx_short_hash_nonce: self.tx_short_hash_nonce,
            tx_short_hash_list: self.tx_short_hash_list@,
            tx_hash_list_hash: self.tx_hash_list_hash.bytes@,
            excess_data: self.excess_data@,
        }
    }
}

/// The fields fit their encodings: what every `CommitMiningJob` value holds.
pub open spec fn job_fits(v: CommitMiningJobView) -> bool {
    &&& v.mining_job_token.len() <= 255
    &&& v.coninbase_prefix.len() <= 255
    &&& v.coinbase_tx_outputs.len() <= 65535
    &&& v.tx_short_hash_list.len() <= 65535
    &&& all_six(v.tx_short_hash_list)
    &&& v.tx_hash_list_hash.len() == 32
    &&& v.excess_data.len() <= 65535
}

/// The size of the encoding: the sum of the sizes of the fields.
pub open spec fn job_size(v: CommitMiningJobView) -> nat {
    4 + (1 + v.mining_job_token.len()) + 4 + 4 + (1 + v.coninbase_prefix.len()) + 4 + 8 + (2
        + v.coinbase_tx_outputs.len()) + 4 + 2 + 8 + (2 + 6 * v.tx_short_hash_list.len()) + 32 + (2
        + v.excess_data.len())
}

/// The encoding: the fields in order.
pub open spec fn encode_job(v: CommitMiningJobView) -> Seq<u8> {
    le_bytes(v.request_id as nat, 4) + enc_b0255(v.mining_job_token) + le_bytes(v.version as nat, 4)
        + le_bytes(v.coninbase_tx_version as nat, 4) + enc_b0255(v.coninbase_prefix) + le_bytes(
        v.coninbase_tx_input_nsequence as nat,
        4,
    ) + le_bytes(v.coninbase_tx_value_remaining as nat, 8) + enc_b064k(v.coinbase_tx_outputs)
        + le_bytes(v.coinbase_tx_locktime as nat, 4) + le_bytes(v.min_extranonce_size as nat, 2)
        + le_bytes(v.tx_short_hash_nonce as nat, 8) + enc_ids(v.tx_short_hash_list)
        + v.tx_hash_list_hash + enc_b064k(v.excess_data)
}

/// Decoding: the fields in order, then what follows the message. Each field
/// is read from what the one before it left.
pub open spec fn parse_job(s: Seq<u8>) -> Option<(CommitMiningJobView, Seq<u8>)> {
    let f1 = parse_uint(s, 4);
    let f2 = parse_prefixed(f1.unwrap().1, 1);
    let f3 = parse_uint(f2.unwrap().1, 4);
    let f4 = parse_uint(f3.unwrap().1, 4);
    let f5 = parse_prefixed(f4.unwrap().1, 1);
    let f6 = parse_uint(f5.unwrap().1, 4);
    let f7 = parse_uint(f6.unwrap().1, 8);
    let f8 = parse_prefixed(f7.unwrap().1, 2);
    let f9 = parse_uint(f8.unwrap().1, 4);
    let f10 = parse_uint(f9.unwrap().1, 2);
    let f11 = parse_uint(f10.unwrap().1, 8);
    let f12 = parse_ids(f11.unwrap().1);
    let f13 = parse_fixed(f12.unwrap().1, 32);
    let f14 = parse_prefixed(f13.unwrap().1, 2);
    if f1 is Some && f2 is Some && f3 is Some && f4 is Some && f5 is Some && f6 is Some && f7 is Some
        && f8 is Some && f9 is Some && f10 is Some && f11 is Some && f12 is Some && f13 is Some
        && f14 is Some {
        Some(
            (
                CommitMiningJobView {
                    request_id: f1.unwrap().0 as u32,
                    mining_job_token: f2.unwrap().0,
                    version: f3.unwrap().0 as u32,
                    coninbase_tx_version: f4.unwrap().0 as u32,
                    coninbase_prefix: f5.unwrap().0,
                    coninbase_tx_input_nsequence: f6.unwrap().0 as u32,
                    coninbase_tx_value_remaining: f7.unwrap().0 as u64,
                    coinbase_tx_outputs: f8.unwrap().0,
                    coinbase_tx_locktime: f9.unwrap().0 as u32,
                    min_extranonce_size: f10.unwrap().0 as u16,
                    tx_short_hash_nonce: f11.unwrap().0 as u64,
                    tx_short_hash_list: f12.unwrap().0,
                    tx_hash_list_hash: f13.unwrap().0,
                    excess_data: f14.unwrap().0,
                },
                f14.unwrap().1,
            ),
        )
    } else {
        None
    }
}

/// Decoding the encoding of a message gives the message back, and leaves
/// whatever followed it untouched.
pub proof fn lemma_job_roundtrip(v: CommitMiningJobView, rest: Seq<u8>)
    requires
        job_fits(v),
    ensures
        parse_job(encode_job(v) + rest) == Some((v, rest)),
{
    lemma_byte_bound_values();
    // e_k: the bytes of field k; t_k: fields k.. then `rest`; l_k: fields ..=k
    let e1 = le_bytes(v.request_id as nat, 4);
    let e2 = enc_b0255(v.mining_job_token);
    let e3 = le_bytes(v.version as nat, 4);
    let e4 = le_bytes(v.coninbase_tx_version as nat, 4);
    let e5 = enc_b0255(v.coninbase_prefix);
    let e6 = le_bytes(v.coninbase_tx_input_nsequence as nat, 4);
    let e7 = le_bytes(v.coninbase_tx_value_remaining as nat, 8);
    let e8 = enc_b064k(v.coinbase_tx_outputs);
    let e9 = le_bytes(v.coinbase_tx_locktime as nat, 4);
    let e10 = le_bytes(v.min_extranonce_size as nat, 2);
    let e11 = le_bytes(v.tx_short_hash_nonce as nat, 8);
    let e12 = enc_ids(v.tx_short_hash_list);
    let e13 = v.tx_hash_list_hash;
    let e14 = enc_b064k(v.excess_data);
    let t15 = rest;
    let t14 = e14 + t15;
    let t13 = e13 + t14;
    let t12 = e12 + t13;
    let t11 = e11 + t12;
    let t10 = e10 + t11;
    let t9 = e9 + t10;
    let t8 = e8 + t9;
    let t7 = e7 + t8;
    let t6 = e6 + t7;
    let t5 = e5 + t6;
    let t4 = e4 + t5;
    let t3 = e3 + t4;
    let t2 = e2 + t3;
    let t1 = e1 + t2;
    let l1 = e1;
    let l2 = l1 + e2;
    let l3 = l2 + e3;
    let l4 = l3 + e4;
    let l5 = l4 + e5;
    let l6 = l5 + e6;
    let l7 = l6 + e7;
    let l8 = l7 + e8;
    let l9 = l8 + e9;
    let l10 = l9 + e10;
    let l11 = l10 + e11;
    let l12 = l11 + e12;
    let l13 = l12 + e13;
    let l14 = l13 + e14;
    assert(l14 == encode_job(v));
    lemma_assoc(l13, e14, t15);
    lemma_assoc(l12, e13, t14);
    lemma_assoc(l11, e12, t13);
    lemma_assoc(l10, e11, t12);
    lemma_assoc(l9, e10, t11);
    lemma_assoc(l8, e9, t10);
    lemma_assoc(l7, e8, t9);
    lemma_assoc(l6, e7, t8);
    lemma_assoc(l5, e6, t7);
    lemma_assoc(l4, e5, t6);
    lemma_assoc(l3, e4, t5);
    lemma_assoc(l2, e3, t4);
    lemma_assoc(l1, e2, t3);
    assert(encode_job(v) + rest == t1);
    lemma_uint_roundtrip(v.request_id as nat, 4, t2);
    lemma_prefixed_roundtrip(v.mining_job_token, 1, t3);
    lemma_uint_roundtrip(v.version as nat, 4, t4);
    lemma_uint_roundtrip(v.coninbase_tx_version as nat, 4, t5);
    lemma_prefixed_roundtrip(v.coninbase_prefix, 1, t6);
    lemma_uint_roundtrip(v.coninbase_tx_input_nsequence as nat, 4, t7);
    lemma_uint_roundtrip(v.coninbase_tx_value_remaining as nat, 8, t8);
    lemma_prefixed_roundtrip(v.coinbase_tx_outputs, 2, t9);
    lemma_uint_roundtrip(v.coinbase_tx_locktime as nat, 4, t10);
    lemma_uint_roundtrip(v.min_extranonce_size as nat, 2, t11);
    lemma_uint_roundtrip(v.tx_short_hash_nonce as nat, 8, t12);
    lemma_ids_roundtrip(v.tx_short_hash_list, t13);
    lemma_fixed_roundtrip(v.tx_hash_list_hash, t14);
    lemma_prefixed_roundtrip(v.excess_data, 2, t15);
}

/// Two messages with the same encoding are the same message.
pub proof fn lemma_job_encoding_injective(v1: CommitMiningJobView, v2: CommitMiningJobView)
    requires
        job_fits(v1),
        job_fits(v2),
        encode_job(v1) == encode_job(v2),
    ensures
        v1 == v2,
{
    lemma_job_roundtrip(v1, Seq::empty());
    lemma_job_roundtrip(v2, Seq::empty());
}

/// Where the fields of `v` stand in `s`: from the start, in declaration
/// order, each integer as its little-endian bytes, each byte string as its
/// length (one byte for `B0255`, two little-endian bytes for `B064K`) then its
/// bytes in order, the short ids as a two-byte little-endian count then id `i`
/// at `6 i` after it, and the hash as its 32 bytes in order.
pub open spec fn job_layout(s: Seq<u8>, v: CommitMiningJobView) -> bool {
    let lt = v.mining_job_token.len() as int;
    let lp = v.coninbase_prefix.len() as int;
    let lo = v.coinbase_tx_outputs.len() as int;
    let n = v.tx_short_hash_list.len() as int;
    let lx = v.excess_data.len() as int;
    let o_version = 5 + lt;
    let o_tx_version = o_version + 4;
    let o_prefix = o_tx_version + 4;
    let o_nsequence = o_prefix + 1 + lp;
    let o_value = o_nsequence + 4;
    let o_outputs = o_value + 8;
    let o_locktime = o_outputs + 2 + lo;
    let o_extranonce = o_locktime + 4;
    let o_nonce = o_extranonce + 2;
    let o_ids = o_nonce + 8;
    let o_hash = o_ids + 2 + 6 * n;
    let o_excess = o_hash + 32;
    let end = o_excess + 2 + lx;
    &&& end <= s.len()
    &&& le_value(s.subrange(0, 4)) == v.request_id
    &&& le_value(s.subrange(4, 5)) == lt
    &&& s.subrange(5, o_version) == v.mining_job_token
    &&& le_value(s.subrange(o_version, o_tx_version)) == v.version
    &&& le_value(s.subrange(o_tx_version, o_prefix)) == v.coninbase_tx_version
    &&& le_value(s.subrange(o_prefix, o_prefix + 1)) == lp
    &&& s.subrange(o_prefix + 1, o_nsequence) == v.coninbase_prefix
    &&& le_value(s.subrange(o_nsequence, o_value)) == v.coninbase_tx_input_nsequence
    &&& le_value(s.subrange(o_value, o_outputs)) == v.coninbase_tx_value_remaining
    &&& le_value(s.subrange(o_outputs, o_outputs + 2)) == lo
    &&& s.subrange(o_outputs + 2, o_locktime) == v.coinbase_tx_outputs
    &&& le_value(s.subrange(o_locktime, o_extranonce)) == v.coinbase_tx_locktime
    &&& le_value(s.subrange(o_extranonce, o_nonce)) == v.min_extranonce_size
    &&& le_value(s.subrange(o_nonce, o_ids)) == v.tx_short_hash_nonce
    &&& le_value(s.subrange(o_ids, o_ids + 2)) == n
    &&& forall|i: int|
        0 <= i < n ==> #[trigger] s.subrange(o_ids + 2 + 6 * i, o_ids + 2 + 6 * i + 6)
            == v.tx_short_hash_list[i]
    &&& s.subrange(o_hash, o_excess) == v.tx_hash_list_hash
    &&& le_value(s.subrange(o_excess, o_excess + 2)) == lx
    &&& s.subrange(o_excess + 2, end) == v.excess_data
}

/// The encoding followed by `rest`, grouped from the right: each field,
/// then everything after it.
proof fn lemma_job_nested(v: CommitMiningJobView, rest: Seq<u8>)
    ensures
        encode_job(v) + rest == le_bytes(v.request_id as nat, 4) + (enc_b0255(v.mining_job_token) + (le_bytes(v.version as nat, 4) + (le_bytes(v.coninbase_tx_version as nat, 4) + (enc_b0255(v.coninbase_prefix) + (le_bytes(v.coninbase_tx_input_nsequence as nat, 4) + (le_bytes(v.coninbase_tx_value_remaining as nat, 8) + (enc_b064k(v.coinbase_tx_outputs) + (le_bytes(v.coinbase_tx_locktime as nat, 4) + (le_bytes(v.min_extranonce_size as nat, 2) + (le_bytes(v.tx_short_hash_nonce as nat, 8) + (enc_ids(v.tx_short_hash_list) + (v.tx_hash_list_hash + (enc_b064k(v.excess_data) + rest))))))))))))),
{
    // e_k: the bytes of field k; t_k: fields k.. then `rest`; l_k: fields ..=k
    let e1 = le_bytes(v.request_id as nat, 4);
    let e2 = enc_b0255(v.mining_job_token);
    let e3 = le_bytes(v.version as nat, 4);
    let e4 = le_bytes(v.coninbase_tx_version as nat, 4);
    let e5 = enc_b0255(v.coninbase_prefix);
    let e6 = le_bytes(v.coninbase_tx_input_nsequence as nat, 4);
    let e7 = le_bytes(v.coninbase_tx_value_remaining as nat, 8);
    let e8 = enc_b064k(v.coinbase_tx_outputs);
    let e9 = le_bytes(v.coinbase_tx_locktime as nat, 4);
    let e10 = le_bytes(v.min_extranonce_size as nat, 2);
    let e11 = le_bytes(v.tx_short_hash_nonce as nat, 8);
    let e12 = enc_ids(v.tx_short_hash_list);
    let e13 = v.tx_hash_list_hash;
    let e14 = enc_b064k(v.excess_data);
    let t15 = rest;
    let t14 = e14 + t15;
    let t13 = e13 + t14;
    let t12 = e12 + t13;
    let t11 = e11 + t12;
    let t10 = e10 + t11;
    let t9 = e9 + t10;
    let t8 = e8 + t9;
    let t7 = e7 + t8;
    let t6 = e6 + t7;
    let t5 = e5 + t6;
    let t4 = e4 + t5;
    let t3 = e3 + t4;
    let t2 = e2 + t3;
    let t1 = e1 + t2;
    let l1 = e1;
    let l2 = l1 + e2;
    let l3 = l2 + e3;
    let l4 = l3 + e4;
    let l5 = l4 + e5;
    let l6 = l5 + e6;
    let l7 = l6 + e7;
    let l8 = l7 + e8;
    let l9 = l8 + e9;
    let l10 = l9 + e10;
    let l11 = l10 + e11;
    let l12 = l11 + e12;
    let l13 = l12 + e13;
    lemma_assoc(l13, e14, t15);
    lemma_assoc(l12, e13, t14);
    lemma_assoc(l11, e12, t13);
    lemma_assoc(l10, e11, t12);
    lemma_assoc(l9, e10, t11);
    lemma_assoc(l8, e9, t10);
    lemma_assoc(l7, e8, t9);
    lemma_assoc(l6, e7, t8);
    lemma_assoc(l5, e6, t7);
    lemma_assoc(l4, e5, t6);
    lemma_assoc(l3, e4, t5);
    lemma_assoc(l2, e3, t4);
    lemma_assoc(l1, e2, t3);
}

/// The encoding of a message, whatever follows it, holds its fields where
/// `job_layout` says, and ends after the last of them.
#[verifier::rlimit(100)]
#[verifier::spinoff_prover]
pub proof fn lemma_job_layout(v: CommitMiningJobView, rest: Seq<u8>)
    requires
        job_fits(v),
    ensures
        job_layout(encode_job(v) + rest, v),
        (encode_job(v) + rest).skip(job_size(v) as int) == rest,
{
    lemma_byte_bound_values();
    lemma_job_nested(v, rest);
    // e_k: the bytes of field k; t_k: fields k.. then `rest`; l_k: fields ..=k
    let e1 = le_bytes(v.request_id as nat, 4);
    let e2 = enc_b0255(v.mining_job_token);
    let e3 = le_bytes(v.version as nat, 4);
    let e4 = le_bytes(v.coninbase_tx_version as nat, 4);
    let e5 = enc_b0255(v.coninbase_prefix);
    let e6 = le_bytes(v.coninbase_tx_input_nsequence as nat, 4);
    let e7 = le_bytes(v.coninbase_tx_value_remaining as nat, 8);
    let e8 = enc_b064k(v.coinbase_tx_outputs);
    let e9 = le_bytes(v.coinbase_tx_locktime as nat, 4);
    let e10 = le_bytes(v.min_extranonce_size as nat, 2);
    let e11 = le_bytes(v.tx_short_hash_nonce as nat, 8);
    let e12 = enc_ids(v.tx_short_hash_list);
    let e13 = v.tx_hash_list_hash;
    let e14 = enc_b064k(v.excess_data);
    let t15 = rest;
    let t14 = e14 + t15;
    let t13 = e13 + t14;
    let t12 = e12 + t13;
    let t11 = e11 + t12;
    let t10 = e10 + t11;
    let t9 = e9 + t10;
    let t8 = e8 + t9;
    let t7 = e7 + t8;
    let t6 = e6 + t7;
    let t5 = e5 + t6;
    let t4 = e4 + t5;
    let t3 = e3 + t4;
    let t2 = e2 + t3;
    let t1 = e1 + t2;
    let s = encode_job(v) + rest;
    assert(s == t1);
    assert(s.skip(0) =~= s);
    let lt = v.mining_job_token.len() as int;
    let lp = v.coninbase_prefix.len() as int;
    let lo = v.coinbase_tx_outputs.len() as int;
    let n = v.tx_short_hash_list.len() as int;
    let o_version = 5 + lt;
    let o_tx_version = o_version + 4;
    let o_prefix = o_tx_version + 4;
    let o_nsequence = o_prefix + 1 + lp;
    let o_value = o_nsequence + 4;
    let o_outputs = o_value + 8;
    let o_locktime = o_outputs + 2 + lo;
    let o_extranonce = o_locktime + 4;
    let o_nonce = o_extranonce + 2;
    let o_ids = o_nonce + 8;
    let o_hash = o_ids + 2 + 6 * n;
    let o_excess = o_hash + 32;
    lemma_uint_at(s, 0, v.request_id as nat, 4, t2);
    lemma_prefixed_at(s, 4, v.mining_job_token, 1, t3);
    lemma_uint_at(s, o_version, v.version as nat, 4, t4);
    lemma_uint_at(s, o_tx_version, v.coninbase_tx_version as nat, 4, t5);
    lemma_prefixed_at(s, o_prefix, v.coninbase_prefix, 1, t6);
    lemma_uint_at(s, o_nsequence, v.coninbase_tx_input_nsequence as nat, 4, t7);
    lemma_uint_at(s, o_value, v.coninbase_tx_value_remaining as nat, 8, t8);
    lemma_prefixed_at(s, o_outputs, v.coinbase_tx_outputs, 2, t9);
    lemma_uint_at(s, o_locktime, v.coinbase_tx_locktime as nat, 4, t10);
    lemma_uint_at(s, o_extranonce, v.min_extranonce_size as nat, 2, t11);
    lemma_uint_at(s, o_nonce, v.tx_short_hash_nonce as nat, 8, t12);
    lemma_ids_at(s, o_ids, v.tx_short_hash_list, t13);
    lemma_at(s, o_hash, e13, t14);
    lemma_prefixed_at(s, o_excess, v.excess_data, 2, t15);
    let lx = v.excess_data.len() as int;
    let end = o_excess + 2 + lx;
    assert(end <= s.len());
    assert(le_value(s.subrange(0, 4)) == v.request_id);
    assert(le_value(s.subrange(4, 5)) == lt);
    assert(s.subrange(5, o_version) == v.mining_job_token);
    assert(le_value(s.subrange(o_version, o_tx_version)) == v.version);
    assert(le_value(s.subrange(o_tx_version, o_prefix)) == v.coninbase_tx_version);
    assert(le_value(s.subrange(o_prefix, o_prefix + 1)) == lp);
    assert(s.subrange(o_prefix + 1, o_nsequence) == v.coninbase_prefix);
    assert(le_value(s.subrange(o_nsequence, o_value)) == v.coninbase_tx_input_nsequence);
    assert(le_value(s.subrange(o_value, o_outputs)) == v.coninbase_tx_value_remaining);
    assert(le_value(s.subrange(o_outputs, o_outputs + 2)) == lo);
    assert(s.subrange(o_outputs + 2, o_locktime) == v.coinbase_tx_outputs);
    assert(le_value(s.subrange(o_locktime, o_extranonce)) == v.coinbase_tx_locktime);
    assert(le_value(s.subrange(o_extranonce, o_nonce)) == v.min_extranonce_size);
    assert(le_value(s.subrange(o_nonce, o_ids)) == v.tx_short_hash_nonce);
    assert(le_value(s.subrange(o_ids, o_ids + 2)) == n);
    assert(s.subrange(o_hash, o_excess) == v.tx_hash_list_hash);
    assert(le_value(s.subrange(o_excess, o_excess + 2)) == lx);
    assert(s.subrange(o_excess + 2, end) == v.excess_data);
    assert(s.skip(end) == rest);
    assert(end == job_size(v));
}

#[verifier::rlimit(100)]
#[verifier::spinoff_prover]
/// A decoded message stands in the decoded bytes where `job_layout` says,
/// and the decoder leaves exactly what follows its last field.
pub proof fn lemma_job_decoded_layout(s: Seq<u8>)
    requires
        parse_job(s) is Some,
    ensures
        parse_job(s) matches Some((v, rest)) && job_layout(s, v) && rest == s.skip(
            job_size(v) as int,
        ),
{
    lemma_job_parsed(s);
    let (v, rest) = parse_job(s).unwrap();
    lemma_job_layout(v, rest);
}

/// Whatever the decoder accepts is the encoding of the message it returns,
/// followed by the bytes it leaves.
pub proof fn lemma_job_parsed(s: Seq<u8>)
    requires
        parse_job(s) is Some,
    ensures
        parse_job(s) matches Some((v, rest)) && job_fits(v) && s == encode_job(v) + rest,
{
    lemma_byte_bound_values();
    let (v, rest) = parse_job(s).unwrap();
    // s_k: what is left after field k; e_k: the bytes of field k; l_k: fields ..=k
    let s1 = parse_uint(s, 4).unwrap().1;
    lemma_uint_parsed(s, 4);
    let s2 = parse_prefixed(s1, 1).unwrap().1;
    lemma_prefixed_parsed(s1, 1);
    let s3 = parse_uint(s2, 4).unwrap().1;
    lemma_uint_parsed(s2, 4);
    let s4 = parse_uint(s3, 4).unwrap().1;
    lemma_uint_parsed(s3, 4);
    let s5 = parse_prefixed(s4, 1).unwrap().1;
    lemma_prefixed_parsed(s4, 1);
    let s6 = parse_uint(s5, 4).unwrap().1;
    lemma_uint_parsed(s5, 4);
    let s7 = parse_uint(s6, 8).unwrap().1;
    lemma_uint_parsed(s6, 8);
    let s8 = parse_prefixed(s7, 2).unwrap().1;
    lemma_prefixed_parsed(s7, 2);
    let s9 = parse_uint(s8, 4).unwrap().1;
    lemma_uint_parsed(s8, 4);
    let s10 = parse_uint(s9, 2).unwrap().1;
    lemma_uint_parsed(s9, 2);
    let s11 = parse_uint(s10, 8).unwrap().1;
    lemma_uint_parsed(s10, 8);
    let s12 = parse_ids(s11).unwrap().1;
    lemma_ids_parsed(s11);
    let s13 = parse_fixed(s12, 32).unwrap().1;
    lemma_fixed_parsed(s12, 32);
    let s14 = parse_prefixed(s13, 2).unwrap().1;
    lemma_prefixed_parsed(s13, 2);
    let e1 = le_bytes(v.request_id as nat, 4);
    let e2 = enc_b0255(v.mining_job_token);
    let e3 = le_bytes(v.version as nat, 4);
    let e4 = le_bytes(v.coninbase_tx_version as nat, 4);
    let e5 = enc_b0255(v.coninbase_prefix);
    let e6 = le_bytes(v.coninbase_tx_input_nsequence as nat, 4);
    let e7 = le_bytes(v.coninbase_tx_value_remaining as nat, 8);
    let e8 = enc_b064k(v.coinbase_tx_outputs);
    let e9 = le_bytes(v.coinbase_tx_locktime as nat, 4);
    let e10 = le_bytes(v.min_extranonce_size as nat, 2);
    let e11 = le_bytes(v.tx_short_hash_nonce as nat, 8);
    let e12 = enc_ids(v.tx_short_hash_list);
    let e13 = v.tx_hash_list_hash;
    let e14 = enc_b064k(v.excess_data);
    let l1 = e1;
    let l2 = l1 + e2;
    let l3 = l2 + e3;
    let l4 = l3 + e4;
    let l5 = l4 + e5;
    let l6 = l5 + e6;
    let l7 = l6 + e7;
    let l8 = l7 + e8;
    let l9 = l8 + e9;
    let l10 = l9 + e10;
    let l11 = l10 + e11;
    let l12 = l11 + e12;
    let l13 = l12 + e13;
    let l14 = l13 + e14;
    assert(s == e1 + s1);
    assert(s1 == e2 + s2);
    assert(s2 == e3 + s3);
    assert(s3 == e4 + s4);
    assert(s4 == e5 + s5);
    assert(s5 == e6 + s6);
    assert(s6 == e7 + s7);
    assert(s7 == e8 + s8);
    assert(s8 == e9 + s9);
    assert(s9 == e10 + s10);
    assert(s10 == e11 + s11);
    assert(s11 == e12 + s12);
    assert(s12 == e13 + s13);
    assert(s13 == e14 + s14);
    lemma_assoc(l13, e14, s14);
    lemma_assoc(l12, e13, s13);
    lemma_assoc(l11, e12, s12);
    lemma_assoc(l10, e11, s11);
    lemma_assoc(l9, e10, s10);
    lemma_assoc(l8, e9, s9);
    lemma_assoc(l7, e8, s8);
    lemma_assoc(l6, e7, s7);
    lemma_assoc(l5, e6, s6);
    lemma_assoc(l4, e5, s5);
    lemma_assoc(l3, e4, s4);
    lemma_assoc(l2, e3, s3);
    lemma_assoc(l1, e2, s2);
    assert(s == encode_job(v) + rest);
}

/// The encoding is as long as the sum of the field sizes.
pub proof fn lemma_job_encoded_len(v: CommitMiningJobView)
    requires
        job_fits(v),
    ensures
        encode_job(v).len() == job_size(v),
{
    crate::codec::lemma_flatten_six(v.tx_short_hash_list);
    crate::byte_order::lemma_le_bytes_len(v.request_id as nat, 4);
    crate::byte_order::lemma_le_bytes_len(v.mining_job_token.len(), 1);
    crate::byte_order::lemma_le_bytes_len(v.version as nat, 4);
    crate::byte_order::lemma_le_bytes_len(v.coninbase_tx_version as nat, 4);
    crate::byte_order::lemma_le_bytes_len(v.coninbase_prefix.len(), 1);
    crate::byte_order::lemma_le_bytes_len(v.coninbase_tx_input_nsequence as nat, 4);
    crate::byte_order::lemma_le_bytes_len(v.coninbase_tx_value_remaining as nat, 8);
    crate::byte_order::lemma_le_bytes_len(v.coinbase_tx_outputs.len(), 2);
    crate::byte_order::lemma_le_bytes_len(v.coinbase_tx_locktime as nat, 4);
    crate::byte_order::lemma_le_bytes_len(v.min_extranonce_size as nat, 2);
    crate::byte_order::lemma_le_bytes_len(v.tx_short_hash_nonce as nat, 8);
    crate::byte_order::lemma_le_bytes_len(v.tx_short_hash_list.len(), 2);
    crate::byte_order::lemma_le_bytes_len(v.excess_data.len(), 2);
}

impl CommitMiningJob {
    /// The size of the encoding: the sum of the sizes of the fields.
    pub fn get_size(&self) -> (r: usize)
        ensures
            r as nat == job_size(self@),
            r as nat == encode_job(self@).len(),
    {
        let token = self.mining_job_token.inner_as_ref().len();
        let prefix = self.coninbase_prefix.inner_as_ref().len();
        let outputs = self.coinbase_tx_outputs.inner_as_ref().len();
        let id_list = self.tx_short_hash_list.inner_as_ref();
        let ids = id_list.len();
        let excess = self.excess_data.inner_as_ref().len();
        proof {
            crate::codec::lemma_ids_view_six(id_list@);
            lemma_job_encoded_len(self@);
        }
        4 + (1 + token) + 4 + 4 + (1 + prefix) + 4 + 8 + (2 + outputs) + 4 + 2 + 8 + (2 + 6 * ids)
            + 32 + (2 + excess)
    }

    /// The encoding of the message (whose fields always fit it).
    pub fn to_bytes(&self) -> (r: Vec<u8>)
        ensures
            r@ == encode_job(self@),
            job_fits(self@),
            job_layout(r@, self@),
            r@.len() == job_size(self@),
    {
        let ids = self.tx_short_hash_list.inner_as_ref();
        let _ = self.mining_job_token.inner_as_ref();
        let _ = self.coninbase_prefix.inner_as_ref();
        let _ = self.coinbase_tx_outputs.inner_as_ref();
        let _ = self.excess_data.inner_as_ref();
        proof {
            crate::codec::lemma_ids_view_six(ids@);
        }
        let mut out: Vec<u8> = Vec::new();
        push_le(&mut out, self.request_id as u64, 4);
        push_b0255(&mut out, &self.mining_job_token);
        push_le(&mut out, self.version as u64, 4);
        push_le(&mut out, self.coninbase_tx_version as u64, 4);
        push_b0255(&mut out, &self.coninbase_prefix);
        push_le(&mut out, self.coninbase_tx_input_nsequence as u64, 4);
        push_le(&mut out, self.coninbase_tx_value_remaining, 8);
        push_b064k(&mut out, &self.coinbase_tx_outputs);
        push_le(&mut out, self.coinbase_tx_locktime as u64, 4);
        push_le(&mut out, self.min_extranonce_size as u64, 2);
        push_le(&mut out, self.tx_short_hash_nonce, 8);
        push_ids(&mut out, &self.tx_short_hash_list);
        push_bytes(&mut out, self.tx_hash_list_hash.bytes.as_slice());
        push_b064k(&mut out, &self.excess_data);
        proof {
            let e1 = le_bytes(self.request_id as nat, 4);
            assert(Seq::<u8>::empty() + e1 =~= e1);
            assert(out@ == encode_job(self@));
            lemma_job_layout(self@, Seq::empty());
            assert(encode_job(self@) + Seq::<u8>::empty() =~= encode_job(self@));
            lemma_job_encoded_len(self@);
        }
        out
    }

    #[verifier::rlimit(100)]
    #[verifier::spinoff_prover]
    /// Decodes a message at the start of `bytes`; on success, also says how
    /// many bytes it took.
    pub fn from_bytes(bytes: &[u8]) -> (r: Result<(CommitMiningJob, usize), Error>)
        ensures
            read_matches(bytes@, parse_job(bytes@), r, |m: CommitMiningJob| m@),
            r matches Ok((m, n)) ==> job_layout(bytes@, m@) && n == job_size(m@),
    {
        assert(bytes@.skip(0) =~= bytes@);
        let (request_id, p1) = match read_u32(bytes, 0) {
            Ok(x) => x,
            Err(e) => return Err(e),
        };
        let (mining_job_token, p2) = match read_b0255(bytes, p1) {
            Ok(x) => x,
            Err(e) => return Err(e),
        };
        let (version, p3) = match read_u32(bytes, p2) {
            Ok(x) => x,
            Err(e) => return Err(e),
        };
        let (coninbase_tx_version, p4) = match read_u32(bytes, p3) {
            Ok(x) => x,
            Err(e) => return Err(e),
        };
        let (coninbase_prefix, p5) = match read_b0255(bytes, p4) {
            Ok(x) => x,
            Err(e) => return Err(e),
        };
        let (coninbase_tx_input_nsequence, p6) = match read_u32(bytes, p5) {
            Ok(x) => x,
            Err(e) => return Err(e),
        };
        let (coninbase_tx_value_remaining, p7) = match read_u64(bytes, p6) {
            Ok(x) => x,
            Err(e) => return Err(e),
        };
        let (coinbase_tx_outputs, p8) = match read_b064k(bytes, p7) {
            Ok(x) => x,
            Err(e) => return Err(e),
        };
        let (coinbase_tx_locktime, p9) = match read_u32(bytes, p8) {
            Ok(x) => x,
            Err(e) => return Err(e),
        };
        let (min_extranonce_size, p10) = match read_u16(bytes, p9) {
            Ok(x) => x,
            Err(e) => return Err(e),
        };
        let (tx_short_hash_nonce, p11) = match read_u64(bytes, p10) {
            Ok(x) => x,
            Err(e) => return Err(e),
        };
        let (tx_short_hash_list, p12) = match read_ids(bytes, p11) {
            Ok(x) => x,
            Err(e) => return Err(e),
        };
        let (tx_hash_list_hash, p13) = match read_u256(bytes, p12) {
            Ok(x) => x,
            Err(e) => return Err(e),
        };
        let (excess_data, p14) = match read_b064k(bytes, p13) {
            Ok(x) => x,
            Err(e) => return Err(e),
        };
        proof {
            lemma_job_decoded_layout(bytes@);
        }
        let m = CommitMiningJob {
            request_id,
            mining_job_token,
            version,
            coninbase_tx_version,
            coninbase_prefix,
            coninbase_tx_input_nsequence,
            coninbase_tx_value_remaining,
            coinbase_tx_outputs,
            coinbase_tx_locktime,
            min_extranonce_size,
            tx_short_hash_nonce,
            tx_short_hash_list,
            tx_hash_list_hash,
            excess_data,
        };
        proof {
            let (v, rest) = parse_job(bytes@).unwrap();
            assert(m@ == v);
            assert(bytes@.skip(p14 as int) == rest);
            assert(bytes@.skip(p14 as int).len() == bytes@.skip(job_size(v) as int).len());
        }
        Ok((m, p14))
    }
}

/// ## CommitMiningJob (Server -> Client)
#[derive(Debug, Clone, PartialEq, Eq)]
pub struct CommitMiningJobSuccess {
    pub request_id: u32,
    pub new_mining_job_token: B0255,
}

/// A `CommitMiningJobSuccess` with its token as a sequence.
pub struct CommitMiningJobSuccessView {
    pub request_id: u32,
    pub new_mining_job_token: Seq<u8>,
}

impl View for CommitMiningJobSuccess {
    type V = CommitMiningJobSuccessView;

    open spec fn view(&self) -> CommitMiningJobSuccessView {
        CommitMiningJobSuccessView {
            request_id: self.request_id,
            new_mining_job_token: self.new_mining_job_token@,
        }
    }
}

/// The size of the encoding: the sum of the sizes of the fields.
pub open spec fn success_size(v: CommitMiningJobSuccessView) -> nat {
    4 + (1 + v.new_mining_job_token.len())
}

/// The encoding: the fields in order.
pub open spec fn encode_success(v: CommitMiningJobSuccessView) -> Seq<u8> {
    le_bytes(v.request_id as nat, 4) + enc_b0255(v.new_mining_job_token)
}

/// Decoding: the fields in order, then what follows the message.
pub open spec fn parse_success(s: Seq<u8>) -> Option<(CommitMiningJobSuccessView, Seq<u8>)> {
    let f1 = parse_uint(s, 4);
    let f2 = parse_prefixed(f1.unwrap().1, 1);
    if f1 is Some && f2 is Some {
        Some(
            (
                CommitMiningJobSuccessView {
                    request_id: f1.unwrap().0 as u32,
                    new_mining_job_token: f2.unwrap().0,
                },
                f2.unwrap().1,
            ),
        )
    } else {
        None
    }
}

/// Decoding the encoding of a message gives the message back, and leaves
/// whatever followed it untouched.
pub proof fn lemma_success_roundtrip(v: CommitMiningJobSuccessView, rest: Seq<u8>)
    requires
        v.new_mining_job_token.len() <= 255,
    ensures
        parse_success(encode_success(v) + rest) == Some((v, rest)),
{
    lemma_byte_bound_values();
    let e1 = le_bytes(v.request_id as nat, 4);
    let e2 = enc_b0255(v.new_mining_job_token);
    lemma_assoc(e1, e2, rest);
    lemma_uint_roundtrip(v.request_id as nat, 4, e2 + rest);
    lemma_prefixed_roundtrip(v.new_mining_job_token, 1, rest);
}

/// Whatever the decoder accepts is the encoding of the message it returns,
/// followed by the bytes it leaves.
pub proof fn lemma_success_parsed(s: Seq<u8>)
    requires
        parse_success(s) is Some,
    ensures
        parse_success(s) matches Some((v, rest)) && v.new_mining_job_token.len() <= 255 && s
            == encode_success(v) + rest,
{
    lemma_byte_bound_values();
    lemma_uint_parsed(s, 4);
    let s1 = parse_uint(s, 4).unwrap().1;
    lemma_prefixed_parsed(s1, 1);
    let (v, rest) = parse_success(s).unwrap();
    lemma_assoc(le_bytes(v.request_id as nat, 4), enc_b0255(v.new_mining_job_token), rest);
}

/// Where the fields of `v` stand in `s`: the request id as four
/// little-endian bytes, then the token's one-byte length, then its bytes in
/// order.
pub open spec fn success_layout(s: Seq<u8>, v: CommitMiningJobSuccessView) -> bool {
    let lt = v.new_mining_job_token.len() as int;
    &&& 5 + lt <= s.len()
    &&& le_value(s.subrange(0, 4)) == v.request_id
    &&& le_value(s.subrange(4, 5)) == lt
    &&& s.subrange(5, 5 + lt) == v.new_mining_job_token
}

/// The encoding of a message, whatever follows it, holds its fields where
/// `success_layout` says, and ends after the last of them.
pub proof fn lemma_success_layout(v: CommitMiningJobSuccessView, rest: Seq<u8>)
    requires
        v.new_mining_job_token.len() <= 255,
    ensures
        success_layout(encode_success(v) + rest, v),
        (encode_success(v) + rest).skip(success_size(v) as int) == rest,
{
    lemma_byte_bound_values();
    let e1 = le_bytes(v.request_id as nat, 4);
    let e2 = enc_b0255(v.new_mining_job_token);
    lemma_assoc(e1, e2, rest);
    let s = encode_success(v) + rest;
    assert(s.skip(0) =~= s);
    lemma_uint_at(s, 0, v.request_id as nat, 4, e2 + rest);
    lemma_prefixed_at(s, 4, v.new_mining_job_token, 1, rest);
}

/// A decoded message stands in the decoded bytes where `success_layout`
/// says, and the decoder leaves exactly what follows its last field.
pub proof fn lemma_success_decoded_layout(s: Seq<u8>)
    requires
        parse_success(s) is Some,
    ensures
        parse_success(s) matches Some((v, rest)) && success_layout(s, v) && rest == s.skip(
            success_size(v) as int,
        ),
{
    lemma_success_parsed(s);
    let (v, rest) = parse_success(s).unwrap();
    lemma_success_layout(v, rest);
}

impl CommitMiningJobSuccess {
    /// The size of the encoding: the sum of the sizes of the fields.
    pub fn get_size(&self) -> (r: usize)
        ensures
            r as nat == success_size(self@),
            r as nat == encode_success(self@).len(),
    {
        let token = self.new_mining_job_token.inner_as_ref().len();
        proof {
            crate::byte_order::lemma_le_bytes_len(self.request_id as nat, 4);
            crate::byte_order::lemma_le_bytes_len(token as nat, 1);
        }
        4 + (1 + token)
    }

    /// The encoding of the message (whose token always fits it).
    pub fn to_bytes(&self) -> (r: Vec<u8>)
        ensures
            r@ == encode_success(self@),
            self@.new_mining_job_token.len() <= 255,
            success_layout(r@, self@),
            r@.len() == success_size(self@),
    {
        let _ = self.new_mining_job_token.inner_as_ref();
        let mut out: Vec<u8> = Vec::new();
        push_le(&mut out, self.request_id as u64, 4);
        push_b0255(&mut out, &self.new_mining_job_token);
        proof {
            let e1 = le_bytes(self.request_id as nat, 4);
            assert(Seq::<u8>::empty() + e1 =~= e1);
            assert(out@ == encode_success(self@));
            lemma_success_layout(self@, Seq::empty());
            assert(encode_success(self@) + Seq::<u8>::empty() =~= encode_success(self@));
        }
        out
    }

    /// Decodes a message at the start of `bytes`; on success, also says how
    /// many bytes it took.
    pub fn from_bytes(bytes: &[u8]) -> (r: Result<(CommitMiningJobSuccess, usize), Error>)
        ensures
            read_matches(bytes@, parse_success(bytes@), r, |m: CommitMiningJobSuccess| m@),
            r matches Ok((m, n)) ==> success_layout(bytes@, m@) && n == success_size(m@),
    {
        assert(bytes@.skip(0) =~= bytes@);
        let (request_id, p1) = match read_u32(bytes, 0) {
            Ok(x) => x,
            Err(e) => return Err(e),
        };
        let (new_mining_job_token, p2) = match read_b0255(bytes, p1) {
            Ok(x) => x,
            Err(e) => return Err(e),
        };
        let m = CommitMiningJobSuccess { request_id, new_mining_job_token };
        proof {
            lemma_success_decoded_layout(bytes@);
            let (v, rest) = parse_success(bytes@).unwrap();
            assert(m@ == v);
            assert(bytes@.skip(p2 as int) == rest);
            assert(bytes@.skip(p2 as int).len() == bytes@.skip(success_size(v) as int).len());
        }
        Ok((m, p2))
    }
}

} // verus!
