use vstd::prelude::*;
use vstd::utf8::{decode_utf8, encode_utf8};

use cosmos_sdk_proto::cosmos::authz::v1beta1::MsgExec;
use cosmos_sdk_proto::cosmos::distribution::v1beta1::{MsgSetWithdrawAddress, MsgWithdrawDelegatorReward};
use cosmos_sdk_proto::prost::EncodeError;
use cosmos_sdk_proto::traits::{Message, MessageExt};

use crate::error::ContractError;
use crate::msg::PendingReward;
use crate::response::{CosmosMsg, CosmosMsgModel, text};

verus! {

#[verifier::external_type_specification]
#[verifier::external_body]
pub struct ExEncodeError(EncodeError);

/// A protobuf message packed with its type URL.
#[derive(Debug, PartialEq, Eq)]
pub struct Any {
    pub type_url: String,
    pub value: Vec<u8>,
}

impl DeepView for Any {
    type V = (Seq<char>, Seq<u8>);

    open spec fn deep_view(&self) -> (Seq<char>, Seq<u8>) {
        (self.type_url@, self.value@)
    }
}

/// `n` as a protobuf varint: seven bits per byte, least significant first,
/// with the high bit set on every byte but the last.
pub open spec fn varint(n: nat) -> Seq<u8>
    decreases n,
{
    if n < 128 {
        seq![n as u8]
    } else {
        seq![(n % 128 + 128) as u8] + varint(n / 128)
    }
}

/// A length-delimited protobuf field: its key (field number `tag`, wire type
/// 2), then the length of `body`, then `body`.
pub open spec fn length_delimited_field(tag: nat, body: Seq<u8>) -> Seq<u8> {
    varint(tag * 8 + 2) + varint(body.len()) + body
}

/// A proto3 `string` field: nothing for the empty string, else its UTF-8
/// bytes as a length-delimited field.
pub open spec fn string_field(tag: nat, s: Seq<char>) -> Seq<u8> {
    if s.len() == 0 {
        Seq::empty()
    } else {
        length_delimited_field(tag, encode_utf8(s))
    }
}

/// A proto3 `bytes` field: nothing when empty, else a length-delimited field.
pub open spec fn bytes_field(tag: nat, b: Seq<u8>) -> Seq<u8> {
    if b.len() == 0 {
        Seq::empty()
    } else {
        length_delimited_field(tag, b)
    }
}

/// The protobuf encoding of an `Any` with this type URL and value.
pub open spec fn any_encoding(msg: (Seq<char>, Seq<u8>)) -> Seq<u8> {
    string_field(1, msg.0) + bytes_field(2, msg.1)
}

/// A repeated field of `Any` messages: each message, in order, as a
/// length-delimited field.
pub open spec fn repeated_any_field(tag: nat, msgs: Seq<(Seq<char>, Seq<u8>)>) -> Seq<u8>
    decreases msgs.len(),
{
    if msgs.len() == 0 {
        Seq::empty()
    } else {
        repeated_any_field(tag, msgs.drop_last()) + length_delimited_field(tag, any_encoding(msgs.last()))
    }
}

/// The protobuf encoding of a `MsgWithdrawDelegatorReward` with these
/// delegator and validator addresses (fields 1 and 2).
pub open spec fn withdraw_delegator_reward_encoding(delegator: Seq<char>, validator: Seq<char>) -> Seq<u8> {
    string_field(1, delegator) + string_field(2, validator)
}

/// The protobuf encoding of a `MsgSetWithdrawAddress` with these delegator and
/// withdraw addresses (fields 1 and 2).
pub open spec fn set_withdraw_address_encoding(delegator: Seq<char>, withdraw: Seq<char>) -> Seq<u8> {
    string_field(1, delegator) + string_field(2, withdraw)
}

/// The protobuf encoding of a `MsgExec` with this grantee (field 1) and these
/// packed messages (field 2).
pub open spec fn msg_exec_encoding(grantee: Seq<char>, msgs: Seq<(Seq<char>, Seq<u8>)>) -> Seq<u8> {
    string_field(1, grantee) + repeated_any_field(2, msgs)
}

/// Reads a protobuf varint at the start of `b`: its value and how many bytes
/// it takes.
pub open spec fn parse_varint(b: Seq<u8>) -> (nat, nat)
    decreases b.len(),
{
    if b.len() == 0 {
        (0, 0)
    } else if b[0] < 128 {
        (b[0] as nat, 1)
    } else {
        let (v, k) = parse_varint(b.drop_first());
        ((b[0] - 128 + 128 * v) as nat, k + 1)
    }
}

/// Where the length-delimited field at the start of `b` ends: its key byte,
/// its length varint, and its body.
pub open spec fn field_end(b: Seq<u8>) -> int {
    let (len, k) = parse_varint(b.drop_first());
    (1 + k + len) as int
}

/// The body of the length-delimited field at the start of `b`, whose key
/// takes one byte.
pub open spec fn field_body(b: Seq<u8>) -> Seq<u8> {
    let (len, k) = parse_varint(b.drop_first());
    b.subrange((1 + k) as int, field_end(b))
}

/// What follows the length-delimited field at the start of `b`.
pub open spec fn field_rest(b: Seq<u8>) -> Seq<u8> {
    if field_end(b) <= b.len() {
        b.skip(field_end(b))
    } else {
        Seq::empty()
    }
}

/// Reads an optional proto3 `string` field with number `tag` at the start of
/// `b`: the string (empty when the field is absent) and what follows.
pub open spec fn decode_string_field(tag: nat, b: Seq<u8>) -> (Seq<char>, Seq<u8>) {
    if b.len() > 0 && b[0] == tag * 8 + 2 {
        (decode_utf8(field_body(b)), field_rest(b))
    } else {
        (Seq::empty(), b)
    }
}

/// Reads an optional proto3 `bytes` field with number `tag` at the start of
/// `b`: the bytes (empty when the field is absent) and what follows.
pub open spec fn decode_bytes_field(tag: nat, b: Seq<u8>) -> (Seq<u8>, Seq<u8>) {
    if b.len() > 0 && b[0] == tag * 8 + 2 {
        (field_body(b), field_rest(b))
    } else {
        (Seq::empty(), b)
    }
}

/// Reads the body of an `Any`: its type URL and value.
pub open spec fn decode_any(b: Seq<u8>) -> (Seq<char>, Seq<u8>) {
    let (url, rest) = decode_string_field(1, b);
    (url, decode_bytes_field(2, rest).0)
}

/// Reads a run of length-delimited `Any` fields.
pub open spec fn decode_repeated_any(b: Seq<u8>) -> Seq<(Seq<char>, Seq<u8>)>
    decreases b.len(),
{
    if b.len() == 0 || field_end(b) > b.len() {
        Seq::empty()
    } else {
        seq![decode_any(field_body(b))] + decode_repeated_any(field_rest(b))
    }
}

/// Reads a `MsgExec`: its grantee and its packed messages.
pub open spec fn decode_msg_exec(b: Seq<u8>) -> (Seq<char>, Seq<(Seq<char>, Seq<u8>)>) {
    let (grantee, rest) = decode_string_field(1, b);
    (grantee, decode_repeated_any(rest))
}

/// Reads a message made of two proto3 `string` fields, numbers 1 and 2.
pub open spec fn decode_two_strings(b: Seq<u8>) -> (Seq<char>, Seq<char>) {
    let (first, rest) = decode_string_field(1, b);
    (first, decode_string_field(2, rest).0)
}

proof fn lemma_parse_varint(n: nat, rest: Seq<u8>)
    ensures
        parse_varint(varint(n) + rest) == (n, varint(n).len()),
        varint(n).len() >= 1,
    decreases n,
{
    let b = varint(n) + rest;
    if n < 128 {
        assert(b[0] == n as u8);
    } else {
        lemma_parse_varint(n / 128, rest);
        assert(b.drop_first() =~= varint(n / 128) + rest);
        assert(b[0] == (n % 128 + 128) as u8);
        assert(n == 128 * (n / 128) + n % 128);
    }
}

proof fn lemma_field(tag: nat, body: Seq<u8>, rest: Seq<u8>)
    requires
        1 <= tag <= 2,
    ensures
        (length_delimited_field(tag, body) + rest).len() > 0,
        (length_delimited_field(tag, body) + rest)[0] == tag * 8 + 2,
        field_end(length_delimited_field(tag, body) + rest) == length_delimited_field(tag, body).len(),
        field_body(length_delimited_field(tag, body) + rest) == body,
        field_rest(length_delimited_field(tag, body) + rest) == rest,
{
    let b = length_delimited_field(tag, body) + rest;
    assert(varint(tag * 8 + 2) == seq![(tag * 8 + 2) as u8]);
    let lv = varint(body.len());
    assert(b.drop_first() =~= lv + (body + rest));
    lemma_parse_varint(body.len(), body + rest);
    let k = lv.len() as int;
    assert(b.subrange(1 + k, 1 + k + body.len()) =~= body);
    assert(b.skip(1 + k + body.len()) =~= rest);
}

proof fn lemma_string_field(tag: nat, s: Seq<char>, rest: Seq<u8>)
    requires
        1 <= tag <= 2,
        rest.len() == 0 || rest[0] != tag * 8 + 2,
    ensures
        decode_string_field(tag, string_field(tag, s) + rest) == (s, rest),
{
    if s.len() == 0 {
        assert(string_field(tag, s) + rest =~= rest);
    } else {
        lemma_field(tag, encode_utf8(s), rest);
        vstd::utf8::encode_utf8_decode_utf8(s);
    }
}

proof fn lemma_bytes_field(tag: nat, v: Seq<u8>, rest: Seq<u8>)
    requires
        1 <= tag <= 2,
        rest.len() == 0 || rest[0] != tag * 8 + 2,
    ensures
        decode_bytes_field(tag, bytes_field(tag, v) + rest) == (v, rest),
{
    if v.len() == 0 {
        assert(bytes_field(tag, v) + rest =~= rest);
    } else {
        lemma_field(tag, v, rest);
    }
}

proof fn lemma_any(m: (Seq<char>, Seq<u8>))
    ensures
        decode_any(any_encoding(m)) == m,
{
    let tail = bytes_field(2, m.1);
    if m.1.len() > 0 {
        lemma_field(2, m.1, Seq::empty());
        assert(tail + Seq::<u8>::empty() =~= tail);
    }
    lemma_string_field(1, m.0, tail);
    assert(tail + Seq::<u8>::empty() =~= tail);
    lemma_bytes_field(2, m.1, Seq::empty());
}

proof fn lemma_repeated_front(tag: nat, m: (Seq<char>, Seq<u8>), ms: Seq<(Seq<char>, Seq<u8>)>)
    ensures
        repeated_any_field(tag, seq![m] + ms) == length_delimited_field(tag, any_encoding(m))
            + repeated_any_field(tag, ms),
    decreases ms.len(),
{
    if ms.len() == 0 {
        assert(seq![m] + ms =~= seq![m]);
        assert(seq![m].drop_last() =~= Seq::<(Seq<char>, Seq<u8>)>::empty());
        assert(seq![m].last() == m);
        assert(repeated_any_field(tag, Seq::<(Seq<char>, Seq<u8>)>::empty()) == Seq::<u8>::empty());
        assert(repeated_any_field(tag, seq![m]) =~= Seq::<u8>::empty() + length_delimited_field(
            tag,
            any_encoding(m),
        ));
    } else {
        assert((seq![m] + ms).drop_last() =~= seq![m] + ms.drop_last());
        lemma_repeated_front(tag, m, ms.drop_last());
    }
}

proof fn lemma_repeated(msgs: Seq<(Seq<char>, Seq<u8>)>)
    ensures
        decode_repeated_any(repeated_any_field(2, msgs)) == msgs,
        repeated_any_field(2, msgs).len() == 0 || repeated_any_field(2, msgs)[0] == 18,
    decreases msgs.len(),
{
    if msgs.len() == 0 {
    } else {
        let m = msgs[0];
        let ms = msgs.drop_first();
        assert(msgs =~= seq![m] + ms);
        lemma_repeated_front(2, m, ms);
        lemma_repeated(ms);
        lemma_field(2, any_encoding(m), repeated_any_field(2, ms));
        lemma_any(m);
        assert(seq![m] + ms =~= msgs);
    }
}

/// Law of `MsgExec` encoding: reading the bytes back gives the grantee and
/// the packed messages, each with its content and in its order; so two
/// different messages never share an encoding.
pub proof fn law_msg_exec_round_trip(grantee: Seq<char>, msgs: Seq<(Seq<char>, Seq<u8>)>)
    ensures
        decode_msg_exec(msg_exec_encoding(grantee, msgs)) == (grantee, msgs),
        forall|g2: Seq<char>, m2: Seq<(Seq<char>, Seq<u8>)>|
            #[trigger] msg_exec_encoding(g2, m2) == msg_exec_encoding(grantee, msgs) ==> g2 == grantee && m2
                == msgs,
{
    lemma_repeated(msgs);
    lemma_string_field(1, grantee, repeated_any_field(2, msgs));
    assert forall|g2: Seq<char>, m2: Seq<(Seq<char>, Seq<u8>)>|
        #[trigger] msg_exec_encoding(g2, m2) == msg_exec_encoding(grantee, msgs) implies g2 == grantee && m2
            == msgs by {
        lemma_repeated(m2);
        lemma_string_field(1, g2, repeated_any_field(2, m2));
    }
}

/// Law of the two-address encodings: reading the bytes back gives both
/// addresses, in their fields and unswapped.
pub proof fn law_two_strings_round_trip(first: Seq<char>, second: Seq<char>)
    ensures
        decode_two_strings(withdraw_delegator_reward_encoding(first, second)) == (first, second),
        decode_two_strings(set_withdraw_address_encoding(first, second)) == (first, second),
{
    let tail = string_field(2, second);
    if second.len() > 0 {
        lemma_field(2, encode_utf8(second), Seq::empty());
        assert(tail + Seq::<u8>::empty() =~= tail);
    }
    lemma_string_field(1, first, tail);
    lemma_string_field(2, second, Seq::empty());
    assert(tail + Seq::<u8>::empty() =~= tail);
}

/// The type URL of `MsgWithdrawDelegatorReward`.
pub open spec fn withdraw_delegator_reward_url() -> Seq<char> {
    "/cosmos.distribution.v1beta1.MsgWithdrawDelegatorReward"@
}

/// The type URL of `MsgSetWithdrawAddress`.
pub open spec fn set_withdraw_address_url() -> Seq<char> {
    "/cosmos.distribution.v1beta1.MsgSetWithdrawAddress"@
}

/// The type URL of `MsgExec`.
pub open spec fn msg_exec_url() -> Seq<char> {
    "/cosmos.authz.v1beta1.MsgExec"@
}

/// `MessageExt::to_any` of cosmos_sdk_proto on a `MsgWithdrawDelegatorReward`:
/// it succeeds, and the result carries the message's type URL and the
/// message's protobuf encoding, `withdraw_delegator_reward_encoding`.
/// `to_any` encodes into a fresh `Vec`, which prost refuses only when the
/// encoding needs more than `isize::MAX` bytes, more than a message made of
/// two strings held in memory takes.
#[verifier::external_body]
#[allow(deprecated)]
fn encode_withdraw_delegator_reward(delegator: &String, validator: &String) -> (r: Result<Any, EncodeError>)
    ensures
        r is Ok,
        r matches Ok(a) ==> a.type_url@ == withdraw_delegator_reward_url() && a.value@
            == withdraw_delegator_reward_encoding(delegator@, validator@),
{
    let msg = MsgWithdrawDelegatorReward {
        validator_address: validator.to_string(),
        delegator_address: delegator.to_string(),
    };
    match msg.to_any() {
        Ok(a) => Ok(Any { type_url: a.type_url, value: a.value }),
        Err(e) => Err(e),
    }
}

/// `MessageExt::to_any` of cosmos_sdk_proto on a `MsgSetWithdrawAddress`: it
/// succeeds, and the result carries the message's type URL and the message's
/// protobuf encoding, `set_withdraw_address_encoding`. `to_any` encodes
/// into a fresh `Vec`, which prost refuses only when the encoding needs more
/// than `isize::MAX` bytes, more than a message made of two strings held in
/// memory takes.
#[verifier::external_body]
#[allow(deprecated)]
fn encode_set_withdraw_address(delegator: &String, withdraw: &String) -> (r: Result<Any, EncodeError>)
    ensures
        r is Ok,
        r matches Ok(a) ==> a.type_url@ == set_withdraw_address_url() && a.value@
            == set_withdraw_address_encoding(delegator@, withdraw@),
{
    let msg = MsgSetWithdrawAddress {
        delegator_address: delegator.to_string(),
        withdraw_address: withdraw.to_string(),
    };
    match msg.to_any() {
        Ok(a) => Ok(Any { type_url: a.type_url, value: a.value }),
        Err(e) => Err(e),
    }
}

/// `Message::encode_to_vec` of prost on a `MsgExec` of cosmos_sdk_proto: the
/// protobuf encoding of the message, `msg_exec_encoding`. Encoding into a
/// fresh vector does not fail.
#[verifier::external_body]
fn encode_msg_exec(grantee: &String, msgs: Vec<Any>) -> (r: Vec<u8>)
    ensures
        r@ == msg_exec_encoding(grantee@, msgs.deep_view()),
{
    let exec = MsgExec {
        grantee: grantee.to_string(),
        msgs: msgs.into_iter().map(|m| cosmos_sdk_proto::Any { type_url: m.type_url, value: m.value }).collect(),
    };
    exec.encode_to_vec()
}

/// The messages that withdraw the rewards of `target_address` from each
/// validator of `pending_rewards`, in order.
pub fn withdraw_rewards_msgs(target_address: &String, pending_rewards: Vec<PendingReward>) -> (r: Result<
    Vec<Any>,
    ContractError,
>)
    ensures
        r matches Ok(msgs) && msgs.deep_view() == Seq::new(
            pending_rewards.len() as nat,
            |i: int|
                (
                    withdraw_delegator_reward_url(),
                    withdraw_delegator_reward_encoding(target_address@, pending_rewards[i].validator@),
                ),
        ),
{
    let ghost expected = Seq::new(
        pending_rewards.len() as nat,
        |i: int|
            (
                withdraw_delegator_reward_url(),
                withdraw_delegator_reward_encoding(target_address@, pending_rewards[i].validator@),
            ),
    );
    let mut msgs: Vec<Any> = Vec::new();
    let mut i: usize = 0;
    while i < pending_rewards.len()
        invariant
            i <= pending_rewards.len(),
            expected.len() == pending_rewards.len(),
            forall|t: int|
                0 <= t < pending_rewards.len() ==> #[trigger] expected[t] == (
                    withdraw_delegator_reward_url(),
                    withdraw_delegator_reward_encoding(target_address@, pending_rewards[t].validator@),
                ),
            msgs.deep_view() == expected.take(i as int),
        decreases pending_rewards.len() - i,
    {
        match encode_withdraw_delegator_reward(target_address, &pending_rewards[i].validator) {
            Ok(a) => {
                let ghost before = msgs.deep_view();
                msgs.push(a);
                assert(msgs.deep_view() =~= before.push(expected[i as int]));
                assert(expected.take(i + 1) =~= expected.take(i as int).push(expected[i as int]));
            },
            Err(e) => {
                return Err(ContractError::Encode(e));
            },
        }
        i += 1;
    }
    assert(expected.take(pending_rewards.len() as int) =~= expected);
    Ok(msgs)
}

/// Creates a MsgSetWithdrawAddress message for changing a wallet's delegation
/// rewards withdrawal address.
pub fn set_withdraw_rewards_msg(delegator_address: &String, target_withdraw_address: &String) -> (r: Result<
    Any,
    ContractError,
>)
    ensures
        r matches Ok(a) && a.deep_view() == (
            set_withdraw_address_url(),
            set_withdraw_address_encoding(delegator_address@, target_withdraw_address@),
        ),
        r matches Ok(a) && decode_two_strings(a.value@) == (delegator_address@, target_withdraw_address@),
{
    proof {
        law_two_strings_round_trip(delegator_address@, target_withdraw_address@);
    }
    match encode_set_withdraw_address(delegator_address, target_withdraw_address) {
        Ok(a) => Ok(a),
        Err(e) => Err(ContractError::Encode(e)),
    }
}

/// Creates a MsgExec message that has `grantee` execute `any_msgs`.
pub fn exec_msg(grantee: &String, any_msgs: Vec<Any>) -> (r: Result<CosmosMsg, EncodeError>)
    ensures
        r matches Ok(m) && m.deep_view() == (CosmosMsgModel::Stargate {
            type_url: msg_exec_url(),
            value: msg_exec_encoding(grantee@, any_msgs.deep_view()),
        }),
        r matches Ok(CosmosMsg::Stargate { value, .. }) && decode_msg_exec(value@) == (
            grantee@,
            any_msgs.deep_view(),
        ),
{
    proof {
        law_msg_exec_round_trip(grantee@, any_msgs.deep_view());
    }
    let value = encode_msg_exec(grantee, any_msgs);
    Ok(CosmosMsg::Stargate { type_url: text("/cosmos.authz.v1beta1.MsgExec"), value })
}

} // verus!
