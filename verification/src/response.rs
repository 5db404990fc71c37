use vstd::prelude::*;

use crate::coin::Coin;
use crate::helpers::CoinModel;

verus! {

/// A message that the contract asks the chain to dispatch, as a mathematical value.
pub enum CosmosMsgModel {
    BankSend { to_address: Seq<char>, amount: Seq<CoinModel> },
    WasmExecute { contract_addr: Seq<char>, msg: Seq<u8>, funds: Seq<CoinModel> },
    Stargate { type_url: Seq<char>, value: Seq<u8> },
}

/// A transfer of tokens.
#[derive(Debug, PartialEq, Eq)]
pub enum BankMsg {
    Send { to_address: String, amount: Vec<Coin> },
}

/// A call of another contract.
#[derive(Debug, PartialEq, Eq)]
pub enum WasmMsg {
    Execute { contract_addr: String, msg: Vec<u8>, funds: Vec<Coin> },
}

/// A message that the contract asks the chain to dispatch.
#[derive(Debug, PartialEq, Eq)]
pub enum CosmosMsg {
    Bank(BankMsg),
    Wasm(WasmMsg),
    /// A protobuf-encoded message of the chain, by its type URL.
    Stargate { type_url: String, value: Vec<u8> },
}

impl DeepView for CosmosMsg {
    type V = CosmosMsgModel;

    open spec fn deep_view(&self) -> CosmosMsgModel {
        match self {
            CosmosMsg::Bank(BankMsg::Send { to_address, amount }) => CosmosMsgModel::BankSend {
                to_address: to_address@,
                amount: amount.deep_view(),
            },
            CosmosMsg::Wasm(WasmMsg::Execute { contract_addr, msg, funds }) => CosmosMsgModel::WasmExecute {
                contract_addr: contract_addr@,
                msg: msg@,
                funds: funds.deep_view(),
            },
            CosmosMsg::Stargate { type_url, value } => CosmosMsgModel::Stargate {
                type_url: type_url@,
                value: value@,
            },
        }
    }
}

/// A key-value pair that the contract reports.
#[derive(Debug, PartialEq, Eq)]
pub struct Attribute {
    pub key: String,
    pub value: String,
}

impl DeepView for Attribute {
    type V = (Seq<char>, Seq<char>);

    open spec fn deep_view(&self) -> (Seq<char>, Seq<char>) {
        (self.key@, self.value@)
    }
}

/// The contract's answer to a transaction, as a mathematical value.
pub struct ResponseModel {
    pub messages: Seq<CosmosMsgModel>,
    pub attributes: Seq<(Seq<char>, Seq<char>)>,
}

/// The contract's answer to a transaction: the messages to dispatch and the
/// attributes to report, each in order.
#[derive(Debug, PartialEq, Eq)]
pub struct Response {
    pub messages: Vec<CosmosMsg>,
    pub attributes: Vec<Attribute>,
}

impl DeepView for Response {
    type V = ResponseModel;

    open spec fn deep_view(&self) -> ResponseModel {
        ResponseModel { messages: self.messages.deep_view(), attributes: self.attributes.deep_view() }
    }
}

/// A `String` holding the text of `s`.
pub fn text(s: &str) -> (r: String)
    ensures
        r@ == s@,
{
    s.to_owned()
}

impl Response {
    /// A response without messages or attributes.
    pub fn new() -> (r: Response)
        ensures
            r.deep_view().messages == Seq::<CosmosMsgModel>::empty(),
            r.deep_view().attributes == Seq::<(Seq<char>, Seq<char>)>::empty(),
    {
        let r = Response { messages: Vec::new(), attributes: Vec::new() };
        assert(r.deep_view().messages =~= Seq::<CosmosMsgModel>::empty());
        assert(r.deep_view().attributes =~= Seq::<(Seq<char>, Seq<char>)>::empty());
        r
    }

    /// This response with one more attribute at the end.
    pub fn add_attribute(self, key: &str, value: String) -> (r: Response)
        ensures
            r.deep_view().messages == self.deep_view().messages,
            r.deep_view().attributes == self.deep_view().attributes.push((key@, value@)),
    {
        let mut r = self;
        let ghost before = r.deep_view();
        r.attributes.push(Attribute { key: text(key), value });
        assert(r.deep_view().attributes =~= before.attributes.push((key@, value@)));
        assert(r.deep_view().messages =~= before.messages);
        r
    }

    /// This response with one more message at the end.
    pub fn add_message(self, msg: CosmosMsg) -> (r: Response)
        ensures
            r.deep_view().messages == self.deep_view().messages.push(msg.deep_view()),
            r.deep_view().attributes == self.deep_view().attributes,
    {
        let mut r = self;
        let ghost before = r.deep_view();
        let ghost m = msg.deep_view();
        r.messages.push(msg);
        assert(r.deep_view().messages =~= before.messages.push(m));
        assert(r.deep_view().attributes =~= before.attributes);
        r
    }
}

} // verus!
