# withdraw-rewards-grant

A CosmWasm contract that lets a granter allow a grantee to withdraw a share of
the granter's pending staking rewards, up to a maximum percentage and until an
expiration time; the remainder goes back to the granter.

- `src/` is the library, verified with Verus:
  - `coin.rs`: coins and 18-digit fixed-point decimals;
  - `helpers.rs`: summing coins by denomination, splitting coins by a
    percentage, and the laws of both;
  - `state.rs`: the grants, kept in ascending order of the granters' address
    bytes, with their map model;
  - `msg.rs`, `response.rs`, `error.rs`: messages, responses and errors;
  - `msg_gen.rs`: the protobuf messages that claim rewards through authz;
  - `queries.rs`: the version and the summing of pending rewards;
  - `contract.rs`: grant, revoke, the steps of a withdrawal, the grant
    queries, and the laws that relate them.
- `app/` is the chain-facing contract: entry points, storage, address
  validation, chain queries and JSON (de)serialization.
- `tests/` runs the library on concrete values.
