# state_preimages

Lists the live accounts and storage slots of an Ethereum state, writes and checks files of their
preimages, and summarises what the state holds. The library is written in Verus.

## Layout

- `src/iterators/`: the two listings. `plain` lists by address and slot, `eip7748_scan` and
  `eip7748` collect and list by the Keccak-256 digests of both. Neither reads a table: each tells
  which row to read or which key to look up next, and takes the answer. `listing` says what a
  listing of whole tables holds, and `failing` what comes out where rows cannot be read or lookups
  fail. The other modules prove that the listings hold exactly that, in their orders, and that each
  error is handed out once.
- `src/preimages.rs`: what a preimage file holds, and what makes a file fit a listing.
- `src/frequency.rs`, `src/frequency_laws.rs`: how often slots start with the same bytes.
- `src/stats.rs`, `src/rounding.rs`, `src/account_stats.rs`, `src/account_laws.rs`: summaries of
  samples and accounts.
- `src/commands.rs`: the steps of the commands on preimage files.
- `src/bytes.rs`, `src/byte_map.rs`, `src/hashing.rs`, `src/text.rs`: byte strings, their order,
  digests and text.
- `app/`: the command line tool over a Reth data directory.

## What is taken on trust

Calls into other crates and into the standard library stand in small functions whose contracts are
not proved: Keccak-256, the text of addresses and words (`alloy-primitives`), hexadecimal digits
(`hex`), sorting by digest (`rayon`), and sorting by count and by value, and converting a value into
its own type (the standard library). The digest function is only named: nothing is claimed of it but
that it depends on its input alone.
