# bitcoin-asmap-quorum

Maps from IP prefixes to autonomous systems (ASMaps), and how a quorum of
participants agrees on one. The library under `src/` is written in Verus: every
public function carries a contract, and Verus proves it. `app/` is the command
line around it.

## What the library does

- A map is a binary trie in normal form (`trie`). It is written as a list of
  prefixes, flat or as short as overlapping prefixes allow (`entries`), as text
  (`load`), or as a compact program of bits (`coder`, `binnode`, `binary`). One
  search (`plan`) finds both a shortest list and a compact program.
- Addresses, networks and routing prefixes have one text each (`addr`, `net`,
  `prefix`, `text`).
- A participant says what it believes a map to be in a claim (`claim`). The engine
  (`engine`) holds claims to fixed rules (`rules`), tallies their votes (`votes`),
  and makes the map on which enough participants agree (`consensus`).
- Reports of that can be checked, compared and made again from recorded claims
  (`report`); maps can be compared with each other (`diff`).
- Maps can be derived from routing dumps: the paths of routes are read from their
  attributes (`mrt`), and a prefix is assigned to the first network that all
  routes to it have in common (`bottleneck`).
- What a round of claims comes to is stated in `agreement`.
- A node (`node`) is the state of a participant in a network: what it publishes,
  what it does with what it hears, and when it gives out a result.
- `config` reads command lines; `nostr` words announcements; `testgen` draws maps.

## What is proved beyond the contracts

Statements that relate several functions stand as public proof functions, among
them:

- what is written is read back: `binary::binary_round_trip`,
  `entries::entries_round_trip`, `load::text_file_round_trip`,
  `load::binary_file_round_trip`, `addr::address_text_round_trip`,
  `net::network_text_round_trip`; so is what was read from elsewhere or written
  with unassigned space filled: `binary::decoded_maps_round_trip`,
  `binary::filled_maps_round_trip`;
- no binary map is the beginning of another: `binary::no_encoding_begins_another`;
- overlapping lists are as short as any list can be, and flat lists as short as
  any without overlaps: `entries::overlapping_entries_are_shortest`,
  `entries::flat_entries_are_shortest`; both come in order:
  `entries::entries_are_in_address_order`;
- a difference between maps says exactly what changed:
  `trie::diff_describes_every_change`;
- no claim that is rejected changes anything but the record, and every claim is
  counted once: `engine::rejected_claims_change_only_the_record`,
  `engine::rejected_claims_leave_the_result`, `engine::every_claim_is_accounted_for`;
- an assignment is published exactly if enough claims that count assert it:
  `agreement::published_entries_have_support`; what everybody claims is what is
  published: `agreement::what_everybody_claims_is_published`; and the order of
  claims does not matter: `agreement::the_order_of_claims_does_not_matter`;
- a replay is reproducible, and what it publishes verifies:
  `report::replay_is_deterministic`, `report::a_published_report_verifies`.

## What is believed

`src/outside.rs` holds the calls into other crates: SHA-256 (`sha2`), hexadecimal
text (`hex`), peer ids, keys and multiaddresses (`libp2p`). Besides these, `load`
relies on `core::str::from_utf8` and `text` on `String::push`.
