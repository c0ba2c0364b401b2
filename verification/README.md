# foundry

Verified pieces of a toolkit for smart contracts.

- `identifier` finds out which contract stands behind an address of a call trace:
  - `local` compares the code at an address with the contracts of the project,
  - `etherscan` remembers what Etherscan said of addresses that were looked up,
  - `handler` serves lookups as they come in, and `laws` states what holds of it however it is
    driven,
  - `metadata` reads a contract out of an answer of Etherscan.
- `build_args` says what the arguments of a build change in the configuration of a project.
- `abi` reads ABIs. Before that `abi_text` looks for the names of types on which their reader would
  panic; it finds its way with `json`, and `reading` says what comes of reading a name.
- `ordered_map` and `order` hold the ordered map on which these rest.
- `abi` and `identifier::etherscan` hold what is assumed of the ethers and serde_json crates.

`src/` is the library, proved with Verus. `app/` drives it: it queries Etherscan, reads artifacts,
runs the handler as a future, and takes the arguments of a build from their surroundings.
