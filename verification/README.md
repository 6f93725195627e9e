# vrm

Generates what an email-wallet rule needs: the Solidity verifier wrapper,
manipulator and deployment script of the rule, the relayer's regex files (the
DFA of the rule's body regex and the substring definitions of its public parts)
and circuit configuration, and the paths of its proving keys.

## Layout

- `src/` is the verified library (Verus).
  - `text.rs`: decimal numbers, string replacement and path joining, with their
    specifications.
  - `json.rs`, `fancy.rs`, `graph.rs`: the calls into serde_json, fancy-regex
    and petgraph, each behind a trusted wrapper whose contract names what the
    call gives.
  - `vrm/js_caller.rs`: reading a DFA description (accepting state, largest
    state, regex definition text) and turning it into a graph of reversed
    transitions.
  - `vrm/gen_regex_defs.rs`, `vrm/substr_defs.rs`, `vrm/substr_paths.rs`: the
    body regex of a rule, the part regexes, and the substring transitions of
    each public part gathered from the accepting paths of the DFA.
  - `vrm/gen_solidity.rs`: the Solidity sources of a rule from their templates.
  - `vrm/gen_relayer_configs.rs`, `gen_relayer_configs.rs`: the circuit
    parameters and relayer definitions of a rule (two configuration layouts).
  - `key_paths.rs`: the files that the proving-key generation reads and writes.
- `tests/`: tests of the library on concrete values.
- `app/`: the command-line program: argument handling, file input and output,
  the JavaScript regex helpers, the walk over the DFA graph, and the proving-key
  generation.
