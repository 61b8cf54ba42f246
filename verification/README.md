# tree_hash

Merkle proofs over the field roots of containers, verified with Verus.

- Progressive containers: roots, generalized indices, and the branch of any field.
- Balanced containers: multiproofs that prove several nodes of one tree together.
- Verifiers for both, which say of every input whether it is accepted.

`src/` is the library. Every function states what it returns over the definitions in `src/tree.rs`,
`src/spine.rs`, `src/container.rs`, `src/branch.rs` and `src/multiproof.rs`; `src/laws.rs` proves what
holds between them. The hash of two nodes comes from `ethereum_hashing`, through one wrapper in
`src/hash.rs`; it is taken to be a function of its arguments and nothing else.

`app/` gives the library's error the standard error traits. `tests/` runs the library on concrete
values.
