# parallel_builder

Resolving conflicts between orders when a block is built in parallel, verified with Verus.

- `src/` is the verified library. Each module begins with what it is about; `lib.rs` lists them.
  Laws that hold across functions are public proof functions whose names begin with `law_`.
- `tests/` runs the library, with the outside crates that it calls.
- `app/` is ordinary Rust around the library: files, threads, process-wide state, the EVM's database
  interface and the command line.

What is believed without proof stands behind functions marked `external_body` and behind
`assume_specification`. Each of them says which outside function it calls and what it claims of it.
