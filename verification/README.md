# tvm_devirt

A verified library for undoing a bytecode virtual machine that protects x86-64 code, and a
command line around it.

- `src/ir` holds the intermediate representations: the hash-consed expression arena and its
  simplifier, the symbolic evaluator, recovered control flow graphs, scheduling into
  three-address code with its passes, and register allocation.
- `src/vm` holds what is known of the machine: its state, the loaded image, the search for
  entries, and the recovery of functions.
- `src/args.rs` reads numbers as they are given on the command line.
- `tests` runs the library on concrete values, up to whole recovered functions.
- `app` is ordinary Rust: it loads PE files, parses arguments and prints.

Expressions are given a meaning by `eval` over valuations of their inputs. Every rewrite, bit
fact, graft and scheduled instruction is specified against that meaning. What the decoder says
of an instruction is taken from `iced-x86` and named, not described.
