# pvm-decompiler

A decompiler for PVM (Polkadot Virtual Machine) bytecode, verified with Verus.

The library in `src/` turns the bytes of a program into pseudo-code, LLVM IR or C:

- `varint`, `pvm`, `instruction`, `decoder`: bytes to instructions, and what each
  instruction reads and writes.
- `cfg`, `graph`, `dominators`, `loops`, `reach`: the control flow graph and what is
  computed on it.
- `dataflow`, `ir`: liveness, definitions and uses, static single assignment.
- `lifting`: instructions to expressions, with simplification and propagation.
- `functions`, `boundaries`: where functions begin and end, and who calls whom.
- `structuring`: loops, conditionals and switches, and the pseudo-code.
- `driver`: from bytes to the pseudo-code of a whole program.
- `llvm_lift`, `decompile`, `llm_refine`: LLVM IR, C made of it, and the requests and
  replies of a refinement by a language model.
- `ordered`, `names`, `scan`, `text`: sorted keys, maps by name, and text.

Every function there carries a contract, stated over spec functions of the same module.
Properties that span functions are public proof functions whose names begin with `law_`.
Of std, `char::is_alphanumeric`, `char::from_u32` and `String::push` are trusted; nothing
else is.

`app/` is the command line program: arguments, files, external tools and requests.
