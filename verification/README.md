# virtual_cpu

A tiny 16-bit machine with eight registers (the last one is the instruction
pointer) and 65536 bytes of memory, with:

- `assembler`: turns assembly text into a memory image, resolving labels;
- `machine`: runs a memory image instruction by instruction;
- `keys`: works out which keys to hold to type an image into a physical
  machine, address by address.

`src/` is verified with Verus; `app/` holds the command-line front end
(`app assembler FILE`, `app executor FILE`, `app writer FILE`).
