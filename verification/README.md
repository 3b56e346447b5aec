# kangaroo

Pollard's kangaroo search for discrete logarithms on secp256k1, verified with
Verus: given a public key `P` and a range, find `k` with `P = k * G`.

- `src/bytes.rs`, `src/math.rs`: numbers as bytes and limbs, 256-bit arithmetic.
- `src/curve.rs`: points of the curve, computed by `k256`.
- `src/cpu/init.rs`: jump table and starting positions.
- `src/cpu/wild.rs`: the distances that wild kangaroos start with.
- `src/cpu/dp_table.rs`: the table of distinguished points, which turns the
  meeting of a tame and a wild kangaroo into the private key.
- `src/solver.rs`: the bookkeeping of a search on a compute device.
- `src/gpu.rs`: the records exchanged with the device.
- `src/run.rs`, `src/key_hex.rs`: arguments, decisions and output of a run.
- `app/`: the command-line program: arguments, logging, and the device itself.
  The shader and its buffers, the parsing of keys and a solver for the CPU come
  from the program that implements `platform::Platform`.
