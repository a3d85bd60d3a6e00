# private_scoring

Scoring of vectors against a query, in the clear and under encryption. The library in `src/` is
verified with Verus; `app/` is ordinary Rust around it.

| module | what it holds |
| --- | --- |
| `hits`, `scoring`, `float_bits` | rankings, costs, and the order of floating-point numbers by their bits |
| `ivf`, `probing` | clusters of vectors, how they are stored, and which of them a query probes |
| `plaintext` | scoring of clusters in the clear |
| `sap` | scoring of vectors that are scaled and perturbed |
| `emvp` | scoring by an encrypted matrix-vector product over the field of `2^61 - 1` elements |
| `tiptoe` | scoring of one cluster that the server does not learn, with a compressed hint |
| `gpu` | which clusters a graphics card holds, and how much of its memory they may take |
| `bytes`, `cache`, `prng`, `parallel`, `math` | shared parts |

Floating-point numbers do not occur in `src/`. Components of vectors are scaled and rounded to
integers, distances are given by their bits, and scores are integers. `app/` converts, reads and
writes files, runs the work on other threads, and talks to graphics cards.
