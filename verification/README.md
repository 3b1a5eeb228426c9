# plonky2_gpu

The host side of a GPU-accelerated proving pipeline over the Goldilocks field, verified
with Verus.

An operation decides whether the host or the device does the work. On the host it computes
the result. For the device it produces a request, and reads the result out of what the
device hands back. Both sides are stated over the same specifications, so a right reply of
the device leads to the result of the host.

- `src/` is the library.
  - `fft`, `roots`, `polynomial`, `modular`, `goldilocks`: the field and its transforms.
  - `fft_gpu`: transforms and low-degree extensions, single and batched.
  - `merkle_layout`, `merkle_tree_gpu`, `merkle_device`: Merkle trees in the linear layout.
  - `transpose_gpu`: transposition with bit reversal.
  - `gpu`: the number of the device and what to prepare on it.
  - `bits`, `rows`, `hasher`: what the others share.
- `app/` runs the requests on a CUDA device.
- `tests/` runs the library with a stand-in for the device.
