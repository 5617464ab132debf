# msm

Multi-scalar multiplication over elliptic-curve groups of prime order: given coefficients
`s[0], .., s[n - 1]` and points `P[0], .., P[n - 1]`, the point
`s[0] * P[0] + .. + s[n - 1] * P[n - 1]`.

The library under `src/` is verified with Verus. Every point is known by its logarithm to the
generator of the group, and each multiplication is proved to return the point whose logarithm
is the sum of the products of the coefficients and the logarithms.

| Module | Contents |
| --- | --- |
| `curve` | the groups, the coefficients, and what it is to be a multi-scalar multiplication |
| `bn256` | the first bn256 group, as `halo2curves` computes in it |
| `integers` | machine integers as coefficients |
| `sums`, `digits`, `bytes`, `windows` | sums, digits of numbers, numbers in bytes, windows of bits |
| `buckets` | buckets of points and their weighted sum |
| `serial` | multiplication by field elements on one thread |
| `small` | multiplication by machine words: one bucket for each coefficient, or window by window |
| `parallel` | work that the threads of `rayon` share out |
| `kernels` | what each thread of a grid computes, and what the grid computes together |
| `gpu` | grids, passes over device buffers, and the multiplications made of kernels |
| `dispatch` | which algorithm suits which coefficients |
| `laws` | what holds of the multiplication whichever algorithm computes it |

What is believed without proof: the arithmetic of `halo2curves` (in `bn256`), that `rayon`
calls a function once for each piece and sums what it returns (in `parallel`), and
`usize::ilog2` of the standard library (in `digits`).

In the library the kernels run thread by thread on the host. `app/` launches them on a device.
