# polars_kernels

Verified kernels over columns and frames:

- a KLL quantile sketch, which summarises a stream in little memory (`kll`, modelled in
  `kll_model`, its laws in `kll_laws`, the capacities of its compactors in `capacity`);
- merges of frames that are sorted by a key column: two at a time (`merge`, `indicator`,
  `merge_frames`) or any number (`heap`, `merge_many`, `merge_many_frames`). Columns are turned to
  their physical form and back (`physical`) and read along the merge order (`gather`); `shape` says
  which frames can be merged one after the other.

The frames are a model: plain columns that hold what a merge reads of a data frame. The data frame
library itself is not called.

What holds of all merges stands in `merge_laws` and `merge_many_laws` for sequences, and for frames
in `frame_laws` (one merge), `pairwise_laws` (one frame after the other), `same_frames` (frames that
hold the same) and `order_laws` (one after the other against all at once). `keys` models the keys of
rows, `total_ord` and `cells` hold the orders, `frame` the columns and frames. `app/` holds what
works in floating point or text.

Trusted without proof: drawing coins from `rand`, `slice::sort_unstable_by` and `Arc::clone`.
