# spur

The verified core of spur's job-array, burst-buffer, node-list and accounting
logic.

- `src/` is the library, verified with Verus:
  - `array`: parsing job array specs (`0-99%10`, `1,3,5`, `0-10:2`) into sorted,
    distinct task ids, and aggregating an array job's state from its tasks.
  - `burst_buffer`: the `--bb` capacity grammar and the staging state.
  - `nodelist`: where a job's node list comes from, and normalizing a node file.
  - `accounting`: fair-share half-life and look-back window, and the integer
    columns of a job start record.
  - `job`: job states; `text` and `sorting`: character-level and sorting
    building blocks.
- `app/` holds what stays ordinary Rust: reading node files, and the serde and
  `std::error::Error` forms of the library's types.
- `tests/` exercises the library on concrete inputs.
- The accounting database side (recording job starts and ends, reading usage
  and accounts to compute fair-share factors) is not in this crate: the
  database layer it runs on is not part of these sources, so neither the
  library nor `app/` depends on sqlx, tokio or tracing. Only the integer
  decisions of that side stand in `src/accounting.rs`.
