# ram_mapper

Maps the logical RAMs of FPGA circuits onto the device's memory blocks
(LUTRAM, 8K and 128K block RAM), then balances every circuit until its block
RAM use keeps the ratios that its logic blocks allow. The library is written
in Verus and every function in `src/` is verified against its contract.

- `src/decimal.rs` — decimal text: reading `u32` fields, writing numbers.
- `src/parse.rs` — the tab-separated RAM and logic block lines.
- `src/ram.rs` — the device's blocks and the RAM and circuit records.
- `src/mapping.rs` — building one RAM out of blocks of a given type.
- `src/placement.rs` — the first, size-based placement of every RAM.
- `src/sorting.rs` — ordering a circuit's RAMs by capacity (stable).
- `src/legality.rs` — the legality checks and the balancing loop.
- `src/report.rs` — the lines of the result file.
- `app/main.rs` — the command line program: file I/O and options.

Run the program with the RAM file and the logic block file as arguments
(`-v` for verbose output); it writes `ram_mappings.txt`.
