# modbridge

A Modbus TCP utility — poll live register values, serve them as a REST API,
log them to CSV, or run a fake device — whose core is verified with Verus.

- `src/` is the verified library:
  - `text` — decimal and hex text of numbers, and the `u16` reader;
  - `client` — register ranges ("40001-40010"), register numbering, and the
    events and next steps of the polling loops;
  - `sim_config` — per-register simulator behaviours;
  - `simulator` — the 100-register bank, its seeding, its ticks (walk,
    static, counter, sine sample) and the answers to function codes 3 and 4;
  - `api` — the state behind the REST API and how poll outcomes update it;
  - `display` — the live terminal table;
  - `logger` — the CSV records appended per poll.
- `app/` is the program around it: the command line, the Modbus client, the
  HTTP server, the TCP server of the simulator, file access, and the sine
  wave (floating point).
- `tests/` runs the library on concrete values.
