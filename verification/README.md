# sprdflash

A flasher for SPRD/UNISOC `.pac` firmware (RDA8910 / UIS8910, Air724UG and friends),
built for a manufacturing line.

- `src/` is the library, written in [Verus](https://github.com/verus-lang/verus): package
  parsing, link-layer framing, flash plans, the device driver, layout reconstruction,
  station and line logic. But for the few calls of the standard library named below, every
  function is proved to meet its contract.
- `app/` is the `sprdflash` program around it: command line, serial ports, threads, files.
- `tests/` runs the library, end to end against a simulated device too.

## What is proved

Contracts are exact but for what the clock decides: a parser says which inputs it accepts
and what each error means; a checksum is the mathematical one. The device driver's
contracts are dialogues (`src/flash/dialogue.rs`, `src/flash/procedure.rs`): which message
comes next, what each possible answer leads to, and which result each way ends with. On
top of those stand laws about whole runs, such as:

- a run whose every message goes through, and is answered in time and as asked, succeeds;
- a run that succeeds has written every partition whole, and read it back if asked;
- nothing is erased without `--format`, and a dump writes nothing;
- the size that a full dump finds is the size of the device's flash, up to its grain;
- a package with a payload written anew and its checksums refreshed parses to the same
  table, passes its checks and holds that payload;
- the regions of a reconstructed layout tile the flash, under distinct names;
- line counters match a recount of the records, in whatever order units complete.

## What is taken on trust

The machine's clock (`src/transport/clock.rs`), of which nothing is claimed, and four
functions of the standard library (`src/text.rs`): `String::push`, `char::from_u32`,
`char::is_whitespace` and `String::from_utf8_lossy`. Contracts say how long each wait may
last, that nothing gives up before its wait has run out, and that until then each look at
the clock that finds time left is followed by a read. When a wait runs out is the clock's
to tell, and so is every time that is reported.

A `Transport` (`src/transport.rs`) other than the simulated one must do what the trait's
contract says.
