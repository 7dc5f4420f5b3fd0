# Thor

Thor talks to Samsung devices in download mode (the Odin protocol) and in upload mode. The engine
under `src/` is written in Verus: what each function returns, and what each session sends and
receives, is stated in its contract and proved.

## Layout

- `src/` — the verified library
  - `bytes`, `text`, `number`, `path` — little-endian numbers, text, numerals, paths
  - `proto` — the 1024-byte command packets
  - `transport`, `backend` — the seam to USB, and which device, interface and buffer size to use
  - `odin`, `session`, `action` — download-mode sessions: what goes over the wire, how a session is
    opened and finished, and that nothing destructive is sent unconfirmed
  - `upload`, `dmesg`, `bootlog` — dumping memory, and carving the kernel log out of a dump
  - `pit`, `flash`, `archive`, `headers` — partition tables, flash plans, tar and LZ4 archives, and
    how far a tar archive can be walked through
  - `report`, `dryrun`, `live`, `listing`, `progress` — what is shown to the user
  - `flashing` — the steps of a flash behind its guard: announce, write each matched image, stop at
    an error
  - `command`, `shell`, `guard`, `trace` — the command line, the shell, confirmations, wire traces
- `tests/` — tests of the library, with scripted transports
- `app/` — the `thor` program: USB, files, terminal

Laws that span several functions are public proof functions whose names begin with `law_`.

## What is trusted

A transport is specified by the history of its transfers, a dump's sink by the chunks it was offered
and a progress meter by the reports it got; an implementation has to keep these up. `MemorySink` and
`QuietMeter` are verified to. Beyond that, the proofs rest on the contracts of a few outside
functions: the LZ4 frame decoder, the walk through a tar archive and the reading of one of its
entries (`archive`), `String::from_utf8_lossy` and `String::push` (`text`), and
`Duration::from_millis` (`transport`).

## What is not there

The program plans, announces and confirms a flash, then stops with an error where image data or a
partition table would have to be sent to the device. Everything else that it does to a device is
listed in `odin` and `upload`.
