# fpgahog

Reserve FPGAs, and whole hosts, on machines you share with other people.

Anything claimable is a *resource*: `host` is the whole machine, every other name is an FPGA board.
Claims on different boards never collide. A shared claim only announces; an exclusive one is
enforced: the device files, JTAG cables and consoles of the board are handed to the claimant, and
what they were like before is written down and restored on release.

## Layout

- `src/` is the library, verified with Verus. It decides and computes: which claims collide, what
  a claim protects, what has to change on the machine, what is said. It works on plain values: the
  machine comes in as a snapshot (USB and PCI entries, files, processes, mounts), and what is to be
  done goes out as data.
  - `diskstate` the state that is kept between runs, `command` the commands
  - `claims`, `claiming` conflicts, checks, and making a claim
  - `fpga`, `inventory`, `discovery` boards: who should own them, finding and registering them
  - `cable`, `cable_locks` JTAG cables: finding, locking and re-plugging them
  - `hog`, `systemd_units` hogging the whole host, and undoing it
  - `report` what `status` and `list` print
  - `clock`, `util`, `text`, `seqs` time, text and sequences
- `app/` is the program around it: the command line, the statefile's format, and everything that
  touches the machine.
- `tests/` runs the library on concrete values.

The names of proof functions that start with `law_` state what holds of the library as a whole,
such as that no two accepted claims collide, or that converging twice changes nothing more.
