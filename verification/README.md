# tightbeam-ext, verified core

The logic of the tightbeam extensions, proved with Verus:

- `src/vm`: the MPC bytecode VM: instruction set and its DER wire format
  (`isa`, `der`, `wire`, `codec`), static validation (`validate`), the
  round-by-round interpreter (`interpreter`, `executor`), the program
  builder and the AES-128 circuits (`builder`, `circuits`), the control
  plane (`control`, `submission`), reveal bookkeeping (`opening`), the
  public side of masked table lookups (`lookup`) and the clients a program
  involves (`party`).
- `src/pubsub`: topics, policies, the dense-order backplane, the topic
  registry with bounded per-subscriber lanes, wire-command dispatch and
  the opaque frame body.
- `src/mpc`: roster rules, the session round machine, the lane-tagged
  frame body, errors and trace events.
- `src/compose`: the version a frame needs for the parts it carries.

`app/` holds the I/O around it: the serve loop and delivery tasks, the
party mesh and session driver, the program runner with its HoneyBadger
backend, and the browser frame composer. `tests/` exercises the library
from outside.
