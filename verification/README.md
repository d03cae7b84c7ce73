# sysrunner

A lightweight init system for Unix-like systems, with its decisions proved
correct in Verus.

- `src/` is the verified library:
  - `service.rs`, `cfg.rs`, `log.rs`: service states, descriptions and log levels;
  - `table.rs`: the map from names to values that the manager keeps, whose
    names are unique by its type invariant, with its laws;
  - `deps.rs`: the dependency graph in both directions, and the proof that they agree;
  - `start.rs`: starting a service after its dependencies, as a state machine
    whose caller spawns the processes; the proof that a process is spawned only
    once every dependency of its service is active; and, for a table in which
    every service is stored under its own name and the dependencies have no
    cycle, the proofs that a start only turns inactive services into starting
    ones (adding its own service when the table lacks it), that it ends, and
    that it is never deeper than the table is long;
  - `startup.rs`: bringing up every enabled service, round by round, with the
    proofs that every round but the last brings one more service up, and
    that, when every dependency is known, none is cyclic and every spawn
    succeeds, every enabled service and its dependencies come up;
  - `manager.rs`: the manager, its configuration loading, process watching and
    the replies to the control commands;
  - `cli.rs`: what each command-line command asks of the manager;
  - `text.rs`: numbers, padding, joining and splitting of text.
- `app/` is the program around it: argument parsing, the control socket,
  reading the configuration directory, spawning and watching processes, and
  the log file.
- `tests/` runs the library on concrete cases.
