# rinit

A small systemd-inspired init system for Linux (PID 1): it mounts the virtual
filesystems, loads TOML unit files, starts services in dependency order,
supervises and restarts them, creates device nodes from kernel uevents,
configures network interfaces (static or DHCP), and shuts the system down.

The decisions are made by a library verified with Verus; a thin program
around it performs the system calls and I/O.

## Layout

- `src/` — the verified library (`rinit`):
  - `deps` — the unit registry, the dependency graph, the startup layers of
    Kahn's algorithm (ordered by requires, wants, after and before) with
    cycle detection, conflicts, and the set of units a
    target brings in; with the laws of the startup order (dependencies start
    in earlier layers, layers are disjoint, units of one layer are
    independent, units on a cycle or behind a missing unit never start).
  - `supervisor` — the boot plan of `default.target`, service launch
    commands, network actions, restart policies and the restart rate
    limiter, signal handling and the shutdown steps.
  - `process` — wait outcomes and the table of running processes.
  - `net` — DHCP packets (built and parsed), the DHCP exchange, IPv4 and
    CIDR text, netmasks, resolv.conf.
  - `uevent` — kernel uevent messages and the device nodes they ask for.
  - `fs` — /etc/fstab, mount options, early mounts, hostname.
  - `cgroup`, `tty`, `login`, `catalog` — cgroup control writes, terminal
    devices and line speeds, the login checks, unit file locations.
  - `types`, `text` — unit types and the text helpers the parsers share.
- `tests/` — tests of the library.
- `app/` — the PID 1 program: bootstrap, unit file loading (serde/toml),
  process spawning, signalfd, netlink, ioctl networking, the tokio event loop.
