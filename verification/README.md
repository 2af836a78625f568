# SORBY

**S**ORBY **O**perates **R**ust **B**inary **Y**ards: an educational container
runtime that talks to the Linux kernel directly (namespaces, `pivot_root`,
Cgroups v2), with its logic verified by Verus.

```
sudo sorby run --rootfs ./alpine-rootfs --memory 50M --cpu 0.2 --max-pids 64 -- /bin/sh
```

`--max-pids` defaults to 64.

## How it is laid out

- `src/` is the verified library. It never touches the system: it names steps
  (write this file, mount that, fork) and is told what came of each.
  - `container.rs`: the two machines, `run` on the host's side and `child_init`
    inside the new namespaces.
  - `cgroups.rs`, `filesystem.rs`, `namespaces.rs`: the steps.
  - `action.rs`: steps, answers and errors.
  - `text.rs`, `bignat.rs`, `float.rs`, `literal.rs`: sizes such as `1.5G` and
    CPU fractions are double-precision numbers; these modules compute with them
    exactly, in integers.
  - `run_laws.rs`, `child_laws.rs`, `size_laws.rs`, `cpu_laws.rs`: what is proved
    of the whole, such as that no run goes on past a limit that cannot be set, and
    that only the forked process ever executes the user's command.
- `app/` is the program: it parses the command line and performs the steps.
- `tests/` runs the library, partly against the machine's own floating point.

Nothing in `src/` is assumed: there are no trusted declarations.
