# Per-core task scheduler

A scheduler for the tasks of a small kernel. Each core has its own scheduler with
priorities, round-robin time slices among equally urgent tasks, tasks that block until a
wakeup or a point in time, and joins. Cores hand each other new tasks and wakeup requests
through queues.

- `src/` is the verified library. `task`, `store`, `ready`, `blocked` and `shared` hold the
  data structures, `model` says what each operation does, `percore` and `lifecycle` are the
  operations. `consistency`, `wakeups` and `laws` state and prove what holds of all of them
  together; `machine`, `runs`, `joining` and `pending` do so for all cores and whatever they
  do one after the other.
- `app/` runs the library on a machine: it takes locks, reads the timer, disables
  interrupts and switches contexts. What it needs from the machine is the trait `Platform`.
- `tests/` runs the library.

The scheduler never touches the hardware. An operation returns the cores that have to be
notified and the context switch that has to follow, and takes timer readings as arguments.
