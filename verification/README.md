# aris

The logic of a small operating system kernel, written in Rust and proved with Verus: memory,
loading of modules, tasks and processes, devices and their requests, logs, pipes and interfaces.
What needs the machine itself, a driver or a file system is not in the library. A function of the
library that decides on such a thing takes what came of it as an argument, or gives back what is to
be done next.

State that a kernel keeps in one place for all its parts is an ordinary value here, handed to the
functions by reference. Objects that refer to each other do so by numbers. Names are bytes.

## Layout

- `src/mem`: physical pages, address spaces, and the manager that joins them; the allocators for
  fixed slots, heaps and pools.
- `src/loader`: object files, their layout in memory and their relocations, for kernel modules and
  for user images; the order in which images are loaded; the move of the kernel to its half.
- `src/sched`: tasks and signals, the queues of a core, the scheduler with everything that is waited
  for, processes and handles, timers, the clearing away of processes and what outlives them, and the
  system calls.
- `src/sync`: locks, values that are set once, semaphores and events.
- `src/io`: the boot configuration, devices and drivers, the tree that devices hang in, requests, device
  stacks and how they are brought up, what a bus reports, and the queue of plug-and-play requests.
- `src/logger`: the ring buffer of messages, the serial line and the text screen, and the console that
  decides what goes where.
- `src/registry.rs`, `src/object.rs`, `src/intf`, `src/pipe.rs`, `src/shutdown.rs`: what is known by
  name, what can be opened, the interfaces for processes, pipes, and the way down.
- `src/util.rs`, `src/error.rs`: arithmetic on pages, texts, and errors.
- `tests`: what the library does on given values.
- `app`: a program that runs parts of the library on a host.

Functions whose names begin with `law_` state what holds of several functions together.

One thing is taken on trust: that `core::str::from_utf8` accepts exactly the bytes that are UTF-8.
