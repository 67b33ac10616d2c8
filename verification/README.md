# lib: verified kernel synchronisation and system-call decisions

The logic of a teaching kernel's mutexes, semaphores, deadlock check and system calls,
written in Verus and proved against its contracts.

- `src/banker.rs`: the per-process resource table (free units, units held, units waited for)
  and the deadlock check, proved to report a deadlock exactly when no long enough sequence of
  tasks can run to completion one after another; laws on how the table changes.
- `src/mutex.rs`: the `Mutex` trait, a spinning and a blocking mutex, and what each lock and
  unlock does to the table and to the queue of sleeping tasks.
- `src/semaphore.rs`: the counting semaphore.
- `src/trace.rs`: per-task system-call counts.
- `src/process.rs`: time, tracing, `mmap`/`munmap` and `sbrk` decisions, and the plan for
  copying a record into user buffers.
- `src/fs.rs`: the file-descriptor table and the decisions of the file system calls.
- `app/lib.rs`: the system calls as the kernel runs them, over a `Kernel` trait that stands
  for task switching, user memory, the timer and the file system.
