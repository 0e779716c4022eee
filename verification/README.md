# ntsync-android

NT synchronization objects in userspace, for systems without `/dev/ntsync`:
semaphores, recursive mutexes that can be abandoned, and auto- and manual-reset
events, with waits for any or all of up to 64 objects, alerts and timeouts. Objects
live in a region that processes share, and waits sleep on futexes.

The library under `src/` is written and proved in Verus. It is the whole logic: the
object table, the per-object waiter lists, the node pool, the operations on objects,
the wait engine, the sweep of what dead processes left behind, and the decisions made
while the region is opened and locked. Each operation is one transaction on a
`Region`; a `Caller` carries in what only the operating system knows (the time, which
processes are gone) and carries out what is left to do (futex words to wake, what to
log).

`app/` puts the library on a real system: it maps the region file, holds the robust
lock in it around each operation, performs the futex calls and exports the C
functions `ntsync_*`.

## What is proved

- Every operation keeps the region intact (`Region::wf`) and does exactly what its
  contract says to the mathematical view of the region.
- `wakeup`: no wakeup is missed. As long as nobody has woken a sleeping wait, it is
  in order, not alerted and not satisfiable.
- `sleepers`: the same over any sequence of calls. A wait that went to sleep and could
  go on was woken by a call since, and that call has its thread woken.
- `laws`: what was created can be read back, as long as the handle can hold the
  generation of its slot (18 bits); a closed handle stays dead; releasing and
  acquiring, and locking and unlocking, undo each other; an abandoned mutex is reported
  once; a pulse satisfies exactly the waits that started before it; a wait for any
  takes the first ready object, a wait for all takes all or nothing.
- `history`: over any sequence of calls, a semaphore's count is what it was at the start
  and what was released less what was acquired, and the handle of an object that was
  closed or swept stays dead until the generation of its slot wraps.
- `reclaim`: a sweep frees exactly the objects of processes that are gone.

## Settings

- `NTSYNC_SHM`: path of the region. Without it the region is
  `$TMPDIR/ntsync_userspace.shm`, with the layout version inserted before the
  extension.
- `NTSYNC_DEBUG`: diagnostics, unless empty or `0`.
- `NTSYNC_NO_SIGUSR1_BLOCK`: do not defer SIGUSR1 while the region lock is held.
- `NTSYNC_SWEEP_INTERVAL_SEC`: seconds between automatic sweeps, 30 by default; 0 turns
  them off.

All processes that share a region have to use builds that lay it out alike; a file
with another layout is not used.

## Trusted

The values of a few constants of the `libc` crate, in `src/errno.rs`.
