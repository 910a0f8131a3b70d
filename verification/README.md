# servyi-states

Infrastructure for state machines, verified with Verus: hierarchical context
ids, phase trackers, structured message logs, chains of states, and
stop-the-world checkpoints for trees of workers.

## Layout

- `src/` is the library. Everything in it is verified.
  - `context_id`, `hierarchy`: identifiers with dotted paths, and why no two
    contexts share a number or a path.
  - `ctx_path`: dotted ids as text, and the ids above one.
  - `phase_tracker`: which phase each context is in, and which transitions are
    allowed.
  - `event`, `message_log`: what an event says, and the log of events by context.
  - `state`: what the driver of a chain of states does next.
  - `handshake`, `monitor`, `deeds`, `checkpoint`: the stop handshake between a
    worker and the side that stops it, from plain flags up to handles, requesters
    and guards.
  - `quiesce`: the whole tree of workers as a transition system, and what holds in
    every state it can reach.
  - `guards`: several requesters around one tree, and what their guards read.
  - `threads`, `calls`: the calls on handles and requesters, those of all threads
    together, as steps of that system.
  - `text`: numbers and dotted text.
  - `dash`, `name_map`: maps on top of `dashmap`.
  - `sync`: the locks and condition variables of std.
- `tests/` runs the library.
- `app/` is the ordinary Rust around it: threads, `async` traits, the `tracing`
  layer, formatting, and values that are shared between threads.

## What is trusted

Two modules say what code outside of the library does: `dash` for `dashmap`, and
`sync` for std's locks. Of a lock it is claimed which state it was made with, that
its guard reads and writes the state under it, and that a wait ends in a state that
was waited for, or with its time over. What another thread leaves under a lock is
left open. Besides these, the level of a log entry (`tracing::Level`) is carried
along unseen, and hashing a number feeds it to the hasher of the caller.

## Checkpoints

What a thread finds under the lock of a pair is up to the other threads. The
contracts of `checkpoint` therefore speak of everything else: which states are
written to which pair, in which order, who is woken up, what is waited for and when a
lock is given back, for every state that may be found. The record that they speak of
is kept by the functions of `sync` that call std, and by nothing else: what is in it
was done. That a function did nothing beside it, with a record that it threw away, is
not said.

`threads` takes any number of workers and requesters, each with work of that kind, in
any order in which the locks let them in, and shows that this is a history of the
system in `quiesce` and `guards`. `calls` shows that the calls on handles and
requesters are such work, and what follows: a guard finds the whole tree parked or
closed, there is at most one guard at a time, it reads one state of the tree, and what
guards read follows the order of the writes. Two things are taken for granted there:
a lock holds what was last put under it, and a worker closes only when the workers of
its fan-outs have.
