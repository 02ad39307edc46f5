# cbuf

Nonblocking circular buffers with a single writer and any number of readers, for
sharing data across threads and processes. Neither side ever waits for the other; a
reader that is too slow misses items, and is told so.

* `src/index.rs`: the arithmetic of the indexes, which wrap.
* `src/protocol.rs`: the operations on shared memory, one step at a time.
* `src/buffer.rs`: circular buffers, their writer and their readers.
* `src/search.rs`: what searching a buffer comes to.
* `src/history.rs`: what readers are given of what the writer has written, whatever the
  two do at the same time.
* `src/calls.rs`: what runs of calls are answered.
* `app/`: the protocols run on memory that is really shared, through raw pointers and an
  atomic index.

`src/` is verified with [Verus](https://github.com/verus-lang/verus). That the steps in
`app/` are performed atomically and in their order is up to the fences and the atomic
operations there.
