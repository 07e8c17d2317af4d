# deno_ops

Parts of a JavaScript runtime, with their behaviour stated in Verus contracts
and proved.

- `src/shared_queue.rs`: a queue of byte records kept in one fixed-size buffer
  that JavaScript reads as 32-bit words (a three-word header, a table of record
  end offsets, then the records). The contracts describe every method exactly
  on the bytes of the buffer; the laws `law_push_appends`,
  `law_shift_takes_front` and `law_shift_returns_pushed_record` show that, while
  the offset table has room, the buffer behaves as a first-in first-out queue
  of the records pushed. `law_history` states this over any sequence of pushes
  and shifts in which at most `MAX_RECORDS` records are pushed, and
  `law_history_counts` states the counts and the head over longer sequences.
  `law_reset_as_new` with the `law_same_written_*` laws shows that a reset queue
  reads like a new one wherever what it reads was written since the reset.
- `src/http.rs`: building the response of the HTTP respond op with the `http`
  crate: the response carries the given status, the given header values under
  each name in order, and the given bytes as its body (or a streamed body with
  its sender); and the decisions of the next-request op.
- `src/debugger.rs`: what the inspector's WebSocket echo server answers to each
  client message.
- `tests/`: tests of the library.
- `app/`: the I/O around the library: the WebSocket server, the HTTP ops over
  `deno_core` resources and sockets, and the isolate's binding to libdeno.
