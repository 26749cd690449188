# pq_meter

The logic of a power-quality gateway and its receiver, written and proved in Verus.

A gateway polls a three-phase meter, decides which readings are worth sending, queues
them, and delivers them over a network that may fail at any time. A receiver decodes and
judges them, infers which devices came and went, archives everything, and serves a
dashboard.

## Layout

- `src/gateway/`: what the gateway decides. The queue of unacknowledged readings
  (`spool`), when a batch is sent and what its answer means (`delivery`), backoff
  (`retry`), when a stale connection is replaced (`uplink`), the meter's connection and
  registers (`meter_connection`, `registers`), which readings are recorded (`monitor`),
  how they are sent (`measurement`), the path in use (`link`), and the command line made
  usable (`settings`).
- `src/receiver/`: what the receiver decides. Decoding and validating readings (`input`,
  `encoding`), inferring devices (`decision`), the current state (`meter`, `history`,
  `labels`), EN 50160 limits (`quality`), what the gateway reports about the link
  (`transport`), answers to batches (`api`), the archive (`archive`), and the dashboard's
  read model (`dashboard`, `forecast`).
- `src/binary32.rs`, `src/fixed_point.rs`: measured values are held as the bits of an
  IEEE 754 number. Comparison, subtraction and the like are integer algorithms that are
  proved against the rounding rule, and so is their decimal rendering.
- `src/text.rs`, `src/json.rs`, `src/clock.rs`, `src/thresholds.rs`: what both sides share.
- `app/`: the program around the library. It does the input and output, and turns bytes
  into values and back.
- `tests/`: the library from outside.

## What is not proved

The functions marked `external_body`, the types marked `external_type_specification` and
the one `assume_specification` state what other crates do: RFC 3339 texts (`chrono`),
SCION addresses and paths (`sciparse`), HTTP headers (`axum`), JSON values (`serde_json`)
and a few functions of the standard library. Each says in its comment what is taken on
trust.
