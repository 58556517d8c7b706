# daten_meister

The sending side of a datagram transport, written in Rust and verified with Verus.

Packets are cut into datagrams, and datagrams are packed into frames that are no longer than a
transfer unit. Datagrams of packets that must arrive are sent again, with a growing delay, until
they are acknowledged. The emitter (`emit_frame`) sends data frames, sync frames and ack frames,
each within a given number of bytes.

- `frame`: the frames, their layout in bytes (`wire`), writing and reading them (`serial`), and the
  proof that each frame is read back from its bytes (`decode`).
- `packet_sender`, `datagram_queue`, `resend_queue`, `frame_log`, `frame_ack_queue`: what the
  emitter draws on.
- `emission`: what an emitter sends and what it holds afterwards, as functions of what it held
  before. The contracts in `emit_frame` are stated over these.
- `laws`: what follows for every emission, such as the order of the datagrams, the sizes of the
  frames, and when a datagram is sent again.

Two things are believed rather than proved: that `Vec::into_boxed_slice` keeps the items (`boxed`),
and that `rand::random` gives a `bool` (`nonce`).
