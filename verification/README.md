# renet, verified

A message-based networking library for client/server games, written in
Verus: its behaviour is stated in `requires`/`ensures` contracts and
proved.

- `src/` is the verified library:
  - `packet`, `varint`: the wire format of connection packets;
  - `reliable_channel`, `unreliable_channel`, `block_channel`,
    `send_block_channel`, `slice_constructor`: channels, message slicing
    and reassembly;
  - `ordered_reliable_channel`, `lossy_channel`,
    `wrapping_sequence_buffer`: channels over 16-bit message ids, reliable
    and ordered, or unreliable and optionally sequenced;
  - `delivery`, `packet_numbering`: what a receiver gets of what a sender
    packed (slices reassemble in any order, ordered hand-out, messages
    carried as they are) and the numbering of the packets a connection
    makes;
  - `pending_acks`, `remote_connection`, `config`, `channel_config`: a
    connection (`RenetClient`), packing channels into packets,
    acknowledgements, loss;
  - `server`: one connection per client and connection events;
  - `reassembly_fragment`, `sequence_buffer`: fragment reassembly;
  - `connection_stats`, `bbr`, `timer`: traffic counters and estimates;
  - `netcode_packet`, `token`, `netcode_client`, `crypto`, `serialize`,
    `replay_protection`: the handshake packets of the netcode protocol,
    connect tokens, the client's handshake, and replay protection.
- `tests/` runs the library.
- `app/` holds what stays outside the proofs: floating-point statistics,
  bincode framing, and the exchange loop with a local client.
