# minnow_rs

A small TCP/IP stack whose behaviour is stated in contracts and proved by Verus.

- `src/` is the library. Everything in it is verified; what is believed of the
  `bytes` crate and of the standard library without proof stands in
  `src/buffer.rs`, and in `src/text.rs` at `from_utf8_lossy` and at
  `Formatter::write_str`.
  - `wrapping_integers`, `byte_stream`, `reassembler`, `tcp_message`,
    `tcp_receiver`, `tcp_sender`, `tcp_connection`: TCP, from sequence numbers to
    a connection.
  - `checksum`, `tcp_segment`, `ipv4_datagram`, `icmp`, `ethernet_frame`, `arp`:
    what goes over the wire.
  - `network_interface`, `router`, `ip_host`: the network around it.
  - `pcap`, `ifreq`, `text`, `host_cli`, `tcp_ipv4`, `tap_host`, `tun_probe`,
    `webget`: what the programs compute.
- `tests/` runs the library.
- `app/` holds the programs: devices, files, the terminal and the main loops.

Most types have a view, a mathematical value that says what they are, and each
function says in its `ensures` what becomes of the views. Properties that span
functions are public proof functions whose names begin with `law_`. Among them:

- the bytes that a receiver puts together are those that the sender was given, in
  whatever order and however often the segments arrive
  (`law_messages_carry_the_stream`, `law_receiver_keeps_to_the_stream`);
- whatever is written, acknowledged or lost, what a sender sends for the first time
  and what waits behind it is what was written
  (`law_every_history_sends_the_stream`);
- where segments are not lost, everything written at one end comes out at the
  other and is acknowledged (`law_written_bytes_arrive`,
  `law_arrival_is_acknowledged`);
- in whatever order, however often and with whatever overlaps the fragments of a
  stream come, and however it is read in between, what was read and what is held
  are the beginning of the stream (`law_every_history_tells_the_stream`, and for
  segments `law_every_history_is_reassembled`);
- whatever is done to a byte stream, the bytes that it took are, in order, those
  that were read and those that it holds (`law_every_byte_is_read_or_buffered`);
- within five seconds of a request for an address no other goes out, whatever else
  happens to the interface (`law_one_request_in_five_seconds`);
- every packet, segment, frame and message is parsed as what it was written from
  (`law_*_round_trip`).
