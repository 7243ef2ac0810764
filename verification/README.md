# rnet

Named-packet messaging over UDP. A client keeps a table of named packets
(serialized values) and sends the whole table to the server in one datagram;
the server keeps the last table of each client, its own table, and a queue of
sends to one client or to all of them.

- `src/` is the verified library (Verus): the packet tables and their bincode
  wire form (`packet`, `wire`, `table`), the server's and the client's state
  machines (`udp_server`, `udp_client`), addresses (`addr`), message text
  decoding (`text`) and trimming the window of samples that the server
  window plots (`plot`). The state machines take received bytes and return
  the datagrams to send.
- `app/` is the program around it: sockets, the worker pool, the TCP demo,
  the egui server window, and bincode for user values.
- `tests/` runs the library on concrete values.
