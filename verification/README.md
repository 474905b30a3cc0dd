# udplink

A server and clients that exchange messages over UDP, with keepalives and timeouts.

- `src/` is the library, verified with Verus: the datagram format (`packet`, `bytes`),
  one connection's timing (`connection`), and the state of the server and of a client
  (`server`, `client`). Each operation takes a state and an event and gives the new
  state and the datagrams to send.
- `app/` holds the sockets, the threads that drive the states, and the C interface.
- `tests/` exercises the library on concrete values.
