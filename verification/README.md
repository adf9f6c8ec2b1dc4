# snarf

Framework for building MitM applications: it follows the TCP connections that pass through a
netfilter queue, hands their data to a handler in order, writes what the handler makes of it back
into the packets, and decides which packets go on.

## Layout

- `src/`: the library, with contracts that Verus proves.
  - `util`, `deque`: the ring that remembers the last bytes of a stream.
  - `ipv4_util`, `tcp_util`: fields and checksums of IPv4 packets and TCP segments.
  - `tcp_tracker`, `tcp`, `sessions`: one direction of a connection, both directions, and all
    connections.
  - `handler`, `packet`: what handlers and spies are, and what packets are to them.
  - `tcp_step`, `snarf_tcp`: what comes of a packet, as a function of the state, and the handler that
    does it.
  - `tcp_laws`, `tcp_history`: what holds of the handler for each packet, and over any number of
    packets.
  - `nfq_ipv4`, `nfq_ipv4_tcp`: IPv4 packets of a queue, and TCP over them.
  - `intercept`: what to do next with a queue.
- `app/`: opens a queue and passes its packets to the library.
- `tests/`: tests of the library.

## Known issues

**Interfaces with MTU 65535**

If an interface has the MTU set to 65535 (like loopback has), NFQUEUE will only provide 65531 bytes
at most. The solution is to decrease the MTU or change the interface.

**Sequence numbers that start over**

Whether data has passed before, or comes later, is decided by comparing sequence numbers as they
are. Data that is repeated after the numbers have started over is not recognised.
