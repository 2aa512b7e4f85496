# lessor

A cross-platform DHCPv4 server for the field: handing BMCs an address
while a rack goes up, PXE and UEFI HTTP Boot on an install network, a DHCP
server that can be started and stopped at will on an isolated network.

The library decides; the program around it does the I/O. Time is always
passed in, so allocation and the lease state machine are deterministic,
and every decision has a contract that Verus proves.

## Layout

- `src/` — the verified library.
  - `addr`, `lease`, `scope`, `store`, `server`: addresses and client
    identities, leases, scopes and their validation, the lease store and
    allocation (RFC 2131 §4.3.1), and the packet decisions.
  - `message`, `wire`: requests and replies as the decisions see them, and
    their bytes on the wire (header here, options through dhcproto).
  - `config`, `parse`, `text`: the configuration, the command-line forms
    (ranges, reservations, raw options) and the text they are read from.
  - `daemon`, `events`, `conflict`, `health`, `capture`, `records`, `api`,
    `dhcp`: the service's state and its operations, the event stream and
    counters, addresses found in use, the self-checks, capture replay, the
    stored forms of a lease, and the interface's requests.
  - `net`, `netcfg`, `service`: interfaces and the plans that set their
    addresses, the address tool's table, and the service registration.
  - `discovery`, `neighbor`: finding devices (RMCP presence ping, the
    neighbour table) on a segment.
- `app/` — the program: command line, sockets, the HTTP interface, the
  lease database, running system commands.
- `tests/` — tests of the library.
