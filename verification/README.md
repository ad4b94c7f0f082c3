# netor

`netor` is a system-level network traffic monitor. It shows the traffic of the
network interfaces, the remote endpoints of live TCP connections, and the
domains that DNS queries and TLS ClientHello messages name.

- `src/` is the library: packet parsing, connection tables, counting, reports
  and the decisions of the monitors, verified with Verus.
- `app/` is the program around it: the command line, sockets, files, processes
  and floating-point numbers.
- `tests/` are the tests of the library.

## Usage

```bash
netor                                        # interface traffic
netor --all --once --interval 0.5            # one sample of all interfaces
netor live --once --all-states               # one snapshot of TCP connections
sudo netor web --interface eth0 --interval 5 # domains in captured packets
```

`web` captures packets and usually needs root or `CAP_NET_RAW`.

## Limits

The connection table shows addresses and ports, not the names of websites.
`web` sees a domain only where it appears in a DNS query or in TLS SNI, and not
behind encrypted DNS, encrypted ClientHello, VPNs or proxies.
