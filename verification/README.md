# tcplex

A multi-directional TCP multiplexer with configuration-based routing. Servers
listen on ports, clients connect to remote addresses, and whatever a node
receives is forwarded to the nodes it names as targets. A server broadcasts to
all of its connections; clients reconnect with exponential backoff.

## Layout

- `src/` is the library, written in Verus and proved against its contracts:
  - `config.rs`: servers and clients by name (`NodeMap`), and `Config::validate`,
    which accepts a configuration exactly when every port is in 1..=65535 and
    every target names a node;
  - `keyed.rs`: lookup by key in sequences of entries, and the laws of storing
    and removing entries;
  - `network.rs`: connection identities, the routing table (no connection
    registered twice), the forwarding plan that hands a packet to every
    connection of every target and to nothing else, the startup order,
    server connection numbering, the bounds of the reconnect delay and the
    read decisions;
  - `logfmt.rs`: the log line format (coloured with `owo-colors`);
  - `text.rs`: decimal and hexadecimal rendering, string equality.
- `app/` is the program: command line, reading and parsing the TOML file, and
  the tokio tasks that move bytes between sockets and channels.
- `tests/` exercises the library on concrete values.

## Configuration

```toml
[server.gateway]
port = 8000
target = ["backend"]

[client.backend]
addr = "192.168.1.10:8080"
target = ["gateway"]
```

Run `tcplex -c path/to/config` (default `tcplex.conf`); `-v`, `-vv`, `-vvv`
raise the log level.
