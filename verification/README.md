# cs_ping

A tool that reads the server list of a WireGuard VPN provider, resolves and pings every
server IP a number of times in a random order, ranks the locations by round-trip time and
writes one WireGuard configuration per location into a zip archive.

## Layout

- `src/` — the library, verified with Verus:
  - `host.rs`: parsing the provider's configuration generator script into hosts, the
    blacklist filter, and the round-trip law of the script format.
  - `ping.rs`: the ping scheduler (`JobIter`): which ping is handed out next, failure
    counting, dropping failed hosts, and the accounting of pings; collecting the results
    per host and IP, and sorting them.
  - `context.rs`: the WireGuard configuration file, and the age check of the ASN
    database.
  - `wireguard.rs`: the configuration template filled from environment values.
  - `archive.rs`: the names and contents of the configuration files, and the zip archive.
  - `asn.rs`: the short label of a set of autonomous systems.
  - `util.rs`, `text.rs`, `sums.rs`: string replacement and truncation, conversions
    between strings and characters, and sums over sequences.
  - `pinger.rs`: the timeout budget of repeated pings to one address.
- `app/` — the program around it: configuration file, DNS, HTTP, ICMP, progress bar,
  logging and the floating-point statistics.
- `tests/` — tests of the library on concrete values.
