# mc-scan

Scan IPv4 for Minecraft servers that have players online: SYN-scan port 25565 (or connect over TCP
where raw sockets are not to be had), then ask the hosts that answer for their status.

`src/` is a library written in Verus. It decides everything that can be decided without the
network, the disk, the clock or floating point, and says in contracts what it decides:

| module | what it holds |
| --- | --- |
| `ip` | address spaces, CIDR blocks, the shuffle, the number that tells jobs apart |
| `syn` | SYN packets, checksums, cookies, which answers count, the walk over all targets |
| `ping` | the status request, and reading the status out of a reply that may not have ended |
| `state` | the text of the saved cursor |
| `scan` | settings, where a scan begins, what it says, what it leaves behind |
| `run` | the course of a scan from its begin to its end |
| `live` | the state of a running scan |
| `http`, `web`, `page` | reading requests, forms, routing, the page |
| `strmap`, `sort`, `modular`, `num`, `ipv4`, `ipv6`, `text`, `limits` | what the others are built from |

The laws that span functions are public proof functions next to what they speak of: that the
shuffle visits each address once (`ip`), that every answer to a probe is recognised (`syn`), that a
player count reported early is final (`ping`), that an interrupted scan goes on where it stopped
(`scan`), that text from servers cannot break the page (`web`).

`app/` is the program around it: arguments, sockets, files, tasks and threads.

Trusted without proof are `String::push`, `str::from_utf8` and `String::from_utf8_lossy` of the
standard library (`src/text.rs`).
