# Pipistrelle

Pipistrelle is an MQTT 5 broker. `src/` is the broker's logic as a library that is verified with
Verus: every function states what it returns and changes, and the laws that hold of the whole are
proved beside it. `app/` is the program around it: sockets, TLS, WebSockets, SQLite and timers.

| Module | What it holds |
|---|---|
| `codec` | MQTT 5 packets: reading and writing them, and that reading gives back what was written |
| `topic`, `router` | topic filters, and whom a message for a topic reaches |
| `message`, `session` | messages and their expiry, and the exchanges of a client's session |
| `broker` | the state that all clients share: connecting, publishing, subscribing, Wills, restarts |
| `ingest`, `connection` | the short way for plain messages, and what a network connection decides |
| `config`, `policy`, `crypto`, `certificates`, `startup` | credentials and access rules, limits, TLS profiles, certificates and keys, arguments |
| `bridge`, `metrics`, `latency`, `bench` | the bridge, the monitoring pages, routing times, and the load generator |

The broker never performs an action itself. Its functions return a list of actions (send these
bytes, store this message, start this timer), each tagged with the connection it is for, and the
program carries them out in order. Time is an argument.

What is not proved is called through a few small functions whose contracts are taken on trust: text
decoding, the clock, the Argon2 password check, the TLS key exchanges, the making of certificates
and the reading of PEM.
