# aztna_client

The client of a zero-trust access system. It enrolls a device, signs a user in,
reports the device's posture, and opens a tunnel to a destination only after the
controller and the gateway have both agreed to it.

## Layout

- `src/` is the library: what the client decides and computes. Verus verifies every
  item of it. It performs no I/O. A function that needs the outside world takes
  what was read as an argument, or returns the action to take.
- `app/` is the program around it: files, sockets, TLS, the command line and the
  service, for Linux, macOS and Windows.
- `tests/` runs the library on concrete values.

## The library

| Modules | What they hold |
| --- | --- |
| `keys`, `atrest`, `tokenstore`, `state` | key material, tokens and state at rest |
| `identity`, `tpm`, `tpmtls`, `certs` | the device key, certificate requests, expiry |
| `posture`, `posture_collector`, `posture_probes` | readings, probes, signed reports and when they are pushed |
| `login`, `commands`, `bench` | what each command needs, asks for and records |
| `relay`, `serve`, `zones`, `dns` | carriers, per-connection stages, authorized zones, answers |
| `flows`, `establish`, `udp_frag` | datagram flows, their establishment, fragments |
| `splitdns` | names, rules of the system resolver, reconciling and watching them |
| `peer`, `svc`, `tray`, `telemetry`, `diag` | who may use the client, the service, what it shows |
| `common`, `addr`, `bytes`, `calendar`, `crypto`, `hex`, `table`, `text` | shared parts |

Functions named `law_..` state what holds across several functions. The few
functions marked `external_body` call other crates or the standard library; their
contracts are taken on trust, and each says what it relies on.
