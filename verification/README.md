# mcget

Queries the status of Minecraft servers, Java edition (Server List Ping over TCP) and Bedrock
edition (RakNet over UDP), and speaks Bedrock's connection handshake, reliable transport and offline
login.

- `src/` is the library. It holds no I/O: every function takes bytes, texts, moments and resolved
  addresses, and says what to send, what was received, or what went wrong. Verus proves each function
  against its contract, and the laws (`law_...`) that relate them.
- `app/` is the command-line tool around it: sockets, name resolution, clocks, arguments and printing.
- `tests/` runs the library on concrete values, with the outside crates linked.

## The library

| Module | What it does |
|--------|--------------|
| `addr` | host and port out of an address string |
| `varint`, `leb128`, `bytes` | numbers on the wire |
| `java` | packets of the status protocol, and the exchange that drives them |
| `bedrock::ping` | unconnected ping and pong |
| `bedrock::conn` | the connection handshake, step by step |
| `bedrock::datagram` | frames, datagrams, acknowledgements, splitting and reassembly |
| `bedrock::window`, `bedrock::reliability` | what arrived, what is missing, what is sent again, and in which order frames are given out |
| `bedrock::delivery`, `bedrock::ordering` | what two engines guarantee together |
| `bedrock::reliable_conn` | a reliable session without its socket |
| `bedrock::message` | connected system messages |
| `bedrock::protocol` | game packets and batches |
| `bedrock::login`, `bedrock::encryption` | offline login and login encryption |
| `cli` | the tool's rules: language, queries, reports |
| `json`, `base64url`, `text`, `error` | values, texts and errors |

## What is taken on trust

The contracts of the functions marked `#[verifier::external_body]` and of the
`assume_specification` items are not proved. They state what is used of `serde_json`, `base64`,
`flate2`, `aes-gcm`, `sha2`, `p384`, and of a few functions of `std`. Each has a doc comment that says
what is claimed.
