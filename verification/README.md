# protofish4

A UDP transport that moves one audio transfer from a *tap* to a *sink* and gives
the sink two views of it at once: an unreliable stream, which yields frames the
moment they arrive, for playback; and a reliable stream, recovered by
retransmission, for the cache. The reliable stream may fail, and when it does it
says so: it ends with `Complete` or `Aborted`, never by merely stopping.

The library under `src/` is verified with Verus and does no I/O: it is handed
datagrams and the time, and says what to send, play and store.

| Module | What it holds |
| --- | --- |
| `codec`, `frame`, `header`, `bytes` | packet bodies and headers, to bytes and back |
| `crypto` | sealing and opening (ChaCha20-Poly1305), nonces, the replay window |
| `packet`, `guard` | whole packets, and which of them are let through |
| `xfer` | gap tracking, the retransmission ring, and the two state machines |
| `xfer::send_laws`, `xfer::recv_laws`, `xfer::ring_laws` | what holds of them over a whole transfer |
| `tap`, `sink`, `sink_laws` | the state machines with their keys; many transfers on one socket |
| `feedback` | the playback report that paces the sender |
| `mint`, `types`, `time`, `config`, `error` | ids, keys and the vocabulary |

Each state machine has a mathematical model (`Sending`, `Receiving`, `Tap`,
`Sink`), and each function's contract says which step of the model it takes.

`crypto::aead` and `mint` call outside crates; what is relied on there is stated
in their contracts and not proved.

`app/` binds the library to tokio sockets. Some choices of the protocol that are
easy to get wrong:

- Control packets are checked against the replay window after they have been
  opened, in both directions. `Data` is not: a retransmission is a byte-identical
  resend.
- No field of a packet changes any state before its tag has been verified; its
  direction, too, is judged only then.
- Giving up the reliable stream lets go of its frames and requests, but not of the
  record of what has arrived: playback never sees a frame twice.
- A stall needs a live peer: silence is the idle timeout's business.
- A play-head report older than two seconds counts as none, and so does one that
  was never made.
