# jmapsyncd

Keeps a Maildir tree in line with a JMAP account, and sends what is queued in it.

- `src/` is the library: every decision that the programs make, with its contract,
  proved by Verus. It does no I/O. What is to be done comes out as plain values: effects
  of a sync, steps of the outbox loop and of the event loop, the parts of a submission.
- `app/` is ordinary Rust around it: the programs `jmapsyncd` and `jmapqueue`, the JMAP
  requests, the files, the database, the watchers and the signals.
- `tests/` runs the library on concrete values.

## The library

| module | holds |
|---|---|
| `sync::target` | the mailboxes that are wanted, and their paths |
| `sync::mailbox` | what brings the local mailboxes in line with them |
| `sync::email` | what each message of the server asks for |
| `sync::maildir` | names of message files, and the flags in them |
| `sync::effects` | what a sync does to the disk and to the database |
| `sync::mirror` | what a whole sync comes to |
| `queue` | what is queued, for which account, and when it is to be sent |
| `message` | the diagnostic fields of a message that failed |
| `jmap` | capabilities, hosts and tokens |
| `daemon::submission` | what the server is asked to send, what its answers mean, and what follows |
| `daemon::outbox` | the loop that watches the outbox |
| `daemon::retry` | when a message is tried again |
| `daemon::sidecar` | the record beside a queued message |
| `daemon::listening` | the loop that listens to the server |
| `daemon::resilience` | waiting for the network, and telling the user |
| `daemon::accounts` | which accounts run, and how a run ends |
| `daemon::single_instance` | the lock file |
| `outside` | the calls into other crates, with contracts that are taken on trust |

The other modules (`text`, `lines`, `search`, `sorting`, `numbers`, `keyed`, `clock`)
hold what these share. Laws that span functions are the public proof functions whose
names begin with `law_`.
