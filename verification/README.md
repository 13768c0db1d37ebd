# HakoDB

An embedded document store whose rules are proved with Verus.

* `src/` is the library: documents and their binary form, the secondary, full-text and
  composite indexes, the engine with its batches, transactions and marks of what stays on a
  device, and the two ways in which replicas exchange changes: a mesh of equal nodes, and
  clients around a server. Nothing in it touches a file, a socket or the clock: what was read
  is handed in, and what is to be written is handed back. Each function states what it does,
  and Verus proves it.
* `tests/` runs the library on concrete values.
* `app/` is ordinary Rust around the library: files, sockets, threads and the C interface.

The last writer wins: of two changes to a document the one with the later time stays, on
every replica. The one exception is a deletion through a server: it leaves nothing behind that
a document from before it, which comes late, could be compared with.

A collection that is encrypted on a device leaves it only for peers that have told the
fingerprint of the same key. The server that a client has joined is trusted to keep this rule:
the client sends it all of its changes but those that stay on the device.

A document is kept with its fields as they came. One that is built field by field has them in
key order, and a search by halves finds every key of it.
