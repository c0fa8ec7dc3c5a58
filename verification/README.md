# common_lib

The verified core of a peer-to-peer image sharing service, with the peer and
server programs around it.

- `src/queue.rs`: a first-in first-out queue of boxed nodes, with its laws.
- `src/transfer.rs`: big-endian sequence headers, cutting a file into
  numbered datagrams, the stop-and-wait sender, the receiver that puts the
  file back together, and the proof that a file comes through whole.
- `src/stego.rs`: decoded images in each sample layout and their
  conversion to RGBA, hiding an image in the low four bits of another and
  revealing it, hiding a decoded image, written as PNG, in the alpha
  channel; scaling and PNG writing are done by the `image` crate, alpha
  encoding by the `steganography` crate.
- `src/text.rs`: UTF-8 reading and trimming of messages, splitting, tag
  removal, prefix tests and decimal reading of 32-bit numbers.
- `src/directory.rs`: the directory of service, the messages it reads and
  writes, and the laws that tie the two ends together.
- `app/`: sockets, files, threads and the two programs (`app server` runs a
  server, anything else a peer).
