# pog_bilder

The server of the Pog Bilder chat application, with its logic verified by Verus.

- `src/` is the verified library:
  - `wire`: length-delimited framing of messages (protobuf varint delimiters)
    and the byte-at-a-time frame reader, with the proof that reading back
    framed messages yields exactly those messages;
  - `session`: what the server does with each message a client sends, the
    bookkeeping of big-file uploads, the greeting, the history request and the
    broadcast filter, with the proofs that an upload completes exactly when its
    promised bytes have arrived;
  - `args`: the `%PORT%` / `%BIN_DIR%` variables and the big-file paths;
  - `big_file`: the counters of big files being written and the sections of
    files being read;
  - `messages`: the protocol's objects; `text`: pattern substitution and
    decimal numbers; `buffer`: the `bytes::BytesMut` buffer behind its contracts.
- `app/` is the program around it: argument parsing, sockets, the SQLite
  database, files and tasks, and the protobuf encoding of the messages.
- `tests/` runs the library on concrete values.
