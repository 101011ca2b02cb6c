# dbus_message_parser

Verified pieces of a D-Bus message library.

- `src/signature.rs`: the grammar of D-Bus type signatures as spec functions
  over the signature's bytes, the `Signature` type (always valid), reading the
  type of its first value, walking its single complete types, and building the
  signature of a list of values.
- `src/value.rs`: the `Type` and `Value` enums and the signature of a value.
- `src/encode.rs`: the marshalling format as spec functions, and the `Encoder`
  that writes values (arrays, structs, dict entries, variants and the basic
  types) and is proved to write exactly that.
- `src/bytes_mut.rs`: the calls into the `bytes` crate's `BytesMut`, with the
  contracts that are trusted.
- `app/lib.rs`: the signature error with the messages it prints (`thiserror`).
