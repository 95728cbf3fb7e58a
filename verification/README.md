# dns_rdata

Resource record data of the Domain Name System, verified with Verus.

The library reads the record data of a resource record out of a DNS message
for a given record type and announced length, writes it back (compressing
domain names against the names written before, or, in canonical mode,
writing them in full and in lower case), gives its record type and, for A
and AAAA data, its address, and orders record data canonically by its
canonical form (RFC 4034, sections 6.2 and 6.3).

Layout of `src/`:

- `error.rs` — the errors of reading and writing.
- `wire.rs` — big-endian integers, byte runs, the byte-string order, and the
  reading cursor `BinDecoder`.
- `name.rs` — domain names, their plain wire form, reading a name with
  compression pointers, names from dotted text.
- `encoder.rs` — the writing buffer `BinEncoder`, name compression, and the
  proof that a compressed name reads back as itself.
- `record_type.rs` — record types and their codes.
- `rdata.rs` — the data of each record type: fields, reading and writing.
- `record_data.rs` — `RData`: reading by type, writing, type, address.
- `order.rs` — the canonical order of record data and its laws.
- `roundtrip.rs` — the proof that written record data reads back, and that
  writing keeps the bytes before it.

`app/` holds conversions between the library's addresses and the standard
library's `std::net` types, which the verified library cannot name.
