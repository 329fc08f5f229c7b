# lattice_cipher

Toy text encryption with matrices and a toy learning-with-errors scheme, with the
integer and text logic verified by Verus.

- `src/lwe.rs`: key generation, encryption and inner-product decryption over `i32`.
- `src/records.rs`: CSV records to rows of UTF-8 byte values padded with `|`, and the
  byte matrix built from them.
- `src/csv_input.rs`: CSV text (read with the `csv` crate) to rows, the byte matrix of a
  CSV file, and each record's UTF-8 bytes read back.
- `src/codec.rs`: fields to UTF-8 bytes and back to text.
- `src/decode.rs`: recovered byte rows back to lines of text; the scanner that finds
  number tokens in a saved matrix.
- `src/keys.rs`: the random 0/1 key pattern and the comparison of recovered values.
- `src/seqs.rs`, `src/utf8_lemmas.rs`: sequence and UTF-8 facts the proofs use.
- `app/`: the command-line program: file reading, the floating-point matrix
  algebra (inverse, products, norms), and printing.
