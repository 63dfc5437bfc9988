# Code 93 row reading and QR Code version handling, verified

A Verus library with three parts:

- `version`: QR Code versions — symbol dimensions, and decoding the version number from two
  reads of the 18-bit version information, tolerating up to 3 bit errors per read. The proofs
  show that no two version codewords differ in fewer than 8 bits and that reads within 3 bits
  of a codeword decode to it.
- `code_93_reader` (with `one_d_reader` and `bit_array`): reading a row of pixels as Code 93 —
  finding the start character, measuring runs, rounding them to modules, looking characters up,
  verifying the two check characters and decoding extended Code 93. The contracts state the
  result as a function of the row.
- `qr_code`: the QR Code value an encoder fills in, with its text form.

`app/` computes the floating-point result points of a decoded row and offers `Display` for a
QR Code; `tests/` exercises the library.
