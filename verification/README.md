# yspace2

Verified building blocks for Whitespace tooling, written in Verus.

- `ws::bit_pack` — the lexer for bit-packed programs (`.wsx`): `0` is S, `10` is
  T, `11` is L, a final lone `1` ends the program and the zero bits after it pad
  the last byte. Proved: the data bits are the bytes' bits but for the
  trailing zeros of the last byte, each `next` yields the next encoded token,
  and any token sequence, encoded, marked and packed into bytes, lexes back to
  itself.
- `ws::int_literal` — integer literals in radix, Erlang and C syntax, with the
  exact bit pattern (sign bit, digit bits with leading zeros kept) and value of
  each literal and the exact error for each rejected text. Proved: the bit
  pattern denotes the value, and every bit pattern has a literal that reads as
  it. The text written for a literal without source text reads back to the
  same pattern, with one exception: the pattern `1 0` (a negative zero in two
  bits) is written `0`, which reads back as `0 0`.
- `ws::literal_laws` — what the parsers promise of every text: below radix 37
  a letter is the same digit in either case, a single underscore only
  separates digits, the sign bit is the sign written, and a radix prefix reads
  as the radix parser reads the digits in that radix.
- `ws::integer` — the arbitrary-size integers that literals carry, with decimal
  output. They take the place of GMP integers (`rug`): the GMP digit
  conversion is reached only through unsafe calls, `rug`'s safe parser stops
  at radix 36 where literals go to 62, and every integer operation the
  literals need (digits to value, value to binary, negation, decimal text) is
  a few lines of specification, so it is written here and proved against it.
- `ws::inst` — the instruction table: opcodes, their tokens, names and
  features, instructions as text, and reading the opcodes of an instruction
  stream, stopping at the first instruction that cannot be read or reading on
  past each. Proved: the opcode tokens form a prefix-free code, an instruction
  written out reads back as its opcode, and reading on agrees with reading
  that stops.
- `ws::tests` — the counting program of the Whitespace tutorial as letters,
  tokens, packed bits and instructions.
- `ws::bits`, `ws::text` — the bit vectors (`bitvec`), strings
  (`compact_str`), UTF-8 decoding (`bstr`) and UTF-8 checking that the library
  uses, with the contracts it relies on.
- `detect` — the features a program needs: its tokens (bit-packed, or text
  checked for UTF-8), the features of every instruction that can be read, and
  a fault for each one that cannot.

`app/main.rs` is the command-line front end (`detect-features`): it reads the
file and prints what `detect::detect_features` finds — each fault, then
`wspace 0.2` when no 0.3 feature is used, then the features.
