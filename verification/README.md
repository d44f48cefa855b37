# Conversor Universal de Sistemas de Numeração

A converter between positional numeral systems (bases 2 to 36) with a
terminal interface.

- `src/` is the library, verified with Verus:
  - `numeral.rs`: the model of numerals (digit values, the value of a digit
    string, canonical digit strings) and its lemmas;
  - `grouping.rs`: the model of the direct binary/octal/hexadecimal
    conversions and the proofs that they keep values;
  - `decimal.rs`: decimal numerals of any length, for values that do not
    fit in a machine word (the largest value of many digits);
  - `text.rs`: character-level string helpers;
  - `contracts/`: request and result types, the parser, the numeric
    processor, the facade, and the batch and quiz services;
  - `ui/`: the state of the interface, how keys change it, and what asking
    for a conversion does.
- `app/` is the terminal program (ratatui): it reads keys, hands them to the
  library and draws the screen.
- `tests/` exercises the library on concrete values.
