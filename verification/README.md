# register_rs

Describing device registers as Rust types: where a register lives, how many
words it spans, which bits each field occupies, and how a register is read
from and written to its words.

- `src/register.rs`: the `Register`, `ReadableRegister` and `WriteableRegister`
  traits and `RegisterError`.
- `src/bits.rs`: bit ranges, endianness, relocating a field to its word, and
  reading and writing a field within one word.
- `src/layout.rs`: reading and writing fields of a whole register, encoding and
  decoding all fields at once.
- `src/attributes.rs`: the grammar of the `endian`, `bit` and `bits` attributes.
- `src/constructor.rs`: which fields a generated constructor takes.
- `src/valued.rs`: conversions between an enum and the values of its variants.
- `src/spirit1.rs`, `src/example.rs`: concrete registers.
- `app/`: the example program, and the token generation of the derives
  (`syn`, `deluxe`, `quote`), which calls the library for every decision.

Every function in `src/` is verified with Verus; the `law_*` proof functions
state what holds across calls, such as a field reading back what was written.
