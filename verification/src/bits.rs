use vstd::prelude::*;

verus! {

/// Byte order in which a register's words are laid out.
#[derive(Clone, Copy, Debug, PartialEq, Eq, Structural)]
pub enum Endian {
    Big,
    Little,
}

/// The bits that a field of a register occupies: a single bit, or an
/// inclusive range `start..=end`.
#[derive(Clone, Copy, Debug, PartialEq, Eq)]
pub enum BitRange {
    Bit(usize),
    Bits((usize, usize)),
}

impl BitRange {
    /// First bit of the range.
    pub open spec fn spec_start(self) -> usize {
        match self {
            BitRange::Bit(start) => start,
            BitRange::Bits((start, _end)) => start,
        }
    }

    /// Last bit of the range (inclusive).
    pub open spec fn spec_end(self) -> usize {
        match self {
            BitRange::Bit(start) => start,
            BitRange::Bits((_start, end)) => end,
        }
    }

    pub fn start(&self) -> (r: usize)
        ensures
            r == self.spec_start(),
    {
        match *self {
            BitRange::Bit(start) => start,
            BitRange::Bits((start, _end)) => start,
        }
    }

    pub fn end(&self) -> (r: usize)
        ensures
            r == self.spec_end(),
    {
        match *self {
            BitRange::Bit(start) => start,
            BitRange::Bits((_start, end)) => end,
        }
    }
}

impl BitRange {
    /// Both ends of the range taken modulo the word length.
    pub open spec fn spec_norm(self, word_length_bits: usize) -> BitRange {
        match self {
            BitRange::Bit(start) => BitRange::Bit((start % word_length_bits) as usize),
            BitRange::Bits((start, end)) => BitRange::Bits(
                ((start % word_length_bits) as usize, (end % word_length_bits) as usize),
            ),
        }
    }

    /// Applies `|i| i % word_length_bits` to each end of the range.
    pub fn norm(&self, word_length_bits: usize) -> (r: Self)
        requires
            word_length_bits > 0,
        ensures
            r == self.spec_norm(word_length_bits),
    {
        match *self {
            BitRange::Bit(start) => BitRange::Bit(start % word_length_bits),
            BitRange::Bits((start, end)) => BitRange::Bits(
                (start % word_length_bits, end % word_length_bits),
            ),
        }
    }
}

impl Endian {
    /// The endianness named by `input`, if it names one.
    pub open spec fn spec_parse(input: Seq<char>) -> Option<Endian> {
        if input == "big"@ {
            Some(Endian::Big)
        } else if input == "little"@ {
            Some(Endian::Little)
        } else {
            None
        }
    }

    /// Reads `"big"` or `"little"`; anything else is refused.
    pub fn parse(input: &str) -> (r: Option<Self>)
        ensures
            r == Self::spec_parse(input@),
    {
        proof {
            reveal_strlit("big");
            reveal_strlit("little");
        }
        let n = input.unicode_len();
        if n == 3 && input.get_char(0) == 'b' && input.get_char(1) == 'i' && input.get_char(2)
            == 'g' {
            assert(input@ =~= "big"@);
            Some(Endian::Big)
        } else if n == 6 && input.get_char(0) == 'l' && input.get_char(1) == 'i' && input.get_char(
            2,
        ) == 't' && input.get_char(3) == 't' && input.get_char(4) == 'l' && input.get_char(5)
            == 'e' {
            assert(input@ =~= "little"@);
            Some(Endian::Little)
        } else {
            proof {
                if input@ == "big"@ {
                    assert(input@[0] == 'b' && input@[1] == 'i' && input@[2] == 'g');
                }
                if input@ == "little"@ {
                    assert(input@[0] == 'l' && input@[1] == 'i' && input@[2] == 't');
                    assert(input@[3] == 't' && input@[4] == 'l' && input@[5] == 'e');
                }
            }
            None
        }
    }
}

/// Where a field lands once the register is split into words: the index of
/// the word that holds it, and its bits within that word.
pub open spec fn spec_relocate_bits(
    endian: Endian,
    bits: BitRange,
    word_length_bits: usize,
    length: usize,
) -> (usize, BitRange) {
    match endian {
        Endian::Little => (
            (bits.spec_start() / word_length_bits) as usize,
            bits.spec_norm(word_length_bits),
        ),
        Endian::Big => (
            ((length * word_length_bits - (bits.spec_end() % word_length_bits + 1))
                / (word_length_bits as int)) as usize,
            bits.spec_norm(word_length_bits),
        ),
    }
}

/// What `relocate_bits` needs to compute without overflow or division by zero.
pub open spec fn relocate_bits_defined(
    endian: Endian,
    bits: BitRange,
    word_length_bits: usize,
    length: usize,
) -> bool {
    &&& word_length_bits > 0
    &&& endian is Big ==> {
        &&& length * word_length_bits <= usize::MAX
        &&& bits.spec_end() % word_length_bits + 1 <= length * word_length_bits
    }
}

/// Maps the bits of a field, counted over the whole register, to a word
/// index and the bits within that word.
///
/// In little-endian order the word is the one that holds the field's first
/// bit; this is right as long as the field does not cross a word boundary.
pub fn relocate_bits(endian: Endian, bits: BitRange, word_length_bits: usize, length: usize) -> (r: (
    usize,
    BitRange,
))
    requires
        relocate_bits_defined(endian, bits, word_length_bits, length),
    ensures
        r == spec_relocate_bits(endian, bits, word_length_bits, length),
{
    match endian {
        Endian::Little => {
            let word_idx = bits.start() / word_length_bits;
            let bits = bits.norm(word_length_bits);
            (word_idx, bits)
        },
        Endian::Big => {
            let bits = bits.norm(word_length_bits);
            let word_idx = ((length * word_length_bits) - (bits.end() + 1)) / word_length_bits;
            (word_idx, bits)
        },
    }
}

/// Mask of `end - start + 1` low bits, for `start <= end < 8`.
pub open spec fn width_mask(start: u8, end: u8) -> u8 {
    0xffu8 >> ((7 + start - end) as u8)
}

/// The field `start..=end` of a word, shifted down to bit 0.
pub open spec fn get_field(word: u8, start: u8, end: u8) -> u8 {
    (word >> start) & width_mask(start, end)
}

/// The word with the field `start..=end` replaced by `value`.
pub open spec fn set_field(word: u8, start: u8, end: u8, value: u8) -> u8 {
    (word & !(width_mask(start, end) << start)) | (value << start)
}

/// A range that lies inside one 8-bit word, first bit not after the last.
pub open spec fn in_word(bits: BitRange) -> bool {
    bits.spec_start() <= bits.spec_end() < 8
}

/// Whether `value` fits in the bits of `bits`.
pub open spec fn fits_in(bits: BitRange, value: u8) -> bool {
    value <= width_mask(bits.spec_start() as u8, bits.spec_end() as u8)
}

/// The value that a word holds in the bits of `bits`.
pub open spec fn spec_read_bits(word: u8, bits: BitRange) -> u8 {
    get_field(word, bits.spec_start() as u8, bits.spec_end() as u8)
}

/// The word with the bits of `bits` replaced by `value`.
pub open spec fn spec_write_bits(word: u8, bits: BitRange, value: u8) -> u8 {
    set_field(word, bits.spec_start() as u8, bits.spec_end() as u8, value)
}

/// Reads the field `bits` of a word (a single bit reads as 0 or 1).
pub fn read_bits(word: u8, bits: BitRange) -> (r: u8)
    requires
        in_word(bits),
    ensures
        r == spec_read_bits(word, bits),
        fits_in(bits, r),
{
    let start = bits.start() as u8;
    let end = bits.end() as u8;
    proof {
        lemma_get_field_fits(word, start, end);
    }
    (word >> start) & (0xffu8 >> (7 + start - end))
}

/// Writes `value` into the field `bits` of a word.
pub fn write_bits(word: u8, bits: BitRange, value: u8) -> (r: u8)
    requires
        in_word(bits),
        fits_in(bits, value),
    ensures
        r == spec_write_bits(word, bits, value),
{
    let start = bits.start() as u8;
    let end = bits.end() as u8;
    (word & !((0xffu8 >> (7 + start - end)) << start)) | (value << start)
}

/// A field read back holds no more bits than the field has.
pub proof fn lemma_get_field_fits(word: u8, start: u8, end: u8)
    requires
        start <= end < 8,
    ensures
        get_field(word, start, end) <= width_mask(start, end),
{
    assert(((word >> start) & (0xffu8 >> ((7 + start - end) as u8))) <= (0xffu8 >> ((7 + start
        - end) as u8))) by (bit_vector)
        requires
            start <= end < 8,
    ;
}

/// Reading a field gives back what was written into it.
pub proof fn lemma_get_set_same(word: u8, start: u8, end: u8, value: u8)
    requires
        start <= end < 8,
        value <= width_mask(start, end),
    ensures
        get_field(set_field(word, start, end, value), start, end) == value,
{
    let m = (7 + start - end) as u8;
    assert((((word & !((0xffu8 >> m) << start)) | (value << start)) >> start) & (0xffu8 >> m)
        == value) by (bit_vector)
        requires
            start <= end < 8,
            m == 7 + start - end,
            value <= (0xffu8 >> m),
    ;
}

/// Writing a field leaves every field that does not overlap it unchanged.
pub proof fn lemma_get_set_disjoint(
    word: u8,
    start: u8,
    end: u8,
    value: u8,
    other_start: u8,
    other_end: u8,
)
    requires
        start <= end < 8,
        other_start <= other_end < 8,
        end < other_start || other_end < start,
        value <= width_mask(start, end),
    ensures
        get_field(set_field(word, start, end, value), other_start, other_end) == get_field(
            word,
            other_start,
            other_end,
        ),
{
    let m = (7 + start - end) as u8;
    let n = (7 + other_start - other_end) as u8;
    assert((((word & !((0xffu8 >> m) << start)) | (value << start)) >> other_start) & (0xffu8
        >> n) == (word >> other_start) & (0xffu8 >> n)) by (bit_vector)
        requires
            start <= end < 8,
            other_start <= other_end < 8,
            end < other_start || other_end < start,
            m == 7 + start - end,
            n == 7 + other_start - other_end,
            value <= (0xffu8 >> m),
    ;
}

/// Writing back what a field holds leaves the word unchanged.
pub proof fn lemma_set_get_same(word: u8, start: u8, end: u8)
    requires
        start <= end < 8,
    ensures
        set_field(word, start, end, get_field(word, start, end)) == word,
{
    let m = (7 + start - end) as u8;
    assert((word & !((0xffu8 >> m) << start)) | (((word >> start) & (0xffu8 >> m)) << start)
        == word) by (bit_vector)
        requires
            start <= end < 8,
            m == 7 + start - end,
    ;
}

/// Two ranges that share no bit.
pub open spec fn disjoint(a: BitRange, b: BitRange) -> bool {
    a.spec_end() < b.spec_start() || b.spec_end() < a.spec_start()
}

/// Reading a field of a word gives back the value last written into it.
pub proof fn law_read_after_write(word: u8, bits: BitRange, value: u8)
    requires
        in_word(bits),
        fits_in(bits, value),
    ensures
        spec_read_bits(spec_write_bits(word, bits, value), bits) == value,
{
    lemma_get_set_same(word, bits.spec_start() as u8, bits.spec_end() as u8, value);
}

/// Writing a field of a word leaves every other field that shares no bit
/// with it unchanged.
pub proof fn law_write_keeps_other_fields(word: u8, bits: BitRange, value: u8, other: BitRange)
    requires
        in_word(bits),
        in_word(other),
        disjoint(bits, other),
        fits_in(bits, value),
    ensures
        spec_read_bits(spec_write_bits(word, bits, value), other) == spec_read_bits(word, other),
{
    lemma_get_set_disjoint(
        word,
        bits.spec_start() as u8,
        bits.spec_end() as u8,
        value,
        other.spec_start() as u8,
        other.spec_end() as u8,
    );
}

/// Writing back the value that a field holds leaves the word as it was.
pub proof fn law_write_read_identity(word: u8, bits: BitRange)
    requires
        in_word(bits),
    ensures
        spec_write_bits(word, bits, spec_read_bits(word, bits)) == word,
{
    lemma_set_get_same(word, bits.spec_start() as u8, bits.spec_end() as u8);
}

/// Every value read from a field fits back into that field.
pub proof fn law_read_fits(word: u8, bits: BitRange)
    requires
        in_word(bits),
    ensures
        fits_in(bits, spec_read_bits(word, bits)),
{
    lemma_get_field_fits(word, bits.spec_start() as u8, bits.spec_end() as u8);
}

/// After relocation both ends of a field lie inside one word.
pub proof fn law_relocated_bits_in_word(
    endian: Endian,
    bits: BitRange,
    word_length_bits: usize,
    length: usize,
)
    requires
        relocate_bits_defined(endian, bits, word_length_bits, length),
    ensures
        ({
            let (_word_idx, b) = spec_relocate_bits(endian, bits, word_length_bits, length);
            &&& b.spec_start() < word_length_bits
            &&& b.spec_end() < word_length_bits
            &&& b.spec_start() == bits.spec_start() % word_length_bits
            &&& b.spec_end() == bits.spec_end() % word_length_bits
        }),
{
}

/// In little-endian order a field goes to the word that holds its first bit;
/// a field that does not cross a word boundary keeps its bits in order and
/// lands inside the register.
pub proof fn law_little_endian_word(bits: BitRange, word_length_bits: usize, length: usize)
    requires
        word_length_bits > 0,
        bits.spec_start() / word_length_bits == bits.spec_end() / word_length_bits,
        bits.spec_start() <= bits.spec_end() < length * word_length_bits,
    ensures
        ({
            let (word_idx, b) = spec_relocate_bits(
                Endian::Little,
                bits,
                word_length_bits,
                length,
            );
            &&& word_idx == bits.spec_start() / word_length_bits
            &&& word_idx < length
            &&& b.spec_start() <= b.spec_end()
            &&& word_idx * word_length_bits + b.spec_start() == bits.spec_start()
            &&& word_idx * word_length_bits + b.spec_end() == bits.spec_end()
        }),
{
    let w = word_length_bits as int;
    let s = bits.spec_start() as int;
    let e = bits.spec_end() as int;
    let q = s / w;
    assert(s == q * w + s % w) by (nonlinear_arith)
        requires
            w > 0,
            q == s / w,
    ;
    assert(e == q * w + e % w) by (nonlinear_arith)
        requires
            w > 0,
            q == e / w,
    ;
    assert(q < length) by (nonlinear_arith)
        requires
            w > 0,
            q == e / w,
            e < length * w,
            0 <= e,
    ;
}

/// In big-endian order every field of a register of at least one word is
/// placed in its last word, whatever bits it names.
pub proof fn law_big_endian_last_word(bits: BitRange, word_length_bits: usize, length: usize)
    requires
        word_length_bits > 0,
        length >= 1,
        length * word_length_bits <= usize::MAX,
    ensures
        relocate_bits_defined(Endian::Big, bits, word_length_bits, length),
        spec_relocate_bits(Endian::Big, bits, word_length_bits, length).0 == length - 1,
{
    let w = word_length_bits as int;
    let l = length as int;
    let e = (bits.spec_end() % word_length_bits) as int;
    assert(w <= l * w) by (nonlinear_arith)
        requires
            w > 0,
            l >= 1,
    ;
    assert((l * w - (e + 1)) / w == l - 1) by (nonlinear_arith)
        requires
            w > 0,
            l >= 1,
            0 <= e < w,
    ;
}

/// Bit `p` of a word.
pub open spec fn bit_of(word: u8, p: int) -> u8 {
    (word >> (p as u8)) & 1u8
}

/// Reading a field gives, in its low bits, the word's bits from the field's
/// first to its last, and zero above them.
pub proof fn law_read_bits_by_bit(word: u8, bits: BitRange)
    requires
        in_word(bits),
    ensures
        forall|q: int|
            0 <= q < 8 ==> #[trigger] bit_of(spec_read_bits(word, bits), q) == if q
                <= bits.spec_end() - bits.spec_start() {
                bit_of(word, bits.spec_start() + q)
            } else {
                0
            },
{
    let s = bits.spec_start() as u8;
    let e = bits.spec_end() as u8;
    let r = spec_read_bits(word, bits);
    assert forall|q: int| 0 <= q < 8 implies #[trigger] bit_of(r, q) == if q <= e - s {
        bit_of(word, s + q)
    } else {
        0
    } by {
        let qq = q as u8;
        let m = (7 + s - e) as u8;
        assert(r == (word >> s) & (0xffu8 >> m));
        if q <= e - s {
            assert((((word >> s) & (0xffu8 >> m)) >> qq) & 1u8 == (word >> ((s + qq) as u8)) & 1u8)
                by (bit_vector)
                requires
                    s <= e < 8,
                    m == 7 + s - e,
                    qq <= e - s,
            ;
        } else {
            assert((((word >> s) & (0xffu8 >> m)) >> qq) & 1u8 == 0) by (bit_vector)
                requires
                    s <= e < 8,
                    m == 7 + s - e,
                    e - s < qq < 8,
            ;
        }
    }
}

/// Writing a value into a field sets the field's bits to the value's low
/// bits, in order, and leaves every other bit of the word as it was.
pub proof fn law_write_bits_by_bit(word: u8, bits: BitRange, value: u8)
    requires
        in_word(bits),
        fits_in(bits, value),
    ensures
        forall|p: int|
            0 <= p < 8 ==> #[trigger] bit_of(spec_write_bits(word, bits, value), p) == if bits.spec_start()
                <= p <= bits.spec_end() {
                bit_of(value, p - bits.spec_start())
            } else {
                bit_of(word, p)
            },
{
    let s = bits.spec_start() as u8;
    let e = bits.spec_end() as u8;
    let w = spec_write_bits(word, bits, value);
    assert forall|p: int| 0 <= p < 8 implies #[trigger] bit_of(w, p) == if s <= p <= e {
        bit_of(value, p - s)
    } else {
        bit_of(word, p)
    } by {
        let pp = p as u8;
        let m = (7 + s - e) as u8;
        assert(w == (word & !((0xffu8 >> m) << s)) | (value << s));
        if s <= p <= e {
            assert(((((word & !((0xffu8 >> m) << s)) | (value << s)) >> pp) & 1u8) == (value >> ((
            pp - s) as u8)) & 1u8) by (bit_vector)
                requires
                    s <= pp <= e < 8,
                    m == 7 + s - e,
                    value <= (0xffu8 >> m),
            ;
        } else {
            assert(((((word & !((0xffu8 >> m) << s)) | (value << s)) >> pp) & 1u8) == (word >> pp)
                & 1u8) by (bit_vector)
                requires
                    s <= e < 8,
                    pp < 8,
                    pp < s || e < pp,
                    m == 7 + s - e,
                    value <= (0xffu8 >> m),
            ;
        }
    }
}

} // verus!
