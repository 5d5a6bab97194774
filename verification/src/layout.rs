use vstd::prelude::*;

use crate::bits::{
    disjoint, fits_in, in_word, law_read_after_write, law_write_keeps_other_fields, read_bits,
    relocate_bits, relocate_bits_defined, spec_read_bits, spec_relocate_bits, spec_write_bits,
    write_bits, BitRange, Endian, set_field, bit_of, law_read_bits_by_bit, law_write_bits_by_bit,
};

verus! {

/// Registers are read and written in words of this many bits.
pub const WORD_BITS: usize = 8;

/// The word, and the bits within it, where a field of a register of
/// `length` words is stored.
pub open spec fn location(endian: Endian, length: usize, bits: BitRange) -> (usize, BitRange) {
    spec_relocate_bits(endian, bits, WORD_BITS, length)
}

/// The field lands inside one word of the register.
pub open spec fn field_placed(endian: Endian, length: usize, bits: BitRange) -> bool {
    &&& relocate_bits_defined(endian, bits, WORD_BITS, length)
    &&& location(endian, length, bits).0 < length
    &&& in_word(location(endian, length, bits).1)
}

/// Two stored fields share no bit.
pub open spec fn separate(a: (usize, BitRange), b: (usize, BitRange)) -> bool {
    a.0 != b.0 || disjoint(a.1, b.1)
}

/// Every field lands inside the register and no two fields share a bit.
pub open spec fn layout_ok(endian: Endian, length: usize, fields: Seq<BitRange>) -> bool {
    &&& forall|i: int| 0 <= i < fields.len() ==> field_placed(endian, length, #[trigger] fields[i])
    &&& forall|i: int, j: int|
        0 <= i < fields.len() && 0 <= j < fields.len() && i != j ==> separate(
            location(endian, length, #[trigger] fields[i]),
            location(endian, length, #[trigger] fields[j]),
        )
}

/// Each value fits in the bits where its field is stored.
pub open spec fn values_fit(
    endian: Endian,
    length: usize,
    fields: Seq<BitRange>,
    values: Seq<u8>,
) -> bool {
    &&& values.len() == fields.len()
    &&& forall|i: int|
        0 <= i < fields.len() ==> fits_in(location(endian, length, #[trigger] fields[i]).1, values[i])
}

/// The value of a field in a buffer of words.
pub open spec fn spec_read_field(buffer: Seq<u8>, endian: Endian, length: usize, bits: BitRange) -> u8 {
    let (w, b) = location(endian, length, bits);
    spec_read_bits(buffer[w as int], b)
}

/// The buffer with a field set to `value`.
pub open spec fn spec_write_field(
    buffer: Seq<u8>,
    endian: Endian,
    length: usize,
    bits: BitRange,
    value: u8,
) -> Seq<u8> {
    let (w, b) = location(endian, length, bits);
    buffer.update(w as int, spec_write_bits(buffer[w as int], b, value))
}

/// A buffer of `length` zero words with each field written in turn.
pub open spec fn spec_encode(
    endian: Endian,
    length: usize,
    fields: Seq<BitRange>,
    values: Seq<u8>,
) -> Seq<u8>
    decreases fields.len(),
{
    if fields.len() == 0 {
        Seq::new(length as nat, |i: int| 0u8)
    } else {
        spec_write_field(
            spec_encode(endian, length, fields.drop_last(), values.drop_last()),
            endian,
            length,
            fields.last(),
            values.last(),
        )
    }
}

/// The value of each field in a buffer.
pub open spec fn spec_decode(
    buffer: Seq<u8>,
    endian: Endian,
    length: usize,
    fields: Seq<BitRange>,
) -> Seq<u8> {
    fields.map_values(|b: BitRange| spec_read_field(buffer, endian, length, b))
}

/// Where each field is stored: its word and its bits within the word.
pub fn field_locations(endian: Endian, length: usize, fields: &Vec<BitRange>) -> (r: Vec<
    (usize, BitRange),
>)
    requires
        forall|i: int|
            0 <= i < fields@.len() ==> relocate_bits_defined(
                endian,
                #[trigger] fields@[i],
                WORD_BITS,
                length,
            ),
    ensures
        r@ == fields@.map_values(|b: BitRange| location(endian, length, b)),
{
    let mut r: Vec<(usize, BitRange)> = Vec::new();
    let mut i: usize = 0;
    while i < fields.len()
        invariant
            i <= fields@.len(),
            forall|k: int|
                0 <= k < fields@.len() ==> relocate_bits_defined(
                    endian,
                    #[trigger] fields@[k],
                    WORD_BITS,
                    length,
                ),
            r@ == fields@.subrange(0, i as int).map_values(
                |b: BitRange| location(endian, length, b),
            ),
        decreases fields@.len() - i,
    {
        r.push(relocate_bits(endian, fields[i], WORD_BITS, length));
        i = i + 1;
        assert(r@ =~= fields@.subrange(0, i as int).map_values(
            |b: BitRange| location(endian, length, b),
        ));
    }
    assert(fields@.subrange(0, i as int) =~= fields@);
    r
}

/// Reads one field of a register from its words.
pub fn read_field(buffer: &[u8], endian: Endian, length: usize, bits: BitRange) -> (r: u8)
    requires
        buffer@.len() == length,
        field_placed(endian, length, bits),
    ensures
        r == spec_read_field(buffer@, endian, length, bits),
{
    let (w, b) = relocate_bits(endian, bits, WORD_BITS, length);
    read_bits(buffer[w], b)
}

/// Writes one field of a register into its words.
pub fn write_field(buffer: &mut Vec<u8>, endian: Endian, length: usize, bits: BitRange, value: u8)
    requires
        old(buffer)@.len() == length,
        field_placed(endian, length, bits),
        fits_in(location(endian, length, bits).1, value),
    ensures
        final(buffer)@ == spec_write_field(old(buffer)@, endian, length, bits, value),
{
    let (w, b) = relocate_bits(endian, bits, WORD_BITS, length);
    let word = write_bits(buffer[w], b, value);
    buffer.set(w, word);
}

/// The words of a register whose fields hold `values`, every other bit zero.
pub fn encode_fields(endian: Endian, length: usize, fields: &Vec<BitRange>, values: &Vec<u8>) -> (r:
    Vec<u8>)
    requires
        forall|i: int| 0 <= i < fields@.len() ==> field_placed(endian, length, #[trigger] fields@[i]),
        values_fit(endian, length, fields@, values@),
    ensures
        r@ == spec_encode(endian, length, fields@, values@),
        r@.len() == length,
{
    let mut buffer: Vec<u8> = Vec::new();
    let mut k: usize = 0;
    while k < length
        invariant
            k <= length,
            buffer@ == Seq::new(k as nat, |i: int| 0u8),
        decreases length - k,
    {
        buffer.push(0u8);
        k = k + 1;
        assert(buffer@ =~= Seq::new(k as nat, |i: int| 0u8));
    }
    let mut i: usize = 0;
    while i < fields.len()
        invariant
            i <= fields@.len(),
            forall|j: int|
                0 <= j < fields@.len() ==> field_placed(endian, length, #[trigger] fields@[j]),
            values_fit(endian, length, fields@, values@),
            buffer@ == spec_encode(
                endian,
                length,
                fields@.subrange(0, i as int),
                values@.subrange(0, i as int),
            ),
            buffer@.len() == length,
        decreases fields@.len() - i,
    {
        assert(fields@.subrange(0, i + 1).drop_last() =~= fields@.subrange(0, i as int));
        assert(values@.subrange(0, i + 1).drop_last() =~= values@.subrange(0, i as int));
        assert(fits_in(location(endian, length, fields@[i as int]).1, values@[i as int]));
        write_field(&mut buffer, endian, length, fields[i], values[i]);
        i = i + 1;
    }
    assert(fields@.subrange(0, i as int) =~= fields@);
    assert(values@.subrange(0, i as int) =~= values@);
    buffer
}

/// The value of each field of a register, read from its words.
pub fn decode_fields(buffer: &[u8], endian: Endian, length: usize, fields: &Vec<BitRange>) -> (r:
    Vec<u8>)
    requires
        buffer@.len() == length,
        forall|i: int| 0 <= i < fields@.len() ==> field_placed(endian, length, #[trigger] fields@[i]),
    ensures
        r@ == spec_decode(buffer@, endian, length, fields@),
{
    let mut r: Vec<u8> = Vec::new();
    let mut i: usize = 0;
    while i < fields.len()
        invariant
            i <= fields@.len(),
            buffer@.len() == length,
            forall|j: int|
                0 <= j < fields@.len() ==> field_placed(endian, length, #[trigger] fields@[j]),
            r@ == spec_decode(buffer@, endian, length, fields@.subrange(0, i as int)),
        decreases fields@.len() - i,
    {
        r.push(read_field(buffer, endian, length, fields[i]));
        i = i + 1;
        assert(r@ =~= spec_decode(buffer@, endian, length, fields@.subrange(0, i as int)));
    }
    assert(fields@.subrange(0, i as int) =~= fields@);
    r
}

/// Reading a field of a register gives back the value last written into it.
pub proof fn law_field_read_after_write(
    buffer: Seq<u8>,
    endian: Endian,
    length: usize,
    bits: BitRange,
    value: u8,
)
    requires
        buffer.len() == length,
        field_placed(endian, length, bits),
        fits_in(location(endian, length, bits).1, value),
    ensures
        spec_read_field(spec_write_field(buffer, endian, length, bits, value), endian, length, bits)
            == value,
{
    let (w, b) = location(endian, length, bits);
    law_read_after_write(buffer[w as int], b, value);
}

/// Writing a field of a register leaves every field that shares no bit with
/// it unchanged.
pub proof fn law_field_write_keeps_others(
    buffer: Seq<u8>,
    endian: Endian,
    length: usize,
    bits: BitRange,
    value: u8,
    other: BitRange,
)
    requires
        buffer.len() == length,
        field_placed(endian, length, bits),
        field_placed(endian, length, other),
        separate(location(endian, length, bits), location(endian, length, other)),
        fits_in(location(endian, length, bits).1, value),
    ensures
        spec_read_field(spec_write_field(buffer, endian, length, bits, value), endian, length, other)
            == spec_read_field(buffer, endian, length, other),
{
    let (w, b) = location(endian, length, bits);
    let (w2, b2) = location(endian, length, other);
    if w == w2 {
        law_write_keeps_other_fields(buffer[w as int], b, value, b2);
    }
}

/// After the fields are written in turn, each field holds its value.
proof fn lemma_encode_reads(endian: Endian, length: usize, fields: Seq<BitRange>, values: Seq<u8>)
    requires
        layout_ok(endian, length, fields),
        values_fit(endian, length, fields, values),
    ensures
        spec_encode(endian, length, fields, values).len() == length,
        forall|j: int|
            0 <= j < fields.len() ==> spec_read_field(
                spec_encode(endian, length, fields, values),
                endian,
                length,
                #[trigger] fields[j],
            ) == values[j],
    decreases fields.len(),
{
    if fields.len() > 0 {
        let n = fields.len() - 1;
        let pf = fields.drop_last();
        let pv = values.drop_last();
        assert forall|i: int, j: int|
            0 <= i < pf.len() && 0 <= j < pf.len() && i != j implies separate(
            location(endian, length, #[trigger] pf[i]),
            location(endian, length, #[trigger] pf[j]),
        ) by {
            assert(pf[i] == fields[i] && pf[j] == fields[j]);
        }
        assert forall|i: int| 0 <= i < pf.len() implies field_placed(
            endian,
            length,
            #[trigger] pf[i],
        ) by {
            assert(pf[i] == fields[i]);
        }
        assert forall|i: int| 0 <= i < pf.len() implies fits_in(
            location(endian, length, #[trigger] pf[i]).1,
            pv[i],
        ) by {
            assert(pf[i] == fields[i] && pv[i] == values[i]);
        }
        lemma_encode_reads(endian, length, pf, pv);
        let prev = spec_encode(endian, length, pf, pv);
        let last = fields[n];
        assert(fields.last() == last);
        assert(field_placed(endian, length, last));
        assert(fits_in(location(endian, length, last).1, values[n]));
        assert forall|j: int| 0 <= j < fields.len() implies spec_read_field(
            spec_encode(endian, length, fields, values),
            endian,
            length,
            #[trigger] fields[j],
        ) == values[j] by {
            if j == n {
                law_field_read_after_write(prev, endian, length, last, values[n]);
            } else {
                assert(pf[j] == fields[j]);
                assert(field_placed(endian, length, fields[j]));
                assert(separate(
                    location(endian, length, fields[n]),
                    location(endian, length, fields[j]),
                ));
                law_field_write_keeps_others(prev, endian, length, last, values[n], fields[j]);
            }
        }
    }
}

/// Decoding the words that encode a register gives back every field's value,
/// as long as no two fields share a bit and each value fits its field.
pub proof fn law_decode_encode(endian: Endian, length: usize, fields: Seq<BitRange>, values: Seq<u8>)
    requires
        layout_ok(endian, length, fields),
        values_fit(endian, length, fields, values),
    ensures
        spec_encode(endian, length, fields, values).len() == length,
        spec_decode(spec_encode(endian, length, fields, values), endian, length, fields) == values,
{
    lemma_encode_reads(endian, length, fields, values);
    assert(spec_decode(spec_encode(endian, length, fields, values), endian, length, fields)
        =~= values);
}

/// Some field is stored in word `k` and covers its bit `p`.
pub open spec fn bit_covered(
    endian: Endian,
    length: usize,
    fields: Seq<BitRange>,
    k: int,
    p: int,
) -> bool {
    exists|i: int|
        0 <= i < fields.len() && {
            let (w, b) = #[trigger] location(endian, length, fields[i]);
            &&& w == k
            &&& b.spec_start() <= p <= b.spec_end()
        }
}

/// Writing the bits `start..=end` of a word leaves every other bit as it was.
proof fn lemma_set_field_other_bit(word: u8, start: u8, end: u8, value: u8, p: u8)
    requires
        start <= end < 8,
        value <= crate::bits::width_mask(start, end),
        p < 8,
        p < start || end < p,
    ensures
        (set_field(word, start, end, value) >> p) & 1u8 == (word >> p) & 1u8,
{
    let m = (7 + start - end) as u8;
    assert((((word & !((0xffu8 >> m) << start)) | (value << start)) >> p) & 1u8 == (word >> p)
        & 1u8) by (bit_vector)
        requires
            start <= end < 8,
            value <= (0xffu8 >> m),
            p < 8,
            p < start || end < p,
            m == 7 + start - end,
    ;
}

/// Encoding no fields gives `length` zero words.
pub proof fn law_encode_no_fields(endian: Endian, length: usize)
    ensures
        spec_encode(endian, length, Seq::empty(), Seq::empty()) == Seq::new(
            length as nat,
            |i: int| 0u8,
        ),
{
}

/// In the words that encode a register, every bit that no field covers is
/// zero, and there are `length` words.
pub proof fn law_encode_unused_bits_zero(
    endian: Endian,
    length: usize,
    fields: Seq<BitRange>,
    values: Seq<u8>,
)
    requires
        forall|i: int| 0 <= i < fields.len() ==> field_placed(endian, length, #[trigger] fields[i]),
        values_fit(endian, length, fields, values),
    ensures
        spec_encode(endian, length, fields, values).len() == length,
        forall|k: int, p: int|
            0 <= k < length && 0 <= p < 8 && !bit_covered(endian, length, fields, k, p) ==> #[trigger] bit_of(
                spec_encode(endian, length, fields, values)[k],
                p,
            ) == 0,
    decreases fields.len(),
{
    let enc = spec_encode(endian, length, fields, values);
    if fields.len() == 0 {
        assert forall|k: int, p: int|
            0 <= k < length && 0 <= p < 8 && !bit_covered(endian, length, fields, k, p) implies #[trigger] bit_of(
            enc[k],
            p,
        ) == 0 by {
            let pp = p as u8;
            assert((0u8 >> pp) & 1u8 == 0) by (bit_vector);
        }
    } else {
        let pf = fields.drop_last();
        let pv = values.drop_last();
        let n = fields.len() - 1;
        assert forall|i: int| 0 <= i < pf.len() implies field_placed(
            endian,
            length,
            #[trigger] pf[i],
        ) by {
            assert(pf[i] == fields[i]);
        }
        assert forall|i: int| 0 <= i < pf.len() implies fits_in(
            location(endian, length, #[trigger] pf[i]).1,
            pv[i],
        ) by {
            assert(pf[i] == fields[i] && pv[i] == values[i]);
        }
        law_encode_unused_bits_zero(endian, length, pf, pv);
        assert(values.last() == values[n]);
        assert(fits_in(location(endian, length, fields[n]).1, values[n]));
        let prev = spec_encode(endian, length, pf, pv);
        let last = fields.last();
        assert(last == fields[n]);
        let (w, b) = location(endian, length, last);
        assert(field_placed(endian, length, fields[n]));
        assert forall|k: int, p: int|
            0 <= k < length && 0 <= p < 8 && !bit_covered(endian, length, fields, k, p) implies #[trigger] bit_of(
            enc[k],
            p,
        ) == 0 by {
            if bit_covered(endian, length, pf, k, p) {
                let i = choose|i: int|
                    0 <= i < pf.len() && {
                        let (w2, b2) = #[trigger] location(endian, length, pf[i]);
                        &&& w2 == k
                        &&& b2.spec_start() <= p <= b2.spec_end()
                    };
                assert(pf[i] == fields[i]);
                assert(location(endian, length, fields[i]) == location(endian, length, pf[i]));
            }
            assert(bit_of(prev[k], p) == 0);
            if k == w {
                if b.spec_start() <= p <= b.spec_end() {
                    assert(location(endian, length, fields[n]) == (w, b));
                }
                lemma_set_field_other_bit(
                    prev[k],
                    b.spec_start() as u8,
                    b.spec_end() as u8,
                    values.last(),
                    p as u8,
                );
            }
        }
    }
}

/// A field of a register is read from the word it is stored in: its bit `q`
/// is that word's bit `start + q`, where `start` is the field's first bit
/// within the word, and its bits above the field's width are zero.
pub proof fn law_read_field_by_bit(buffer: Seq<u8>, endian: Endian, length: usize, bits: BitRange)
    requires
        buffer.len() == length,
        field_placed(endian, length, bits),
    ensures
        ({
            let (w, b) = location(endian, length, bits);
            forall|q: int|
                0 <= q < 8 ==> #[trigger] bit_of(spec_read_field(buffer, endian, length, bits), q)
                    == if q <= b.spec_end() - b.spec_start() {
                    bit_of(buffer[w as int], b.spec_start() + q)
                } else {
                    0
                }
        }),
{
    let (w, b) = location(endian, length, bits);
    law_read_bits_by_bit(buffer[w as int], b);
}

/// Writing a field of a register changes only the word it is stored in, and
/// in that word only the field's bits, which take the value's bits in order.
pub proof fn law_write_field_by_bit(
    buffer: Seq<u8>,
    endian: Endian,
    length: usize,
    bits: BitRange,
    value: u8,
)
    requires
        buffer.len() == length,
        field_placed(endian, length, bits),
        fits_in(location(endian, length, bits).1, value),
    ensures
        ({
            let (w, b) = location(endian, length, bits);
            let out = spec_write_field(buffer, endian, length, bits, value);
            &&& out.len() == length
            &&& forall|k: int| 0 <= k < length && k != w ==> #[trigger] out[k] == buffer[k]
            &&& forall|p: int|
                0 <= p < 8 ==> #[trigger] bit_of(out[w as int], p) == if b.spec_start() <= p
                    <= b.spec_end() {
                    bit_of(value, p - b.spec_start())
                } else {
                    bit_of(buffer[w as int], p)
                }
        }),
{
    let (w, b) = location(endian, length, bits);
    law_write_bits_by_bit(buffer[w as int], b, value);
}

} // verus!
