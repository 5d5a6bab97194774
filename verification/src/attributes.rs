use vstd::prelude::*;

use crate::bits::{BitRange, Endian};

verus! {

/// Characters with the Unicode `White_Space` property, which `str::trim`
/// removes.
pub open spec fn is_whitespace(c: char) -> bool {
    ||| ('\u{9}' <= c && c <= '\u{d}')
    ||| c == ' '
    ||| c == '\u{85}'
    ||| c == '\u{a0}'
    ||| c == '\u{1680}'
    ||| ('\u{2000}' <= c && c <= '\u{200a}')
    ||| c == '\u{2028}'
    ||| c == '\u{2029}'
    ||| c == '\u{202f}'
    ||| c == '\u{205f}'
    ||| c == '\u{3000}'
}

/// The text without its leading whitespace.
pub open spec fn trim_start(s: Seq<char>) -> Seq<char>
    decreases s.len(),
{
    if s.len() > 0 && is_whitespace(s[0]) {
        trim_start(s.drop_first())
    } else {
        s
    }
}

/// The text without its trailing whitespace.
pub open spec fn trim_end(s: Seq<char>) -> Seq<char>
    decreases s.len(),
{
    if s.len() > 0 && is_whitespace(s.last()) {
        trim_end(s.drop_last())
    } else {
        s
    }
}

/// The text without leading and trailing whitespace.
pub open spec fn trim(s: Seq<char>) -> Seq<char> {
    trim_end(trim_start(s))
}

pub open spec fn is_digit(c: char) -> bool {
    '0' <= c && c <= '9'
}

pub open spec fn all_digits(s: Seq<char>) -> bool {
    forall|i: int| 0 <= i < s.len() ==> is_digit(#[trigger] s[i])
}

/// The number that a string of decimal digits writes.
pub open spec fn digits_value(s: Seq<char>) -> nat
    decreases s.len(),
{
    if s.len() == 0 {
        0
    } else {
        digits_value(s.drop_last()) * 10 + (s.last() as nat - '0' as nat) as nat
    }
}

/// The digits of an unsigned number, after an optional `+`.
pub open spec fn unsigned_digits(s: Seq<char>) -> Seq<char> {
    if s.len() > 0 && s[0] == '+' {
        s.drop_first()
    } else {
        s
    }
}

/// What `str::parse::<usize>` gives for a text: the number its decimal
/// digits write, after an optional `+`, where there is at least one digit,
/// nothing else, and the number fits in a `usize`.
pub open spec fn spec_parse_usize(s: Seq<char>) -> Option<usize> {
    let d = unsigned_digits(s);
    if d.len() > 0 && all_digits(d) && digits_value(d) <= usize::MAX {
        Some(digits_value(d) as usize)
    } else {
        None
    }
}

/// The characters of a string, one per element.
pub fn chars_of(s: &str) -> (r: Vec<char>)
    ensures
        r@ == s@,
{
    let n = s.unicode_len();
    let mut r: Vec<char> = Vec::new();
    let mut i: usize = 0;
    while i < n
        invariant
            n == s@.len(),
            i <= n,
            r@ == s@.subrange(0, i as int),
        decreases n - i,
    {
        r.push(s.get_char(i));
        i = i + 1;
        assert(r@ =~= s@.subrange(0, i as int));
    }
    assert(r@ =~= s@);
    r
}

/// Exec test for the characters that `is_whitespace` names.
pub fn char_is_whitespace(c: char) -> (r: bool)
    ensures
        r == is_whitespace(c),
{
    ('\u{9}' <= c && c <= '\u{d}') || c == ' ' || c == '\u{85}' || c == '\u{a0}' || c
        == '\u{1680}' || ('\u{2000}' <= c && c <= '\u{200a}') || c == '\u{2028}' || c
        == '\u{2029}' || c == '\u{202f}' || c == '\u{205f}' || c == '\u{3000}'
}

/// The bounds of the trimmed part of `s[lo..hi]`.
pub fn trim_bounds(s: &Vec<char>, lo: usize, hi: usize) -> (r: (usize, usize))
    requires
        lo <= hi <= s@.len(),
    ensures
        lo <= r.0 <= r.1 <= hi,
        s@.subrange(r.0 as int, r.1 as int) == trim(s@.subrange(lo as int, hi as int)),
{
    let mut i = lo;
    while i < hi && char_is_whitespace(s[i])
        invariant
            lo <= i <= hi <= s@.len(),
            trim_start(s@.subrange(lo as int, hi as int)) == trim_start(
                s@.subrange(i as int, hi as int),
            ),
        decreases hi - i,
    {
        assert(s@.subrange(i as int, hi as int).drop_first() =~= s@.subrange(
            i + 1,
            hi as int,
        ));
        i = i + 1;
    }
    assert(trim_start(s@.subrange(i as int, hi as int)) == s@.subrange(i as int, hi as int));
    let mut j = hi;
    while j > i && char_is_whitespace(s[j - 1])
        invariant
            lo <= i <= j <= hi <= s@.len(),
            trim_end(s@.subrange(i as int, hi as int)) == trim_end(
                s@.subrange(i as int, j as int),
            ),
        decreases j - i,
    {
        assert(s@.subrange(i as int, j as int).drop_last() =~= s@.subrange(
            i as int,
            j - 1,
        ));
        j = j - 1;
    }
    (i, j)
}

/// The value of one more digit after a string of digits.
proof fn lemma_digits_value_push(s: Seq<char>, lo: int, i: int)
    requires
        0 <= lo <= i < s.len(),
    ensures
        digits_value(s.subrange(lo, i + 1)) == digits_value(s.subrange(lo, i)) * 10 + (
        s[i] as nat - '0' as nat) as nat,
{
    assert(s.subrange(lo, i + 1).drop_last() =~= s.subrange(lo, i));
}

/// Parses `s[lo..hi]` as `str::parse::<usize>` does.
pub fn parse_usize_range(s: &Vec<char>, lo: usize, hi: usize) -> (r: Option<usize>)
    requires
        lo <= hi <= s@.len(),
    ensures
        r == spec_parse_usize(s@.subrange(lo as int, hi as int)),
{
    let ghost text = s@.subrange(lo as int, hi as int);
    let mut start = lo;
    if start < hi && s[start] == '+' {
        start = start + 1;
    }
    assert(unsigned_digits(text) =~= s@.subrange(start as int, hi as int));
    if start == hi {
        return None;
    }
    let mut i = start;
    let mut acc: usize = 0;
    let mut overflow = false;
    while i < hi
        invariant
            lo <= start <= i <= hi <= s@.len(),
            text == s@.subrange(lo as int, hi as int),
            unsigned_digits(text) == s@.subrange(start as int, hi as int),
            all_digits(s@.subrange(start as int, i as int)),
            !overflow ==> acc == digits_value(s@.subrange(start as int, i as int)),
            overflow ==> digits_value(s@.subrange(start as int, i as int)) > usize::MAX,
        decreases hi - i,
    {
        let c = s[i];
        if !('0' <= c && c <= '9') {
            assert(s@.subrange(start as int, hi as int)[i - start] == c);
            assert(!is_digit(unsigned_digits(text)[i - start]));
            assert(!all_digits(unsigned_digits(text)));
            return None;
        }
        proof {
            lemma_digits_value_push(s@, start as int, i as int);
        }
        let d = ((c as u32) - ('0' as u32)) as usize;
        if !overflow {
            match acc.checked_mul(10) {
                Some(m) => match m.checked_add(d) {
                    Some(v) => {
                        acc = v;
                    },
                    None => {
                        overflow = true;
                    },
                },
                None => {
                    overflow = true;
                },
            }
        }
        i = i + 1;
        assert forall|k: int| 0 <= k < s@.subrange(start as int, i as int).len() implies is_digit(
            #[trigger] s@.subrange(start as int, i as int)[k],
        ) by {
            if k < i - 1 - start {
                assert(s@.subrange(start as int, i as int)[k] == s@.subrange(
                    start as int,
                    i - 1,
                )[k]);
            }
        }
    }
    if overflow {
        None
    } else {
        Some(acc)
    }
}

/// A `..` starts at position `p` of `s`.
pub open spec fn dots_at(s: Seq<char>, p: int) -> bool {
    0 <= p && p + 1 < s.len() && s[p] == '.' && s[p + 1] == '.'
}

/// `s` holds a `..` somewhere.
pub open spec fn has_dots(s: Seq<char>) -> bool {
    exists|p: int| dots_at(s, p)
}

/// The first `..` of `s` starts at `p`.
pub open spec fn first_dots(s: Seq<char>, p: int) -> bool {
    dots_at(s, p) && forall|q: int| 0 <= q < p ==> !dots_at(s, q)
}

/// `s` splits at the `..` that starts at `p` into exactly two parts.
pub open spec fn splits_in_two_at(s: Seq<char>, p: int) -> bool {
    first_dots(s, p) && !has_dots(s.subrange(p + 2, s.len() as int))
}

/// What `s.split("..")` gives where it gives exactly two parts: the text
/// before the first `..` and the text after it.
pub open spec fn split_range(s: Seq<char>) -> Option<(Seq<char>, Seq<char>)> {
    if exists|p: int| splits_in_two_at(s, p) {
        let p = choose|p: int| splits_in_two_at(s, p);
        Some((s.subrange(0, p), s.subrange(p + 2, s.len() as int)))
    } else {
        None
    }
}

/// Position of the first `..` at or after `from`.
fn find_dots(s: &Vec<char>, from: usize) -> (r: Option<usize>)
    requires
        from <= s@.len(),
    ensures
        match r {
            Some(p) => from <= p && dots_at(s@, p as int) && forall|q: int|
                from <= q < p ==> !dots_at(s@, q),
            None => forall|q: int| from <= q ==> !dots_at(s@, q),
        },
{
    let n = s.len();
    let mut i = from;
    while i < n && n - i > 1
        invariant
            n == s@.len(),
            from <= i <= n,
            forall|q: int| from <= q < i ==> !dots_at(s@, q),
        decreases n - i,
    {
        if s[i] == '.' && s[i + 1] == '.' {
            return Some(i);
        }
        i = i + 1;
    }
    None
}

/// Why the bits of a field could not be read from its attribute.
#[derive(Clone, Copy, Debug, PartialEq, Eq, Structural)]
pub enum BitsError {
    /// A bit index is not a number that fits in a `usize`.
    InvalidNumber,
    /// `bits` does not split at `..` into exactly two parts.
    InvalidRange,
    /// Neither or both of `bit` and `bits` were given.
    MissingBits,
}

impl BitsError {
    /// The text that the derive reports for the error.
    pub fn message(&self) -> (r: &'static str)
        ensures
            r@ == match self {
                BitsError::InvalidNumber => "Unable to parse number"@,
                BitsError::InvalidRange => "Range must be in format `start..end`"@,
                BitsError::MissingBits =>
                    "Must have one of `register(bit = \"...\")` or `register(bits = \"...\")` set"@,
            },
    {
        match self {
            BitsError::InvalidNumber => "Unable to parse number",
            BitsError::InvalidRange => "Range must be in format `start..end`",
            BitsError::MissingBits =>
                "Must have one of `register(bit = \"...\")` or `register(bits = \"...\")` set",
        }
    }
}

/// The characters of an optional string.
pub open spec fn opt_chars(o: Option<&str>) -> Option<Seq<char>> {
    match o {
        Some(s) => Some(s@),
        None => None,
    }
}

/// The bits that a field's `bit = "..."` or `bits = "..."` attribute names.
/// A single bit is parsed as written; each end of a range is trimmed first.
pub open spec fn spec_parse_bit_range(bit: Option<Seq<char>>, bits: Option<Seq<char>>) -> Result<
    BitRange,
    BitsError,
> {
    match (bit, bits) {
        (Some(b), None) => match spec_parse_usize(b) {
            Some(n) => Ok(BitRange::Bit(n)),
            None => Err(BitsError::InvalidNumber),
        },
        (None, Some(r)) => match split_range(r) {
            Some((first, last)) => match (
                spec_parse_usize(trim(first)),
                spec_parse_usize(trim(last)),
            ) {
                (Some(x), Some(y)) => Ok(BitRange::Bits((x, y))),
                _ => Err(BitsError::InvalidNumber),
            },
            None => Err(BitsError::InvalidRange),
        },
        _ => Err(BitsError::MissingBits),
    }
}

/// Reads the bits of a field from its `bit` or `bits` attribute.
pub fn parse_bit_range(bit: Option<&str>, bits: Option<&str>) -> (r: Result<BitRange, BitsError>)
    ensures
        r == spec_parse_bit_range(opt_chars(bit), opt_chars(bits)),
{
    match (bit, bits) {
        (Some(b), None) => {
            let c = chars_of(b);
            assert(c@.subrange(0, c@.len() as int) =~= c@);
            match parse_usize_range(&c, 0, c.len()) {
                Some(n) => Ok(BitRange::Bit(n)),
                None => Err(BitsError::InvalidNumber),
            }
        },
        (None, Some(r)) => {
            let c = chars_of(r);
            let n = c.len();
            match find_dots(&c, 0) {
                Some(p) => {
                    let rest = find_dots(&c, p + 2);
                    proof {
                        let tail = c@.subrange(p + 2, n as int);
                        assert forall|k: int| 0 <= k implies (dots_at(tail, k) <==> dots_at(c@, k + p + 2)) by {
                            if 0 <= k && k + 1 < tail.len() {
                                assert(tail[k] == c@[k + p + 2]);
                                assert(tail[k + 1] == c@[k + 1 + p + 2]);
                            }
                        }
                        assert(first_dots(c@, p as int));
                        assert forall|p2: int| splits_in_two_at(c@, p2) implies p2 == p by {
                            if p2 < p {
                                assert(!dots_at(c@, p2));
                            } else if p < p2 {
                                assert(!dots_at(c@, p as int));
                            }
                        }
                        match rest {
                            Some(p3) => {
                                assert(dots_at(tail, p3 - p - 2));
                                assert(!splits_in_two_at(c@, p as int));
                            },
                            None => {
                                assert forall|k: int| !dots_at(tail, k) by {
                                    if 0 <= k {
                                        assert(!dots_at(c@, k + p + 2));
                                    }
                                }
                                assert(splits_in_two_at(c@, p as int));
                            },
                        }
                    }
                    if rest.is_some() {
                        return Err(BitsError::InvalidRange);
                    }
                    let (s0, e0) = trim_bounds(&c, 0, p);
                    let (s1, e1) = trim_bounds(&c, p + 2, n);
                    let first = parse_usize_range(&c, s0, e0);
                    let last = parse_usize_range(&c, s1, e1);
                    match (first, last) {
                        (Some(x), Some(y)) => Ok(BitRange::Bits((x, y))),
                        _ => Err(BitsError::InvalidNumber),
                    }
                },
                None => {
                    proof {
                        assert forall|p2: int| !splits_in_two_at(c@, p2) by {
                            if p2 >= 0 {
                                assert(!dots_at(c@, p2));
                            }
                        }
                    }
                    Err(BitsError::InvalidRange)
                },
            }
        },
        _ => Err(BitsError::MissingBits),
    }
}

/// The `bit` and `bits` attributes given on one field of a register.
#[derive(Debug)]
pub struct FieldBits {
    pub bit: Option<String>,
    pub bits: Option<String>,
}

/// The characters of an optional string.
pub open spec fn opt_string_chars(o: Option<String>) -> Option<Seq<char>> {
    match o {
        Some(s) => Some(s@),
        None => None,
    }
}

impl View for FieldBits {
    type V = (Option<Seq<char>>, Option<Seq<char>>);

    open spec fn view(&self) -> (Option<Seq<char>>, Option<Seq<char>>) {
        (opt_string_chars(self.bit), opt_string_chars(self.bits))
    }
}

/// Why the attributes of a register could not be read.
#[derive(Clone, Copy, Debug, PartialEq, Eq)]
pub enum AttributeError {
    /// The `endian` attribute is neither `"big"` nor `"little"`.
    InvalidEndian,
    /// The field at this position names its bits wrongly.
    Field(usize, BitsError),
}

impl AttributeError {
    /// The text that the derive reports for the error.
    pub fn message(&self) -> (r: &'static str)
        ensures
            r@ == match self {
                AttributeError::InvalidEndian => "Must specify `endian = \"big\" | \"little\"`"@,
                AttributeError::Field(_, BitsError::InvalidNumber) => "Unable to parse number"@,
                AttributeError::Field(_, BitsError::InvalidRange) =>
                    "Range must be in format `start..end`"@,
                AttributeError::Field(_, BitsError::MissingBits) =>
                    "Must have one of `register(bit = \"...\")` or `register(bits = \"...\")` set"@,
            },
    {
        match self {
            AttributeError::InvalidEndian => "Must specify `endian = \"big\" | \"little\"`",
            AttributeError::Field(_, e) => e.message(),
        }
    }
}

/// The bits of each field, in order, or the error of the first field whose
/// attributes are wrong.
pub open spec fn spec_parse_fields(fields: Seq<(Option<Seq<char>>, Option<Seq<char>>)>) -> Result<
    Seq<BitRange>,
    AttributeError,
>
    decreases fields.len(),
{
    if fields.len() == 0 {
        Ok(Seq::empty())
    } else {
        match spec_parse_fields(fields.drop_last()) {
            Err(e) => Err(e),
            Ok(ranges) => match spec_parse_bit_range(fields.last().0, fields.last().1) {
                Ok(r) => Ok(ranges.push(r)),
                Err(e) => Err(AttributeError::Field((fields.len() - 1) as usize, e)),
            },
        }
    }
}

/// The endianness and the bits of each field of a register, checked in the
/// order the derive checks them: the endianness first, then the fields.
pub open spec fn spec_parse_register(
    endian: Seq<char>,
    fields: Seq<(Option<Seq<char>>, Option<Seq<char>>)>,
) -> Result<(Endian, Seq<BitRange>), AttributeError> {
    match Endian::spec_parse(endian) {
        None => Err(AttributeError::InvalidEndian),
        Some(e) => match spec_parse_fields(fields) {
            Ok(ranges) => Ok((e, ranges)),
            Err(err) => Err(err),
        },
    }
}

/// The optional string as a string slice.
fn opt_str(o: &Option<String>) -> (r: Option<&str>)
    ensures
        opt_chars(r) == opt_string_chars(*o),
{
    match o {
        Some(s) => Some(s.as_str()),
        None => None,
    }
}

/// Reads the endianness of a register and the bits of each of its fields.
pub fn parse_register_attributes(endian: &str, fields: &Vec<FieldBits>) -> (r: Result<
    (Endian, Vec<BitRange>),
    AttributeError,
>)
    ensures
        match r {
            Ok((e, ranges)) => spec_parse_register(endian@, fields@.map_values(|f: FieldBits| f@))
                == Ok::<(Endian, Seq<BitRange>), AttributeError>((e, ranges@)),
            Err(err) => spec_parse_register(endian@, fields@.map_values(|f: FieldBits| f@))
                == Err::<(Endian, Seq<BitRange>), AttributeError>(err),
        },
{
    let ghost views = fields@.map_values(|f: FieldBits| f@);
    let e = match Endian::parse(endian) {
        Some(e) => e,
        None => {
            return Err(AttributeError::InvalidEndian);
        },
    };
    let mut ranges: Vec<BitRange> = Vec::new();
    let mut i: usize = 0;
    while i < fields.len()
        invariant
            i <= fields@.len(),
            Endian::spec_parse(endian@) == Some(e),
            views == fields@.map_values(|f: FieldBits| f@),
            spec_parse_fields(views.subrange(0, i as int)) == Ok::<
                Seq<BitRange>,
                AttributeError,
            >(ranges@),
        decreases fields@.len() - i,
    {
        let f = &fields[i];
        assert(views.subrange(0, i + 1).drop_last() =~= views.subrange(0, i as int));
        assert(views.subrange(0, i + 1).last() == f@);
        match parse_bit_range(opt_str(&f.bit), opt_str(&f.bits)) {
            Ok(r) => {
                ranges.push(r);
            },
            Err(err) => {
                proof {
                    assert(spec_parse_fields(views.subrange(0, i + 1)) is Err);
                    lemma_parse_fields_err_persists(views, (i + 1) as nat);
                }
                return Err(AttributeError::Field(i, err));
            },
        }
        i = i + 1;
    }
    assert(views.subrange(0, i as int) =~= views);
    Ok((e, ranges))
}

/// Once a prefix of the fields fails, every longer prefix fails the same way.
proof fn lemma_parse_fields_err_persists(
    fields: Seq<(Option<Seq<char>>, Option<Seq<char>>)>,
    k: nat,
)
    requires
        k <= fields.len(),
        spec_parse_fields(fields.subrange(0, k as int)) is Err,
    ensures
        spec_parse_fields(fields) == spec_parse_fields(fields.subrange(0, k as int)),
    decreases fields.len() - k,
{
    if k == fields.len() {
        assert(fields.subrange(0, k as int) =~= fields);
    } else {
        assert(fields.subrange(0, k + 1 as int).drop_last() =~= fields.subrange(0, k as int));
        lemma_parse_fields_err_persists(fields, k + 1);
    }
}

/// A string of decimal digits, non-empty, writing a number that fits a
/// `usize`.
pub open spec fn is_decimal(s: Seq<char>) -> bool {
    s.len() > 0 && all_digits(s) && digits_value(s) <= usize::MAX
}

/// A string of digits has no whitespace to trim and parses as its value.
proof fn lemma_decimal_parses(s: Seq<char>)
    requires
        is_decimal(s),
    ensures
        trim(s) == s,
        spec_parse_usize(s) == Some(digits_value(s) as usize),
{
    assert(is_digit(s[0]));
    assert(is_digit(s[s.len() - 1]));
    assert(trim_start(s) == s);
    assert(s.last() == s[s.len() - 1]);
    assert(trim_end(s) == s);
    assert(unsigned_digits(s) == s);
}

/// A `bits` attribute that splits at `..` into two parts gives the range
/// whose start is the number its first part writes and whose end is the
/// number its second part writes, once each part is trimmed; a part that is
/// no number gives `InvalidNumber`, and a text that does not split into
/// exactly two parts gives `InvalidRange`.
pub proof fn law_bits_attribute_numbers(bits: Seq<char>)
    ensures
        match split_range(bits) {
            Some((first, last)) => match (
                spec_parse_usize(trim(first)),
                spec_parse_usize(trim(last)),
            ) {
                (Some(x), Some(y)) => spec_parse_bit_range(None, Some(bits)) == Ok::<
                    BitRange,
                    BitsError,
                >(BitRange::Bits((x, y))),
                _ => spec_parse_bit_range(None, Some(bits)) == Err::<BitRange, BitsError>(
                    BitsError::InvalidNumber,
                ),
            },
            None => spec_parse_bit_range(None, Some(bits)) == Err::<BitRange, BitsError>(
                BitsError::InvalidRange,
            ),
        },
        spec_parse_bit_range(None, None) == Err::<BitRange, BitsError>(BitsError::MissingBits),
        forall|bit: Seq<char>|
            #[trigger] spec_parse_bit_range(Some(bit), Some(bits)) == Err::<BitRange, BitsError>(
                BitsError::MissingBits,
            ),
{
}

/// A `bit` attribute gives the single bit whose index the text writes, or
/// `InvalidNumber` where it writes none.
pub proof fn law_bit_attribute_number(bit: Seq<char>)
    ensures
        match spec_parse_usize(bit) {
            Some(n) => spec_parse_bit_range(Some(bit), None) == Ok::<BitRange, BitsError>(
                BitRange::Bit(n),
            ),
            None => spec_parse_bit_range(Some(bit), None) == Err::<BitRange, BitsError>(
                BitsError::InvalidNumber,
            ),
        },
{
}

/// `bit = "n"` with `n` written in decimal names bit `n`, exactly as written.
pub proof fn law_bit_attribute_decimal(digits: Seq<char>)
    requires
        is_decimal(digits),
    ensures
        spec_parse_bit_range(Some(digits), None) == Ok::<BitRange, BitsError>(
            BitRange::Bit(digits_value(digits) as usize),
        ),
{
    lemma_decimal_parses(digits);
}

/// `bits = "x..y"` with `x` and `y` written in decimal names the range from
/// bit `x` to bit `y`, exactly as written.
pub proof fn law_bits_attribute_decimal(first: Seq<char>, last: Seq<char>)
    requires
        is_decimal(first),
        is_decimal(last),
    ensures
        spec_parse_bit_range(None, Some(first + seq!['.', '.'] + last)) == Ok::<
            BitRange,
            BitsError,
        >(BitRange::Bits((digits_value(first) as usize, digits_value(last) as usize))),
{
    let s = first + seq!['.', '.'] + last;
    let p = first.len() as int;
    lemma_decimal_parses(first);
    lemma_decimal_parses(last);
    assert(dots_at(s, p));
    assert forall|q: int| 0 <= q < p implies !dots_at(s, q) by {
        assert(s[q] == first[q]);
        assert(is_digit(first[q]));
    }
    let tail = s.subrange(p + 2, s.len() as int);
    assert(tail =~= last);
    assert(!has_dots(tail)) by {
        assert forall|k: int| !dots_at(tail, k) by {
            if 0 <= k < tail.len() {
                assert(is_digit(last[k]));
            }
        }
    }
    assert(splits_in_two_at(s, p));
    assert forall|p2: int| splits_in_two_at(s, p2) implies p2 == p by {
        if p2 < p {
            assert(s[p2] == first[p2]);
            assert(is_digit(first[p2]));
        } else if p < p2 {
            assert(!dots_at(s, p));
        }
    }
    assert(s.subrange(0, p) =~= first);
}

/// The field at position `i` names its bits as `spec_parse_bit_range` reads
/// them.
pub open spec fn field_result(
    fields: Seq<(Option<Seq<char>>, Option<Seq<char>>)>,
    i: int,
) -> Result<BitRange, BitsError> {
    spec_parse_bit_range(fields[i].0, fields[i].1)
}

/// Parsing the fields gives each field's bits in order, or the error of the
/// first field that fails, at its position.
proof fn lemma_parse_fields_fieldwise(fields: Seq<(Option<Seq<char>>, Option<Seq<char>>)>)
    requires
        fields.len() <= usize::MAX,
    ensures
        match spec_parse_fields(fields) {
            Ok(ranges) => ranges.len() == fields.len() && forall|i: int|
                0 <= i < fields.len() ==> #[trigger] field_result(fields, i) == Ok::<
                    BitRange,
                    BitsError,
                >(ranges[i]),
            Err(AttributeError::Field(i, k)) => i < fields.len() && field_result(fields, i as int)
                == Err::<BitRange, BitsError>(k) && forall|j: int|
                0 <= j < i ==> (#[trigger] field_result(fields, j)) is Ok,
            Err(AttributeError::InvalidEndian) => false,
        },
    decreases fields.len(),
{
    if fields.len() > 0 {
        let prev = fields.drop_last();
        lemma_parse_fields_fieldwise(prev);
        let n = fields.len() - 1;
        assert forall|i: int| 0 <= i < n implies field_result(fields, i) == field_result(prev, i) by {
            assert(fields[i] == prev[i]);
        }
        assert(fields.last() == fields[n]);
        match spec_parse_fields(prev) {
            Ok(ranges) => {
                match field_result(fields, n) {
                    Ok(r) => {
                        let rs = ranges.push(r);
                        assert forall|i: int| 0 <= i < fields.len() implies #[trigger] field_result(
                            fields,
                            i,
                        ) == Ok::<BitRange, BitsError>(rs[i]) by {
                            if i < n {
                                assert(field_result(prev, i) == Ok::<BitRange, BitsError>(
                                    ranges[i],
                                ));
                            }
                        }
                    },
                    Err(k) => {
                        assert forall|j: int| 0 <= j < n implies (#[trigger] field_result(
                            fields,
                            j,
                        )) is Ok by {
                            assert(field_result(prev, j) == Ok::<BitRange, BitsError>(ranges[j]));
                        }
                    },
                }
            },
            Err(e) => {
                match e {
                    AttributeError::Field(i, k) => {
                        assert forall|j: int| 0 <= j < i implies (#[trigger] field_result(
                            fields,
                            j,
                        )) is Ok by {
                            assert(field_result(prev, j) is Ok);
                        }
                    },
                    AttributeError::InvalidEndian => {},
                }
            },
        }
    }
}

/// A register's attributes are refused for their endianness before any
/// field is looked at; otherwise they give each field's bits, in order, as
/// that field's own attribute reads, or the error of the first field that
/// fails, at its position.
pub proof fn law_register_attributes_fieldwise(
    endian: Seq<char>,
    fields: Seq<(Option<Seq<char>>, Option<Seq<char>>)>,
)
    requires
        fields.len() <= usize::MAX,
    ensures
        match spec_parse_register(endian, fields) {
            Ok((e, ranges)) => Endian::spec_parse(endian) == Some(e) && ranges.len()
                == fields.len() && forall|i: int|
                0 <= i < fields.len() ==> #[trigger] field_result(fields, i) == Ok::<
                    BitRange,
                    BitsError,
                >(ranges[i]),
            Err(AttributeError::InvalidEndian) => Endian::spec_parse(endian) is None,
            Err(AttributeError::Field(i, k)) => Endian::spec_parse(endian) is Some && i
                < fields.len() && field_result(fields, i as int) == Err::<BitRange, BitsError>(k)
                && forall|j: int| 0 <= j < i ==> (#[trigger] field_result(fields, j)) is Ok,
        },
        Endian::spec_parse(endian) is None ==> spec_parse_register(endian, fields) == Err::<
            (Endian, Seq<BitRange>),
            AttributeError,
        >(AttributeError::InvalidEndian),
{
    lemma_parse_fields_fieldwise(fields);
}

/// Appending a digit to a string of digits multiplies its value by ten and
/// adds the digit; the empty string is worth zero.
pub proof fn law_digits_value_step(s: Seq<char>, c: char)
    requires
        is_digit(c),
    ensures
        digits_value(Seq::empty()) == 0,
        digits_value(s.push(c)) == digits_value(s) * 10 + (c as int - '0' as int),
{
    assert(s.push(c).drop_last() =~= s);
}

/// A text parses as a `usize` exactly when it is a decimal number that fits,
/// possibly after one `+`, and it parses as the number its digits write.
pub proof fn law_parse_usize_exact(s: Seq<char>)
    ensures
        spec_parse_usize(s) is Some <==> (is_decimal(s) || (s.len() > 0 && s[0] == '+'
            && is_decimal(s.drop_first()))),
        is_decimal(s) ==> spec_parse_usize(s) == Some(digits_value(s) as usize),
        s.len() > 0 && s[0] == '+' && is_decimal(s.drop_first()) ==> spec_parse_usize(s) == Some(
            digits_value(s.drop_first()) as usize,
        ),
{
    if is_decimal(s) {
        lemma_decimal_parses(s);
    }
    if s.len() > 0 && s[0] == '+' {
        assert(!is_digit(s[0]));
        assert(!is_decimal(s));
    }
}

/// `"big"` and `"little"` are the only endiannesses, each naming its own.
pub proof fn law_endian_parse_exact(input: Seq<char>)
    ensures
        (Endian::spec_parse(input) == Some(Endian::Big)) <==> input == "big"@,
        (Endian::spec_parse(input) == Some(Endian::Little)) <==> input == "little"@,
        Endian::spec_parse(input) is None <==> (input != "big"@ && input != "little"@),
{
    reveal_strlit("big");
    reveal_strlit("little");
    assert("big"@.len() != "little"@.len());
}

/// Leading whitespace is what `trim_start` drops.
proof fn lemma_trim_start_shape(s: Seq<char>)
    ensures
        exists|i: int|
            0 <= i <= s.len() && trim_start(s) == s.subrange(i, s.len() as int) && (forall|k: int|
                0 <= k < i ==> is_whitespace(#[trigger] s[k])) && (i == s.len() || !is_whitespace(
                s[i],
            )),
    decreases s.len(),
{
    if s.len() > 0 && is_whitespace(s[0]) {
        let t = s.drop_first();
        lemma_trim_start_shape(t);
        let i = choose|i: int|
            0 <= i <= t.len() && trim_start(t) == t.subrange(i, t.len() as int) && (forall|k: int|
                0 <= k < i ==> is_whitespace(#[trigger] t[k])) && (i == t.len() || !is_whitespace(
                t[i],
            ));
        assert(t.subrange(i, t.len() as int) =~= s.subrange(i + 1, s.len() as int));
        assert forall|k: int| 0 <= k < i + 1 implies is_whitespace(#[trigger] s[k]) by {
            if k > 0 {
                assert(s[k] == t[k - 1]);
            }
        }
        if i < t.len() {
            assert(s[i + 1] == t[i]);
        }
        assert(trim_start(s) == s.subrange(i + 1, s.len() as int));
    } else {
        assert(s.subrange(0, s.len() as int) =~= s);
        assert(trim_start(s) == s.subrange(0, s.len() as int));
    }
}

/// Trailing whitespace is what `trim_end` drops.
proof fn lemma_trim_end_shape(s: Seq<char>)
    ensures
        exists|j: int|
            0 <= j <= s.len() && trim_end(s) == s.subrange(0, j) && (forall|k: int|
                j <= k < s.len() ==> is_whitespace(#[trigger] s[k])) && (j == 0 || !is_whitespace(
                s[j - 1],
            )),
    decreases s.len(),
{
    if s.len() > 0 && is_whitespace(s.last()) {
        let t = s.drop_last();
        lemma_trim_end_shape(t);
        let j = choose|j: int|
            0 <= j <= t.len() && trim_end(t) == t.subrange(0, j) && (forall|k: int|
                j <= k < t.len() ==> is_whitespace(#[trigger] t[k])) && (j == 0 || !is_whitespace(
                t[j - 1],
            ));
        assert(t.subrange(0, j) =~= s.subrange(0, j));
        assert forall|k: int| j <= k < s.len() implies is_whitespace(#[trigger] s[k]) by {
            if k < t.len() {
                assert(s[k] == t[k]);
            }
        }
        if j > 0 {
            assert(s[j - 1] == t[j - 1]);
        }
        assert(trim_end(s) == s.subrange(0, j));
    } else {
        assert(s.subrange(0, s.len() as int) =~= s);
        if s.len() > 0 {
            assert(s.last() == s[s.len() - 1]);
        }
        assert(trim_end(s) == s.subrange(0, s.len() as int));
    }
}

/// Trimming keeps a contiguous part of the text, drops only whitespace
/// around it, and leaves no whitespace at either end of what it keeps.
pub proof fn law_trim_shape(s: Seq<char>)
    ensures
        exists|i: int, j: int|
            0 <= i <= j <= s.len() && trim(s) == s.subrange(i, j) && (forall|k: int|
                0 <= k < i ==> is_whitespace(#[trigger] s[k])) && (forall|k: int|
                j <= k < s.len() ==> is_whitespace(#[trigger] s[k])),
        trim(s).len() > 0 ==> !is_whitespace(trim(s)[0]) && !is_whitespace(
            trim(s)[trim(s).len() - 1],
        ),
{
    lemma_trim_start_shape(s);
    let i = choose|i: int|
        0 <= i <= s.len() && trim_start(s) == s.subrange(i, s.len() as int) && (forall|k: int|
            0 <= k < i ==> is_whitespace(#[trigger] s[k])) && (i == s.len() || !is_whitespace(
            s[i],
        ));
    let t = trim_start(s);
    lemma_trim_end_shape(t);
    let j = choose|j: int|
        0 <= j <= t.len() && trim_end(t) == t.subrange(0, j) && (forall|k: int|
            j <= k < t.len() ==> is_whitespace(#[trigger] t[k])) && (j == 0 || !is_whitespace(
            t[j - 1],
        ));
    assert(trim(s) =~= s.subrange(i, i + j));
    assert forall|k: int| i + j <= k < s.len() implies is_whitespace(#[trigger] s[k]) by {
        assert(s[k] == t[k - i]);
    }
    if trim(s).len() > 0 {
        assert(trim(s)[0] == s[i]);
        assert(trim(s)[trim(s).len() - 1] == t[j - 1]);
    }
}

/// Splitting at `..` gives a text before the first `..` and a text after it
/// that holds no `..`, which joined by `..` are the whole text; a text with
/// no `..`, or with one after the first, does not split in two.
pub proof fn law_split_range_parts(s: Seq<char>)
    ensures
        match split_range(s) {
            Some((first, last)) => s == first + seq!['.', '.'] + last && !has_dots(last)
                && forall|q: int| 0 <= q < first.len() ==> !dots_at(s, q),
            None => !has_dots(s) || exists|p: int|
                #![trigger dots_at(s, p)]
                first_dots(s, p) && has_dots(s.subrange(p + 2, s.len() as int)),
        },
{
    if exists|p: int| splits_in_two_at(s, p) {
        let p = choose|p: int| splits_in_two_at(s, p);
        assert(s =~= s.subrange(0, p) + seq!['.', '.'] + s.subrange(p + 2, s.len() as int));
    } else if has_dots(s) {
        let p0 = choose|p: int| dots_at(s, p);
        lemma_first_dots_exists(s, p0);
        let p = choose|p: int| #![trigger dots_at(s, p)] first_dots(s, p);
        assert(!splits_in_two_at(s, p));
        assert(dots_at(s, p) && first_dots(s, p) && has_dots(s.subrange(p + 2, s.len() as int)));
    }
}

/// Where `s` holds a `..`, some `..` is its first.
proof fn lemma_first_dots_exists(s: Seq<char>, p0: int)
    requires
        dots_at(s, p0),
    ensures
        exists|p: int| #![trigger dots_at(s, p)] first_dots(s, p),
    decreases p0,
{
    if forall|q: int| 0 <= q < p0 ==> !dots_at(s, q) {
        assert(first_dots(s, p0));
    } else {
        let q = choose|q: int| 0 <= q < p0 && dots_at(s, q);
        lemma_first_dots_exists(s, q);
    }
}

} // verus!
