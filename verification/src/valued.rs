use vstd::prelude::*;

use crate::register::{RegisterError, RegisterResult};

verus! {

/// The first variant, in declaration order, that stands for `x`.
pub open spec fn spec_variant_of(values: Seq<Option<u64>>, x: u64) -> Option<usize>
    decreases values.len(),
{
    if values.len() == 0 {
        None
    } else {
        match spec_variant_of(values.drop_last(), x) {
            Some(i) => Some(i),
            None => if values.last() == Some(x) {
                Some((values.len() - 1) as usize)
            } else {
                None
            },
        }
    }
}

/// The variants that stand for a value, each with its value, in
/// declaration order: the arms of the conversions that the derive writes.
pub open spec fn spec_arms(values: Seq<Option<u64>>) -> Seq<(usize, u64)>
    decreases values.len(),
{
    if values.len() == 0 {
        Seq::empty()
    } else {
        let prev = spec_arms(values.drop_last());
        match values.last() {
            Some(v) => prev.push(((values.len() - 1) as usize, v)),
            None => prev,
        }
    }
}

/// No two variants stand for the same value.
pub open spec fn values_distinct(values: Seq<Option<u64>>) -> bool {
    forall|i: int, j: int|
        0 <= i < values.len() && 0 <= j < values.len() && i != j && (#[trigger] values[i]) is Some
            ==> values[i] != #[trigger] values[j]
}

/// What converting a value to the enum gives: the first variant that stands
/// for it, or `ConversionError`.
pub open spec fn spec_try_from_value(values: Seq<Option<u64>>, x: u64) -> RegisterResult<usize> {
    match spec_variant_of(values, x) {
        Some(i) => Ok(i),
        None => Err(RegisterError::ConversionError),
    }
}

/// What converting a variant to its value gives: its value, or
/// `InvalidConfiguration` for a variant that stands for none.
pub open spec fn spec_try_into_value(values: Seq<Option<u64>>, variant: usize) -> RegisterResult<
    u64,
> {
    match values[variant as int] {
        Some(v) => Ok(v),
        None => Err(RegisterError::InvalidConfiguration),
    }
}

/// What the infallible conversion gives: the first variant that stands for
/// the value, else the default variant; `None` where there is neither, a
/// value that the conversion has no arm for.
pub open spec fn spec_from_value(values: Seq<Option<u64>>, default: Option<usize>, x: u64) -> Option<
    usize,
> {
    match spec_variant_of(values, x) {
        Some(i) => Some(i),
        None => default,
    }
}

/// The first variant that stands for `x`.
pub fn variant_of(values: &Vec<Option<u64>>, x: u64) -> (r: Option<usize>)
    ensures
        r == spec_variant_of(values@, x),
{
    let mut i: usize = 0;
    while i < values.len()
        invariant
            i <= values@.len(),
            spec_variant_of(values@.subrange(0, i as int), x) is None,
        decreases values@.len() - i,
    {
        assert(values@.subrange(0, i + 1).drop_last() =~= values@.subrange(0, i as int));
        if values[i] == Some(x) {
            proof {
                lemma_variant_of_found(values@, x, (i + 1) as nat);
            }
            return Some(i);
        }
        i = i + 1;
    }
    assert(values@.subrange(0, i as int) =~= values@);
    None
}

/// Once a prefix of the variants has a match, the whole list has the same one.
proof fn lemma_variant_of_found(values: Seq<Option<u64>>, x: u64, k: nat)
    requires
        k <= values.len(),
        spec_variant_of(values.subrange(0, k as int), x) is Some,
    ensures
        spec_variant_of(values, x) == spec_variant_of(values.subrange(0, k as int), x),
    decreases values.len() - k,
{
    if k == values.len() {
        assert(values.subrange(0, k as int) =~= values);
    } else {
        assert(values.subrange(0, k + 1 as int).drop_last() =~= values.subrange(0, k as int));
        lemma_variant_of_found(values, x, k + 1);
    }
}

/// The arms of the conversions, in declaration order.
pub fn valued_arms(values: &Vec<Option<u64>>) -> (r: Vec<(usize, u64)>)
    ensures
        r@ == spec_arms(values@),
{
    let mut r: Vec<(usize, u64)> = Vec::new();
    let mut i: usize = 0;
    while i < values.len()
        invariant
            i <= values@.len(),
            r@ == spec_arms(values@.subrange(0, i as int)),
        decreases values@.len() - i,
    {
        assert(values@.subrange(0, i + 1).drop_last() =~= values@.subrange(0, i as int));
        match values[i] {
            Some(v) => {
                r.push((i, v));
            },
            None => {},
        }
        i = i + 1;
    }
    assert(values@.subrange(0, i as int) =~= values@);
    r
}

/// Converts a value to a variant of the enum, as the fallible derive does.
pub fn try_from_value(values: &Vec<Option<u64>>, x: u64) -> (r: RegisterResult<usize>)
    ensures
        r == spec_try_from_value(values@, x),
{
    match variant_of(values, x) {
        Some(i) => Ok(i),
        None => Err(RegisterError::ConversionError),
    }
}

/// Converts a variant of the enum to its value, as the fallible derive does.
pub fn try_into_value(values: &Vec<Option<u64>>, variant: usize) -> (r: RegisterResult<u64>)
    requires
        variant < values@.len(),
    ensures
        r == spec_try_into_value(values@, variant),
{
    match values[variant] {
        Some(v) => Ok(v),
        None => Err(RegisterError::InvalidConfiguration),
    }
}

/// Converts a value to a variant of the enum, as the infallible derive does.
pub fn from_value(values: &Vec<Option<u64>>, default: Option<usize>, x: u64) -> (r: Option<usize>)
    ensures
        r == spec_from_value(values@, default, x),
{
    match variant_of(values, x) {
        Some(i) => Some(i),
        None => default,
    }
}

/// The variant found for a value stands for that value, and no earlier
/// variant does.
pub proof fn law_variant_of_is_first(values: Seq<Option<u64>>, x: u64)
    requires
        values.len() <= usize::MAX,
    ensures
        match spec_variant_of(values, x) {
            Some(i) => i < values.len() && values[i as int] == Some(x) && forall|j: int|
                0 <= j < i ==> values[j] != Some(x),
            None => forall|j: int| 0 <= j < values.len() ==> values[j] != Some(x),
        },
    decreases values.len(),
{
    if values.len() > 0 {
        let prev = values.drop_last();
        law_variant_of_is_first(prev, x);
        match spec_variant_of(prev, x) {
            Some(i) => {
                assert(prev[i as int] == values[i as int]);
                assert forall|j: int| 0 <= j < i implies values[j] != Some(x) by {
                    assert(prev[j] == values[j]);
                }
            },
            None => {
                assert forall|j: int| 0 <= j < values.len() - 1 implies values[j] != Some(x) by {
                    assert(prev[j] == values[j]);
                }
            },
        }
    }
}

/// The arms are exactly the variants that stand for a value, each once with
/// its value, in declaration order.
pub proof fn law_arms_are_valued_variants(values: Seq<Option<u64>>)
    requires
        values.len() <= usize::MAX,
    ensures
        forall|k: int|
            0 <= k < spec_arms(values).len() ==> {
                let (i, v) = #[trigger] spec_arms(values)[k];
                i < values.len() && values[i as int] == Some(v)
            },
        forall|k1: int, k2: int|
            0 <= k1 < k2 < spec_arms(values).len() ==> (#[trigger] spec_arms(values)[k1]).0 < (
            #[trigger] spec_arms(values)[k2]).0,
        forall|i: int|
            0 <= i < values.len() && (#[trigger] values[i]) is Some ==> spec_arms(values).contains(
                (i as usize, values[i]->Some_0),
            ),
    decreases values.len(),
{
    if values.len() > 0 {
        let prev = values.drop_last();
        law_arms_are_valued_variants(prev);
        let ps = spec_arms(prev);
        let n = values.len() - 1;
        assert forall|i: int| 0 <= i < n implies values[i] == prev[i] by {}
        assert(values.last() == values[n]);
        match values.last() {
            Some(v) => {
                let qs = ps.push((n as usize, v));
                assert forall|i: int| 0 <= i < values.len() && (#[trigger] values[i]) is Some
                    implies qs.contains((i as usize, values[i]->Some_0)) by {
                    if i < n {
                        assert(prev[i] == values[i]);
                        let k = choose|k: int|
                            0 <= k < ps.len() && ps[k] == (i as usize, prev[i]->Some_0);
                        assert(qs[k] == ps[k]);
                    } else {
                        assert(qs[ps.len() as int] == (i as usize, v));
                    }
                }
            },
            None => {
                assert forall|i: int| 0 <= i < values.len() && (#[trigger] values[i]) is Some
                    implies ps.contains((i as usize, values[i]->Some_0)) by {
                    assert(prev[i] == values[i]);
                }
            },
        }
    }
}

/// Converting a value to a variant and back gives the value again.
pub proof fn law_value_round_trip(values: Seq<Option<u64>>, x: u64)
    requires
        values.len() <= usize::MAX,
        spec_try_from_value(values, x) is Ok,
    ensures
        spec_try_from_value(values, x)->Ok_0 < values.len(),
        spec_try_into_value(values, spec_try_from_value(values, x)->Ok_0) == Ok::<
            u64,
            RegisterError,
        >(x),
{
    law_variant_of_is_first(values, x);
}

/// Where no two variants share a value, converting a variant to its value
/// and back gives the variant again.
pub proof fn law_variant_round_trip(values: Seq<Option<u64>>, variant: usize)
    requires
        values.len() <= usize::MAX,
        values_distinct(values),
        variant < values.len(),
        spec_try_into_value(values, variant) is Ok,
    ensures
        spec_try_from_value(values, spec_try_into_value(values, variant)->Ok_0) == Ok::<
            usize,
            RegisterError,
        >(variant),
{
    let x = spec_try_into_value(values, variant)->Ok_0;
    law_variant_of_is_first(values, x);
    match spec_variant_of(values, x) {
        Some(i) => {
            if i != variant {
                assert(values[variant as int] is Some);
                assert(values[variant as int] != values[i as int]);
            }
        },
        None => {
            assert(values[variant as int] == Some(x));
        },
    }
}

/// Variant `i` is the first, in declaration order, that stands for `x`.
pub open spec fn first_standing_for(values: Seq<Option<u64>>, x: u64, i: int) -> bool {
    &&& 0 <= i < values.len()
    &&& values[i] == Some(x)
    &&& forall|j: int| 0 <= j < i ==> values[j] != Some(x)
}

/// The infallible conversion gives the first variant that stands for the
/// value; only a value that no variant stands for gives the default.
pub proof fn law_from_value_first_variant(values: Seq<Option<u64>>, default: Option<usize>, x: u64)
    requires
        values.len() <= usize::MAX,
    ensures
        forall|i: int|
            first_standing_for(values, x, i) ==> #[trigger] spec_from_value(values, default, x)
                == Some(i as usize),
        (forall|j: int| 0 <= j < values.len() ==> values[j] != Some(x)) ==> spec_from_value(
            values,
            default,
            x,
        ) == default,
{
    law_variant_of_is_first(values, x);
    assert forall|i: int| first_standing_for(values, x, i) implies #[trigger] spec_from_value(
        values,
        default,
        x,
    ) == Some(i as usize) by {
        match spec_variant_of(values, x) {
            Some(k) => {
                if (k as int) < i {
                } else if i < (k as int) {
                }
            },
            None => {},
        }
    }
}

/// The fallible conversion from a value succeeds exactly when some variant
/// stands for the value, and gives the first such variant; otherwise it
/// fails with `ConversionError`.
pub proof fn law_try_from_value_first_variant(values: Seq<Option<u64>>, x: u64)
    requires
        values.len() <= usize::MAX,
    ensures
        forall|i: int|
            first_standing_for(values, x, i) ==> #[trigger] spec_try_from_value(values, x)
                == Ok::<usize, RegisterError>(i as usize),
        (forall|j: int| 0 <= j < values.len() ==> values[j] != Some(x)) ==> spec_try_from_value(
            values,
            x,
        ) == Err::<usize, RegisterError>(RegisterError::ConversionError),
{
    law_variant_of_is_first(values, x);
    assert forall|i: int| first_standing_for(values, x, i) implies #[trigger] spec_try_from_value(
        values,
        x,
    ) == Ok::<usize, RegisterError>(i as usize) by {
        match spec_variant_of(values, x) {
            Some(k) => {
                if (k as int) < i {
                } else if i < (k as int) {
                }
            },
            None => {},
        }
    }
}

/// The fallible conversion to a value gives the variant's value, and fails
/// with `InvalidConfiguration` exactly for a variant that stands for none.
pub proof fn law_try_into_value_of_variant(values: Seq<Option<u64>>, variant: usize)
    requires
        variant < values.len(),
    ensures
        forall|v: u64|
            values[variant as int] == Some(v) ==> #[trigger] spec_try_into_value(values, variant)
                == Ok::<u64, RegisterError>(v),
        values[variant as int] is None ==> spec_try_into_value(values, variant) == Err::<
            u64,
            RegisterError,
        >(RegisterError::InvalidConfiguration),
{
}

} // verus!
