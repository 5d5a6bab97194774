use vstd::prelude::*;

verus! {

/// Which constructor the derive writes: `new` takes the public fields,
/// `new_expanded` takes every field.
#[derive(Clone, Copy, Debug, PartialEq, Eq, Structural)]
pub enum ConstructorName {
    New,
    NewExpanded,
}

/// The shape of a generated constructor: its name, the fields it takes as
/// parameters (by position, in declaration order), and whether the fields it
/// does not take are filled from `Default`.
#[derive(Debug)]
pub struct ConstructorPlan {
    pub name: ConstructorName,
    pub params: Vec<usize>,
    pub fill_default: bool,
}

/// A field becomes a parameter when it is public, or when private fields are
/// taken too.
pub open spec fn takes_field(public: bool, expand_private: bool) -> bool {
    public || expand_private
}

/// The positions of the fields that become parameters, in order.
pub open spec fn spec_params(public: Seq<bool>, expand_private: bool) -> Seq<usize>
    decreases public.len(),
{
    if public.len() == 0 {
        Seq::empty()
    } else {
        let prev = spec_params(public.drop_last(), expand_private);
        if takes_field(public.last(), expand_private) {
            prev.push((public.len() - 1) as usize)
        } else {
            prev
        }
    }
}

/// Some field is left out of the parameters.
pub open spec fn leaves_out_field(public: Seq<bool>, expand_private: bool) -> bool {
    exists|i: int| 0 <= i < public.len() && !takes_field(#[trigger] public[i], expand_private)
}

/// Plans the constructor for a struct whose fields are public or not as
/// `public` says.
pub fn constructor_plan(public: &Vec<bool>, expand_private: bool) -> (r: ConstructorPlan)
    ensures
        r.name == (if expand_private {
            ConstructorName::NewExpanded
        } else {
            ConstructorName::New
        }),
        r.params@ == spec_params(public@, expand_private),
        r.fill_default == leaves_out_field(public@, expand_private),
{
    let mut params: Vec<usize> = Vec::new();
    let mut has_no_private = true;
    let mut i: usize = 0;
    while i < public.len()
        invariant
            i <= public@.len(),
            params@ == spec_params(public@.subrange(0, i as int), expand_private),
            has_no_private == !leaves_out_field(public@.subrange(0, i as int), expand_private),
        decreases public@.len() - i,
    {
        let ghost before = public@.subrange(0, i as int);
        let ghost after = public@.subrange(0, i + 1);
        assert(after.drop_last() =~= before);
        if public[i] || expand_private {
            params.push(i);
        } else {
            has_no_private = false;
            assert(!takes_field(after[i as int], expand_private));
        }
        proof {
            if has_no_private {
                assert forall|k: int| 0 <= k < after.len() implies takes_field(
                    #[trigger] after[k],
                    expand_private,
                ) by {
                    if k < i {
                        assert(after[k] == before[k]);
                    }
                }
            } else if takes_field(public@[i as int], expand_private) {
                let k = choose|k: int|
                    0 <= k < before.len() && !takes_field(#[trigger] before[k], expand_private);
                assert(after[k] == before[k]);
            }
        }
        i = i + 1;
    }
    assert(public@.subrange(0, i as int) =~= public@);
    let name = if expand_private {
        ConstructorName::NewExpanded
    } else {
        ConstructorName::New
    };
    ConstructorPlan { name, params, fill_default: !has_no_private }
}

/// The parameters are exactly the fields taken, each once, in declaration
/// order, and defaults fill the rest exactly when some field is left out.
pub proof fn law_constructor_params(public: Seq<bool>, expand_private: bool)
    requires
        public.len() <= usize::MAX,
    ensures
        forall|k: int|
            0 <= k < spec_params(public, expand_private).len() ==> {
                let i = #[trigger] spec_params(public, expand_private)[k];
                i < public.len() && takes_field(public[i as int], expand_private)
            },
        forall|k1: int, k2: int|
            0 <= k1 < k2 < spec_params(public, expand_private).len() ==> #[trigger] spec_params(
                public,
                expand_private,
            )[k1] < #[trigger] spec_params(public, expand_private)[k2],
        forall|i: int|
            0 <= i < public.len() && takes_field(#[trigger] public[i], expand_private)
                ==> spec_params(public, expand_private).contains(i as usize),
        leaves_out_field(public, expand_private) <==> spec_params(public, expand_private).len()
            < public.len(),
    decreases public.len(),
{
    if public.len() > 0 {
        let prev = public.drop_last();
        law_constructor_params(prev, expand_private);
        let ps = spec_params(prev, expand_private);
        let n = public.len() - 1;
        assert forall|i: int| 0 <= i < n implies public[i] == prev[i] by {}
        assert(public.last() == public[n]);
        if takes_field(public.last(), expand_private) {
            let qs = ps.push(n as usize);
            assert forall|i: int|
                0 <= i < public.len() && takes_field(#[trigger] public[i], expand_private)
                implies qs.contains(i as usize) by {
                if i < n {
                    assert(prev[i] == public[i]);
                    assert(ps.contains(i as usize));
                    let k = choose|k: int| 0 <= k < ps.len() && ps[k] == i as usize;
                    assert(qs[k] == i as usize);
                } else {
                    assert(qs[ps.len() as int] == i as usize);
                }
            }
            if leaves_out_field(public, expand_private) {
                let i = choose|i: int|
                    0 <= i < public.len() && !takes_field(#[trigger] public[i], expand_private);
                assert(prev[i] == public[i]);
            }
            if leaves_out_field(prev, expand_private) {
                let i = choose|i: int|
                    0 <= i < prev.len() && !takes_field(#[trigger] prev[i], expand_private);
                assert(prev[i] == public[i]);
            }
        } else {
            assert forall|i: int|
                0 <= i < public.len() && takes_field(#[trigger] public[i], expand_private)
                implies ps.contains(i as usize) by {
                assert(prev[i] == public[i]);
            }
            assert(leaves_out_field(public, expand_private));
            assert(ps.len() <= prev.len()) by {
                lemma_params_len(prev, expand_private);
            }
        }
    }
}

/// There are never more parameters than fields.
proof fn lemma_params_len(public: Seq<bool>, expand_private: bool)
    ensures
        spec_params(public, expand_private).len() <= public.len(),
    decreases public.len(),
{
    if public.len() > 0 {
        lemma_params_len(public.drop_last(), expand_private);
    }
}

} // verus!
