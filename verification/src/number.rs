use vstd::prelude::*;
use rand::rngs::StdRng;
use rand::Rng;
use rand::SeedableRng;
use std::hash::{Hash, Hasher};
use vstd::std_specs::convert::IntoSpec;

verus! {

/// How many random evaluation points a value number carries.
pub const GVN_EVAL_NUMBER: usize = 16;

#[verifier::external_type_specification]
#[verifier::external_body]
pub struct ExStdRng(StdRng);

/// Draws a random `u32` from `rng` (rand's `Rng::gen::<u32>`); nothing is
/// promised of the value.
#[verifier::external_body]
fn gen_u32(rng: &mut StdRng) -> u32 {
    rng.gen::<u32>()
}

/// Feeds `input` to `hasher` (std's `Hash::hash` for `str`); nothing is
/// promised of what it writes.
#[verifier::external_body]
fn hash_str_into(input: &str, hasher: &mut std::collections::hash_map::DefaultHasher) {
    input.hash(hasher)
}

/// rand's `StdRng::seed_from_u64`: the generator seeded by `seed`; nothing
/// is promised of its state.
#[verifier::external_body]
fn seeded_rng(seed: u64) -> StdRng {
    StdRng::seed_from_u64(seed)
}

/// The value number of a global variable: evaluations drawn from a
/// generator seeded by the hash of its name.
pub fn str2num(input: &str) -> (r: Number)
    ensures
        r.value@.len() == GVN_EVAL_NUMBER,
{
    let mut hasher = std::collections::hash_map::DefaultHasher::new();
    hash_str_into(input, &mut hasher);
    let seed = hasher.finish();
    let mut rng = seeded_rng(seed);
    Number::new(&mut rng)
}

/// The evaluations of a constant.
pub open spec fn constant_number(x: u32) -> Seq<u32> {
    Seq::new(GVN_EVAL_NUMBER as nat, |i: int| x)
}

/// The common value of a sequence of evaluations that all agree.
pub open spec fn same_value_of(s: Seq<u32>) -> Option<u32> {
    if s.len() > 0 && (forall|i: int| 0 <= i < s.len() ==> #[trigger] s[i] == s[0]) {
        Some(s[0])
    } else {
        None
    }
}

/// A value number: the results of evaluating a value at `GVN_EVAL_NUMBER`
/// random points.
#[derive(PartialEq, Eq, Debug, Hash, Clone)]
pub struct Number {
    pub value: Vec<u32>,
}

impl Number {
    /// A fresh value number of random evaluations.
    pub fn new(rng: &mut StdRng) -> (r: Number)
        ensures
            r.value@.len() == GVN_EVAL_NUMBER,
    {
        let mut value: Vec<u32> = Vec::new();
        let mut i: usize = 0;
        while i < GVN_EVAL_NUMBER
            invariant
                i <= GVN_EVAL_NUMBER,
                value@.len() == i,
            decreases GVN_EVAL_NUMBER - i,
        {
            value.push(gen_u32(rng));
            i = i + 1;
        }
        Number { value }
    }

    /// The value number of a constant: the same evaluation everywhere.
    pub fn from<T: Into<u32>>(value: T) -> (r: Number)
        ensures
            T::obeys_into_spec() ==> r.value@ == constant_number(value.into_spec()),
            r.value@.len() == GVN_EVAL_NUMBER,
            forall|i: int| 0 <= i < r.value@.len() ==> #[trigger] r.value@[i] == r.value@[0],
    {
        let x: u32 = value.into();
        Number::constant(x)
    }

    /// The value number of the constant `x`.
    pub(crate) fn constant(x: u32) -> (r: Number)
        ensures
            r.value@ == constant_number(x),
    {
        let mut v: Vec<u32> = Vec::new();
        let mut i: usize = 0;
        while i < GVN_EVAL_NUMBER
            invariant
                i <= GVN_EVAL_NUMBER,
                v@.len() == i,
                forall|j: int| 0 <= j < i ==> v@[j] == x,
            decreases GVN_EVAL_NUMBER - i,
        {
            v.push(x);
            i = i + 1;
        }
        proof {
            assert(v@ =~= constant_number(x));
        }
        Number { value: v }
    }

    /// The common evaluation, where all evaluations agree.
    pub fn same_value(&self) -> (r: Option<u32>)
        ensures
            r == same_value_of(self.value@),
    {
        if self.value.len() == 0 {
            return None;
        }
        let first = self.value[0];
        let mut i: usize = 1;
        while i < self.value.len()
            invariant
                1 <= i <= self.value.len(),
                first == self.value@[0],
                forall|j: int| 0 <= j < i ==> #[trigger] self.value@[j] == first,
            decreases self.value.len() - i,
        {
            if self.value[i] != first {
                return None;
            }
            i = i + 1;
        }
        Some(first)
    }
}

} // verus!
