//! A memoising evaluator.
//!
//! `cached_fn` wraps a function so that it is evaluated once for each input:
//! the first call with an input evaluates the function and remembers the
//! result, and later calls with that input answer from memory. An input is
//! remembered as it is given; for a function of an ordered pair, `(a, b)` and
//! `(b, a)` are two inputs.

use std::collections::HashMap;
use std::hash::Hash;
use vstd::prelude::*;
use vstd::std_specs::hash::obeys_key_model;

verus! {

/// A function together with the results it has given so far.
///
/// Its view is the memory: the map from each input seen to its result.
pub struct CachedFn<Input, Output, F> {
    f: F,
    cache: HashMap<Input, Output>,
    evaluations: Ghost<nat>,
}

impl<Input, Output, F> View for CachedFn<Input, Output, F> {
    type V = Map<Input, Output>;

    closed spec fn view(&self) -> Map<Input, Output> {
        self.cache@
    }
}

/// The memory after a call with `input` that answered `output`: a new input
/// is remembered with its result, a known one changes nothing.
pub open spec fn remembered<Input, Output>(
    memory: Map<Input, Output>,
    input: Input,
    output: Output,
) -> Map<Input, Output> {
    if memory.contains_key(input) {
        memory
    } else {
        memory.insert(input, output)
    }
}

/// `output` is an answer that a call with `input` may give on `memory`: for a
/// known input, it is the result remembered.
pub open spec fn answers<Input, Output>(
    memory: Map<Input, Output>,
    input: Input,
    output: Output,
) -> bool {
    memory.contains_key(input) ==> output == memory[input]
}

/// How often a call with `input` evaluates the function on `memory`: once
/// for a new input, never for a known one.
pub open spec fn evaluations_needed<Input, Output>(
    memory: Map<Input, Output>,
    input: Input,
) -> nat {
    if memory.contains_key(input) {
        0
    } else {
        1
    }
}

impl<Input, Output, F> CachedFn<Input, Output, F> where
    Input: Hash + Eq + Copy,
    Output: Copy,
    F: Fn(Input) -> Output,
 {
    /// The function that is evaluated for a new input.
    pub closed spec fn function(&self) -> F {
        self.f
    }

    /// How often the function has been evaluated.
    pub closed spec fn evaluations(&self) -> nat {
        self.evaluations@
    }

    /// The memory is finite and holds results of the function only, and the
    /// function has been evaluated once for each input in it.
    pub open spec fn wf(&self) -> bool {
        &&& obeys_key_model::<Input>()
        &&& self@.dom().finite()
        &&& self.evaluations() == self@.dom().len()
        &&& forall|input: Input| #[trigger]
            self@.contains_key(input) ==> self.function().ensures((input,), self@[input])
    }

    /// Answers for `input`: from memory where the input has been seen, else
    /// by evaluating the function, whose result is remembered.
    pub fn call(&mut self, input: Input) -> (output: Output)
        requires
            old(self).wf(),
            old(self).function().requires((input,)),
        ensures
            final(self).wf(),
            final(self).function() == old(self).function(),
            answers(old(self)@, input, output),
            old(self).function().ensures((input,), output),
            final(self)@ == remembered(old(self)@, input, output),
            final(self).evaluations() == old(self).evaluations() + evaluations_needed(
                old(self)@,
                input,
            ),
    {
        broadcast use vstd::std_specs::hash::group_hash_axioms;

        let found = match self.cache.get(&input) {
            Some(result) => Some(*result),
            None => None,
        };
        match found {
            Some(result) => result,
            None => {
                let result = (self.f)(input);
                self.cache.insert(input, result);
                proof {
                    self.evaluations@ = self.evaluations@ + 1;
                }
                result
            },
        }
    }

    /// Returns how many inputs are remembered.
    pub fn len(&self) -> (count: usize)
        requires
            self.wf(),
        ensures
            count == self@.dom().len(),
            count == self.evaluations(),
    {
        broadcast use vstd::std_specs::hash::group_hash_axioms;

        self.cache.len()
    }

    /// Tells whether `input` is remembered.
    pub fn is_cached(&self, input: &Input) -> (known: bool)
        requires
            self.wf(),
        ensures
            known == self@.contains_key(*input),
    {
        broadcast use vstd::std_specs::hash::group_hash_axioms;

        self.cache.contains_key(input)
    }
}

/// Caches the results of `f`: returns an evaluator that remembers nothing yet
/// and evaluates `f` once for each input it is called with.
pub fn cached_fn<Input, Output, F>(f: F) -> (cached: CachedFn<Input, Output, F>) where
    Input: Hash + Eq + Copy,
    Output: Copy,
    F: Fn(Input) -> Output,

    requires
        obeys_key_model::<Input>(),
    ensures
        cached.wf(),
        cached.function() == f,
        cached@ == Map::<Input, Output>::empty(),
        cached.evaluations() == 0,
{
    CachedFn { f, cache: HashMap::new(), evaluations: Ghost(0) }
}

/// Asking twice gives the same answer, and the function is evaluated once at
/// most: whatever the memory, a second call with an input answers what the
/// first call answered, evaluates nothing and leaves the memory as the first
/// call left it.
pub proof fn lemma_second_call_repeats<Input, Output>(
    memory: Map<Input, Output>,
    input: Input,
    first: Output,
    second: Output,
)
    requires
        answers(memory, input, first),
        answers(remembered(memory, input, first), input, second),
    ensures
        second == first,
        evaluations_needed(remembered(memory, input, first), input) == 0,
        evaluations_needed(memory, input) + evaluations_needed(
            remembered(memory, input, first),
            input,
        ) <= 1,
        remembered(remembered(memory, input, first), input, second) == remembered(
            memory,
            input,
            first,
        ),
{
}

/// The two directions of a pair are remembered apart: a call with `(a, b)`
/// does not make `(b, a)` known, and after a call with each both are held,
/// each with its own result.
pub proof fn lemma_directions_kept_apart<Stop, Output>(
    memory: Map<(Stop, Stop), Output>,
    a: Stop,
    b: Stop,
    there: Output,
    back: Output,
)
    requires
        a != b,
    ensures
        evaluations_needed(remembered(memory, (a, b), there), (b, a)) == evaluations_needed(
            memory,
            (b, a),
        ),
        remembered(remembered(memory, (a, b), there), (b, a), back).contains_key((a, b)),
        remembered(remembered(memory, (a, b), there), (b, a), back).contains_key((b, a)),
        !memory.contains_key((a, b)) && !memory.contains_key((b, a)) ==> {
            let after = remembered(remembered(memory, (a, b), there), (b, a), back);
            &&& after[(a, b)] == there
            &&& after[(b, a)] == back
            &&& memory.dom().finite() ==> after.dom().len() == memory.dom().len() + 2
        },
{
    assert((a, b) != (b, a));
}

} // verus!
