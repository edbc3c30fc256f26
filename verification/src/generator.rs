//! Resumable number generators: Fibonacci numbers in `u128` until the next
//! one would overflow, and successive powers of two.

use vstd::prelude::*;
use vstd::arithmetic::power2::{lemma2_to64, lemma_pow2_unfold, pow2};

verus! {

/// What one resumption of a generator produced.
#[derive(Debug, PartialEq, Eq)]
pub enum GeneratorState<Y, R> {
    /// A value was produced and the generator can go on.
    Yielded(Y),
    /// The generator has finished with this value.
    Complete(R),
}

/// The Fibonacci numbers: 0, 1, 1, 2, 3, 5, ...
pub open spec fn fib(n: nat) -> nat
    decreases n,
{
    if n == 0 {
        0
    } else if n == 1 {
        1
    } else {
        fib((n - 2) as nat) + fib((n - 1) as nat)
    }
}

/// The Fibonacci numbers never decrease.
pub proof fn lemma_fib_monotonic(i: nat, j: nat)
    requires
        i <= j,
    ensures
        fib(i) <= fib(j),
    decreases j - i,
{
    if i < j {
        lemma_fib_monotonic(i, (j - 1) as nat);
        if j >= 2 {
            assert(fib(j) == fib((j - 2) as nat) + fib((j - 1) as nat));
        }
    }
}

/// Abstract state of a `Fib`: it holds `fib(index)` and `fib(index + 1)`.
pub struct FibState {
    pub index: nat,
    pub done: bool,
}

/// The next abstract state of a `Fib`, and what the resumption produces.
pub open spec fn fib_step(st: FibState) -> (FibState, GeneratorState<nat, nat>) {
    if fib(st.index + 2) > u128::MAX {
        (FibState { index: st.index, done: true }, GeneratorState::Complete(fib(st.index + 1)))
    } else {
        (FibState { index: st.index + 1, done: false }, GeneratorState::Yielded(fib(st.index + 2)))
    }
}

/// A generator result with its numbers taken as mathematical integers.
pub open spec fn generated_view(g: GeneratorState<u128, u128>) -> GeneratorState<nat, nat> {
    match g {
        GeneratorState::Yielded(y) => GeneratorState::Yielded(y as nat),
        GeneratorState::Complete(r) => GeneratorState::Complete(r as nat),
    }
}

/// `k` resumptions of a `Fib`, from state `st`.
pub open spec fn fib_steps(st: FibState, k: nat) -> FibState
    decreases k,
{
    if k == 0 {
        st
    } else {
        fib_steps(fib_step(st).0, (k - 1) as nat)
    }
}

/// A Fibonacci generator over `u128`; it completes, with the last number it
/// holds, once the next one would not fit.
pub struct Fib {
    f: u128,
    s: u128,
    done: bool,
    index: Ghost<nat>,
}

impl View for Fib {
    type V = FibState;

    closed spec fn view(&self) -> FibState {
        FibState { index: self.index@, done: self.done }
    }
}

impl Fib {
    #[verifier::type_invariant]
    closed spec fn holds_consecutive(self) -> bool {
        &&& self.f == fib(self.index@)
        &&& self.s == fib(self.index@ + 1)
    }

    /// A generator holding 0 and 1.
    pub fn new() -> (g: Self)
        ensures
            g@ == (FibState { index: 0, done: false }),
    {
        Fib { f: 0, s: 1, done: false, index: Ghost(0) }
    }

    /// Produces the sum of the two numbers held and moves on by one, or,
    /// when the sum overflows `u128`, completes with the larger number held.
    pub fn resume(&mut self) -> (res: GeneratorState<u128, u128>)
        ensures
            final(self)@ == fib_step(old(self)@).0,
            generated_view(res) == fib_step(old(self)@).1,
    {
        proof {
            use_type_invariant(&*self);
        }
        let a = self.f;
        let b = self.s;
        let n: Ghost<nat> = Ghost(self.index@);
        match a.checked_add(b) {
            None => {
                self.done = true;
                GeneratorState::Complete(b)
            },
            Some(res) => {
                assert(fib(n@ + 2) == fib(n@) + fib(n@ + 1));
                *self = Fib { f: b, s: res, done: false, index: Ghost(n@ + 1) };
                GeneratorState::Yielded(res)
            },
        }
    }
}

/// Law: once a `Fib` completes, every further resumption completes with the
/// same number and leaves it as it is.
pub proof fn lemma_fib_complete_is_final(st: FibState)
    requires
        fib_step(st).1 is Complete,
    ensures
        fib_step(fib_step(st).0).1 == fib_step(st).1,
        fib_step(fib_step(st).0).0 == fib_step(st).0,
{
}

/// Law: from a new `Fib`, the `k`-th resumption (counting from 0) yields the
/// Fibonacci number `fib(k + 2)`, as long as that number fits in a `u128`.
pub proof fn lemma_fib_yields_fibonacci(k: nat)
    requires
        fib(k + 2) <= u128::MAX,
    ensures
        fib_steps(FibState { index: 0, done: false }, k) == (FibState { index: k, done: false }),
        fib_step(fib_steps(FibState { index: 0, done: false }, k)).1 == GeneratorState::<
            nat,
            nat,
        >::Yielded(fib(k + 2)),
    decreases k,
{
    if k > 0 {
        let j = (k - 1) as nat;
        lemma_fib_monotonic(j + 2, k + 2);
        lemma_fib_yields_fibonacci(j);
        lemma_fib_steps_last(FibState { index: 0, done: false }, j);
    }
}

/// `k + 1` resumptions are `k` resumptions and one more.
pub proof fn lemma_fib_steps_last(st: FibState, k: nat)
    ensures
        fib_steps(st, k + 1) == fib_step(fib_steps(st, k)).0,
    decreases k,
{
    assert(fib_steps(st, k + 1) == fib_steps(fib_step(st).0, k));
    if k > 0 {
        lemma_fib_steps_last(fib_step(st).0, (k - 1) as nat);
        assert(fib_steps(st, k) == fib_steps(fib_step(st).0, (k - 1) as nat));
    }
}

/// Abstract state of a `Fibbers` generator: the two numbers it holds.
pub struct FibbersState {
    pub first: int,
    pub second: int,
}

/// A generator of the powers of two as `i32`: each resumption moves the
/// second number held into the first, doubles the second, and yields the
/// first.
pub struct Fibbers {
    fn1: i32,
    fn2: i32,
}

impl View for Fibbers {
    type V = FibbersState;

    closed spec fn view(&self) -> FibbersState {
        FibbersState { first: self.fn1 as int, second: self.fn2 as int }
    }
}

/// A `Fibbers` generator holding 0 and 1.
pub fn fibbers() -> (g: Fibbers)
    ensures
        g@ == (FibbersState { first: 0, second: 1 }),
{
    Fibbers { fn1: 0, fn2: 1 }
}

impl Fibbers {
    #[verifier::type_invariant]
    closed spec fn counts_up(self) -> bool {
        self.fn1 >= 0 && self.fn2 >= 1
    }

    /// True when one more resumption stays within `i32`.
    pub open spec fn can_resume(&self) -> bool {
        2 * self@.second <= i32::MAX
    }

    /// Whether the next resumption stays within `i32`; past that point the
    /// doubling would overflow.
    pub fn resumable(&self) -> (ok: bool)
        ensures
            ok == self.can_resume(),
    {
        self.fn2 <= i32::MAX / 2
    }

    /// Moves the second number into the first, doubles the second, and
    /// yields the new first number.
    pub fn resume(&mut self) -> (y: i32)
        requires
            old(self).can_resume(),
        ensures
            y == old(self)@.second,
            final(self)@ == (FibbersState { first: old(self)@.second, second: 2 * old(self)@.second }),
    {
        proof {
            use_type_invariant(&*self);
        }
        let fn2 = self.fn2;
        *self = Fibbers { fn1: fn2, fn2: fn2 + fn2 };
        self.fn1
    }
}

/// `k` resumptions of a `Fibbers` generator from state `st`.
pub open spec fn fibbers_steps(st: FibbersState, k: nat) -> FibbersState
    decreases k,
{
    if k == 0 {
        st
    } else {
        let next = FibbersState { first: st.second, second: 2 * st.second };
        fibbers_steps(next, (k - 1) as nat)
    }
}

/// Law: from a new `Fibbers`, after `k` resumptions the generator holds
/// `2^k` as its second number, so the `k`-th resumption (counting from 0)
/// yields `2^k`.
pub proof fn lemma_fibbers_powers_of_two(k: nat)
    ensures
        fibbers_steps(FibbersState { first: 0, second: 1 }, k).second == pow2(k),
    decreases k,
{
    lemma_fibbers_steps_from(FibbersState { first: 0, second: 1 }, k);
}

proof fn lemma_fibbers_steps_from(st: FibbersState, k: nat)
    ensures
        fibbers_steps(st, k).second == st.second * pow2(k),
    decreases k,
{
    if k == 0 {
        lemma2_to64();
        assert(fibbers_steps(st, 0) == st);
    } else {
        let next = FibbersState { first: st.second, second: 2 * st.second };
        assert(fibbers_steps(st, k) == fibbers_steps(next, (k - 1) as nat));
        lemma_fibbers_steps_from(next, (k - 1) as nat);
        lemma_pow2_unfold(k);
        let p = pow2((k - 1) as nat);
        assert((2 * st.second) * p == st.second * (2 * p)) by (nonlinear_arith);
    }
}

} // verus!
