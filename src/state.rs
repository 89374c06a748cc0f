use vstd::prelude::*;
use vstd::arithmetic::div_mod::{lemma_mod_self_0, lemma_small_mod};
use vstd::std_specs::convert::{FromSpec, TryFromSpec};
use crate::laws::lemma_succ_n_index;

verus! {

/// A closed, ordered, finite set of states, numbered `0 .. MAX`: `u8::from`
/// gives the index of a state and `try_from` the state at an index, failing
/// on an index out of range.
pub trait StateDescriptor: Sized + Copy + PartialEq + PartialOrd + TryFrom<u8> where
    u8: From<Self>,
 {
    /// The number of states.
    const MAX: u8;
}

/// The number of states of `T`.
pub open spec fn count<T: StateDescriptor>() -> nat where u8: From<T> {
    T::MAX as nat
}

/// Position of a state in the fixed order.
pub open spec fn index_of<T: StateDescriptor>(s: T) -> nat where u8: From<T> {
    <u8 as FromSpec<T>>::from_spec(s) as nat
}

/// The state at position `i`, for `i < count::<T>()`.
pub open spec fn state_at<T: StateDescriptor>(i: nat) -> T where u8: From<T> {
    match <T as TryFromSpec<u8>>::try_from_spec(i as u8) {
        Ok(t) => t,
        Err(_) => arbitrary(),
    }
}

/// What a descriptor must satisfy: at least one state, the conversions
/// behave as specified, and the index mapping is a bijection between the
/// states and `0 .. MAX`; `try_from` fails exactly outside that range.
pub open spec fn valid<T: StateDescriptor>() -> bool where u8: From<T> {
    &&& <u8 as FromSpec<T>>::obeys_from_spec()
    &&& <T as TryFromSpec<u8>>::obeys_try_from_spec()
    &&& 1 <= T::MAX
    &&& forall|s: T| #[trigger] index_of(s) < count::<T>() && state_at::<T>(index_of(s)) == s
    &&& forall|i: nat| i < count::<T>() ==> index_of(#[trigger] state_at::<T>(i)) == i
    &&& forall|i: u8| i < T::MAX <==> (#[trigger] <T as TryFromSpec<u8>>::try_from_spec(i)).is_ok()
}

/// The state after `s`, wrapping from the last state to the first.
pub open spec fn succ<T: StateDescriptor>(s: T) -> T where u8: From<T> {
    state_at::<T>(((index_of(s) + 1) as int % (count::<T>() as int)) as nat)
}

/// The state before `s`, wrapping from the first state to the last.
pub open spec fn pred<T: StateDescriptor>(s: T) -> T where u8: From<T> {
    if index_of(s) == 0 {
        state_at::<T>((count::<T>() - 1) as nat)
    } else {
        state_at::<T>((index_of(s) - 1) as nat)
    }
}

/// `s` advanced `k` times.
pub open spec fn succ_n<T: StateDescriptor>(s: T, k: nat) -> T where u8: From<T>
    decreases k,
{
    if k == 0 {
        s
    } else {
        succ(succ_n(s, (k - 1) as nat))
    }
}

/// `s` moved back `k` times.
pub open spec fn pred_n<T: StateDescriptor>(s: T, k: nat) -> T where u8: From<T>
    decreases k,
{
    if k == 0 {
        s
    } else {
        pred(pred_n(s, (k - 1) as nat))
    }
}

/// Every state, in order.
pub open spec fn all_states<T: StateDescriptor>() -> Seq<T> where u8: From<T> {
    Seq::new(count::<T>(), |j: int| state_at::<T>(j as nat))
}

/// The states from `s` up to the last one, inclusive.
pub open spec fn forward_run<T: StateDescriptor>(s: T) -> Seq<T> where u8: From<T> {
    Seq::new((count::<T>() - index_of(s)) as nat, |j: int| state_at::<T>((index_of(s) + j) as nat))
}

/// The states from `s` down to the first one, inclusive.
pub open spec fn backward_run<T: StateDescriptor>(s: T) -> Seq<T> where u8: From<T> {
    Seq::new(index_of(s) + 1, |j: int| state_at::<T>((index_of(s) - j) as nat))
}

/// The first `m` states of the endless cycle that starts at `s`.
pub open spec fn cycle_from<T: StateDescriptor>(s: T, m: nat) -> Seq<T> where u8: From<T> {
    Seq::new(m, |j: int| state_at::<T>(((index_of(s) + j) % (count::<T>() as int)) as nat))
}

/// `x` repeated `k` times.
pub open spec fn repeat<A>(x: Seq<A>, k: nat) -> Seq<A>
    decreases k,
{
    if k == 0 {
        Seq::empty()
    } else {
        repeat(x, (k - 1) as nat) + x
    }
}

/// Stepping forwards adds one to the index, modulo the count.
pub proof fn lemma_succ_index<T: StateDescriptor>(s: T) where u8: From<T>
    requires
        valid::<T>(),
    ensures
        index_of(succ(s)) == (index_of(s) + 1) as int % (count::<T>() as int),
        index_of(s) + 1 < count::<T>() ==> index_of(succ(s)) == index_of(s) + 1,
        index_of(s) + 1 == count::<T>() ==> index_of(succ(s)) == 0,
{
    assert(index_of(s) < count::<T>());
    if index_of(s) + 1 < count::<T>() {
        lemma_small_mod((index_of(s) + 1) as nat, count::<T>());
    } else {
        lemma_mod_self_0(count::<T>() as int);
    }
    let i = ((index_of(s) + 1) as int % (count::<T>() as int)) as nat;
    assert(i < count::<T>());
    assert(index_of(state_at::<T>(i)) == i);
}

/// Stepping backwards subtracts one from the index, wrapping at zero.
pub proof fn lemma_pred_index<T: StateDescriptor>(s: T) where u8: From<T>
    requires
        valid::<T>(),
    ensures
        index_of(s) > 0 ==> index_of(pred(s)) == index_of(s) - 1,
        index_of(s) == 0 ==> index_of(pred(s)) == count::<T>() - 1,
{
    assert(index_of(s) < count::<T>());
    if index_of(s) == 0 {
        assert(index_of(state_at::<T>((count::<T>() - 1) as nat)) == count::<T>() - 1);
    } else {
        assert(index_of(state_at::<T>((index_of(s) - 1) as nat)) == index_of(s) - 1);
    }
}

fn index_exec<T: StateDescriptor>(s: T) -> (r: u8) where u8: From<T>
    requires
        valid::<T>(),
    ensures
        r as nat == index_of(s),
        r < T::MAX,
{
    proof {
        assert(index_of(s) < count::<T>());
    }
    u8::from(s)
}

fn at_index<T: StateDescriptor>(i: u8) -> (r: T) where u8: From<T>
    requires
        valid::<T>(),
        i < T::MAX,
    ensures
        r == state_at::<T>(i as nat),
{
    match T::try_from(i) {
        Ok(s) => s,
        Err(_) => vstd::pervasive::unreached(),
    }
}

fn advance<T: StateDescriptor>(s: &mut T) -> (r: T) where u8: From<T>
    requires
        valid::<T>(),
    ensures
        r == *old(s),
        *final(s) == succ(*old(s)),
{
    let t = index_exec(*s);
    let n = (t + 1) % T::MAX;
    let prior = *s;
    *s = at_index(n);
    prior
}

fn retreat<T: StateDescriptor>(s: &mut T) -> (r: T) where u8: From<T>
    requires
        valid::<T>(),
    ensures
        r == *old(s),
        *final(s) == pred(*old(s)),
{
    let t = index_exec(*s);
    let p = if t == 0 {
        T::MAX
    } else {
        t
    } - 1;
    let prior = *s;
    *s = at_index(p);
    prior
}

/// A cursor over the states of a descriptor: steps, jumps and iteration,
/// all wrapping around. Each mutating step returns the state that was
/// current before it.
pub trait State: StateDescriptor where u8: From<Self> {
    /// The first state.
    fn start() -> (r: Self)
        requires
            valid::<Self>(),
        ensures
            r == state_at::<Self>(0),
            index_of(r) == 0,
    {
        at_index(0)
    }

    /// The last state.
    fn end() -> (r: Self)
        requires
            valid::<Self>(),
        ensures
            r == state_at::<Self>((count::<Self>() - 1) as nat),
            index_of(r) == count::<Self>() - 1,
    {
        at_index(Self::MAX - 1)
    }

    /// How many states exist.
    fn len() -> (r: usize)
        ensures
            r as nat == count::<Self>(),
    {
        Self::MAX as usize
    }

    /// The state at position `i`, or `None` when there is no such state.
    fn from_index(i: u8) -> (r: Option<Self>)
        requires
            valid::<Self>(),
        ensures
            r == (if (i as nat) < count::<Self>() {
                Some(state_at::<Self>(i as nat))
            } else {
                None
            }),
    {
        match Self::try_from(i) {
            Ok(s) => Some(s),
            Err(_) => None,
        }
    }

    /// Advances to the next state, wrapping around.
    fn next(&mut self) -> (r: Self)
        requires
            valid::<Self>(),
        ensures
            r == *old(self),
            *final(self) == succ(*old(self)),
    {
        advance(self)
    }

    /// Moves back to the previous state, wrapping around.
    fn previous(&mut self) -> (r: Self)
        requires
            valid::<Self>(),
        ensures
            r == *old(self),
            *final(self) == pred(*old(self)),
    {
        retreat(self)
    }

    /// Jumps to `other`.
    fn goto(&mut self, other: Self) -> (r: Self)
        ensures
            r == *old(self),
            *final(self) == other,
    {
        let prior = *self;
        *self = other;
        prior
    }

    /// An endless iterator that starts at this state and cycles through all
    /// states.
    fn into_iter(self) -> (r: StateIter<Self>)
        requires
            valid::<Self>(),
        ensures
            r.current() == self,
            r.position() == index_of(self),
            r.is_infinite(),
            !r.is_done(),
    {
        let pos = index_exec(self);
        StateIter { item: self, pos: pos as usize, infinite: true, done: false }
    }

    /// An iterator that starts at this state and ends after the last state
    /// (forwards) or the first state (backwards).
    fn into_iter_once(self) -> (r: StateIter<Self>)
        requires
            valid::<Self>(),
        ensures
            r.current() == self,
            r.position() == index_of(self),
            !r.is_infinite(),
            !r.is_done(),
            r.remaining_forward() == forward_run(self),
            r.remaining_backward() == backward_run(self),
    {
        let pos = index_exec(self);
        StateIter { item: self, pos: pos as usize, infinite: false, done: false }
    }
}

/// Toggling, for descriptors with exactly two states.
pub trait StateFlip: State where u8: From<Self> {
    /// Toggles to the other state.
    fn flip(&mut self) -> (r: Self)
        requires
            valid::<Self>(),
            count::<Self>() == 2,
        ensures
            r == *old(self),
            *final(self) == succ(*old(self)),
    {
        self.next()
    }
}

/// An iterator over states, usable from both ends. `next` yields the current
/// state and advances; `next_back` yields it and moves back. A bounded one
/// stops after yielding the last state going forwards, or the first going
/// backwards, whichever comes first; both ends then yield nothing.
pub struct StateIter<T: StateDescriptor> where u8: From<T> {
    item: T,
    pos: usize,
    infinite: bool,
    done: bool,
}

impl<T: StateDescriptor> StateIter<T> where u8: From<T> {
    /// The state that the next step yields.
    pub closed spec fn current(&self) -> T {
        self.item
    }

    /// Index of the state yielded last, or of the first state before any step.
    pub closed spec fn position(&self) -> nat {
        self.pos as nat
    }

    /// Whether the iterator cycles forever.
    pub closed spec fn is_infinite(&self) -> bool {
        self.infinite
    }

    /// Whether the iterator has ended.
    pub closed spec fn is_done(&self) -> bool {
        self.done
    }

    /// What calling only `next` on a bounded iterator yields.
    pub closed spec fn remaining_forward(&self) -> Seq<T> {
        if self.done {
            Seq::empty()
        } else {
            forward_run(self.item)
        }
    }

    /// What calling only `next_back` on a bounded iterator yields.
    pub closed spec fn remaining_backward(&self) -> Seq<T> {
        if self.done {
            Seq::empty()
        } else {
            backward_run(self.item)
        }
    }

    /// Both ends share one completion flag: nothing remains in either
    /// direction exactly when the iterator is done.
    pub proof fn lemma_remaining_empty_iff_done(&self)
        requires
            valid::<T>(),
        ensures
            self.remaining_forward().len() == 0 <==> self.is_done(),
            self.remaining_backward().len() == 0 <==> self.is_done(),
    {
        assert(index_of(self.item) < count::<T>());
    }

    /// Yields the current state and advances to the next one.
    pub fn next(&mut self) -> (r: Option<T>)
        requires
            valid::<T>(),
        ensures
            old(self).is_done() ==> r is None && *final(self) == *old(self),
            !old(self).is_done() ==> (r == Some(old(self).current()) && final(self).current()
                == succ(old(self).current()) && final(self).is_infinite()
                == old(self).is_infinite() && final(self).is_done() == (!old(self).is_infinite()
                && index_of(old(self).current()) == count::<T>() - 1) && final(self).position()
                == index_of(old(self).current())),
            !old(self).is_infinite() ==> (r is None <==> old(self).remaining_forward().len() == 0),
            !old(self).is_infinite() ==> (r matches Some(x) ==> old(self).remaining_forward()
                == seq![x] + final(self).remaining_forward()),
    {
        if self.done {
            return None;
        }
        let t = index_exec(self.item);
        if !self.infinite && t == T::MAX - 1 {
            self.done = true;
        }
        let yielded = advance(&mut self.item);
        let p = index_exec(yielded);
        self.pos = p as usize;
        proof {
            let s = old(self).item;
            if !self.infinite && !self.done {
                lemma_succ_index(s);
                assert(forward_run(s) =~= seq![s] + forward_run(self.item));
            } else if !self.infinite {
                assert(forward_run(s) =~= seq![s]);
            }
        }
        Some(yielded)
    }

    /// Yields the current state and moves back to the previous one.
    pub fn next_back(&mut self) -> (r: Option<T>)
        requires
            valid::<T>(),
        ensures
            old(self).is_done() ==> r is None && *final(self) == *old(self),
            !old(self).is_done() ==> (r == Some(old(self).current()) && final(self).current()
                == pred(old(self).current()) && final(self).is_infinite()
                == old(self).is_infinite() && final(self).is_done() == (!old(self).is_infinite()
                && index_of(old(self).current()) == 0) && final(self).position() == index_of(
                old(self).current(),
            )),
            !old(self).is_infinite() ==> (r is None <==> old(self).remaining_backward().len() == 0),
            !old(self).is_infinite() ==> (r matches Some(x) ==> old(self).remaining_backward()
                == seq![x] + final(self).remaining_backward()),
    {
        if self.done {
            return None;
        }
        let t = index_exec(self.item);
        if !self.infinite && t == 0 {
            self.done = true;
        }
        let yielded = retreat(&mut self.item);
        let p = index_exec(yielded);
        self.pos = p as usize;
        proof {
            let s = old(self).item;
            if !self.infinite && !self.done {
                lemma_pred_index(s);
                assert(backward_run(s) =~= seq![s] + backward_run(self.item));
            } else if !self.infinite {
                assert(backward_run(s) =~= seq![s]);
            }
        }
        Some(yielded)
    }

    /// Yields up to `k` states by stepping forwards, fewer only when a
    /// bounded iterator ends first.
    pub fn take(&mut self, k: usize) -> (r: Vec<T>)
        requires
            valid::<T>(),
        ensures
            final(self).is_infinite() == old(self).is_infinite(),
            old(self).is_done() ==> r@.len() == 0,
            old(self).is_infinite() && !old(self).is_done() ==> r@ == cycle_from(old(self).current(), k as nat),
            !old(self).is_infinite() ==> old(self).remaining_forward() == r@ + final(self).remaining_forward(),
            !old(self).is_infinite() ==> r@.len() == (if (k as nat) < old(self).remaining_forward().len() {
                k as nat
            } else {
                old(self).remaining_forward().len()
            }),
    {
        let ghost s0 = *self;
        let mut r: Vec<T> = Vec::new();
        let mut i: usize = 0;
        while i < k
            invariant
                valid::<T>(),
                s0 == *old(self),
                i <= k,
                r@.len() == i,
                self.infinite == s0.infinite,
                s0.done ==> r@.len() == 0 && *self == s0,
                s0.infinite && !s0.done ==> !self.done && self.item == succ_n(s0.item, i as nat)
                    && r@ == cycle_from(s0.item, i as nat),
                !s0.infinite ==> s0.remaining_forward() == r@ + self.remaining_forward(),
            decreases k - i,
        {
            match self.next() {
                Some(x) => {
                    proof {
                        if s0.infinite {
                            lemma_succ_n_index(s0.item, i as nat);
                            assert(r@.push(x) =~= cycle_from(s0.item, (i + 1) as nat));
                        } else {
                            assert(s0.remaining_forward() =~= r@.push(x)
                                + self.remaining_forward());
                        }
                    }
                    r.push(x);
                    i = i + 1;
                },
                None => {
                    proof {
                        assert(!s0.infinite ==> s0.remaining_forward() =~= r@);
                    }
                    return r;
                },
            }
        }
        r
    }

    /// Yields up to `k` states by stepping backwards, fewer only when a
    /// bounded iterator ends first.
    pub fn take_back(&mut self, k: usize) -> (r: Vec<T>)
        requires
            valid::<T>(),
        ensures
            final(self).is_infinite() == old(self).is_infinite(),
            old(self).is_done() ==> r@.len() == 0,
            !old(self).is_infinite() ==> old(self).remaining_backward() == r@ + final(self).remaining_backward(),
            !old(self).is_infinite() ==> r@.len() == (if (k as nat) < old(self).remaining_backward().len() {
                k as nat
            } else {
                old(self).remaining_backward().len()
            }),
    {
        let ghost s0 = *self;
        let mut r: Vec<T> = Vec::new();
        let mut i: usize = 0;
        while i < k
            invariant
                valid::<T>(),
                s0 == *old(self),
                i <= k,
                r@.len() == i,
                self.infinite == s0.infinite,
                s0.done ==> r@.len() == 0 && *self == s0,
                !s0.infinite ==> s0.remaining_backward() == r@ + self.remaining_backward(),
            decreases k - i,
        {
            match self.next_back() {
                Some(x) => {
                    proof {
                        if !s0.infinite {
                            assert(s0.remaining_backward() =~= r@.push(x)
                                + self.remaining_backward());
                        }
                    }
                    r.push(x);
                    i = i + 1;
                },
                None => {
                    proof {
                        assert(!s0.infinite ==> s0.remaining_backward() =~= r@);
                    }
                    return r;
                },
            }
        }
        r
    }

    /// The index of the state yielded last (of the starting state before
    /// any step), and `Some` of the number of states.
    pub fn size_hint(&self) -> (r: (usize, Option<usize>))
        ensures
            r.0 as nat == self.position(),
            r.1 == Some(T::MAX as usize),
    {
        (self.pos, Some(T::MAX as usize))
    }
}

} // verus!
