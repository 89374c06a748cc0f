use vstd::prelude::*;
use vstd::arithmetic::div_mod::{
    lemma_add_mod_noop,
    lemma_mod_multiples_vanish,
    lemma_mod_twice,
    lemma_small_mod,
};
use crate::state::{
    all_states,
    backward_run,
    count,
    cycle_from,
    forward_run,
    index_of,
    lemma_pred_index,
    lemma_succ_index,
    pred,
    pred_n,
    repeat,
    state_at,
    succ,
    succ_n,
    valid,
    StateDescriptor,
};

verus! {

/// Two states with the same index are the same state.
pub proof fn lemma_index_injective<T: StateDescriptor>(a: T, b: T) where u8: From<T>
    requires
        valid::<T>(),
        index_of(a) == index_of(b),
    ensures
        a == b,
{
    assert(state_at::<T>(index_of(a)) == a);
    assert(state_at::<T>(index_of(b)) == b);
}

/// Stepping forwards and then backwards, or backwards and then forwards,
/// comes back to the same state.
pub proof fn lemma_step_inverse<T: StateDescriptor>(s: T) where u8: From<T>
    requires
        valid::<T>(),
    ensures
        pred(succ(s)) == s,
        succ(pred(s)) == s,
{
    lemma_succ_index(s);
    lemma_pred_index(succ(s));
    lemma_index_injective(pred(succ(s)), s);
    lemma_pred_index(s);
    lemma_succ_index(pred(s));
    lemma_index_injective(succ(pred(s)), s);
}

proof fn lemma_succ_n_unfold<T: StateDescriptor>(s: T, k: nat) where u8: From<T>
    requires
        k > 0,
    ensures
        succ_n(s, k) == succ_n(succ(s), (k - 1) as nat),
    decreases k,
{
    let k1 = (k - 1) as nat;
    if k > 1 {
        lemma_succ_n_unfold(s, k1);
        assert(succ_n(succ(s), k1) == succ(succ_n(succ(s), (k1 - 1) as nat)));
    } else {
        assert(succ_n(s, 1) == succ(succ_n(s, 0)));
    }
}

proof fn lemma_pred_n_unfold<T: StateDescriptor>(s: T, k: nat) where u8: From<T>
    requires
        k > 0,
    ensures
        pred_n(s, k) == pred_n(pred(s), (k - 1) as nat),
    decreases k,
{
    let k1 = (k - 1) as nat;
    if k > 1 {
        lemma_pred_n_unfold(s, k1);
        assert(pred_n(pred(s), k1) == pred(pred_n(pred(s), (k1 - 1) as nat)));
    } else {
        assert(pred_n(s, 1) == pred(pred_n(s, 0)));
    }
}

/// Stepping forwards `k` times and then backwards `k` times returns to the
/// starting state, and so does the reverse order.
pub proof fn lemma_round_trip<T: StateDescriptor>(s: T, k: nat) where u8: From<T>
    requires
        valid::<T>(),
    ensures
        pred_n(succ_n(s, k), k) == s,
        succ_n(pred_n(s, k), k) == s,
    decreases k,
{
    if k > 0 {
        let k1 = (k - 1) as nat;
        lemma_round_trip(s, k1);
        lemma_pred_n_unfold(succ_n(s, k), k);
        lemma_step_inverse(succ_n(s, k1));
        lemma_succ_n_unfold(pred_n(s, k), k);
        lemma_step_inverse(pred_n(s, k1));
    }
}

/// Stepping forwards from the last state gives the first, and stepping
/// backwards from the first gives the last.
pub proof fn lemma_wraparound<T: StateDescriptor>() where u8: From<T>
    requires
        valid::<T>(),
    ensures
        succ(state_at::<T>((count::<T>() - 1) as nat)) == state_at::<T>(0),
        pred(state_at::<T>(0)) == state_at::<T>((count::<T>() - 1) as nat),
{
    let last = state_at::<T>((count::<T>() - 1) as nat);
    let first = state_at::<T>(0);
    assert(index_of(last) == count::<T>() - 1);
    assert(index_of(first) == 0);
    lemma_succ_index(last);
    lemma_index_injective(succ(last), first);
    lemma_pred_index(first);
    lemma_index_injective(pred(first), last);
}

/// A bounded run from `s` holds `count - index_of(s)` states forwards, from
/// `s` to the last state, and `index_of(s) + 1` backwards, from `s` to the
/// first; from the first state forwards, and from the last backwards, a run
/// holds every state.
pub proof fn lemma_bounded_runs<T: StateDescriptor>(s: T) where u8: From<T>
    requires
        valid::<T>(),
    ensures
        forward_run(s).len() == count::<T>() - index_of(s),
        backward_run(s).len() == index_of(s) + 1,
        forward_run(s)[0] == s,
        backward_run(s)[0] == s,
        forward_run(s).last() == state_at::<T>((count::<T>() - 1) as nat),
        backward_run(s).last() == state_at::<T>(0),
        forward_run(state_at::<T>(0)) == all_states::<T>(),
        backward_run(state_at::<T>((count::<T>() - 1) as nat)) == all_states::<T>().reverse(),
{
    assert(index_of(s) < count::<T>());
    let first = state_at::<T>(0);
    let last = state_at::<T>((count::<T>() - 1) as nat);
    assert(index_of(first) == 0);
    assert(index_of(last) == count::<T>() - 1);
    assert(forward_run(first) =~= all_states::<T>());
    assert(backward_run(last) =~= all_states::<T>().reverse());
}

proof fn lemma_mod_step(a: int, n: int)
    requires
        n > 0,
    ensures
        ((a % n) + 1) % n == (a + 1) % n,
{
    lemma_add_mod_noop(a % n, 1, n);
    lemma_mod_twice(a, n);
    lemma_add_mod_noop(a, 1, n);
}

/// Advancing `k` times from `s` lands at index `(index_of(s) + k) % count`.
pub proof fn lemma_succ_n_index<T: StateDescriptor>(s: T, k: nat) where u8: From<T>
    requires
        valid::<T>(),
    ensures
        index_of(succ_n(s, k)) == (index_of(s) + k) as int % (count::<T>() as int),
        succ_n(s, k) == state_at::<T>(((index_of(s) + k) as int % (count::<T>() as int)) as nat),
    decreases k,
{
    let n = count::<T>() as int;
    if k == 0 {
        assert(index_of(s) < count::<T>());
        lemma_small_mod(index_of(s), count::<T>());
    } else {
        let k1 = (k - 1) as nat;
        lemma_succ_n_index(s, k1);
        lemma_succ_index(succ_n(s, k1));
        lemma_mod_step((index_of(s) + k1) as int, n);
    }
    let i = ((index_of(s) + k) as int % n) as nat;
    assert(index_of(state_at::<T>(i)) == i);
    lemma_index_injective(succ_n(s, k), state_at::<T>(i));
}

/// Cycling from the first state for `k` full rounds yields every state in
/// order, `k` times over.
pub proof fn lemma_cycle_repeats<T: StateDescriptor>(k: nat) where u8: From<T>
    requires
        valid::<T>(),
    ensures
        cycle_from(state_at::<T>(0), k * count::<T>()) == repeat(all_states::<T>(), k),
    decreases k,
{
    let n = count::<T>();
    let first = state_at::<T>(0);
    assert(index_of(first) == 0);
    if k > 0 {
        let k1 = (k - 1) as nat;
        lemma_cycle_repeats::<T>(k1);
        assert(k * n == k1 * n + n) by (nonlinear_arith)
            requires
                k1 == k - 1,
        ;
        let lhs = cycle_from(first, k * n);
        let rhs = repeat(all_states::<T>(), k1) + all_states::<T>();
        assert forall|j: int| 0 <= j < k * n implies lhs[j] == rhs[j] by {
            if j < k1 * n {
                assert(lhs[j] == cycle_from(first, k1 * n)[j]);
            } else {
                let b = j - k1 * n;
                lemma_mod_multiples_vanish(k1 as int, b, n as int);
                assert(n * k1 == k1 * n) by (nonlinear_arith);
                lemma_small_mod(b as nat, n);
            }
        }
        assert(lhs =~= rhs);
    } else {
        assert(cycle_from(first, 0) =~= Seq::<T>::empty());
    }
}

/// With exactly two states, stepping forwards alternates between them.
pub proof fn lemma_flip_alternates<T: StateDescriptor>(s: T) where u8: From<T>
    requires
        valid::<T>(),
        count::<T>() == 2,
    ensures
        succ(s) != s,
        succ(succ(s)) == s,
        succ(state_at::<T>(0)) == state_at::<T>(1),
        succ(state_at::<T>(1)) == state_at::<T>(0),
{
    lemma_succ_index(s);
    lemma_succ_index(succ(s));
    lemma_index_injective(succ(succ(s)), s);
    let a = state_at::<T>(0);
    let b = state_at::<T>(1);
    assert(index_of(a) == 0);
    assert(index_of(b) == 1);
    lemma_succ_index(a);
    lemma_succ_index(b);
    lemma_index_injective(succ(a), b);
    lemma_index_injective(succ(b), a);
}

} // verus!
