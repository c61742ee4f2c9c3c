//! The group-discovery-and-rotation model shared by the queue and the stack.
//!
//! A container state is a sequence of non-empty buckets together with a
//! rotation cursor. The two container variants differ only in which end of a
//! bucket holds the representative and is removed first; the flag `lifo`
//! selects that end (`false`: front, the queue; `true`: back, the stack).
//! The executable containers promise in their contracts that every operation
//! performs exactly one step of this model; the fairness and conservation
//! laws at the bottom of this file are proved of the model once for both.

use vstd::prelude::*;
use vstd::multiset::Multiset;

verus! {

/// The representative of a bucket: the item new candidates are compared
/// against and the item the next pop of this bucket returns.
pub open spec fn bucket_rep<T>(g: Seq<T>, lifo: bool) -> T {
    if lifo {
        g.last()
    } else {
        g.first()
    }
}

/// A bucket after its representative end has been removed.
pub open spec fn bucket_drop<T>(g: Seq<T>, lifo: bool) -> Seq<T> {
    if lifo {
        g.drop_last()
    } else {
        g.drop_first()
    }
}

/// The order in which one bucket alone would drain: front first for the
/// queue, back first for the stack.
pub open spec fn bucket_order<T>(g: Seq<T>, lifo: bool) -> Seq<T> {
    if lifo {
        g.reverse()
    } else {
        g
    }
}

/// Whether a candidate `v` joins bucket `g`: the bucket must be non-empty and
/// the candidate must match its representative.
pub open spec fn same_matcher<T>(same: spec_fn(T, T) -> bool, lifo: bool, v: T) -> spec_fn(
    Seq<T>,
) -> bool {
    |g: Seq<T>| g.len() > 0 && same(v, bucket_rep(g, lifo))
}

/// The index of the first bucket satisfying `m`, or -1 when none does.
/// Insertion scans in sequence order, not from the cursor.
pub open spec fn find_first<T>(gs: Seq<Seq<T>>, m: spec_fn(Seq<T>) -> bool) -> int
    decreases gs.len(),
{
    if gs.len() == 0 {
        -1
    } else if m(gs.first()) {
        0
    } else {
        let r = find_first(gs.drop_first(), m);
        if r == -1 {
            -1
        } else {
            r + 1
        }
    }
}

/// Total number of items across all buckets.
pub open spec fn sum_len<T>(gs: Seq<Seq<T>>) -> nat
    decreases gs.len(),
{
    if gs.len() == 0 {
        0
    } else {
        gs.last().len() + sum_len(gs.drop_last())
    }
}

/// The items resident across all buckets, as a multiset.
pub open spec fn contents<T>(gs: Seq<Seq<T>>) -> Multiset<T>
    decreases gs.len(),
{
    if gs.len() == 0 {
        Multiset::empty()
    } else {
        contents(gs.drop_last()).add(gs.last().to_multiset())
    }
}

/// Every bucket in the sequence holds at least one item.
pub open spec fn wf_buckets<T>(gs: Seq<Seq<T>>) -> bool {
    forall|i: int| 0 <= i < gs.len() ==> #[trigger] gs[i].len() > 0
}

/// The cursor is 0 when there are no buckets, and a valid index otherwise.
pub open spec fn wf_cursor<T>(gs: Seq<Seq<T>>, cur: nat) -> bool {
    if gs.len() == 0 {
        cur == 0
    } else {
        cur < gs.len()
    }
}

/// Well-formed rotation state.
pub open spec fn wf_state<T>(gs: Seq<Seq<T>>, cur: nat) -> bool {
    wf_buckets(gs) && wf_cursor(gs, cur)
}

/// The bucket sequence after inserting `v`: appended to the first matching
/// bucket, or opening a fresh bucket at the back. The cursor is untouched.
pub open spec fn insert_step<T>(gs: Seq<Seq<T>>, same: spec_fn(T, T) -> bool, lifo: bool, v: T) -> Seq<
    Seq<T>,
> {
    let i = find_first(gs, same_matcher(same, lifo, v));
    if i >= 0 {
        gs.update(i, gs[i].push(v))
    } else {
        gs.push(seq![v])
    }
}

/// A cursor that has run past the end wraps to 0.
pub open spec fn norm_cursor<T>(gs: Seq<Seq<T>>, cur: nat) -> nat {
    if cur < gs.len() {
        cur
    } else {
        0
    }
}

/// Constant-time removal of bucket `i`: the last bucket moves into its slot.
pub open spec fn swap_remove_seq<T>(gs: Seq<Seq<T>>, i: int) -> Seq<Seq<T>> {
    gs.update(i, gs.last()).drop_last()
}

/// One pop of the rotation: remove one item from the bucket under the
/// (normalized) cursor; a drained bucket leaves the sequence by swap-removal
/// and the cursor stays on its slot, while a surviving bucket sends the
/// cursor one step onward. Returns the buckets, the cursor and the item.
pub open spec fn pop_step<T>(gs: Seq<Seq<T>>, cur: nat, lifo: bool) -> (Seq<Seq<T>>, nat, Option<
    T,
>) {
    if sum_len(gs) == 0 {
        (gs, cur, None)
    } else if gs.len() == 0 {
        (gs, 0, None)
    } else {
        let p = norm_cursor(gs, cur) as int;
        if gs[p].len() == 0 {
            (gs, cur, None)
        } else {
            let item = bucket_rep(gs[p], lifo);
            let rest = bucket_drop(gs[p], lifo);
            if rest.len() == 0 {
                let gs2 = swap_remove_seq(gs, p);
                let cur2 = if gs2.len() == 0 || p >= gs2.len() {
                    0nat
                } else {
                    p as nat
                };
                (gs2, cur2, Some(item))
            } else {
                let gs2 = gs.update(p, rest);
                (gs2, ((p + 1) % gs2.len() as int) as nat, Some(item))
            }
        }
    }
}

/// The item the next pop would return, read without mutation.
pub open spec fn peek_step<T>(gs: Seq<Seq<T>>, cur: nat, lifo: bool) -> Option<T> {
    if gs.len() == 0 {
        None
    } else if cur >= gs.len() {
        None
    } else if gs[cur as int].len() == 0 {
        None
    } else {
        Some(bucket_rep(gs[cur as int], lifo))
    }
}

/// The representatives of the non-empty buckets, in sequence order.
pub open spec fn heads<T>(gs: Seq<Seq<T>>, lifo: bool) -> Seq<T>
    decreases gs.len(),
{
    if gs.len() == 0 {
        Seq::empty()
    } else {
        let rest = heads(gs.drop_first(), lifo);
        if gs.first().len() > 0 {
            seq![bucket_rep(gs.first(), lifo)] + rest
        } else {
            rest
        }
    }
}

/// Appending a bucket adds its length to the total.
pub proof fn lemma_sum_len_push<T>(gs: Seq<Seq<T>>, g: Seq<T>)
    ensures
        sum_len(gs.push(g)) == sum_len(gs) + g.len(),
{
    assert(gs.push(g).drop_last() =~= gs);
    assert(gs.push(g).last() == g);
}

/// Replacing a bucket changes the total by the difference in length.
pub proof fn lemma_sum_len_update<T>(gs: Seq<Seq<T>>, i: int, g: Seq<T>)
    requires
        0 <= i < gs.len(),
    ensures
        sum_len(gs.update(i, g)) == sum_len(gs) - gs[i].len() + g.len(),
    decreases gs.len(),
{
    let gs2 = gs.update(i, g);
    if i == gs.len() - 1 {
        assert(gs2.drop_last() =~= gs.drop_last());
        assert(gs2.last() == g);
    } else {
        assert(gs2.drop_last() =~= gs.drop_last().update(i, g));
        assert(gs2.last() == gs.last());
        lemma_sum_len_update(gs.drop_last(), i, g);
    }
}

/// Swap-removing a bucket subtracts its length from the total.
pub proof fn lemma_sum_len_swap_remove<T>(gs: Seq<Seq<T>>, i: int)
    requires
        0 <= i < gs.len(),
    ensures
        sum_len(swap_remove_seq(gs, i)) == sum_len(gs) - gs[i].len(),
{
    lemma_sum_len_update(gs, i, gs.last());
    let u = gs.update(i, gs.last());
    assert(u.last() == gs.last());
    assert(sum_len(u) == u.last().len() + sum_len(u.drop_last()));
}

/// A well-formed state with at least one bucket holds at least one item.
pub proof fn lemma_sum_len_pos<T>(gs: Seq<Seq<T>>)
    requires
        wf_buckets(gs),
        gs.len() > 0,
    ensures
        sum_len(gs) > 0,
{
    assert(gs.last().len() > 0);
}

/// An empty sequence carries the empty multiset.
pub proof fn lemma_empty_to_multiset<T>()
    ensures
        Seq::<T>::empty().to_multiset() =~= Multiset::<T>::empty(),
{
    broadcast use vstd::seq_lib::group_to_multiset_ensures;
    broadcast use vstd::multiset::group_multiset_axioms;

    assert forall|a: T| #[trigger] Seq::<T>::empty().to_multiset().count(a) == 0 by {
        assert(!Seq::<T>::empty().contains(a));
    }
}

/// Appending a bucket adds its items to the contents.
pub proof fn lemma_contents_push<T>(gs: Seq<Seq<T>>, g: Seq<T>)
    ensures
        contents(gs.push(g)) == contents(gs).add(g.to_multiset()),
{
    assert(gs.push(g).drop_last() =~= gs);
    assert(gs.push(g).last() == g);
}

/// Replacing a bucket exchanges its items in the contents.
pub proof fn lemma_contents_update<T>(gs: Seq<Seq<T>>, i: int, g: Seq<T>)
    requires
        0 <= i < gs.len(),
    ensures
        contents(gs.update(i, g)).add(gs[i].to_multiset()) =~= contents(gs).add(g.to_multiset()),
    decreases gs.len(),
{
    broadcast use vstd::multiset::group_multiset_axioms;

    let gs2 = gs.update(i, g);
    if i == gs.len() - 1 {
        assert(gs2.drop_last() =~= gs.drop_last());
        assert(gs2.last() == g);
        assert(contents(gs2) == contents(gs.drop_last()).add(g.to_multiset()));
        assert(contents(gs) == contents(gs.drop_last()).add(gs[i].to_multiset()));
        assert forall|x: T| #[trigger] contents(gs2).add(gs[i].to_multiset()).count(x)
            == contents(gs).add(g.to_multiset()).count(x) by {
            assert(contents(gs2).count(x) == contents(gs.drop_last()).count(x)
                + g.to_multiset().count(x));
        }
    } else {
        assert(gs2.drop_last() =~= gs.drop_last().update(i, g));
        assert(gs2.last() == gs.last());
        lemma_contents_update(gs.drop_last(), i, g);
        assert(contents(gs2) == contents(gs.drop_last().update(i, g)).add(
            gs.last().to_multiset(),
        ));
        assert(contents(gs) == contents(gs.drop_last()).add(gs.last().to_multiset()));
        assert(gs.drop_last()[i] == gs[i]);
        assert forall|x: T| #[trigger] contents(gs2).add(gs[i].to_multiset()).count(x)
            == contents(gs).add(g.to_multiset()).count(x) by {
            assert(contents(gs.drop_last().update(i, g)).add(gs.drop_last()[i].to_multiset()).count(
                x,
            ) == contents(gs.drop_last()).add(g.to_multiset()).count(x));
        }
    }
}

/// Swap-removing a bucket takes exactly its items out of the contents.
pub proof fn lemma_contents_swap_remove<T>(gs: Seq<Seq<T>>, i: int)
    requires
        0 <= i < gs.len(),
    ensures
        contents(swap_remove_seq(gs, i)).add(gs[i].to_multiset()) =~= contents(gs),
{
    broadcast use vstd::multiset::group_multiset_axioms;

    lemma_contents_update(gs, i, gs.last());
    let u = gs.update(i, gs.last());
    assert(u.last() == gs.last());
    assert(contents(u) == contents(u.drop_last()).add(u.last().to_multiset()));
    let a = contents(u.drop_last());
    assert forall|x: T| #[trigger] a.add(gs[i].to_multiset()).count(x) == contents(gs).count(x) by {
        assert(contents(u).add(gs[i].to_multiset()).count(x) == contents(gs).add(
            gs.last().to_multiset(),
        ).count(x));
    }
}

/// A non-empty bucket is its representative plus the rest.
pub proof fn lemma_bucket_split<T>(g: Seq<T>, lifo: bool)
    requires
        g.len() > 0,
    ensures
        bucket_drop(g, lifo).to_multiset().insert(bucket_rep(g, lifo)) =~= g.to_multiset(),
{
    broadcast use vstd::seq_lib::group_to_multiset_ensures;
    broadcast use vstd::multiset::group_multiset_axioms;

    if lifo {
        assert(g.remove(g.len() - 1) =~= g.drop_last());
        assert(g.contains(g.last()));
    } else {
        assert(g.remove(0) =~= g.drop_first());
        assert(g.contains(g.first()));
    }
}

/// One pop of a well-formed, non-empty state always yields an item, keeps
/// the state well-formed, and removes exactly that item from the contents.
pub proof fn lemma_pop_step<T>(gs: Seq<Seq<T>>, cur: nat, lifo: bool)
    requires
        wf_state(gs, cur),
        sum_len(gs) > 0,
    ensures
        ({
            let s = pop_step(gs, cur, lifo);
            &&& s.2 is Some
            &&& wf_state(s.0, s.1)
            &&& sum_len(s.0) + 1 == sum_len(gs)
            &&& contents(s.0).insert(s.2->Some_0) =~= contents(gs)
        }),
{
    broadcast use vstd::seq_lib::group_to_multiset_ensures;
    broadcast use vstd::multiset::group_multiset_axioms;

    if gs.len() == 0 {
        assert(sum_len(gs) == 0);
    }
    let p = norm_cursor(gs, cur) as int;
    let g = gs[p];
    let item = bucket_rep(g, lifo);
    let rest = bucket_drop(g, lifo);
    lemma_bucket_split(g, lifo);
    if rest.len() == 0 {
        lemma_sum_len_swap_remove(gs, p);
        lemma_contents_swap_remove(gs, p);
        let s0 = swap_remove_seq(gs, p);
        assert forall|x: T| #[trigger] contents(s0).insert(item).count(x) == contents(gs).count(
            x,
        ) by {
            assert(contents(s0).add(g.to_multiset()).count(x) == contents(gs).count(x));
            assert(g.to_multiset().count(x) == rest.to_multiset().insert(item).count(x));
            assert(!rest.contains(x));
        }
        assert forall|j: int| 0 <= j < s0.len() implies #[trigger] s0[j].len() > 0 by {
            assert(s0[j] == gs.update(p, gs.last())[j]);
        }
    } else {
        lemma_sum_len_update(gs, p, rest);
        lemma_contents_update(gs, p, rest);
        let s0 = gs.update(p, rest);
        assert forall|x: T| #[trigger] contents(s0).insert(item).count(x) == contents(gs).count(
            x,
        ) by {
            assert(contents(s0).add(g.to_multiset()).count(x) == contents(gs).add(
                rest.to_multiset(),
            ).count(x));
            assert(g.to_multiset().count(x) == rest.to_multiset().insert(item).count(x));
        }
        assert(0 <= (p + 1) % (s0.len() as int) < s0.len() as int) by {
            vstd::arithmetic::div_mod::lemma_mod_bound(p + 1, s0.len() as int);
        }
    }
}

/// The items returned by popping `n` times in a row.
pub open spec fn pop_trace<T>(gs: Seq<Seq<T>>, cur: nat, lifo: bool, n: nat) -> Seq<T>
    decreases n,
{
    if n == 0 {
        Seq::empty()
    } else {
        let s = pop_step(gs, cur, lifo);
        match s.2 {
            Option::None => Seq::empty(),
            Option::Some(x) => seq![x] + pop_trace(s.0, s.1, lifo, (n - 1) as nat),
        }
    }
}

/// The bucket sequence after inserting each of `items` in order.
pub open spec fn insert_trace<T>(
    gs: Seq<Seq<T>>,
    same: spec_fn(T, T) -> bool,
    lifo: bool,
    items: Seq<T>,
) -> Seq<Seq<T>>
    decreases items.len(),
{
    if items.len() == 0 {
        gs
    } else {
        insert_trace(insert_step(gs, same, lifo, items.first()), same, lifo, items.drop_first())
    }
}

/// Conservation while draining: popping a well-formed state until empty
/// returns exactly the resident items, each exactly once.
pub proof fn lemma_drain_conservation<T>(gs: Seq<Seq<T>>, cur: nat, lifo: bool, n: nat)
    requires
        wf_state(gs, cur),
        n == sum_len(gs),
    ensures
        pop_trace(gs, cur, lifo, n).len() == n,
        pop_trace(gs, cur, lifo, n).to_multiset() =~= contents(gs),
    decreases n,
{
    broadcast use vstd::seq_lib::group_to_multiset_ensures;
    broadcast use vstd::multiset::group_multiset_axioms;

    if n == 0 {
        if gs.len() > 0 {
            lemma_sum_len_pos(gs);
        }
        assert(contents(gs) == Multiset::<T>::empty());
        lemma_empty_to_multiset::<T>();
    } else {
        lemma_pop_step(gs, cur, lifo);
        let s = pop_step(gs, cur, lifo);
        let x = s.2->Some_0;
        lemma_drain_conservation(s.0, s.1, lifo, (n - 1) as nat);
        let t2 = pop_trace(s.0, s.1, lifo, (n - 1) as nat);
        assert(pop_trace(gs, cur, lifo, n) == seq![x] + t2);
        assert((seq![x] + t2).to_multiset() =~= seq![x].to_multiset().add(t2.to_multiset())) by {
            broadcast use vstd::seq_lib::lemma_multiset_commutative;

        }
        assert(Seq::<T>::empty().push(x) =~= seq![x]);
        lemma_empty_to_multiset::<T>();
        assert(seq![x].to_multiset() =~= Multiset::<T>::empty().insert(x));
        assert forall|y: T| #[trigger] (seq![x] + t2).to_multiset().count(y) == contents(gs).count(
            y,
        ) by {
            assert(contents(s.0).insert(x).count(y) == contents(gs).count(y));
        }
    }
}

/// One insertion keeps the state well-formed and adds exactly the new item
/// to the contents; the cursor and existing buckets are untouched.
pub proof fn lemma_insert_step<T>(
    gs: Seq<Seq<T>>,
    cur: nat,
    same: spec_fn(T, T) -> bool,
    lifo: bool,
    v: T,
)
    requires
        wf_state(gs, cur),
    ensures
        ({
            let gs2 = insert_step(gs, same, lifo, v);
            &&& wf_state(gs2, cur)
            &&& gs.len() <= gs2.len()
            &&& sum_len(gs2) == sum_len(gs) + 1
            &&& contents(gs2) =~= contents(gs).insert(v)
        }),
{
    broadcast use vstd::seq_lib::group_to_multiset_ensures;
    broadcast use vstd::multiset::group_multiset_axioms;

    let m = same_matcher(same, lifo, v);
    lemma_find_first(gs, m);
    let i = find_first(gs, m);
    let gs2 = insert_step(gs, same, lifo, v);
    if i >= 0 {
        lemma_sum_len_update(gs, i, gs[i].push(v));
        lemma_contents_update(gs, i, gs[i].push(v));
        assert forall|x: T| #[trigger] contents(gs2).count(x) == contents(gs).insert(v).count(
            x,
        ) by {
            assert(contents(gs2).add(gs[i].to_multiset()).count(x) == contents(gs).add(
                gs[i].push(v).to_multiset(),
            ).count(x));
            assert(gs[i].push(v).to_multiset() == gs[i].to_multiset().insert(v));
        }
    } else {
        lemma_sum_len_push(gs, seq![v]);
        lemma_contents_push(gs, seq![v]);
        assert(Seq::<T>::empty().push(v) =~= seq![v]);
        lemma_empty_to_multiset::<T>();
        assert(seq![v].to_multiset() =~= Multiset::<T>::empty().insert(v));
        assert forall|x: T| #[trigger] contents(gs2).count(x) == contents(gs).insert(v).count(
            x,
        ) by {
            assert(contents(gs2).count(x) == contents(gs).count(x) + seq![v].to_multiset().count(
                x,
            ));
        }
    }
}

/// Inserting a whole sequence of items keeps the state well-formed and adds
/// exactly those items to the contents.
pub proof fn lemma_insert_trace<T>(
    gs: Seq<Seq<T>>,
    cur: nat,
    same: spec_fn(T, T) -> bool,
    lifo: bool,
    items: Seq<T>,
)
    requires
        wf_state(gs, cur),
    ensures
        ({
            let gs2 = insert_trace(gs, same, lifo, items);
            &&& wf_state(gs2, cur)
            &&& sum_len(gs2) == sum_len(gs) + items.len()
            &&& contents(gs2) =~= contents(gs).add(items.to_multiset())
        }),
    decreases items.len(),
{
    broadcast use vstd::seq_lib::group_to_multiset_ensures;
    broadcast use vstd::multiset::group_multiset_axioms;

    let gs2 = insert_trace(gs, same, lifo, items);
    if items.len() == 0 {
        lemma_empty_to_multiset::<T>();
        assert(contents(gs).add(items.to_multiset()) =~= contents(gs));
    } else {
        let v = items.first();
        let gs1 = insert_step(gs, same, lifo, v);
        lemma_insert_step(gs, cur, same, lifo, v);
        lemma_insert_trace(gs1, cur, same, lifo, items.drop_first());
        assert(items.remove(0) =~= items.drop_first());
        assert(items.drop_first().to_multiset() == items.to_multiset().remove(items[0]));
        assert(items.contains(items[0]));
        assert forall|x: T| #[trigger] contents(gs2).count(x) == contents(gs).add(
            items.to_multiset(),
        ).count(x) by {
            assert(contents(gs2).count(x) == contents(gs1).count(x)
                + items.drop_first().to_multiset().count(x));
            assert(contents(gs1).count(x) == contents(gs).insert(v).count(x));
            assert(items.to_multiset().count(items[0]) > 0);
        }
    }
}

/// Conservation round trip: starting empty, inserting any `items` and then
/// popping until empty returns exactly `items`, as a multiset — the same
/// number of items, each exactly once, none invented and none lost.
pub proof fn lemma_round_trip_conservation<T>(
    same: spec_fn(T, T) -> bool,
    lifo: bool,
    items: Seq<T>,
)
    ensures
        ({
            let gs = insert_trace(Seq::empty(), same, lifo, items);
            &&& sum_len(gs) == items.len()
            &&& pop_trace(gs, 0, lifo, items.len()).len() == items.len()
            &&& pop_trace(gs, 0, lifo, items.len()).to_multiset() =~= items.to_multiset()
        }),
{
    broadcast use vstd::multiset::group_multiset_axioms;

    lemma_insert_trace(Seq::empty(), 0, same, lifo, items);
    let gs = insert_trace(Seq::empty(), same, lifo, items);
    lemma_drain_conservation(gs, 0, lifo, sum_len(gs));
    assert(contents(Seq::<Seq<T>>::empty()) == Multiset::<T>::empty());
    assert(contents(gs) =~= items.to_multiset());
}

/// Whether `a` occurs inside `b` in order, possibly with other items
/// interleaved.
pub open spec fn is_subseq_of<T>(a: Seq<T>, b: Seq<T>) -> bool
    decreases b.len(),
{
    if a.len() == 0 {
        true
    } else if b.len() == 0 {
        false
    } else {
        (a.first() == b.first() && is_subseq_of(a.drop_first(), b.drop_first())) || is_subseq_of(
            a,
            b.drop_first(),
        )
    }
}

/// A subsequence survives an extra item in front of the larger sequence.
pub proof fn lemma_subseq_skip<T>(a: Seq<T>, b: Seq<T>, x: T)
    requires
        is_subseq_of(a, b),
    ensures
        is_subseq_of(a, seq![x] + b),
{
    assert((seq![x] + b).drop_first() =~= b);
    assert((seq![x] + b).len() == b.len() + 1);
}

/// Prefixing both sequences with the same item preserves the subsequence.
pub proof fn lemma_subseq_cons<T>(a: Seq<T>, b: Seq<T>, x: T)
    requires
        is_subseq_of(a, b),
    ensures
        is_subseq_of(seq![x] + a, seq![x] + b),
{
    assert((seq![x] + a).drop_first() =~= a);
    assert((seq![x] + b).drop_first() =~= b);
    assert((seq![x] + a).first() == (seq![x] + b).first());
}

/// Reversing a non-empty sequence puts its last item first.
pub proof fn lemma_reverse_unfold<T>(g: Seq<T>)
    requires
        g.len() > 0,
    ensures
        g.reverse() =~= seq![g.last()] + g.drop_last().reverse(),
{
    let rhs = seq![g.last()] + g.drop_last().reverse();
    assert forall|i: int| 0 <= i < g.len() implies g.reverse()[i] == rhs[i] by {
        if i > 0 {
            assert(rhs[i] == g.drop_last().reverse()[i - 1]);
            assert(g.drop_last().reverse()[i - 1] == g.drop_last()[g.len() - 1 - i]);
        }
    }
}

/// Intra-group order: however the rotation interleaves the buckets, the
/// items of any one bucket come out in that bucket's own draining order —
/// front-to-back for the queue, back-to-front for the stack.
pub proof fn lemma_intra_bucket_order<T>(gs: Seq<Seq<T>>, cur: nat, lifo: bool, b: int)
    requires
        wf_state(gs, cur),
        0 <= b < gs.len(),
    ensures
        is_subseq_of(bucket_order(gs[b], lifo), pop_trace(gs, cur, lifo, sum_len(gs))),
    decreases sum_len(gs),
{
    lemma_sum_len_pos(gs);
    let n = sum_len(gs);
    lemma_pop_step(gs, cur, lifo);
    let s = pop_step(gs, cur, lifo);
    let x = s.2->Some_0;
    let t2 = pop_trace(s.0, s.1, lifo, (n - 1) as nat);
    assert(pop_trace(gs, cur, lifo, n) == seq![x] + t2);
    let p = norm_cursor(gs, cur) as int;
    let g = gs[p];
    let rest = bucket_drop(g, lifo);
    if b == p {
        if rest.len() == 0 {
            assert(g.len() == 1);
            if lifo {
                assert(g.reverse() =~= seq![g.last()]);
            } else {
                assert(g =~= seq![g.first()]);
            }
            assert(bucket_order(g, lifo) == seq![x]);
            assert(is_subseq_of(Seq::<T>::empty(), t2));
            lemma_subseq_cons(Seq::empty(), t2, x);
            assert(seq![x] + Seq::<T>::empty() =~= seq![x]);
        } else {
            assert(s.0 == gs.update(p, rest));
            assert(s.0[p] == rest);
            lemma_intra_bucket_order(s.0, s.1, lifo, p);
            if lifo {
                lemma_reverse_unfold(g);
            } else {
                assert(g =~= seq![g.first()] + g.drop_first());
            }
            assert(bucket_order(g, lifo) == seq![x] + bucket_order(rest, lifo));
            lemma_subseq_cons(bucket_order(rest, lifo), t2, x);
        }
    } else {
        let b2: int = if rest.len() > 0 {
            b
        } else if b == gs.len() - 1 {
            p
        } else {
            b
        };
        if rest.len() > 0 {
            assert(s.0 == gs.update(p, rest));
            assert(s.0[b2] == gs[b]);
        } else {
            assert(s.0 == swap_remove_seq(gs, p));
            if b == gs.len() - 1 {
                assert(p < gs.len() - 1);
                assert(s.0[b2] == gs[b]);
            } else {
                assert(s.0[b2] == gs[b]);
            }
        }
        lemma_intra_bucket_order(s.0, s.1, lifo, b2);
        lemma_subseq_skip(bucket_order(gs[b], lifo), t2, x);
    }
}

/// Fairness of the rotation: when the bucket just served survives and at
/// least one other bucket still has items, the very next pop serves a
/// different bucket — the served bucket keeps its slot and its remaining
/// items, and the cursor has moved off it. (A bucket drained by a pop leaves
/// the sequence in the same step, so it cannot be served again at all.)
pub proof fn lemma_no_consecutive_service<T>(gs: Seq<Seq<T>>, cur: nat, lifo: bool)
    requires
        wf_state(gs, cur),
        sum_len(gs) > 0,
    ensures
        ({
            let p = norm_cursor(gs, cur) as int;
            let s = pop_step(gs, cur, lifo);
            (bucket_drop(gs[p], lifo).len() > 0 && s.0.len() >= 2) ==> {
                &&& s.0[p] == bucket_drop(gs[p], lifo)
                &&& norm_cursor(s.0, s.1) != p
            }
        }),
{
    if gs.len() == 0 {
        assert(sum_len(gs) == 0);
    }
    let p = norm_cursor(gs, cur) as int;
    let rest = bucket_drop(gs[p], lifo);
    if rest.len() > 0 {
        let s0 = gs.update(p, rest);
        assert(0 <= (p + 1) % (s0.len() as int) < s0.len() as int) by {
            vstd::arithmetic::div_mod::lemma_mod_bound(p + 1, s0.len() as int);
        }
        if s0.len() >= 2 {
            if p + 1 < s0.len() {
                assert((p + 1) % (s0.len() as int) == p + 1) by {
                    vstd::arithmetic::div_mod::lemma_small_mod((p + 1) as nat, s0.len());
                }
            } else {
                assert((p + 1) % (s0.len() as int) == 0) by {
                    vstd::arithmetic::div_mod::lemma_mod_self_0(s0.len() as int);
                }
            }
        }
    }
}

/// Popping an empty container is the identity: it returns nothing and
/// leaves buckets and cursor exactly as they were, however often repeated.
pub proof fn lemma_pop_empty_identity<T>(gs: Seq<Seq<T>>, cur: nat, lifo: bool)
    requires
        sum_len(gs) == 0,
    ensures
        pop_step(gs, cur, lifo) == (gs, cur, None::<T>),
{
}

/// Peek/pop coherence: on a well-formed state, peeking returns exactly the
/// item the next pop returns.
pub proof fn lemma_peek_pop_agree<T>(gs: Seq<Seq<T>>, cur: nat, lifo: bool)
    requires
        wf_state(gs, cur),
    ensures
        peek_step(gs, cur, lifo) == pop_step(gs, cur, lifo).2,
{
    if gs.len() == 0 {
        assert(sum_len(gs) == 0);
    } else {
        lemma_sum_len_pos(gs);
    }
}

/// Walking the head sequence one bucket at a time: an empty bucket
/// contributes nothing, a non-empty one contributes its representative.
pub proof fn lemma_heads_unfold<T>(gs: Seq<Seq<T>>, i: int, lifo: bool)
    requires
        0 <= i < gs.len(),
    ensures
        gs[i].len() == 0 ==> heads(gs.skip(i), lifo) == heads(gs.skip(i + 1), lifo),
        gs[i].len() > 0 ==> {
            &&& heads(gs.skip(i), lifo).len() > 0
            &&& heads(gs.skip(i), lifo).first() == bucket_rep(gs[i], lifo)
            &&& heads(gs.skip(i), lifo).drop_first() == heads(gs.skip(i + 1), lifo)
        },
{
    let s = gs.skip(i);
    assert(s.first() == gs[i]);
    assert(s.drop_first() =~= gs.skip(i + 1));
    if gs[i].len() > 0 {
        assert((seq![bucket_rep(gs[i], lifo)] + heads(gs.skip(i + 1), lifo)).drop_first() =~= heads(
            gs.skip(i + 1),
            lifo,
        ));
    }
}

/// `find_first` returns -1 exactly when no bucket matches, and otherwise the
/// least matching index.
pub proof fn lemma_find_first<T>(gs: Seq<Seq<T>>, m: spec_fn(Seq<T>) -> bool)
    ensures
        find_first(gs, m) == -1 <==> (forall|j: int| 0 <= j < gs.len() ==> !m(#[trigger] gs[j])),
        find_first(gs, m) != -1 ==> {
            let r = find_first(gs, m);
            &&& 0 <= r < gs.len()
            &&& m(gs[r])
            &&& forall|j: int| 0 <= j < r ==> !m(#[trigger] gs[j])
        },
    decreases gs.len(),
{
    if gs.len() == 0 {
    } else if m(gs.first()) {
    } else {
        lemma_find_first(gs.drop_first(), m);
        assert(forall|j: int|
            1 <= j < gs.len() ==> #[trigger] gs[j] == gs.drop_first()[j - 1]);
    }
}

} // verus!
