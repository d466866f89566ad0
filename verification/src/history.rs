//! The per-client history: a fixed-capacity ring buffer that keeps the most
//! recently inserted entries, overwriting the oldest ring slot when full.
//! Snapshot order is slot order and carries no chronological meaning.

use vstd::prelude::*;

verus! {

/// The entries held in a sequence of ring slots, in slot order.
pub open spec fn occupied<T>(s: Seq<Option<T>>) -> Seq<T>
    decreases s.len(),
{
    if s.len() == 0 {
        Seq::empty()
    } else {
        match s.last() {
            Some(x) => occupied(s.drop_last()).push(x),
            None => occupied(s.drop_last()),
        }
    }
}

/// A ring of `k` empty slots.
pub open spec fn empty_slots<T>(k: int) -> Seq<Option<T>> {
    Seq::new(k as nat, |i: int| None::<T>)
}

/// One insertion, at the spec level: write the current slot, advance the
/// cursor modulo the capacity.
pub open spec fn put_spec<T>(s: Seq<Option<T>>, cur: int, e: T) -> (Seq<Option<T>>, int) {
    (s.update(cur, Some(e)), (cur + 1) % (s.len() as int))
}

/// A whole sequence of insertions, at the spec level.
pub open spec fn put_all<T>(s: Seq<Option<T>>, cur: int, es: Seq<T>) -> (Seq<Option<T>>, int)
    decreases es.len(),
{
    if es.len() == 0 {
        (s, cur)
    } else {
        let stepped = put_spec(s, cur, es[0]);
        put_all(stepped.0, stepped.1, es.skip(1))
    }
}

/// A fixed-capacity ring buffer. `data` always holds exactly the capacity's
/// worth of slots; `current` is the slot the next insertion overwrites.
pub struct CircularList<T> {
    data: Vec<Option<T>>,
    current: usize,
}

impl<T> CircularList<T> {
    /// The ring's slots.
    pub closed spec fn slots(&self) -> Seq<Option<T>> {
        self.data@
    }

    /// The slot the next insertion writes.
    pub closed spec fn cur(&self) -> int {
        self.current as int
    }

    pub open spec fn wf(&self) -> bool {
        self.slots().len() >= 1 && 0 <= self.cur() < self.slots().len()
    }
}

impl<T: Clone> CircularList<T> {
    /// A fresh ring of `len` empty slots.
    pub fn new(len: usize) -> (r: CircularList<T>)
        requires
            len >= 1,
        ensures
            r.wf(),
            r.cur() == 0,
            r.slots() == empty_slots::<T>(len as int),
    {
        let mut l = CircularList { data: Vec::with_capacity(len), current: 0 };
        let mut i: usize = 0;
        while i < len
            invariant
                i <= len,
                l.current == 0,
                l.data@ =~= Seq::new(i as nat, |j: int| None::<T>),
            decreases len - i,
        {
            l.data.push(None);
            i = i + 1;
        }
        proof {
            assert(l.data@ =~= empty_slots::<T>(len as int));
        }
        l
    }

    /// The entry in the slot the cursor points at, if that slot is occupied.
    pub fn get(&self) -> (r: Option<&T>)
        requires
            self.wf(),
        ensures
            r is Some <==> self.slots()[self.cur()] is Some,
            r matches Some(x) ==> self.slots()[self.cur()] == Some(*x),
    {
        if let Some(ref x) = self.data[self.current] {
            Some(x)
        } else {
            None
        }
    }

    /// Inserts an entry: writes the current slot (overwriting any occupant)
    /// and advances the cursor.
    pub fn put(&mut self, data: T)
        requires
            old(self).wf(),
        ensures
            final(self).wf(),
            (final(self).slots(), final(self).cur()) == put_spec(
                old(self).slots(),
                old(self).cur(),
                data,
            ),
    {
        let idx = self.current;
        self.data.set(idx, Some(data));
        self.next();
        proof {
            if old(self).cur() + 1 == old(self).slots().len() {
                vstd::arithmetic::div_mod::lemma_mod_self_0(old(self).slots().len() as int);
            } else {
                vstd::arithmetic::div_mod::lemma_small_mod(
                    (old(self).cur() + 1) as nat,
                    old(self).slots().len() as nat,
                );
            }
        }
    }

    /// Advances the cursor one slot, wrapping at the capacity.
    pub fn next(&mut self)
        requires
            old(self).wf(),
        ensures
            final(self).slots() == old(self).slots(),
            final(self).cur() == if old(self).cur() + 1 == old(self).slots().len() {
                0int
            } else {
                old(self).cur() + 1
            },
            final(self).wf(),
    {
        let n = self.data.len();
        self.current = self.current + 1;
        if self.current == n {
            self.current = 0;
        }
    }

    /// The ring's capacity.
    pub fn len(&self) -> (r: usize)
        ensures
            r == self.slots().len(),
    {
        self.data.len()
    }

    /// A snapshot: clones of all occupied slots, in slot order. Consumers
    /// must not read chronology into this order.
    pub fn get_all(&self) -> (r: Vec<T>)
        requires
            self.wf(),
        ensures
            r@.len() == occupied(self.slots()).len(),
            forall|j: int|
                0 <= j < r@.len() ==> cloned::<T>(occupied(self.slots())[j], #[trigger] r@[j]),
    {
        let mut vec: Vec<T> = Vec::new();
        let mut i: usize = 0;
        while i < self.data.len()
            invariant
                i <= self.data@.len(),
                vec@.len() == occupied(self.data@.subrange(0, i as int)).len(),
                forall|j: int|
                    0 <= j < vec@.len() ==> cloned::<T>(
                        occupied(self.data@.subrange(0, i as int))[j],
                        #[trigger] vec@[j],
                    ),
            decreases self.data@.len() - i,
        {
            let ghost pre = self.data@.subrange(0, i as int);
            let ghost post = self.data@.subrange(0, i + 1int);
            proof {
                assert(post.drop_last() =~= pre);
            }
            match &self.data[i] {
                Some(x) => {
                    vec.push(x.clone());
                },
                None => {},
            }
            i = i + 1;
        }
        proof {
            assert(self.data@.subrange(0, self.data@.len() as int) =~= self.data@);
        }
        vec
    }
}

/// A snapshot never holds more entries than the ring has slots: the bounded
/// memory invariant of a history.
pub proof fn lemma_occupied_len<T>(s: Seq<Option<T>>)
    ensures
        occupied(s).len() <= s.len(),
    decreases s.len(),
{
    if s.len() > 0 {
        lemma_occupied_len(s.drop_last());
    }
}

/// Filling empty slots left to right: inserting `es` into a ring whose first
/// `filled.len()` slots hold `filled` extends the filled region, as long as
/// nothing wraps.
proof fn lemma_fill<T>(k: int, filled: Seq<T>, es: Seq<T>)
    requires
        k >= 1,
        filled.len() + es.len() <= k,
    ensures
        put_all(filled_slots(k, filled), filled.len() as int, es).0 == filled_slots(
            k,
            filled + es,
        ),
        es.len() > 0 ==> put_all(filled_slots(k, filled), filled.len() as int, es).1 == ((
        filled.len() + es.len()) as int) % k,
        es.len() == 0 ==> put_all(filled_slots(k, filled), filled.len() as int, es).1
            == filled.len(),
    decreases es.len(),
{
    if es.len() == 0 {
        assert(filled + es =~= filled);
    } else {
        let stepped = put_spec(filled_slots(k, filled), filled.len() as int, es[0]);
        assert(stepped.0 =~= filled_slots(k, filled.push(es[0])));
        if filled.len() + 1 == k {
            // the requires force this to be the last insertion
            assert(es.len() == 1);
            vstd::arithmetic::div_mod::lemma_mod_self_0(k);
            assert(es.skip(1).len() == 0);
            assert(put_all(stepped.0, stepped.1, es.skip(1)) == (stepped.0, stepped.1));
            assert(filled.push(es[0]) =~= filled + es);
        } else {
            vstd::arithmetic::div_mod::lemma_small_mod((filled.len() + 1) as nat, k as nat);
            assert(stepped.1 == filled.len() + 1);
            lemma_fill(k, filled.push(es[0]), es.skip(1));
            assert(filled.push(es[0]) + es.skip(1) =~= filled + es);
            if es.len() == 1 {
                assert(put_all(filled_slots(k, filled), filled.len() as int, es).1 == filled.len()
                    + 1);
            }
        }
    }
}

/// A ring whose first `xs.len()` slots hold `xs` and whose remaining slots
/// are empty.
pub open spec fn filled_slots<T>(k: int, xs: Seq<T>) -> Seq<Option<T>> {
    Seq::new(
        k as nat,
        |i: int|
            if i < xs.len() {
                Some(xs[i])
            } else {
                None
            },
    )
}

/// The occupied entries of a fully occupied ring are the slots' contents.
proof fn lemma_occupied_all_some<T>(s: Seq<Option<T>>, xs: Seq<T>)
    requires
        s.len() == xs.len(),
        forall|i: int| 0 <= i < s.len() ==> s[i] == Some(xs[i]),
    ensures
        occupied(s) == xs,
    decreases s.len(),
{
    if s.len() == 0 {
        assert(occupied(s) =~= xs);
    } else {
        lemma_occupied_all_some(s.drop_last(), xs.drop_last());
        assert(s.last() == Some(xs.last()));
        assert(occupied(s) =~= occupied(s.drop_last()).push(xs.last()));
        assert(occupied(s) =~= xs);
    }
}

/// Bounded history: inserting `K + 1` entries into a fresh ring of capacity
/// `K` leaves exactly `K` occupied slots, holding exactly the last `K`
/// inserted entries (the first inserted entry is gone). Slot order is not
/// chronological, so the statement is about the multiset of entries.
pub proof fn lemma_bounded_history<T>(k: int, es: Seq<T>)
    requires
        k >= 1,
        es.len() == k + 1,
    ensures
        occupied(put_all(empty_slots::<T>(k), 0, es).0).len() == k,
        occupied(put_all(empty_slots::<T>(k), 0, es).0).to_multiset() == es.skip(1).to_multiset(),
{
    let first = es.take(k);
    let rest = es.skip(k);
    lemma_put_all_app(empty_slots::<T>(k), 0, first, es.skip(k));
    assert(first + es.skip(k) =~= es);
    assert(empty_slots::<T>(k) =~= filled_slots(k, Seq::<T>::empty()));
    assert(Seq::<T>::empty() + first =~= first);
    lemma_fill(k, Seq::<T>::empty(), first);
    vstd::arithmetic::div_mod::lemma_mod_self_0(k);
    let full = filled_slots(k, first);
    let after = put_all(full, 0, es.skip(k));
    assert(es.skip(k) =~= seq![es[k as int]]);
    assert(es.skip(k).skip(1) =~= Seq::<T>::empty());
    let stepped = put_spec(full, 0, es[k as int]);
    assert(after == put_all(stepped.0, stepped.1, es.skip(k).skip(1)));
    assert(after.0 == stepped.0);
    let final_slots = stepped.0;
    let contents = Seq::new(
        k as nat,
        |i: int|
            if i == 0 {
                es[k as int]
            } else {
                es[i]
            },
    );
    assert forall|i: int| 0 <= i < final_slots.len() implies final_slots[i] == Some(
        contents[i],
    ) by {}
    lemma_occupied_all_some(final_slots, contents);
    assert(contents =~= seq![es[k as int]] + es.subrange(1, k));
    assert(es.skip(1) =~= es.subrange(1, k) + seq![es[k as int]]);
    broadcast use vstd::multiset::group_multiset_axioms;

    vstd::seq_lib::lemma_multiset_commutative(seq![es[k as int]], es.subrange(1, k));
    vstd::seq_lib::lemma_multiset_commutative(es.subrange(1, k), seq![es[k as int]]);
    assert(seq![es[k as int]].to_multiset().add(es.subrange(1, k).to_multiset()) =~= es.subrange(
        1,
        k,
    ).to_multiset().add(seq![es[k as int]].to_multiset()));
}

/// Insertions compose: inserting `a + b` is inserting `a`, then `b`.
pub proof fn lemma_put_all_app<T>(s: Seq<Option<T>>, cur: int, a: Seq<T>, b: Seq<T>)
    ensures
        put_all(s, cur, a + b) == put_all(put_all(s, cur, a).0, put_all(s, cur, a).1, b),
    decreases a.len(),
{
    if a.len() == 0 {
        assert(a + b =~= b);
    } else {
        let stepped = put_spec(s, cur, a[0]);
        assert((a + b)[0] == a[0]);
        assert((a + b).skip(1) =~= a.skip(1) + b);
        lemma_put_all_app(stepped.0, stepped.1, a.skip(1), b);
    }
}

/// After any number of insertions into a fresh ring of capacity `K`, the
/// snapshot holds exactly `min(inserted, K)` entries.
pub proof fn lemma_history_count<T>(k: int, es: Seq<T>)
    requires
        k >= 1,
    ensures
        occupied(put_all(empty_slots::<T>(k), 0, es).0).len() == if es.len() <= k {
            es.len() as int
        } else {
            k
        },
{
    if es.len() <= k {
        assert(empty_slots::<T>(k) =~= filled_slots(k, Seq::<T>::empty()));
        lemma_fill(k, Seq::<T>::empty(), es);
        assert(Seq::<T>::empty() + es =~= es);
        lemma_occupied_filled(k, es);
    } else {
        let first = es.take(k);
        lemma_put_all_app(empty_slots::<T>(k), 0, first, es.skip(k));
        assert(first + es.skip(k) =~= es);
        assert(empty_slots::<T>(k) =~= filled_slots(k, Seq::<T>::empty()));
        lemma_fill(k, Seq::<T>::empty(), first);
        assert(Seq::<T>::empty() + first =~= first);
        vstd::arithmetic::div_mod::lemma_mod_self_0(k);
        let full = filled_slots(k, first);
        lemma_put_all_full(full, 0, es.skip(k));
        let after = put_all(full, 0, es.skip(k));
        let witness = Seq::new(k as nat, |i: int| after.0[i]->Some_0);
        assert forall|i: int| 0 <= i < after.0.len() implies after.0[i] == Some(witness[i]) by {}
        lemma_occupied_all_some(after.0, witness);
    }
}

/// Once every slot is occupied, further insertions keep every slot occupied
/// (and the ring's size).
proof fn lemma_put_all_full<T>(s: Seq<Option<T>>, cur: int, es: Seq<T>)
    requires
        s.len() >= 1,
        0 <= cur < s.len(),
        forall|i: int| 0 <= i < s.len() ==> #[trigger] s[i] is Some,
    ensures
        put_all(s, cur, es).0.len() == s.len(),
        forall|i: int| 0 <= i < s.len() ==> #[trigger] put_all(s, cur, es).0[i] is Some,
        0 <= put_all(s, cur, es).1 < s.len(),
    decreases es.len(),
{
    if es.len() > 0 {
        let stepped = put_spec(s, cur, es[0]);
        vstd::arithmetic::div_mod::lemma_mod_bound(cur + 1, s.len() as int);
        lemma_put_all_full(stepped.0, stepped.1, es.skip(1));
    }
}

/// The occupied entries of a left-filled ring are exactly the filled prefix.
proof fn lemma_occupied_filled<T>(k: int, xs: Seq<T>)
    requires
        0 <= xs.len() <= k,
    ensures
        occupied(filled_slots(k, xs)) == xs,
    decreases k,
{
    let s = filled_slots(k, xs);
    if k == 0 {
        assert(occupied(s) =~= xs);
    } else if xs.len() == k {
        lemma_occupied_all_some(s, xs);
    } else {
        assert(s.last() is None);
        assert(s.drop_last() =~= filled_slots(k - 1, xs));
        lemma_occupied_filled(k - 1, xs);
    }
}

} // verus!
