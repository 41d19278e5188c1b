//! The subscription registry: per-category buckets of subscriptions, the
//! occupied-category list, registration and unregistration, and the two
//! dispatch strategies with batched removal of dead subscriptions.

use vstd::prelude::*;

use crate::body::{fire_one, slot_dead, slot_live, BodyRef, BodySlot, BodyStore, CBFn};
use crate::event::{State, C, V};

verus! {

/// A subscription: a category together with a non-owning reference to a
/// subscriber-owned callback body. Immutable once constructed.
#[derive(Clone, Copy)]
pub struct CB {
    c: C,
    cb: BodyRef,
}

impl CB {
    /// The category this subscription is registered under.
    pub closed spec fn cat(self) -> C {
        self.c
    }

    /// The body store slot its callback body lives in.
    pub closed spec fn bref(self) -> int {
        self.cb.index()
    }

    /// Bind a category to a reference to a callback body.
    pub fn new(c: C, cb: BodyRef) -> (r: CB)
        ensures
            r.cat() == c,
            r.bref() == cb.index(),
    {
        CB { c, cb }
    }

    /// Whether the subscriber has released the callback body this
    /// subscription refers to.
    pub fn dead<B>(&self, store: &BodyStore<B>) -> (d: bool)
        ensures
            d == slot_dead(store.slots(), self.bref()),
    {
        store.is_dead(self.cb)
    }

    /// Attempt to invoke the callback body once with `(s, v)`. A dead
    /// reference (the subscriber released the body) reports `Err` and
    /// invokes nothing; a poisoned body is a successful no-op; otherwise the
    /// body is invoked exactly once.
    pub fn call<S, B: CBFn<S>>(&self, store: &mut BodyStore<B>, s: &S, v: &V) -> (r: Result<
        (),
        (),
    >)
        ensures
            final(store).slots() == fire_one(old(store).slots(), self.bref(), *s, *v),
            r is Ok <==> !slot_dead(old(store).slots(), self.bref()),
    {
        store.invoke(self.cb, s, v)
    }
}

/// A registry entry: one subscription wrapped with a unique identity token,
/// owned by the bucket of its category.
#[derive(Clone, Copy)]
pub struct RegEntry {
    /// Identity token, unique across the whole registry and never reused.
    pub id: u64,
    /// The subscription this entry owns.
    pub sub: CB,
}

/// A weak, non-owning handle to a registry entry, handed to the caller at
/// registration and used for unregistration. Once the entry is removed the
/// handle no longer resolves, and using it is a silent no-op.
#[derive(Clone, Copy)]
pub struct RegHandle {
    c: C,
    id: u64,
}

impl RegHandle {
    /// The category of the entry this handle was created for.
    pub closed spec fn cat(self) -> C {
        self.c
    }

    /// The identity token of the entry this handle was created for.
    pub closed spec fn id(self) -> u64 {
        self.id
    }
}

struct Bucket {
    c: C,
    entries: Vec<RegEntry>,
}

/// The registry: per-category buckets of entries and the list of categories
/// that currently have at least one entry.
pub struct Manager {
    occupied: Vec<C>,
    buckets: Vec<Bucket>,
    next_id: u64,
}

spec fn find_bucket(bs: Seq<Bucket>, c: C) -> Option<Seq<RegEntry>>
    decreases bs.len(),
{
    if bs.len() == 0 {
        None
    } else if bs[0].c == c {
        Some(bs[0].entries@)
    } else {
        find_bucket(bs.drop_first(), c)
    }
}

proof fn lemma_find_none_iff(bs: Seq<Bucket>, c: C)
    ensures
        (find_bucket(bs, c) is None) <==> (forall|j: int| 0 <= j < bs.len() ==> bs[j].c != c),
    decreases bs.len(),
{
    if bs.len() > 0 && bs[0].c != c {
        lemma_find_none_iff(bs.drop_first(), c);
        assert forall|j: int| 0 <= j < bs.len() && bs[j].c == c implies find_bucket(bs, c)
            is Some by {
            assert(bs.drop_first()[j - 1] == bs[j]);
        }
    }
}

proof fn lemma_find_at(bs: Seq<Bucket>, c: C, j: int)
    requires
        0 <= j < bs.len(),
        bs[j].c == c,
        forall|i: int| 0 <= i < j ==> bs[i].c != c,
    ensures
        find_bucket(bs, c) == Some(bs[j].entries@),
    decreases j,
{
    if j > 0 {
        lemma_find_at(bs.drop_first(), c, j - 1);
    }
}

proof fn lemma_find_witness(bs: Seq<Bucket>, c: C) -> (j: int)
    requires
        find_bucket(bs, c) is Some,
    ensures
        0 <= j < bs.len(),
        bs[j].c == c,
        find_bucket(bs, c) == Some(bs[j].entries@),
    decreases bs.len(),
{
    if bs[0].c == c {
        0
    } else {
        let j = lemma_find_witness(bs.drop_first(), c);
        j + 1
    }
}

proof fn lemma_find_push(bs: Seq<Bucket>, b: Bucket, c: C)
    ensures
        find_bucket(bs.push(b), c) == if find_bucket(bs, c) is Some {
            find_bucket(bs, c)
        } else if b.c == c {
            Some(b.entries@)
        } else {
            None
        },
    decreases bs.len(),
{
    if bs.len() == 0 {
        assert(bs =~= Seq::<Bucket>::empty());
        assert(find_bucket(Seq::<Bucket>::empty(), c) is None);
        assert(bs.push(b)[0] == b);
        assert(bs.push(b).drop_first() =~= Seq::<Bucket>::empty());
    } else {
        assert(bs.push(b)[0] == bs[0]);
        assert(bs.push(b).drop_first() =~= bs.drop_first().push(b));
        lemma_find_push(bs.drop_first(), b, c);
    }
}

proof fn lemma_find_update(bs: Seq<Bucket>, j: int, b2: Bucket, c: C)
    requires
        0 <= j < bs.len(),
        b2.c == bs[j].c,
        forall|i: int| 0 <= i < j ==> bs[i].c != bs[j].c,
    ensures
        c == bs[j].c ==> find_bucket(bs.update(j, b2), c) == Some(b2.entries@),
        c != bs[j].c ==> find_bucket(bs.update(j, b2), c) == find_bucket(bs, c),
    decreases j,
{
    if j == 0 {
        if b2.c != c {
            assert(bs.update(0, b2).drop_first() =~= bs.drop_first());
        }
    } else {
        assert(bs.update(j, b2)[0] == bs[0]);
        assert(bs.update(j, b2).drop_first() =~= bs.drop_first().update(j - 1, b2));
        lemma_find_update(bs.drop_first(), j - 1, b2, c);
    }
}

/// The entries of `es` whose callback body is still resolvable in `slots`:
/// what a dispatch pass keeps after pruning the dead ones.
pub open spec fn keep_live<B>(es: Seq<RegEntry>, slots: Seq<BodySlot<B>>) -> Seq<RegEntry>
    decreases es.len(),
{
    if es.len() == 0 {
        Seq::empty()
    } else if slot_dead(slots, es.last().sub.bref()) {
        keep_live(es.drop_last(), slots)
    } else {
        keep_live(es.drop_last(), slots).push(es.last())
    }
}

/// The entries of `es` except those carrying identity token `id`.
pub open spec fn remove_id(es: Seq<RegEntry>, id: u64) -> Seq<RegEntry>
    decreases es.len(),
{
    if es.len() == 0 {
        Seq::empty()
    } else if es.last().id == id {
        remove_id(es.drop_last(), id)
    } else {
        remove_id(es.drop_last(), id).push(es.last())
    }
}

/// Whether some entry of `es` carries identity token `id`.
pub open spec fn contains_id(es: Seq<RegEntry>, id: u64) -> bool {
    exists|k: int| 0 <= k < es.len() && es[k].id == id
}

proof fn lemma_keep_live_props<B>(es: Seq<RegEntry>, slots: Seq<BodySlot<B>>)
    ensures
        keep_live(es, slots).len() <= es.len(),
        forall|k: int|
            0 <= k < keep_live(es, slots).len() ==> es.contains(#[trigger] keep_live(es, slots)[k])
                && !slot_dead(slots, (keep_live(es, slots)[k]).sub.bref()),
        forall|j: int|
            0 <= j < es.len() && !slot_dead(slots, (#[trigger] es[j]).sub.bref()) ==> keep_live(
                es,
                slots,
            ).contains(es[j]),
        (forall|k1: int, k2: int| 0 <= k1 < k2 < es.len() ==> (es[k1]).id != (es[k2]).id) ==> (
        forall|k1: int, k2: int|
            0 <= k1 < k2 < keep_live(es, slots).len() ==> (keep_live(es, slots)[k1]).id != (
            keep_live(es, slots)[k2]).id),
    decreases es.len(),
{
    if es.len() > 0 {
        let de = es.drop_last();
        let last = es.last();
        lemma_keep_live_props(de, slots);
        let f = keep_live(es, slots);
        let df = keep_live(de, slots);
        assert forall|k: int| 0 <= k < f.len() implies es.contains(#[trigger] f[k]) && !slot_dead(
            slots,
            (f[k]).sub.bref(),
        ) by {
            if k < df.len() {
                assert(de.contains(df[k]));
                let idx = choose|idx: int| 0 <= idx < de.len() && de[idx] == df[k];
                assert(es[idx] == df[k]);
            } else {
                assert(es[es.len() - 1] == last);
            }
        }
        assert forall|j: int|
            0 <= j < es.len() && !slot_dead(slots, (#[trigger] es[j]).sub.bref()) implies f
            .contains(es[j]) by {
            if j < es.len() - 1 {
                assert(de[j] == es[j]);
                assert(df.contains(es[j]));
                let k = choose|k: int| 0 <= k < df.len() && df[k] == es[j];
                assert(f[k] == es[j]);
            } else {
                assert(f[f.len() - 1] == last);
            }
        }
        if forall|k1: int, k2: int| 0 <= k1 < k2 < es.len() ==> (es[k1]).id != (es[k2]).id {
            assert(forall|k1: int, k2: int|
                0 <= k1 < k2 < de.len() ==> (de[k1]).id != (de[k2]).id);
            assert forall|k1: int, k2: int| 0 <= k1 < k2 < f.len() implies (f[k1]).id != (
            f[k2]).id by {
                if k2 >= df.len() {
                    assert(de.contains(df[k1]));
                    let idx = choose|idx: int| 0 <= idx < de.len() && de[idx] == df[k1];
                    assert((es[idx]).id != (es[es.len() - 1]).id);
                }
            }
        }
    }
}

proof fn lemma_remove_id_props(es: Seq<RegEntry>, id: u64)
    ensures
        remove_id(es, id).len() <= es.len(),
        forall|k: int|
            0 <= k < remove_id(es, id).len() ==> es.contains(#[trigger] remove_id(es, id)[k]) && (
            remove_id(es, id)[k]).id != id,
        forall|j: int|
            0 <= j < es.len() && (#[trigger] es[j]).id != id ==> remove_id(es, id).contains(es[j]),
        (forall|k1: int, k2: int| 0 <= k1 < k2 < es.len() ==> (es[k1]).id != (es[k2]).id) ==> (
        forall|k1: int, k2: int|
            0 <= k1 < k2 < remove_id(es, id).len() ==> (remove_id(es, id)[k1]).id != (remove_id(
                es,
                id,
            )[k2]).id),
        !contains_id(es, id) ==> remove_id(es, id) == es,
    decreases es.len(),
{
    if es.len() == 0 {
        assert(remove_id(es, id) =~= es);
    } else {
        let de = es.drop_last();
        let last = es.last();
        lemma_remove_id_props(de, id);
        let f = remove_id(es, id);
        let df = remove_id(de, id);
        assert forall|k: int| 0 <= k < f.len() implies es.contains(#[trigger] f[k]) && (
        f[k]).id != id by {
            if k < df.len() {
                assert(de.contains(df[k]));
                let idx = choose|idx: int| 0 <= idx < de.len() && de[idx] == df[k];
                assert(es[idx] == df[k]);
            } else {
                assert(es[es.len() - 1] == last);
            }
        }
        assert forall|j: int| 0 <= j < es.len() && (#[trigger] es[j]).id != id implies f.contains(
            es[j],
        ) by {
            if j < es.len() - 1 {
                assert(de[j] == es[j]);
                assert(df.contains(es[j]));
                let k = choose|k: int| 0 <= k < df.len() && df[k] == es[j];
                assert(f[k] == es[j]);
            } else {
                assert(f[f.len() - 1] == last);
            }
        }
        if forall|k1: int, k2: int| 0 <= k1 < k2 < es.len() ==> (es[k1]).id != (es[k2]).id {
            assert(forall|k1: int, k2: int|
                0 <= k1 < k2 < de.len() ==> (de[k1]).id != (de[k2]).id);
            assert forall|k1: int, k2: int| 0 <= k1 < k2 < f.len() implies (f[k1]).id != (
            f[k2]).id by {
                if k2 >= df.len() {
                    assert(de.contains(df[k1]));
                    let idx = choose|idx: int| 0 <= idx < de.len() && de[idx] == df[k1];
                    assert((es[idx]).id != (es[es.len() - 1]).id);
                }
            }
        }
        if !contains_id(es, id) {
            assert(forall|j: int| 0 <= j < de.len() ==> (de[j]).id != id);
            assert(!contains_id(de, id));
            assert((es[es.len() - 1]).id != id);
            assert(f =~= es);
        }
    }
}

impl Manager {
    /// The categories currently occupied, in storage order.
    pub closed spec fn occupied(self) -> Seq<C> {
        self.occupied@
    }

    /// The entries of the bucket for `c`, or `None` when no bucket for `c`
    /// exists.
    pub closed spec fn bucket(self, c: C) -> Option<Seq<RegEntry>> {
        find_bucket(self.buckets@, c)
    }

    /// The entries registered under `c` (empty when no bucket exists).
    pub open spec fn bucket_or_empty(self, c: C) -> Seq<RegEntry> {
        match self.bucket(c) {
            Some(b) => b,
            None => Seq::empty(),
        }
    }

    /// The next identity token to be handed out.
    pub closed spec fn next_id(self) -> u64 {
        self.next_id
    }

    /// Whether `c` is in the occupied list.
    pub open spec fn occupies(self, c: C) -> bool {
        self.occupied().contains(c)
    }

    spec fn cats_distinct(self) -> bool {
        forall|i: int, j: int|
            0 <= i < j < self.buckets@.len() ==> self.buckets@[i].c != self.buckets@[j].c
    }

    spec fn occ_distinct(self) -> bool {
        forall|i: int, j: int|
            0 <= i < j < self.occupied@.len() ==> self.occupied@[i] != self.occupied@[j]
    }

    spec fn occ_sound(self) -> bool {
        forall|k: int|
            0 <= k < self.occupied@.len() ==> #[trigger] self.bucket_or_empty(
                self.occupied@[k],
            ).len() > 0
    }

    spec fn occ_complete(self) -> bool {
        forall|j: int|
            0 <= j < self.buckets@.len() && #[trigger] self.buckets@[j].entries@.len() > 0
                ==> self.occupied@.contains(self.buckets@[j].c)
    }

    spec fn entries_routed(self) -> bool {
        forall|j: int, k: int|
            0 <= j < self.buckets@.len() && 0 <= k < self.buckets@[j].entries@.len()
                ==> (#[trigger] self.buckets@[j].entries@[k]).sub.cat() == self.buckets@[j].c
    }

    spec fn ids_unique(self) -> bool {
        forall|j1: int, k1: int, j2: int, k2: int|
            0 <= j1 < self.buckets@.len() && 0 <= k1 < self.buckets@[j1].entries@.len() && 0 <= j2
                < self.buckets@.len() && 0 <= k2 < self.buckets@[j2].entries@.len() && (#[trigger] self.buckets@[j1].entries@[k1]).id
                == (#[trigger] self.buckets@[j2].entries@[k2]).id ==> j1 == j2 && k1 == k2
    }

    spec fn ids_bounded(self) -> bool {
        forall|j: int, k: int|
            0 <= j < self.buckets@.len() && 0 <= k < self.buckets@[j].entries@.len()
                ==> (#[trigger] self.buckets@[j].entries@[k]).id < self.next_id
    }

    /// Well-formedness of the registry: bucket categories are distinct, a
    /// category is occupied exactly when its bucket is non-empty, every
    /// entry sits in the bucket of its own category, and identity tokens
    /// are unique and below the allocation counter.
    pub closed spec fn wf(self) -> bool {
        &&& self.cats_distinct()
        &&& self.occ_distinct()
        &&& self.occ_sound()
        &&& self.occ_complete()
        &&& self.entries_routed()
        &&& self.ids_unique()
        &&& self.ids_bounded()
    }

    /// An empty registry.
    pub fn new() -> (m: Manager)
        ensures
            m.wf(),
            m.occupied() =~= Seq::<C>::empty(),
            forall|c: C| m.bucket(c) is None,
            m.next_id() == 0,
    {
        let m = Manager { occupied: Vec::new(), buckets: Vec::new(), next_id: 0 };
        proof {
            assert(forall|c: C| m.bucket(c) is None) by {
                assert(forall|c: C| find_bucket(Seq::<Bucket>::empty(), c) is None);
                assert(m.buckets@ =~= Seq::<Bucket>::empty());
            }
        }
        m
    }

    /// Whether category `c` is currently occupied, that is, has at least
    /// one registered subscription.
    pub fn occupied_contains(&self, c: C) -> (r: bool)
        ensures
            r == self.occupies(c),
    {
        cat_in(&self.occupied, c)
    }

    /// How many categories are currently occupied.
    pub fn occupied_count(&self) -> (n: usize)
        ensures
            n == self.occupied().len(),
    {
        self.occupied.len()
    }

    /// How many subscriptions are registered under `c`.
    pub fn bucket_len(&self, c: C) -> (n: usize)
        ensures
            n == self.bucket_or_empty(c).len(),
    {
        let found = self.find_idx(c);
        match found {
            Some(i) => self.buckets[i].entries.len(),
            None => 0,
        }
    }

    /// Find the position of the bucket for `c`, if one exists.
    fn find_idx(&self, c: C) -> (r: Option<usize>)
        ensures
            match r {
                Some(i) => 0 <= i < self.buckets@.len() && self.buckets@[i as int].c == c
                    && self.bucket(c) == Some(self.buckets@[i as int].entries@) && (forall|j: int|
                    0 <= j < i ==> self.buckets@[j].c != c),
                None => self.bucket(c) is None,
            },
    {
        proof {
            assert(self.buckets@.skip(0) =~= self.buckets@);
        }
        let mut i: usize = 0;
        while i < self.buckets.len()
            invariant
                i <= self.buckets@.len(),
                forall|j: int| 0 <= j < i ==> self.buckets@[j].c != c,
                find_bucket(self.buckets@, c) == find_bucket(self.buckets@.skip(i as int), c),
            decreases self.buckets@.len() - i,
        {
            proof {
                assert(self.buckets@.skip(i as int).drop_first() =~= self.buckets@.skip(i + 1));
                assert(self.buckets@.skip(i as int)[0] == self.buckets@[i as int]);
            }
            let b = &self.buckets[i];
            if b.c == c {
                return Some(i);
            }
            i = i + 1;
        }
        proof {
            assert(self.buckets@.skip(i as int) =~= Seq::<Bucket>::empty());
        }
        None
    }

    /// `c` cannot be occupied while its bucket is empty or missing.
    proof fn lemma_not_occupied_when_empty(self, c: C)
        requires
            self.occ_sound(),
            self.bucket_or_empty(c).len() == 0,
        ensures
            !self.occupies(c),
    {
        if self.occupied@.contains(c) {
            let k = choose|k: int| 0 <= k < self.occupied@.len() && self.occupied@[k] == c;
            assert(self.bucket_or_empty(self.occupied@[k]).len() > 0);
        }
    }

    /// Register a subscription: ensure its category's bucket exists, append
    /// a fresh entry wrapping the subscription, and return a weak handle to
    /// that entry. Always succeeds; the occupied list gains the category
    /// exactly when its bucket was previously empty or missing.
    pub fn register(&mut self, cb: CB) -> (h: RegHandle)
        requires
            old(self).wf(),
            old(self).next_id() < u64::MAX,
        ensures
            final(self).wf(),
            h.cat() == cb.cat(),
            h.id() == old(self).next_id(),
            final(self).next_id() == old(self).next_id() + 1,
            final(self).bucket(cb.cat()) == Some(
                old(self).bucket_or_empty(cb.cat()).push(
                    RegEntry { id: old(self).next_id(), sub: cb },
                ),
            ),
            forall|c2: C| c2 != cb.cat() ==> final(self).bucket(c2) == old(self).bucket(c2),
    {
        let c = cb.c;
        let id = self.next_id;
        let entry = RegEntry { id, sub: cb };
        let found = self.find_idx(c);
        match found {
            None => {
                proof {
                    old(self).lemma_not_occupied_when_empty(c);
                    lemma_find_none_iff(old(self).buckets@, c);
                }
                self.occupied.push(c);
                let mut es: Vec<RegEntry> = Vec::new();
                es.push(entry);
                self.buckets.push(Bucket { c, entries: es });
                self.next_id = id + 1;
                proof {
                    let m0 = *old(self);
                    let newb = self.buckets@.last();
                    assert(self.buckets@ == m0.buckets@.push(newb));
                    assert(newb.entries@ =~= Seq::<RegEntry>::empty().push(entry));
                    assert forall|c2: C| #[trigger]
                        find_bucket(self.buckets@, c2) == if c2 == c {
                            Some(newb.entries@)
                        } else {
                            find_bucket(m0.buckets@, c2)
                        } by {
                        lemma_find_push(m0.buckets@, newb, c2);
                    }
                    assert(self.bucket(c) == Some(
                        m0.bucket_or_empty(c).push(RegEntry { id: m0.next_id(), sub: cb }),
                    ));
                    assert forall|k: int| 0 <= k < self.occupied@.len() implies #[trigger] self
                        .bucket_or_empty(self.occupied@[k]).len() > 0 by {
                        if k < m0.occupied@.len() {
                            assert(m0.bucket_or_empty(m0.occupied@[k]).len() > 0);
                            if self.occupied@[k] == c {
                                assert(m0.occupied@.contains(c));
                            }
                        } else {
                            assert(self.occupied@[k] == c);
                        }
                    }
                    assert forall|j: int|
                        0 <= j < self.buckets@.len() && #[trigger] self.buckets@[j].entries@.len()
                            > 0 implies self.occupied@.contains(self.buckets@[j].c) by {
                        if j < m0.buckets@.len() {
                            assert(m0.occupied@.contains(self.buckets@[j].c));
                            let ghost bjc = self.buckets@[j].c;
                            let k = choose|k: int|
                                0 <= k < m0.occupied@.len() && m0.occupied@[k] == bjc;
                            assert(self.occupied@[k] == bjc);
                        } else {
                            assert(self.occupied@[self.occupied@.len() - 1] == c);
                        }
                    }
                    assert(self.wf());
                }
            },
            Some(i) => {
                let mut b = self.buckets.remove(i);
                let ghost oldes = b.entries@;
                if b.entries.len() == 0 {
                    proof {
                        old(self).lemma_not_occupied_when_empty(c);
                    }
                    self.occupied.push(c);
                }
                b.entries.push(entry);
                self.buckets.insert(i, b);
                self.next_id = id + 1;
                proof {
                    let m0 = *old(self);
                    let newb = self.buckets@[i as int];
                    assert(self.buckets@ =~= m0.buckets@.update(i as int, newb));
                    assert(newb.entries@ == oldes.push(entry));
                    assert forall|c2: C| #[trigger]
                        find_bucket(self.buckets@, c2) == if c2 == c {
                            Some(newb.entries@)
                        } else {
                            find_bucket(m0.buckets@, c2)
                        } by {
                        lemma_find_update(m0.buckets@, i as int, newb, c2);
                    }
                    assert(self.bucket(c) == Some(
                        m0.bucket_or_empty(c).push(RegEntry { id: m0.next_id(), sub: cb }),
                    ));
                    assert forall|k: int| 0 <= k < self.occupied@.len() implies #[trigger] self
                        .bucket_or_empty(self.occupied@[k]).len() > 0 by {
                        if k < m0.occupied@.len() {
                            assert(m0.bucket_or_empty(m0.occupied@[k]).len() > 0);
                        } else {
                            assert(self.occupied@[k] == c);
                        }
                    }
                    assert forall|j: int|
                        0 <= j < self.buckets@.len() && #[trigger] self.buckets@[j].entries@.len()
                            > 0 implies self.occupied@.contains(self.buckets@[j].c) by {
                        if j != i {
                            assert(m0.occupied@.contains(self.buckets@[j].c));
                            let ghost bjc = self.buckets@[j].c;
                            let k = choose|k: int|
                                0 <= k < m0.occupied@.len() && m0.occupied@[k] == bjc;
                            assert(self.occupied@[k] == bjc);
                        } else {
                            if oldes.len() > 0 {
                                assert(m0.occupied@.contains(c));
                                let k = choose|k: int|
                                    0 <= k < m0.occupied@.len() && m0.occupied@[k] == c;
                                assert(self.occupied@[k] == c);
                            } else {
                                assert(self.occupied@[self.occupied@.len() - 1] == c);
                            }
                        }
                    }
                    assert forall|k1: int, k2: int|
                        0 <= k1 < k2 < self.occupied@.len() implies self.occupied@[k1]
                        != self.occupied@[k2] by {
                        if k2 == m0.occupied@.len() && oldes.len() == 0 {
                            if self.occupied@[k1] == c {
                                assert(m0.occupied@.contains(c));
                            }
                        }
                    }
                    assert(self.wf());
                }
            },
        }
        RegHandle { c, id }
    }

    /// Remove from the bucket for `c` every entry whose callback body is no
    /// longer resolvable in `store`, and drop `c` from the occupied list if
    /// the bucket becomes empty.
    #[verifier::loop_isolation(false)]
    fn prune_category<B>(&mut self, store: &BodyStore<B>, c: C)
        requires
            old(self).wf(),
            old(self).bucket(c) is Some,
        ensures
            final(self).wf(),
            final(self).next_id() == old(self).next_id(),
            final(self).bucket(c) == Some(
                keep_live(old(self).bucket_or_empty(c), store.slots()),
            ),
            forall|c2: C| c2 != c ==> final(self).bucket(c2) == old(self).bucket(c2),
            keep_live(old(self).bucket_or_empty(c), store.slots()).len() > 0 || old(
                self,
            ).bucket_or_empty(c).len() == 0 ==> final(self).occupied() == old(self).occupied(),
    {
        let found = self.find_idx(c);
        match found {
            None => {
                proof {
                    assert(false);
                }
            },
            Some(i) => {
                let ghost m0 = *old(self);
                let ghost slots = store.slots();
                let mut b = self.buckets.remove(i);
                let ghost es0 = b.entries@;
                let mut kept: Vec<RegEntry> = Vec::new();
                let mut k: usize = 0;
                proof {
                    assert(es0.take(0) =~= Seq::<RegEntry>::empty());
                }
                while k < b.entries.len()
                    invariant
                        k <= es0.len(),
                        b.entries@ == es0,
                        kept@ == keep_live(es0.take(k as int), slots),
                    decreases es0.len() - k,
                {
                    proof {
                        assert(es0.take(k + 1).drop_last() =~= es0.take(k as int));
                        assert(es0.take(k + 1).last() == es0[k as int]);
                    }
                    let e = b.entries[k];
                    if !e.sub.dead(store) {
                        kept.push(e);
                    }
                    k = k + 1;
                }
                proof {
                    assert(es0.take(es0.len() as int) =~= es0);
                }
                let was_nonempty = b.entries.len() > 0;
                let now_empty = kept.len() == 0;
                b.entries = kept;
                self.buckets.insert(i, b);
                proof {
                    assert(self.buckets@ =~= m0.buckets@.update(i as int, self.buckets@[i as int]));
                    lemma_keep_live_props(es0, slots);
                    assert(forall|k1: int, k2: int|
                        0 <= k1 < k2 < es0.len() ==> (es0[k1]).id != (es0[k2]).id) by {
                        assert(forall|k1: int, k2: int|
                            0 <= k1 < k2 < es0.len() ==> (m0.buckets@[i as int].entries@[k1]).id
                                != (m0.buckets@[i as int].entries@[k2]).id);
                    }
                }
                if was_nonempty && now_empty {
                    proof {
                        assert(m0.buckets@[i as int].entries@.len() > 0);
                        assert(m0.occupied@.contains(c));
                    }
                    remove_category(&mut self.occupied, c);
                }
                proof {
                    let m1 = *self;
                    let removedc = was_nonempty && now_empty;
                    lemma_wf_after_bucket_shrink(m0, m1, i as int, removedc);
                    lemma_find_first_occurrence(m0, m1, i as int, c);
                    assert forall|c2: C| c2 != c implies m1.bucket(c2) == m0.bucket(c2) by {
                        lemma_find_first_occurrence(m0, m1, i as int, c2);
                    }
                }
            },
        }
    }

    /// Unregister the entry a handle refers to: resolve the handle, remove
    /// that entry from its category's bucket, and drop the category from the
    /// occupied list if the bucket becomes empty. A handle whose entry was
    /// already removed (or never belonged to this registry) resolves to
    /// nothing and the call is a silent no-op.
    #[verifier::loop_isolation(false)]
    pub fn unregister(&mut self, h: RegHandle)
        requires
            old(self).wf(),
        ensures
            final(self).wf(),
            final(self).next_id() == old(self).next_id(),
            old(self).bucket(h.cat()) is Some ==> final(self).bucket(h.cat()) == Some(
                remove_id(old(self).bucket_or_empty(h.cat()), h.id()),
            ),
            old(self).bucket(h.cat()) is None ==> final(self).bucket(h.cat()) is None,
            forall|c2: C| c2 != h.cat() ==> final(self).bucket(c2) == old(self).bucket(c2),
            !contains_id(old(self).bucket_or_empty(h.cat()), h.id()) ==> final(self).occupied()
                == old(self).occupied() && final(self).bucket(h.cat()) == old(self).bucket(h.cat()),
    {
        let c = h.c;
        let found = self.find_idx(c);
        match found {
            None => {
                proof {
                    lemma_remove_id_props(Seq::<RegEntry>::empty(), h.id());
                }
            },
            Some(i) => {
                let ghost m0 = *old(self);
                let mut b = self.buckets.remove(i);
                let ghost es0 = b.entries@;
                let mut kept: Vec<RegEntry> = Vec::new();
                let mut k: usize = 0;
                proof {
                    assert(es0.take(0) =~= Seq::<RegEntry>::empty());
                }
                while k < b.entries.len()
                    invariant
                        k <= es0.len(),
                        b.entries@ == es0,
                        kept@ == remove_id(es0.take(k as int), h.id()),
                    decreases es0.len() - k,
                {
                    proof {
                        assert(es0.take(k + 1).drop_last() =~= es0.take(k as int));
                        assert(es0.take(k + 1).last() == es0[k as int]);
                    }
                    let e = b.entries[k];
                    if e.id != h.id {
                        kept.push(e);
                    }
                    k = k + 1;
                }
                proof {
                    assert(es0.take(es0.len() as int) =~= es0);
                }
                let was_nonempty = b.entries.len() > 0;
                let now_empty = kept.len() == 0;
                b.entries = kept;
                self.buckets.insert(i, b);
                proof {
                    assert(self.buckets@ =~= m0.buckets@.update(i as int, self.buckets@[i as int]));
                    lemma_remove_id_props(es0, h.id());
                    assert(forall|k1: int, k2: int|
                        0 <= k1 < k2 < es0.len() ==> (es0[k1]).id != (es0[k2]).id) by {
                        assert(forall|k1: int, k2: int|
                            0 <= k1 < k2 < es0.len() ==> (m0.buckets@[i as int].entries@[k1]).id
                                != (m0.buckets@[i as int].entries@[k2]).id);
                    }
                }
                if was_nonempty && now_empty {
                    proof {
                        assert(m0.buckets@[i as int].entries@.len() > 0);
                        assert(m0.occupied@.contains(c));
                    }
                    remove_category(&mut self.occupied, c);
                }
                proof {
                    let m1 = *self;
                    let removedc = was_nonempty && now_empty;
                    lemma_wf_after_bucket_shrink(m0, m1, i as int, removedc);
                    lemma_find_first_occurrence(m0, m1, i as int, c);
                    assert forall|c2: C| c2 != c implies m1.bucket(c2) == m0.bucket(c2) by {
                        lemma_find_first_occurrence(m0, m1, i as int, c2);
                    }
                    if !contains_id(es0, h.id()) {
                        assert(remove_id(es0, h.id()) == es0);
                        assert(!removedc);
                    }
                }
            },
        }
    }

    /// Fire `(s, v)` once at every subscription currently in the bucket for
    /// `c` (nothing happens when no bucket exists). The bucket itself is not
    /// modified; dead entries are left in place for a later pruning pass.
    #[verifier::loop_isolation(false)]
    fn fire_category_events<S, B: CBFn<S>>(&self, store: &mut BodyStore<B>, s: &S, c: C, v: &V)
        ensures
            final(store).slots() == fire_entries(old(store).slots(), self.bucket_or_empty(c), *s, *v),
    {
        let ghost slots0 = store.slots();
        let found = self.find_idx(c);
        match found {
            None => {
                proof {
                    assert(self.bucket_or_empty(c) =~= Seq::<RegEntry>::empty());
                    assert(fire_entries(slots0, self.bucket_or_empty(c), *s, *v) == slots0);
                }
            },
            Some(i) => {
                let ghost es = self.buckets@[i as int].entries@;
                proof {
                    assert(es.take(0) =~= Seq::<RegEntry>::empty());
                    assert(fire_entries(slots0, es.take(0), *s, *v) == slots0);
                }
                let n = self.buckets[i].entries.len();
                let mut k: usize = 0;
                while k < n
                    invariant
                        k <= n,
                        store.slots() == fire_entries(slots0, es.take(k as int), *s, *v),
                    decreases n - k,
                {
                    let e = self.buckets[i].entries[k];
                    proof {
                        assert(es.take(k + 1) =~= es.take(k as int).push(es[k as int]));
                        lemma_fire_entries_snoc(slots0, es.take(k as int), es[k as int], *s, *v);
                    }
                    let _ = e.sub.call(store, s, v);
                    k = k + 1;
                }
                proof {
                    assert(es.take(n as int) =~= es);
                }
            },
        }
    }

    /// One poll-mode firing pass: for every occupied category, query the
    /// state provider for its current value and fire it at every
    /// subscription of that bucket. Returns the categories that were fired.
    #[verifier::loop_isolation(false)]
    fn fire_all_events<S: State, B: CBFn<S>>(&self, store: &mut BodyStore<B>, s: &S) -> (cats: Vec<
        C,
    >)
        ensures
            final(store).slots() == fire_cats(old(store).slots(), *self, self.occupied(), *s),
            cats@ == self.occupied(),
    {
        let ghost slots0 = store.slots();
        let mut cats: Vec<C> = Vec::new();
        proof {
            assert(self.occupied@.take(0) =~= Seq::<C>::empty());
            assert(fire_cats(slots0, *self, self.occupied@.take(0), *s) == slots0);
        }
        let n = self.occupied.len();
        let mut k: usize = 0;
        while k < n
            invariant
                k <= n,
                store.slots() == fire_cats(slots0, *self, self.occupied@.take(k as int), *s),
                cats@ == self.occupied@.take(k as int),
            decreases n - k,
        {
            let c = self.occupied[k];
            proof {
                assert(self.occupied@.take(k + 1) =~= self.occupied@.take(k as int).push(c));
                lemma_fire_cats_snoc(slots0, *self, self.occupied@.take(k as int), c, *s);
            }
            let v = s.get(&c);
            self.fire_category_events(store, s, c, &v);
            cats.push(c);
            k = k + 1;
        }
        proof {
            assert(self.occupied@.take(n as int) =~= self.occupied@);
        }
        cats
    }

    /// Poll-mode dispatch: fire the current value of every occupied
    /// category at every subscription of that category, then batch-remove
    /// every subscription found dead, dropping categories whose buckets
    /// become empty. Removal is deferred until after the full sweep, so no
    /// bucket is modified while it is being fired.
    #[verifier::loop_isolation(false)]
    pub fn fire_and_clean_all<S: State, B: CBFn<S>>(&mut self, store: &mut BodyStore<B>, s: &S)
        requires
            old(self).wf(),
        ensures
            final(self).wf(),
            final(store).slots() == fire_cats(
                old(store).slots(),
                *old(self),
                old(self).occupied(),
                *s,
            ),
            final(self).next_id() == old(self).next_id(),
            forall|c: C|
                old(self).occupies(c) ==> final(self).bucket(c) == Some(
                    keep_live(old(self).bucket_or_empty(c), old(store).slots()),
                ),
            forall|c: C| !old(self).occupies(c) ==> final(self).bucket(c) == old(self).bucket(c),
    {
        let ghost m0 = *old(self);
        let ghost slots0 = store.slots();
        let cats = self.fire_all_events(store, s);
        let ghost slots1 = store.slots();
        proof {
            lemma_fire_cats_shape::<S, B>(slots0, m0, m0.occupied@, *s);
        }
        let n = cats.len();
        let mut k: usize = 0;
        while k < n
            invariant
                k <= n,
                self.wf(),
                self.next_id() == m0.next_id(),
                store.slots() == slots1,
                forall|c2: C|
                    cats@.take(k as int).contains(c2) ==> self.bucket(c2) == Some(
                        keep_live(m0.bucket_or_empty(c2), slots1),
                    ),
                forall|c2: C|
                    !cats@.take(k as int).contains(c2) ==> self.bucket(c2) == m0.bucket(c2),
            decreases n - k,
        {
            let c = cats[k];
            proof {
                assert(m0.occupied@[k as int] == c);
                assert(m0.occupied@.contains(c));
                assert(m0.bucket_or_empty(m0.occupied@[
                    choose|j: int| 0 <= j < m0.occupied@.len() && m0.occupied@[j] == c
                ]).len() > 0);
                assert(m0.bucket_or_empty(c).len() > 0);
                assert(!cats@.take(k as int).contains(c)) by {
                    if cats@.take(k as int).contains(c) {
                        let j = choose|j: int| 0 <= j < k && cats@.take(k as int)[j] == c;
                        assert(m0.occupied@[j] == m0.occupied@[k as int]);
                    }
                }
                assert(self.bucket(c) == m0.bucket(c));
                assert(self.bucket(c) is Some);
            }
            self.prune_category(store, c);
            proof {
                assert(cats@.take(k + 1) =~= cats@.take(k as int).push(c));
                assert forall|c2: C| #[trigger]
                    cats@.take(k + 1).contains(c2) implies cats@.take(k as int).contains(c2) || c2
                    == c by {
                    let j = choose|j: int| 0 <= j < k + 1 && #[trigger] cats@.take(k + 1)[j] == c2;
                    if j < k {
                        assert(cats@.take(k as int)[j] == c2);
                    }
                }
                assert forall|c2: C|
                    cats@.take(k as int).contains(c2) implies #[trigger] cats@.take(
                    k + 1,
                ).contains(c2) by {
                    let j = choose|j: int| 0 <= j < k && cats@.take(k as int)[j] == c2;
                    assert(cats@.take(k + 1)[j] == c2);
                }
                assert(cats@.take(k + 1).contains(c)) by {
                    assert(cats@.take(k + 1)[k as int] == c);
                }
            }
            k = k + 1;
        }
        proof {
            assert(cats@.take(n as int) =~= cats@);
            assert forall|c: C| m0.occupies(c) implies self.bucket(c) == Some(
                keep_live(m0.bucket_or_empty(c), slots0),
            ) by {
                lemma_keep_live_congruent(m0.bucket_or_empty(c), slots1, slots0);
            }
            assert forall|c: C| !m0.occupies(c) implies self.bucket(c) == m0.bucket(c) by {
            }
        }
    }

    /// One push-mode firing pass over the batch, in order: ignored values
    /// are skipped, every other value is fired at the bucket of its own
    /// category. Returns the distinct categories of the batch that have a
    /// bucket, for the later pruning pass.
    #[verifier::loop_isolation(false)]
    fn fire_listing_events<S, B: CBFn<S>>(&self, store: &mut BodyStore<B>, s: &S, vv: &Vec<V>) -> (cats: Vec<C>)
        ensures
            final(store).slots() == fire_batch(old(store).slots(), *self, vv@, *s),
            forall|c2: C| cats@.contains(c2) <==> (touched(vv@, c2) && self.bucket(c2) is Some),
            forall|i: int, j: int| 0 <= i < j < cats@.len() ==> cats@[i] != cats@[j],
    {
        let ghost slots0 = store.slots();
        let mut cats: Vec<C> = Vec::new();
        proof {
            assert(vv@.take(0) =~= Seq::<V>::empty());
            assert(fire_batch(slots0, *self, vv@.take(0), *s) == slots0);
        }
        let n = vv.len();
        let mut k: usize = 0;
        while k < n
            invariant
                k <= n,
                store.slots() == fire_batch(slots0, *self, vv@.take(k as int), *s),
                forall|c2: C|
                    cats@.contains(c2) <==> (touched(vv@.take(k as int), c2) && self.bucket(c2)
                        is Some),
                forall|i: int, j: int| 0 <= i < j < cats@.len() ==> cats@[i] != cats@[j],
            decreases n - k,
        {
            let ghost cs = cats@;
            let v = vv[k];
            proof {
                assert(vv@.take(k + 1) =~= vv@.take(k as int).push(v));
                lemma_fire_batch_snoc(slots0, *self, vv@.take(k as int), v, *s);
                assert forall|c2: C|
                    touched(vv@.take(k + 1), c2) implies touched(vv@.take(k as int), c2) || (
                !v.ignored() && v.cat() == c2) by {
                    let j = choose|j: int|
                        0 <= j < k + 1 && !(#[trigger] vv@.take(k + 1)[j]).ignored() && (vv@.take(
                            k + 1,
                        )[j]).cat() == c2;
                    if j < k {
                        assert(!(vv@.take(k as int)[j]).ignored());
                    }
                }
                assert forall|c2: C|
                    touched(vv@.take(k as int), c2) implies touched(vv@.take(k + 1), c2) by {
                    let j = choose|j: int|
                        0 <= j < k && !(#[trigger] vv@.take(k as int)[j]).ignored() && (vv@.take(
                            k as int,
                        )[j]).cat() == c2;
                    assert(!(vv@.take(k + 1)[j]).ignored() && (vv@.take(k + 1)[j]).cat() == c2);
                }
            }
            match v {
                V::Ignored => {},
                V::Occurred(c, _) => {
                    self.fire_category_events(store, s, c, &v);
                    let has_bucket = match self.find_idx(c) {
                        Some(_) => true,
                        None => false,
                    };
                    if has_bucket {
                        if !cat_in(&cats, c) {
                            cats.push(c);
                        }
                    }
                    proof {
                        assert(vv@.take(k + 1)[k as int] == v);
                        assert(touched(vv@.take(k + 1), c));
                        assert forall|c2: C| #[trigger] cats@.contains(c2) implies (touched(
                            vv@.take(k + 1),
                            c2,
                        ) && self.bucket(c2) is Some) by {
                            let j = choose|j: int| 0 <= j < cats@.len() && cats@[j] == c2;
                            if j < cs.len() {
                                assert(cs[j] == c2);
                                assert(cs.contains(c2));
                            } else {
                                assert(c2 == c);
                            }
                        }
                        assert forall|c2: C|
                            touched(vv@.take(k + 1), c2) && self.bucket(c2)
                                is Some implies #[trigger] cats@.contains(c2) by {
                            if touched(vv@.take(k as int), c2) {
                                assert(cs.contains(c2));
                                let j = choose|j: int| 0 <= j < cs.len() && cs[j] == c2;
                                assert(cats@[j] == c2);
                            } else {
                                assert(c2 == c);
                                if cs.contains(c2) {
                                    let j = choose|j: int| 0 <= j < cs.len() && cs[j] == c2;
                                    assert(cats@[j] == c2);
                                } else {
                                    assert(cats@ == cs.push(c));
                                    assert(cats@[cats@.len() - 1] == c2);
                                }
                            }
                        }
                    }
                },
            }
            k = k + 1;
        }
        proof {
            assert(vv@.take(n as int) =~= vv@);
        }
        cats
    }

    /// Push-mode dispatch: drain the batch in order, skipping ignored
    /// values and firing every other value at the subscriptions of its own
    /// category; then batch-remove every subscription found dead in the
    /// categories the batch touched, dropping categories whose buckets
    /// become empty. Removal is deferred until the whole batch has been
    /// processed, so no bucket is modified while it is being fired.
    #[verifier::loop_isolation(false)]
    pub fn fire_and_clean_listing<S, B: CBFn<S>>(
        &mut self,
        store: &mut BodyStore<B>,
        s: &S,
        vv: &mut Vec<V>,
    )
        requires
            old(self).wf(),
        ensures
            final(self).wf(),
            final(vv)@ == Seq::<V>::empty(),
            final(store).slots() == fire_batch(old(store).slots(), *old(self), old(vv)@, *s),
            final(self).next_id() == old(self).next_id(),
            forall|c: C|
                touched(old(vv)@, c) && old(self).bucket(c) is Some ==> final(self).bucket(c)
                    == Some(keep_live(old(self).bucket_or_empty(c), old(store).slots())),
            forall|c: C|
                !(touched(old(vv)@, c) && old(self).bucket(c) is Some) ==> final(self).bucket(c)
                    == old(self).bucket(c),
    {
        let ghost m0 = *old(self);
        let ghost batch = vv@;
        let ghost slots0 = store.slots();
        let cats = self.fire_listing_events(store, s, vv);
        vv.clear();
        let ghost slots1 = store.slots();
        proof {
            lemma_fire_batch_shape::<S, B>(slots0, m0, batch, *s);
        }
        let n = cats.len();
        let mut k: usize = 0;
        while k < n
            invariant
                k <= n,
                self.wf(),
                self.next_id() == m0.next_id(),
                store.slots() == slots1,
                forall|c2: C|
                    cats@.take(k as int).contains(c2) ==> self.bucket(c2) == Some(
                        keep_live(m0.bucket_or_empty(c2), slots1),
                    ),
                forall|c2: C|
                    !cats@.take(k as int).contains(c2) ==> self.bucket(c2) == m0.bucket(c2),
            decreases n - k,
        {
            let c = cats[k];
            proof {
                assert(cats@.contains(c)) by {
                    assert(cats@[k as int] == c);
                }
                assert(!cats@.take(k as int).contains(c)) by {
                    if cats@.take(k as int).contains(c) {
                        let j = choose|j: int|
                            0 <= j < k && #[trigger] cats@.take(k as int)[j] == c;
                        assert(cats@[j] == cats@[k as int]);
                    }
                }
                assert(self.bucket(c) == m0.bucket(c));
                assert(self.bucket(c) is Some);
            }
            self.prune_category(store, c);
            proof {
                assert(cats@.take(k + 1) =~= cats@.take(k as int).push(c));
                assert forall|c2: C| #[trigger]
                    cats@.take(k + 1).contains(c2) implies cats@.take(k as int).contains(c2) || c2
                    == c by {
                    let j = choose|j: int| 0 <= j < k + 1 && #[trigger] cats@.take(k + 1)[j] == c2;
                    if j < k {
                        assert(cats@.take(k as int)[j] == c2);
                    }
                }
                assert forall|c2: C|
                    cats@.take(k as int).contains(c2) implies #[trigger] cats@.take(
                    k + 1,
                ).contains(c2) by {
                    let j = choose|j: int| 0 <= j < k && #[trigger] cats@.take(k as int)[j] == c2;
                    assert(cats@.take(k + 1)[j] == c2);
                }
                assert(cats@.take(k + 1).contains(c)) by {
                    assert(cats@.take(k + 1)[k as int] == c);
                }
            }
            k = k + 1;
        }
        proof {
            assert(cats@.take(n as int) =~= cats@);
            assert forall|c: C| touched(batch, c) && m0.bucket(c) is Some implies self.bucket(c)
                == Some(keep_live(m0.bucket_or_empty(c), slots0)) by {
                assert(cats@.contains(c));
                lemma_keep_live_congruent(m0.bucket_or_empty(c), slots1, slots0);
            }
            assert forall|c: C| !(touched(batch, c) && m0.bucket(c) is Some) implies self.bucket(c)
                == m0.bucket(c) by {
                assert(!cats@.contains(c));
            }
        }
    }

    /// Handle one request: register a whole batch of subscriptions and
    /// answer with their weak handles in input order, or unregister a batch
    /// of handles (silently skipping any that no longer resolve) and answer
    /// with a bare acknowledgement.
    #[verifier::loop_isolation(false)]
    pub fn handle_req(&mut self, req: RegRequest) -> (resp: RegResponse)
        requires
            old(self).wf(),
            match req {
                RegRequest::Register(_, cbs) => old(self).next_id() + cbs@.len() <= u64::MAX,
                RegRequest::Unregister(_) => true,
            },
        ensures
            final(self).wf(),
            match req {
                RegRequest::Register(c, cbs) => {
                    &&& final(self).next_id() == old(self).next_id() + cbs@.len()
                    &&& match resp {
                        RegResponse::Register(rc, hs) => {
                            &&& rc == c
                            &&& hs@.len() == cbs@.len()
                            &&& forall|i: int|
                                0 <= i < hs@.len() ==> (#[trigger] hs@[i]).cat() == (
                                cbs@[i]).cat() && (hs@[i]).id() == old(self).next_id() + i
                        },
                        RegResponse::Unregister => false,
                    }
                    &&& forall|c2: C|
                        final(self).bucket_or_empty(c2) == old(self).bucket_or_empty(c2)
                            + entries_for(cbs@, old(self).next_id(), c2)
                },
                RegRequest::Unregister(hs) => {
                    &&& resp is Unregister
                    &&& final(self).next_id() == old(self).next_id()
                    &&& forall|c2: C|
                        final(self).bucket_or_empty(c2) == remove_handles(
                            old(self).bucket_or_empty(c2),
                            hs@,
                            c2,
                        )
                },
            },
    {
        let ghost m0 = *old(self);
        match req {
            RegRequest::Register(c, cbs) => {
                let mut hs: Vec<RegHandle> = Vec::new();
                let n = cbs.len();
                let mut k: usize = 0;
                proof {
                    assert forall|c2: C| m0.bucket_or_empty(c2) == m0.bucket_or_empty(c2)
                        + entries_for(cbs@.take(0), m0.next_id(), c2) by {
                        assert(cbs@.take(0) =~= Seq::<CB>::empty());
                        assert(entries_for(cbs@.take(0), m0.next_id(), c2)
                            =~= Seq::<RegEntry>::empty());
                        assert(m0.bucket_or_empty(c2) =~= m0.bucket_or_empty(c2)
                            + Seq::<RegEntry>::empty());
                    }
                }
                while k < n
                    invariant
                        k <= n,
                        n == cbs@.len(),
                        self.wf(),
                        self.next_id() == m0.next_id() + k,
                        m0.next_id() + n <= u64::MAX,
                        hs@.len() == k,
                        forall|i: int|
                            0 <= i < k ==> (#[trigger] hs@[i]).cat() == (cbs@[i]).cat() && (
                            hs@[i]).id() == m0.next_id() + i,
                        forall|c2: C|
                            self.bucket_or_empty(c2) == m0.bucket_or_empty(c2) + entries_for(
                                cbs@.take(k as int),
                                m0.next_id(),
                                c2,
                            ),
                    decreases n - k,
                {
                    let cb = cbs[k];
                    let ghost mcur = *self;
                    let h = self.register(cb);
                    hs.push(h);
                    proof {
                        let base = m0.next_id();
                        let e = RegEntry { id: mcur.next_id(), sub: cb };
                        assert forall|c2: C| self.bucket_or_empty(c2) == m0.bucket_or_empty(c2)
                            + entries_for(cbs@.take(k + 1), base, c2) by {
                            assert(cbs@.take(k + 1).drop_last() =~= cbs@.take(k as int));
                            assert(cbs@.take(k + 1).last() == cbs@[k as int]);
                            assert(cbs@.take(k + 1).len() == k + 1);
                            assert(e.id == (base + (k + 1) - 1) as u64);
                            assert(mcur.bucket_or_empty(c2) == m0.bucket_or_empty(c2)
                                + entries_for(cbs@.take(k as int), base, c2));
                            if c2 == cb.cat() {
                                assert(self.bucket_or_empty(c2) == mcur.bucket_or_empty(c2).push(
                                    e,
                                ));
                                assert(entries_for(cbs@.take(k + 1), base, c2) == entries_for(
                                    cbs@.take(k as int),
                                    base,
                                    c2,
                                ).push(e));
                                assert(m0.bucket_or_empty(c2) + entries_for(
                                    cbs@.take(k as int),
                                    base,
                                    c2,
                                ).push(e) =~= (m0.bucket_or_empty(c2) + entries_for(
                                    cbs@.take(k as int),
                                    base,
                                    c2,
                                )).push(e));
                            } else {
                                assert(entries_for(cbs@.take(k + 1), base, c2) == entries_for(
                                    cbs@.take(k as int),
                                    base,
                                    c2,
                                ));
                                assert(self.bucket(c2) == mcur.bucket(c2));
                            }
                            assert(self.bucket_or_empty(c2) =~= m0.bucket_or_empty(c2)
                                + entries_for(cbs@.take(k + 1), base, c2));
                        }
                    }
                    k = k + 1;
                }
                proof {
                    assert(cbs@.take(n as int) =~= cbs@);
                }
                RegResponse::Register(c, hs)
            },
            RegRequest::Unregister(hs) => {
                let n = hs.len();
                let mut k: usize = 0;
                proof {
                    assert forall|c2: C| self.bucket_or_empty(c2) == remove_handles(
                        m0.bucket_or_empty(c2),
                        hs@.take(0),
                        c2,
                    ) by {
                        assert(hs@.take(0) =~= Seq::<RegHandle>::empty());
                    }
                }
                while k < n
                    invariant
                        k <= n,
                        n == hs@.len(),
                        self.wf(),
                        self.next_id() == m0.next_id(),
                        forall|c2: C|
                            self.bucket_or_empty(c2) == remove_handles(
                                m0.bucket_or_empty(c2),
                                hs@.take(k as int),
                                c2,
                            ),
                        forall|c2: C| self.bucket(c2) is Some <==> m0.bucket(c2) is Some,
                    decreases n - k,
                {
                    let h = hs[k];
                    let ghost mcur = *self;
                    self.unregister(h);
                    proof {
                        assert forall|c2: C| self.bucket_or_empty(c2) == remove_handles(
                            m0.bucket_or_empty(c2),
                            hs@.take(k + 1),
                            c2,
                        ) by {
                            assert(hs@.take(k + 1).drop_last() =~= hs@.take(k as int));
                            assert(hs@.take(k + 1).last() == hs@[k as int]);
                            assert(mcur.bucket_or_empty(c2) == remove_handles(
                                m0.bucket_or_empty(c2),
                                hs@.take(k as int),
                                c2,
                            ));
                            if c2 == h.cat() {
                                assert(remove_handles(m0.bucket_or_empty(c2), hs@.take(k + 1), c2)
                                    == remove_id(
                                    remove_handles(m0.bucket_or_empty(c2), hs@.take(k as int), c2),
                                    h.id(),
                                ));
                                if mcur.bucket(c2) is Some {
                                    assert(self.bucket_or_empty(c2) == remove_id(
                                        mcur.bucket_or_empty(c2),
                                        h.id(),
                                    ));
                                } else {
                                    assert(mcur.bucket_or_empty(c2) =~= Seq::<RegEntry>::empty());
                                    assert(remove_id(Seq::<RegEntry>::empty(), h.id())
                                        =~= Seq::<RegEntry>::empty());
                                    assert(self.bucket(c2) is None);
                                }
                            } else {
                                assert(remove_handles(m0.bucket_or_empty(c2), hs@.take(k + 1), c2)
                                    == remove_handles(
                                    m0.bucket_or_empty(c2),
                                    hs@.take(k as int),
                                    c2,
                                ));
                                assert(self.bucket(c2) == mcur.bucket(c2));
                            }
                            assert(self.bucket_or_empty(c2) =~= remove_handles(
                                m0.bucket_or_empty(c2),
                                hs@.take(k + 1),
                                c2,
                            ));
                        }
                    }
                    k = k + 1;
                }
                proof {
                    assert(hs@.take(n as int) =~= hs@);
                }
                RegResponse::Unregister
            },
        }
    }
}

#[verifier::loop_isolation(false)]
fn remove_category(cc: &mut Vec<C>, c: C)
    requires
        old(cc)@.contains(c),
        forall|i: int, j: int| 0 <= i < j < old(cc)@.len() ==> old(cc)@[i] != old(cc)@[j],
    ensures
        forall|c2: C| final(cc)@.contains(c2) <==> (old(cc)@.contains(c2) && c2 != c),
        forall|i: int, j: int| 0 <= i < j < final(cc)@.len() ==> final(cc)@[i] != final(cc)@[j],
        final(cc)@.len() == old(cc)@.len() - 1,
{
    let ghost occ0 = cc@;
    let mut k: usize = 0;
    while k < cc.len()
        invariant
            cc@ == occ0,
            k <= occ0.len(),
            forall|j: int| 0 <= j < k ==> occ0[j] != c,
        decreases occ0.len() - k,
    {
        if cc[k] == c {
            cc.swap_remove(k);
            proof {
                let n = occ0.len();
                let cc1 = cc@;
                assert(cc1 == occ0.update(k as int, occ0.last()).drop_last());
                assert(occ0[k as int] == c);
                assert forall|i: int, j: int|
                    0 <= i < n && 0 <= j < n && i != j implies occ0[i] != occ0[j] by {
                    if i < j {
                        assert(old(cc)@[i] != old(cc)@[j]);
                    } else {
                        assert(old(cc)@[j] != old(cc)@[i]);
                    }
                }
                assert forall|c2: C| cc1.contains(c2) implies occ0.contains(c2) && c2 != c by {
                    let idx = choose|idx: int| 0 <= idx < cc1.len() && cc1[idx] == c2;
                    if idx == k {
                        assert(occ0[n - 1] == c2);
                        assert(occ0[n - 1] != occ0[k as int]);
                    } else {
                        assert(occ0[idx] == c2);
                        assert(occ0[idx] != occ0[k as int]);
                    }
                }
                assert forall|c2: C| occ0.contains(c2) && c2 != c implies cc1.contains(c2) by {
                    let idx = choose|idx: int| 0 <= idx < n && occ0[idx] == c2;
                    if idx == n - 1 {
                        assert(cc1[k as int] == c2);
                    } else {
                        assert(cc1[idx] == c2);
                    }
                }
                assert forall|i: int, j: int| 0 <= i < j < cc1.len() implies cc1[i] != cc1[j] by {
                    if i == k {
                        assert(cc1[i] == occ0[n - 1] && cc1[j] == occ0[j]);
                        assert(occ0[j] != occ0[n - 1]);
                    } else if j == k {
                        assert(cc1[j] == occ0[n - 1] && cc1[i] == occ0[i]);
                        assert(occ0[i] != occ0[n - 1]);
                    } else {
                        assert(cc1[i] == occ0[i] && cc1[j] == occ0[j]);
                    }
                }
            }
            return ;
        }
        k = k + 1;
    }
    proof {
        let idx = choose|idx: int| 0 <= idx < occ0.len() && occ0[idx] == c;
        assert(false);
    }
}

proof fn lemma_wf_after_bucket_shrink(m0: Manager, m1: Manager, i: int, removedc: bool)
    requires
        m0.wf(),
        0 <= i < m0.buckets@.len(),
        m1.next_id == m0.next_id,
        m1.buckets@ == m0.buckets@.update(i, m1.buckets@[i]),
        m1.buckets@[i].c == m0.buckets@[i].c,
        forall|k: int|
            0 <= k < m1.buckets@[i].entries@.len() ==> m0.buckets@[i].entries@.contains(
                #[trigger] m1.buckets@[i].entries@[k],
            ),
        forall|k1: int, k2: int|
            0 <= k1 < k2 < m1.buckets@[i].entries@.len() ==> (m1.buckets@[i].entries@[k1]).id != (
            m1.buckets@[i].entries@[k2]).id,
        removedc <==> (m1.buckets@[i].entries@.len() == 0 && m0.buckets@[i].entries@.len() > 0),
        if removedc {
            (forall|c2: C|
                m1.occupied@.contains(c2) <==> (m0.occupied@.contains(c2) && c2 != (m0.buckets@[
                    i]).c)) && (forall|k1: int, k2: int|
                0 <= k1 < k2 < m1.occupied@.len() ==> m1.occupied@[k1] != m1.occupied@[k2])
        } else {
            m1.occupied@ == m0.occupied@
        },
    ensures
        m1.wf(),
{
    let c = m0.buckets@[i].c;
    let es1 = m1.buckets@[i].entries@;
    let es0 = m0.buckets@[i].entries@;
    assert(m1.buckets@.len() == m0.buckets@.len());
    assert(forall|j: int| 0 <= j < m1.buckets@.len() && j != i ==> m1.buckets@[j] == m0.buckets@[j]);
    assert(m1.cats_distinct());
    // every entry of the shrunk bucket keeps the facts it had in the old one
    assert forall|k: int| 0 <= k < es1.len() implies (#[trigger] es1[k]).sub.cat() == c && (
    es1[k]).id < m0.next_id && (forall|j2: int, k2: int|
        0 <= j2 < m0.buckets@.len() && j2 != i && 0 <= k2 < m0.buckets@[j2].entries@.len()
            ==> es1[k].id != (#[trigger] m0.buckets@[j2].entries@[k2]).id) by {
        let idx = choose|idx: int| 0 <= idx < es0.len() && es0[idx] == es1[k];
        assert(es0[idx].sub.cat() == c);
        assert forall|j2: int, k2: int|
            0 <= j2 < m0.buckets@.len() && j2 != i && 0 <= k2 < (m0.buckets@[
                j2]).entries@.len() implies (es1[k]).id != (#[trigger] m0.buckets@[j2].entries@[k2]).id by {
            assert((es0[idx]).id == (m0.buckets@[i].entries@[idx]).id);
        }
    }
    assert(m1.entries_routed());
    assert(m1.ids_bounded());
    assert(m1.ids_unique());
    if removedc {
        assert(m1.occ_distinct());
        assert forall|k: int| 0 <= k < m1.occupied@.len() implies #[trigger] m1.bucket_or_empty(
            m1.occupied@[k],
        ).len() > 0 by {
            let c2 = m1.occupied@[k];
            assert(m1.occupied@.contains(c2));
            assert(m0.occupied@.contains(c2) && c2 != c);
            let k0 = choose|k0: int| 0 <= k0 < m0.occupied@.len() && m0.occupied@[k0] == c2;
            assert(m0.bucket_or_empty(m0.occupied@[k0]).len() > 0);
            lemma_find_first_occurrence(m0, m1, i, c2);
        }
        assert forall|j: int|
            0 <= j < m1.buckets@.len() && #[trigger] m1.buckets@[j].entries@.len()
                > 0 implies m1.occupied@.contains(m1.buckets@[j].c) by {
            assert(j != i);
            assert(m0.occupied@.contains(m1.buckets@[j].c));
            assert(m1.buckets@[j].c != c);
        }
        assert(m1.occ_sound() && m1.occ_complete());
    } else {
        assert(m1.occ_distinct());
        assert forall|k: int| 0 <= k < m1.occupied@.len() implies #[trigger] m1.bucket_or_empty(
            m1.occupied@[k],
        ).len() > 0 by {
            let c2 = m1.occupied@[k];
            assert(m0.bucket_or_empty(m0.occupied@[k]).len() > 0);
            lemma_find_first_occurrence(m0, m1, i, c2);
            if c2 == c {
                assert(m0.bucket_or_empty(c) == es0);
                assert(!(es1.len() == 0 && es0.len() > 0));
            }
        }
        assert forall|j: int|
            0 <= j < m1.buckets@.len() && #[trigger] m1.buckets@[j].entries@.len()
                > 0 implies m1.occupied@.contains(m1.buckets@[j].c) by {
            if j == i {
                assert(es0.contains(es1[0]));
                assert(es0.len() > 0);
                assert(m0.occupied@.contains(c));
            } else {
                assert(m0.occupied@.contains(m0.buckets@[j].c));
            }
        }
        assert(m1.occ_sound() && m1.occ_complete());
    }
}

/// Relates `find_bucket` on the old and the shrunk bucket sequence: the
/// bucket for the updated index's category is the updated one, every other
/// category finds what it found before.
proof fn lemma_find_first_occurrence(m0: Manager, m1: Manager, i: int, c2: C)
    requires
        m0.cats_distinct(),
        0 <= i < m0.buckets@.len(),
        m1.buckets@ == m0.buckets@.update(i, m1.buckets@[i]),
        m1.buckets@[i].c == m0.buckets@[i].c,
    ensures
        c2 == m0.buckets@[i].c ==> m1.bucket(c2) == Some(m1.buckets@[i].entries@)
            && m0.bucket(c2) == Some(m0.buckets@[i].entries@),
        c2 != m0.buckets@[i].c ==> m1.bucket(c2) == m0.bucket(c2),
{
    lemma_find_update(m0.buckets@, i, m1.buckets@[i], c2);
    if c2 == m0.buckets@[i].c {
        lemma_find_at(m0.buckets@, c2, i);
    }
}

/// The slots after firing `(s, v)` at every entry of `es`, in order: each
/// entry's body gets one invocation attempt through its reference.
pub open spec fn fire_entries<S, B: CBFn<S>>(
    slots: Seq<BodySlot<B>>,
    es: Seq<RegEntry>,
    s: S,
    v: V,
) -> Seq<BodySlot<B>>
    decreases es.len(),
{
    if es.len() == 0 {
        slots
    } else {
        fire_entries(fire_one(slots, (es[0]).sub.bref(), s, v), es.drop_first(), s, v)
    }
}

/// The slots after a poll-mode pass over `cats`: for each category in order,
/// the current value `s.current(c)` is fired at every entry of its bucket.
pub open spec fn fire_cats<S: State, B: CBFn<S>>(
    slots: Seq<BodySlot<B>>,
    m: Manager,
    cats: Seq<C>,
    s: S,
) -> Seq<BodySlot<B>>
    decreases cats.len(),
{
    if cats.len() == 0 {
        slots
    } else {
        fire_cats(
            fire_entries(slots, m.bucket_or_empty(cats[0]), s, s.current(cats[0])),
            m,
            cats.drop_first(),
            s,
        )
    }
}

/// The slots after a push-mode pass over `batch`, in order: each ignored
/// value is skipped entirely, and every other value is fired at the bucket
/// of its own category only.
pub open spec fn fire_batch<S, B: CBFn<S>>(
    slots: Seq<BodySlot<B>>,
    m: Manager,
    batch: Seq<V>,
    s: S,
) -> Seq<BodySlot<B>>
    decreases batch.len(),
{
    if batch.len() == 0 {
        slots
    } else {
        let slots1 = if (batch[0]).ignored() {
            slots
        } else {
            fire_entries(slots, m.bucket_or_empty((batch[0]).cat()), s, batch[0])
        };
        fire_batch(slots1, m, batch.drop_first(), s)
    }
}

/// Whether some non-ignored value of `batch` belongs to category `c`.
pub open spec fn touched(batch: Seq<V>, c: C) -> bool {
    exists|i: int| 0 <= i < batch.len() && !(#[trigger] batch[i]).ignored() && (batch[i]).cat() == c
}

/// Two slot sequences of the same length whose slots are pairwise in the
/// same state (vacant / live / poisoned): firing changes the bodies held by
/// live slots but never which slots are live, so liveness checks agree
/// before and after a dispatch pass.
pub open spec fn same_shape<B>(s1: Seq<BodySlot<B>>, s2: Seq<BodySlot<B>>) -> bool {
    s1.len() == s2.len() && (forall|i: int|
        0 <= i < s1.len() ==> (((#[trigger] s1[i]) is Live <==> s2[i] is Live) && (s1[i] is Vacant
            <==> s2[i] is Vacant)))
}

proof fn lemma_fire_one_shape<S, B: CBFn<S>>(slots: Seq<BodySlot<B>>, i: int, s: S, v: V)
    ensures
        same_shape(slots, fire_one(slots, i, s, v)),
{
}

proof fn lemma_fire_entries_shape<S, B: CBFn<S>>(slots: Seq<BodySlot<B>>, es: Seq<RegEntry>, s: S, v: V)
    ensures
        same_shape(slots, fire_entries(slots, es, s, v)),
    decreases es.len(),
{
    if es.len() > 0 {
        let slots1 = fire_one(slots, (es[0]).sub.bref(), s, v);
        lemma_fire_one_shape(slots, (es[0]).sub.bref(), s, v);
        lemma_fire_entries_shape(slots1, es.drop_first(), s, v);
    }
}

proof fn lemma_fire_cats_shape<S: State, B: CBFn<S>>(slots: Seq<BodySlot<B>>, m: Manager, cats: Seq<C>, s: S)
    ensures
        same_shape(slots, fire_cats(slots, m, cats, s)),
    decreases cats.len(),
{
    if cats.len() > 0 {
        let slots1 = fire_entries(slots, m.bucket_or_empty(cats[0]), s, s.current(cats[0]));
        lemma_fire_entries_shape(slots, m.bucket_or_empty(cats[0]), s, s.current(cats[0]));
        lemma_fire_cats_shape(slots1, m, cats.drop_first(), s);
    }
}

proof fn lemma_fire_batch_shape<S, B: CBFn<S>>(slots: Seq<BodySlot<B>>, m: Manager, batch: Seq<V>, s: S)
    ensures
        same_shape(slots, fire_batch(slots, m, batch, s)),
    decreases batch.len(),
{
    if batch.len() > 0 {
        let slots1 = if (batch[0]).ignored() {
            slots
        } else {
            fire_entries(slots, m.bucket_or_empty((batch[0]).cat()), s, batch[0])
        };
        if !(batch[0]).ignored() {
            lemma_fire_entries_shape(slots, m.bucket_or_empty((batch[0]).cat()), s, batch[0]);
        }
        lemma_fire_batch_shape(slots1, m, batch.drop_first(), s);
    }
}

proof fn lemma_keep_live_congruent<B>(es: Seq<RegEntry>, s1: Seq<BodySlot<B>>, s2: Seq<BodySlot<B>>)
    requires
        same_shape(s1, s2),
    ensures
        keep_live(es, s1) == keep_live(es, s2),
    decreases es.len(),
{
    if es.len() > 0 {
        lemma_keep_live_congruent(es.drop_last(), s1, s2);
        assert(slot_dead(s1, es.last().sub.bref()) == slot_dead(s2, es.last().sub.bref()));
    }
}

proof fn lemma_fire_entries_snoc<S, B: CBFn<S>>(
    slots: Seq<BodySlot<B>>,
    es: Seq<RegEntry>,
    e: RegEntry,
    s: S,
    v: V,
)
    ensures
        fire_entries(slots, es.push(e), s, v) == fire_one(
            fire_entries(slots, es, s, v),
            e.sub.bref(),
            s,
            v,
        ),
    decreases es.len(),
{
    if es.len() == 0 {
        assert(es =~= Seq::<RegEntry>::empty());
        assert(fire_entries(slots, es, s, v) == slots);
        let s1 = fire_one(slots, e.sub.bref(), s, v);
        assert(es.push(e)[0] == e);
        assert(es.push(e).drop_first() =~= Seq::<RegEntry>::empty());
        assert(fire_entries(s1, es.push(e).drop_first(), s, v) == s1);
    } else {
        assert(es.push(e)[0] == es[0]);
        assert(es.push(e).drop_first() =~= es.drop_first().push(e));
        lemma_fire_entries_snoc(fire_one(slots, (es[0]).sub.bref(), s, v), es.drop_first(), e, s, v);
    }
}

proof fn lemma_fire_cats_snoc<S: State, B: CBFn<S>>(
    slots: Seq<BodySlot<B>>,
    m: Manager,
    cats: Seq<C>,
    c: C,
    s: S,
)
    ensures
        fire_cats(slots, m, cats.push(c), s) == fire_entries(
            fire_cats(slots, m, cats, s),
            m.bucket_or_empty(c),
            s,
            s.current(c),
        ),
    decreases cats.len(),
{
    if cats.len() == 0 {
        assert(cats =~= Seq::<C>::empty());
        assert(fire_cats(slots, m, cats, s) == slots);
        let s1 = fire_entries(slots, m.bucket_or_empty(c), s, s.current(c));
        assert(cats.push(c)[0] == c);
        assert(cats.push(c).drop_first() =~= Seq::<C>::empty());
        assert(fire_cats(s1, m, cats.push(c).drop_first(), s) == s1);
    } else {
        assert(cats.push(c)[0] == cats[0]);
        assert(cats.push(c).drop_first() =~= cats.drop_first().push(c));
        lemma_fire_cats_snoc(
            fire_entries(slots, m.bucket_or_empty(cats[0]), s, s.current(cats[0])),
            m,
            cats.drop_first(),
            c,
            s,
        );
    }
}

proof fn lemma_fire_batch_snoc<S, B: CBFn<S>>(
    slots: Seq<BodySlot<B>>,
    m: Manager,
    batch: Seq<V>,
    v: V,
    s: S,
)
    ensures
        fire_batch(slots, m, batch.push(v), s) == if v.ignored() {
            fire_batch(slots, m, batch, s)
        } else {
            fire_entries(fire_batch(slots, m, batch, s), m.bucket_or_empty(v.cat()), s, v)
        },
    decreases batch.len(),
{
    if batch.len() == 0 {
        assert(batch =~= Seq::<V>::empty());
        assert(fire_batch(slots, m, batch, s) == slots);
        let s1 = if v.ignored() {
            slots
        } else {
            fire_entries(slots, m.bucket_or_empty(v.cat()), s, v)
        };
        assert(batch.push(v)[0] == v);
        assert(batch.push(v).drop_first() =~= Seq::<V>::empty());
        assert(fire_batch(s1, m, batch.push(v).drop_first(), s) == s1);
    } else {
        assert(batch.push(v)[0] == batch[0]);
        assert(batch.push(v).drop_first() =~= batch.drop_first().push(v));
        let slots1 = if (batch[0]).ignored() {
            slots
        } else {
            fire_entries(slots, m.bucket_or_empty((batch[0]).cat()), s, batch[0])
        };
        lemma_fire_batch_snoc(slots1, m, batch.drop_first(), v, s);
    }
}

#[verifier::loop_isolation(false)]
fn cat_in(cc: &Vec<C>, c: C) -> (r: bool)
    ensures
        r == cc@.contains(c),
{
    let mut k: usize = 0;
    while k < cc.len()
        invariant
            k <= cc@.len(),
            forall|j: int| 0 <= j < k ==> cc@[j] != c,
        decreases cc@.len() - k,
    {
        if cc[k] == c {
            proof {
                assert(cc@.contains(c));
            }
            return true;
        }
        k = k + 1;
    }
    proof {
        if cc@.contains(c) {
            let j = choose|j: int| 0 <= j < cc@.len() && cc@[j] == c;
            assert(false);
        }
    }
    false
}

/// A request to the registry, usable by an external message-passing
/// front-end that drives the registry as a single synchronous handler.
pub enum RegRequest {
    /// Register every subscription of the batch. The outer category only
    /// tags the batch for transport: each subscription's own stored
    /// category governs its bucket placement.
    Register(C, Vec<CB>),
    /// Unregister the entries the handles refer to; handles that no longer
    /// resolve are silently skipped.
    Unregister(Vec<RegHandle>),
}

/// The registry's answer to one [`RegRequest`].
pub enum RegResponse {
    /// The transport category of the request and one weak handle per input
    /// subscription, in input order.
    Register(C, Vec<RegHandle>),
    /// Acknowledgement of an unregistration batch, with no payload.
    Unregister,
}

/// The registry entries that registering the batch `cbs` with fresh
/// identity tokens starting at `base` adds to the bucket of category `c`,
/// in registration order.
pub open spec fn entries_for(cbs: Seq<CB>, base: u64, c: C) -> Seq<RegEntry>
    decreases cbs.len(),
{
    if cbs.len() == 0 {
        Seq::empty()
    } else {
        let pre = entries_for(cbs.drop_last(), base, c);
        if cbs.last().cat() == c {
            pre.push(RegEntry { id: (base + cbs.len() - 1) as u64, sub: cbs.last() })
        } else {
            pre
        }
    }
}

/// The entries of `es` left after unregistering, in order, every handle of
/// `hs` whose category is `c`.
pub open spec fn remove_handles(es: Seq<RegEntry>, hs: Seq<RegHandle>, c: C) -> Seq<RegEntry>
    decreases hs.len(),
{
    if hs.len() == 0 {
        es
    } else {
        let pre = remove_handles(es, hs.drop_last(), c);
        if hs.last().cat() == c {
            remove_id(pre, hs.last().id())
        } else {
            pre
        }
    }
}

proof fn lemma_fire_entries_untouched<S, B: CBFn<S>>(
    slots: Seq<BodySlot<B>>,
    es: Seq<RegEntry>,
    s: S,
    v: V,
    i: int,
)
    requires
        forall|k: int| 0 <= k < es.len() ==> (#[trigger] es[k]).sub.bref() != i,
    ensures
        fire_entries(slots, es, s, v).len() == slots.len(),
        0 <= i < slots.len() ==> fire_entries(slots, es, s, v)[i] == slots[i],
    decreases es.len(),
{
    if es.len() > 0 {
        let slots1 = fire_one(slots, (es[0]).sub.bref(), s, v);
        assert(forall|k: int|
            0 <= k < es.drop_first().len() ==> (#[trigger] es.drop_first()[k]).sub.bref() != i);
        lemma_fire_entries_untouched(slots1, es.drop_first(), s, v, i);
    }
}

proof fn lemma_fire_entries_once<S, B: CBFn<S>>(
    slots: Seq<BodySlot<B>>,
    es: Seq<RegEntry>,
    s: S,
    v: V,
    k: int,
)
    requires
        0 <= k < es.len(),
        slot_live(slots, (es[k]).sub.bref()),
        forall|k2: int|
            0 <= k2 < es.len() && k2 != k ==> (#[trigger] es[k2]).sub.bref() != (es[k]).sub.bref(),
    ensures
        fire_entries(slots, es, s, v).len() == slots.len(),
        fire_entries(slots, es, s, v)[(es[k]).sub.bref()] == BodySlot::<B>::Live(
            (slots[(es[k]).sub.bref()])->Live_0.on_call(s, v),
        ),
    decreases es.len(),
{
    let i = (es[k]).sub.bref();
    let slots1 = fire_one(slots, (es[0]).sub.bref(), s, v);
    if k == 0 {
        assert(slots1[i] == BodySlot::<B>::Live((slots[i])->Live_0.on_call(s, v)));
        assert(forall|k2: int|
            0 <= k2 < es.drop_first().len() ==> (#[trigger] es.drop_first()[k2]).sub.bref() != i);
        lemma_fire_entries_untouched(slots1, es.drop_first(), s, v, i);
    } else {
        assert((es[0]).sub.bref() != i);
        assert(slots1[i] == slots[i]);
        assert(slot_live(slots1, i));
        assert(es.drop_first()[k - 1] == es[k]);
        assert forall|k2: int|
            0 <= k2 < es.drop_first().len() && k2 != k - 1 implies (#[trigger] es.drop_first()[
            k2]).sub.bref() != (es.drop_first()[k - 1]).sub.bref() by {
            assert(es.drop_first()[k2] == es[k2 + 1]);
        }
        lemma_fire_entries_once(slots1, es.drop_first(), s, v, k - 1);
    }
}

proof fn lemma_fire_cats_untouched<S: State, B: CBFn<S>>(
    slots: Seq<BodySlot<B>>,
    m: Manager,
    cats: Seq<C>,
    s: S,
    i: int,
)
    requires
        forall|j: int, k: int|
            0 <= j < cats.len() && 0 <= k < m.bucket_or_empty(cats[j]).len() ==> (
            #[trigger] m.bucket_or_empty(cats[j])[k]).sub.bref() != i,
    ensures
        fire_cats(slots, m, cats, s).len() == slots.len(),
        0 <= i < slots.len() ==> fire_cats(slots, m, cats, s)[i] == slots[i],
    decreases cats.len(),
{
    if cats.len() > 0 {
        let es = m.bucket_or_empty(cats[0]);
        let slots1 = fire_entries(slots, es, s, s.current(cats[0]));
        assert forall|k: int| 0 <= k < es.len() implies (#[trigger] es[k]).sub.bref() != i by {
            assert(m.bucket_or_empty(cats[0])[k] == es[k]);
        }
        lemma_fire_entries_untouched(slots, es, s, s.current(cats[0]), i);
        assert forall|j: int, k: int|
            0 <= j < cats.drop_first().len() && 0 <= k < m.bucket_or_empty(
                cats.drop_first()[j],
            ).len() implies (#[trigger] m.bucket_or_empty(cats.drop_first()[j])[k]).sub.bref()
            != i by {
            assert(cats.drop_first()[j] == cats[j + 1]);
        }
        lemma_fire_cats_untouched(slots1, m, cats.drop_first(), s, i);
    }
}

/// Registering subscriptions with pairwise distinct live callback bodies
/// under a category and then running poll-mode dispatch invokes each of
/// them exactly once, every one receiving the same state and the same
/// current value of its category: the body at a uniquely referenced live
/// slot ends up invoked once with `(s, s.current(c))`, and nothing else
/// ever touches that slot during the pass.
pub proof fn lemma_poll_invokes_each_once<S: State, B: CBFn<S>>(
    slots: Seq<BodySlot<B>>,
    m: Manager,
    s: S,
    c: C,
    k: int,
)
    requires
        m.wf(),
        m.occupies(c),
        0 <= k < m.bucket_or_empty(c).len(),
        slot_live(slots, (m.bucket_or_empty(c)[k]).sub.bref()),
        forall|c2: C, k2: int|
            m.occupies(c2) && 0 <= k2 < m.bucket_or_empty(c2).len() && !(c2 == c && k2 == k) ==> (
            #[trigger] m.bucket_or_empty(c2)[k2]).sub.bref() != (m.bucket_or_empty(c)[
                k]).sub.bref(),
    ensures
        fire_cats(slots, m, m.occupied(), s).len() == slots.len(),
        fire_cats(slots, m, m.occupied(), s)[(m.bucket_or_empty(c)[k]).sub.bref()]
            == BodySlot::<B>::Live(
            (slots[(m.bucket_or_empty(c)[k]).sub.bref()])->Live_0.on_call(s, s.current(c)),
        ),
{
    let i = (m.bucket_or_empty(c)[k]).sub.bref();
    lemma_poll_once_inner(slots, m, m.occupied(), s, c, k);
}

proof fn lemma_poll_once_inner<S: State, B: CBFn<S>>(
    slots: Seq<BodySlot<B>>,
    m: Manager,
    cats: Seq<C>,
    s: S,
    c: C,
    k: int,
)
    requires
        cats.contains(c),
        forall|j1: int, j2: int| 0 <= j1 < j2 < cats.len() ==> cats[j1] != cats[j2],
        0 <= k < m.bucket_or_empty(c).len(),
        slot_live(slots, (m.bucket_or_empty(c)[k]).sub.bref()),
        forall|j: int, k2: int|
            0 <= j < cats.len() && 0 <= k2 < m.bucket_or_empty(cats[j]).len() && !(cats[j] == c
                && k2 == k) ==> (#[trigger] m.bucket_or_empty(cats[j])[k2]).sub.bref() != (
            m.bucket_or_empty(c)[k]).sub.bref(),
    ensures
        fire_cats(slots, m, cats, s).len() == slots.len(),
        fire_cats(slots, m, cats, s)[(m.bucket_or_empty(c)[k]).sub.bref()] == BodySlot::<B>::Live(
            (slots[(m.bucket_or_empty(c)[k]).sub.bref()])->Live_0.on_call(s, s.current(c)),
        ),
    decreases cats.len(),
{
    let i = (m.bucket_or_empty(c)[k]).sub.bref();
    let es0 = m.bucket_or_empty(cats[0]);
    let slots1 = fire_entries(slots, es0, s, s.current(cats[0]));
    if cats[0] == c {
        assert forall|k2: int| 0 <= k2 < es0.len() && k2 != k implies (
        #[trigger] es0[k2]).sub.bref() != (es0[k]).sub.bref() by {
            assert(m.bucket_or_empty(cats[0])[k2] == es0[k2]);
        }
        lemma_fire_entries_once(slots, es0, s, s.current(cats[0]), k);
        assert forall|j: int, k2: int|
            0 <= j < cats.drop_first().len() && 0 <= k2 < m.bucket_or_empty(
                cats.drop_first()[j],
            ).len() implies (#[trigger] m.bucket_or_empty(cats.drop_first()[j])[k2]).sub.bref()
            != i by {
            assert(cats.drop_first()[j] == cats[j + 1]);
            assert(cats[j + 1] != c);
        }
        lemma_fire_cats_untouched(slots1, m, cats.drop_first(), s, i);
    } else {
        assert forall|k2: int| 0 <= k2 < es0.len() implies (#[trigger] es0[k2]).sub.bref()
            != i by {
            assert(m.bucket_or_empty(cats[0])[k2] == es0[k2]);
        }
        lemma_fire_entries_untouched(slots, es0, s, s.current(cats[0]), i);
        assert(slot_live(slots1, i));
        assert(cats.drop_first().contains(c)) by {
            let j = choose|j: int| 0 <= j < cats.len() && cats[j] == c;
            assert(cats.drop_first()[j - 1] == c);
        }
        assert forall|j: int, k2: int|
            0 <= j < cats.drop_first().len() && 0 <= k2 < m.bucket_or_empty(
                cats.drop_first()[j],
            ).len() && !(cats.drop_first()[j] == c && k2 == k) implies (
        #[trigger] m.bucket_or_empty(cats.drop_first()[j])[k2]).sub.bref() != i by {
            assert(cats.drop_first()[j] == cats[j + 1]);
        }
        lemma_poll_once_inner(slots1, m, cats.drop_first(), s, c, k);
    }
}

proof fn lemma_fire_entries_nonlive<S, B: CBFn<S>>(
    slots: Seq<BodySlot<B>>,
    es: Seq<RegEntry>,
    s: S,
    v: V,
    i: int,
)
    requires
        0 <= i < slots.len(),
        !(slots[i] is Live),
    ensures
        fire_entries(slots, es, s, v).len() == slots.len(),
        fire_entries(slots, es, s, v)[i] == slots[i],
    decreases es.len(),
{
    if es.len() > 0 {
        let slots1 = fire_one(slots, (es[0]).sub.bref(), s, v);
        lemma_fire_entries_nonlive(slots1, es.drop_first(), s, v, i);
    }
}

proof fn lemma_fire_cats_nonlive<S: State, B: CBFn<S>>(
    slots: Seq<BodySlot<B>>,
    m: Manager,
    cats: Seq<C>,
    s: S,
    i: int,
)
    requires
        0 <= i < slots.len(),
        !(slots[i] is Live),
    ensures
        fire_cats(slots, m, cats, s).len() == slots.len(),
        fire_cats(slots, m, cats, s)[i] == slots[i],
    decreases cats.len(),
{
    if cats.len() > 0 {
        let slots1 = fire_entries(slots, m.bucket_or_empty(cats[0]), s, s.current(cats[0]));
        lemma_fire_entries_nonlive(slots, m.bucket_or_empty(cats[0]), s, s.current(cats[0]), i);
        lemma_fire_cats_nonlive(slots1, m, cats.drop_first(), s, i);
    }
}

/// A subscription whose callback body was released before a dispatch pass
/// is never invoked by it (its slot is left exactly as it was), the pruning
/// that follows the pass drops it from its bucket, and when every
/// subscription of the category is dead the pruned bucket comes out empty,
/// so the category leaves the occupied list.
pub proof fn lemma_dead_pruned<S: State, B: CBFn<S>>(
    slots: Seq<BodySlot<B>>,
    m: Manager,
    s: S,
    c: C,
    k: int,
)
    requires
        m.wf(),
        m.occupies(c),
        0 <= k < m.bucket_or_empty(c).len(),
        slot_dead(slots, (m.bucket_or_empty(c)[k]).sub.bref()),
    ensures
        !keep_live(m.bucket_or_empty(c), slots).contains(m.bucket_or_empty(c)[k]),
        (forall|k2: int|
            0 <= k2 < m.bucket_or_empty(c).len() ==> slot_dead(
                slots,
                (#[trigger] m.bucket_or_empty(c)[k2]).sub.bref(),
            )) ==> keep_live(m.bucket_or_empty(c), slots).len() == 0,
        0 <= (m.bucket_or_empty(c)[k]).sub.bref() < slots.len() ==> fire_cats(
            slots,
            m,
            m.occupied(),
            s,
        )[(m.bucket_or_empty(c)[k]).sub.bref()] == slots[(m.bucket_or_empty(c)[k]).sub.bref()],
{
    let es = m.bucket_or_empty(c);
    let e = es[k];
    lemma_keep_live_props(es, slots);
    if keep_live(es, slots).contains(e) {
        let j = choose|j: int| 0 <= j < keep_live(es, slots).len() && keep_live(es, slots)[j] == e;
        assert(!slot_dead(slots, (keep_live(es, slots)[j]).sub.bref()));
    }
    if forall|k2: int|
        0 <= k2 < es.len() ==> slot_dead(slots, (#[trigger] es[k2]).sub.bref()) {
        if keep_live(es, slots).len() > 0 {
            let kept = keep_live(es, slots)[0];
            assert(es.contains(kept));
            let j = choose|j: int| 0 <= j < es.len() && es[j] == kept;
            assert(slot_dead(slots, (es[j]).sub.bref()));
        }
    }
    if 0 <= e.sub.bref() < slots.len() {
        lemma_fire_cats_nonlive(slots, m, m.occupied(), s, e.sub.bref());
    }
}

/// Push-mode dispatch of a batch holding one ignored and one real value
/// fires exactly the real value's bucket: the whole pass equals one firing
/// pass over that bucket with that value, a uniquely referenced live body
/// in it is invoked exactly once with `(s, v)`, and every slot that bucket
/// does not reference is untouched.
pub proof fn lemma_push_pair<S, B: CBFn<S>>(slots: Seq<BodySlot<B>>, m: Manager, s: S, v: V, k: int)
    requires
        !v.ignored(),
        0 <= k < m.bucket_or_empty(v.cat()).len(),
        slot_live(slots, (m.bucket_or_empty(v.cat())[k]).sub.bref()),
        forall|k2: int|
            0 <= k2 < m.bucket_or_empty(v.cat()).len() && k2 != k ==> (
            #[trigger] m.bucket_or_empty(v.cat())[k2]).sub.bref() != (m.bucket_or_empty(v.cat())[
                k]).sub.bref(),
    ensures
        fire_batch(slots, m, seq![V::Ignored, v], s) == fire_entries(
            slots,
            m.bucket_or_empty(v.cat()),
            s,
            v,
        ),
        fire_entries(slots, m.bucket_or_empty(v.cat()), s, v)[(m.bucket_or_empty(v.cat())[
            k]).sub.bref()] == BodySlot::<B>::Live(
            (slots[(m.bucket_or_empty(v.cat())[k]).sub.bref()])->Live_0.on_call(s, v),
        ),
        forall|i2: int|
            0 <= i2 < slots.len() && (forall|k2: int|
                0 <= k2 < m.bucket_or_empty(v.cat()).len() ==> (
                #[trigger] m.bucket_or_empty(v.cat())[k2]).sub.bref() != i2)
                ==> fire_entries(slots, m.bucket_or_empty(v.cat()), s, v)[i2] == slots[i2],
{
    let es = m.bucket_or_empty(v.cat());
    let batch: Seq<V> = seq![V::Ignored, v];
    let b2: Seq<V> = seq![v];
    assert(batch.drop_first() =~= b2);
    assert(b2.drop_first() =~= Seq::<V>::empty());
    assert(batch[0] == V::Ignored);
    assert(fire_batch(slots, m, batch, s) == fire_batch(slots, m, batch.drop_first(), s));
    assert(b2[0] == v);
    assert(fire_batch(fire_entries(slots, es, s, v), m, Seq::<V>::empty(), s) == fire_entries(
        slots,
        es,
        s,
        v,
    ));
    assert(fire_batch(slots, m, b2, s) == fire_batch(
        fire_entries(slots, es, s, v),
        m,
        b2.drop_first(),
        s,
    ));
    lemma_fire_entries_once(slots, es, s, v, k);
    assert forall|i2: int|
        0 <= i2 < slots.len() && (forall|k2: int|
            0 <= k2 < es.len() ==> (#[trigger] es[k2]).sub.bref() != i2) implies fire_entries(
        slots,
        es,
        s,
        v,
    )[i2] == slots[i2] by {
        lemma_fire_entries_untouched(slots, es, s, v, i2);
    }
}

/// An identity token of a subscription pruned because its body was dead is
/// absent from the whole registry afterwards: absent from the pruned bucket
/// and never present in any other bucket. Unregistering with a handle that
/// carries it therefore resolves to nothing and is a silent no-op.
pub proof fn lemma_pruned_id_absent<B>(m: Manager, slots: Seq<BodySlot<B>>, c: C, k: int)
    requires
        m.wf(),
        0 <= k < m.bucket_or_empty(c).len(),
        slot_dead(slots, (m.bucket_or_empty(c)[k]).sub.bref()),
    ensures
        !contains_id(keep_live(m.bucket_or_empty(c), slots), (m.bucket_or_empty(c)[k]).id),
        forall|c2: C|
            c2 != c ==> !contains_id(m.bucket_or_empty(c2), (m.bucket_or_empty(c)[k]).id),
{
    let es = m.bucket_or_empty(c);
    let id = (es[k]).id;
    let j = lemma_find_witness(m.buckets@, c);
    assert(es == m.buckets@[j].entries@);
    lemma_keep_live_props(es, slots);
    if contains_id(keep_live(es, slots), id) {
        let k2 = choose|k2: int|
            0 <= k2 < keep_live(es, slots).len() && (keep_live(es, slots)[k2]).id == id;
        let kept = keep_live(es, slots)[k2];
        assert(!slot_dead(slots, kept.sub.bref()));
        assert(es.contains(kept));
        let k3 = choose|k3: int| 0 <= k3 < es.len() && es[k3] == kept;
        assert((m.buckets@[j].entries@[k3]).id == (m.buckets@[j].entries@[k]).id);
        assert(k3 == k);
    }
    assert forall|c2: C| c2 != c implies !contains_id(m.bucket_or_empty(c2), id) by {
        if contains_id(m.bucket_or_empty(c2), id) {
            let k2 = choose|k2: int|
                0 <= k2 < m.bucket_or_empty(c2).len() && (m.bucket_or_empty(c2)[k2]).id == id;
            let j2 = lemma_find_witness(m.buckets@, c2);
            assert((m.buckets@[j2].entries@[k2]).id == (m.buckets@[j].entries@[k]).id);
        }
    }
}

/// Two subscriptions registered under equal categories are independent:
/// unregistering one through its own handle leaves the other, structurally
/// identical or not, in the bucket, because entries are told apart by their
/// identity tokens and never by value.
pub proof fn lemma_unregister_independent(m: Manager, c: C, k1: int, k2: int)
    requires
        m.wf(),
        0 <= k1 < m.bucket_or_empty(c).len(),
        0 <= k2 < m.bucket_or_empty(c).len(),
        k1 != k2,
    ensures
        remove_id(m.bucket_or_empty(c), (m.bucket_or_empty(c)[k1]).id).contains(
            m.bucket_or_empty(c)[k2],
        ),
        remove_id(m.bucket_or_empty(c), (m.bucket_or_empty(c)[k1]).id).len()
            == m.bucket_or_empty(c).len() - 1,
{
    let es = m.bucket_or_empty(c);
    let id = (es[k1]).id;
    let j = lemma_find_witness(m.buckets@, c);
    assert(es == m.buckets@[j].entries@);
    assert forall|a: int, b: int| 0 <= a < b < es.len() implies (es[a]).id != (es[b]).id by {
        assert((m.buckets@[j].entries@[a]).id == (es[a]).id);
    }
    lemma_remove_id_props(es, id);
    assert((es[k2]).id != id);
    lemma_remove_id_count(es, id, k1);
}

proof fn lemma_remove_id_count(es: Seq<RegEntry>, id: u64, k: int)
    requires
        0 <= k < es.len(),
        (es[k]).id == id,
        forall|a: int, b: int| 0 <= a < b < es.len() ==> (es[a]).id != (es[b]).id,
    ensures
        remove_id(es, id).len() == es.len() - 1,
    decreases es.len(),
{
    let de = es.drop_last();
    if k == es.len() - 1 {
        assert(!contains_id(de, id)) by {
            if contains_id(de, id) {
                let a = choose|a: int| 0 <= a < de.len() && (de[a]).id == id;
                assert((es[a]).id == (es[k]).id);
            }
        }
        lemma_remove_id_props(de, id);
        assert(remove_id(de, id) == de);
    } else {
        assert((es.last()).id != id) by {
            assert((es[k]).id == id);
            assert((es[k]).id != (es[es.len() - 1]).id);
        }
        assert(de[k] == es[k]);
        assert(forall|a: int, b: int| 0 <= a < b < de.len() ==> (de[a]).id != (de[b]).id);
        lemma_remove_id_count(de, id, k);
    }
}

/// A category is occupied exactly when its bucket holds at least one entry.
/// This invariant is maintained by every registry operation.
pub proof fn lemma_occupied_iff_nonempty(m: Manager, c: C)
    requires
        m.wf(),
    ensures
        m.occupies(c) <==> m.bucket_or_empty(c).len() > 0,
{
    if m.bucket_or_empty(c).len() > 0 {
        let j = lemma_find_witness(m.buckets@, c);
        assert(m.buckets@[j].entries@.len() > 0);
    }
    if m.bucket_or_empty(c).len() == 0 {
        m.lemma_not_occupied_when_empty(c);
    }
}

} // verus!
