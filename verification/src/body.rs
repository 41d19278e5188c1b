//! Callback bodies, the store that owns them, and weak references into it.
//!
//! A subscriber's callback body lives in a [`BodyStore`] slot; the registry
//! only ever holds a [`BodyRef`], a non-owning reference checked for
//! liveness at each invocation. Releasing a body leaves the slot vacant, so
//! every outstanding reference becomes unresolvable rather than dangling.
//! A slot may also be marked poisoned, standing for a body whose previous
//! invocation aborted abnormally: invoking it is a tolerated, silent no-op.

use vstd::prelude::*;

use crate::event::V;

verus! {

/// Callback logic owned by a subscriber. `on_call` is the implementor's own
/// description of what one invocation with a state and an event value does
/// to the body; `call` performs exactly one such invocation.
pub trait CBFn<S>: Sized {
    /// The body after one invocation with state `s` and value `v`.
    spec fn on_call(self, s: S, v: V) -> Self;

    /// Invoke the callback once with `(s, v)`.
    fn call(&mut self, s: &S, v: &V)
        ensures
            *final(self) == old(self).on_call(*s, *v),
    ;
}

/// One slot of a [`BodyStore`].
pub enum BodySlot<B> {
    /// The owner released the body: references to this slot are dead.
    Vacant,
    /// The body is present and invocable.
    Live(B),
    /// A prior invocation aborted while the body was held: invocations are
    /// silently skipped, but the reference is not dead.
    Poisoned,
}

/// A non-owning reference to a body store slot.
#[derive(Clone, Copy)]
pub struct BodyRef {
    idx: usize,
}

impl BodyRef {
    /// The slot this reference points at.
    pub closed spec fn index(self) -> int {
        self.idx as int
    }
}

/// Owns the callback bodies of all subscribers. Slots are never reused, so a
/// [`BodyRef`] is a stable identity for the body it was created for.
pub struct BodyStore<B> {
    slots: Vec<BodySlot<B>>,
}

/// Whether slot `i` holds a live body.
pub open spec fn slot_live<B>(slots: Seq<BodySlot<B>>, i: int) -> bool {
    0 <= i < slots.len() && slots[i] is Live
}

/// Whether a reference to slot `i` is dead: the slot does not exist or its
/// body has been released. A poisoned slot is not dead.
pub open spec fn slot_dead<B>(slots: Seq<BodySlot<B>>, i: int) -> bool {
    !(0 <= i < slots.len()) || slots[i] is Vacant
}

/// The slots after one invocation attempt through a reference to slot `i`
/// with `(s, v)`: a live body is invoked once, any other slot is untouched.
pub open spec fn fire_one<S, B: CBFn<S>>(slots: Seq<BodySlot<B>>, i: int, s: S, v: V) -> Seq<
    BodySlot<B>,
> {
    if slot_live(slots, i) {
        slots.update(i, BodySlot::Live(slots[i]->Live_0.on_call(s, v)))
    } else {
        slots
    }
}

impl<B> BodyStore<B> {
    /// The slots, for specification purposes.
    pub closed spec fn slots(self) -> Seq<BodySlot<B>> {
        self.slots@
    }

    /// An empty store.
    pub fn new() -> (st: BodyStore<B>)
        ensures
            st.slots() =~= Seq::<BodySlot<B>>::empty(),
    {
        BodyStore { slots: Vec::new() }
    }

    /// Place a new body in a fresh slot and return a reference to it.
    pub fn insert(&mut self, body: B) -> (r: BodyRef)
        ensures
            r.index() == old(self).slots().len(),
            final(self).slots() == old(self).slots().push(BodySlot::Live(body)),
    {
        let idx = self.slots.len();
        self.slots.push(BodySlot::Live(body));
        BodyRef { idx }
    }

    /// Release the body in `r`'s slot: the owner destroys it, and every
    /// reference to the slot becomes dead. Releasing an unresolvable or
    /// already vacant slot does nothing.
    pub fn release(&mut self, r: BodyRef)
        ensures
            if 0 <= r.index() < old(self).slots().len() {
                final(self).slots() == old(self).slots().update(r.index(), BodySlot::<B>::Vacant)
            } else {
                final(self).slots() == old(self).slots()
            },
    {
        if r.idx < self.slots.len() {
            self.slots[r.idx] = BodySlot::Vacant;
        }
        proof {
            if !(0 <= r.index() < old(self).slots().len()) {
                assert(self.slots() =~= old(self).slots());
            }
        }
    }

    /// Mark the body in `r`'s slot poisoned, as a prior invocation that
    /// aborted abnormally while holding it would. Only a live slot can be
    /// poisoned.
    pub fn poison(&mut self, r: BodyRef)
        ensures
            if slot_live(old(self).slots(), r.index()) {
                final(self).slots() == old(self).slots().update(r.index(), BodySlot::<B>::Poisoned)
            } else {
                final(self).slots() == old(self).slots()
            },
    {
        if r.idx < self.slots.len() {
            let live = match &self.slots[r.idx] {
                BodySlot::Live(_) => true,
                _ => false,
            };
            if live {
                self.slots[r.idx] = BodySlot::Poisoned;
            }
        }
        proof {
            if !slot_live(old(self).slots(), r.index()) {
                assert(self.slots() =~= old(self).slots());
            }
        }
    }

    /// Whether `r` resolves to a live body.
    pub fn is_live(&self, r: BodyRef) -> (b: bool)
        ensures
            b == slot_live(self.slots(), r.index()),
    {
        if r.idx < self.slots.len() {
            match &self.slots[r.idx] {
                BodySlot::Live(_) => true,
                _ => false,
            }
        } else {
            false
        }
    }

    /// Whether `r` is dead: its slot does not exist or its body has been
    /// released. A poisoned slot is not dead.
    pub fn is_dead(&self, r: BodyRef) -> (d: bool)
        ensures
            d == slot_dead(self.slots(), r.index()),
    {
        if r.idx < self.slots.len() {
            match &self.slots[r.idx] {
                BodySlot::Vacant => true,
                _ => false,
            }
        } else {
            true
        }
    }

    /// Read the live body `r` points at, if any.
    pub fn body(&self, r: BodyRef) -> (b: Option<&B>)
        ensures
            match b {
                Some(body) => slot_live(self.slots(), r.index()) && *body == (self.slots()[
                    r.index()
                ])->Live_0,
                None => !slot_live(self.slots(), r.index()),
            },
    {
        if r.idx < self.slots.len() {
            match &self.slots[r.idx] {
                BodySlot::Live(body) => Some(body),
                _ => None,
            }
        } else {
            None
        }
    }

    /// Attempt one invocation through `r`, per the subscription invocation
    /// policy: a dead reference reports `Err` and invokes nothing; a
    /// poisoned slot is a successful no-op; a live body is invoked once
    /// with `(s, v)`.
    pub fn invoke<S>(&mut self, r: BodyRef, s: &S, v: &V) -> (res: Result<(), ()>) where
        B: CBFn<S>,

        ensures
            final(self).slots() == fire_one(old(self).slots(), r.index(), *s, *v),
            res is Ok <==> !slot_dead(old(self).slots(), r.index()),
    {
        if r.idx >= self.slots.len() {
            return Err(());
        }
        let slot = self.slots.remove(r.idx);
        match slot {
            BodySlot::Live(mut b) => {
                b.call(s, v);
                self.slots.insert(r.idx, BodySlot::Live(b));
                proof {
                    assert(self.slots() =~= fire_one(old(self).slots(), r.index(), *s, *v));
                }
                Ok(())
            },
            BodySlot::Poisoned => {
                self.slots.insert(r.idx, BodySlot::Poisoned);
                proof {
                    assert(self.slots() =~= old(self).slots());
                }
                Ok(())
            },
            BodySlot::Vacant => {
                self.slots.insert(r.idx, BodySlot::Vacant);
                proof {
                    assert(self.slots() =~= old(self).slots());
                }
                Err(())
            },
        }
    }
}

/// A callback body that records how it was invoked: the number of
/// invocations and the last value received. Useful for observing dispatch.
#[derive(PartialEq, Eq, Clone, Copy, Debug)]
pub struct RecordingBody {
    /// How many times the body has been invoked (saturating).
    pub count: u64,
    /// The value of the most recent invocation.
    pub last: Option<V>,
}

impl RecordingBody {
    /// A body that has never been invoked.
    pub fn new() -> (b: RecordingBody)
        ensures
            b.count == 0,
            b.last is None,
    {
        RecordingBody { count: 0, last: None }
    }
}

impl<S> CBFn<S> for RecordingBody {
    open spec fn on_call(self, s: S, v: V) -> Self {
        RecordingBody {
            count: if self.count == u64::MAX {
                u64::MAX
            } else {
                (self.count + 1) as u64
            },
            last: Some(v),
        }
    }

    fn call(&mut self, s: &S, v: &V) {
        if self.count < u64::MAX {
            self.count = self.count + 1;
        }
        self.last = Some(*v);
    }
}

} // verus!
