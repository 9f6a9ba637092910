use crate::key::Key;
use crate::storage::dense::DenseMap;
use vstd::prelude::*;

verus! {

/// An event, with the number of its kind.
pub struct ErasedEvent<E> {
    ty: u64,
    event: E,
}

impl<E> ErasedEvent<E> {
    pub closed spec fn kind(&self) -> u64 {
        self.ty
    }

    pub closed spec fn payload(&self) -> E {
        self.event
    }

    /// The event `event` of the kind `ty`.
    pub closed spec fn new_spec(ty: u64, event: E) -> Self {
        ErasedEvent { ty, event }
    }

    pub fn new(ty: u64, event: E) -> (r: Self)
        ensures
            r == Self::new_spec(ty, event),
            r.kind() == ty,
            r.payload() == event,
    {
        ErasedEvent { ty, event }
    }

    pub fn ty(&self) -> (r: &u64)
        ensures
            *r == self.kind(),
    {
        &self.ty
    }

    pub fn data(&self) -> (r: &E)
        ensures
            *r == self.payload(),
    {
        &self.event
    }

    /// The event, where it is of the kind `ty`.
    pub fn cast(&self, ty: u64) -> (r: Option<&E>)
        ensures
            self.kind() == ty ==> r == Some(&self.payload()),
            self.kind() != ty ==> r is None,
    {
        if self.ty == ty {
            Some(&self.event)
        } else {
            None
        }
    }

    /// The event, to change in place, where it is of the kind `ty`.
    pub fn cast_mut(&mut self, ty: u64) -> (r: Option<&mut E>)
        ensures
            old(self).kind() == ty ==> r is Some && *r->0 == old(self).payload()
                && final(self).payload() == *final(r->0),
            old(self).kind() != ty ==> r is None && *final(self) == *old(self),
            final(self).kind() == old(self).kind(),
    {
        if self.ty == ty {
            Some(&mut self.event)
        } else {
            None
        }
    }

    pub fn take(self) -> (r: E)
        ensures
            r == self.payload(),
    {
        self.event
    }
}

/// What is known of a kind of event: its priority.
pub struct EventMeta {
    priority: i32,
}

impl EventMeta {
    pub closed spec fn spec_priority(&self) -> i32 {
        self.priority
    }

    pub fn new(priority: i32) -> (r: Self)
        ensures
            r.spec_priority() == priority,
    {
        EventMeta { priority }
    }

    pub fn priority(&self) -> (r: i32)
        ensures
            r == self.spec_priority(),
    {
        self.priority
    }
}

/// A record that events of one kind produced outputs.
#[derive(Clone, Copy, Debug, PartialEq, Eq, Structural)]
pub struct EventInvocation {
    pub event: u64,
    pub priority: i32,
}

impl EventInvocation {
    pub fn new(event: u64, priority: i32) -> (r: Self)
        ensures
            r.event == event,
            r.priority == priority,
    {
        EventInvocation { event, priority }
    }

    pub fn priority(&self) -> (r: i32)
        ensures
            r == self.priority,
    {
        self.priority
    }

    pub fn event(&self) -> (r: u64)
        ensures
            r == self.event,
    {
        self.event
    }
}

/// The events of `s` among its first `n`, in order, that are (`want`) or
/// are not (`!want`) of the kind `ty`.
pub open spec fn of_kind<E>(s: Seq<ErasedEvent<E>>, n: int, ty: u64, want: bool) -> Seq<
    ErasedEvent<E>,
>
    decreases n,
{
    if n <= 0 {
        Seq::empty()
    } else if (s[n - 1].kind() == ty) == want {
        of_kind(s, n - 1, ty, want).push(s[n - 1])
    } else {
        of_kind(s, n - 1, ty, want)
    }
}

/// A queue of events, and the kinds of event that are known.
pub struct Events<E> {
    events: Vec<ErasedEvent<E>>,
    metas: DenseMap<u64, EventMeta>,
}

impl<E> Events<E> {
    pub closed spec fn queue(&self) -> Seq<ErasedEvent<E>> {
        self.events@
    }

    pub closed spec fn meta_map(&self) -> DenseMap<u64, EventMeta> {
        self.metas
    }

    /// The kind `ty` is known.
    pub open spec fn registered(&self, ty: u64) -> bool {
        self.meta_map().has(ty)
    }

    pub open spec fn wf(&self) -> bool {
        &&& self.meta_map().wf()
        &&& self.meta_map().is_proper()
    }

    pub fn new() -> (r: Self)
        ensures
            r.wf(),
            r.queue() == Seq::<ErasedEvent<E>>::empty(),
            r.meta_map().key_seq() == Seq::<u64>::empty(),
    {
        Events { events: Vec::new(), metas: DenseMap::new() }
    }

    /// Makes the kind `ty` known with the priority `priority`, and gives an
    /// empty list for the outputs of its events.
    pub fn register<O>(&mut self, ty: u64, priority: i32) -> (r: EventOutputs<O>)
        requires
            old(self).wf(),
        ensures
            final(self).wf(),
            final(self).queue() == old(self).queue(),
            final(self).registered(ty),
            final(self).meta_map().lookup(ty).spec_priority() == priority,
            forall|t: u64| t != ty ==> #[trigger] final(self).meta_map().same_entry(&old(self).meta_map(), t),
            r@ == Seq::<O>::empty(),
    {
        let ghost before = self.metas;
        let replaced = self.metas.insert(ty, EventMeta::new(priority));
        proof {
            before.lemma_wf();
            if before.has(ty) {
                assert(before.key_seq()[before.slot(ty)].spec_key() == ty);
                assert(before.key_seq().update(before.slot(ty), ty) =~= before.key_seq());
                before.lemma_update_lookup(&self.metas, ty, self.metas.lookup(ty));
            } else {
                before.lemma_insert_lookup(&self.metas, ty, self.metas.lookup(ty));
            }
        }
        EventOutputs::new()
    }

    /// What is known of the kind `ty`.
    pub fn meta(&self, ty: u64) -> (r: &EventMeta)
        requires
            self.wf(),
            self.registered(ty),
        ensures
            *r == self.meta_map().lookup(ty),
    {
        self.metas.get(&ty).unwrap()
    }

    /// What is known of the kind `ty`.
    pub fn meta_dynamic(&self, ty: &u64) -> (r: &EventMeta)
        requires
            self.wf(),
            self.registered(*ty),
        ensures
            *r == self.meta_map().lookup(*ty),
    {
        self.metas.get(ty).unwrap()
    }

    /// Queues `event`.
    pub fn add(&mut self, event: ErasedEvent<E>)
        ensures
            final(self).queue() == old(self).queue().push(event),
            final(self).meta_map() == old(self).meta_map(),
    {
        self.events.push(event);
    }

    /// Queues `events` in order.
    pub fn extend(&mut self, events: Vec<ErasedEvent<E>>)
        ensures
            final(self).queue() == old(self).queue() + events@,
            final(self).meta_map() == old(self).meta_map(),
    {
        let mut events = events;
        self.events.append(&mut events);
    }

    /// Takes the queued events of the kind `ty` out, in order; the others
    /// stay, in order.
    pub fn remove(&mut self, ty: u64) -> (r: Vec<ErasedEvent<E>>)
        ensures
            r@ == of_kind(old(self).queue(), old(self).queue().len() as int, ty, true),
            final(self).queue() == of_kind(old(self).queue(), old(self).queue().len() as int, ty, false),
            final(self).meta_map() == old(self).meta_map(),
    {
        let mut all: Vec<ErasedEvent<E>> = Vec::new();
        std::mem::swap(&mut all, &mut self.events);
        let ghost s = all@;
        let mut drained: Vec<ErasedEvent<E>> = Vec::new();
        let mut kept: Vec<ErasedEvent<E>> = Vec::new();
        let n = all.len();
        let mut i: usize = 0;
        while i < n
            invariant
                i <= n,
                n == s.len(),
                all@ == s.subrange(i as int, n as int),
                drained@ == of_kind(s, i as int, ty, true),
                kept@ == of_kind(s, i as int, ty, false),
            decreases n - i,
        {
            let event = all.remove(0);
            proof {
                assert(event == s[i as int]);
                assert(all@ =~= s.subrange(i + 1, n as int));
            }
            if event.ty == ty {
                drained.push(event);
            } else {
                kept.push(event);
            }
            i = i + 1;
        }
        self.events = kept;
        drained
    }

    /// Takes every queued event out, in order.
    pub fn drain(&mut self) -> (r: Vec<ErasedEvent<E>>)
        ensures
            r@ == old(self).queue(),
            final(self).queue() == Seq::<ErasedEvent<E>>::empty(),
            final(self).meta_map() == old(self).meta_map(),
    {
        let mut all: Vec<ErasedEvent<E>> = Vec::new();
        std::mem::swap(&mut all, &mut self.events);
        all
    }

    pub fn clear(&mut self)
        ensures
            final(self).queue() == Seq::<ErasedEvent<E>>::empty(),
            final(self).meta_map() == old(self).meta_map(),
    {
        self.events.clear();
    }

    pub fn is_empty(&self) -> (r: bool)
        ensures
            r == (self.queue().len() == 0),
    {
        self.events.len() == 0
    }

    pub fn len(&self) -> (r: usize)
        ensures
            r == self.queue().len(),
    {
        self.events.len()
    }
}

/// The outputs of the events of one kind, in the order they were made.
pub struct EventOutputs<O> {
    outputs: Vec<O>,
}

impl<O> View for EventOutputs<O> {
    type V = Seq<O>;

    closed spec fn view(&self) -> Seq<O> {
        self.outputs@
    }
}

impl<O> EventOutputs<O> {
    pub fn new() -> (r: Self)
        ensures
            r@ == Seq::<O>::empty(),
    {
        EventOutputs { outputs: Vec::new() }
    }

    pub fn add(&mut self, output: O)
        ensures
            final(self)@ == old(self)@.push(output),
    {
        self.outputs.push(output);
    }

    pub fn extend(&mut self, outputs: Vec<O>)
        ensures
            final(self)@ == old(self)@ + outputs@,
    {
        let mut outputs = outputs;
        self.outputs.append(&mut outputs);
    }

    /// Takes every output out, in order.
    pub fn drain(&mut self) -> (r: Vec<O>)
        ensures
            r@ == old(self)@,
            final(self)@ == Seq::<O>::empty(),
    {
        let mut all: Vec<O> = Vec::new();
        std::mem::swap(&mut all, &mut self.outputs);
        all
    }

    pub fn slice(&self) -> (r: &[O])
        ensures
            r@ == self@,
    {
        self.outputs.as_slice()
    }

    /// Exchanges the outputs with those of `other`.
    pub fn swap(&mut self, other: &mut EventOutputs<O>)
        ensures
            final(self)@ == old(other)@,
            final(other)@ == old(self)@,
    {
        std::mem::swap(&mut self.outputs, &mut other.outputs);
    }

    pub fn clear(&mut self)
        ensures
            final(self)@ == Seq::<O>::empty(),
    {
        self.outputs.clear();
    }

    pub fn len(&self) -> (r: usize)
        ensures
            r == self@.len(),
    {
        self.outputs.len()
    }
}

} // verus!
