//! The recorder facade: the register/update surface that producers call,
//! over one owned [`Registry`]. Several producers sharing one recorder is a
//! matter of the surrounding runtime (a shared, synchronized reference); the
//! facade itself is the sequential logic that such sharing serializes.

use vstd::prelude::*;
use vstd::string::*;

use crate::registry::{
    assigned_id, counter_incremented, gauge_written, registered, sample_recorded, EntryModel,
    Identifier, MetricKind, Registry,
};

verus! {

/// A plain recorder doing nothing fancy but record the plain values.
pub struct PlainRecorder {
    registry: Registry,
}

impl View for PlainRecorder {
    type V = Seq<EntryModel>;

    closed spec fn view(&self) -> Seq<EntryModel> {
        self.registry@
    }
}

impl PlainRecorder {
    /// The facade is well-formed when its registry is.
    pub closed spec fn wf(&self) -> bool {
        self.registry.wf()
    }

    /// Creates a recorder over a fresh, empty registry.
    pub fn new() -> (r: PlainRecorder)
        ensures
            r@ =~= Seq::<EntryModel>::empty(),
            r.wf(),
    {
        PlainRecorder { registry: Registry::new() }
    }

    /// The underlying registry, for snapshotting and export.
    pub fn registry(&self) -> (r: &Registry)
        ensures
            r@ == self@,
            self.wf() ==> r.wf(),
    {
        &self.registry
    }

    /// Registers a counter under `name`; idempotent, returning the same
    /// stable identifier on every call with this name.
    pub fn register_counter(&mut self, name: &str) -> (id: Identifier)
        requires
            old(self).wf(),
        ensures
            final(self).wf(),
            final(self)@ == registered(old(self)@, MetricKind::Counter, name@),
            id@ == assigned_id(old(self)@, MetricKind::Counter, name@),
    {
        self.registry.get_or_create(MetricKind::Counter, String::from_str(name))
    }

    /// Registers a gauge under `name`; idempotent, returning the same stable
    /// identifier on every call with this name.
    pub fn register_gauge(&mut self, name: &str) -> (id: Identifier)
        requires
            old(self).wf(),
        ensures
            final(self).wf(),
            final(self)@ == registered(old(self)@, MetricKind::Gauge, name@),
            id@ == assigned_id(old(self)@, MetricKind::Gauge, name@),
    {
        self.registry.get_or_create(MetricKind::Gauge, String::from_str(name))
    }

    /// Registers a histogram under `name`; idempotent, returning the same
    /// stable identifier on every call with this name.
    pub fn register_histogram(&mut self, name: &str) -> (id: Identifier)
        requires
            old(self).wf(),
        ensures
            final(self).wf(),
            final(self)@ == registered(old(self)@, MetricKind::Histogram, name@),
            id@ == assigned_id(old(self)@, MetricKind::Histogram, name@),
    {
        self.registry.get_or_create(MetricKind::Histogram, String::from_str(name))
    }

    /// Adds `delta` to the counter at `id`, wrapping on overflow; a foreign
    /// or mismatched identifier changes nothing.
    pub fn increment_counter(&mut self, id: Identifier, delta: u64)
        requires
            old(self).wf(),
        ensures
            final(self).wf(),
            final(self)@ == counter_incremented(old(self)@, id@, delta),
    {
        let _found = self.registry.increment_counter(id, delta);
    }

    /// Overwrites the gauge at `id` with the decimal text of its new value;
    /// the last writer wins. A foreign or mismatched identifier changes
    /// nothing.
    pub fn update_gauge(&mut self, id: Identifier, value: String)
        requires
            old(self).wf(),
        ensures
            final(self).wf(),
            final(self)@ == gauge_written(old(self)@, id@, value@),
    {
        let _found = self.registry.update_gauge(id, value);
    }

    /// Appends `sample` to the histogram at `id`; a foreign or mismatched
    /// identifier changes nothing.
    pub fn record_histogram(&mut self, id: Identifier, sample: u64)
        requires
            old(self).wf(),
        ensures
            final(self).wf(),
            final(self)@ == sample_recorded(old(self)@, id@, sample),
    {
        let _found = self.registry.record_histogram(id, sample);
    }
}

} // verus!
