//! The metric registry: a mapping from (kind, name) keys to metric handles,
//! with get-or-create identifier interning.
//!
//! An [`Identifier`] issued for a key stays valid for the registry's whole
//! lifetime and is never reassigned to a different key. Gauge values are kept
//! as their decimal text: the rendering of the measured number is fixed at
//! the call boundary, and the registry and encoder treat it as opaque text.

use vstd::prelude::*;
use vstd::string::*;

verus! {

/// The three kinds of metric the registry can hold.
#[derive(Clone, Copy, Debug, PartialEq, Eq, Hash, Structural)]
pub enum MetricKind {
    Counter,
    Gauge,
    Histogram,
}

/// An opaque, cheaply copyable token naming a registered metric.
#[derive(Clone, Copy, Debug, PartialEq, Eq, Hash, Structural)]
pub struct Identifier {
    index: usize,
}

impl View for Identifier {
    type V = int;

    closed spec fn view(&self) -> int {
        self.index as int
    }
}

/// One mutable metric value: a wrapping counter, a last-write-wins gauge
/// held as decimal text, or a histogram accumulating samples.
pub enum Handle {
    Counter(u64),
    Gauge(String),
    Histogram(Vec<u64>),
}

/// The mathematical value of a [`Handle`].
pub enum HandleModel {
    Counter(u64),
    Gauge(Seq<char>),
    Histogram(Seq<u64>),
}

impl View for Handle {
    type V = HandleModel;

    open spec fn view(&self) -> HandleModel {
        match self {
            Handle::Counter(c) => HandleModel::Counter(*c),
            Handle::Gauge(t) => HandleModel::Gauge(t@),
            Handle::Histogram(s) => HandleModel::Histogram(s@),
        }
    }
}

/// A registered metric: its composite (kind, name) key and its handle.
pub struct MetricEntry {
    pub kind: MetricKind,
    pub name: String,
    pub handle: Handle,
}

/// The mathematical value of a [`MetricEntry`].
pub struct EntryModel {
    pub kind: MetricKind,
    pub name: Seq<char>,
    pub value: HandleModel,
}

impl View for MetricEntry {
    type V = EntryModel;

    open spec fn view(&self) -> EntryModel {
        EntryModel { kind: self.kind, name: self.name@, value: self.handle@ }
    }
}

/// Whether the entry's composite key is exactly (kind, name).
pub open spec fn entry_matches(e: EntryModel, kind: MetricKind, name: Seq<char>) -> bool {
    e.kind == kind && e.name == name
}

/// Whether two entries carry the same composite key.
pub open spec fn same_key(a: EntryModel, b: EntryModel) -> bool {
    a.kind == b.kind && a.name == b.name
}

/// The index of the first entry keyed (kind, name), or -1 when there is none.
pub open spec fn find_index(s: Seq<EntryModel>, kind: MetricKind, name: Seq<char>) -> int
    decreases s.len(),
{
    if s.len() == 0 {
        -1
    } else if entry_matches(s[0], kind, name) {
        0
    } else {
        let rest = find_index(s.drop_first(), kind, name);
        if rest < 0 {
            -1
        } else {
            rest + 1
        }
    }
}

/// Whether some entry is keyed (kind, name).
pub open spec fn has_key(s: Seq<EntryModel>, kind: MetricKind, name: Seq<char>) -> bool {
    find_index(s, kind, name) >= 0
}

/// The zero value a freshly created handle of the given kind holds.
pub open spec fn zero_value(kind: MetricKind) -> HandleModel {
    match kind {
        MetricKind::Counter => HandleModel::Counter(0),
        MetricKind::Gauge => HandleModel::Gauge(seq!['0']),
        MetricKind::Histogram => HandleModel::Histogram(Seq::empty()),
    }
}

/// Whether the entry's handle variant agrees with its declared kind.
pub open spec fn kind_consistent(e: EntryModel) -> bool {
    match e.value {
        HandleModel::Counter(_) => e.kind == MetricKind::Counter,
        HandleModel::Gauge(_) => e.kind == MetricKind::Gauge,
        HandleModel::Histogram(_) => e.kind == MetricKind::Histogram,
    }
}

/// No two entries share a composite key.
pub open spec fn unique_keys(s: Seq<EntryModel>) -> bool {
    forall|i: int, j: int| 0 <= i < j < s.len() ==> !#[trigger] same_key(s[i], s[j])
}

/// The registry contents after registering (kind, name): unchanged when the
/// key is present, extended by one zero-valued entry otherwise.
pub open spec fn registered(s: Seq<EntryModel>, kind: MetricKind, name: Seq<char>) -> Seq<
    EntryModel,
> {
    if has_key(s, kind, name) {
        s
    } else {
        s.push(EntryModel { kind, name, value: zero_value(kind) })
    }
}

/// The identifier that registering (kind, name) yields: the index of the
/// existing entry, or the index the new entry is created at.
pub open spec fn assigned_id(s: Seq<EntryModel>, kind: MetricKind, name: Seq<char>) -> int {
    if has_key(s, kind, name) {
        find_index(s, kind, name)
    } else {
        s.len() as int
    }
}

/// What `find_index` returns: the least matching index when a match exists,
/// and -1 exactly when none does.
pub proof fn lemma_find_index(s: Seq<EntryModel>, kind: MetricKind, name: Seq<char>)
    ensures
        find_index(s, kind, name) >= 0 ==> {
            &&& 0 <= find_index(s, kind, name) < s.len()
            &&& entry_matches(s[find_index(s, kind, name)], kind, name)
            &&& forall|j: int|
                0 <= j < find_index(s, kind, name) ==> !entry_matches(#[trigger] s[j], kind, name)
        },
        find_index(s, kind, name) < 0 ==> {
            &&& find_index(s, kind, name) == -1
            &&& forall|j: int| 0 <= j < s.len() ==> !entry_matches(#[trigger] s[j], kind, name)
        },
    decreases s.len(),
{
    if s.len() > 0 && !entry_matches(s[0], kind, name) {
        lemma_find_index(s.drop_first(), kind, name);
        let rest = find_index(s.drop_first(), kind, name);
        if rest >= 0 {
            assert(s[rest + 1] == s.drop_first()[rest]);
            assert forall|j: int|
                0 <= j < rest + 1 implies !entry_matches(#[trigger] s[j], kind, name) by {
                if j > 0 {
                    assert(s.drop_first()[j - 1] == s[j]);
                }
            }
        } else {
            assert forall|j: int|
                0 <= j < s.len() implies !entry_matches(#[trigger] s[j], kind, name) by {
                if j > 0 {
                    assert(s.drop_first()[j - 1] == s[j]);
                }
            }
        }
    }
}

/// An index that matches, with no match before it, is what `find_index`
/// returns.
pub proof fn lemma_find_index_is_first(
    s: Seq<EntryModel>,
    kind: MetricKind,
    name: Seq<char>,
    i: int,
)
    requires
        0 <= i < s.len(),
        entry_matches(s[i], kind, name),
        forall|j: int| 0 <= j < i ==> !entry_matches(#[trigger] s[j], kind, name),
    ensures
        find_index(s, kind, name) == i,
{
    lemma_find_index(s, kind, name);
}

/// Appending an entry with a fresh key leaves it findable at the old length.
pub proof fn lemma_find_index_push(
    s: Seq<EntryModel>,
    e: EntryModel,
    kind: MetricKind,
    name: Seq<char>,
)
    requires
        !has_key(s, kind, name),
        entry_matches(e, kind, name),
    ensures
        find_index(s.push(e), kind, name) == s.len(),
{
    lemma_find_index(s, kind, name);
    assert(s.push(e)[s.len() as int] == e);
    assert(forall|j: int| 0 <= j < s.len() ==> #[trigger] s.push(e)[j] == s[j]);
    lemma_find_index_is_first(s.push(e), kind, name, s.len() as int);
}

/// The mapping from composite keys to handles. Concurrent callers are
/// serialized by the embedding runtime; the sequential contracts here are
/// what that serialization guarantees each caller.
///
/// Identifiers are indices into an insertion-ordered sequence of entries;
/// an entry, once created, is never removed or re-keyed, which is what makes
/// identifiers stable. Well-formedness says that no two entries share a key
/// and that every handle's variant agrees with its entry's kind.
pub struct Registry {
    entries: Vec<MetricEntry>,
}

impl View for Registry {
    type V = Seq<EntryModel>;

    closed spec fn view(&self) -> Seq<EntryModel> {
        self.entries@.map_values(|e: MetricEntry| e@)
    }
}

impl Registry {
    /// Every composite key appears at most once and every handle matches its
    /// declared kind.
    pub open spec fn wf(&self) -> bool {
        &&& unique_keys(self@)
        &&& forall|i: int| 0 <= i < self@.len() ==> kind_consistent(#[trigger] self@[i])
    }

    /// Creates an empty registry.
    pub fn new() -> (r: Registry)
        ensures
            r@ =~= Seq::<EntryModel>::empty(),
            r.wf(),
    {
        Registry { entries: Vec::new() }
    }

    /// The number of registered entries.
    pub fn len(&self) -> (n: usize)
        ensures
            n == self@.len(),
    {
        self.entries.len()
    }

    /// The entry at a registered index, in insertion order.
    pub fn entry_at(&self, i: usize) -> (e: &MetricEntry)
        requires
            i < self@.len(),
        ensures
            e@ == self@[i as int],
    {
        &self.entries[i]
    }

    /// Looks the composite key up among the entries.
    fn find(&self, kind: MetricKind, name: &String) -> (r: Option<usize>)
        ensures
            match r {
                Some(i) => find_index(self@, kind, name@) == i as int,
                None => find_index(self@, kind, name@) == -1,
            },
    {
        let n = self.entries.len();
        let mut i: usize = 0;
        while i < n
            invariant
                i <= n,
                n == self.entries.len(),
                forall|j: int| 0 <= j < i ==> !entry_matches(#[trigger] self@[j], kind, name@),
            decreases n - i,
        {
            let e = &self.entries[i];
            if e.kind == kind && e.name == *name {
                proof {
                    assert(self@[i as int] == self.entries@[i as int]@);
                    assert(entry_matches(self@[i as int], kind, name@));
                    lemma_find_index(self@, kind, name@);
                }
                return Some(i);
            }
            i += 1;
        }
        proof {
            lemma_find_index(self@, kind, name@);
        }
        None
    }

    /// Looks the composite key up; when absent, creates a zero-valued handle
    /// of the given kind under it. Either way the returned identifier names
    /// the unique entry keyed (kind, name), so repeated registration of one
    /// key always yields the same identifier, and at most one entry is ever
    /// created per key.
    pub fn get_or_create(&mut self, kind: MetricKind, name: String) -> (id: Identifier)
        requires
            old(self).wf(),
        ensures
            final(self).wf(),
            final(self)@ == registered(old(self)@, kind, name@),
            id@ == assigned_id(old(self)@, kind, name@),
            0 <= id@ < final(self)@.len(),
            entry_matches(final(self)@[id@], kind, name@),
            !has_key(old(self)@, kind, name@) ==> final(self)@.len() == old(self)@.len() + 1,
            has_key(old(self)@, kind, name@) ==> final(self)@ == old(self)@,
    {
        proof {
            lemma_find_index(self@, kind, name@);
        }
        match self.find(kind, &name) {
            Some(i) => Identifier { index: i },
            None => {
                let i = self.entries.len();
                let handle = Handle::zero(kind);
                let ghost old_view = self@;
                let ghost e = EntryModel { kind, name: name@, value: zero_value(kind) };
                self.entries.push(MetricEntry { kind, name, handle });
                proof {
                    assert(self@ =~= old_view.push(e));
                    lemma_find_index_push(old_view, e, kind, name@);
                    assert forall|a: int, b: int|
                        0 <= a < b < self@.len() implies !#[trigger] same_key(
                        self@[a],
                        self@[b],
                    ) by {
                        if b == self@.len() - 1 {
                            lemma_find_index(old_view, kind, name@);
                        }
                    }
                }
                Identifier { index: i }
            },
        }
    }
}

/// 2^64, the modulus of wrapping 64-bit counter addition.
pub open spec fn two_to_64() -> int {
    0x1_0000_0000_0000_0000
}

/// Wrapping addition of two 64-bit counters.
pub open spec fn wrap_add64(a: u64, b: u64) -> u64 {
    (((a as int) + (b as int)) % two_to_64()) as u64
}

/// The counter value inside a handle model, zero for the other kinds.
pub open spec fn counter_of(v: HandleModel) -> u64 {
    match v {
        HandleModel::Counter(c) => c,
        _ => 0,
    }
}

/// The gauge text inside a handle model, empty for the other kinds.
pub open spec fn gauge_of(v: HandleModel) -> Seq<char> {
    match v {
        HandleModel::Gauge(t) => t,
        _ => Seq::empty(),
    }
}

/// The histogram samples inside a handle model, empty for the other kinds.
pub open spec fn samples_of(v: HandleModel) -> Seq<u64> {
    match v {
        HandleModel::Histogram(h) => h,
        _ => Seq::empty(),
    }
}

/// Whether `id` names an entry holding a counter.
pub open spec fn valid_counter_id(s: Seq<EntryModel>, id: int) -> bool {
    0 <= id < s.len() && s[id].value is Counter
}

/// Whether `id` names an entry holding a gauge.
pub open spec fn valid_gauge_id(s: Seq<EntryModel>, id: int) -> bool {
    0 <= id < s.len() && s[id].value is Gauge
}

/// Whether `id` names an entry holding a histogram.
pub open spec fn valid_histogram_id(s: Seq<EntryModel>, id: int) -> bool {
    0 <= id < s.len() && s[id].value is Histogram
}

/// The registry contents after adding `delta` to the counter at `id`, with
/// wraparound; unchanged when `id` names no counter.
pub open spec fn counter_incremented(s: Seq<EntryModel>, id: int, delta: u64) -> Seq<EntryModel> {
    if valid_counter_id(s, id) {
        s.update(
            id,
            EntryModel {
                kind: s[id].kind,
                name: s[id].name,
                value: HandleModel::Counter(wrap_add64(counter_of(s[id].value), delta)),
            },
        )
    } else {
        s
    }
}

/// The registry contents after overwriting the gauge at `id` with `text`;
/// unchanged when `id` names no gauge.
pub open spec fn gauge_written(s: Seq<EntryModel>, id: int, text: Seq<char>) -> Seq<EntryModel> {
    if valid_gauge_id(s, id) {
        s.update(
            id,
            EntryModel { kind: s[id].kind, name: s[id].name, value: HandleModel::Gauge(text) },
        )
    } else {
        s
    }
}

/// The registry contents after appending `sample` to the histogram at `id`;
/// unchanged when `id` names no histogram.
pub open spec fn sample_recorded(s: Seq<EntryModel>, id: int, sample: u64) -> Seq<EntryModel> {
    if valid_histogram_id(s, id) {
        s.update(
            id,
            EntryModel {
                kind: s[id].kind,
                name: s[id].name,
                value: HandleModel::Histogram(samples_of(s[id].value).push(sample)),
            },
        )
    } else {
        s
    }
}

/// Updating entry values while keeping every kind and name preserves
/// well-formedness, provided each new value still agrees with its kind.
pub proof fn lemma_wf_value_update(s: Seq<EntryModel>, t: Seq<EntryModel>)
    requires
        unique_keys(s),
        t.len() == s.len(),
        forall|i: int|
            0 <= i < t.len() ==> (#[trigger] t[i]).kind == s[i].kind && t[i].name == s[i].name,
    ensures
        unique_keys(t),
{
    assert forall|a: int, b: int| 0 <= a < b < t.len() implies !#[trigger] same_key(t[a], t[b]) by {
        assert(!same_key(s[a], s[b]));
    }
}

impl Registry {
    /// Adds `delta` to the counter at `id`, wrapping on overflow. A foreign
    /// identifier, or one naming another kind, changes nothing and reports
    /// `false`.
    pub fn increment_counter(&mut self, id: Identifier, delta: u64) -> (found: bool)
        requires
            old(self).wf(),
        ensures
            final(self).wf(),
            final(self)@ == counter_incremented(old(self)@, id@, delta),
            found == valid_counter_id(old(self)@, id@),
    {
        if id.index >= self.entries.len() {
            return false;
        }
        let ghost prior = self@;
        let found = self.entries[id.index].handle.increment_counter(delta);
        proof {
            assert(self@ =~= counter_incremented(prior, id@, delta));
            assert forall|j: int| 0 <= j < self@.len() implies kind_consistent(
                #[trigger] self@[j],
            ) by {
                assert(kind_consistent(prior[j]));
            }
            lemma_wf_value_update(prior, self@);
        }
        found
    }

    /// Overwrites the gauge at `id` with the decimal text of its new value;
    /// the last writer wins. A foreign identifier, or one naming another
    /// kind, changes nothing and reports `false`.
    pub fn update_gauge(&mut self, id: Identifier, value: String) -> (found: bool)
        requires
            old(self).wf(),
        ensures
            final(self).wf(),
            final(self)@ == gauge_written(old(self)@, id@, value@),
            found == valid_gauge_id(old(self)@, id@),
    {
        if id.index >= self.entries.len() {
            return false;
        }
        let ghost prior = self@;
        let found = self.entries[id.index].handle.update_gauge(value);
        proof {
            assert(self@ =~= gauge_written(prior, id@, value@));
            assert forall|j: int| 0 <= j < self@.len() implies kind_consistent(
                #[trigger] self@[j],
            ) by {
                assert(kind_consistent(prior[j]));
            }
            lemma_wf_value_update(prior, self@);
        }
        found
    }

    /// Appends `sample` to the histogram at `id`. A foreign identifier, or
    /// one naming another kind, changes nothing and reports `false`.
    pub fn record_histogram(&mut self, id: Identifier, sample: u64) -> (found: bool)
        requires
            old(self).wf(),
        ensures
            final(self).wf(),
            final(self)@ == sample_recorded(old(self)@, id@, sample),
            found == valid_histogram_id(old(self)@, id@),
    {
        if id.index >= self.entries.len() {
            return false;
        }
        let ghost prior = self@;
        let found = self.entries[id.index].handle.record_histogram(sample);
        proof {
            assert(self@ =~= sample_recorded(prior, id@, sample));
            assert forall|j: int| 0 <= j < self@.len() implies kind_consistent(
                #[trigger] self@[j],
            ) by {
                assert(kind_consistent(prior[j]));
            }
            lemma_wf_value_update(prior, self@);
        }
        found
    }

    /// Reads the counter at `id`; `None` for a foreign identifier or one
    /// naming another kind.
    pub fn read_counter(&self, id: Identifier) -> (r: Option<u64>)
        ensures
            r == (if valid_counter_id(self@, id@) {
                Some(counter_of(self@[id@].value))
            } else {
                None::<u64>
            }),
    {
        if id.index >= self.entries.len() {
            return None;
        }
        self.entries[id.index].handle.read_counter()
    }

    /// Reads the gauge text at `id`; `None` for a foreign identifier or one
    /// naming another kind.
    pub fn read_gauge(&self, id: Identifier) -> (r: Option<String>)
        ensures
            match r {
                Some(t) => valid_gauge_id(self@, id@) && t@ == gauge_of(self@[id@].value),
                None => !valid_gauge_id(self@, id@),
            },
    {
        if id.index >= self.entries.len() {
            return None;
        }
        self.entries[id.index].handle.read_gauge()
    }

    /// Reads the histogram samples at `id`; `None` for a foreign identifier
    /// or one naming another kind.
    pub fn read_histogram(&self, id: Identifier) -> (r: Option<Vec<u64>>)
        ensures
            match r {
                Some(v) => valid_histogram_id(self@, id@) && v@ == samples_of(self@[id@].value),
                None => !valid_histogram_id(self@, id@),
            },
    {
        if id.index >= self.entries.len() {
            return None;
        }
        self.entries[id.index].handle.read_histogram()
    }

    /// A point-in-time copy of every entry, in insertion order.
    pub fn snapshot(&self) -> (snap: Vec<MetricEntry>)
        ensures
            snap@.map_values(|e: MetricEntry| e@) =~= self@,
    {
        let mut snap: Vec<MetricEntry> = Vec::new();
        let n = self.entries.len();
        let mut i: usize = 0;
        while i < n
            invariant
                i <= n,
                n == self@.len(),
                snap@.len() == i,
                forall|j: int| 0 <= j < i ==> (#[trigger] snap@[j])@ == self@[j],
            decreases n - i,
        {
            let e = self.entry_at(i);
            let handle = match &e.handle {
                Handle::Counter(c) => Handle::Counter(*c),
                Handle::Gauge(t) => Handle::Gauge(t.clone()),
                Handle::Histogram(samples) => Handle::Histogram(copy_samples(samples)),
            };
            snap.push(MetricEntry { kind: e.kind, name: e.name.clone(), handle });
            i += 1;
        }
        proof {
            assert(snap@.map_values(|e: MetricEntry| e@) =~= self@);
        }
        snap
    }
}

impl Handle {
    /// A zero-valued handle of the given kind: counter 0, gauge text `0`,
    /// empty histogram.
    pub fn zero(kind: MetricKind) -> (h: Handle)
        ensures
            h@ == zero_value(kind),
    {
        match kind {
            MetricKind::Counter => Handle::counter(),
            MetricKind::Gauge => Handle::gauge(),
            MetricKind::Histogram => Handle::histogram(),
        }
    }

    /// A counter handle starting at zero.
    pub fn counter() -> (h: Handle)
        ensures
            h@ == zero_value(MetricKind::Counter),
    {
        Handle::Counter(0)
    }

    /// A gauge handle starting at the text `0`.
    pub fn gauge() -> (h: Handle)
        ensures
            h@ == zero_value(MetricKind::Gauge),
    {
        let t = String::from_str("0");
        proof {
            reveal_strlit("0");
            assert(t@ =~= seq!['0']);
        }
        Handle::Gauge(t)
    }

    /// A histogram handle with no samples yet.
    pub fn histogram() -> (h: Handle)
        ensures
            h@ == zero_value(MetricKind::Histogram),
    {
        let samples: Vec<u64> = Vec::new();
        proof {
            assert(samples@ =~= Seq::<u64>::empty());
        }
        Handle::Histogram(samples)
    }

    /// Adds `delta` to a counter handle, wrapping on overflow; any other
    /// kind is left untouched. Reports whether this was a counter.
    pub fn increment_counter(&mut self, delta: u64) -> (found: bool)
        ensures
            old(self)@ is Counter ==> final(self)@ == HandleModel::Counter(
                wrap_add64(counter_of(old(self)@), delta),
            ) && found,
            !(old(self)@ is Counter) ==> final(self)@ == old(self)@ && !found,
    {
        match self {
            Handle::Counter(c) => {
                *c = c.wrapping_add(delta);
                true
            },
            _ => false,
        }
    }

    /// Overwrites a gauge handle with new decimal text, the last writer
    /// winning; any other kind is left untouched. Reports whether this was
    /// a gauge.
    pub fn update_gauge(&mut self, value: String) -> (found: bool)
        ensures
            old(self)@ is Gauge ==> final(self)@ == HandleModel::Gauge(value@) && found,
            !(old(self)@ is Gauge) ==> final(self)@ == old(self)@ && !found,
    {
        match self {
            Handle::Gauge(t) => {
                *t = value;
                true
            },
            _ => false,
        }
    }

    /// Appends `sample` to a histogram handle; any other kind is left
    /// untouched. Reports whether this was a histogram.
    pub fn record_histogram(&mut self, sample: u64) -> (found: bool)
        ensures
            old(self)@ is Histogram ==> final(self)@ == HandleModel::Histogram(
                samples_of(old(self)@).push(sample),
            ) && found,
            !(old(self)@ is Histogram) ==> final(self)@ == old(self)@ && !found,
    {
        match self {
            Handle::Histogram(samples) => {
                samples.push(sample);
                true
            },
            _ => false,
        }
    }

    /// Reads a counter handle's value; `None` for the other kinds.
    pub fn read_counter(&self) -> (r: Option<u64>)
        ensures
            r == (if self@ is Counter {
                Some(counter_of(self@))
            } else {
                None::<u64>
            }),
    {
        match self {
            Handle::Counter(c) => Some(*c),
            _ => None,
        }
    }

    /// Reads a copy of a gauge handle's decimal text; `None` for the other
    /// kinds.
    pub fn read_gauge(&self) -> (r: Option<String>)
        ensures
            match r {
                Some(t) => self@ is Gauge && t@ == gauge_of(self@),
                None => !(self@ is Gauge),
            },
    {
        match self {
            Handle::Gauge(t) => Some(t.clone()),
            _ => None,
        }
    }

    /// Reads a copy of a histogram handle's samples; `None` for the other
    /// kinds.
    pub fn read_histogram(&self) -> (r: Option<Vec<u64>>)
        ensures
            match r {
                Some(v) => self@ is Histogram && v@ == samples_of(self@),
                None => !(self@ is Histogram),
            },
    {
        match self {
            Handle::Histogram(samples) => Some(copy_samples(samples)),
            _ => None,
        }
    }
}

/// Copies a histogram's samples, element by element.
fn copy_samples(samples: &Vec<u64>) -> (copy: Vec<u64>)
    ensures
        copy@ == samples@,
{
    let mut copy: Vec<u64> = Vec::new();
    let n = samples.len();
    let mut i: usize = 0;
    while i < n
        invariant
            i <= n,
            n == samples@.len(),
            copy@ =~= samples@.take(i as int),
        decreases n - i,
    {
        copy.push(samples[i]);
        proof {
            assert(copy@ =~= samples@.take(i + 1));
        }
        i += 1;
    }
    proof {
        assert(copy@ =~= samples@);
    }
    copy
}


/// Identifier stability: registering a composite key a second time returns
/// the same identifier and creates no second entry.
pub proof fn lemma_identifier_stable(s: Seq<EntryModel>, kind: MetricKind, name: Seq<char>)
    ensures
        registered(registered(s, kind, name), kind, name) == registered(s, kind, name),
        assigned_id(registered(s, kind, name), kind, name) == assigned_id(s, kind, name),
{
    if !has_key(s, kind, name) {
        let e = EntryModel { kind, name, value: zero_value(kind) };
        lemma_find_index_push(s, e, kind, name);
    }
}

/// One name registered under two different kinds names two distinct entries:
/// registering (kind1, name) and then (kind2, name) yields different
/// identifiers.
pub proof fn lemma_distinct_kinds_distinct_ids(
    s: Seq<EntryModel>,
    kind1: MetricKind,
    kind2: MetricKind,
    name: Seq<char>,
)
    requires
        kind1 != kind2,
    ensures
        assigned_id(s, kind1, name) != assigned_id(registered(s, kind1, name), kind2, name),
{
    let s1 = registered(s, kind1, name);
    let id1 = assigned_id(s, kind1, name);
    lemma_find_index(s, kind1, name);
    if !has_key(s, kind1, name) {
        let e = EntryModel { kind: kind1, name, value: zero_value(kind1) };
        lemma_find_index_push(s, e, kind1, name);
        assert(s1[id1] == e);
    }
    assert(0 <= id1 < s1.len() && s1[id1].kind == kind1);
    lemma_find_index(s1, kind2, name);
    if has_key(s1, kind2, name) {
        assert(s1[assigned_id(s1, kind2, name)].kind == kind2);
    }
}

/// The sum of a sequence of counter increments.
pub open spec fn sum_deltas(ds: Seq<u64>) -> int
    decreases ds.len(),
{
    if ds.len() == 0 {
        0
    } else {
        sum_deltas(ds.drop_last()) + ds.last()
    }
}

/// The registry contents after a whole sequence of increments to one
/// counter, applied in order.
pub open spec fn counter_incremented_all(s: Seq<EntryModel>, id: int, ds: Seq<u64>) -> Seq<
    EntryModel,
>
    decreases ds.len(),
{
    if ds.len() == 0 {
        s
    } else {
        counter_incremented(counter_incremented_all(s, id, ds.drop_last()), id, ds.last())
    }
}

/// A sum of unsigned deltas is never negative.
pub proof fn lemma_sum_deltas_nonneg(ds: Seq<u64>)
    ensures
        sum_deltas(ds) >= 0,
    decreases ds.len(),
{
    if ds.len() > 0 {
        lemma_sum_deltas_nonneg(ds.drop_last());
    }
}

/// Counter monotonicity: a sequence of increments whose total stays below
/// 2^64 leaves the counter at its starting value plus the sum of the deltas,
/// and every other entry untouched. (Overflowing totals wrap instead.)
pub proof fn lemma_counter_accumulates(s: Seq<EntryModel>, id: int, ds: Seq<u64>)
    requires
        valid_counter_id(s, id),
        counter_of(s[id].value) + sum_deltas(ds) < two_to_64(),
    ensures
        counter_incremented_all(s, id, ds).len() == s.len(),
        valid_counter_id(counter_incremented_all(s, id, ds), id),
        counter_of(counter_incremented_all(s, id, ds)[id].value) == counter_of(s[id].value)
            + sum_deltas(ds),
        forall|j: int|
            0 <= j < s.len() && j != id ==> #[trigger] counter_incremented_all(s, id, ds)[j]
                == s[j],
    decreases ds.len(),
{
    if ds.len() > 0 {
        lemma_sum_deltas_nonneg(ds.drop_last());
        lemma_counter_accumulates(s, id, ds.drop_last());
    }
}

/// Gauge last-write-wins: of two sequenced writes to one gauge only the
/// second is visible, exactly as if the first had never happened.
pub proof fn lemma_gauge_last_write_wins(
    s: Seq<EntryModel>,
    id: int,
    text1: Seq<char>,
    text2: Seq<char>,
)
    ensures
        gauge_written(gauge_written(s, id, text1), id, text2) == gauge_written(s, id, text2),
        valid_gauge_id(s, id) ==> gauge_of(gauge_written(s, id, text2)[id].value) == text2,
{
    if valid_gauge_id(s, id) {
        assert(gauge_written(gauge_written(s, id, text1), id, text2) =~= gauge_written(
            s,
            id,
            text2,
        ));
    }
}


/// The registry after `n` sequenced registrations of one key, as a lock
/// serializes concurrent callers.
pub open spec fn registered_many(
    s: Seq<EntryModel>,
    kind: MetricKind,
    name: Seq<char>,
    n: nat,
) -> Seq<EntryModel>
    decreases n,
{
    if n == 0 {
        s
    } else {
        registered(registered_many(s, kind, name, (n - 1) as nat), kind, name)
    }
}

/// Registration uniqueness: any number of registrations of one key create
/// exactly one entry among them — the result is that of registering once —
/// and every call from the second on returns the identifier the first one
/// assigned.
pub proof fn lemma_registration_creates_once(
    s: Seq<EntryModel>,
    kind: MetricKind,
    name: Seq<char>,
    n: nat,
)
    requires
        n >= 1,
    ensures
        registered_many(s, kind, name, n) == registered(s, kind, name),
        assigned_id(registered_many(s, kind, name, n), kind, name) == assigned_id(s, kind, name),
        registered_many(s, kind, name, n).len() <= s.len() + 1,
    decreases n,
{
    if n > 1 {
        lemma_registration_creates_once(s, kind, name, (n - 1) as nat);
    } else {
        assert(registered_many(s, kind, name, (n - 1) as nat) == s);
    }
    lemma_identifier_stable(s, kind, name);
}

} // verus!
