use vstd::prelude::*;

use crate::face::FaceToken;
use crate::name::{ComponentView, Name, NameComponent};
use crate::timestamp::{saturating_add_spec, Timestamp};
use crate::tlv::{be_value, read_be};

verus! {

// The forwarding tables: FIB, PIT and CS merged over one set of name-keyed
// entries, one entry for each node of the name trie that holds anything, and
// the dead-nonce list.
//
// Forwarding strategy, for an Interest:
//  1. An empty name, or a (name, nonce) pair on the dead-nonce list, is not
//     forwarded.
//  2. The candidate next hops are the FIB faces of every prefix of the name,
//     from the root down, each node's faces in descending cost: the last
//     candidate has the highest priority.
//  3. A new PIT slot forwards to the highest-priority candidate.
//  4. A pending slot drops the Interest when some in-record holds its nonce
//     (a loop), or when it comes within the retransmission back-off;
//     otherwise it rotates over the candidates.
//
// Data satisfies the prefix slots of every ancestor of its name, both slots
// at its name, and both slots of the full name that ends in its digest.

/// Time a PIT entry lives without a lifetime given by the Interest.
pub const DEFAULT_INTEREST_LIFETIME_MS: u64 = 4000;

/// The first retransmission back-off; it doubles with each transmission.
pub const MIN_RETRANSMISSION_DELAY_MS: u64 = 8;

/// The back-off stops doubling after this many transmissions.
pub const MAX_RETRANSMISSION_DELAY_DOUBLINGS: u8 = 5;

/// The value of the removal deadline of an empty PIT slot.
pub const NO_DEADLINE: u64 = 0;

/// The latest-transmission time of an empty PIT slot.
pub const NEVER_TRANSMITTED: u64 = 0xFFFF_FFFF_FFFF_FFFF;

// ---------------------------------------------------------------------------
// Entries
// ---------------------------------------------------------------------------

/// An owned name component, the key of a trie node.
#[derive(Clone, Debug)]
pub struct ComponentKey {
    typ: u16,
    bytes: Vec<u8>,
}

impl View for ComponentKey {
    type V = ComponentView;

    closed spec fn view(&self) -> ComponentView {
        (self.typ, self.bytes@)
    }
}

pub open spec fn key_views(s: Seq<ComponentKey>) -> Seq<ComponentView> {
    s.map_values(|c: ComponentKey| c@)
}

/// One next hop of a FIB entry.
#[derive(Clone, Copy, PartialEq, Eq, Structural, Debug)]
pub struct FibEntry {
    pub cost: u32,
    pub next_hop: FaceToken,
}

/// One pending Interest: where to send the Data, and the nonce it came with.
#[derive(Clone, Copy, PartialEq, Eq, Structural, Debug)]
pub struct PitInEntry {
    pub reply_to: FaceToken,
    pub last_nonce: u32,
}

pub struct PitEntry {
    pit_in: Vec<PitInEntry>,
    removal_deadline: u64,
    latest_transmission_time: u64,
    transmission_count: u8,
}

pub struct PitView {
    pub pit_in: Seq<PitInEntry>,
    pub removal_deadline: u64,
    pub latest_transmission_time: u64,
    pub transmission_count: u8,
}

impl View for PitEntry {
    type V = PitView;

    closed spec fn view(&self) -> PitView {
        PitView {
            pit_in: self.pit_in@,
            removal_deadline: self.removal_deadline,
            latest_transmission_time: self.latest_transmission_time,
            transmission_count: self.transmission_count,
        }
    }
}

pub open spec fn empty_pit() -> PitView {
    PitView {
        pit_in: Seq::empty(),
        removal_deadline: NO_DEADLINE,
        latest_transmission_time: NEVER_TRANSMITTED,
        transmission_count: 0,
    }
}

impl PitEntry {
    fn new() -> (r: Self)
        ensures
            r@ == empty_pit(),
    {
        PitEntry {
            pit_in: Vec::new(),
            removal_deadline: NO_DEADLINE,
            latest_transmission_time: NEVER_TRANSMITTED,
            transmission_count: 0,
        }
    }
}

pub struct DataEntry {
    data: Vec<u8>,
    freshness_deadline: u64,
    removal_deadline: u64,
}

pub struct DataView {
    pub data: Seq<u8>,
    pub freshness_deadline: u64,
    pub removal_deadline: u64,
}

impl View for DataEntry {
    type V = DataView;

    closed spec fn view(&self) -> DataView {
        DataView {
            data: self.data@,
            freshness_deadline: self.freshness_deadline,
            removal_deadline: self.removal_deadline,
        }
    }
}

/// One trie node: its name, its FIB next hops in ascending cost, the PIT
/// slots for exact and can-be-prefix Interests, and the cached Data.
pub struct TableEntry {
    name: Vec<ComponentKey>,
    fib: Vec<FibEntry>,
    pit_exact: PitEntry,
    pit_prefix: PitEntry,
    data: Option<DataEntry>,
}

pub struct EntryView {
    pub name: Seq<ComponentView>,
    pub fib: Seq<FibEntry>,
    pub pit_exact: PitView,
    pub pit_prefix: PitView,
    pub data: Option<DataView>,
}

impl View for TableEntry {
    type V = EntryView;

    closed spec fn view(&self) -> EntryView {
        EntryView {
            name: key_views(self.name@),
            fib: self.fib@,
            pit_exact: self.pit_exact@,
            pit_prefix: self.pit_prefix@,
            data: match self.data {
                Some(d) => Some(d@),
                None => None,
            },
        }
    }
}

pub open spec fn empty_entry(name: Seq<ComponentView>) -> EntryView {
    EntryView {
        name,
        fib: Seq::empty(),
        pit_exact: empty_pit(),
        pit_prefix: empty_pit(),
        data: None,
    }
}

pub open spec fn entry_views(s: Seq<TableEntry>) -> Seq<EntryView> {
    s.map_values(|e: TableEntry| e@)
}

/// The index of the entry named `n`, or -1.
pub open spec fn index_of(es: Seq<EntryView>, n: Seq<ComponentView>) -> int
    decreases es.len(),
{
    if es.len() == 0 {
        -1
    } else if es.last().name == n {
        es.len() - 1
    } else {
        index_of(es.drop_last(), n)
    }
}

pub proof fn lemma_index_of_bounds(es: Seq<EntryView>, n: Seq<ComponentView>)
    ensures
        -1 <= index_of(es, n) < es.len(),
        index_of(es, n) >= 0 ==> es[index_of(es, n)].name == n,
    decreases es.len(),
{
    if es.len() > 0 && es.last().name != n {
        lemma_index_of_bounds(es.drop_last(), n);
    }
}

/// Adding an entry with another name, or changing an entry but not its name,
/// leaves where a name is found unchanged.
pub proof fn lemma_index_of_update(es: Seq<EntryView>, i: int, e: EntryView, n: Seq<ComponentView>)
    requires
        0 <= i < es.len(),
        e.name == es[i].name,
    ensures
        index_of(es.update(i, e), n) == index_of(es, n),
    decreases es.len(),
{
    if es.len() > 0 && i < es.len() - 1 {
        assert(es.update(i, e).drop_last() =~= es.drop_last().update(i, e));
        lemma_index_of_update(es.drop_last(), i, e, n);
    } else {
        assert(es.update(i, e).drop_last() =~= es.drop_last());
    }
}

pub proof fn lemma_index_of_push(es: Seq<EntryView>, e: EntryView, n: Seq<ComponentView>)
    ensures
        index_of(es.push(e), n) == (if e.name == n {
            es.len() as int
        } else {
            index_of(es, n)
        }),
{
    assert(es.push(e).drop_last() =~= es);
}

// ---------------------------------------------------------------------------
// FIB
// ---------------------------------------------------------------------------

/// The next hops without those that name `face`.
pub open spec fn fib_without(f: Seq<FibEntry>, face: FaceToken) -> Seq<FibEntry>
    decreases f.len(),
{
    if f.len() == 0 {
        f
    } else if f.last().next_hop == face {
        fib_without(f.drop_last(), face)
    } else {
        fib_without(f.drop_last(), face).push(f.last())
    }
}

/// FIB order: ascending cost, then ascending face token.
pub open spec fn fib_before(a: FibEntry, b: FibEntry) -> bool {
    a.cost < b.cost || (a.cost == b.cost && a.next_hop.0 <= b.next_hop.0)
}

/// Where `e` goes in `f`: before the first entry that it precedes.
pub open spec fn fib_insert_pos(f: Seq<FibEntry>, e: FibEntry) -> nat
    decreases f.len(),
{
    if f.len() == 0 {
        0
    } else if fib_before(e, f[0]) {
        0
    } else {
        1 + fib_insert_pos(f.drop_first(), e)
    }
}

pub open spec fn fib_insert(f: Seq<FibEntry>, e: FibEntry) -> Seq<FibEntry> {
    f.take(fib_insert_pos(f, e) as int) + seq![e] + f.skip(fib_insert_pos(f, e) as int)
}

/// The next hops after registering `face` at `cost`: its old record goes, the
/// new one stands in order.
pub open spec fn fib_registered(f: Seq<FibEntry>, face: FaceToken, cost: u32) -> Seq<FibEntry> {
    fib_insert(fib_without(f, face), FibEntry { cost, next_hop: face })
}

pub proof fn lemma_fib_insert_pos_bound(f: Seq<FibEntry>, e: FibEntry)
    ensures
        fib_insert_pos(f, e) <= f.len(),
    decreases f.len(),
{
    if f.len() > 0 && !fib_before(e, f[0]) {
        lemma_fib_insert_pos_bound(f.drop_first(), e);
    }
}

pub proof fn lemma_fib_without_absent(f: Seq<FibEntry>, face: FaceToken)
    ensures
        forall|i: int| 0 <= i < fib_without(f, face).len() ==> #[trigger] fib_without(f, face)[i].next_hop
            != face,
        fib_without(f, face).len() <= f.len(),
    decreases f.len(),
{
    if f.len() > 0 {
        lemma_fib_without_absent(f.drop_last(), face);
    }
}

pub proof fn lemma_fib_without_noop(f: Seq<FibEntry>, face: FaceToken)
    requires
        forall|i: int| 0 <= i < f.len() ==> #[trigger] f[i].next_hop != face,
    ensures
        fib_without(f, face) == f,
    decreases f.len(),
{
    if f.len() > 0 {
        lemma_fib_without_noop(f.drop_last(), face);
        assert(f.drop_last().push(f.last()) =~= f);
    }
}

pub proof fn lemma_fib_without_concat(a: Seq<FibEntry>, b: Seq<FibEntry>, face: FaceToken)
    ensures
        fib_without(a + b, face) == fib_without(a, face) + fib_without(b, face),
    decreases b.len(),
{
    if b.len() == 0 {
        assert(a + b =~= a);
        assert(fib_without(a, face) + fib_without(b, face) =~= fib_without(a, face));
    } else {
        assert((a + b).drop_last() =~= a + b.drop_last());
        lemma_fib_without_concat(a, b.drop_last(), face);
        assert((a + b).last() == b.last());
        if b.last().next_hop != face {
            assert(fib_without(a, face) + fib_without(b, face) =~= (fib_without(a, face)
                + fib_without(b.drop_last(), face)).push(b.last()));
        }
    }
}

/// Registering the same next hop twice leaves the same next hops as once.
pub proof fn lemma_fib_registered_idempotent(f: Seq<FibEntry>, face: FaceToken, cost: u32)
    ensures
        fib_registered(fib_registered(f, face, cost), face, cost) == fib_registered(f, face, cost),
{
    let g = fib_without(f, face);
    let e = FibEntry { cost, next_hop: face };
    let p = fib_insert_pos(g, e) as int;
    lemma_fib_insert_pos_bound(g, e);
    lemma_fib_without_absent(f, face);
    let a = g.take(p);
    let b = g.skip(p);
    lemma_fib_without_noop(a, face);
    lemma_fib_without_noop(b, face);
    lemma_fib_without_concat(a + seq![e], b, face);
    lemma_fib_without_concat(a, seq![e], face);
    assert(seq![e].drop_last() =~= Seq::<FibEntry>::empty());
    assert(seq![e].last() == e);
    assert(fib_without(Seq::<FibEntry>::empty(), face) =~= Seq::<FibEntry>::empty());
    assert(fib_without(seq![e], face) =~= Seq::<FibEntry>::empty());
    assert(a + b =~= g);
    assert(fib_without(fib_registered(f, face, cost), face) =~= g);
}

fn fib_without_exec(f: &Vec<FibEntry>, face: FaceToken) -> (r: Vec<FibEntry>)
    ensures
        r@ == fib_without(f@, face),
{
    let mut r: Vec<FibEntry> = Vec::new();
    let mut i: usize = 0;
    while i < f.len()
        invariant
            i <= f@.len(),
            r@ == fib_without(f@.take(i as int), face),
        decreases f@.len() - i,
    {
        assert(f@.take(i + 1).drop_last() =~= f@.take(i as int));
        if f[i].next_hop.0 != face.0 {
            r.push(f[i]);
        }
        i = i + 1;
    }
    assert(f@.take(i as int) =~= f@);
    r
}

fn fib_insert_exec(f: &Vec<FibEntry>, e: FibEntry) -> (r: Vec<FibEntry>)
    ensures
        r@ == fib_insert(f@, e),
{
    let mut p: usize = 0;
    assert(f@.skip(0) =~= f@);
    while p < f.len() && !(e.cost < f[p].cost || (e.cost == f[p].cost && e.next_hop.0
        <= f[p].next_hop.0))
        invariant
            p <= f@.len(),
            fib_insert_pos(f@, e) == p + fib_insert_pos(f@.skip(p as int), e),
        decreases f@.len() - p,
    {
        assert(f@.skip(p as int).drop_first() =~= f@.skip(p + 1));
        p = p + 1;
    }
    let mut r: Vec<FibEntry> = Vec::new();
    let mut i: usize = 0;
    while i < p
        invariant
            i <= p <= f@.len(),
            r@ == f@.take(i as int),
        decreases p - i,
    {
        r.push(f[i]);
        i = i + 1;
        assert(r@ =~= f@.take(i as int));
    }
    r.push(e);
    while i < f.len()
        invariant
            p <= i <= f@.len(),
            r@ == f@.take(p as int) + seq![e] + f@.subrange(p as int, i as int),
        decreases f@.len() - i,
    {
        r.push(f[i]);
        i = i + 1;
        assert(r@ =~= f@.take(p as int) + seq![e] + f@.subrange(p as int, i as int));
    }
    assert(f@.subrange(p as int, i as int) =~= f@.skip(p as int));
    r
}

// ---------------------------------------------------------------------------
// The tables
// ---------------------------------------------------------------------------

pub struct TablesView {
    pub entries: Seq<EntryView>,
    pub dead_nonces: Seq<(u64, u64)>,
    pub dead_nonce_duration_ms: u64,
    pub data_cache_duration_ms: u64,
}

/// The FIB, PIT and CS with the dead-nonce list.
pub struct Tables {
    entries: Vec<TableEntry>,
    dead_nonce_list: DeadNonceList,
    data_cache_duration_ms: u64,
}

/// The reference forwarding tables, as the forwarder uses them.
pub type ReferenceTables = Tables;

impl View for Tables {
    type V = TablesView;

    closed spec fn view(&self) -> TablesView {
        TablesView {
            entries: entry_views(self.entries@),
            dead_nonces: self.dead_nonce_list.elements@,
            dead_nonce_duration_ms: self.dead_nonce_list.duration_to_keep_ms,
            data_cache_duration_ms: self.data_cache_duration_ms,
        }
    }
}

/// What registering `face` at `cost` for `prefix` does to the tables.
pub open spec fn register_prefix_spec(
    t: TablesView,
    prefix: Seq<ComponentView>,
    face: FaceToken,
    cost: u32,
) -> TablesView {
    let i = index_of(t.entries, prefix);
    if i >= 0 {
        TablesView {
            entries: t.entries.update(
                i,
                EntryView { fib: fib_registered(t.entries[i].fib, face, cost), ..t.entries[i] },
            ),
            ..t
        }
    } else {
        TablesView {
            entries: t.entries.push(
                EntryView {
                    fib: fib_registered(Seq::empty(), face, cost),
                    ..empty_entry(prefix)
                },
            ),
            ..t
        }
    }
}

/// Registering a prefix twice leaves the tables as registering it once.
pub proof fn lemma_register_prefix_idempotent(
    t: TablesView,
    prefix: Seq<ComponentView>,
    face: FaceToken,
    cost: u32,
)
    ensures
        register_prefix_spec(register_prefix_spec(t, prefix, face, cost), prefix, face, cost)
            == register_prefix_spec(t, prefix, face, cost),
{
    let t1 = register_prefix_spec(t, prefix, face, cost);
    let i = index_of(t.entries, prefix);
    lemma_index_of_bounds(t.entries, prefix);
    if i >= 0 {
        let e = EntryView { fib: fib_registered(t.entries[i].fib, face, cost), ..t.entries[i] };
        lemma_index_of_update(t.entries, i, e, prefix);
        lemma_fib_registered_idempotent(t.entries[i].fib, face, cost);
        assert(t1.entries.update(
            i,
            EntryView { fib: fib_registered(t1.entries[i].fib, face, cost), ..t1.entries[i] },
        ) =~= t1.entries);
    } else {
        let e = EntryView { fib: fib_registered(Seq::empty(), face, cost), ..empty_entry(prefix) };
        lemma_index_of_push(t.entries, e, prefix);
        lemma_fib_registered_idempotent(Seq::empty(), face, cost);
        let j = t.entries.len() as int;
        assert(t1.entries.update(
            j,
            EntryView { fib: fib_registered(t1.entries[j].fib, face, cost), ..t1.entries[j] },
        ) =~= t1.entries);
    }
}

impl Tables {
    /// Empty tables that cache Data for `data_cache_duration_ms` and keep
    /// dead nonces for `dead_nonce_duration_ms`.
    pub fn new(data_cache_duration_ms: u32, dead_nonce_duration_ms: u32) -> (r: Self)
        ensures
            r@.entries.len() == 0,
            r@.dead_nonces.len() == 0,
            r@.data_cache_duration_ms == data_cache_duration_ms,
            r@.dead_nonce_duration_ms == dead_nonce_duration_ms,
    {
        let r = Tables {
            entries: Vec::new(),
            dead_nonce_list: DeadNonceList::new(dead_nonce_duration_ms as u64),
            data_cache_duration_ms: data_cache_duration_ms as u64,
        };
        assert(r@.entries =~= Seq::<EntryView>::empty());
        r
    }

    /// The index of the entry named by the first `k` components of `name`.
    fn find(&self, name: &Name, k: usize) -> (r: Option<usize>)
        requires
            k <= name@.len(),
        ensures
            self@.entries.len() == self.entries@.len(),
            match r {
                Some(i) => i as int == index_of(self@.entries, name@.take(k as int)) && i
                    < self.entries@.len(),
                None => index_of(self@.entries, name@.take(k as int)) == -1,
            },
    {
        let mut i: usize = self.entries.len();
        let ghost n = name@.take(k as int);
        proof {
            assert(self@.entries.len() == self.entries@.len());
        }
        proof {
            assert(self@.entries.take(i as int) =~= self@.entries);
        }
        while i > 0
            invariant
                k <= name@.len(),
                n == name@.take(k as int),
                i <= self.entries@.len(),
                self@.entries.len() == self.entries@.len(),
                index_of(self@.entries, n) == index_of(self@.entries.take(i as int), n),
            decreases i,
        {
            proof {
                assert(self@.entries.take(i as int).drop_last() =~= self@.entries.take(i - 1));
                assert(self@.entries[i - 1] == self.entries@[i - 1]@);
                assert(self@.entries.take(i as int).last() == self@.entries[i - 1]);
            }
            if key_equals_prefix(&self.entries[i - 1].name, name, k) {
                return Some(i - 1);
            }
            i = i - 1;
        }
        None
    }

    /// Registers `face` as a next hop for `name_prefix` at `cost`, or updates
    /// its cost; the node's next hops stay in ascending cost.
    pub fn register_prefix(&mut self, name_prefix: &Name, face: FaceToken, cost: u32)
        ensures
            final(self)@ == register_prefix_spec(old(self)@, name_prefix@, face, cost),
    {
        let n = name_prefix.component_count();
        proof {
            assert(name_prefix@.take(n as int) =~= name_prefix@);
        }
        match self.find(name_prefix, n) {
            Some(i) => {
                let fib = fib_without_exec(&self.entries[i].fib, face);
                let fib = fib_insert_exec(&fib, FibEntry { cost, next_hop: face });
                self.entries[i].fib = fib;
                assert(self@.entries =~= old(self)@.entries.update(
                    i as int,
                    EntryView {
                        fib: fib_registered(old(self)@.entries[i as int].fib, face, cost),
                        ..old(self)@.entries[i as int]
                    },
                ));
            },
            None => {
                let mut entry = TableEntry::new(owned_prefix(name_prefix, n));
                let empty: Vec<FibEntry> = Vec::new();
                entry.fib = fib_insert_exec(&empty, FibEntry { cost, next_hop: face });
                proof {
                    assert(fib_without(Seq::<FibEntry>::empty(), face) =~= Seq::<FibEntry>::empty());
                }
                self.entries.push(entry);
                assert(self@.entries =~= old(self)@.entries.push(
                    EntryView {
                        fib: fib_registered(Seq::empty(), face, cost),
                        ..empty_entry(name_prefix@)
                    },
                ));
            },
        }
    }
}

impl TableEntry {
    fn new(name: Vec<ComponentKey>) -> (r: Self)
        ensures
            r@ == empty_entry(key_views(name@)),
    {
        TableEntry {
            name,
            fib: Vec::new(),
            pit_exact: PitEntry::new(),
            pit_prefix: PitEntry::new(),
            data: None,
        }
    }
}

/// Whether two byte strings are equal.
pub fn bytes_equal(a: &[u8], b: &[u8]) -> (r: bool)
    ensures
        r == (a@ == b@),
{
    if a.len() != b.len() {
        return false;
    }
    let mut i: usize = 0;
    while i < a.len()
        invariant
            a@.len() == b@.len(),
            i <= a@.len(),
            a@.take(i as int) == b@.take(i as int),
        decreases a@.len() - i,
    {
        if a[i] != b[i] {
            assert(a@[i as int] != b@[i as int]);
            return false;
        }
        i = i + 1;
        assert(a@.take(i as int) =~= b@.take(i as int));
    }
    assert(a@ =~= a@.take(i as int));
    assert(b@ =~= b@.take(i as int));
    true
}

/// Whether a stored name is the first `k` components of `name`.
fn key_equals_prefix(key: &Vec<ComponentKey>, name: &Name, k: usize) -> (r: bool)
    requires
        k <= name@.len(),
    ensures
        r == (key_views(key@) == name@.take(k as int)),
{
    if key.len() != k {
        proof {
            assert(key_views(key@).len() != name@.take(k as int).len());
        }
        return false;
    }
    let mut i: usize = 0;
    while i < k
        invariant
            key@.len() == k,
            k <= name@.len(),
            i <= k,
            key_views(key@).take(i as int) == name@.take(i as int),
        decreases k - i,
    {
        let c = name.component(i);
        let kc = &key[i];
        if kc.typ != c.typ || !bytes_equal(kc.bytes.as_slice(), c.bytes) {
            assert(key_views(key@)[i as int] != name@.take(k as int)[i as int]);
            return false;
        }
        i = i + 1;
        assert(key_views(key@).take(i as int) =~= name@.take(i as int));
    }
    assert(key_views(key@) =~= key_views(key@).take(i as int));
    assert(name@.take(k as int) =~= name@.take(i as int));
    true
}

/// An owned copy of one component.
fn owned_component(c: NameComponent) -> (r: ComponentKey)
    ensures
        r@ == c@,
{
    let mut bytes: Vec<u8> = Vec::new();
    crate::io::append_bytes(&mut bytes, c.bytes);
    ComponentKey { typ: c.typ, bytes }
}

/// An owned copy of the first `k` components of `name`.
fn owned_prefix(name: &Name, k: usize) -> (r: Vec<ComponentKey>)
    requires
        k <= name@.len(),
    ensures
        key_views(r@) == name@.take(k as int),
{
    let mut r: Vec<ComponentKey> = Vec::new();
    let mut i: usize = 0;
    while i < k
        invariant
            k <= name@.len(),
            i <= k,
            key_views(r@) == name@.take(i as int),
        decreases k - i,
    {
        let c = owned_component(name.component(i));
        let ghost prev = r@;
        r.push(c);
        assert(key_views(r@) =~= key_views(prev).push(c@));
        i = i + 1;
        assert(key_views(r@) =~= name@.take(i as int));
    }
    r
}

// ---------------------------------------------------------------------------
// Dead-nonce list
// ---------------------------------------------------------------------------

/// Recently satisfied or replaced (name, nonce) pairs, by hash, with the time
/// at which each may be forgotten.
pub struct DeadNonceList {
    elements: Vec<(u64, u64)>,
    duration_to_keep_ms: u64,
}

impl DeadNonceList {
    fn new(duration_to_keep_ms: u64) -> (r: Self)
        ensures
            r.elements@.len() == 0,
            r.duration_to_keep_ms == duration_to_keep_ms,
    {
        DeadNonceList { elements: Vec::new(), duration_to_keep_ms }
    }
}


// ---------------------------------------------------------------------------
// Dead-nonce keys: a 64-bit hash of a name and a nonce
// ---------------------------------------------------------------------------

pub const HASH_MULTIPLIER: u64 = 0x517c_c1b7_2722_0a95;

/// One step of the hash: rotate left by 5, mix in `i`, multiply.
pub open spec fn hash_mix(h: u64, i: u64) -> u64 {
    (((h << 5u64) | (h >> 59u64)) ^ i).wrapping_mul(HASH_MULTIPLIER)
}

/// Mixes in `b` by big-endian words of 8 bytes, the last one possibly shorter.
pub open spec fn hash_bytes(h: u64, b: Seq<u8>) -> u64
    decreases b.len(),
{
    if b.len() == 0 {
        h
    } else if b.len() <= 8 {
        hash_mix(h, be_value(b) as u64)
    } else {
        hash_bytes(hash_mix(h, be_value(b.take(8)) as u64), b.skip(8))
    }
}

/// Mixes in each component: its type, then its bytes.
pub open spec fn hash_components(h: u64, cs: Seq<ComponentView>) -> u64
    decreases cs.len(),
{
    if cs.len() == 0 {
        h
    } else {
        hash_components(hash_bytes(hash_mix(h, cs[0].0 as u64), cs[0].1), cs.drop_first())
    }
}

/// The dead-nonce list key of a name and a nonce.
pub open spec fn dead_nonce_key(name: Seq<ComponentView>, nonce: u32) -> u64 {
    hash_mix(hash_components(0, name), nonce as u64)
}

/// A nonce's four bytes as one big-endian number.
pub open spec fn nonce_value(nonce: [u8; 4]) -> u32 {
    be_value(nonce@) as u32
}

fn hash_mix_exec(h: u64, i: u64) -> (r: u64)
    ensures
        r == hash_mix(h, i),
{
    (((h << 5u64) | (h >> 59u64)) ^ i).wrapping_mul(HASH_MULTIPLIER)
}

fn hash_bytes_exec(h0: u64, b: &[u8]) -> (r: u64)
    ensures
        r == hash_bytes(h0, b@),
{
    let mut h = h0;
    let mut off: usize = 0;
    let total = b.len();
    assert(b@.skip(0) =~= b@);
    while total - off > 8
        invariant
            total == b@.len(),
            off <= total,
            hash_bytes(h0, b@) == hash_bytes(h, b@.skip(off as int)),
        decreases total - off,
    {
        assert(b@.skip(off as int).take(8) =~= b@.subrange(off as int, off + 8));
        assert(b@.skip(off as int).skip(8) =~= b@.skip(off + 8));
        let w = read_be(b, off, 8);
        h = hash_mix_exec(h, w);
        off = off + 8;
    }
    if off < total {
        assert(b@.skip(off as int) =~= b@.subrange(off as int, total as int));
        let w = read_be(b, off, total - off);
        h = hash_mix_exec(h, w);
    }
    h
}

impl Tables {
    /// The dead-nonce key of the first `k` components of `name` and `nonce`.
    fn dead_nonce_key_of_name(name: &Name, k: usize, nonce: u32) -> (r: u64)
        requires
            k <= name@.len(),
        ensures
            r == dead_nonce_key(name@.take(k as int), nonce),
    {
        let mut h: u64 = 0;
        let mut i: usize = 0;
        let ghost n = name@.take(k as int);
        assert(n.skip(0) =~= n);
        while i < k
            invariant
                k <= name@.len(),
                n == name@.take(k as int),
                i <= k,
                hash_components(0, n) == hash_components(h, n.skip(i as int)),
            decreases k - i,
        {
            let c = name.component(i);
            assert(n.skip(i as int).drop_first() =~= n.skip(i + 1));
            assert(n.skip(i as int)[0] == c@);
            h = hash_bytes_exec(hash_mix_exec(h, c.typ as u64), c.bytes);
            i = i + 1;
        }
        assert(n.skip(i as int) =~= Seq::<ComponentView>::empty());
        hash_mix_exec(h, nonce as u64)
    }

    /// The dead-nonce key of a stored name and `nonce`.
    fn dead_nonce_key_of_key(key: &Vec<ComponentKey>, nonce: u32) -> (r: u64)
        ensures
            r == dead_nonce_key(key_views(key@), nonce),
    {
        let mut h: u64 = 0;
        let mut i: usize = 0;
        let ghost n = key_views(key@);
        assert(n.skip(0) =~= n);
        while i < key.len()
            invariant
                n == key_views(key@),
                i <= key@.len(),
                hash_components(0, n) == hash_components(h, n.skip(i as int)),
            decreases key@.len() - i,
        {
            let c = &key[i];
            assert(n.skip(i as int).drop_first() =~= n.skip(i + 1));
            assert(n.skip(i as int)[0] == c@);
            h = hash_bytes_exec(hash_mix_exec(h, c.typ as u64), c.bytes.as_slice());
            i = i + 1;
        }
        assert(n.skip(i as int) =~= Seq::<ComponentView>::empty());
        hash_mix_exec(h, nonce as u64)
    }
}

// ---------------------------------------------------------------------------
// Dead-nonce list operations
// ---------------------------------------------------------------------------

/// The position of `key` in the list, or -1.
pub open spec fn dnl_index(d: Seq<(u64, u64)>, key: u64) -> int
    decreases d.len(),
{
    if d.len() == 0 {
        -1
    } else if d.last().0 == key {
        d.len() - 1
    } else {
        dnl_index(d.drop_last(), key)
    }
}

pub open spec fn dnl_contains(d: Seq<(u64, u64)>, key: u64) -> bool {
    dnl_index(d, key) >= 0
}

/// The list after recording `key` until `expiry`.
pub open spec fn dnl_insert(d: Seq<(u64, u64)>, key: u64, expiry: u64) -> Seq<(u64, u64)> {
    if dnl_index(d, key) >= 0 {
        d.update(dnl_index(d, key), (key, expiry))
    } else {
        d.push((key, expiry))
    }
}

pub proof fn lemma_dnl_index_bounds(d: Seq<(u64, u64)>, key: u64)
    ensures
        -1 <= dnl_index(d, key) < d.len(),
        dnl_index(d, key) >= 0 ==> d[dnl_index(d, key)].0 == key,
        dnl_index(d, key) < 0 ==> forall|i: int| 0 <= i < d.len() ==> #[trigger] d[i].0 != key,
    decreases d.len(),
{
    if d.len() > 0 && d.last().0 != key {
        lemma_dnl_index_bounds(d.drop_last(), key);
        assert forall|i: int| 0 <= i < d.len() && dnl_index(d, key) < 0 implies #[trigger] d[i].0
            != key by {
            if i < d.len() - 1 {
                assert(d[i] == d.drop_last()[i]);
            }
        }
    }
}

/// A key is on the list exactly when some element holds it.
pub proof fn lemma_dnl_contains(d: Seq<(u64, u64)>, key: u64)
    ensures
        dnl_contains(d, key) <==> exists|i: int| 0 <= i < d.len() && #[trigger] d[i].0 == key,
{
    lemma_dnl_index_bounds(d, key);
    if dnl_contains(d, key) {
        let i = dnl_index(d, key);
        assert(d[i].0 == key);
    }
}

/// Recording a key keeps every key that was there, and adds it.
pub proof fn lemma_dnl_insert_keeps(d: Seq<(u64, u64)>, key: u64, expiry: u64, other: u64)
    ensures
        dnl_contains(dnl_insert(d, key, expiry), key),
        dnl_contains(d, other) ==> dnl_contains(dnl_insert(d, key, expiry), other),
{
    let d2 = dnl_insert(d, key, expiry);
    lemma_dnl_index_bounds(d, key);
    lemma_dnl_contains(d, other);
    lemma_dnl_contains(d2, other);
    lemma_dnl_contains(d2, key);
    if dnl_index(d, key) >= 0 {
        assert(d2[dnl_index(d, key)].0 == key);
    } else {
        assert(d2[d.len() as int].0 == key);
    }
    if dnl_contains(d, other) {
        let i = choose|i: int| 0 <= i < d.len() && #[trigger] d[i].0 == other;
        assert(d2[i].0 == other);
    }
}

impl DeadNonceList {
    fn contains(&self, key: u64) -> (r: bool)
        ensures
            r == dnl_contains(self.elements@, key),
    {
        match self.position(key) {
            Some(_) => true,
            None => false,
        }
    }

    fn position(&self, key: u64) -> (r: Option<usize>)
        ensures
            match r {
                Some(i) => i as int == dnl_index(self.elements@, key) && i < self.elements@.len(),
                None => dnl_index(self.elements@, key) == -1,
            },
    {
        let mut i: usize = self.elements.len();
        assert(self.elements@.take(i as int) =~= self.elements@);
        while i > 0
            invariant
                i <= self.elements@.len(),
                dnl_index(self.elements@, key) == dnl_index(self.elements@.take(i as int), key),
            decreases i,
        {
            assert(self.elements@.take(i as int).drop_last() =~= self.elements@.take(i - 1));
            if self.elements[i - 1].0 == key {
                return Some(i - 1);
            }
            i = i - 1;
        }
        None
    }

    /// Records `key` until `duration_to_keep_ms` after `now`.
    fn insert(&mut self, key: u64, now: u64)
        ensures
            final(self).duration_to_keep_ms == old(self).duration_to_keep_ms,
            final(self).elements@ == dnl_insert(
                old(self).elements@,
                key,
                saturating_add_spec(now, old(self).duration_to_keep_ms),
            ),
    {
        let expiry = now.saturating_add(self.duration_to_keep_ms);
        match self.position(key) {
            Some(i) => {
                self.elements.set(i, (key, expiry));
            },
            None => {
                self.elements.push((key, expiry));
            },
        }
    }
}

// ---------------------------------------------------------------------------
// PIT admission
// ---------------------------------------------------------------------------

/// The FIB next hops at the node named `n`.
pub open spec fn fib_at(es: Seq<EntryView>, n: Seq<ComponentView>) -> Seq<FibEntry> {
    if index_of(es, n) >= 0 {
        es[index_of(es, n)].fib
    } else {
        Seq::empty()
    }
}

/// The faces of next hops in descending cost.
pub open spec fn faces_descending(f: Seq<FibEntry>) -> Seq<FaceToken>
    decreases f.len(),
{
    if f.len() == 0 {
        Seq::empty()
    } else {
        seq![f.last().next_hop] + faces_descending(f.drop_last())
    }
}

/// The candidates gathered at the first `j` nodes of the walk toward `name`.
pub open spec fn candidates_upto(es: Seq<EntryView>, name: Seq<ComponentView>, j: nat) -> Seq<
    FaceToken,
>
    decreases j,
{
    if j == 0 {
        Seq::empty()
    } else {
        candidates_upto(es, name, (j - 1) as nat) + faces_descending(
            fib_at(es, name.take(j - 1)),
        )
    }
}

/// The candidate next hops of an Interest for `name`, lowest priority first.
pub open spec fn candidates(es: Seq<EntryView>, name: Seq<ComponentView>) -> Seq<FaceToken> {
    candidates_upto(es, name, name.len() + 1)
}

pub open spec fn pit_has_nonce(recs: Seq<PitInEntry>, nonce: u32) -> bool {
    exists|i: int| 0 <= i < recs.len() && #[trigger] recs[i].last_nonce == nonce
}

pub open spec fn pit_has_face(recs: Seq<PitInEntry>, face: FaceToken) -> bool {
    exists|i: int| 0 <= i < recs.len() && #[trigger] recs[i].reply_to == face
}

/// Gives `origin`'s records the new nonce, moving each prior nonce to the
/// dead-nonce list.
pub open spec fn refresh_records(
    recs: Seq<PitInEntry>,
    d: Seq<(u64, u64)>,
    name: Seq<ComponentView>,
    nonce: u32,
    origin: FaceToken,
    expiry: u64,
) -> (Seq<PitInEntry>, Seq<(u64, u64)>)
    decreases recs.len(),
{
    if recs.len() == 0 {
        (recs, d)
    } else {
        let (r0, d0) = refresh_records(recs.drop_last(), d, name, nonce, origin, expiry);
        let last = recs.last();
        if last.reply_to == origin {
            (
                r0.push(PitInEntry { reply_to: origin, last_nonce: nonce }),
                dnl_insert(d0, dead_nonce_key(name, last.last_nonce), expiry),
            )
        } else {
            (r0.push(last), d0)
        }
    }
}

/// The back-off after `count` transmissions: 8 ms doubled up to five times.
pub open spec fn retransmission_delay(count: u8) -> u64 {
    if count == 0 {
        8
    } else if count == 1 {
        16
    } else if count == 2 {
        32
    } else if count == 3 {
        64
    } else if count == 4 {
        128
    } else {
        256
    }
}

pub open spec fn count_after(count: u8) -> u8 {
    if count == u8::MAX {
        count
    } else {
        (count + 1) as u8
    }
}

/// What a PIT slot does with an Interest: the new slot, the dead-nonce list,
/// and the faces to forward to. Without candidates an empty slot stays
/// empty, and a pending one takes the Interest in but forwards nothing.
pub open spec fn accept_interest(
    slot: PitView,
    d: Seq<(u64, u64)>,
    name: Seq<ComponentView>,
    nonce: u32,
    origin: FaceToken,
    now: u64,
    deadline: u64,
    cands: Seq<FaceToken>,
    dead_nonce_duration_ms: u64,
) -> (PitView, Seq<(u64, u64)>, Seq<FaceToken>) {
    if slot.pit_in.len() == 0 && cands.len() == 0 {
        (slot, d, Seq::empty())
    } else if slot.pit_in.len() == 0 {
        (
            PitView {
                pit_in: seq![PitInEntry { reply_to: origin, last_nonce: nonce }],
                removal_deadline: deadline,
                latest_transmission_time: now,
                transmission_count: 1,
            },
            d,
            seq![cands.last()],
        )
    } else {
        let removal = if slot.removal_deadline >= deadline {
            slot.removal_deadline
        } else {
            deadline
        };
        if pit_has_nonce(slot.pit_in, nonce) {
            (PitView { removal_deadline: removal, ..slot }, d, Seq::empty())
        } else {
            let (recs, d2) = refresh_records(
                slot.pit_in,
                d,
                name,
                nonce,
                origin,
                saturating_add_spec(now, dead_nonce_duration_ms),
            );
            let recs2 = if pit_has_face(slot.pit_in, origin) {
                recs
            } else {
                recs.push(PitInEntry { reply_to: origin, last_nonce: nonce })
            };
            if cands.len() == 0 || now < saturating_add_spec(
                slot.latest_transmission_time,
                retransmission_delay(slot.transmission_count),
            ) {
                (PitView { pit_in: recs2, removal_deadline: removal, ..slot }, d2, Seq::empty())
            } else {
                let count = count_after(slot.transmission_count);
                (
                    PitView {
                        pit_in: recs2,
                        removal_deadline: removal,
                        latest_transmission_time: now,
                        transmission_count: count,
                    },
                    d2,
                    seq![cands[cands.len() - 1 - (count as int % cands.len() as int)]],
                )
            }
        }
    }
}

/// Whether the PIT slot that an Interest with the other can-be-prefix flag
/// uses already holds `nonce` for `name`: the Interest has looped.
pub open spec fn pending_in_other_slot(
    es: Seq<EntryView>,
    name: Seq<ComponentView>,
    can_be_prefix: bool,
    nonce: u32,
) -> bool {
    let i = index_of(es, name);
    i >= 0 && pit_has_nonce(slot_of(es[i], !can_be_prefix).pit_in, nonce)
}

/// What registering an Interest does to the tables, and the faces it is
/// forwarded to (at most one). An Interest whose nonce is pending for its
/// name, in either PIT slot, is dropped.
pub open spec fn register_interest_spec(
    t: TablesView,
    name: Seq<ComponentView>,
    can_be_prefix: bool,
    interest_lifetime: Option<u64>,
    nonce: u32,
    origin: FaceToken,
    now: u64,
) -> (TablesView, Seq<FaceToken>) {
    if name.len() == 0 || dnl_contains(t.dead_nonces, dead_nonce_key(name, nonce)) || (
    candidates(t.entries, name).len() == 0 && index_of(t.entries, name) < 0) || pending_in_other_slot(
        t.entries,
        name,
        can_be_prefix,
        nonce,
    ) {
        (t, Seq::empty())
    } else {
        let i = index_of(t.entries, name);
        let es = if i >= 0 {
            t.entries
        } else {
            t.entries.push(empty_entry(name))
        };
        let idx = if i >= 0 {
            i
        } else {
            t.entries.len() as int
        };
        let e = es[idx];
        let slot = if can_be_prefix {
            e.pit_prefix
        } else {
            e.pit_exact
        };
        let lifetime = match interest_lifetime {
            Some(l) => l,
            None => DEFAULT_INTEREST_LIFETIME_MS,
        };
        let (slot2, d2, out) = accept_interest(
            slot,
            t.dead_nonces,
            name,
            nonce,
            origin,
            now,
            saturating_add_spec(now, lifetime),
            candidates(t.entries, name),
            t.dead_nonce_duration_ms,
        );
        let e2 = if can_be_prefix {
            EntryView { pit_prefix: slot2, ..e }
        } else {
            EntryView { pit_exact: slot2, ..e }
        };
        (TablesView { entries: es.update(idx, e2), dead_nonces: d2, ..t }, out)
    }
}


/// The in-records without those of `face`.
pub open spec fn pit_without(recs: Seq<PitInEntry>, face: FaceToken) -> Seq<PitInEntry>
    decreases recs.len(),
{
    if recs.len() == 0 {
        recs
    } else if recs.last().reply_to == face {
        pit_without(recs.drop_last(), face)
    } else {
        pit_without(recs.drop_last(), face).push(recs.last())
    }
}

/// An entry with `face` taken out of its FIB and its PIT slots.
pub open spec fn entry_without_face(e: EntryView, face: FaceToken) -> EntryView {
    EntryView {
        fib: fib_without(e.fib, face),
        pit_exact: PitView { pit_in: pit_without(e.pit_exact.pit_in, face), ..e.pit_exact },
        pit_prefix: PitView { pit_in: pit_without(e.pit_prefix.pit_in, face), ..e.pit_prefix },
        ..e
    }
}

/// The tables with the entry at `i` replaced by `e`.
pub open spec fn with_entry(t: TablesView, i: int, e: EntryView) -> TablesView {
    TablesView { entries: t.entries.update(i, e), ..t }
}

/// Whether `face` is a next hop of `e`.
pub open spec fn removes_next_hop(e: EntryView, face: FaceToken) -> bool {
    fib_without(e.fib, face).len() < e.fib.len()
}

/// The tables with `face` taken out of every entry.
pub open spec fn unregister_face_spec(t: TablesView, face: FaceToken) -> TablesView {
    TablesView {
        entries: Seq::new(t.entries.len(), |i: int| entry_without_face(t.entries[i], face)),
        ..t
    }
}

/// What unregistering `face` for `prefix` does, and whether a next hop went.
pub open spec fn unregister_prefix_spec(
    t: TablesView,
    prefix: Seq<ComponentView>,
    face: FaceToken,
) -> (TablesView, bool) {
    let i = index_of(t.entries, prefix);
    if i >= 0 {
        (
            TablesView { entries: t.entries.update(i, entry_without_face(t.entries[i], face)), ..t },
            fib_without(t.entries[i].fib, face).len() < t.entries[i].fib.len(),
        )
    } else {
        (t, false)
    }
}

fn pit_without_exec(recs: &Vec<PitInEntry>, face: FaceToken) -> (r: Vec<PitInEntry>)
    ensures
        r@ == pit_without(recs@, face),
{
    let mut r: Vec<PitInEntry> = Vec::new();
    let mut i: usize = 0;
    while i < recs.len()
        invariant
            i <= recs@.len(),
            r@ == pit_without(recs@.take(i as int), face),
        decreases recs@.len() - i,
    {
        assert(recs@.take(i + 1).drop_last() =~= recs@.take(i as int));
        if recs[i].reply_to.0 != face.0 {
            r.push(recs[i]);
        }
        i = i + 1;
    }
    assert(recs@.take(i as int) =~= recs@);
    r
}

fn faces_descending_exec(f: &Vec<FibEntry>, out: &mut Vec<FaceToken>)
    ensures
        final(out)@ == old(out)@ + faces_descending(f@),
{
    let mut i: usize = f.len();
    assert(f@.take(i as int) =~= f@);
    assert(old(out)@ + faces_descending(f@) =~= out@ + faces_descending(f@.take(i as int)));
    while i > 0
        invariant
            i <= f@.len(),
            old(out)@ + faces_descending(f@) == out@ + faces_descending(f@.take(i as int)),
        decreases i,
    {
        let ghost prev = out@;
        assert(f@.take(i as int).drop_last() =~= f@.take(i - 1));
        out.push(f[i - 1].next_hop);
        assert(prev + faces_descending(f@.take(i as int)) =~= out@ + faces_descending(
            f@.take(i - 1),
        ));
        i = i - 1;
    }
    assert(out@ + faces_descending(f@.take(0)) =~= out@);
}

fn pit_has_nonce_exec(recs: &Vec<PitInEntry>, nonce: u32) -> (r: bool)
    ensures
        r == pit_has_nonce(recs@, nonce),
{
    let mut i: usize = 0;
    while i < recs.len()
        invariant
            i <= recs@.len(),
            forall|j: int| 0 <= j < i ==> #[trigger] recs@[j].last_nonce != nonce,
        decreases recs@.len() - i,
    {
        if recs[i].last_nonce == nonce {
            return true;
        }
        i = i + 1;
    }
    false
}

fn pit_has_face_exec(recs: &Vec<PitInEntry>, face: FaceToken) -> (r: bool)
    ensures
        r == pit_has_face(recs@, face),
{
    let mut i: usize = 0;
    while i < recs.len()
        invariant
            i <= recs@.len(),
            forall|j: int| 0 <= j < i ==> #[trigger] recs@[j].reply_to != face,
        decreases recs@.len() - i,
    {
        if recs[i].reply_to.0 == face.0 {
            return true;
        }
        i = i + 1;
    }
    false
}

fn retransmission_delay_exec(count: u8) -> (r: u64)
    ensures
        r == retransmission_delay(count),
{
    let doublings = if count < MAX_RETRANSMISSION_DELAY_DOUBLINGS {
        count
    } else {
        MAX_RETRANSMISSION_DELAY_DOUBLINGS
    };
    let mut delay: u64 = MIN_RETRANSMISSION_DELAY_MS;
    let mut k: u8 = 0;
    while k < doublings
        invariant
            k <= doublings <= 5,
            delay == MIN_RETRANSMISSION_DELAY_MS * (if k == 0 {
                1u64
            } else if k == 1 {
                2
            } else if k == 2 {
                4
            } else if k == 3 {
                8
            } else if k == 4 {
                16
            } else {
                32
            }),
        decreases doublings - k,
    {
        delay = delay * 2;
        k = k + 1;
    }
    delay
}

/// Gives `origin`'s records `nonce`, moving prior nonces to the dead-nonce list.
fn refresh_records_exec(
    recs: &Vec<PitInEntry>,
    dnl: &mut DeadNonceList,
    name: &Name,
    nonce: u32,
    origin: FaceToken,
    now: u64,
) -> (r: Vec<PitInEntry>)
    ensures
        final(dnl).duration_to_keep_ms == old(dnl).duration_to_keep_ms,
        (r@, final(dnl).elements@) == refresh_records(
            recs@,
            old(dnl).elements@,
            name@,
            nonce,
            origin,
            saturating_add_spec(now, old(dnl).duration_to_keep_ms),
        ),
{
    let ghost d0 = dnl.elements@;
    let ghost expiry = saturating_add_spec(now, dnl.duration_to_keep_ms);
    let n = name.component_count();
    assert(name@.take(n as int) =~= name@);
    let mut r: Vec<PitInEntry> = Vec::new();
    let mut i: usize = 0;
    assert(recs@.take(0) =~= Seq::<PitInEntry>::empty());
    while i < recs.len()
        invariant
            i <= recs@.len(),
            n == name@.len(),
            name@.take(n as int) == name@,
            dnl.duration_to_keep_ms == old(dnl).duration_to_keep_ms,
            expiry == saturating_add_spec(now, dnl.duration_to_keep_ms),
            (r@, dnl.elements@) == refresh_records(
                recs@.take(i as int),
                d0,
                name@,
                nonce,
                origin,
                expiry,
            ),
        decreases recs@.len() - i,
    {
        assert(recs@.take(i + 1).drop_last() =~= recs@.take(i as int));
        let rec = recs[i];
        if rec.reply_to.0 == origin.0 {
            let key = Tables::dead_nonce_key_of_name(name, n, rec.last_nonce);
            dnl.insert(key, now);
            r.push(PitInEntry { reply_to: origin, last_nonce: nonce });
        } else {
            r.push(rec);
        }
        i = i + 1;
    }
    assert(recs@.take(i as int) =~= recs@);
    r
}

/// Lets `slot` decide on an Interest; see `accept_interest`.
fn accept_interest_exec(
    slot: &mut PitEntry,
    dnl: &mut DeadNonceList,
    name: &Name,
    nonce: u32,
    origin: FaceToken,
    now: u64,
    deadline: u64,
    cands: &Vec<FaceToken>,
) -> (r: Vec<FaceToken>)
    ensures
        final(dnl).duration_to_keep_ms == old(dnl).duration_to_keep_ms,
        (final(slot)@, final(dnl).elements@, r@) == accept_interest(
            old(slot)@,
            old(dnl).elements@,
            name@,
            nonce,
            origin,
            now,
            deadline,
            cands@,
            old(dnl).duration_to_keep_ms,
        ),
{
    let mut out: Vec<FaceToken> = Vec::new();
    if slot.pit_in.len() == 0 && cands.len() == 0 {
        return out;
    }
    if slot.pit_in.len() == 0 {
        slot.pit_in.push(PitInEntry { reply_to: origin, last_nonce: nonce });
        slot.removal_deadline = deadline;
        slot.latest_transmission_time = now;
        slot.transmission_count = 1;
        out.push(cands[cands.len() - 1]);
        assert(slot.pit_in@ =~= seq![PitInEntry { reply_to: origin, last_nonce: nonce }]);
        assert(out@ =~= seq![cands@.last()]);
        return out;
    }
    if slot.removal_deadline < deadline {
        slot.removal_deadline = deadline;
    }
    if pit_has_nonce_exec(&slot.pit_in, nonce) {
        return out;
    }
    let had_origin = pit_has_face_exec(&slot.pit_in, origin);
    let mut recs = refresh_records_exec(&slot.pit_in, dnl, name, nonce, origin, now);
    if !had_origin {
        recs.push(PitInEntry { reply_to: origin, last_nonce: nonce });
    }
    slot.pit_in = recs;
    let delay = retransmission_delay_exec(slot.transmission_count);
    if cands.len() == 0 || now < slot.latest_transmission_time.saturating_add(delay) {
        return out;
    }
    slot.latest_transmission_time = now;
    slot.transmission_count = slot.transmission_count.saturating_add(1);
    let count = slot.transmission_count as usize;
    out.push(cands[cands.len() - 1 - count % cands.len()]);
    assert(out@ =~= seq![cands@[cands@.len() - 1 - (count as int % cands@.len() as int)]]);
    out
}

impl Tables {
    /// The candidate next hops of an Interest for `name`, lowest priority first.
    fn candidates_exec(&self, name: &Name) -> (r: Vec<FaceToken>)
        ensures
            r@ == candidates(self@.entries, name@),
    {
        let n = name.component_count();
        let mut c: Vec<FaceToken> = Vec::new();
        let mut j: usize = 0;
        while j < n
            invariant
                n == name@.len(),
                j <= n,
                c@ == candidates_upto(self@.entries, name@, j as nat),
            decreases n - j,
        {
            self.append_faces_at(name, j, &mut c);
            j = j + 1;
        }
        self.append_faces_at(name, n, &mut c);
        c
    }

    fn append_faces_at(&self, name: &Name, j: usize, c: &mut Vec<FaceToken>)
        requires
            j <= name@.len(),
            old(c)@ == candidates_upto(self@.entries, name@, j as nat),
        ensures
            final(c)@ == candidates_upto(self@.entries, name@, j as nat + 1),
    {
        match self.find(name, j) {
            Some(i) => {
                assert(self@.entries[i as int] == self.entries@[i as int]@);
                faces_descending_exec(&self.entries[i].fib, c);
            },
            None => {
                assert(c@ =~= c@ + faces_descending(Seq::<FibEntry>::empty()));
            },
        }
    }

    /// Registers an Interest for `name` that arrived on `reply_to` and returns
    /// the faces to forward it to: none or one (see the forwarding strategy).
    pub fn register_interest(
        &mut self,
        name: &Name,
        can_be_prefix: bool,
        interest_lifetime: Option<u64>,
        nonce: [u8; 4],
        reply_to: FaceToken,
        now: Timestamp,
    ) -> (r: Vec<FaceToken>)
        ensures
            (final(self)@, r@) == register_interest_spec(
                old(self)@,
                name@,
                can_be_prefix,
                interest_lifetime,
                nonce_value(nonce),
                reply_to,
                now.ms_since_1970,
            ),
    {
        let n = name.component_count();
        if n == 0 {
            return Vec::new();
        }
        let nonce_bytes = nonce.as_slice();
        let nonce = read_be(nonce_bytes, 0, 4) as u32;
        assert(nonce_bytes@.subrange(0, 4) =~= nonce_bytes@);
        proof {
            assert(name@.take(n as int) =~= name@);
            crate::tlv::lemma_be_value_bound(nonce_bytes@);
            crate::tlv::lemma_pow256_values();
        }
        let key = Self::dead_nonce_key_of_name(name, n, nonce);
        if self.dead_nonce_list.contains(key) {
            return Vec::new();
        }
        let cands = self.candidates_exec(name);
        let found = self.find(name, n);
        if cands.len() == 0 && found.is_none() {
            return Vec::new();
        }
        if let Some(i) = found {
            assert(self@.entries[i as int] == self.entries@[i as int]@);
            let other = if can_be_prefix {
                &self.entries[i].pit_exact.pit_in
            } else {
                &self.entries[i].pit_prefix.pit_in
            };
            if pit_has_nonce_exec(other, nonce) {
                return Vec::new();
            }
        }
        let idx = match found {
            Some(i) => i,
            None => {
                let entry = TableEntry::new(owned_prefix(name, n));
                self.entries.push(entry);
                assert(entry_views(self.entries@) =~= old(self)@.entries.push(empty_entry(name@)));
                self.entries.len() - 1
            },
        };
        let ghost es = self@.entries;
        let lifetime = match interest_lifetime {
            Some(l) => l,
            None => DEFAULT_INTEREST_LIFETIME_MS,
        };
        let deadline = now.ms_since_1970.saturating_add(lifetime);
        let out = if can_be_prefix {
            accept_interest_exec(
                &mut self.entries[idx].pit_prefix,
                &mut self.dead_nonce_list,
                name,
                nonce,
                reply_to,
                now.ms_since_1970,
                deadline,
                &cands,
            )
        } else {
            accept_interest_exec(
                &mut self.entries[idx].pit_exact,
                &mut self.dead_nonce_list,
                name,
                nonce,
                reply_to,
                now.ms_since_1970,
                deadline,
                &cands,
            )
        };
        proof {
            let e = es[idx as int];
            let e2 = if can_be_prefix {
                EntryView { pit_prefix: self.entries@[idx as int].pit_prefix@, ..e }
            } else {
                EntryView { pit_exact: self.entries@[idx as int].pit_exact@, ..e }
            };
            assert(self@.entries =~= es.update(idx as int, e2));
        }
        out
    }

    /// Removes `face` as a next hop for `name_prefix`, and its pending
    /// Interests there; returns whether it was a next hop.
    pub fn unregister_prefix(&mut self, name_prefix: &Name, face: FaceToken) -> (r: bool)
        ensures
            (final(self)@, r) == unregister_prefix_spec(old(self)@, name_prefix@, face),
    {
        let n = name_prefix.component_count();
        assert(name_prefix@.take(n as int) =~= name_prefix@);
        match self.find(name_prefix, n) {
            Some(i) => {
                let removed = self.entry_remove_face(i, face);
                removed
            },
            None => false,
        }
    }

    /// Takes `face` out of the FIB and PIT slots of the entry at `i`; returns
    /// whether it was a next hop there.
    fn entry_remove_face(&mut self, i: usize, face: FaceToken) -> (r: bool)
        requires
            i < old(self).entries@.len(),
        ensures
            final(self)@ == with_entry(
                old(self)@,
                i as int,
                entry_without_face(old(self)@.entries[i as int], face),
            ),
            r == removes_next_hop(old(self)@.entries[i as int], face),
    {
        assert(old(self)@.entries[i as int] == old(self).entries@[i as int]@);
        let old_len = self.entries[i].fib.len();
        let fib = fib_without_exec(&self.entries[i].fib, face);
        let removed = fib.len() < old_len;
        self.entries[i].fib = fib;
        let pe = pit_without_exec(&self.entries[i].pit_exact.pit_in, face);
        self.entries[i].pit_exact.pit_in = pe;
        let pp = pit_without_exec(&self.entries[i].pit_prefix.pit_in, face);
        self.entries[i].pit_prefix.pit_in = pp;
        assert(self@.entries =~= old(self)@.entries.update(
            i as int,
            entry_without_face(old(self)@.entries[i as int], face),
        ));
        removed
    }

    /// Removes `face` from every FIB and PIT slot.
    pub fn unregister_face(&mut self, face: FaceToken)
        ensures
            final(self)@ == unregister_face_spec(old(self)@, face),
    {
        let mut i: usize = 0;
        while i < self.entries.len()
            invariant
                i <= self.entries@.len(),
                self.entries@.len() == old(self).entries@.len(),
                self@.dead_nonces == old(self)@.dead_nonces,
                self@.dead_nonce_duration_ms == old(self)@.dead_nonce_duration_ms,
                self@.data_cache_duration_ms == old(self)@.data_cache_duration_ms,
                forall|j: int|
                    0 <= j < i ==> #[trigger] self@.entries[j] == entry_without_face(
                        old(self)@.entries[j],
                        face,
                    ),
                forall|j: int| i <= j < self.entries@.len() ==> #[trigger] self@.entries[j] == old(
                    self,
                )@.entries[j],
            decreases self.entries@.len() - i,
        {
            self.entry_remove_face(i, face);
            assert(entry_views(self.entries@).len() == self.entries@.len());
            assert(entry_views(old(self).entries@).len() == old(self).entries@.len());
            i = i + 1;
        }
        assert(self@.entries =~= Seq::new(
            old(self)@.entries.len(),
            |i: int| entry_without_face(old(self)@.entries[i], face),
        ));
    }
}


/// The PIT slot of an entry that an Interest with `can_be_prefix` uses.
pub open spec fn slot_of(e: EntryView, can_be_prefix: bool) -> PitView {
    if can_be_prefix {
        e.pit_prefix
    } else {
        e.pit_exact
    }
}

pub proof fn lemma_refresh_records(
    recs: Seq<PitInEntry>,
    d: Seq<(u64, u64)>,
    name: Seq<ComponentView>,
    nonce: u32,
    origin: FaceToken,
    expiry: u64,
)
    ensures
        ({
            let r = refresh_records(recs, d, name, nonce, origin, expiry).0;
            &&& r.len() == recs.len()
            &&& forall|i: int|
                0 <= i < r.len() ==> (#[trigger] r[i]).reply_to == recs[i].reply_to && (
                r[i].reply_to == origin ==> r[i].last_nonce == nonce)
        }),
    decreases recs.len(),
{
    if recs.len() > 0 {
        lemma_refresh_records(recs.drop_last(), d, name, nonce, origin, expiry);
        let r = refresh_records(recs, d, name, nonce, origin, expiry).0;
        let r0 = refresh_records(recs.drop_last(), d, name, nonce, origin, expiry).0;
        assert forall|i: int| 0 <= i < r.len() implies (#[trigger] r[i]).reply_to
            == recs[i].reply_to && (r[i].reply_to == origin ==> r[i].last_nonce == nonce) by {
            if i < r.len() - 1 {
                assert(r[i] == r0[i]);
                assert(recs[i] == recs.drop_last()[i]);
            }
        }
    }
}

/// After a PIT slot that is pending, or has candidates to forward to, takes
/// an Interest, some in-record holds the Interest's nonce.
pub proof fn lemma_accept_records_nonce(
    slot: PitView,
    d: Seq<(u64, u64)>,
    name: Seq<ComponentView>,
    nonce: u32,
    origin: FaceToken,
    now: u64,
    deadline: u64,
    cands: Seq<FaceToken>,
    dur: u64,
)
    requires
        slot.pit_in.len() > 0 || cands.len() > 0,
    ensures
        ({
            let s2 = accept_interest(slot, d, name, nonce, origin, now, deadline, cands, dur).0;
            s2.pit_in.len() > 0 && pit_has_nonce(s2.pit_in, nonce)
        }),
{
    let s2 = accept_interest(slot, d, name, nonce, origin, now, deadline, cands, dur).0;
    if slot.pit_in.len() == 0 {
        assert(s2.pit_in[0].last_nonce == nonce);
    } else if pit_has_nonce(slot.pit_in, nonce) {
    } else {
        let expiry = saturating_add_spec(now, dur);
        lemma_refresh_records(slot.pit_in, d, name, nonce, origin, expiry);
        let recs = refresh_records(slot.pit_in, d, name, nonce, origin, expiry).0;
        if pit_has_face(slot.pit_in, origin) {
            let i = choose|i: int| 0 <= i < slot.pit_in.len() && #[trigger] slot.pit_in[i].reply_to
                == origin;
            assert(recs[i].last_nonce == nonce);
            assert(s2.pit_in[i].last_nonce == nonce);
        } else {
            assert(s2.pit_in[recs.len() as int].last_nonce == nonce);
        }
    }
}

/// Where an Interest for `name` was taken into a PIT slot, the entry for
/// `name` is found at the position that slot was written to.
pub proof fn lemma_register_interest_entry(
    t: TablesView,
    name: Seq<ComponentView>,
    can_be_prefix: bool,
    interest_lifetime: Option<u64>,
    nonce: u32,
    origin: FaceToken,
    now: u64,
)
    requires
        name.len() > 0,
        !dnl_contains(t.dead_nonces, dead_nonce_key(name, nonce)),
        candidates(t.entries, name).len() > 0 || (index_of(t.entries, name) >= 0 && slot_of(
            t.entries[index_of(t.entries, name)],
            can_be_prefix,
        ).pit_in.len() > 0),
        !pending_in_other_slot(t.entries, name, can_be_prefix, nonce),
    ensures
        ({
            let t1 = register_interest_spec(
                t,
                name,
                can_be_prefix,
                interest_lifetime,
                nonce,
                origin,
                now,
            ).0;
            let j = index_of(t1.entries, name);
            &&& j >= 0
            &&& slot_of(t1.entries[j], can_be_prefix).pit_in.len() > 0
            &&& pit_has_nonce(slot_of(t1.entries[j], can_be_prefix).pit_in, nonce)
        }),
{
    let i = index_of(t.entries, name);
    lemma_index_of_bounds(t.entries, name);
    let es = if i >= 0 {
        t.entries
    } else {
        t.entries.push(empty_entry(name))
    };
    let idx = if i >= 0 {
        i
    } else {
        t.entries.len() as int
    };
    if i < 0 {
        lemma_index_of_push(t.entries, empty_entry(name), name);
    }
    assert(index_of(es, name) == idx);
    let e = es[idx];
    let lifetime = match interest_lifetime {
        Some(l) => l,
        None => DEFAULT_INTEREST_LIFETIME_MS,
    };
    let (slot2, d2, out) = accept_interest(
        slot_of(e, can_be_prefix),
        t.dead_nonces,
        name,
        nonce,
        origin,
        now,
        saturating_add_spec(now, lifetime),
        candidates(t.entries, name),
        t.dead_nonce_duration_ms,
    );
    lemma_accept_records_nonce(
        slot_of(e, can_be_prefix),
        t.dead_nonces,
        name,
        nonce,
        origin,
        now,
        saturating_add_spec(now, lifetime),
        candidates(t.entries, name),
        t.dead_nonce_duration_ms,
    );
    let e2 = if can_be_prefix {
        EntryView { pit_prefix: slot2, ..e }
    } else {
        EntryView { pit_exact: slot2, ..e }
    };
    lemma_index_of_bounds(es, name);
    lemma_index_of_update(es, idx, e2, name);
}

/// Loop safety: once an Interest has been registered, the same name and
/// nonce is never forwarded again, whatever its can-be-prefix flag, from
/// whatever face and at whatever time it comes.
pub proof fn lemma_pit_loop_safety(
    t: TablesView,
    name: Seq<ComponentView>,
    nonce: u32,
    first_can_be_prefix: bool,
    first_lifetime: Option<u64>,
    first_face: FaceToken,
    first_now: u64,
    second_can_be_prefix: bool,
    second_lifetime: Option<u64>,
    second_face: FaceToken,
    second_now: u64,
)
    ensures
        ({
            let t1 = register_interest_spec(
                t,
                name,
                first_can_be_prefix,
                first_lifetime,
                nonce,
                first_face,
                first_now,
            ).0;
            register_interest_spec(
                t1,
                name,
                second_can_be_prefix,
                second_lifetime,
                nonce,
                second_face,
                second_now,
            ).1.len() == 0
        }),
{
    let t1 = register_interest_spec(
        t,
        name,
        first_can_be_prefix,
        first_lifetime,
        nonce,
        first_face,
        first_now,
    ).0;
    if name.len() == 0 || dnl_contains(t.dead_nonces, dead_nonce_key(name, nonce)) || (
    candidates(t.entries, name).len() == 0 && index_of(t.entries, name) < 0) {
        assert(t1 == t);
    } else if candidates(t.entries, name).len() == 0 && slot_of(
        t.entries[index_of(t.entries, name)],
        first_can_be_prefix,
    ).pit_in.len() == 0 && !pending_in_other_slot(t.entries, name, first_can_be_prefix, nonce) {
        // Nothing to forward to and nothing pending: the Interest leaves no
        // trace, and no later one is forwarded either while that holds.
        let i = index_of(t.entries, name);
        lemma_index_of_bounds(t.entries, name);
        let e = t.entries[i];
        let e2 = if first_can_be_prefix {
            EntryView { pit_prefix: e.pit_prefix, ..e }
        } else {
            EntryView { pit_exact: e.pit_exact, ..e }
        };
        assert(e2 == e);
        assert(t.entries.update(i, e2) =~= t.entries);
        assert(t1 == t);
    } else if pending_in_other_slot(t.entries, name, first_can_be_prefix, nonce) {
        assert(t1 == t);
        let i = index_of(t.entries, name);
        lemma_index_of_bounds(t.entries, name);
        let slot = slot_of(t.entries[i], !first_can_be_prefix);
        assert(slot.pit_in.len() > 0);
    } else {
        lemma_register_interest_entry(
            t,
            name,
            first_can_be_prefix,
            first_lifetime,
            nonce,
            first_face,
            first_now,
        );
        assert(index_of(t1.entries, name) >= 0);
        if second_can_be_prefix != first_can_be_prefix {
            assert(pending_in_other_slot(t1.entries, name, second_can_be_prefix, nonce));
        }
    }
}

/// Retransmission suppression: a pending PIT slot forwards again only once
/// the back-off after its transmissions so far has passed, and then records
/// this transmission.
pub proof fn lemma_retransmission_suppression(
    t: TablesView,
    name: Seq<ComponentView>,
    can_be_prefix: bool,
    interest_lifetime: Option<u64>,
    nonce: u32,
    origin: FaceToken,
    now: u64,
)
    requires
        index_of(t.entries, name) >= 0,
        slot_of(t.entries[index_of(t.entries, name)], can_be_prefix).pit_in.len() > 0,
        register_interest_spec(
            t,
            name,
            can_be_prefix,
            interest_lifetime,
            nonce,
            origin,
            now,
        ).1.len() > 0,
    ensures
        ({
            let slot = slot_of(t.entries[index_of(t.entries, name)], can_be_prefix);
            let t1 = register_interest_spec(
                t,
                name,
                can_be_prefix,
                interest_lifetime,
                nonce,
                origin,
                now,
            ).0;
            let slot1 = slot_of(t1.entries[index_of(t.entries, name)], can_be_prefix);
            &&& now >= saturating_add_spec(
                slot.latest_transmission_time,
                retransmission_delay(slot.transmission_count),
            )
            &&& slot1.latest_transmission_time == now
            &&& slot1.transmission_count == count_after(slot.transmission_count)
        }),
{
    lemma_index_of_bounds(t.entries, name);
}


// ---------------------------------------------------------------------------
// Data satisfaction
// ---------------------------------------------------------------------------

/// Drains in-records: their nonces go to the dead-nonce list under `name`,
/// their faces out.
pub open spec fn drain_records(
    recs: Seq<PitInEntry>,
    d: Seq<(u64, u64)>,
    name: Seq<ComponentView>,
    expiry: u64,
) -> (Seq<(u64, u64)>, Seq<FaceToken>)
    decreases recs.len(),
{
    if recs.len() == 0 {
        (d, Seq::empty())
    } else {
        let (d0, f0) = drain_records(recs.drop_last(), d, name, expiry);
        (dnl_insert(d0, dead_nonce_key(name, recs.last().last_nonce), expiry), f0.push(
            recs.last().reply_to,
        ))
    }
}

/// Satisfies the PIT slots of the entry at `i` (the prefix slot only, or
/// both): each slot is emptied and its records drained.
pub open spec fn satisfy_entry(t: TablesView, i: int, prefix_only: bool, now: u64) -> (
    TablesView,
    Seq<FaceToken>,
) {
    if i < 0 || i >= t.entries.len() {
        (t, Seq::empty())
    } else {
        let e = t.entries[i];
        let expiry = saturating_add_spec(now, t.dead_nonce_duration_ms);
        let (d1, f1) = if prefix_only {
            (t.dead_nonces, Seq::empty())
        } else {
            drain_records(e.pit_exact.pit_in, t.dead_nonces, e.name, expiry)
        };
        let (d2, f2) = drain_records(e.pit_prefix.pit_in, d1, e.name, expiry);
        let e2 = EntryView {
            pit_exact: if prefix_only {
                e.pit_exact
            } else {
                empty_pit()
            },
            pit_prefix: empty_pit(),
            ..e
        };
        (TablesView { entries: t.entries.update(i, e2), dead_nonces: d2, ..t }, f1 + f2)
    }
}

/// Satisfies the prefix slots of the first `k` ancestors of `name`.
pub open spec fn satisfy_ancestors(t: TablesView, name: Seq<ComponentView>, k: nat, now: u64) -> (
    TablesView,
    Seq<FaceToken>,
)
    decreases k,
{
    if k == 0 {
        (t, Seq::empty())
    } else {
        let (t0, f0) = satisfy_ancestors(t, name, (k - 1) as nat, now);
        let (t1, f1) = satisfy_entry(t0, index_of(t0.entries, name.take(k - 1)), true, now);
        (t1, f0 + f1)
    }
}

/// The faces in order of first appearance, each once.
pub open spec fn dedup(s: Seq<FaceToken>) -> Seq<FaceToken>
    decreases s.len(),
{
    if s.len() == 0 {
        s
    } else if dedup(s.drop_last()).contains(s.last()) {
        dedup(s.drop_last())
    } else {
        dedup(s.drop_last()).push(s.last())
    }
}

/// The full name of Data: its name followed by its implicit digest.
pub open spec fn full_name(name: Seq<ComponentView>, digest: Seq<u8>) -> Seq<ComponentView> {
    name.push((NameComponent::TYPE_IMPLICIT_SHA256, digest))
}

/// What Data with `name` (and, where given, `digest`) does to the PIT, and
/// the faces it goes to.
pub open spec fn satisfy_interests_spec(
    t: TablesView,
    name: Seq<ComponentView>,
    digest: Option<Seq<u8>>,
    now: u64,
) -> (TablesView, Seq<FaceToken>) {
    let (ta, fa) = satisfy_ancestors(t, name, name.len(), now);
    let (tb, fb) = satisfy_entry(ta, index_of(ta.entries, name), false, now);
    let (tc, fc) = match digest {
        Some(dg) => satisfy_entry(tb, index_of(tb.entries, full_name(name, dg)), false, now),
        None => (tb, Seq::empty()),
    };
    (tc, dedup(fa + fb + fc))
}

/// Drains `slot` into `dnl` and `out`, keyed with the first `k` components of `name`.
fn drain_slot(
    slot: &mut PitEntry,
    dnl: &mut DeadNonceList,
    name: &Name,
    k: usize,
    now: u64,
    out: &mut Vec<FaceToken>,
)
    requires
        k <= name@.len(),
    ensures
        final(slot)@ == empty_pit(),
        final(dnl).duration_to_keep_ms == old(dnl).duration_to_keep_ms,
        ({
            let (d, f) = drain_records(
                old(slot)@.pit_in,
                old(dnl).elements@,
                name@.take(k as int),
                saturating_add_spec(now, old(dnl).duration_to_keep_ms),
            );
            final(dnl).elements@ == d && final(out)@ == old(out)@ + f
        }),
{
    let ghost d0 = dnl.elements@;
    let ghost o0 = out@;
    let ghost expiry = saturating_add_spec(now, dnl.duration_to_keep_ms);
    let mut i: usize = 0;
    assert(slot.pit_in@.take(0) =~= Seq::<PitInEntry>::empty());
    assert(o0 + Seq::<FaceToken>::empty() =~= o0);
    while i < slot.pit_in.len()
        invariant
            k <= name@.len(),
            i <= slot.pit_in@.len(),
            slot.pit_in@ == old(slot).pit_in@,
            dnl.duration_to_keep_ms == old(dnl).duration_to_keep_ms,
            expiry == saturating_add_spec(now, dnl.duration_to_keep_ms),
            ({
                let (d, f) = drain_records(
                    slot.pit_in@.take(i as int),
                    d0,
                    name@.take(k as int),
                    expiry,
                );
                dnl.elements@ == d && out@ == o0 + f
            }),
        decreases slot.pit_in@.len() - i,
    {
        assert(slot.pit_in@.take(i + 1).drop_last() =~= slot.pit_in@.take(i as int));
        let rec = slot.pit_in[i];
        let key = Tables::dead_nonce_key_of_name(name, k, rec.last_nonce);
        dnl.insert(key, now);
        let ghost prev = out@;
        out.push(rec.reply_to);
        proof {
            let (d, f) = drain_records(
                slot.pit_in@.take(i as int),
                d0,
                name@.take(k as int),
                expiry,
            );
            assert(out@ =~= o0 + f.push(rec.reply_to));
        }
        i = i + 1;
    }
    assert(slot.pit_in@.take(i as int) =~= slot.pit_in@);
    slot.pit_in = Vec::new();
    slot.removal_deadline = NO_DEADLINE;
    slot.latest_transmission_time = NEVER_TRANSMITTED;
    slot.transmission_count = 0;
    assert(slot.pit_in@ =~= Seq::<PitInEntry>::empty());
}

fn dedup_exec(s: &Vec<FaceToken>) -> (r: Vec<FaceToken>)
    ensures
        r@ == dedup(s@),
{
    let mut r: Vec<FaceToken> = Vec::new();
    let mut i: usize = 0;
    while i < s.len()
        invariant
            i <= s@.len(),
            r@ == dedup(s@.take(i as int)),
        decreases s@.len() - i,
    {
        assert(s@.take(i + 1).drop_last() =~= s@.take(i as int));
        let f = s[i];
        let mut j: usize = 0;
        let mut found = false;
        while j < r.len()
            invariant
                j <= r@.len(),
                found == (exists|m: int| 0 <= m < j && r@[m] == f),
            decreases r@.len() - j,
        {
            if r[j].0 == f.0 {
                found = true;
            }
            j = j + 1;
        }
        proof {
            if found {
                let m = choose|m: int| 0 <= m < j && r@[m] == f;
                assert(r@.contains(f));
            } else {
                assert(!r@.contains(f));
            }
        }
        if !found {
            r.push(f);
        }
        i = i + 1;
    }
    assert(s@.take(i as int) =~= s@);
    r
}

impl Tables {
    /// Satisfies the slots of the entry named by the first `k` components of
    /// `name`, if there is one.
    fn satisfy_entry_exec(
        &mut self,
        name: &Name,
        k: usize,
        prefix_only: bool,
        now: u64,
        out: &mut Vec<FaceToken>,
    )
        requires
            k <= name@.len(),
        ensures
            ({
                let (t, f) = satisfy_entry(
                    old(self)@,
                    index_of(old(self)@.entries, name@.take(k as int)),
                    prefix_only,
                    now,
                );
                final(self)@ == t && final(out)@ == old(out)@ + f
            }),
    {
        match self.find(name, k) {
            Some(i) => {
                proof {
                    lemma_index_of_bounds(old(self)@.entries, name@.take(k as int));
                    assert(self@.entries[i as int] == self.entries@[i as int]@);
                }
                let ghost o0 = out@;
                if !prefix_only {
                    drain_slot(
                        &mut self.entries[i].pit_exact,
                        &mut self.dead_nonce_list,
                        name,
                        k,
                        now,
                        out,
                    );
                }
                let ghost o1 = out@;
                drain_slot(
                    &mut self.entries[i].pit_prefix,
                    &mut self.dead_nonce_list,
                    name,
                    k,
                    now,
                    out,
                );
                proof {
                    let e = old(self)@.entries[i as int];
                    let e2 = EntryView {
                        pit_exact: if prefix_only {
                            e.pit_exact
                        } else {
                            empty_pit()
                        },
                        pit_prefix: empty_pit(),
                        ..e
                    };
                    assert(self@.entries =~= old(self)@.entries.update(i as int, e2));
                    if prefix_only {
                        assert(o1 =~= o0 + Seq::<FaceToken>::empty());
                    }
                    assert(out@ =~= o0 + (o1.skip(o0.len() as int) + out@.skip(o1.len() as int)));
                }
            },
            None => {
                assert(out@ =~= out@ + Seq::<FaceToken>::empty());
            },
        }
    }

    /// Whether the entry for `name` has entries one component below it in
    /// the trie (so that Data for `name` may satisfy Interests for its full name).
    pub fn has_children(&self, name: &Name) -> (r: bool)
        ensures
            r == exists|i: int|
                0 <= i < self@.entries.len() && #[trigger] self@.entries[i].name.len() == name@.len()
                    + 1 && self@.entries[i].name.take(name@.len() as int) == name@,
    {
        let n = name.component_count();
        let mut i: usize = 0;
        while i < self.entries.len()
            invariant
                n == name@.len(),
                i <= self.entries@.len(),
                self@.entries.len() == self.entries@.len(),
                forall|j: int|
                    0 <= j < i ==> !(#[trigger] self@.entries[j].name.len() == name@.len() + 1
                        && self@.entries[j].name.take(name@.len() as int) == name@),
            decreases self.entries@.len() - i,
        {
            assert(self@.entries[i as int] == self.entries@[i as int]@);
            assert(key_views(self.entries@[i as int].name@).len() == self.entries@[i as int].name@.len());
            let len = self.entries[i].name.len();
            if len > n && len - 1 == n && key_has_prefix(&self.entries[i].name, name) {
                assert(self@.entries[i as int].name.len() == name@.len() + 1
                    && self@.entries[i as int].name.take(name@.len() as int) == name@);
                return true;
            }
            i = i + 1;
        }
        false
    }

    /// Satisfies the Interests that Data for `name` answers and returns the
    /// faces to send it to, each once, in the order their records are met
    /// from the shortest prefix of `name` to its full name. `digest` is the
    /// Data's implicit digest, needed only where `name` has children.
    pub fn satisfy_interests(&mut self, name: &Name, now: Timestamp, digest: Option<&[u8]>) -> (r:
        Vec<FaceToken>)
        ensures
            ({
                let dg = match digest {
                    Some(d) => Some(d@),
                    None => None,
                };
                (final(self)@, r@) == satisfy_interests_spec(
                    old(self)@,
                    name@,
                    dg,
                    now.ms_since_1970,
                )
            }),
    {
        let n = name.component_count();
        let now = now.ms_since_1970;
        let mut out: Vec<FaceToken> = Vec::new();
        let mut k: usize = 0;
        while k < n
            invariant
                n == name@.len(),
                k <= n,
                ({
                    let (t, f) = satisfy_ancestors(old(self)@, name@, k as nat, now);
                    self@ == t && out@ == f
                }),
            decreases n - k,
        {
            self.satisfy_entry_exec(name, k, true, now, &mut out);
            k = k + 1;
        }
        assert(name@.take(n as int) =~= name@);
        self.satisfy_entry_exec(name, n, false, now, &mut out);
        let ghost fab = out@;
        match digest {
            Some(dg) => {
                let full = name.adding_component(NameComponent::new_implicit(dg));
                let m = full.component_count();
                assert(full@.take(m as int) =~= full@);
                self.satisfy_entry_exec(&full, m, false, now, &mut out);
            },
            None => {
                assert(out@ =~= fab + Seq::<FaceToken>::empty());
            },
        }
        dedup_exec(&out)
    }
}

/// Whether `name` is a prefix of the stored name `key`.
fn key_has_prefix(key: &Vec<ComponentKey>, name: &Name) -> (r: bool)
    ensures
        r == (name@.len() <= key_views(key@).len() && key_views(key@).take(name@.len() as int)
            == name@),
{
    let n = name.component_count();
    if key.len() < n {
        return false;
    }
    let mut i: usize = 0;
    while i < n
        invariant
            n == name@.len(),
            n <= key@.len(),
            i <= n,
            key_views(key@).take(i as int) == name@.take(i as int),
        decreases n - i,
    {
        let c = name.component(i);
        let kc = &key[i];
        if kc.typ != c.typ || !bytes_equal(kc.bytes.as_slice(), c.bytes) {
            assert(key_views(key@).take(n as int)[i as int] != name@[i as int]);
            return false;
        }
        i = i + 1;
        assert(key_views(key@).take(i as int) =~= name@.take(i as int));
    }
    assert(name@.take(n as int) =~= name@);
    true
}


// ---------------------------------------------------------------------------
// Content store
// ---------------------------------------------------------------------------

/// The cached Data at a full name after inserting `packet`: an equal packet
/// keeps its entry with the later freshness deadline; the removal deadline
/// is renewed.
pub open spec fn cached_after_insert(
    old_data: Option<DataView>,
    packet: Seq<u8>,
    freshness: u64,
    now: u64,
    cache: u64,
) -> DataView {
    let fresh = saturating_add_spec(now, freshness);
    match old_data {
        Some(d) => if d.data == packet {
            DataView {
                data: d.data,
                freshness_deadline: if d.freshness_deadline >= fresh {
                    d.freshness_deadline
                } else {
                    fresh
                },
                removal_deadline: saturating_add_spec(now, cache),
            }
        } else {
            DataView {
                data: packet,
                freshness_deadline: fresh,
                removal_deadline: saturating_add_spec(now, cache),
            }
        },
        None => DataView {
            data: packet,
            freshness_deadline: fresh,
            removal_deadline: saturating_add_spec(now, cache),
        },
    }
}

pub open spec fn insert_data_spec(
    t: TablesView,
    name: Seq<ComponentView>,
    digest: Seq<u8>,
    freshness: u64,
    now: u64,
    packet: Seq<u8>,
) -> TablesView {
    let full = full_name(name, digest);
    let i = index_of(t.entries, full);
    let es = if i >= 0 {
        t.entries
    } else {
        t.entries.push(empty_entry(full))
    };
    let idx = if i >= 0 {
        i
    } else {
        t.entries.len() as int
    };
    let e = es[idx];
    TablesView {
        entries: es.update(
            idx,
            EntryView {
                data: Some(
                    cached_after_insert(e.data, packet, freshness, now, t.data_cache_duration_ms),
                ),
                ..e
            },
        ),
        ..t
    }
}

/// Bytes in lexicographic order, a prefix first.
pub open spec fn bytes_less(a: Seq<u8>, b: Seq<u8>) -> bool
    decreases a.len(),
{
    if b.len() == 0 {
        false
    } else if a.len() == 0 {
        true
    } else if a[0] != b[0] {
        a[0] < b[0]
    } else {
        bytes_less(a.drop_first(), b.drop_first())
    }
}

/// Children order: by type, then by bytes.
pub open spec fn component_less(a: ComponentView, b: ComponentView) -> bool {
    a.0 < b.0 || (a.0 == b.0 && bytes_less(a.1, b.1))
}

/// Depth-first trie order: a node before its children, siblings in
/// component order.
pub open spec fn name_less(a: Seq<ComponentView>, b: Seq<ComponentView>) -> bool
    decreases a.len(),
{
    if b.len() == 0 {
        false
    } else if a.len() == 0 {
        true
    } else if a[0] != b[0] {
        component_less(a[0], b[0])
    } else {
        name_less(a.drop_first(), b.drop_first())
    }
}

pub open spec fn is_prefix_of(p: Seq<ComponentView>, n: Seq<ComponentView>) -> bool {
    p.len() <= n.len() && n.take(p.len() as int) == p
}

/// Cached Data that a query may return.
pub open spec fn acceptable(e: EntryView, must_be_fresh: bool, now: u64) -> bool {
    match e.data {
        Some(d) => !must_be_fresh || now <= d.freshness_deadline,
        None => false,
    }
}

/// An entry that can answer a query for `name` when its own node cannot: one
/// below it (can-be-prefix), or its full name.
pub open spec fn cs_candidate(
    e: EntryView,
    name: Seq<ComponentView>,
    can_be_prefix: bool,
    must_be_fresh: bool,
    now: u64,
) -> bool {
    acceptable(e, must_be_fresh, now) && is_prefix_of(name, e.name) && if can_be_prefix {
        true
    } else {
        e.name.len() == name.len() + 1 && e.name.last().0 == NameComponent::TYPE_IMPLICIT_SHA256
    }
}

/// The first of the first `k` entries, in trie order, that can answer.
pub open spec fn best_candidate(
    es: Seq<EntryView>,
    k: nat,
    name: Seq<ComponentView>,
    can_be_prefix: bool,
    must_be_fresh: bool,
    now: u64,
) -> int
    decreases k,
{
    if k == 0 {
        -1
    } else {
        let b = best_candidate(es, (k - 1) as nat, name, can_be_prefix, must_be_fresh, now);
        if cs_candidate(es[k - 1], name, can_be_prefix, must_be_fresh, now) && (b < 0 || name_less(
            es[k - 1].name,
            es[b].name,
        )) {
            k - 1
        } else {
            b
        }
    }
}

/// The entry whose Data answers a query, or -1: the query's own node if its
/// Data is acceptable, else the first candidate in trie order.
pub open spec fn cs_lookup(
    es: Seq<EntryView>,
    name: Seq<ComponentView>,
    can_be_prefix: bool,
    must_be_fresh: bool,
    now: u64,
) -> int {
    let i = index_of(es, name);
    if i >= 0 && acceptable(es[i], must_be_fresh, now) {
        i
    } else {
        best_candidate(es, es.len(), name, can_be_prefix, must_be_fresh, now)
    }
}

/// What a query does to the tables (the answer's removal deadline is
/// renewed) and what it returns.
pub open spec fn get_data_spec(
    t: TablesView,
    name: Seq<ComponentView>,
    can_be_prefix: bool,
    must_be_fresh: bool,
    now: u64,
) -> (TablesView, Option<Seq<u8>>) {
    let j = cs_lookup(t.entries, name, can_be_prefix, must_be_fresh, now);
    if j >= 0 && j < t.entries.len() {
        let d = t.entries[j].data->Some_0;
        (
            TablesView {
                entries: t.entries.update(
                    j,
                    EntryView {
                        data: Some(
                            DataView {
                                removal_deadline: saturating_add_spec(
                                    now,
                                    t.data_cache_duration_ms,
                                ),
                                ..d
                            },
                        ),
                        ..t.entries[j]
                    },
                ),
                ..t
            },
            Some(d.data),
        )
    } else {
        (t, None)
    }
}

pub proof fn lemma_best_candidate_bounds(
    es: Seq<EntryView>,
    k: nat,
    name: Seq<ComponentView>,
    can_be_prefix: bool,
    must_be_fresh: bool,
    now: u64,
)
    requires
        k <= es.len(),
    ensures
        -1 <= best_candidate(es, k, name, can_be_prefix, must_be_fresh, now) < k,
        best_candidate(es, k, name, can_be_prefix, must_be_fresh, now) >= 0 ==> cs_candidate(
            es[best_candidate(es, k, name, can_be_prefix, must_be_fresh, now)],
            name,
            can_be_prefix,
            must_be_fresh,
            now,
        ),
    decreases k,
{
    if k > 0 {
        lemma_best_candidate_bounds(es, (k - 1) as nat, name, can_be_prefix, must_be_fresh, now);
    }
}

fn bytes_less_exec(a: &[u8], b: &[u8]) -> (r: bool)
    ensures
        r == bytes_less(a@, b@),
{
    let mut i: usize = 0;
    assert(a@.skip(0) =~= a@ && b@.skip(0) =~= b@);
    loop
        invariant
            i <= a@.len(),
            i <= b@.len(),
            bytes_less(a@, b@) == bytes_less(a@.skip(i as int), b@.skip(i as int)),
        decreases a@.len() - i,
    {
        if i == b.len() {
            return false;
        }
        if i == a.len() {
            return true;
        }
        if a[i] != b[i] {
            return a[i] < b[i];
        }
        assert(a@.skip(i as int).drop_first() =~= a@.skip(i + 1));
        assert(b@.skip(i as int).drop_first() =~= b@.skip(i + 1));
        i = i + 1;
    }
}

fn name_less_exec(a: &Vec<ComponentKey>, b: &Vec<ComponentKey>) -> (r: bool)
    ensures
        r == name_less(key_views(a@), key_views(b@)),
{
    let ghost av = key_views(a@);
    let ghost bv = key_views(b@);
    let mut i: usize = 0;
    assert(av.skip(0) =~= av && bv.skip(0) =~= bv);
    loop
        invariant
            av == key_views(a@),
            bv == key_views(b@),
            i <= a@.len(),
            i <= b@.len(),
            name_less(av, bv) == name_less(av.skip(i as int), bv.skip(i as int)),
        decreases a@.len() - i,
    {
        if i == b.len() {
            return false;
        }
        if i == a.len() {
            return true;
        }
        let ca = &a[i];
        let cb = &b[i];
        assert(av.skip(i as int)[0] == ca@ && bv.skip(i as int)[0] == cb@);
        if ca.typ != cb.typ {
            return ca.typ < cb.typ;
        }
        if !bytes_equal(ca.bytes.as_slice(), cb.bytes.as_slice()) {
            return bytes_less_exec(ca.bytes.as_slice(), cb.bytes.as_slice());
        }
        assert(av.skip(i as int).drop_first() =~= av.skip(i + 1));
        assert(bv.skip(i as int).drop_first() =~= bv.skip(i + 1));
        i = i + 1;
    }
}

impl Tables {
    /// Caches `packet`, Data with `name` and implicit `digest`, at its full
    /// name; it stays fresh for `freshness` ms.
    pub fn insert_data(
        &mut self,
        name: &Name,
        digest: &[u8],
        freshness: u64,
        now: Timestamp,
        packet: &[u8],
    )
        ensures
            final(self)@ == insert_data_spec(
                old(self)@,
                name@,
                digest@,
                freshness,
                now.ms_since_1970,
                packet@,
            ),
    {
        let now = now.ms_since_1970;
        let full = name.adding_component(NameComponent::new_implicit(digest));
        let m = full.component_count();
        assert(full@.take(m as int) =~= full@);
        let idx = match self.find(&full, m) {
            Some(i) => i,
            None => {
                let entry = TableEntry::new(owned_prefix(&full, m));
                self.entries.push(entry);
                assert(entry_views(self.entries@) =~= old(self)@.entries.push(empty_entry(full@)));
                self.entries.len() - 1
            },
        };
        let ghost es = self@.entries;
        assert(es[idx as int] == self.entries@[idx as int]@);
        let fresh = now.saturating_add(freshness);
        let removal = now.saturating_add(self.data_cache_duration_ms);
        let same = match &self.entries[idx].data {
            Some(d) => bytes_equal(d.data.as_slice(), packet),
            None => false,
        };
        if same {
            let entry = &mut self.entries[idx];
            match &mut entry.data {
                Some(d) => {
                    if d.freshness_deadline < fresh {
                        d.freshness_deadline = fresh;
                    }
                    d.removal_deadline = removal;
                },
                None => {},
            }
        } else {
            let mut bytes: Vec<u8> = Vec::new();
            crate::io::append_bytes(&mut bytes, packet);
            self.entries[idx].data = Some(
                DataEntry { data: bytes, freshness_deadline: fresh, removal_deadline: removal },
            );
        }
        proof {
            let e = es[idx as int];
            let e2 = EntryView {
                data: Some(
                    cached_after_insert(
                        e.data,
                        packet@,
                        freshness,
                        now,
                        old(self)@.data_cache_duration_ms,
                    ),
                ),
                ..e
            };
            assert(self@.entries =~= es.update(idx as int, e2));
        }
    }

    /// Answers a query from the cache: the bytes of the Data at `name` if
    /// acceptable, else of the first acceptable Data below it in trie order
    /// (can-be-prefix) or at its full name. The answer's removal deadline is
    /// renewed.
    pub fn get_data(&mut self, name: &Name, can_be_prefix: bool, must_be_fresh: bool, now: Timestamp) -> (r:
        Option<Vec<u8>>)
        ensures
            ({
                let (t, d) = get_data_spec(
                    old(self)@,
                    name@,
                    can_be_prefix,
                    must_be_fresh,
                    now.ms_since_1970,
                );
                final(self)@ == t && match r {
                    Some(v) => d == Some(v@),
                    None => d is None,
                }
            }),
    {
        let now = now.ms_since_1970;
        let n = name.component_count();
        assert(name@.take(n as int) =~= name@);
        let mut j: Option<usize> = None;
        match self.find(name, n) {
            Some(i) => {
                assert(self@.entries[i as int] == self.entries@[i as int]@);
                if self.entry_acceptable(i, must_be_fresh, now) {
                    j = Some(i);
                }
            },
            None => {},
        }
        if j.is_none() {
            j = self.best_candidate_exec(name, can_be_prefix, must_be_fresh, now);
        }
        match j {
            Some(j) => {
                proof {
                    lemma_best_candidate_bounds(
                        self@.entries,
                        self@.entries.len(),
                        name@,
                        can_be_prefix,
                        must_be_fresh,
                        now,
                    );
                    assert(self@.entries[j as int] == self.entries@[j as int]@);
                }
                let removal = now.saturating_add(self.data_cache_duration_ms);
                let mut result: Option<Vec<u8>> = None;
                let entry = &mut self.entries[j];
                match &mut entry.data {
                    Some(d) => {
                        d.removal_deadline = removal;
                        let mut bytes: Vec<u8> = Vec::new();
                        crate::io::append_bytes(&mut bytes, d.data.as_slice());
                        result = Some(bytes);
                    },
                    None => {},
                }
                proof {
                    let e = old(self)@.entries[j as int];
                    let d = e.data->Some_0;
                    assert(self@.entries =~= old(self)@.entries.update(
                        j as int,
                        EntryView {
                            data: Some(DataView { removal_deadline: removal, ..d }),
                            ..e
                        },
                    ));
                }
                result
            },
            None => None,
        }
    }

    fn entry_acceptable(&self, i: usize, must_be_fresh: bool, now: u64) -> (r: bool)
        requires
            i < self.entries@.len(),
        ensures
            r == acceptable(self.entries@[i as int]@, must_be_fresh, now),
    {
        match &self.entries[i].data {
            Some(d) => !must_be_fresh || now <= d.freshness_deadline,
            None => false,
        }
    }

    fn best_candidate_exec(
        &self,
        name: &Name,
        can_be_prefix: bool,
        must_be_fresh: bool,
        now: u64,
    ) -> (r: Option<usize>)
        ensures
            match r {
                Some(j) => j as int == best_candidate(
                    self@.entries,
                    self@.entries.len(),
                    name@,
                    can_be_prefix,
                    must_be_fresh,
                    now,
                ),
                None => best_candidate(
                    self@.entries,
                    self@.entries.len(),
                    name@,
                    can_be_prefix,
                    must_be_fresh,
                    now,
                ) < 0,
            },
    {
        let n = name.component_count();
        let mut best: Option<usize> = None;
        let mut k: usize = 0;
        assert(self@.entries.len() == self.entries@.len());
        while k < self.entries.len()
            invariant
                n == name@.len(),
                k <= self.entries@.len(),
                self@.entries.len() == self.entries@.len(),
                match best {
                    Some(b) => b as int == best_candidate(
                        self@.entries,
                        k as nat,
                        name@,
                        can_be_prefix,
                        must_be_fresh,
                        now,
                    ) && b < k,
                    None => best_candidate(
                        self@.entries,
                        k as nat,
                        name@,
                        can_be_prefix,
                        must_be_fresh,
                        now,
                    ) < 0,
                },
            decreases self.entries@.len() - k,
        {
            proof {
                lemma_best_candidate_bounds(
                    self@.entries,
                    k as nat,
                    name@,
                    can_be_prefix,
                    must_be_fresh,
                    now,
                );
            }
            let e = &self.entries[k];
            assert(self@.entries[k as int] == e@);
            assert(key_views(e.name@).len() == e.name@.len());
            let len = e.name.len();
            let shape = if can_be_prefix {
                true
            } else {
                len > n && len - 1 == n && e.name[len - 1].typ
                    == NameComponent::TYPE_IMPLICIT_SHA256
            };
            proof {
                if !can_be_prefix && len > n && len - 1 == n {
                    assert(key_views(e.name@).last() == e.name@[len - 1]@);
                }
            }
            let candidate = shape && self.entry_acceptable(k, must_be_fresh, now)
                && key_has_prefix(&e.name, name);
            if candidate {
                match best {
                    None => {
                        best = Some(k);
                    },
                    Some(b) => {
                        assert(self@.entries[b as int] == self.entries@[b as int]@);
                        if name_less_exec(&e.name, &self.entries[b].name) {
                            best = Some(k);
                        }
                    },
                }
            }
            k = k + 1;
        }
        best
    }
}


// ---------------------------------------------------------------------------
// Pruning
// ---------------------------------------------------------------------------

/// An entry that holds nothing: no next hop, no pending Interest, no Data.
pub open spec fn entry_is_empty(e: EntryView) -> bool {
    e.fib.len() == 0 && e.pit_exact.pit_in.len() == 0 && e.pit_prefix.pit_in.len() == 0
        && e.data is None
}

/// A slot past its removal deadline is reset; its nonces go to the dead-nonce list.
pub open spec fn prune_slot(
    slot: PitView,
    d: Seq<(u64, u64)>,
    name: Seq<ComponentView>,
    now: u64,
    expiry: u64,
) -> (PitView, Seq<(u64, u64)>) {
    if slot.removal_deadline < now {
        (empty_pit(), drain_records(slot.pit_in, d, name, expiry).0)
    } else {
        (slot, d)
    }
}

pub open spec fn prune_entry(e: EntryView, d: Seq<(u64, u64)>, now: u64, dur: u64) -> (
    EntryView,
    Seq<(u64, u64)>,
) {
    let expiry = saturating_add_spec(now, dur);
    let (pe, d1) = prune_slot(e.pit_exact, d, e.name, now, expiry);
    let (pp, d2) = prune_slot(e.pit_prefix, d1, e.name, now, expiry);
    let data = match e.data {
        Some(x) => if x.removal_deadline < now {
            None
        } else {
            Some(x)
        },
        None => None,
    };
    (EntryView { pit_exact: pe, pit_prefix: pp, data, ..e }, d2)
}

/// Prunes each entry in order and drops those left empty.
pub open spec fn prune_entries(es: Seq<EntryView>, d: Seq<(u64, u64)>, now: u64, dur: u64) -> (
    Seq<EntryView>,
    Seq<(u64, u64)>,
)
    decreases es.len(),
{
    if es.len() == 0 {
        (es, d)
    } else {
        let (e2, d1) = prune_entry(es[0], d, now, dur);
        let (rest, d2) = prune_entries(es.drop_first(), d1, now, dur);
        (
            if entry_is_empty(e2) {
                rest
            } else {
                seq![e2] + rest
            },
            d2,
        )
    }
}

/// The dead-nonce list without the entries that expired before `now`.
pub open spec fn dnl_pruned(d: Seq<(u64, u64)>, now: u64) -> Seq<(u64, u64)>
    decreases d.len(),
{
    if d.len() == 0 {
        d
    } else if d.last().1 < now {
        dnl_pruned(d.drop_last(), now)
    } else {
        dnl_pruned(d.drop_last(), now).push(d.last())
    }
}

pub open spec fn prune_spec(t: TablesView, now: u64) -> TablesView {
    let (es, d) = prune_entries(t.entries, t.dead_nonces, now, t.dead_nonce_duration_ms);
    TablesView { entries: es, dead_nonces: dnl_pruned(d, now), ..t }
}

fn copy_key(key: &Vec<ComponentKey>) -> (r: Vec<ComponentKey>)
    ensures
        key_views(r@) == key_views(key@),
{
    let mut r: Vec<ComponentKey> = Vec::new();
    let mut i: usize = 0;
    while i < key.len()
        invariant
            i <= key@.len(),
            key_views(r@) == key_views(key@).take(i as int),
        decreases key@.len() - i,
    {
        let mut bytes: Vec<u8> = Vec::new();
        crate::io::append_bytes(&mut bytes, key[i].bytes.as_slice());
        let c = ComponentKey { typ: key[i].typ, bytes };
        let ghost prev = r@;
        r.push(c);
        assert(key_views(r@) =~= key_views(prev).push(c@));
        i = i + 1;
        assert(key_views(r@) =~= key_views(key@).take(i as int));
    }
    assert(key_views(key@).take(i as int) =~= key_views(key@));
    r
}

/// Resets `slot` if it is past its removal deadline.
fn prune_slot_exec(slot: &mut PitEntry, dnl: &mut DeadNonceList, key: &Vec<ComponentKey>, now: u64)
    ensures
        final(dnl).duration_to_keep_ms == old(dnl).duration_to_keep_ms,
        (final(slot)@, final(dnl).elements@) == prune_slot(
            old(slot)@,
            old(dnl).elements@,
            key_views(key@),
            now,
            saturating_add_spec(now, old(dnl).duration_to_keep_ms),
        ),
{
    if slot.removal_deadline >= now {
        return;
    }
    let ghost d0 = dnl.elements@;
    let ghost expiry = saturating_add_spec(now, dnl.duration_to_keep_ms);
    let mut i: usize = 0;
    assert(slot.pit_in@.take(0) =~= Seq::<PitInEntry>::empty());
    while i < slot.pit_in.len()
        invariant
            i <= slot.pit_in@.len(),
            slot.pit_in@ == old(slot).pit_in@,
            dnl.duration_to_keep_ms == old(dnl).duration_to_keep_ms,
            expiry == saturating_add_spec(now, dnl.duration_to_keep_ms),
            dnl.elements@ == drain_records(
                slot.pit_in@.take(i as int),
                d0,
                key_views(key@),
                expiry,
            ).0,
        decreases slot.pit_in@.len() - i,
    {
        assert(slot.pit_in@.take(i + 1).drop_last() =~= slot.pit_in@.take(i as int));
        let k = Tables::dead_nonce_key_of_key(key, slot.pit_in[i].last_nonce);
        dnl.insert(k, now);
        i = i + 1;
    }
    assert(slot.pit_in@.take(i as int) =~= slot.pit_in@);
    slot.pit_in = Vec::new();
    slot.removal_deadline = NO_DEADLINE;
    slot.latest_transmission_time = NEVER_TRANSMITTED;
    slot.transmission_count = 0;
    assert(slot.pit_in@ =~= Seq::<PitInEntry>::empty());
}

impl DeadNonceList {
    /// Forgets the entries that expired before `now`.
    fn prune(&mut self, now: u64)
        ensures
            final(self).duration_to_keep_ms == old(self).duration_to_keep_ms,
            final(self).elements@ == dnl_pruned(old(self).elements@, now),
    {
        let mut kept: Vec<(u64, u64)> = Vec::new();
        let mut i: usize = 0;
        while i < self.elements.len()
            invariant
                i <= self.elements@.len(),
                self.elements@ == old(self).elements@,
                kept@ == dnl_pruned(self.elements@.take(i as int), now),
            decreases self.elements@.len() - i,
        {
            assert(self.elements@.take(i + 1).drop_last() =~= self.elements@.take(i as int));
            let el = self.elements[i];
            if el.1 >= now {
                kept.push(el);
            }
            i = i + 1;
        }
        assert(self.elements@.take(i as int) =~= self.elements@);
        self.elements = kept;
    }
}

impl TableEntry {
    fn is_empty(&self) -> (r: bool)
        ensures
            r == entry_is_empty(self@),
    {
        self.data.is_none() && self.fib.len() == 0 && self.pit_exact.pit_in.len() == 0
            && self.pit_prefix.pit_in.len() == 0
    }
}

impl Tables {
    /// Drops cached Data and resets PIT slots past their removal deadlines
    /// (their nonces go to the dead-nonce list), reaps entries left empty,
    /// and forgets expired dead nonces.
    pub fn prune_if_needed(&mut self, now: Timestamp)
        ensures
            final(self)@ == prune_spec(old(self)@, now.ms_since_1970),
    {
        let now = now.ms_since_1970;
        let ghost old_es = old(self)@.entries;
        let ghost dur = old(self)@.dead_nonce_duration_ms;
        let ghost mut j: int = 0;
        let mut i: usize = 0;
        assert(old_es.skip(0) =~= old_es);
        assert(self@.entries.take(0) + old_es.skip(0) =~= self@.entries);
        while i < self.entries.len()
            invariant
                0 <= j <= old_es.len(),
                i <= self.entries@.len(),
                self@.entries.len() == self.entries@.len(),
                self@.entries.skip(i as int) == old_es.skip(j),
                self@.dead_nonce_duration_ms == dur,
                self@.data_cache_duration_ms == old(self)@.data_cache_duration_ms,
                ({
                    let (rest, df) = prune_entries(old_es.skip(j), self@.dead_nonces, now, dur);
                    prune_entries(old_es, old(self)@.dead_nonces, now, dur) == (
                        self@.entries.take(i as int) + rest,
                        df,
                    )
                }),
            decreases self.entries@.len() - i,
        {
            proof {
                assert(self@.entries.skip(i as int)[0] == self@.entries[i as int]);
                assert(old_es.skip(j)[0] == old_es[j]);
                assert(old_es.skip(j).drop_first() =~= old_es.skip(j + 1));
                assert(self@.entries[i as int] == self.entries@[i as int]@);
            }
            let ghost before = self@;
            let ghost e0 = self@.entries[i as int];
            let key = copy_key(&self.entries[i].name);
            prune_slot_exec(&mut self.entries[i].pit_exact, &mut self.dead_nonce_list, &key, now);
            prune_slot_exec(&mut self.entries[i].pit_prefix, &mut self.dead_nonce_list, &key, now);
            let drop_data = match &self.entries[i].data {
                Some(d) => d.removal_deadline < now,
                None => false,
            };
            if drop_data {
                self.entries[i].data = None;
            }
            let ghost pruned = prune_entry(e0, before.dead_nonces, now, dur);
            proof {
                assert(self.entries@[i as int]@ == pruned.0);
                assert(self@.dead_nonces == pruned.1);
                assert(self@.entries =~= before.entries.update(i as int, pruned.0));
            }
            if self.entries[i].is_empty() {
                self.entries.remove(i);
                proof {
                    assert(self@.entries =~= before.entries.remove(i as int));
                    assert(self@.entries.take(i as int) =~= before.entries.take(i as int));
                    assert(self@.entries.skip(i as int) =~= before.entries.skip(i + 1));
                    assert(before.entries.skip(i + 1) =~= old_es.skip(j + 1));
                }
            } else {
                proof {
                    assert(self@.entries.take(i + 1) =~= before.entries.take(i as int) + seq![
                        pruned.0,
                    ]);
                    assert(self@.entries.skip(i + 1) =~= before.entries.skip(i + 1));
                    assert(before.entries.skip(i + 1) =~= old_es.skip(j + 1));
                    let (rest, df) = prune_entries(old_es.skip(j + 1), self@.dead_nonces, now, dur);
                    assert(before.entries.take(i as int) + (seq![pruned.0] + rest) =~= self@.entries.take(
                        i + 1,
                    ) + rest);
                }
                i = i + 1;
            }
            proof {
                j = j + 1;
            }
        }
        proof {
            assert(self@.entries.skip(i as int).len() == 0);
            assert(old_es.skip(j).len() == 0);
            assert(old_es.skip(j) =~= Seq::<EntryView>::empty());
            assert(self@.entries.take(i as int) =~= self@.entries);
            assert(self@.entries + Seq::<EntryView>::empty() =~= self@.entries);
        }
        self.dead_nonce_list.prune(now);
    }
}


/// Nothing in the entry is past a deadline at `now`: cached Data and pending
/// PIT slots all have later removal deadlines.
pub open spec fn entry_current(e: EntryView, now: u64) -> bool {
    &&& (e.data matches Some(d) ==> d.removal_deadline >= now)
    &&& (e.pit_exact.pit_in.len() > 0 ==> e.pit_exact.removal_deadline >= now)
    &&& (e.pit_prefix.pit_in.len() > 0 ==> e.pit_prefix.removal_deadline >= now)
}

proof fn lemma_prune_entries_current(es: Seq<EntryView>, d: Seq<(u64, u64)>, now: u64, dur: u64)
    ensures
        forall|i: int|
            0 <= i < prune_entries(es, d, now, dur).0.len() ==> entry_current(
                #[trigger] prune_entries(es, d, now, dur).0[i],
                now,
            ),
    decreases es.len(),
{
    if es.len() > 0 {
        let (e2, d1) = prune_entry(es[0], d, now, dur);
        lemma_prune_entries_current(es.drop_first(), d1, now, dur);
        let (rest, d2) = prune_entries(es.drop_first(), d1, now, dur);
        if !entry_is_empty(e2) {
            assert forall|i: int| 0 <= i < (seq![e2] + rest).len() implies entry_current(
                #[trigger] (seq![e2] + rest)[i],
                now,
            ) by {
                if i > 0 {
                    assert((seq![e2] + rest)[i] == rest[i - 1]);
                }
            }
        }
    }
}

/// Where no pending PIT slot has passed its deadline, pruning adds nothing
/// to the dead-nonce list.
proof fn lemma_prune_entries_quiet(es: Seq<EntryView>, d: Seq<(u64, u64)>, now: u64, dur: u64)
    requires
        forall|i: int| 0 <= i < es.len() ==> entry_current(#[trigger] es[i], now),
    ensures
        prune_entries(es, d, now, dur).1 == d,
    decreases es.len(),
{
    if es.len() > 0 {
        assert(entry_current(es[0], now));
        let e = es[0];
        if e.pit_exact.pit_in.len() == 0 {
            assert(drain_records(e.pit_exact.pit_in, d, e.name, saturating_add_spec(now, dur)).0
                == d);
        }
        if e.pit_prefix.pit_in.len() == 0 {
            assert(drain_records(e.pit_prefix.pit_in, d, e.name, saturating_add_spec(now, dur)).0
                == d);
        }
        assert forall|i: int| 0 <= i < es.drop_first().len() implies entry_current(
            #[trigger] es.drop_first()[i],
            now,
        ) by {
            assert(es.drop_first()[i] == es[i + 1]);
        }
        lemma_prune_entries_quiet(es.drop_first(), d, now, dur);
    }
}

proof fn lemma_dnl_pruned(d: Seq<(u64, u64)>, now: u64)
    ensures
        forall|i: int| 0 <= i < dnl_pruned(d, now).len() ==> (#[trigger] dnl_pruned(d, now)[i]).1
            >= now,
        (forall|i: int| 0 <= i < d.len() ==> (#[trigger] d[i]).1 < now) ==> dnl_pruned(d, now).len()
            == 0,
    decreases d.len(),
{
    if d.len() > 0 {
        lemma_dnl_pruned(d.drop_last(), now);
        let r0 = dnl_pruned(d.drop_last(), now);
        let r = dnl_pruned(d, now);
        if d.last().1 >= now {
            assert forall|i: int| 0 <= i < r.len() implies (#[trigger] r[i]).1 >= now by {
                if i < r0.len() {
                    assert(r[i] == r0[i]);
                }
            }
        }
        if forall|i: int| 0 <= i < d.len() ==> (#[trigger] d[i]).1 < now {
            assert forall|i: int| 0 <= i < d.drop_last().len() implies (
            #[trigger] d.drop_last()[i]).1 < now by {
                assert(d.drop_last()[i] == d[i]);
            }
            assert(d[d.len() - 1].1 < now);
        }
    }
}

/// Whether an entry holds no pending Interest and no cached Data.
pub open spec fn entry_settled(e: EntryView) -> bool {
    &&& e.pit_exact.pit_in.len() == 0
    &&& e.pit_prefix.pit_in.len() == 0
    &&& e.data is None
}

/// Whether every pending PIT slot and the cached Data of an entry are past
/// their removal deadlines at `now`.
pub open spec fn entry_expired(e: EntryView, now: u64) -> bool {
    &&& (e.data matches Some(x) ==> x.removal_deadline < now)
    &&& (e.pit_exact.pit_in.len() > 0 ==> e.pit_exact.removal_deadline < now)
    &&& (e.pit_prefix.pit_in.len() > 0 ==> e.pit_prefix.removal_deadline < now)
}

proof fn lemma_prune_entries_settle(es: Seq<EntryView>, d: Seq<(u64, u64)>, now: u64, dur: u64)
    requires
        forall|i: int| 0 <= i < es.len() ==> entry_expired(#[trigger] es[i], now),
    ensures
        forall|i: int|
            0 <= i < prune_entries(es, d, now, dur).0.len() ==> entry_settled(
                #[trigger] prune_entries(es, d, now, dur).0[i],
            ),
    decreases es.len(),
{
    if es.len() > 0 {
        assert(entry_expired(es[0], now));
        let (e2, d1) = prune_entry(es[0], d, now, dur);
        assert forall|i: int| 0 <= i < es.drop_first().len() implies entry_expired(
            #[trigger] es.drop_first()[i],
            now,
        ) by {
            assert(es.drop_first()[i] == es[i + 1]);
        }
        lemma_prune_entries_settle(es.drop_first(), d1, now, dur);
        let (rest, d2) = prune_entries(es.drop_first(), d1, now, dur);
        assert(entry_settled(e2));
        if !entry_is_empty(e2) {
            assert forall|i: int| 0 <= i < (seq![e2] + rest).len() implies entry_settled(
                #[trigger] (seq![e2] + rest)[i],
            ) by {
                if i > 0 {
                    assert((seq![e2] + rest)[i] == rest[i - 1]);
                }
            }
        }
    }
}

/// Whether every dead nonce in `d` expires before `bound`.
pub open spec fn dnl_expires_before(d: Seq<(u64, u64)>, bound: u64) -> bool {
    forall|i: int| 0 <= i < d.len() ==> (#[trigger] d[i]).1 < bound
}

proof fn lemma_dnl_insert_bound(d: Seq<(u64, u64)>, key: u64, expiry: u64, bound: u64)
    requires
        dnl_expires_before(d, bound),
        expiry < bound,
    ensures
        dnl_expires_before(dnl_insert(d, key, expiry), bound),
{
    lemma_dnl_index_bounds(d, key);
    let r = dnl_insert(d, key, expiry);
    assert forall|i: int| 0 <= i < r.len() implies (#[trigger] r[i]).1 < bound by {
        if i < d.len() && i != dnl_index(d, key) {
            assert(r[i] == d[i]);
        }
    }
}

proof fn lemma_drain_records_bound(
    recs: Seq<PitInEntry>,
    d: Seq<(u64, u64)>,
    name: Seq<ComponentView>,
    expiry: u64,
    bound: u64,
)
    requires
        dnl_expires_before(d, bound),
        expiry < bound,
    ensures
        dnl_expires_before(drain_records(recs, d, name, expiry).0, bound),
    decreases recs.len(),
{
    if recs.len() > 0 {
        lemma_drain_records_bound(recs.drop_last(), d, name, expiry, bound);
        let d0 = drain_records(recs.drop_last(), d, name, expiry).0;
        lemma_dnl_insert_bound(d0, dead_nonce_key(name, recs.last().last_nonce), expiry, bound);
    }
}

proof fn lemma_prune_entries_bound(
    es: Seq<EntryView>,
    d: Seq<(u64, u64)>,
    now: u64,
    dur: u64,
    bound: u64,
)
    requires
        dnl_expires_before(d, bound),
        saturating_add_spec(now, dur) < bound,
    ensures
        dnl_expires_before(prune_entries(es, d, now, dur).1, bound),
    decreases es.len(),
{
    if es.len() > 0 {
        let e = es[0];
        let expiry = saturating_add_spec(now, dur);
        lemma_drain_records_bound(e.pit_exact.pit_in, d, e.name, expiry, bound);
        let d1 = prune_slot(e.pit_exact, d, e.name, now, expiry).1;
        lemma_drain_records_bound(e.pit_prefix.pit_in, d1, e.name, expiry, bound);
        let d2 = prune_entry(e, d, now, dur).1;
        lemma_prune_entries_bound(es.drop_first(), d2, now, dur, bound);
    }
}

proof fn lemma_dnl_pruned_bound(d: Seq<(u64, u64)>, now: u64, bound: u64)
    requires
        dnl_expires_before(d, bound),
    ensures
        dnl_expires_before(dnl_pruned(d, now), bound),
    decreases d.len(),
{
    if d.len() > 0 {
        assert(dnl_expires_before(d.drop_last(), bound)) by {
            assert forall|i: int| 0 <= i < d.drop_last().len() implies (
            #[trigger] d.drop_last()[i]).1 < bound by {
                assert(d.drop_last()[i] == d[i]);
            }
        }
        lemma_dnl_pruned_bound(d.drop_last(), now, bound);
        let r0 = dnl_pruned(d.drop_last(), now);
        let r = dnl_pruned(d, now);
        assert(d[d.len() - 1].1 < bound);
        assert forall|i: int| 0 <= i < r.len() implies (#[trigger] r[i]).1 < bound by {
            if i < r0.len() {
                assert(r[i] == r0[i]);
            }
        }
    }
}

/// Pruning settles: where every pending PIT slot and cached Data is past its
/// deadline at `t1`, and `t2` is past every dead nonce's expiry and past the
/// expiry of the nonces that pruning at `t1` retires, pruning at `t1` and
/// then at `t2` leaves no pending Interest, no cached Data and no dead nonce.
pub proof fn lemma_pruning_settles(t: TablesView, t1: u64, t2: u64)
    requires
        forall|i: int| 0 <= i < t.entries.len() ==> entry_expired(#[trigger] t.entries[i], t1),
        dnl_expires_before(t.dead_nonces, t2),
        saturating_add_spec(t1, t.dead_nonce_duration_ms) < t2,
    ensures
        ({
            let u = prune_spec(prune_spec(t, t1), t2);
            &&& forall|i: int| 0 <= i < u.entries.len() ==> entry_settled(#[trigger] u.entries[i])
            &&& u.dead_nonces.len() == 0
        }),
{
    let dur = t.dead_nonce_duration_ms;
    let u1 = prune_spec(t, t1);
    lemma_prune_entries_settle(t.entries, t.dead_nonces, t1, dur);
    lemma_prune_entries_bound(t.entries, t.dead_nonces, t1, dur, t2);
    let d1 = prune_entries(t.entries, t.dead_nonces, t1, dur).1;
    lemma_dnl_pruned_bound(d1, t1, t2);
    assert forall|i: int| 0 <= i < u1.entries.len() implies entry_current(
        #[trigger] u1.entries[i],
        t2,
    ) && entry_expired(u1.entries[i], t2) by {
        assert(entry_settled(u1.entries[i]));
    }
    lemma_prune_entries_quiet(u1.entries, u1.dead_nonces, t2, dur);
    lemma_prune_entries_settle(u1.entries, u1.dead_nonces, t2, dur);
    lemma_dnl_pruned(u1.dead_nonces, t2);
}

/// Pruning convergence: after pruning at `now` no cached Data and no pending
/// PIT slot past its deadline remains, and no dead nonce that expired
/// before `now`; where nothing pending was past its deadline and every dead
/// nonce had expired, the dead-nonce list is empty.
pub proof fn lemma_pruning_convergence(t: TablesView, now: u64)
    ensures
        forall|i: int|
            0 <= i < prune_spec(t, now).entries.len() ==> entry_current(
                #[trigger] prune_spec(t, now).entries[i],
                now,
            ),
        forall|i: int|
            0 <= i < prune_spec(t, now).dead_nonces.len() ==> (
            #[trigger] prune_spec(t, now).dead_nonces[i]).1 >= now,
        (forall|i: int| 0 <= i < t.entries.len() ==> entry_current(#[trigger] t.entries[i], now))
            && (forall|i: int| 0 <= i < t.dead_nonces.len() ==> (#[trigger] t.dead_nonces[i]).1
            < now) ==> prune_spec(t, now).dead_nonces.len() == 0,
{
    let dur = t.dead_nonce_duration_ms;
    lemma_prune_entries_current(t.entries, t.dead_nonces, now, dur);
    let d = prune_entries(t.entries, t.dead_nonces, now, dur).1;
    lemma_dnl_pruned(d, now);
    if (forall|i: int| 0 <= i < t.entries.len() ==> entry_current(#[trigger] t.entries[i], now)) {
        lemma_prune_entries_quiet(t.entries, t.dead_nonces, now, dur);
    }
}


// ---------------------------------------------------------------------------
// PIT drain
// ---------------------------------------------------------------------------

proof fn lemma_drain_records(
    recs: Seq<PitInEntry>,
    d: Seq<(u64, u64)>,
    name: Seq<ComponentView>,
    expiry: u64,
)
    ensures
        forall|key: u64|
            dnl_contains(d, key) ==> dnl_contains(
                #[trigger] drain_records(recs, d, name, expiry).0,
                key,
            ),
        forall|k: int|
            0 <= k < recs.len() ==> dnl_contains(
                drain_records(recs, d, name, expiry).0,
                dead_nonce_key(name, (#[trigger] recs[k]).last_nonce),
            ),
    decreases recs.len(),
{
    if recs.len() > 0 {
        lemma_drain_records(recs.drop_last(), d, name, expiry);
        let d0 = drain_records(recs.drop_last(), d, name, expiry).0;
        let key_last = dead_nonce_key(name, recs.last().last_nonce);
        assert forall|key: u64| dnl_contains(d0, key) implies dnl_contains(
            #[trigger] dnl_insert(d0, key_last, expiry),
            key,
        ) by {
            lemma_dnl_insert_keeps(d0, key_last, expiry, key);
        }
        lemma_dnl_insert_keeps(d0, key_last, expiry, key_last);
        assert forall|k: int| 0 <= k < recs.len() implies dnl_contains(
            drain_records(recs, d, name, expiry).0,
            dead_nonce_key(name, (#[trigger] recs[k]).last_nonce),
        ) by {
            if k < recs.len() - 1 {
                assert(recs[k] == recs.drop_last()[k]);
                lemma_dnl_insert_keeps(
                    d0,
                    key_last,
                    expiry,
                    dead_nonce_key(name, recs[k].last_nonce),
                );
            }
        }
    }
}

/// The slots of entry `i` of `t` that a step drained are empty in `u`, and
/// the nonces they held are dead there.
pub open spec fn drained(t: TablesView, u: TablesView, i: int, prefix_only: bool) -> bool {
    let e = t.entries[i];
    &&& u.entries[i].pit_prefix.pit_in.len() == 0
    &&& forall|k: int|
        0 <= k < e.pit_prefix.pit_in.len() ==> dnl_contains(
            u.dead_nonces,
            dead_nonce_key(e.name, (#[trigger] e.pit_prefix.pit_in[k]).last_nonce),
        )
    &&& !prefix_only ==> u.entries[i].pit_exact.pit_in.len() == 0
    &&& !prefix_only ==> forall|k: int|
        0 <= k < e.pit_exact.pit_in.len() ==> dnl_contains(
            u.dead_nonces,
            dead_nonce_key(e.name, (#[trigger] e.pit_exact.pit_in[k]).last_nonce),
        )
}

/// One satisfaction step drains its entry, changes no other entry and no
/// name, and forgets no dead nonce.
proof fn lemma_satisfy_entry(t: TablesView, i: int, prefix_only: bool, now: u64)
    ensures
        ({
            let u = satisfy_entry(t, i, prefix_only, now).0;
            &&& u.entries.len() == t.entries.len()
            &&& u.dead_nonce_duration_ms == t.dead_nonce_duration_ms
            &&& forall|j: int| 0 <= j < t.entries.len() && j != i ==> #[trigger] u.entries[j] == t.entries[j]
            &&& forall|j: int| 0 <= j < t.entries.len() ==> (#[trigger] u.entries[j]).name == t.entries[j].name
            &&& forall|key: u64| dnl_contains(t.dead_nonces, key) ==> #[trigger] dnl_contains(u.dead_nonces, key)
            &&& 0 <= i < t.entries.len() ==> drained(t, u, i, prefix_only)
        }),
{
    if 0 <= i < t.entries.len() {
        let e = t.entries[i];
        let expiry = saturating_add_spec(now, t.dead_nonce_duration_ms);
        lemma_drain_records(e.pit_exact.pit_in, t.dead_nonces, e.name, expiry);
        let d1 = if prefix_only {
            t.dead_nonces
        } else {
            drain_records(e.pit_exact.pit_in, t.dead_nonces, e.name, expiry).0
        };
        lemma_drain_records(e.pit_prefix.pit_in, d1, e.name, expiry);
    }
}

/// A drained entry stays drained through a step on another entry.
proof fn lemma_drained_kept(t: TablesView, u: TablesView, i: int, po: bool, j: int, po2: bool, now: u64)
    requires
        0 <= i < t.entries.len(),
        u.entries.len() == t.entries.len(),
        i != j,
        drained(t, u, i, po),
    ensures
        drained(t, satisfy_entry(u, j, po2, now).0, i, po),
{
    lemma_satisfy_entry(u, j, po2, now);
    let v = satisfy_entry(u, j, po2, now).0;
    assert(v.entries[i] == u.entries[i]);
}

proof fn lemma_index_distinct(es: Seq<EntryView>, a: Seq<ComponentView>, b: Seq<ComponentView>)
    requires
        a.len() != b.len(),
    ensures
        index_of(es, a) >= 0 ==> index_of(es, a) != index_of(es, b),
{
    lemma_index_of_bounds(es, a);
    lemma_index_of_bounds(es, b);
}

/// Where the entries' names stay as they were, so does where a name is found.
proof fn lemma_index_of_same_names(es: Seq<EntryView>, fs: Seq<EntryView>, n: Seq<ComponentView>)
    requires
        es.len() == fs.len(),
        forall|j: int| 0 <= j < es.len() ==> (#[trigger] fs[j]).name == es[j].name,
    ensures
        index_of(fs, n) == index_of(es, n),
    decreases es.len(),
{
    if es.len() > 0 {
        assert(fs.last().name == es.last().name);
        assert forall|j: int| 0 <= j < es.drop_last().len() implies (
        #[trigger] fs.drop_last()[j]).name == es.drop_last()[j].name by {
            assert(fs.drop_last()[j] == fs[j]);
            assert(es.drop_last()[j] == es[j]);
        }
        lemma_index_of_same_names(es.drop_last(), fs.drop_last(), n);
    }
}

/// After the ancestor steps: each ancestor entry is drained of its prefix
/// slot, every other entry is as it was, and no name changed.
proof fn lemma_satisfy_ancestors(t: TablesView, name: Seq<ComponentView>, k: nat, now: u64)
    requires
        k <= name.len(),
    ensures
        ({
            let u = satisfy_ancestors(t, name, k, now).0;
            &&& u.entries.len() == t.entries.len()
            &&& u.dead_nonce_duration_ms == t.dead_nonce_duration_ms
            &&& forall|j: int| 0 <= j < t.entries.len() ==> (#[trigger] u.entries[j]).name == t.entries[j].name
            &&& forall|key: u64| dnl_contains(t.dead_nonces, key) ==> #[trigger] dnl_contains(u.dead_nonces, key)
            &&& forall|a: int|
                0 <= a < k && index_of(t.entries, name.take(a)) >= 0 ==> drained(
                    t,
                    u,
                    #[trigger] index_of(t.entries, name.take(a)),
                    true,
                )
            &&& forall|m: int|
                0 <= m < t.entries.len() && t.entries[m].name.len() >= k ==> #[trigger] u.entries[m]
                    == t.entries[m]
        }),
    decreases k,
{
    if k > 0 {
        lemma_satisfy_ancestors(t, name, (k - 1) as nat, now);
        let u0 = satisfy_ancestors(t, name, (k - 1) as nat, now).0;
        lemma_index_of_same_names(t.entries, u0.entries, name.take(k - 1));
        let i = index_of(u0.entries, name.take(k - 1));
        lemma_index_of_bounds(t.entries, name.take(k - 1));
        lemma_satisfy_entry(u0, i, true, now);
        let u = satisfy_entry(u0, i, true, now).0;
        if i >= 0 {
            // The entry named by the k-1 prefix has a name of length k-1.
            assert(u0.entries[i] == t.entries[i]);
        }
        assert forall|a: int|
            0 <= a < k && index_of(t.entries, name.take(a)) >= 0 implies drained(
            t,
            u,
            #[trigger] index_of(t.entries, name.take(a)),
            true,
        ) by {
            let ia = index_of(t.entries, name.take(a));
            lemma_index_of_bounds(t.entries, name.take(a));
            if a < k - 1 {
                assert(name.take(a).len() != name.take(k - 1).len());
                lemma_index_distinct(t.entries, name.take(a), name.take(k - 1));
                lemma_drained_kept(t, u0, ia, true, i, true, now);
            } else {
                assert(ia == i);
            }
        }
        assert forall|m: int|
            0 <= m < t.entries.len() && t.entries[m].name.len() >= k implies #[trigger] u.entries[m]
            == t.entries[m] by {
            if i >= 0 {
                lemma_index_of_bounds(t.entries, name.take(k - 1));
                assert(t.entries[i].name.len() == k - 1);
            }
        }
    }
}

/// The state after the ancestor steps and the step on the entry for `name`.
pub open spec fn after_exact(t: TablesView, name: Seq<ComponentView>, now: u64) -> TablesView {
    let ta = satisfy_ancestors(t, name, name.len(), now).0;
    satisfy_entry(ta, index_of(ta.entries, name), false, now).0
}

proof fn lemma_after_exact(t: TablesView, name: Seq<ComponentView>, now: u64)
    ensures
        ({
            let tb = after_exact(t, name, now);
            &&& tb.entries.len() == t.entries.len()
            &&& tb.dead_nonce_duration_ms == t.dead_nonce_duration_ms
            &&& forall|j: int| 0 <= j < t.entries.len() ==> (#[trigger] tb.entries[j]).name == t.entries[j].name
            &&& forall|a: int|
                0 <= a < name.len() && index_of(t.entries, name.take(a)) >= 0 ==> drained(
                    t,
                    tb,
                    #[trigger] index_of(t.entries, name.take(a)),
                    true,
                )
            &&& index_of(t.entries, name) >= 0 ==> drained(t, tb, index_of(t.entries, name), false)
            &&& forall|m: int|
                0 <= m < t.entries.len() && t.entries[m].name.len() > name.len() ==> #[trigger] tb.entries[m]
                    == t.entries[m]
        }),
{
    let n = name.len();
    lemma_satisfy_ancestors(t, name, n, now);
    let ta = satisfy_ancestors(t, name, n, now).0;
    lemma_index_of_same_names(t.entries, ta.entries, name);
    let ib = index_of(ta.entries, name);
    lemma_index_of_bounds(t.entries, name);
    lemma_satisfy_entry(ta, ib, false, now);
    let tb = satisfy_entry(ta, ib, false, now).0;
    if ib >= 0 {
        assert(ta.entries[ib] == t.entries[ib]);
    }
    assert forall|a: int|
        0 <= a < n && index_of(t.entries, name.take(a)) >= 0 implies drained(
        t,
        tb,
        #[trigger] index_of(t.entries, name.take(a)),
        true,
    ) by {
        let ia = index_of(t.entries, name.take(a));
        lemma_index_of_bounds(t.entries, name.take(a));
        lemma_index_distinct(t.entries, name.take(a), name);
        lemma_drained_kept(t, ta, ia, true, ib, false, now);
    }
}

/// PIT drain: Data for `name` empties the prefix slot of every ancestor
/// entry and both slots of the entry for `name` (and of its full name, where
/// a digest is given), and every nonce those slots held is then on the
/// dead-nonce list under the slot's name.
#[verifier::rlimit(50)]
pub proof fn lemma_pit_drain(
    t: TablesView,
    name: Seq<ComponentView>,
    digest: Option<Seq<u8>>,
    now: u64,
)
    ensures
        ({
            let u = satisfy_interests_spec(t, name, digest, now).0;
            &&& forall|a: int|
                0 <= a < name.len() && index_of(t.entries, name.take(a)) >= 0 ==> drained(
                    t,
                    u,
                    #[trigger] index_of(t.entries, name.take(a)),
                    true,
                )
            &&& index_of(t.entries, name) >= 0 ==> drained(t, u, index_of(t.entries, name), false)
            &&& (digest matches Some(dg) && index_of(t.entries, full_name(name, dg)) >= 0) ==> drained(
                t,
                u,
                index_of(t.entries, full_name(name, digest->Some_0)),
                false,
            )
        }),
{
    lemma_after_exact(t, name, now);
    let tb = after_exact(t, name, now);
    let ib = index_of(t.entries, name);
    lemma_index_of_bounds(t.entries, name);
    match digest {
        Some(dg) => {
            let full = full_name(name, dg);
            lemma_index_of_same_names(t.entries, tb.entries, full);
            let ic = index_of(tb.entries, full);
            lemma_index_of_bounds(t.entries, full);
            lemma_satisfy_entry(tb, ic, false, now);
            let tc = satisfy_entry(tb, ic, false, now).0;
            if ic >= 0 {
                assert(t.entries[ic].name.len() > name.len());
                assert(tb.entries[ic] == t.entries[ic]);
            }
            assert forall|a: int|
                0 <= a < name.len() && index_of(t.entries, name.take(a)) >= 0 implies drained(
                t,
                tc,
                #[trigger] index_of(t.entries, name.take(a)),
                true,
            ) by {
                let ia = index_of(t.entries, name.take(a));
                lemma_index_of_bounds(t.entries, name.take(a));
                lemma_index_distinct(t.entries, name.take(a), full);
                lemma_drained_kept(t, tb, ia, true, ic, false, now);
            }
            if ib >= 0 {
                lemma_index_distinct(t.entries, name, full);
                lemma_drained_kept(t, tb, ib, false, ic, false, now);
            }
        },
        None => {},
    }
}

} // verus!
