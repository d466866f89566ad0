//! The client registry: per-client records with bounded histories, a
//! sequential directory with exact contracts, and the lock-protected
//! `Clients` front end that serves concurrent writers and readers.

use crate::history::{empty_slots, occupied, put_all, put_spec, CircularList};
use crate::identity::{is_lower_id, ClientId};
use crate::sort::{sort_by_ts, sort_entries};
use crate::wire::{
    packet_err, packet_id, packet_ok, packet_payload, packet_ts, ts_text, wire_text, Data,
    ParseError, Timestamp,
};
use vstd::prelude::*;
use vstd::rwlock::RwLock;

verus! {

/// How many entries each client's history keeps.
pub const HISTORY_CAPACITY: usize = 10;

/// The ` :: ` separator of a client's display label.
pub open spec fn sep_text() -> Seq<char> {
    seq![' ', ':', ':', ' ']
}

/// A client's display label: its display name, the separator, its identity.
pub open spec fn label_of(name: Seq<char>, id: Seq<char>) -> Seq<char> {
    name + sep_text() + id
}

/// Whether `pairs` is the rendering of `entries`: timestamp text and payload
/// of each entry, in order.
pub open spec fn renders(pairs: Seq<(String, String)>, entries: Seq<Data<String>>) -> bool {
    pairs.len() == entries.len() && forall|i: int|
        0 <= i < entries.len() ==> (#[trigger] pairs[i]).0@ == ts_text(entries[i].timestamp)
            && pairs[i].1@ == entries[i].message@
}

/// One client's record: display name (defaults empty), identity, and the
/// bounded history of its entries.
pub struct Client {
    name: String,
    guid: ClientId,
    list: CircularList<Data<String>>,
}

impl Client {
    /// The identity's canonical text.
    pub closed spec fn id(&self) -> Seq<char> {
        self.guid@
    }

    /// The display name.
    pub closed spec fn name_spec(&self) -> Seq<char> {
        self.name@
    }

    /// The history's ring slots.
    pub closed spec fn slots(&self) -> Seq<Option<Data<String>>> {
        self.list.slots()
    }

    /// The history's cursor.
    pub closed spec fn cur(&self) -> int {
        self.list.cur()
    }

    pub open spec fn wf(&self) -> bool {
        is_lower_id(self.id()) && self.slots().len() == HISTORY_CAPACITY as int && 0 <= self.cur()
            < self.slots().len()
    }

    /// A fresh record with an empty name and an empty history.
    pub fn new(guid: ClientId) -> (r: Client)
        ensures
            r.wf(),
            r.id() == guid@,
            r.name_spec() == Seq::<char>::empty(),
            r.slots() == empty_slots::<Data<String>>(HISTORY_CAPACITY as int),
            r.cur() == 0,
    {
        proof {
            use_type_invariant(&guid);
        }
        Client { name: String::new(), guid, list: CircularList::new(HISTORY_CAPACITY) }
    }

    /// Appends an entry to the history, evicting the oldest ring slot.
    pub fn put_message(&mut self, data: Data<String>)
        requires
            old(self).wf(),
        ensures
            final(self).wf(),
            final(self).id() == old(self).id(),
            final(self).name_spec() == old(self).name_spec(),
            (final(self).slots(), final(self).cur()) == put_spec(
                old(self).slots(),
                old(self).cur(),
                data,
            ),
    {
        self.list.put(data);
    }

    /// The record's display label.
    pub fn get_name(&self) -> (r: String)
        ensures
            r@ == label_of(self.name_spec(), self.id()),
    {
        proof {
            reveal_strlit(" :: ");
        }
        let mut result = self.name.clone();
        result.append(" :: ");
        result.append(self.guid.as_str());
        proof {
            assert(" :: "@ =~= sep_text());
            assert(result@ =~= label_of(self.name_spec(), self.id()));
        }
        result
    }

    /// The record's identity.
    pub fn get_uuid(&self) -> (r: ClientId)
        ensures
            r@ == self.id(),
    {
        self.guid.clone()
    }

    /// A snapshot of the history, sorted ascending by timestamp (stable:
    /// equal timestamps keep snapshot order), rendered as (timestamp text,
    /// payload) pairs.
    pub fn get_messages(&self) -> (r: Vec<(String, String)>)
        requires
            self.wf(),
        ensures
            renders(r@, sort_by_ts(occupied(self.slots()))),
    {
        let snap = self.list.get_all();
        proof {
            assert forall|j: int| 0 <= j < snap@.len() implies snap@[j] == occupied(
                self.slots(),
            )[j] by {
                assert(cloned::<Data<String>>(occupied(self.slots())[j], snap@[j]));
            }
            assert(snap@ =~= occupied(self.slots()));
        }
        let sorted = sort_entries(snap);
        let ghost target = sort_by_ts(occupied(self.slots()));
        let mut out: Vec<(String, String)> = Vec::new();
        let mut i: usize = 0;
        while i < sorted.len()
            invariant
                i <= sorted@.len(),
                sorted@ == target,
                out@.len() == i,
                forall|j: int|
                    0 <= j < i ==> (#[trigger] out@[j]).0@ == ts_text(target[j].timestamp)
                        && out@[j].1@ == target[j].message@,
            decreases sorted@.len() - i,
        {
            let t = sorted[i].timestamp.to_text();
            let m = sorted[i].message.clone();
            out.push((t, m));
            i = i + 1;
        }
        out
    }
}

/// The sequential directory: records with pairwise distinct identities. All
/// exact state contracts live here; `Clients` wraps it behind a lock.
pub struct Registry {
    clients: Vec<Client>,
}

impl Registry {
    pub closed spec fn records(&self) -> Seq<Client> {
        self.clients@
    }

    pub open spec fn wf(&self) -> bool {
        (forall|i: int| 0 <= i < self.records().len() ==> (#[trigger] self.records()[i]).wf())
            && (forall|i: int, j: int|
            0 <= i < self.records().len() && 0 <= j < self.records().len() && i != j ==> (
            #[trigger] self.records()[i]).id() != (#[trigger] self.records()[j]).id())
    }

    /// Whether some record carries identity `id`.
    pub open spec fn contains_id(&self, id: Seq<char>) -> bool {
        exists|i: int|
            0 <= i < self.records().len() && (#[trigger] self.records()[i]).id() == id
    }

    /// The index of the record carrying identity `id`.
    pub open spec fn index_of(&self, id: Seq<char>) -> int {
        choose|i: int| 0 <= i < self.records().len() && (#[trigger] self.records()[i]).id() == id
    }

    pub fn new() -> (r: Registry)
        ensures
            r.wf(),
            r.records().len() == 0,
    {
        Registry { clients: Vec::new() }
    }

    fn find(&self, guid: &ClientId) -> (r: Option<usize>)
        requires
            self.wf(),
        ensures
            r matches Some(i) ==> 0 <= i < self.records().len() && self.records()[i as int].id()
                == guid@ && i == self.index_of(guid@),
            r is None ==> !self.contains_id(guid@),
    {
        let mut i: usize = 0;
        while i < self.clients.len()
            invariant
                self.wf(),
                i <= self.records().len(),
                forall|j: int| 0 <= j < i ==> (#[trigger] self.records()[j]).id() != guid@,
            decreases self.records().len() - i,
        {
            if self.clients[i].guid == *guid {
                proof {
                    // the index chosen by `index_of` must be this one, since
                    // identities are pairwise distinct
                    assert(self.records()[i as int].id() == guid@);
                    assert(self.contains_id(guid@));
                    let w = self.index_of(guid@);
                    assert(0 <= w < self.records().len() && self.records()[w].id() == guid@);
                    assert(forall|a: int, b: int|
                        0 <= a < self.records().len() && 0 <= b < self.records().len() && a != b
                            ==> (#[trigger] self.records()[a]).id() != (
                        #[trigger] self.records()[b]).id());
                }
                return Some(i);
            }
            i = i + 1;
        }
        None
    }

    /// Get-or-create: ensures a record for `guid` exists; never touches an
    /// existing record (and in particular never wipes its history).
    pub fn add_client(&mut self, guid: ClientId)
        requires
            old(self).wf(),
        ensures
            final(self).wf(),
            final(self).contains_id(guid@),
            old(self).contains_id(guid@) ==> *final(self) == *old(self),
            !old(self).contains_id(guid@) ==> {
                &&& final(self).records().len() == old(self).records().len() + 1
                &&& (forall|j: int|
                    0 <= j < old(self).records().len() ==> final(self).records()[j] == old(
                        self,
                    ).records()[j])
                &&& final(self).records().last().id() == guid@
                &&& final(self).records().last().name_spec() == Seq::<char>::empty()
                &&& final(self).records().last().slots() == empty_slots::<Data<String>>(
                    HISTORY_CAPACITY as int,
                )
                &&& final(self).records().last().cur() == 0
            },
    {
        match self.find(&guid) {
            Some(_) => {},
            None => {
                let ghost old_records = self.records();
                let c = Client::new(guid);
                self.clients.push(c);
                proof {
                    assert(self.records().drop_last() =~= old_records);
                    assert(self.records()[old_records.len() as int].id() == guid@);
                    assert forall|i: int, j: int|
                        0 <= i < self.records().len() && 0 <= j < self.records().len() && i
                            != j implies (#[trigger] self.records()[i]).id() != (
                    #[trigger] self.records()[j]).id() by {
                        if i < old_records.len() && j < old_records.len() {
                            assert(self.records()[i] == old_records[i]);
                            assert(self.records()[j] == old_records[j]);
                        }
                    }
                    assert forall|i: int| 0 <= i < self.records().len() implies (
                    #[trigger] self.records()[i]).wf() by {
                        if i < old_records.len() {
                            assert(self.records()[i] == old_records[i]);
                        }
                    }
                }
            },
        }
    }

    /// The sole mutation entry point of the ingestion path: get-or-create the
    /// record for `guid`, then append the entry to its history. Never fails.
    pub fn add_data_message(&mut self, guid: ClientId, msg: Data<String>)
        requires
            old(self).wf(),
        ensures
            final(self).wf(),
            final(self).contains_id(guid@),
            final(self).records().len() == if old(self).contains_id(guid@) {
                old(self).records().len() as int
            } else {
                old(self).records().len() + 1int
            },
            // every other record is untouched
            forall|j: int|
                (0 <= j < old(self).records().len() && j != final(self).index_of(guid@))
                    ==> final(self).records()[j] == old(self).records()[j],
            // a first-seen identity gets a fresh record appended at the end,
            // with an empty display name, and every prior record is untouched
            !old(self).contains_id(guid@) ==> {
                &&& final(self).index_of(guid@) == old(self).records().len()
                &&& final(self).records().last().name_spec() == Seq::<char>::empty()
                &&& forall|j: int|
                    0 <= j < old(self).records().len() ==> final(self).records()[j] == old(
                        self,
                    ).records()[j]
            },
            // the record for guid took exactly one insertion
            ({
                let idx = final(self).index_of(guid@);
                let target = final(self).records()[idx];
                let prior_slots = if old(self).contains_id(guid@) {
                    old(self).records()[idx].slots()
                } else {
                    empty_slots::<Data<String>>(HISTORY_CAPACITY as int)
                };
                let prior_cur = if old(self).contains_id(guid@) {
                    old(self).records()[idx].cur()
                } else {
                    0int
                };
                &&& target.id() == guid@
                &&& (target.slots(), target.cur()) == put_spec(prior_slots, prior_cur, msg)
                &&& (old(self).contains_id(guid@) ==> target.name_spec() == old(
                    self,
                ).records()[idx].name_spec())
            }),
    {
        let ghost gid = guid@;
        let idx = match self.find(&guid) {
            Some(i) => i,
            None => {
                let i = self.clients.len();
                self.add_client(guid);
                i
            },
        };
        let ghost pre = self.records();
        proof {
            assert(pre[idx as int].id() == gid);
            assert(pre[idx as int].wf());
        }
        let mut client = self.clients.remove(idx);
        client.put_message(msg);
        self.clients.insert(idx, client);
        proof {
            assert(self.records() =~= pre.update(idx as int, self.records()[idx as int]));
            assert(self.records()[idx as int].id() == gid);
            assert forall|w: int|
                0 <= w < self.records().len() && w != idx implies (
            #[trigger] self.records()[w]).id() != gid by {
                assert(self.records()[w] == pre[w]);
            }
            assert(self.contains_id(gid));
            assert(self.index_of(gid) == idx);
            assert forall|i: int| 0 <= i < self.records().len() implies (
            #[trigger] self.records()[i]).wf() by {
                if i != idx {
                    assert(self.records()[i] == pre[i]);
                }
            }
            assert forall|i: int, j: int|
                0 <= i < self.records().len() && 0 <= j < self.records().len() && i != j implies (
            #[trigger] self.records()[i]).id() != (#[trigger] self.records()[j]).id() by {
                assert(self.records()[i].id() == pre[i].id());
                assert(self.records()[j].id() == pre[j].id());
            }
        }
    }

    /// Display labels of all records; no ordering guarantee.
    pub fn get_clients(&self) -> (r: Vec<String>)
        ensures
            r@.len() == self.records().len(),
            forall|i: int|
                0 <= i < r@.len() ==> (#[trigger] r@[i])@ == label_of(
                    self.records()[i].name_spec(),
                    self.records()[i].id(),
                ),
    {
        let mut res: Vec<String> = Vec::new();
        let mut i: usize = 0;
        while i < self.clients.len()
            invariant
                i <= self.records().len(),
                res@.len() == i,
                forall|j: int|
                    0 <= j < i ==> (#[trigger] res@[j])@ == label_of(
                        self.records()[j].name_spec(),
                        self.records()[j].id(),
                    ),
            decreases self.records().len() - i,
        {
            res.push(self.clients[i].get_name());
            i = i + 1;
        }
        res
    }

    /// Identities of all records; no ordering guarantee.
    pub fn get_clients_uuids(&self) -> (r: Vec<ClientId>)
        ensures
            r@.len() == self.records().len(),
            forall|i: int| 0 <= i < r@.len() ==> (#[trigger] r@[i])@ == self.records()[i].id(),
    {
        let mut res: Vec<ClientId> = Vec::new();
        let mut i: usize = 0;
        while i < self.clients.len()
            invariant
                i <= self.records().len(),
                res@.len() == i,
                forall|j: int| 0 <= j < i ==> (#[trigger] res@[j])@ == self.records()[j].id(),
            decreases self.records().len() - i,
        {
            res.push(self.clients[i].get_uuid());
            i = i + 1;
        }
        res
    }

    /// The known identity's history, sorted ascending by timestamp and
    /// rendered; an empty sequence for an unknown identity. Reading never
    /// mutates the registry and never creates a record.
    pub fn get_messages_for_uuid(&self, uuid: &ClientId) -> (r: Vec<(String, String)>)
        requires
            self.wf(),
        ensures
            !self.contains_id(uuid@) ==> r@.len() == 0,
            self.contains_id(uuid@) ==> renders(
                r@,
                sort_by_ts(occupied(self.records()[self.index_of(uuid@)].slots())),
            ),
    {
        match self.find(uuid) {
            Some(i) => self.clients[i].get_messages(),
            None => Vec::new(),
        }
    }
}

/// The lock predicate of `Clients`: the directory behind the lock is always
/// well-formed.
pub struct RegistryInv;

impl vstd::rwlock::RwLockPredicate<Registry> for RegistryInv {
    open spec fn inv(self, v: Registry) -> bool {
        v.wf()
    }
}

/// The concurrency-safe registry front end: all reads and writes briefly
/// hold one exclusion guard scoped to the directory. Exact state contracts
/// live on `Registry`; these methods promise what can be said of a shared,
/// concurrently mutated structure.
pub struct Clients {
    clients: RwLock<Registry, RegistryInv>,
}

impl Clients {
    #[verifier::type_invariant]
    spec fn lock_wf(self) -> bool {
        self.clients.pred() == RegistryInv
    }

    pub fn new() -> Clients {
        Clients { clients: RwLock::new(Registry::new(), Ghost(RegistryInv)) }
    }

    /// Registers an identity (get-or-create; an existing record is kept).
    pub fn add_client(&self, uuid: ClientId) {
        proof {
            use_type_invariant(self);
        }
        let (mut reg, handle) = self.clients.acquire_write();
        reg.add_client(uuid);
        handle.release_write(reg);
    }

    /// Parses decoded packet text: the identity from the first 36 characters,
    /// then timestamp and payload from the rest.
    pub fn parse_packet_message(msg: &str) -> (r: Result<(ClientId, Data<String>), ParseError>)
        ensures
            r is Ok <==> packet_ok(msg@),
            r matches Ok(p) ==> p.0@ == packet_id(msg@) && p.1.timestamp == packet_ts(msg@)
                && p.1.message@ == packet_payload(msg@),
            r matches Err(e) ==> e == packet_err(msg@),
    {
        let n = msg.unicode_len();
        if n < 36 {
            return Err(ParseError::InvalidIdentity);
        }
        let id_part = msg.substring_char(0, 36);
        let id = match ClientId::parse_str(id_part) {
            Some(id) => id,
            None => {
                return Err(ParseError::InvalidIdentity);
            },
        };
        let body = msg.substring_char(36, n);
        proof {
            assert(body@ =~= msg@.skip(36));
        }
        match Data::<String>::new_from_message(body) {
            Ok(d) => Ok((id, d)),
            Err(e) => Err(e),
        }
    }

    /// Ingests one decoded packet: parse, then record under the guard. A
    /// malformed packet leaves every record untouched and is reported back.
    pub fn add_message(&self, decoded: String) -> (r: Result<(), ParseError>)
        ensures
            r is Ok <==> packet_ok(decoded@),
            r matches Err(e) ==> e == packet_err(decoded@),
    {
        match Clients::parse_packet_message(decoded.as_str()) {
            Ok((uuid, msg)) => {
                self.add_data_message(uuid, msg);
                Ok(())
            },
            Err(e) => Err(e),
        }
    }

    fn add_data_message(&self, uuid: ClientId, msg: Data<String>) {
        proof {
            use_type_invariant(self);
        }
        let (mut reg, handle) = self.clients.acquire_write();
        reg.add_data_message(uuid, msg);
        handle.release_write(reg);
    }

    /// Display labels of all known clients; no ordering guarantee. The
    /// result is the label list of some well-formed directory held under the
    /// guard: one `name :: identity` label per record, identities canonical
    /// and pairwise distinct. The exact per-state relation is stated on
    /// `Registry::get_clients`.
    pub fn get_clients(&self) -> (r: Vec<String>)
        ensures
            exists|reg: Registry|
                #![trigger reg.records()]
                reg.wf() && r@.len() == reg.records().len() && forall|i: int|
                    0 <= i < r@.len() ==> (#[trigger] r@[i])@ == label_of(
                        reg.records()[i].name_spec(),
                        reg.records()[i].id(),
                    ),
    {
        proof {
            use_type_invariant(self);
        }
        let handle = self.clients.acquire_read();
        let res = handle.borrow().get_clients();
        let ghost regv = handle.view();
        handle.release_read();
        proof {
            assert(regv.wf() && res@.len() == regv.records().len() && forall|i: int|
                0 <= i < res@.len() ==> (#[trigger] res@[i])@ == label_of(
                    regv.records()[i].name_spec(),
                    regv.records()[i].id(),
                ));
        }
        res
    }

    /// Identities of all known clients; no ordering guarantee. The result is
    /// the identity list of some well-formed directory held under the guard:
    /// canonical lowercase, pairwise distinct. The exact per-state relation
    /// is stated on `Registry::get_clients_uuids`.
    pub fn get_clients_uuids(&self) -> (r: Vec<ClientId>)
        ensures
            exists|reg: Registry|
                #![trigger reg.records()]
                reg.wf() && r@.len() == reg.records().len() && forall|i: int|
                    0 <= i < r@.len() ==> (#[trigger] r@[i])@ == reg.records()[i].id(),
    {
        proof {
            use_type_invariant(self);
        }
        let handle = self.clients.acquire_read();
        let res = handle.borrow().get_clients_uuids();
        let ghost regv = handle.view();
        handle.release_read();
        proof {
            assert(regv.wf() && res@.len() == regv.records().len() && forall|i: int|
                0 <= i < res@.len() ==> (#[trigger] res@[i])@ == regv.records()[i].id());
        }
        res
    }

    /// The identity's history at some moment under the guard, sorted
    /// ascending by timestamp and rendered as (timestamp text, payload)
    /// pairs; empty for an unknown identity.
    pub fn get_messages_for_uuid(&self, uuid: &ClientId) -> (r: Vec<(String, String)>)
        ensures
            exists|es: Seq<Data<String>>| renders(r@, #[trigger] sort_by_ts(es)),
    {
        proof {
            use_type_invariant(self);
        }
        let handle = self.clients.acquire_read();
        let reg = handle.borrow();
        let res = reg.get_messages_for_uuid(uuid);
        let ghost regv = handle.view();
        handle.release_read();
        proof {
            if regv.contains_id(uuid@) {
                let es = occupied(regv.records()[regv.index_of(uuid@)].slots());
                assert(renders(res@, sort_by_ts(es)));
            } else {
                let es = Seq::<Data<String>>::empty();
                assert(sort_by_ts(es) =~= es);
                assert(renders(res@, sort_by_ts(es)));
            }
        }
        res
    }

    /// Builds the wire text for a payload from the identity and the wall
    /// clock now: sender-side message creation.
    pub fn create_message(uuid: &ClientId, msg: &String) -> (r: String)
        ensures
            exists|t: Timestamp|
                0 <= t.nsec < 1_000_000_000 && r@ == #[trigger] wire_text(uuid@, t, msg@),
    {
        let (sec, nsec) = crate::wire::clock_now();
        let t = Timestamp::new(sec, nsec);
        crate::wire::create_message_at(uuid, t, msg)
    }
}

/// Recording `M` entries into one fresh history presents exactly
/// `min(M, K)` entries afterwards: the bounded-memory guarantee per client.
pub proof fn lemma_record_count(k: int, es: Seq<Data<String>>)
    requires
        k >= 1,
    ensures
        sort_by_ts(occupied(put_all(empty_slots::<Data<String>>(k), 0, es).0)).len() == if es.len()
            <= k {
            es.len() as int
        } else {
            k
        },
{
    crate::history::lemma_history_count(k, es);
    crate::sort::lemma_sort_by_ts(occupied(put_all(empty_slots::<Data<String>>(k), 0, es).0));
}

} // verus!
