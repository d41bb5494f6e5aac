//! The party directory: who participates, where they listen, and which
//! certificate authenticates them.
//!
//! Party ids double as share-evaluation indices, so the roster enforces
//! dense `0..n` ids at construction. Certificates are the identity
//! anchor: the handshake proves possession of a roster certificate's key,
//! and the mesh maps that certificate back to the party id, so no
//! separate identity exchange exists to spoof. A certificate is held as
//! its DER octets, which is all the directory ever compares.

use crate::mpc::error::{ClientId, Error, PartyId, RosterError};
use vstd::prelude::*;

verus! {

broadcast use vstd::seq_lib::group_to_multiset_ensures;

/// The mathematical model of a [`PartyEntry`].
pub struct PartyEntryView<A> {
    /// The party id.
    pub id: PartyId,
    /// Where the party listens.
    pub address: A,
    /// The DER octets of the party's certificate.
    pub certificate: Seq<u8>,
}

/// One roster line: a party id, its listen address, and its certificate.
#[derive(Clone)]
pub struct PartyEntry<A> {
    id: PartyId,
    address: A,
    certificate: Vec<u8>,
}

impl<A> View for PartyEntry<A> {
    type V = PartyEntryView<A>;

    closed spec fn view(&self) -> PartyEntryView<A> {
        PartyEntryView { id: self.id, address: self.address, certificate: self.certificate@ }
    }
}

impl<A> PartyEntry<A> {
    /// Describe one party by its id, listen address and certificate DER.
    pub fn new(id: PartyId, address: A, certificate: Vec<u8>) -> (entry: PartyEntry<A>)
        ensures
            entry@ == (PartyEntryView { id, address, certificate: certificate@ }),
    {
        PartyEntry { id, address, certificate }
    }

    /// The party id.
    pub fn id(&self) -> (id: PartyId)
        ensures
            id == self@.id,
    {
        self.id
    }

    /// The address the party's listener binds.
    pub fn address(&self) -> (address: &A)
        ensures
            *address == self@.address,
    {
        &self.address
    }

    /// The DER octets of the certificate that authenticates the party.
    pub fn certificate(&self) -> (certificate: &[u8])
        ensures
            certificate@ == self@.certificate,
    {
        self.certificate.as_slice()
    }
}

/// The mathematical model of a [`ClientEntry`].
pub struct ClientEntryView {
    /// The client id.
    pub id: ClientId,
    /// The DER octets of the client's certificate.
    pub certificate: Seq<u8>,
}

/// One authorized consumer: a client id and the certificate it
/// authenticates with. Clients hold no listen address because they always
/// dial in.
#[derive(Clone)]
pub struct ClientEntry {
    id: ClientId,
    certificate: Vec<u8>,
}

impl View for ClientEntry {
    type V = ClientEntryView;

    closed spec fn view(&self) -> ClientEntryView {
        ClientEntryView { id: self.id, certificate: self.certificate@ }
    }
}

impl ClientEntry {
    /// Describe one authorized client by its id and certificate DER.
    pub fn new(id: ClientId, certificate: Vec<u8>) -> (entry: ClientEntry)
        ensures
            entry@ == (ClientEntryView { id, certificate: certificate@ }),
    {
        ClientEntry { id, certificate }
    }

    /// The client id.
    pub fn id(&self) -> (id: ClientId)
        ensures
            id == self@.id,
    {
        self.id
    }

    /// The DER octets of the certificate that authenticates the client.
    pub fn certificate(&self) -> (certificate: &[u8])
        ensures
            certificate@ == self@.certificate,
    {
        self.certificate.as_slice()
    }
}

/// The local party's credentials as the directory checks them: its
/// roster id and the DER octets of the certificate it presents.
#[derive(Clone)]
pub struct LocalIdentity {
    id: PartyId,
    certificate: Vec<u8>,
}

impl LocalIdentity {
    /// Bundle the local credentials.
    pub fn new(id: PartyId, certificate: Vec<u8>) -> (identity: LocalIdentity)
        ensures
            identity.id_spec() == id,
            identity.certificate_spec() == certificate@,
    {
        LocalIdentity { id, certificate }
    }

    /// The local id.
    pub closed spec fn id_spec(&self) -> PartyId {
        self.id
    }

    /// The presented certificate's octets.
    pub closed spec fn certificate_spec(&self) -> Seq<u8> {
        self.certificate@
    }

    /// The local id.
    pub fn id(&self) -> (id: PartyId)
        ensures
            id == self.id_spec(),
    {
        self.id
    }

    /// The DER octets of the certificate presented during handshakes.
    pub fn certificate(&self) -> (certificate: &[u8])
        ensures
            certificate@ == self.certificate_spec(),
    {
        self.certificate.as_slice()
    }
}

/// The models of a list of party entries.
pub open spec fn party_views<A>(entries: Seq<PartyEntry<A>>) -> Seq<PartyEntryView<A>> {
    entries.map_values(|e: PartyEntry<A>| e@)
}

/// The models of a list of client entries.
pub open spec fn client_views(entries: Seq<ClientEntry>) -> Seq<ClientEntryView> {
    entries.map_values(|e: ClientEntry| e@)
}

/// Ids never decrease along the list.
pub open spec fn sorted_by_id<A>(s: Seq<PartyEntryView<A>>) -> bool {
    forall|i: int, j: int| 0 <= i < j < s.len() ==> #[trigger] s[i].id <= #[trigger] s[j].id
}

/// `sorted` holds exactly the entries of `input`, ordered by id.
pub open spec fn sorted_permutation<A>(sorted: Seq<PartyEntryView<A>>, input: Seq<PartyEntryView<A>>) -> bool {
    sorted.to_multiset() == input.to_multiset() && sorted_by_id(sorted)
}

/// Every position holds the party with that id.
pub open spec fn dense<A>(s: Seq<PartyEntryView<A>>) -> bool {
    forall|i: int| 0 <= i < s.len() ==> #[trigger] s[i].id == i
}

/// Some entry of `s` carries id `k`.
pub open spec fn has_id<A>(s: Seq<PartyEntryView<A>>, k: int) -> bool {
    exists|i: int| #![trigger s[i]] 0 <= i < s.len() && s[i].id == k
}

/// Every id below the entry count is some entry's id.
pub open spec fn dense_ids<A>(s: Seq<PartyEntryView<A>>) -> bool {
    forall|k: int| 0 <= k < s.len() ==> #[trigger] has_id(s, k)
}

/// Sorting entries whose ids cover `0..n` puts id `k` at position `k`:
/// the entries before `position` already do, so the one at `position`
/// does too.
proof fn lemma_sorted_dense<A>(sv: Seq<PartyEntryView<A>>, ev: Seq<PartyEntryView<A>>, position: int)
    requires
        sorted_permutation(sv, ev),
        dense_ids(ev),
        0 <= position < sv.len(),
        forall|k: int| 0 <= k < position ==> #[trigger] sv[k].id == k,
    ensures
        sv[position].id == position,
{
    broadcast use vstd::seq_lib::group_to_multiset_ensures;

    let n = sv.len();
    assert(ev.len() == n) by {
        assert(sv.len() == sv.to_multiset().len());
        assert(ev.len() == ev.to_multiset().len());
    }
    assert forall|k: int| 0 <= k < n implies #[trigger] has_id(sv, k) by {
        assert(has_id(ev, k));
        let i = choose|i: int| #![trigger ev[i]] 0 <= i < ev.len() && ev[i].id == k;
        let e = ev[i];
        assert(ev.contains(e));
        assert(ev.to_multiset().count(e) > 0);
        assert(sv.to_multiset().count(e) > 0);
        assert(sv.contains(e));
        let j = choose|j: int| 0 <= j < sv.len() && sv[j] == e;
        assert(sv[j].id == k);
    }
    assert(has_id(sv, position));
    let j = choose|j: int| #![trigger sv[j]] 0 <= j < n && sv[j].id == position;
    if j < position {
        assert(sv[j].id == j);
    }
    assert(sv[position].id <= sv[j].id);
    if sv[position].id < position {
        assert(sv[position - 1].id == position - 1);
        assert(sv[position - 1].id <= sv[position].id);
        let ids = sv.map_values(|e: PartyEntryView<A>| e.id as int);
        let range = vstd::set_lib::set_int_range(0, n as int);
        assert(range.subset_of(ids.to_set())) by {
            assert forall|k: int| range.contains(k) implies ids.to_set().contains(k) by {
                assert(has_id(sv, k));
                let m = choose|m: int| #![trigger sv[m]] 0 <= m < n && sv[m].id == k;
                assert(ids[m] == k);
                assert(ids.contains(k));
            }
        }
        vstd::set_lib::lemma_int_range(0, n as int);
        vstd::seq_lib::seq_to_set_is_finite(ids);
        vstd::set_lib::lemma_len_subset(range, ids.to_set());
        let shorter = ids.remove(position);
        assert(shorter.to_set() =~= ids.to_set()) by {
            assert forall|x: int| #[trigger] ids.to_set().contains(x) implies shorter.to_set().contains(x) by {
                let m = choose|m: int| 0 <= m < ids.len() && ids[m] == x;
                if m < position {
                    assert(shorter[m] == x);
                } else if m == position {
                    assert(shorter[position - 1] == ids[position - 1]);
                    assert(ids[position - 1] == ids[position]);
                    assert(shorter[position - 1] == x);
                } else {
                    assert(shorter[m - 1] == x);
                }
                assert(shorter.contains(x));
            }
            assert forall|x: int| #[trigger] shorter.to_set().contains(x) implies ids.to_set().contains(x) by {
                let m = choose|m: int| 0 <= m < shorter.len() && shorter[m] == x;
                if m < position {
                    assert(ids[m] == x);
                } else {
                    assert(ids[m + 1] == x);
                }
                assert(ids.contains(x));
            }
        }
        shorter.lemma_cardinality_of_set();
        assert(false);
    }
}

/// Whether `octets` is the certificate of some entry of `s`.
pub open spec fn party_certificate<A>(s: Seq<PartyEntryView<A>>, octets: Seq<u8>) -> bool {
    exists|i: int| 0 <= i < s.len() && #[trigger] s[i].certificate == octets
}

/// Whether `octets` is the certificate of some client of `s`.
pub open spec fn client_certificate(s: Seq<ClientEntryView>, octets: Seq<u8>) -> bool {
    exists|i: int| 0 <= i < s.len() && #[trigger] s[i].certificate == octets
}

/// Whether `id` names some client of `s`.
pub open spec fn client_id_known(s: Seq<ClientEntryView>, id: ClientId) -> bool {
    exists|i: int| 0 <= i < s.len() && #[trigger] s[i].id == id
}

/// Admitting `incoming` one client at a time after `known`, in a roster of
/// `parties`: the authorized clients, or the first refusal.
pub open spec fn admitted<A>(
    parties: Seq<PartyEntryView<A>>,
    known: Seq<ClientEntryView>,
    incoming: Seq<ClientEntryView>,
) -> Result<Seq<ClientEntryView>, RosterError>
    decreases incoming.len(),
{
    if incoming.len() == 0 {
        Ok(known)
    } else {
        let client = incoming[0];
        if client.id < parties.len() || client_id_known(known, client.id) {
            Err(RosterError::ClientIdTaken { id: client.id })
        } else if party_certificate(parties, client.certificate) || client_certificate(known, client.certificate) {
            Err(RosterError::AmbiguousCertificate { id: client.id })
        } else {
            admitted(parties, known.push(client), incoming.drop_first())
        }
    }
}

/// Whether two octet strings are equal.
fn same_octets(a: &[u8], b: &[u8]) -> (same: bool)
    ensures
        same == (a@ == b@),
{
    if a.len() != b.len() {
        return false;
    }
    let mut i: usize = 0;
    while i < a.len()
        invariant
            i <= a@.len() == b@.len(),
            forall|j: int| 0 <= j < i ==> a@[j] == b@[j],
        decreases a@.len() - i,
    {
        if a[i] != b[i] {
            return false;
        }
        i = i + 1;
    }
    assert(a@ =~= b@);
    true
}

proof fn lemma_insert_multiset<T>(s: Seq<T>, i: int, x: T)
    requires
        0 <= i <= s.len(),
    ensures
        s.insert(i, x).to_multiset() == s.to_multiset().insert(x),
{
    let t = s.insert(i, x);
    assert(t.remove(i) =~= s);
    assert(t[i] == x);
    assert(t.remove(i).to_multiset() == t.to_multiset().remove(x));
    assert(t.to_multiset().count(x) > 0) by {
        assert(t.contains(x));
    }
    assert(t.to_multiset() =~= t.to_multiset().remove(x).insert(x));
}

/// Stable insertion sort of the entries by id.
#[verifier::loop_isolation(false)]
fn sort_by_id<A>(entries: Vec<PartyEntry<A>>) -> (sorted: Vec<PartyEntry<A>>)
    ensures
        sorted_permutation(party_views(sorted@), party_views(entries@)),
{
    let ghost all = party_views(entries@);
    let mut rest = entries;
    let mut sorted: Vec<PartyEntry<A>> = Vec::new();
    assert(party_views(sorted@) =~= Seq::<PartyEntryView<A>>::empty());
    assert(party_views(rest@) =~= all);
    while rest.len() > 0
        invariant
            party_views(sorted@).to_multiset().add(party_views(rest@).to_multiset()) == all.to_multiset(),
            sorted_by_id(party_views(sorted@)),
        decreases rest@.len(),
    {
        let ghost before_rest = party_views(rest@);
        let ghost before_sorted = party_views(sorted@);
        let entry = rest.remove(0);
        let ghost v = entry@;
        assert(party_views(rest@) =~= before_rest.remove(0));
        assert(before_rest[0] == v);
        let mut pos: usize = 0;
        while pos < sorted.len() && sorted[pos].id <= entry.id
            invariant
                pos <= sorted@.len(),
                party_views(sorted@) == before_sorted,
                forall|k: int| 0 <= k < pos ==> #[trigger] before_sorted[k].id <= v.id,
            decreases sorted@.len() - pos,
        {
            assert(before_sorted[pos as int].id == sorted@[pos as int].id);
            pos = pos + 1;
        }
        assert(pos < sorted@.len() ==> before_sorted[pos as int].id == sorted@[pos as int].id);
        sorted.insert(pos, entry);
        assert(party_views(sorted@) =~= before_sorted.insert(pos as int, v));
        proof {
            lemma_insert_multiset(before_sorted, pos as int, v);
            assert(before_rest.remove(0).to_multiset() == before_rest.to_multiset().remove(v));
            assert(before_rest.to_multiset().count(v) > 0) by {
                assert(before_rest.contains(v));
            }
            assert(party_views(sorted@).to_multiset().add(party_views(rest@).to_multiset()) =~= before_sorted.to_multiset().add(
                before_rest.to_multiset(),
            ));
            let after = party_views(sorted@);
            assert forall|i: int, j: int| 0 <= i < j < after.len() implies #[trigger] after[i].id <= #[trigger] after[j].id by {
                if j < pos {
                    assert(after[i] == before_sorted[i] && after[j] == before_sorted[j]);
                } else if j == pos {
                    assert(after[i] == before_sorted[i]);
                } else if i < pos {
                    assert(after[i] == before_sorted[i] && after[j] == before_sorted[j - 1]);
                } else if i == pos {
                    assert(after[j] == before_sorted[j - 1]);
                    assert(before_sorted[pos as int].id > v.id);
                } else {
                    assert(after[i] == before_sorted[i - 1] && after[j] == before_sorted[j - 1]);
                }
            }
        }
    }
    assert(party_views(rest@) =~= Seq::<PartyEntryView<A>>::empty());
    assert(party_views(sorted@).to_multiset() =~= party_views(sorted@).to_multiset().add(
        party_views(rest@).to_multiset(),
    ));
    sorted
}

/// The ordered set of protocol participants and the authorized consumers.
pub struct Roster<A> {
    entries: Vec<PartyEntry<A>>,
    clients: Vec<ClientEntry>,
}

impl<A> Roster<A> {
    /// The parties, in id order.
    pub closed spec fn parties(&self) -> Seq<PartyEntryView<A>> {
        party_views(self.entries@)
    }

    /// The authorized clients, in authorization order.
    pub closed spec fn client_list(&self) -> Seq<ClientEntryView> {
        client_views(self.clients@)
    }

    /// Party ids are dense and client ids sit outside them.
    pub open spec fn wf(&self) -> bool {
        &&& self.parties().len() > 0
        &&& dense(self.parties())
    }

    /// Assemble a roster, sorting by party id and requiring dense `0..n`
    /// ids.
    ///
    /// # Errors
    ///
    /// - [`RosterError::Empty`]: no entry at all.
    /// - [`RosterError::NonContiguousIds`]: in id order, the first
    ///   position whose entry does not carry that position as its id, and
    ///   the id found there.
    #[verifier::loop_isolation(false)]
    pub fn new(entries: Vec<PartyEntry<A>>) -> (roster: Result<Roster<A>, Error>)
        ensures
            entries@.len() == 0 ==> roster == Err::<Roster<A>, Error>(Error::Roster(RosterError::Empty)),
            entries@.len() > 0 && dense_ids(party_views(entries@)) ==> roster is Ok,
            roster matches Ok(r) ==> {
                &&& r.wf()
                &&& sorted_permutation(r.parties(), party_views(entries@))
                &&& r.client_list().len() == 0
            },
            roster matches Err(Error::Roster(RosterError::NonContiguousIds { expected, found })) ==> exists|s: Seq<PartyEntryView<A>>|
                {
                    &&& #[trigger] sorted_permutation(s, party_views(entries@))
                    &&& expected < s.len()
                    &&& forall|k: int| 0 <= k < expected ==> #[trigger] s[k].id == k
                    &&& s[expected as int].id == found
                    &&& found != expected
                },
            roster is Err ==> (roster == Err::<Roster<A>, Error>(Error::Roster(RosterError::Empty)) && entries@.len() == 0)
                || roster matches Err(Error::Roster(RosterError::NonContiguousIds { .. })),
    {
        if entries.len() == 0 {
            return Err(Error::Roster(RosterError::Empty));
        }
        let sorted = sort_by_id(entries);
        let mut position: usize = 0;
        while position < sorted.len()
            invariant
                position <= sorted@.len(),
                forall|k: int| 0 <= k < position ==> #[trigger] party_views(sorted@)[k].id == k,
            decreases sorted@.len() - position,
        {
            let id = sorted[position].id;
            assert(party_views(sorted@)[position as int].id == id);
            if id != position {
                assert(sorted_permutation(party_views(sorted@), party_views(entries@)));
                proof {
                    if dense_ids(party_views(entries@)) {
                        lemma_sorted_dense(party_views(sorted@), party_views(entries@), position as int);
                    }
                }
                return Err(Error::Roster(RosterError::NonContiguousIds { expected: position, found: id }));
            }
            position = position + 1;
        }
        proof {
            let sv = party_views(sorted@);
            let ev = party_views(entries@);
            assert(sv.len() == sv.to_multiset().len());
            assert(ev.len() == ev.to_multiset().len());
            assert(sv.len() > 0);
            assert(dense(sv));
        }
        let roster = Roster { entries: sorted, clients: Vec::new() };
        assert(roster.client_list() =~= Seq::<ClientEntryView>::empty());
        Ok(roster)
    }

    /// Authorize consumers, one at a time. Client ids must sit outside the
    /// party id space and repeat neither each other nor any certificate
    /// already in the roster, because both are attribution keys.
    ///
    /// # Errors
    ///
    /// For the first client that breaks a rule, in order:
    /// - [`RosterError::ClientIdTaken`]: its id is a party id, or an
    ///   authorized client's.
    /// - [`RosterError::AmbiguousCertificate`]: its certificate is a
    ///   party's or an authorized client's.
    #[verifier::loop_isolation(false)]
    pub fn with_clients(self, clients: Vec<ClientEntry>) -> (roster: Result<Roster<A>, Error>)
        ensures
            match admitted(self.parties(), self.client_list(), client_views(clients@)) {
                Ok(list) => (roster matches Ok(r) && r.parties() == self.parties() && r.client_list() == list),
                Err(e) => roster == Err::<Roster<A>, Error>(Error::Roster(e)),
            },
    {
        let ghost parties = self.parties();
        let ghost start = self.client_list();
        let ghost incoming = client_views(clients@);
        let mut roster = self;
        let mut rest = clients;
        assert(client_views(rest@) =~= incoming);
        while rest.len() > 0
            invariant
                roster.parties() == parties,
                admitted(parties, roster.client_list(), client_views(rest@)) == admitted(parties, start, incoming),
            decreases rest@.len(),
        {
            let ghost before = client_views(rest@);
            let client = rest.remove(0);
            assert(client_views(rest@) =~= before.drop_first());
            assert(before[0] == client@);
            let party_count = roster.entries.len();
            assert(party_count == parties.len());
            let mut taken = client.id < party_count;
            let mut k: usize = 0;
            while k < roster.clients.len()
                invariant
                    k <= roster.clients@.len(),
                    taken == (client@.id < parties.len() || exists|j: int|
                        0 <= j < k && #[trigger] client_views(roster.clients@)[j].id == client@.id),
                decreases roster.clients@.len() - k,
            {
                assert(client_views(roster.clients@)[k as int].id == roster.clients@[k as int].id);
                if roster.clients[k].id == client.id {
                    taken = true;
                }
                k = k + 1;
            }
            if taken {
                return Err(Error::Roster(RosterError::ClientIdTaken { id: client.id }));
            }
            let mut clash = false;
            let mut p: usize = 0;
            while p < roster.entries.len()
                invariant
                    p <= roster.entries@.len(),
                    clash == exists|j: int| 0 <= j < p && #[trigger] party_views(roster.entries@)[j].certificate
                        == client@.certificate,
                decreases roster.entries@.len() - p,
            {
                assert(party_views(roster.entries@)[p as int].certificate == roster.entries@[p as int].certificate@);
                if same_octets(roster.entries[p].certificate.as_slice(), client.certificate.as_slice()) {
                    clash = true;
                }
                p = p + 1;
            }
            let mut c: usize = 0;
            while c < roster.clients.len()
                invariant
                    c <= roster.clients@.len(),
                    clash == (party_certificate(parties, client@.certificate) || exists|j: int|
                        0 <= j < c && #[trigger] client_views(roster.clients@)[j].certificate == client@.certificate),
                decreases roster.clients@.len() - c,
            {
                assert(client_views(roster.clients@)[c as int].certificate == roster.clients@[c as int].certificate@);
                if same_octets(roster.clients[c].certificate.as_slice(), client.certificate.as_slice()) {
                    clash = true;
                }
                c = c + 1;
            }
            if clash {
                return Err(Error::Roster(RosterError::AmbiguousCertificate { id: client.id }));
            }
            let ghost known = client_views(roster.clients@);
            roster.clients.push(client);
            assert(client_views(roster.clients@) =~= known.push(before[0]));
        }
        assert(client_views(rest@) =~= Seq::<ClientEntryView>::empty());
        Ok(roster)
    }

    /// Number of parties, including the local one.
    pub fn party_count(&self) -> (count: usize)
        ensures
            count == self.parties().len(),
    {
        self.entries.len()
    }

    /// The entry for `id`.
    pub fn entry(&self, id: PartyId) -> (entry: Option<&PartyEntry<A>>)
        ensures
            id < self.parties().len() ==> (entry matches Some(e) && e@ == self.parties()[id as int]),
            id >= self.parties().len() ==> entry is None,
    {
        if id < self.entries.len() {
            Some(&self.entries[id])
        } else {
            None
        }
    }

    /// Every entry in id order.
    pub fn entries(&self) -> (entries: &[PartyEntry<A>])
        ensures
            party_views(entries@) == self.parties(),
    {
        self.entries.as_slice()
    }

    /// The ids of the parties `local` dials: each party dials every higher
    /// id, so exactly one link exists per pair.
    pub fn dial_targets(&self, local: PartyId) -> (targets: Vec<PartyId>)
        ensures
            targets@ == self.parties().filter(|e: PartyEntryView<A>| e.id > local).map_values(
                |e: PartyEntryView<A>| e.id,
            ),
    {
        let ghost all = self.parties();
        let ghost higher = |e: PartyEntryView<A>| e.id > local;
        let mut targets: Vec<PartyId> = Vec::new();
        let mut i: usize = 0;
        assert(all.subrange(0, 0).filter(higher) =~= Seq::<PartyEntryView<A>>::empty()) by {
            reveal(Seq::filter);
        }
        while i < self.entries.len()
            invariant
                i <= all.len(),
                all == self.parties(),
                higher == (|e: PartyEntryView<A>| e.id > local),
                targets@ == all.subrange(0, i as int).filter(higher).map_values(|e: PartyEntryView<A>| e.id),
            decreases all.len() - i,
        {
            proof {
                reveal(Seq::filter);
                assert(all.subrange(0, i + 1).drop_last() =~= all.subrange(0, i as int));
                assert(all.subrange(0, i + 1).last() == all[i as int]);
            }
            assert(all[i as int].id == self.entries@[i as int].id);
            if self.entries[i].id > local {
                targets.push(self.entries[i].id);
                assert(targets@ =~= all.subrange(0, i + 1).filter(higher).map_values(|e: PartyEntryView<A>| e.id));
            } else {
                assert(targets@ =~= all.subrange(0, i + 1).filter(higher).map_values(|e: PartyEntryView<A>| e.id));
            }
            i = i + 1;
        }
        assert(all.subrange(0, i as int) =~= all);
        targets
    }

    /// Every authorized client.
    pub fn clients(&self) -> (clients: &[ClientEntry])
        ensures
            client_views(clients@) == self.client_list(),
    {
        self.clients.as_slice()
    }

    /// Map an authenticated certificate back to its party: the first entry
    /// presenting exactly these octets.
    pub fn party_by_certificate(&self, certificate: &[u8]) -> (party: Option<PartyId>)
        requires
            self.wf(),
        ensures
            match party {
                Some(id) => id < self.parties().len() && self.parties()[id as int].certificate == certificate@
                    && forall|j: int| 0 <= j < id ==> #[trigger] self.parties()[j].certificate != certificate@,
                None => !party_certificate(self.parties(), certificate@),
            },
    {
        let mut i: usize = 0;
        while i < self.entries.len()
            invariant
                i <= self.entries@.len(),
                forall|j: int| 0 <= j < i ==> #[trigger] self.parties()[j].certificate != certificate@,
            decreases self.entries@.len() - i,
        {
            assert(self.parties()[i as int].certificate == self.entries@[i as int].certificate@);
            if same_octets(self.entries[i].certificate.as_slice(), certificate) {
                return Some(i);
            }
            i = i + 1;
        }
        None
    }

    /// Map an authenticated certificate back to its client: the first
    /// authorized client presenting exactly these octets.
    pub fn client_by_certificate(&self, certificate: &[u8]) -> (client: Option<ClientId>)
        ensures
            match client {
                Some(id) => exists|i: int|
                    0 <= i < self.client_list().len() && #[trigger] self.client_list()[i].certificate == certificate@
                        && self.client_list()[i].id == id && forall|j: int|
                        0 <= j < i ==> #[trigger] self.client_list()[j].certificate != certificate@,
                None => !client_certificate(self.client_list(), certificate@),
            },
    {
        let mut i: usize = 0;
        while i < self.clients.len()
            invariant
                i <= self.clients@.len(),
                forall|j: int| 0 <= j < i ==> #[trigger] self.client_list()[j].certificate != certificate@,
            decreases self.clients@.len() - i,
        {
            assert(self.client_list()[i as int].certificate == self.clients@[i as int].certificate@);
            assert(self.client_list()[i as int].id == self.clients@[i as int].id);
            if same_octets(self.clients[i].certificate.as_slice(), certificate) {
                return Some(self.clients[i].id);
            }
            i = i + 1;
        }
        None
    }

    /// Certificates of every party, then of every authorized client: the
    /// accept-side validator chain.
    pub fn certificates(&self) -> (certificates: Vec<Vec<u8>>)
        ensures
            certificates@.len() == self.parties().len() + self.client_list().len(),
            forall|i: int| 0 <= i < self.parties().len() ==> #[trigger] certificates@[i]@ == self.parties()[i].certificate,
            forall|i: int|
                0 <= i < self.client_list().len() ==> #[trigger] certificates@[self.parties().len() + i]@
                    == self.client_list()[i].certificate,
    {
        let mut out: Vec<Vec<u8>> = Vec::new();
        let mut i: usize = 0;
        while i < self.entries.len()
            invariant
                i <= self.entries@.len(),
                out@.len() == i,
                forall|k: int| 0 <= k < i ==> #[trigger] out@[k]@ == self.parties()[k].certificate,
            decreases self.entries@.len() - i,
        {
            assert(self.parties()[i as int].certificate == self.entries@[i as int].certificate@);
            out.push(vstd::slice::slice_to_vec(self.entries[i].certificate.as_slice()));
            i = i + 1;
        }
        let mut c: usize = 0;
        while c < self.clients.len()
            invariant
                c <= self.clients@.len(),
                self.entries@.len() == self.parties().len(),
                out@.len() == self.parties().len() + c,
                forall|k: int| 0 <= k < self.parties().len() ==> #[trigger] out@[k]@ == self.parties()[k].certificate,
                forall|k: int| 0 <= k < c ==> #[trigger] out@[self.parties().len() + k]@ == self.client_list()[k].certificate,
            decreases self.clients@.len() - c,
        {
            assert(self.client_list()[c as int].certificate == self.clients@[c as int].certificate@);
            out.push(vstd::slice::slice_to_vec(self.clients[c].certificate.as_slice()));
            c = c + 1;
        }
        out
    }

    /// Confirm the identity belongs to this roster: the id exists and the
    /// certificate matches the roster entry byte for byte.
    ///
    /// # Errors
    ///
    /// - [`RosterError::LocalPartyMissing`]: the id names no party.
    /// - [`RosterError::CertificateMismatch`]: the certificates differ.
    pub fn verify_identity(&self, identity: &LocalIdentity) -> (verified: Result<(), Error>)
        ensures
            identity.id_spec() >= self.parties().len() ==> verified == Err::<(), Error>(
                Error::Roster(RosterError::LocalPartyMissing { id: identity.id_spec() }),
            ),
            identity.id_spec() < self.parties().len() ==> verified == if self.parties()[identity.id_spec() as int].certificate
                == identity.certificate_spec() {
                Ok::<(), Error>(())
            } else {
                Err(Error::Roster(RosterError::CertificateMismatch { id: identity.id_spec() }))
            },
    {
        let id = identity.id;
        if id >= self.entries.len() {
            return Err(Error::Roster(RosterError::LocalPartyMissing { id }));
        }
        assert(self.parties()[id as int].certificate == self.entries@[id as int].certificate@);
        if !same_octets(self.entries[id].certificate.as_slice(), identity.certificate.as_slice()) {
            return Err(Error::Roster(RosterError::CertificateMismatch { id }));
        }
        Ok(())
    }

    /// Confirm the identity names an authorized client and that its
    /// certificate matches the directory entry byte for byte (the first
    /// entry with that id).
    ///
    /// # Errors
    ///
    /// - [`RosterError::UnknownClient`]: the id names no authorized client.
    /// - [`RosterError::CertificateMismatch`]: the certificates differ.
    #[verifier::loop_isolation(false)]
    pub fn verify_client_identity(&self, identity: &LocalIdentity) -> (verified: Result<(), Error>)
        ensures
            !client_id_known(self.client_list(), identity.id_spec()) ==> verified == Err::<(), Error>(
                Error::Roster(RosterError::UnknownClient { id: identity.id_spec() }),
            ),
            client_id_known(self.client_list(), identity.id_spec()) ==> exists|i: int|
                0 <= i < self.client_list().len() && #[trigger] self.client_list()[i].id == identity.id_spec() && (forall|j: int|
                    0 <= j < i ==> #[trigger] self.client_list()[j].id != identity.id_spec()) && verified == if self.client_list()[i].certificate
                    == identity.certificate_spec() {
                    Ok::<(), Error>(())
                } else {
                    Err(Error::Roster(RosterError::CertificateMismatch { id: identity.id_spec() }))
                },
    {
        let id = identity.id;
        let mut i: usize = 0;
        while i < self.clients.len()
            invariant
                i <= self.clients@.len(),
                forall|j: int| 0 <= j < i ==> #[trigger] self.client_list()[j].id != id,
            decreases self.clients@.len() - i,
        {
            assert(self.client_list()[i as int].id == self.clients@[i as int].id);
            assert(self.client_list()[i as int].certificate == self.clients@[i as int].certificate@);
            if self.clients[i].id == id {
                assert(client_id_known(self.client_list(), id));
                if !same_octets(self.clients[i].certificate.as_slice(), identity.certificate.as_slice()) {
                    return Err(Error::Roster(RosterError::CertificateMismatch { id }));
                }
                return Ok(());
            }
            i = i + 1;
        }
        Err(Error::Roster(RosterError::UnknownClient { id }))
    }
}

/// Who is on the other end of an accepted link.
#[derive(Clone, Copy, Debug, PartialEq, Eq, Structural)]
pub enum Dialer {
    /// A roster party.
    Party(PartyId),
    /// An authorized client.
    Client(ClientId),
}

/// `p` is the first party presenting `octets`.
pub open spec fn first_party<A>(s: Seq<PartyEntryView<A>>, octets: Seq<u8>, p: PartyId) -> bool {
    &&& p < s.len()
    &&& s[p as int].certificate == octets
    &&& forall|j: int| 0 <= j < p ==> #[trigger] s[j].certificate != octets
}

/// `c` is the id of the first client presenting `octets`.
pub open spec fn first_client(s: Seq<ClientEntryView>, octets: Seq<u8>, c: ClientId) -> bool {
    exists|i: int|
        0 <= i < s.len() && #[trigger] s[i].certificate == octets && s[i].id == c && forall|j: int|
            0 <= j < i ==> #[trigger] s[j].certificate != octets
}

impl<A> Roster<A> {
    /// Who dialed party `local`, by the certificate the link
    /// authenticated: a roster party may only dial parties with higher
    /// ids, so a party at or above `local` is a misbehaving member; a
    /// certificate outside the roster and the authorized clients is
    /// refused.
    pub fn classify_dialer(&self, local: PartyId, certificate: &[u8]) -> (dialer: Result<Dialer, Error>)
        requires
            self.wf(),
        ensures
            party_certificate(self.parties(), certificate@) ==> match dialer {
                Ok(Dialer::Party(p)) => first_party(self.parties(), certificate@, p) && dials(p, local),
                Err(Error::UnexpectedDialer { peer }) => first_party(self.parties(), certificate@, peer) && !dials(
                    peer,
                    local,
                ),
                _ => false,
            },
            !party_certificate(self.parties(), certificate@) ==> match dialer {
                Ok(Dialer::Client(c)) => first_client(self.client_list(), certificate@, c),
                Err(Error::UnknownPeerCertificate) => !client_certificate(self.client_list(), certificate@),
                _ => false,
            },
    {
        match self.party_by_certificate(certificate) {
            Some(peer) => {
                if peer >= local {
                    Err(Error::UnexpectedDialer { peer })
                } else {
                    Ok(Dialer::Party(peer))
                }
            },
            None => match self.client_by_certificate(certificate) {
                Some(client) => Ok(Dialer::Client(client)),
                None => Err(Error::UnknownPeerCertificate),
            },
        }
    }

    /// The entry to re-dial to restore the link to `peer` from party
    /// `local`: only the dialing side restores a link, so a peer at or
    /// below `local` is unavailable from here.
    pub fn redial_entry(&self, local: PartyId, peer: PartyId) -> (entry: Result<&PartyEntry<A>, Error>)
        ensures
            !dials(local, peer) ==> entry == Err::<&PartyEntry<A>, Error>(Error::LinkUnavailable { peer }),
            dials(local, peer) && peer < self.parties().len() ==> (entry matches Ok(e) && e@ == self.parties()[peer as int]),
            dials(local, peer) && peer >= self.parties().len() ==> entry == Err::<&PartyEntry<A>, Error>(
                Error::PartyNotFound { peer },
            ),
    {
        if peer <= local {
            return Err(Error::LinkUnavailable { peer });
        }
        match self.entry(peer) {
            Some(entry) => Ok(entry),
            None => Err(Error::PartyNotFound { peer }),
        }
    }
}

/// Whether party `from` dials party `to` under the dial rule.
pub open spec fn dials(from: PartyId, to: PartyId) -> bool {
    to > from
}

/// The dial rule yields exactly one link per pair of distinct parties:
/// exactly one of the two dials the other, and nobody dials itself.
pub proof fn lemma_one_link_per_pair(a: PartyId, b: PartyId)
    ensures
        a != b ==> (dials(a, b) != dials(b, a)),
        !dials(a, a),
{
}

} // verus!
