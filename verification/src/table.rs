//! The pseudonym table: the run-scoped mapping from every encountered
//! identifier to its pseudonym, built with insert-if-absent semantics and a
//! deterministic digest for fresh entries.

use crate::bytes::bytes_equal;
use crate::bytes::copy_bytes;
use crate::digest::digest_sha256;
use crate::digest::sha256_hex_of;
use crate::pattern::extract;
use crate::pattern::extract_from;
use crate::pattern::lemma_extracted_are_identifiers;
use crate::pattern::views_of;
use vstd::prelude::*;

verus! {

/// One identifier together with its resolved pseudonym.
pub struct EventHash {
    pub event: Vec<u8>,
    pub hash: Vec<u8>,
}

/// The mapping described by a sequence of (identifier, pseudonym) entries;
/// a later entry for the same key would win, as repeated insertion would.
pub open spec fn map_of(es: Seq<(Seq<u8>, Seq<u8>)>) -> Map<Seq<u8>, Seq<u8>>
    decreases es.len(),
{
    if es.len() == 0 {
        Map::empty()
    } else {
        map_of(es.drop_last()).insert(es.last().0, es.last().1)
    }
}

/// The keys of a sequence of entries, in order.
pub open spec fn keys_of(es: Seq<(Seq<u8>, Seq<u8>)>) -> Seq<Seq<u8>> {
    es.map_values(|p: (Seq<u8>, Seq<u8>)| p.0)
}

/// Entries are well formed when their keys are distinct and nonempty.
pub open spec fn entries_wf(es: Seq<(Seq<u8>, Seq<u8>)>) -> bool {
    &&& forall|i: int, j: int|
        0 <= i < j < es.len() ==> (#[trigger] es[i]).0 != (#[trigger] es[j]).0
    &&& forall|i: int| 0 <= i < es.len() ==> (#[trigger] es[i]).0.len() > 0
}

pub proof fn lemma_map_of_contains(es: Seq<(Seq<u8>, Seq<u8>)>, k: Seq<u8>)
    ensures
        map_of(es).contains_key(k) == (exists|i: int|
            0 <= i < es.len() && (#[trigger] es[i]).0 == k),
    decreases es.len(),
{
    if es.len() == 0 {
    } else {
        let prev = es.drop_last();
        lemma_map_of_contains(prev, k);
        if map_of(es).contains_key(k) {
            if k == es.last().0 {
                assert(es[es.len() - 1].0 == k);
            } else {
                let i = choose|i: int| 0 <= i < prev.len() && (#[trigger] prev[i]).0 == k;
                assert(es[i].0 == k);
            }
        }
        if exists|i: int| 0 <= i < es.len() && (#[trigger] es[i]).0 == k {
            let i = choose|i: int| 0 <= i < es.len() && (#[trigger] es[i]).0 == k;
            if i < es.len() - 1 {
                assert(prev[i].0 == k);
                assert(map_of(prev).contains_key(k));
            }
        }
    }
}

/// With no later entry for the same key, an entry gives the mapped value.
pub proof fn lemma_map_of_index(es: Seq<(Seq<u8>, Seq<u8>)>, i: int)
    requires
        0 <= i < es.len(),
        forall|j: int| i < j < es.len() ==> (#[trigger] es[j]).0 != es[i].0,
    ensures
        map_of(es).contains_key(es[i].0),
        map_of(es)[es[i].0] == es[i].1,
    decreases es.len(),
{
    if i == es.len() - 1 {
    } else {
        let prev = es.drop_last();
        assert forall|j: int| i < j < prev.len() implies (#[trigger] prev[j]).0 != prev[i].0 by {
            assert(prev[j] == es[j]);
        }
        lemma_map_of_index(prev, i);
        assert(es.last().0 != es[i].0);
    }
}

/// Updating the value of the entry whose key appears exactly once acts on the
/// mapping as an insert for that key.
pub proof fn lemma_map_of_update(es: Seq<(Seq<u8>, Seq<u8>)>, i: int, v: Seq<u8>)
    requires
        0 <= i < es.len(),
        forall|j: int| 0 <= j < es.len() && j != i ==> (#[trigger] es[j]).0 != es[i].0,
    ensures
        map_of(es.update(i, (es[i].0, v))) == map_of(es).insert(es[i].0, v),
    decreases es.len(),
{
    let k = es[i].0;
    let es2 = es.update(i, (k, v));
    if i == es.len() - 1 {
        assert(es2.drop_last() =~= es.drop_last());
        assert(map_of(es2) == map_of(es.drop_last()).insert(k, v));
        assert(map_of(es.drop_last()).insert(k, v) =~= map_of(es.drop_last()).insert(
            k,
            es[i].1,
        ).insert(k, v));
    } else {
        let prev = es.drop_last();
        assert forall|j: int| 0 <= j < prev.len() && j != i implies (#[trigger] prev[j]).0
            != prev[i].0 by {
            assert(prev[j] == es[j]);
        }
        lemma_map_of_update(prev, i, v);
        assert(es2.drop_last() =~= prev.update(i, (k, v)));
        assert(es2.last() == es.last());
        assert(map_of(es2) == map_of(prev).insert(k, v).insert(es.last().0, es.last().1));
        assert(es.last().0 != k);
        assert(map_of(prev).insert(k, v).insert(es.last().0, es.last().1) =~= map_of(prev).insert(
            es.last().0,
            es.last().1,
        ).insert(k, v));
    }
}

/// The identifier-to-pseudonym table. Entries keep first-insertion order;
/// keys are distinct.
pub struct PseudonymTable {
    pub entries: Vec<EventHash>,
}

impl View for PseudonymTable {
    type V = Map<Seq<u8>, Seq<u8>>;

    open spec fn view(&self) -> Map<Seq<u8>, Seq<u8>> {
        map_of(self.entries_seq())
    }
}

impl PseudonymTable {
    /// The (identifier, pseudonym) entries, in insertion order.
    pub open spec fn entries_seq(&self) -> Seq<(Seq<u8>, Seq<u8>)> {
        self.entries@.map_values(|e: EventHash| (e.event@, e.hash@))
    }

    pub open spec fn wf(&self) -> bool {
        entries_wf(self.entries_seq())
    }

    /// An empty table.
    pub fn new() -> (r: Self)
        ensures
            r.wf(),
            r@ == Map::<Seq<u8>, Seq<u8>>::empty(),
            r.entries_seq() == Seq::<(Seq<u8>, Seq<u8>)>::empty(),
    {
        let r = PseudonymTable { entries: Vec::new() };
        proof {
            assert(r.entries_seq() =~= Seq::<(Seq<u8>, Seq<u8>)>::empty());
        }
        r
    }

    /// How many identifiers the table maps.
    pub fn len(&self) -> (n: usize)
        ensures
            n == self.entries_seq().len(),
    {
        self.entries.len()
    }

    fn find_index(&self, event: &Vec<u8>) -> (o: Option<usize>)
        ensures
            match o {
                Some(i) => i < self.entries_seq().len() && self.entries_seq()[i as int].0
                    == event@,
                None => forall|i: int|
                    0 <= i < self.entries_seq().len() ==> (#[trigger] self.entries_seq()[i]).0
                        != event@,
            },
    {
        let n = self.entries.len();
        let mut i: usize = 0;
        while i < n
            invariant
                0 <= i <= n,
                n == self.entries@.len(),
                forall|j: int|
                    0 <= j < i ==> (#[trigger] self.entries_seq()[j]).0 != event@,
            decreases n - i,
        {
            if bytes_equal(&self.entries[i].event, event) {
                return Some(i);
            }
            i = i + 1;
        }
        None
    }

    /// The pseudonym of `event`, if the table maps it.
    pub fn get(&self, event: &Vec<u8>) -> (o: Option<&Vec<u8>>)
        requires
            self.wf(),
        ensures
            o.is_some() == self@.contains_key(event@),
            o.is_some() ==> o.unwrap()@ == self@[event@],
    {
        let ghost es = self.entries_seq();
        match self.find_index(event) {
            Some(i) => {
                proof {
                    lemma_map_of_index(es, i as int);
                }
                Some(&self.entries[i].hash)
            },
            None => {
                proof {
                    lemma_map_of_contains(es, event@);
                }
                None
            },
        }
    }

    /// Maps `event` to `hash`: the entry for an already-present key is
    /// overwritten in place, a new key is appended.
    pub fn insert(&mut self, event: Vec<u8>, hash: Vec<u8>)
        requires
            old(self).wf(),
            event@.len() > 0,
        ensures
            final(self).wf(),
            final(self)@ == old(self)@.insert(event@, hash@),
            keys_of(final(self).entries_seq()) == if old(self)@.contains_key(event@) {
                keys_of(old(self).entries_seq())
            } else {
                keys_of(old(self).entries_seq()).push(event@)
            },
    {
        let ghost es = self.entries_seq();
        let ghost ev = event@;
        let ghost hv = hash@;
        proof {
            lemma_map_of_contains(es, ev);
        }
        match self.find_index(&event) {
            Some(i) => {
                proof {
                    assert forall|j: int|
                        0 <= j < es.len() && j != i implies (#[trigger] es[j]).0
                        != es[i as int].0 by {}
                    lemma_map_of_update(es, i as int, hv);
                }
                self.entries.set(i, EventHash { event, hash });
                proof {
                    assert(self.entries_seq() =~= es.update(i as int, (ev, hv)));
                    assert(self.entries_seq() == es.update(i as int, (es[i as int].0, hv)));
                    assert(keys_of(self.entries_seq()) =~= keys_of(es));
                }
            },
            None => {
                self.entries.push(EventHash { event, hash });
                proof {
                    let es2 = self.entries_seq();
                    assert(es2 =~= es.push((ev, hv)));
                    assert(es2.drop_last() =~= es);
                    assert(es2.last() == (ev, hv));
                    assert(map_of(es2) == map_of(es).insert(ev, hv));
                    assert forall|i: int, j: int| 0 <= i < j < es2.len() implies (
                    #[trigger] es2[i]).0 != (#[trigger] es2[j]).0 by {
                        if j < es.len() {
                            assert(es[i].0 != es[j].0);
                        } else {
                            assert(es2[j].0 == ev);
                            assert(es[i].0 != ev);
                        }
                    }
                    assert(keys_of(es2) =~= keys_of(es).push(ev));
                }
            },
        }
    }
}

/// The pseudonym that resolving `id` against table `m` yields: the mapped
/// value when present, the digest of `id` otherwise.
pub open spec fn resolve(m: Map<Seq<u8>, Seq<u8>>, id: Seq<u8>) -> Seq<u8> {
    if m.contains_key(id) {
        m[id]
    } else {
        sha256_hex_of(id)
    }
}

/// The table after one identifier is recorded: look up first, insert the
/// resolved pseudonym.
pub open spec fn record_id(m: Map<Seq<u8>, Seq<u8>>, id: Seq<u8>) -> Map<Seq<u8>, Seq<u8>> {
    m.insert(id, resolve(m, id))
}

/// The table after a sequence of identifiers is recorded in order.
pub open spec fn record_ids(m: Map<Seq<u8>, Seq<u8>>, ids: Seq<Seq<u8>>) -> Map<Seq<u8>, Seq<u8>>
    decreases ids.len(),
{
    if ids.len() == 0 {
        m
    } else {
        record_ids(record_id(m, ids[0]), ids.skip(1))
    }
}

/// The keys that recording `ids` into table `m` appends, in first-occurrence
/// order: an identifier that is already mapped appends nothing.
pub open spec fn record_keys(m: Map<Seq<u8>, Seq<u8>>, ids: Seq<Seq<u8>>) -> Seq<Seq<u8>>
    decreases ids.len(),
{
    if ids.len() == 0 {
        Seq::empty()
    } else if m.contains_key(ids[0]) {
        record_keys(record_id(m, ids[0]), ids.skip(1))
    } else {
        seq![ids[0]] + record_keys(record_id(m, ids[0]), ids.skip(1))
    }
}

/// Every key that recording appends is one of the recorded identifiers, so a
/// table built from extractions has only grammar-conforming keys.
pub proof fn lemma_record_keys_subset(m: Map<Seq<u8>, Seq<u8>>, ids: Seq<Seq<u8>>)
    ensures
        forall|k: int|
            0 <= k < record_keys(m, ids).len() ==> ids.contains(#[trigger] record_keys(m, ids)[k]),
    decreases ids.len(),
{
    if ids.len() == 0 {
    } else {
        let rest = ids.skip(1);
        lemma_record_keys_subset(record_id(m, ids[0]), rest);
        assert forall|k: int| 0 <= k < record_keys(m, ids).len() implies ids.contains(
            #[trigger] record_keys(m, ids)[k],
        ) by {
            let tail = record_keys(record_id(m, ids[0]), rest);
            if m.contains_key(ids[0]) {
                let x = record_keys(m, ids)[k];
                assert(tail[k] == x);
                let i = choose|i: int| 0 <= i < rest.len() && rest[i] == x;
                assert(ids[i + 1] == x);
            } else {
                if k == 0 {
                    assert(record_keys(m, ids)[0] == ids[0]);
                } else {
                    let x = record_keys(m, ids)[k];
                    assert(tail[k - 1] == x);
                    let i = choose|i: int| 0 <= i < rest.len() && rest[i] == x;
                    assert(ids[i + 1] == x);
                }
            }
        }
    }
}

/// In a well-formed table every entry's pseudonym is the value its key maps
/// to, so the entries are determined by the key order and the mapping.
pub proof fn lemma_entries_values(t: &PseudonymTable)
    requires
        t.wf(),
    ensures
        forall|i: int|
            0 <= i < t.entries_seq().len() ==> t@.contains_key(
                (#[trigger] t.entries_seq()[i]).0,
            ) && t.entries_seq()[i].1 == t@[t.entries_seq()[i].0],
{
    let es = t.entries_seq();
    assert forall|i: int| 0 <= i < es.len() implies t@.contains_key((#[trigger] es[i]).0)
        && es[i].1 == t@[es[i].0] by {
        lemma_map_of_index(es, i);
    }
}

/// Law: the pseudonym computed for an identifier not yet present is the same
/// whatever table it is recorded into — it is a function of the identifier
/// alone.
pub proof fn lemma_pseudonym_deterministic(
    m1: Map<Seq<u8>, Seq<u8>>,
    m2: Map<Seq<u8>, Seq<u8>>,
    id: Seq<u8>,
)
    requires
        !m1.contains_key(id),
        !m2.contains_key(id),
    ensures
        record_id(m1, id)[id] == record_id(m2, id)[id],
        record_id(m1, id)[id] == sha256_hex_of(id),
{
}

/// Law: recording an identifier the table already maps changes nothing — in
/// particular its pseudonym stays what it was.
pub proof fn lemma_idempotent_lookup(m: Map<Seq<u8>, Seq<u8>>, id: Seq<u8>)
    requires
        m.contains_key(id),
    ensures
        record_id(m, id) == m,
        record_id(m, id)[id] == m[id],
{
    assert(record_id(m, id) =~= m);
}

/// Law: recording identifiers only grows the table, and every recorded
/// identifier is mapped afterwards.
pub proof fn lemma_record_ids_complete(m: Map<Seq<u8>, Seq<u8>>, ids: Seq<Seq<u8>>)
    ensures
        forall|x: Seq<u8>| m.contains_key(x) ==> record_ids(m, ids).contains_key(x),
        forall|x: Seq<u8>| ids.contains(x) ==> record_ids(m, ids).contains_key(x),
    decreases ids.len(),
{
    if ids.len() == 0 {
    } else {
        lemma_record_ids_complete(record_id(m, ids[0]), ids.skip(1));
        assert forall|x: Seq<u8>| m.contains_key(x) implies record_ids(m, ids).contains_key(x) by {
            assert(record_id(m, ids[0]).contains_key(x));
        }
        assert forall|x: Seq<u8>| ids.contains(x) implies record_ids(m, ids).contains_key(x) by {
            let i = choose|i: int| 0 <= i < ids.len() && ids[i] == x;
            if i == 0 {
                assert(record_id(m, ids[0]).contains_key(x));
            } else {
                assert(ids.skip(1)[i - 1] == x);
                assert(ids.skip(1).contains(x));
            }
        }
    }
}

/// Records one group of extracted identifiers into the table, in order.
fn insert_group(ids: &Vec<Vec<u8>>, event_hashes: &mut PseudonymTable)
    requires
        old(event_hashes).wf(),
        forall|j: int| 0 <= j < ids@.len() ==> (#[trigger] ids@[j])@.len() > 0,
    ensures
        final(event_hashes).wf(),
        final(event_hashes)@ == record_ids(old(event_hashes)@, views_of(ids@)),
        keys_of(final(event_hashes).entries_seq()) == keys_of(old(event_hashes).entries_seq())
            + record_keys(old(event_hashes)@, views_of(ids@)),
{
    let ghost m0 = event_hashes@;
    let ghost ks0 = keys_of(event_hashes.entries_seq());
    let ghost idsv = views_of(ids@);
    proof {
        assert(idsv.skip(0) =~= idsv);
    }
    let n = ids.len();
    let mut j: usize = 0;
    while j < n
        invariant
            0 <= j <= n,
            n == ids@.len(),
            idsv == views_of(ids@),
            forall|k: int| 0 <= k < ids@.len() ==> (#[trigger] ids@[k])@.len() > 0,
            event_hashes.wf(),
            record_ids(m0, idsv) == record_ids(event_hashes@, idsv.skip(j as int)),
            ks0 + record_keys(m0, idsv) == keys_of(event_hashes.entries_seq()) + record_keys(
                event_hashes@,
                idsv.skip(j as int),
            ),
        decreases n - j,
    {
        let ghost before = event_hashes@;
        let ghost keys_before = keys_of(event_hashes.entries_seq());
        let eh = EventHash::new(&ids[j], event_hashes);
        event_hashes.insert(eh.event, eh.hash);
        proof {
            let rest = idsv.skip(j as int);
            assert(rest[0] == idsv[j as int]);
            assert(rest.skip(1) =~= idsv.skip(j as int + 1));
            assert(record_ids(before, rest) == record_ids(record_id(before, rest[0]), rest.skip(1)));
            assert(event_hashes@ == record_id(before, idsv[j as int]));
            if before.contains_key(rest[0]) {
                assert(record_keys(before, rest) == record_keys(event_hashes@, rest.skip(1)));
            } else {
                assert(record_keys(before, rest) == seq![rest[0]] + record_keys(
                    event_hashes@,
                    rest.skip(1),
                ));
                assert(keys_before + (seq![rest[0]] + record_keys(event_hashes@, rest.skip(1)))
                    =~= keys_before.push(rest[0]) + record_keys(event_hashes@, rest.skip(1)));
            }
        }
        j = j + 1;
    }
    proof {
        assert(idsv.skip(n as int) =~= Seq::<Seq<u8>>::empty());
        assert(record_ids(event_hashes@, idsv.skip(n as int)) == event_hashes@);
        assert(record_keys(event_hashes@, idsv.skip(n as int)) == Seq::<Seq<u8>>::empty());
        assert(keys_of(event_hashes.entries_seq()) + Seq::<Seq<u8>>::empty() =~= keys_of(
            event_hashes.entries_seq(),
        ));
    }
}

impl EventHash {
    /// Pairs `event` with its resolved pseudonym: the table's value when the
    /// identifier is already mapped, its digest otherwise.
    pub fn new(event: &Vec<u8>, hay: &PseudonymTable) -> (r: EventHash)
        requires
            hay.wf(),
        ensures
            r.event@ == event@,
            r.hash@ == resolve(hay@, event@),
    {
        EventHash { event: copy_bytes(event), hash: get_value_or_digest_sha256(event, hay) }
    }
}

/// The existing pseudonym of `event` when `hay` maps it, else the SHA-256
/// digest of its bytes.
pub fn get_value_or_digest_sha256(event: &Vec<u8>, hay: &PseudonymTable) -> (r: Vec<u8>)
    requires
        hay.wf(),
    ensures
        r@ == resolve(hay@, event@),
{
    match hay.get(event) {
        None => digest_sha256(event),
        Some(e) => copy_bytes(e),
    }
}

/// Records the three files' identifier lists — client, then server, then
/// embedded-browser — into the table, each list in extraction order.
pub fn read_matches_and_insert_to_hash_map(
    matches: [Vec<Vec<u8>>; 3],
    event_hashes: &mut PseudonymTable,
)
    requires
        old(event_hashes).wf(),
        forall|g: int, j: int|
            0 <= g < 3 && 0 <= j < matches@[g]@.len() ==> (#[trigger] matches@[g]@[j])@.len() > 0,
    ensures
        final(event_hashes).wf(),
        final(event_hashes)@ == record_ids(
            record_ids(record_ids(old(event_hashes)@, views_of(matches@[0]@)), views_of(
                matches@[1]@,
            )),
            views_of(matches@[2]@),
        ),
        keys_of(final(event_hashes).entries_seq()) == keys_of(old(event_hashes).entries_seq())
            + record_keys(old(event_hashes)@, views_of(matches@[0]@)) + record_keys(
            record_ids(old(event_hashes)@, views_of(matches@[0]@)),
            views_of(matches@[1]@),
        ) + record_keys(
            record_ids(record_ids(old(event_hashes)@, views_of(matches@[0]@)), views_of(
                matches@[1]@,
            )),
            views_of(matches@[2]@),
        ),
{
    insert_group(&matches[0], event_hashes);
    insert_group(&matches[1], event_hashes);
    insert_group(&matches[2], event_hashes);
}

/// Builds the pseudonym table for one run: extracts the identifiers of the
/// three texts and records them, client file first, then server, then the
/// embedded-browser file. Afterwards every identifier that occurs in any of
/// the three texts is mapped.
pub fn fill_hash_map(
    client_content: &Vec<u8>,
    server_content: &Vec<u8>,
    cef_content: &Vec<u8>,
    event_hashes: &mut PseudonymTable,
)
    requires
        old(event_hashes).wf(),
    ensures
        final(event_hashes).wf(),
        final(event_hashes)@ == record_ids(
            record_ids(
                record_ids(old(event_hashes)@, extract_from(client_content@, 0)),
                extract_from(server_content@, 0),
            ),
            extract_from(cef_content@, 0),
        ),
        forall|id: Seq<u8>|
            extract_from(client_content@, 0).contains(id) || extract_from(server_content@, 0)
                .contains(id) || extract_from(cef_content@, 0).contains(id)
                ==> final(event_hashes)@.contains_key(id),
        keys_of(final(event_hashes).entries_seq()) == keys_of(old(event_hashes).entries_seq())
            + record_keys(old(event_hashes)@, extract_from(client_content@, 0)) + record_keys(
            record_ids(old(event_hashes)@, extract_from(client_content@, 0)),
            extract_from(server_content@, 0),
        ) + record_keys(
            record_ids(
                record_ids(old(event_hashes)@, extract_from(client_content@, 0)),
                extract_from(server_content@, 0),
            ),
            extract_from(cef_content@, 0),
        ),
{
    let c = extract(client_content);
    let s = extract(server_content);
    let e = extract(cef_content);
    proof {
        lemma_extracted_are_identifiers(client_content@, 0);
        lemma_extracted_are_identifiers(server_content@, 0);
        lemma_extracted_are_identifiers(cef_content@, 0);
        assert forall|j: int| 0 <= j < c@.len() implies (#[trigger] c@[j])@.len() > 0 by {
            assert(views_of(c@)[j] == c@[j]@);
        }
        assert forall|j: int| 0 <= j < s@.len() implies (#[trigger] s@[j])@.len() > 0 by {
            assert(views_of(s@)[j] == s@[j]@);
        }
        assert forall|j: int| 0 <= j < e@.len() implies (#[trigger] e@[j])@.len() > 0 by {
            assert(views_of(e@)[j] == e@[j]@);
        }
    }
    read_matches_and_insert_to_hash_map([c, s, e], event_hashes);
    proof {
        let m0 = old(event_hashes)@;
        let ids_c = extract_from(client_content@, 0);
        let ids_s = extract_from(server_content@, 0);
        let ids_e = extract_from(cef_content@, 0);
        lemma_record_ids_complete(m0, ids_c);
        lemma_record_ids_complete(record_ids(m0, ids_c), ids_s);
        lemma_record_ids_complete(record_ids(record_ids(m0, ids_c), ids_s), ids_e);
    }
}

} // verus!
