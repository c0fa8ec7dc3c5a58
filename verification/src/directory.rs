//! The directory of service: which peers are online, and the view records
//! left for peers that were offline when a friend looked at their images.
//!
//! Messages are plain text.  A peer registers by sending its address; a
//! peer that found another one offline sends `OFFLINE:` and that address,
//! or, to leave a view record, `OFFLINE:` followed by the address, its own
//! address, an image id and a number of views, joined by `_`.  A peer that
//! registers while a record waits for it is answered `YES` and the record,
//! written `address:id_views`; otherwise it is answered `NO`.  The list of
//! online peers goes out as each address followed by `_`.
use vstd::prelude::*;
use crate::text::split_spec;
use crate::text::removed;
use crate::text::starts_with_spec;
use crate::text::parse_i32_spec;
use crate::text::views_of;
use crate::text::split;
use crate::text::remove_all;
use crate::text::starts_with;
use crate::text::same_text;
use crate::text::parse_i32;
use crate::text::lemma_split_nonempty;
use crate::text::lemma_split_append_plain;
use crate::text::lemma_split_append_sep;
use crate::text::lemma_split_joined;
use crate::text::occurs_at;

verus! {

/// The entries of a list of key and value pairs, keys taken by their text.
pub open spec fn entry_views<V>(es: Seq<(String, V)>) -> Seq<(Seq<char>, V)> {
    es.map_values(|e: (String, V)| (e.0@, e.1))
}

/// The map that a list of pairs makes, a later pair winning over an
/// earlier one with the same key.
pub open spec fn map_of<V>(es: Seq<(Seq<char>, V)>) -> Map<Seq<char>, V>
    decreases es.len(),
{
    if es.len() == 0 {
        Map::empty()
    } else {
        map_of(es.drop_last()).insert(es.last().0, es.last().1)
    }
}

/// Whether no two pairs have the same key.
pub open spec fn keys_distinct<V>(es: Seq<(Seq<char>, V)>) -> bool {
    forall|i: int, j: int| 0 <= i < j < es.len() ==> #[trigger] es[i].0 != #[trigger] es[j].0
}

/// The pairs after `v` is put under `k`: a pair with key `k` takes the new
/// value in its place, and without one the new pair comes last.
pub open spec fn entries_after_insert<V>(es: Seq<(Seq<char>, V)>, k: Seq<char>, v: V) -> Seq<
    (Seq<char>, V),
> {
    if exists|j: int| 0 <= j < es.len() && #[trigger] es[j].0 == k {
        es.update(choose|j: int| 0 <= j < es.len() && #[trigger] es[j].0 == k, (k, v))
    } else {
        es.push((k, v))
    }
}

/// A key is in the map exactly when a pair has it, and with distinct keys
/// its value is that pair's.
pub proof fn lemma_map_of_lookup<V>(es: Seq<(Seq<char>, V)>, k: Seq<char>)
    ensures
        map_of(es).contains_key(k) <==> exists|i: int| 0 <= i < es.len() && #[trigger] es[i].0 == k,
        keys_distinct(es) ==> forall|i: int| 0 <= i < es.len() && #[trigger] es[i].0 == k ==> map_of(
            es,
        )[k] == es[i].1,
    decreases es.len(),
{
    if es.len() > 0 {
        let e0 = es.drop_last();
        lemma_map_of_lookup(e0, k);
        if exists|i: int| 0 <= i < es.len() && #[trigger] es[i].0 == k {
            let i = choose|i: int| 0 <= i < es.len() && #[trigger] es[i].0 == k;
            if i < es.len() - 1 {
                assert(e0[i].0 == k);
            }
        }
        if exists|i: int| 0 <= i < e0.len() && #[trigger] e0[i].0 == k {
            let i = choose|i: int| 0 <= i < e0.len() && #[trigger] e0[i].0 == k;
            assert(es[i].0 == k);
        }
        if keys_distinct(es) {
            assert(keys_distinct(e0)) by {
                assert forall|i: int, j: int| 0 <= i < j < e0.len() implies #[trigger] e0[i].0
                    != #[trigger] e0[j].0 by {
                    assert(es[i].0 != es[j].0);
                }
            }
            assert forall|i: int| 0 <= i < es.len() && #[trigger] es[i].0 == k implies map_of(es)[k]
                == es[i].1 by {
                if i < es.len() - 1 {
                    assert(e0[i].0 == k);
                    assert(es[i].0 != es[es.len() - 1].0);
                }
            }
        }
    }
}

/// Giving a new value to the pair at `j` gives its key that value in the map.
pub proof fn lemma_map_of_update<V>(es: Seq<(Seq<char>, V)>, j: int, v: V)
    requires
        keys_distinct(es),
        0 <= j < es.len(),
    ensures
        map_of(es.update(j, (es[j].0, v))) == map_of(es).insert(es[j].0, v),
        keys_distinct(es.update(j, (es[j].0, v))),
{
    let k = es[j].0;
    let es2 = es.update(j, (k, v));
    assert(keys_distinct(es2)) by {
        assert forall|a: int, b: int| 0 <= a < b < es2.len() implies #[trigger] es2[a].0
            != #[trigger] es2[b].0 by {
            assert(es2[a].0 == es[a].0 && es2[b].0 == es[b].0);
        }
    }
    assert forall|key: Seq<char>| #[trigger] map_of(es2).contains_key(key) <==> map_of(es).insert(
        k,
        v,
    ).contains_key(key) by {
        lemma_map_of_lookup(es, key);
        lemma_map_of_lookup(es2, key);
        if exists|i: int| 0 <= i < es.len() && #[trigger] es[i].0 == key {
            let i = choose|i: int| 0 <= i < es.len() && #[trigger] es[i].0 == key;
            assert(es2[i].0 == key);
        }
        if exists|i: int| 0 <= i < es2.len() && #[trigger] es2[i].0 == key {
            let i = choose|i: int| 0 <= i < es2.len() && #[trigger] es2[i].0 == key;
            assert(es[i].0 == key);
        }
        assert(es[j].0 == k);
    }
    assert forall|key: Seq<char>| #[trigger] map_of(es2).contains_key(key) implies map_of(es2)[key]
        == map_of(es).insert(k, v)[key] by {
        lemma_map_of_lookup(es, key);
        lemma_map_of_lookup(es2, key);
        let i = choose|i: int| 0 <= i < es2.len() && #[trigger] es2[i].0 == key;
        assert(es[i].0 == key);
        if i == j {
            assert(es2[j].0 == k);
        } else {
            assert(es2[i] == es[i]);
        }
    }
    assert(map_of(es2) =~= map_of(es).insert(k, v));
}

/// A map from texts to values that keeps its pairs in a list, each key once,
/// in the order in which the keys first came.  A `HashMap` keyed by
/// `String` would prove nothing here: vstd gives `String` keys no hashing
/// model, so not even the result of an `insert` can be stated of it.  The
/// list's order is one of the orders in which a hash map can be walked.
pub struct TextMap<V> {
    entries: Vec<(String, V)>,
}

impl<V> TextMap<V> {
    #[verifier::type_invariant]
    spec fn well_formed(self) -> bool {
        keys_distinct(entry_views(self.entries@))
    }

    /// The pairs, in the order in which their keys first came.
    pub closed spec fn entries(&self) -> Seq<(Seq<char>, V)> {
        entry_views(self.entries@)
    }
}

impl<V> View for TextMap<V> {
    type V = Map<Seq<char>, V>;

    closed spec fn view(&self) -> Map<Seq<char>, V> {
        map_of(self.entries())
    }
}

impl<V> TextMap<V> {
    /// An empty map.
    pub fn new() -> (r: Self)
        ensures
            r@ == Map::<Seq<char>, V>::empty(),
            r.entries() == Seq::<(Seq<char>, V)>::empty(),
    {
        let r = TextMap { entries: Vec::new() };
        assert(r.entries() =~= Seq::<(Seq<char>, V)>::empty());
        r
    }

    /// The position of the pair whose key is `key`, if there is one.
    fn find(&self, key: &str) -> (r: Option<usize>)
        ensures
            r matches Some(j) ==> j < self.entries().len() && self.entries()[j as int].0 == key@,
            r is None ==> forall|i: int| 0 <= i < self.entries().len() ==> #[trigger] self.entries()[i].0
                != key@,
    {
        let mut i: usize = 0;
        while i < self.entries.len()
            invariant
                i <= self.entries@.len(),
                forall|a: int| 0 <= a < i ==> #[trigger] entry_views(self.entries@)[a].0 != key@,
            decreases self.entries@.len() - i,
        {
            if same_text(self.entries[i].0.as_str(), key) {
                return Some(i);
            }
            i = i + 1;
        }
        None
    }

    /// Whether a pair has the key `key`.
    pub fn contains_key(&self, key: &str) -> (r: bool)
        ensures
            r == self@.contains_key(key@),
    {
        proof {
            lemma_map_of_lookup(self.entries(), key@);
        }
        self.find(key).is_some()
    }

    /// The value under `key`, if there is one.
    pub fn get(&self, key: &str) -> (r: Option<&V>)
        ensures
            r is Some <==> self@.contains_key(key@),
            r matches Some(v) ==> *v == self@[key@],
    {
        proof {
            use_type_invariant(self);
            lemma_map_of_lookup(self.entries(), key@);
        }
        match self.find(key) {
            Some(j) => Some(&self.entries[j].1),
            None => None,
        }
    }

    /// Puts `value` under `key`: a key already there keeps its place and
    /// takes the new value, a new key comes last.
    pub fn insert(&mut self, key: String, value: V)
        ensures
            final(self)@ == old(self)@.insert(key@, value),
            final(self).entries() == entries_after_insert(old(self).entries(), key@, value),
    {
        proof {
            use_type_invariant(&*self);
            lemma_map_of_lookup(self.entries(), key@);
        }
        let found = self.find(key.as_str());
        let mut entries: Vec<(String, V)> = Vec::new();
        std::mem::swap(&mut entries, &mut self.entries);
        let ghost es = entry_views(entries@);
        match found {
            Some(j) => {
                proof {
                    lemma_map_of_update(es, j as int, value);
                    let c = choose|c: int| 0 <= c < es.len() && #[trigger] es[c].0 == key@;
                    assert(es[j as int].0 == key@);
                    assert(c == j) by {
                        if c != j {
                            if c < j {
                                assert(es[c].0 != es[j as int].0);
                            } else {
                                assert(es[j as int].0 != es[c].0);
                            }
                        }
                    }
                }
                entries.set(j, (key, value));
                assert(entry_views(entries@) =~= es.update(j as int, (es[j as int].0, value)));
            },
            None => {
                assert(!(exists|c: int| 0 <= c < es.len() && #[trigger] es[c].0 == key@));
                entries.push((key, value));
                assert(entry_views(entries@) =~= es.push((key@, value)));
                assert(entry_views(entries@).drop_last() =~= es);
                assert(keys_distinct(entry_views(entries@))) by {
                    let es2 = entry_views(entries@);
                    assert forall|a: int, b: int| 0 <= a < b < es2.len() implies #[trigger] es2[a].0
                        != #[trigger] es2[b].0 by {
                        if b == es2.len() - 1 {
                            assert(es[a].0 != key@);
                        } else {
                            assert(es2[a] == es[a] && es2[b] == es[b]);
                        }
                    }
                }
            },
        }
        self.entries = entries;
    }

    /// The number of pairs.
    pub fn len(&self) -> (r: usize)
        ensures
            r == self.entries().len(),
    {
        self.entries.len()
    }

    /// The key and value of the pair at position `i`.
    pub fn entry(&self, i: usize) -> (r: (&str, &V))
        requires
            i < self.entries().len(),
        ensures
            r.0@ == self.entries()[i as int].0,
            *r.1 == self.entries()[i as int].1,
    {
        (self.entries[i].0.as_str(), &self.entries[i].1)
    }
}

/// The tag that marks a message about a peer that went offline.
pub open spec fn offline_tag() -> Seq<char> {
    seq!['O', 'F', 'F', 'L', 'I', 'N', 'E', ':']
}

/// The text of the tag that marks a message about a peer that went offline.
fn offline_tag_text() -> (r: &'static str)
    ensures
        r@ == offline_tag(),
{
    let t = "OFFLINE:";
    proof {
        reveal_strlit("OFFLINE:");
    }
    assert(t@ =~= offline_tag());
    t
}

/// The address that a registration message `msg` is about, and whether it
/// says that the peer is online: a message tagged offline names, with every
/// tag removed, a peer that went offline; any other message is the address
/// of a peer that is online.
pub open spec fn registration_effect(msg: Seq<char>) -> (Seq<char>, bool) {
    if starts_with_spec(msg, offline_tag()) {
        (removed(msg, offline_tag()), false)
    } else {
        (msg, true)
    }
}

/// The address of the peer that a view record notice `msg` is about and
/// the record to keep for it, `address:id_views`, if the notice has at
/// least four parts once every offline tag is removed.
pub open spec fn views_notice_effect(msg: Seq<char>) -> Option<(Seq<char>, Seq<char>)> {
    let parts = split_spec(removed(msg, offline_tag()), '_');
    if parts.len() < 4 {
        None
    } else {
        Some((parts[0], parts[1].push(':') + parts[2].push('_') + parts[3]))
    }
}

/// The list of online peers sent to the peer at `asker`: the address of
/// each online peer other than the asker, each followed by `_`, in the
/// order of `es`.
pub open spec fn online_text(es: Seq<(Seq<char>, bool)>, asker: Seq<char>) -> Seq<char>
    decreases es.len(),
{
    if es.len() == 0 {
        Seq::empty()
    } else {
        online_text(es.drop_last(), asker) + if es.last().1 && es.last().0 != asker {
            es.last().0.push('_')
        } else {
            Seq::empty()
        }
    }
}

/// The addresses of the online peers other than `asker`, in the order of `es`.
pub open spec fn online_peers(es: Seq<(Seq<char>, bool)>, asker: Seq<char>) -> Seq<Seq<char>>
    decreases es.len(),
{
    if es.len() == 0 {
        Seq::empty()
    } else {
        let p = online_peers(es.drop_last(), asker);
        if es.last().1 && es.last().0 != asker {
            p.push(es.last().0)
        } else {
            p
        }
    }
}

/// How the directory answers a registration.
pub enum RegistrationReply {
    /// The message said that a peer went offline: no answer.
    Silent,
    /// No view record waits for the peer: the answer is `NO`.
    Unknown,
    /// A view record waits for the peer: the answer is `YES`, then the record.
    Known(String),
}

/// The state of a directory server: which peers are online, and the view
/// records waiting for peers.
pub struct DirectoryService {
    online: TextMap<bool>,
    records: TextMap<String>,
}

impl DirectoryService {
    /// Whether each known peer is online, in the order in which peers first
    /// became known.
    pub closed spec fn online_entries(&self) -> Seq<(Seq<char>, bool)> {
        self.online.entries()
    }

    /// Whether each known peer is online.
    pub closed spec fn online(&self) -> Map<Seq<char>, bool> {
        self.online@
    }

    /// The view records waiting for peers, by the peer's address.
    pub closed spec fn records(&self) -> Map<Seq<char>, Seq<char>> {
        self.records@.map_values(|t: String| t@)
    }

    /// A directory that knows no peer.
    pub fn new() -> (r: Self)
        ensures
            r.online() == Map::<Seq<char>, bool>::empty(),
            r.online_entries() == Seq::<(Seq<char>, bool)>::empty(),
            r.records() == Map::<Seq<char>, Seq<char>>::empty(),
    {
        let r = DirectoryService { online: TextMap::new(), records: TextMap::new() };
        assert(r.records() =~= Map::<Seq<char>, Seq<char>>::empty());
        r
    }

    /// Handles a registration message: records the peer it names as online
    /// or offline, and for a peer that came online tells whether a view
    /// record waits for it.
    pub fn handle_registration(&mut self, msg: &str) -> (r: RegistrationReply)
        ensures
            final(self).online() == old(self).online().insert(
                registration_effect(msg@).0,
                registration_effect(msg@).1,
            ),
            final(self).online_entries() == entries_after_insert(
                old(self).online_entries(),
                registration_effect(msg@).0,
                registration_effect(msg@).1,
            ),
            final(self).records() == old(self).records(),
            !registration_effect(msg@).1 ==> r is Silent,
            registration_effect(msg@).1 && !old(self).records().contains_key(msg@) ==> r is Unknown,
            registration_effect(msg@).1 && old(self).records().contains_key(msg@) ==> (r matches RegistrationReply::Known(t)
                && t@ == old(self).records()[msg@]),
    {
        let tag = offline_tag_text();
        if starts_with(msg, tag) {
            let key = remove_all(msg, tag);
            self.online.insert(key, false);
            RegistrationReply::Silent
        } else {
            self.online.insert(String::from_str(msg), true);
            match self.records.get(msg) {
                Some(t) => RegistrationReply::Known(t.clone()),
                None => RegistrationReply::Unknown,
            }
        }
    }

    /// Handles a view record notice: the peer it names goes offline and its
    /// record is kept for it.  A notice with fewer than four parts changes
    /// nothing and gives `false`.
    pub fn handle_views_notice(&mut self, msg: &str) -> (r: bool)
        ensures
            r == (views_notice_effect(msg@) is Some),
            match views_notice_effect(msg@) {
                Some((peer, record)) => {
                    &&& final(self).online() == old(self).online().insert(peer, false)
                    &&& final(self).online_entries() == entries_after_insert(
                        old(self).online_entries(),
                        peer,
                        false,
                    )
                    &&& final(self).records() == old(self).records().insert(peer, record)
                },
                None => {
                    &&& final(self).online() == old(self).online()
                    &&& final(self).online_entries() == old(self).online_entries()
                    &&& final(self).records() == old(self).records()
                },
            },
    {
        let tag = offline_tag_text();
        let rest = remove_all(msg, tag);
        let parts = split(rest.as_str(), '_');
        if parts.len() < 4 {
            return false;
        }
        let mut record = String::from_str(parts[1].as_str());
        record.append(":");
        record.append(parts[2].as_str());
        record.append("_");
        record.append(parts[3].as_str());
        proof {
            reveal_strlit(":");
            reveal_strlit("_");
            assert(views_of(parts@)[1] == parts@[1]@);
            assert(views_of(parts@)[2] == parts@[2]@);
            assert(views_of(parts@)[3] == parts@[3]@);
            assert(views_of(parts@)[0] == parts@[0]@);
            assert(record@ =~= parts@[1]@.push(':') + parts@[2]@.push('_') + parts@[3]@);
        }
        let ghost before = self.records@;
        let peer = String::from_str(parts[0].as_str());
        self.online.insert(peer, false);
        self.records.insert(parts[0].clone(), record);
        assert(self.records() =~= old(self).records().insert(parts@[0]@, record@));
        true
    }

    /// The list of online peers for the peer at `asker`.
    pub fn online_list(&self, asker: &str) -> (r: String)
        ensures
            r@ == online_text(self.online_entries(), asker@),
            keys_distinct(self.online_entries()),
            map_of(self.online_entries()) == self.online(),
    {
        proof {
            use_type_invariant(&self.online);
        }
        let mut out = String::new();
        let n = self.online.len();
        let mut i: usize = 0;
        assert(self.online_entries().take(0) =~= Seq::<(Seq<char>, bool)>::empty());
        while i < n
            invariant
                i <= n,
                n == self.online_entries().len(),
                out@ == online_text(self.online_entries().take(i as int), asker@),
            decreases n - i,
        {
            let (key, is_online) = self.online.entry(i);
            let ghost es = self.online_entries().take(i + 1);
            assert(es.drop_last() =~= self.online_entries().take(i as int));
            assert(es.last() == self.online_entries()[i as int]);
            if *is_online && !same_text(key, asker) {
                out.append(key);
                out.append("_");
                proof {
                    reveal_strlit("_");
                }
            }
            i = i + 1;
            assert(out@ =~= online_text(self.online_entries().take(i as int), asker@));
        }
        assert(self.online_entries().take(n as int) =~= self.online_entries());
        out
    }
}

/// A view record as a peer reads it: the address of the peer that left it,
/// the image's id and the number of views granted.
pub struct ViewsRecord {
    pub host: String,
    pub image_id: String,
    pub views: i32,
}

/// What a view record `text` reads as: the part before the first `:` is
/// the address, the part after it is split at `_` into the image id and
/// the decimal number of views; nothing if a part is missing or the number
/// does not read.
pub open spec fn views_record_spec(text: Seq<char>) -> Option<(Seq<char>, Seq<char>, i32)> {
    let p = split_spec(text, ':');
    if p.len() < 2 {
        None
    } else {
        let q = split_spec(p[1], '_');
        if q.len() < 2 {
            None
        } else {
            match parse_i32_spec(q[1]) {
                Some(v) => Some((p[0], q[0], v)),
                None => None,
            }
        }
    }
}

/// Reads a view record.
pub fn parse_views_record(text: &str) -> (r: Option<ViewsRecord>)
    ensures
        r is Some <==> views_record_spec(text@) is Some,
        r matches Some(rec) ==> views_record_spec(text@) == Some((rec.host@, rec.image_id@, rec.views)),
{
    let p = split(text, ':');
    if p.len() < 2 {
        return None;
    }
    assert(views_of(p@)[1] == p@[1]@);
    assert(views_of(p@)[0] == p@[0]@);
    let q = split(p[1].as_str(), '_');
    if q.len() < 2 {
        return None;
    }
    assert(views_of(q@)[1] == q@[1]@);
    assert(views_of(q@)[0] == q@[0]@);
    match parse_i32(q[1].as_str()) {
        Some(v) => Some(ViewsRecord { host: p[0].clone(), image_id: q[0].clone(), views: v }),
        None => None,
    }
}

/// Reads the list of online peers: the pieces between the `_` marks, the
/// empty piece after the last mark dropped.
pub fn parse_online_list(reply: &str) -> (r: Vec<String>)
    ensures
        views_of(r@) == split_spec(reply@, '_').drop_last(),
{
    let mut pieces = split(reply, '_');
    proof {
        lemma_split_nonempty(reply@, '_');
    }
    let _ = pieces.pop();
    assert(views_of(pieces@) =~= split_spec(reply@, '_').drop_last());
    pieces
}

/// The text of the message that tells the directory that the peer at
/// `address` is offline.
pub open spec fn offline_notice_text(address: Seq<char>) -> Seq<char> {
    offline_tag() + address
}

/// The message that tells the directory that the peer at `address` is offline.
pub fn offline_notice(address: &str) -> (r: String)
    ensures
        r@ == offline_notice_text(address@),
{
    let mut r = String::from_str(offline_tag_text());
    r.append(address);
    r
}

/// The text of the message that leaves the view record `record` for the
/// peer at `address`.
pub open spec fn views_notice_text(address: Seq<char>, record: Seq<char>) -> Seq<char> {
    offline_tag() + address.push('_') + record
}

/// The message that leaves a view record, written `own-address_id_views`,
/// for the peer at `address`.
pub fn views_notice(address: &str, record: &str) -> (r: String)
    ensures
        r@ == views_notice_text(address@, record@),
{
    let mut r = String::from_str(offline_tag_text());
    r.append(address);
    r.append("_");
    r.append(record);
    proof {
        reveal_strlit("_");
    }
    assert(r@ =~= views_notice_text(address@, record@));
    r
}

/// The host part of a socket address written `host:port`: the text before
/// the first `:`.
pub fn host_of(address: &str) -> (r: String)
    ensures
        r@ == split_spec(address@, ':')[0],
{
    let parts = split(address, ':');
    proof {
        lemma_split_nonempty(address@, ':');
    }
    assert(views_of(parts@)[0] == parts@[0]@);
    parts[0].clone()
}

/// The text of the message that asks the directory which peers are online.
pub open spec fn who_online_text() -> Seq<char> {
    seq!['W', 'h', 'o', ' ', 'o', 'n', 'l', 'i', 'n', 'e']
}

/// Whether `message` asks the directory which peers are online.
pub fn is_who_online(message: &str) -> (r: bool)
    ensures
        r == (message@ == who_online_text()),
{
    let who = "Who online";
    proof {
        reveal_strlit("Who online");
    }
    assert(who@ =~= who_online_text());
    same_text(message, who)
}

/// Whether the directory's answer to a registration says that a view
/// record follows.
pub fn record_follows(reply: &str) -> (r: bool)
    ensures
        r == (reply@ == seq!['Y', 'E', 'S']),
{
    let yes = "YES";
    proof {
        reveal_strlit("YES");
    }
    assert(yes@ =~= seq!['Y', 'E', 'S']);
    same_text(reply, yes)
}

/// Text without `:` holds no offline tag, so removing tags leaves it as it is.
proof fn lemma_removed_without_colon(s: Seq<char>)
    requires
        !s.contains(':'),
    ensures
        removed(s, offline_tag()) == s,
    decreases s.len(),
{
    if s.len() >= offline_tag().len() {
        assert(!occurs_at(s, offline_tag(), 0)) by {
            if occurs_at(s, offline_tag(), 0) {
                assert(s.subrange(0, 8)[7] == ':');
                assert(s[7] == ':');
            }
        }
        assert(!s.drop_first().contains(':')) by {
            if s.drop_first().contains(':') {
                let j = choose|j: int| 0 <= j < s.drop_first().len() && s.drop_first()[j] == ':';
                assert(s[j + 1] == ':');
            }
        }
        lemma_removed_without_colon(s.drop_first());
        assert(seq![s[0]] + s.drop_first() =~= s);
    }
}

/// Removing tags from a text that starts with one removes that one and
/// goes on with the rest.
proof fn lemma_removed_after_tag(s: Seq<char>)
    ensures
        removed(offline_tag() + s, offline_tag()) == removed(s, offline_tag()),
        starts_with_spec(offline_tag() + s, offline_tag()),
{
    let t = offline_tag() + s;
    assert(t.subrange(0, 8) =~= offline_tag());
    assert(t.take(8) =~= offline_tag());
    assert(t.skip(8) =~= s);
}

/// A piece without the separator, put after a separator, becomes a piece
/// of its own.
proof fn lemma_split_append_piece(s: Seq<char>, t: Seq<char>, sep: char)
    requires
        !t.contains(sep),
    ensures
        split_spec(s.push(sep) + t, sep) == split_spec(s, sep).push(t),
{
    lemma_split_append_sep(s, sep);
    lemma_split_append_plain(s.push(sep), t, sep);
    assert(Seq::<char>::empty() + t =~= t);
    assert(split_spec(s, sep).push(Seq::<char>::empty()).update(
        split_spec(s, sep).len() as int,
        t,
    ) =~= split_spec(s, sep).push(t));
}

/// A text without the separator is a single piece.
proof fn lemma_split_single(t: Seq<char>, sep: char)
    requires
        !t.contains(sep),
    ensures
        split_spec(t, sep) == seq![t],
{
    lemma_split_append_plain(Seq::empty(), t, sep);
    assert(Seq::<char>::empty() + t =~= t);
    assert(split_spec(Seq::<char>::empty(), sep) == seq![Seq::<char>::empty()]);
    assert(seq![Seq::<char>::empty()].update(0, Seq::<char>::empty() + t) =~= seq![t]);
}

proof fn lemma_no_char_in_join(a: Seq<char>, sep: char, b: Seq<char>, c: char)
    requires
        !a.contains(c),
        !b.contains(c),
        sep != c,
    ensures
        !(a.push(sep) + b).contains(c),
{
    if (a.push(sep) + b).contains(c) {
        let j = choose|j: int| 0 <= j < (a.push(sep) + b).len() && (a.push(sep) + b)[j] == c;
        if j < a.len() {
            assert(a[j] == c);
        } else if j > a.len() {
            assert(b[j - a.len() - 1] == c);
        }
    }
}

/// A peer announced offline is recorded offline under its address, and any
/// other registration message is the address of a peer recorded online.
pub proof fn lemma_registration_effect(address: Seq<char>)
    ensures
        !address.contains(':') ==> registration_effect(offline_notice_text(address)) == (address, false),
        !starts_with_spec(address, offline_tag()) ==> registration_effect(address) == (address, true),
{
    lemma_removed_after_tag(address);
    if !address.contains(':') {
        lemma_removed_without_colon(address);
    }
}

/// A view record left for a peer comes back to it as it was written: the
/// directory keeps `own:id_views` for `address`, and the peer reads back the
/// leaving peer's address, the image id and the number of views.
pub proof fn lemma_views_record_roundtrip(
    address: Seq<char>,
    own: Seq<char>,
    id: Seq<char>,
    views: Seq<char>,
)
    requires
        !address.contains('_') && !address.contains(':'),
        !own.contains('_') && !own.contains(':'),
        !id.contains('_') && !id.contains(':'),
        !views.contains('_') && !views.contains(':'),
    ensures
        views_notice_effect(views_notice_text(address, own.push('_') + id.push('_') + views))
            == Some((address, own.push(':') + id.push('_') + views)),
        views_record_spec(own.push(':') + id.push('_') + views) == match parse_i32_spec(views) {
            Some(v) => Some((own, id, v)),
            None => None::<(Seq<char>, Seq<char>, i32)>,
        },
{
    let idv = id.push('_') + views;
    let rec = own.push('_') + idv;
    let body = address.push('_') + rec;
    assert(own.push('_') + id.push('_') + views =~= rec);
    lemma_no_char_in_join(id, '_', views, ':');
    lemma_no_char_in_join(own, '_', idv, ':');
    lemma_no_char_in_join(address, '_', rec, ':');
    assert(views_notice_text(address, rec) =~= offline_tag() + body);
    lemma_removed_after_tag(body);
    lemma_removed_without_colon(body);
    lemma_split_single(address, '_');
    lemma_split_append_piece(address, own, '_');
    lemma_split_append_piece(address.push('_') + own, id, '_');
    lemma_split_append_piece((address.push('_') + own).push('_') + id, views, '_');
    assert(((address.push('_') + own).push('_') + id).push('_') + views =~= body);
    assert(split_spec(body, '_') =~= seq![address, own, id, views]);
    lemma_split_joined(id, views, '_');
    lemma_no_char_in_join(id, '_', views, ':');
    lemma_split_joined(own, idv, ':');
    assert(own.push(':') + idv =~= own.push(':') + id.push('_') + views);
}

/// The list of online peers, read back by the peer that asked, names
/// exactly the online peers other than the asker, when no address holds `_`.
pub proof fn lemma_online_list_roundtrip(es: Seq<(Seq<char>, bool)>, asker: Seq<char>)
    requires
        forall|i: int| 0 <= i < es.len() ==> !(#[trigger] es[i].0).contains('_'),
    ensures
        split_spec(online_text(es, asker), '_') == online_peers(es, asker).push(Seq::empty()),
        split_spec(online_text(es, asker), '_').drop_last() == online_peers(es, asker),
    decreases es.len(),
{
    if es.len() > 0 {
        let e0 = es.drop_last();
        assert forall|i: int| 0 <= i < e0.len() implies !(#[trigger] e0[i].0).contains('_') by {
            assert(e0[i] == es[i]);
        }
        lemma_online_list_roundtrip(e0, asker);
        let t = online_text(e0, asker);
        let k = es.last().0;
        if es.last().1 && k != asker {
            assert(!k.contains('_')) by {
                assert(es[es.len() - 1].0 == k);
            }
            lemma_split_append_plain(t, k, '_');
            assert(online_peers(e0, asker).push(Seq::empty()).last() + k =~= k);
            assert(split_spec(t + k, '_') =~= online_peers(e0, asker).push(k));
            lemma_split_append_sep(t + k, '_');
            assert(t + k.push('_') =~= (t + k).push('_'));
        } else {
            assert(online_text(es, asker) =~= t);
        }
    } else {
        assert(split_spec(Seq::<char>::empty(), '_') == seq![Seq::<char>::empty()]);
        assert(online_peers(es, asker).push(Seq::empty()) =~= seq![Seq::<char>::empty()]);
    }
    assert(online_peers(es, asker).push(Seq::empty()).drop_last() =~= online_peers(es, asker));
}

/// A peer is in the list of online peers exactly when the directory has it
/// online and it is not the asker.
pub proof fn lemma_online_peers_are_online(es: Seq<(Seq<char>, bool)>, asker: Seq<char>, k: Seq<char>)
    requires
        keys_distinct(es),
    ensures
        online_peers(es, asker).contains(k) <==> (map_of(es).contains_key(k) && map_of(es)[k] && k
            != asker),
    decreases es.len(),
{
    if es.len() > 0 {
        let e0 = es.drop_last();
        assert(keys_distinct(e0)) by {
            assert forall|i: int, j: int| 0 <= i < j < e0.len() implies #[trigger] e0[i].0
                != #[trigger] e0[j].0 by {
                assert(es[i].0 != es[j].0);
            }
        }
        lemma_online_peers_are_online(e0, asker, k);
        let last = es.last();
        lemma_map_of_lookup(e0, k);
        if last.0 == k {
            assert(!map_of(e0).contains_key(k)) by {
                if map_of(e0).contains_key(k) {
                    let i = choose|i: int| 0 <= i < e0.len() && #[trigger] e0[i].0 == k;
                    assert(es[i].0 != es[es.len() - 1].0);
                }
            }
        }
        let p = online_peers(e0, asker);
        if last.1 && last.0 != asker {
            assert(p.push(last.0).contains(k) <==> (p.contains(k) || last.0 == k)) by {
                if p.push(last.0).contains(k) {
                    let j = choose|j: int| 0 <= j < p.push(last.0).len() && p.push(last.0)[j] == k;
                    if j < p.len() {
                        assert(p[j] == k);
                    }
                }
                if p.contains(k) {
                    let j = choose|j: int| 0 <= j < p.len() && p[j] == k;
                    assert(p.push(last.0)[j] == k);
                }
                if last.0 == k {
                    assert(p.push(last.0)[p.len() as int] == k);
                }
            }
        }
    }
}

} // verus!
