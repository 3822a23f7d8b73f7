//! The replicated cache: materialized map, writer, and replay path.
//!
//! The log topic is the only source of truth. Local writes are encoded and
//! appended to the log; they become visible in the map only when they come
//! back through replay, so every instance mutates its map through the one
//! code path and all instances converge on the same contents. Within the map,
//! an entry for a (store, key) pair is overwritten only by an entry at an
//! equal or greater source position: last writer wins by log position, never
//! by wall clock or arrival time.
//!
//! Sharing the cache between the replay loop and reader threads is the
//! surrounding binary's concern (a reference-counted lock around the cache);
//! the functions here define what each step does to the contents.

use vstd::prelude::*;

verus! {

use crate::codec::{
    check_value_wf, decode_entry_key, decode_key_spec, decode_value, decode_value_spec,
    encode_entry_key, encode_value, key_encoding, value_encoding, wf_value,
};
use crate::error::{ConnectionError, DecodeError, ProduceError};
use crate::metadata::{bytes_eq, Value, ValueView};

/// What the map holds for one (store, key) pair: the decoded value and the
/// source position of the log entry that wrote it.
pub struct SlotView {
    pub value: ValueView,
    pub position: u64,
}

/// One materialized entry: the store name and key it is filed under, the
/// decoded value, and the source position that wrote it.
struct MapRecord {
    store: Vec<u8>,
    key: Vec<u8>,
    value: Value,
    position: u64,
}

/// The (store, key) pair a record is filed under.
spec fn record_key(r: MapRecord) -> (Seq<u8>, Seq<u8>) {
    (r.store@, r.key@)
}

/// The slot a record materializes.
spec fn record_slot(r: MapRecord) -> SlotView {
    SlotView { value: r.value@, position: r.position }
}

/// The associative view of a record sequence; later records shadow earlier
/// ones with the same (store, key).
spec fn records_map(s: Seq<MapRecord>) -> Map<(Seq<u8>, Seq<u8>), SlotView>
    decreases s.len(),
{
    if s.len() == 0 {
        Map::empty()
    } else {
        records_map(s.drop_last()).insert(record_key(s.last()), record_slot(s.last()))
    }
}

/// No two records share a (store, key) pair.
spec fn records_unique(s: Seq<MapRecord>) -> bool {
    forall|j: int, l: int|
        0 <= j < l < s.len() ==> record_key(#[trigger] s[j]) != record_key(#[trigger] s[l])
}

/// A key held by no record is not in the map view.
proof fn lemma_records_map_absent(s: Seq<MapRecord>, k: (Seq<u8>, Seq<u8>))
    requires
        forall|j: int| 0 <= j < s.len() ==> record_key(#[trigger] s[j]) != k,
    ensures
        !records_map(s).dom().contains(k),
    decreases s.len(),
{
    if s.len() > 0 {
        lemma_records_map_absent(s.drop_last(), k);
    }
}

/// With unique keys, the map view holds each record's slot under its key.
proof fn lemma_records_map_index(s: Seq<MapRecord>, i: int)
    requires
        records_unique(s),
        0 <= i < s.len(),
    ensures
        records_map(s).dom().contains(record_key(s[i])),
        records_map(s)[record_key(s[i])] == record_slot(s[i]),
    decreases s.len(),
{
    if i < s.len() - 1 {
        lemma_records_map_index(s.drop_last(), i);
    }
}

/// With unique keys, removing the record at `i` removes exactly its key from
/// the map view.
proof fn lemma_records_map_remove(s: Seq<MapRecord>, i: int)
    requires
        records_unique(s),
        0 <= i < s.len(),
    ensures
        records_map(s.remove(i)) == records_map(s).remove(record_key(s[i])),
    decreases s.len(),
{
    let k = record_key(s[i]);
    if i == s.len() - 1 {
        assert(s.remove(i) =~= s.drop_last());
        lemma_records_map_absent(s.drop_last(), k);
        assert(records_map(s.drop_last()) =~= records_map(s).remove(k));
    } else {
        assert(s.remove(i).drop_last() =~= s.drop_last().remove(i));
        assert(s.remove(i).last() == s.last());
        lemma_records_map_remove(s.drop_last(), i);
        assert(record_key(s.last()) != k);
        assert(records_map(s.drop_last()).remove(k).insert(
            record_key(s.last()),
            record_slot(s.last()),
        ) =~= records_map(s).remove(k));
    }
}

/// How one decoded entry changes the map: it overwrites the slot unless a
/// strictly newer position already holds the key.
pub open spec fn apply_spec(
    m: Map<(Seq<u8>, Seq<u8>), SlotView>,
    store: Seq<u8>,
    key: Seq<u8>,
    value: ValueView,
    position: u64,
) -> Map<(Seq<u8>, Seq<u8>), SlotView> {
    let k = (store, key);
    if m.dom().contains(k) && m[k].position > position {
        m
    } else {
        m.insert(k, SlotView { value, position })
    }
}

/// The materialized view: (store, key) pairs mapped to decoded values,
/// rebuilt entirely from replayed log entries.
pub struct ReplicatedMap {
    records: Vec<MapRecord>,
}

impl View for ReplicatedMap {
    type V = Map<(Seq<u8>, Seq<u8>), SlotView>;

    closed spec fn view(&self) -> Map<(Seq<u8>, Seq<u8>), SlotView> {
        records_map(self.records@)
    }
}

impl ReplicatedMap {
    /// Internal invariant: one record per (store, key) pair.
    pub closed spec fn wf(&self) -> bool {
        records_unique(self.records@)
    }

    /// An empty map.
    pub fn new() -> (r: ReplicatedMap)
        ensures
            r@ == Map::<(Seq<u8>, Seq<u8>), SlotView>::empty(),
            r.wf(),
    {
        ReplicatedMap { records: Vec::new() }
    }

    /// The index of the record filed under (store, key), if any.
    fn find(&self, store: &Vec<u8>, key: &Vec<u8>) -> (r: Option<usize>)
        ensures
            match r {
                Some(i) => i < self.records@.len() && record_key(self.records@[i as int]) == (
                    store@,
                    key@,
                ),
                None => forall|j: int|
                    0 <= j < self.records@.len() ==> record_key(#[trigger] self.records@[j]) != (
                        store@,
                        key@,
                    ),
            },
    {
        let mut i: usize = 0;
        while i < self.records.len()
            invariant
                i <= self.records@.len(),
                forall|j: int|
                    0 <= j < i ==> record_key(#[trigger] self.records@[j]) != (store@, key@),
            decreases self.records@.len() - i,
        {
            if bytes_eq(&self.records[i].store, store) && bytes_eq(&self.records[i].key, key) {
                return Some(i);
            }
            i = i + 1;
        }
        None
    }

    /// The value currently held for (store, key).
    pub fn get(&self, store: &Vec<u8>, key: &Vec<u8>) -> (r: Option<&Value>)
        requires
            self.wf(),
        ensures
            match r {
                Some(v) => self@.dom().contains((store@, key@)) && self@[(store@, key@)].value
                    == v@,
                None => !self@.dom().contains((store@, key@)),
            },
    {
        match self.find(store, key) {
            Some(i) => {
                proof {
                    lemma_records_map_index(self.records@, i as int);
                }
                Some(&self.records[i].value)
            },
            None => {
                proof {
                    lemma_records_map_absent(self.records@, (store@, key@));
                }
                None
            },
        }
    }

    /// Applies one decoded log entry: last writer by position wins.
    pub fn apply(&mut self, store: Vec<u8>, key: Vec<u8>, value: Value, position: u64)
        requires
            old(self).wf(),
        ensures
            final(self).wf(),
            final(self)@ == apply_spec(old(self)@, store@, key@, value@, position),
    {
        let ghost k = (store@, key@);
        match self.find(&store, &key) {
            Some(i) => {
                proof {
                    lemma_records_map_index(self.records@, i as int);
                }
                if self.records[i].position > position {
                    return ;
                }
                proof {
                    lemma_records_map_remove(self.records@, i as int);
                }
                let ghost before = self.records@;
                self.records.remove(i);
                let ghost mid = self.records@;
                proof {
                    assert forall|j: int, l: int|
                        0 <= j < l < mid.len() implies record_key(#[trigger] mid[j]) != record_key(
                        #[trigger] mid[l],
                    ) by {
                        assert(mid[j] == if j < i as int {
                            before[j]
                        } else {
                            before[j + 1]
                        });
                        assert(mid[l] == if l < i as int {
                            before[l]
                        } else {
                            before[l + 1]
                        });
                    }
                    assert forall|j: int| 0 <= j < mid.len() implies record_key(
                        #[trigger] mid[j],
                    ) != k by {
                        assert(mid[j] == if j < i as int {
                            before[j]
                        } else {
                            before[j + 1]
                        });
                    }
                }
                self.records.push(MapRecord { store, key, value, position });
                proof {
                    assert(self.records@.drop_last() =~= mid);
                    assert(records_map(self.records@) =~= apply_spec(
                        records_map(before),
                        store@,
                        key@,
                        value@,
                        position,
                    ));
                }
            },
            None => {
                proof {
                    lemma_records_map_absent(self.records@, k);
                }
                let ghost before = self.records@;
                self.records.push(MapRecord { store, key, value, position });
                proof {
                    assert(self.records@.drop_last() =~= before);
                }
            },
        }
    }

    /// The keys of every entry filed under `store`, with copies of their
    /// values: the bulk-read view of one logical store.
    pub fn snapshot(&self, store: &Vec<u8>) -> (r: Vec<(Vec<u8>, Value)>)
        requires
            self.wf(),
        ensures
            forall|i: int|
                0 <= i < r@.len() ==> self@.dom().contains((store@, (#[trigger] r@[i]).0@))
                    && self@[(store@, r@[i].0@)].value == r@[i].1@,
            forall|k: Seq<u8>|
                self@.dom().contains((store@, k)) ==> exists|i: int|
                    0 <= i < r@.len() && (#[trigger] r@[i]).0@ == k,
    {
        let mut r: Vec<(Vec<u8>, Value)> = Vec::new();
        let mut i: usize = 0;
        while i < self.records.len()
            invariant
                self.wf(),
                i <= self.records@.len(),
                forall|l: int|
                    0 <= l < r@.len() ==> self@.dom().contains((store@, (#[trigger] r@[l]).0@))
                        && self@[(store@, r@[l].0@)].value == r@[l].1@,
                forall|j: int|
                    0 <= j < i && record_key(#[trigger] self.records@[j]).0 == store@
                        ==> exists|l: int|
                        0 <= l < r@.len() && (#[trigger] r@[l]).0@ == record_key(
                            self.records@[j],
                        ).1,
            decreases self.records@.len() - i,
        {
            let ghost old_r = r@;
            let matches_store = bytes_eq(&self.records[i].store, store);
            if matches_store {
                proof {
                    lemma_records_map_index(self.records@, i as int);
                }
                let entry = (
                    crate::metadata::clone_bytes(&self.records[i].key),
                    self.records[i].value.clone(),
                );
                r.push(entry);
            }
            proof {
                assert forall|j: int|
                    0 <= j < i + 1 && record_key(#[trigger] self.records@[j]).0 == store@
                    implies exists|l: int|
                    0 <= l < r@.len() && (#[trigger] r@[l]).0@ == record_key(
                        self.records@[j],
                    ).1 by {
                    if j < i {
                        let l = choose|l: int|
                            0 <= l < old_r.len() && (#[trigger] old_r[l]).0@ == record_key(
                                self.records@[j],
                            ).1;
                        assert(r@[l] == old_r[l]);
                        assert((r@[l]).0@ == record_key(self.records@[j]).1);
                    } else {
                        let l = r@.len() - 1;
                        assert((r@[l]).0@ == record_key(self.records@[j]).1);
                    }
                }
            }
            i = i + 1;
        }
        proof {
            assert forall|k: Seq<u8>| self@.dom().contains((store@, k)) implies exists|l: int|
                0 <= l < r@.len() && (#[trigger] r@[l]).0@ == k by {
                lemma_records_map_dom_to_index(self.records@, (store@, k));
            }
        }
        r
    }
}

/// A key in the map view is some record's key.
proof fn lemma_records_map_dom_to_index(s: Seq<MapRecord>, k: (Seq<u8>, Seq<u8>))
    requires
        records_map(s).dom().contains(k),
    ensures
        exists|i: int| 0 <= i < s.len() && record_key(#[trigger] s[i]) == k,
    decreases s.len(),
{
    if s.len() > 0 {
        if record_key(s.last()) == k {
            assert(record_key(s[s.len() - 1]) == k);
        } else {
            lemma_records_map_dom_to_index(s.drop_last(), k);
            let i = choose|i: int|
                0 <= i < s.drop_last().len() && record_key(#[trigger] s.drop_last()[i]) == k;
            assert(record_key(s[i]) == k);
        }
    }
}

// ------------------------------------------------------------------
// Local-write path: encode an entry for the log topic.
// ------------------------------------------------------------------

/// The broker's limit on one encoded record: key image and payload together.
pub const MAX_MESSAGE_LEN: usize = 1000000;

/// Fields small enough for the wire format's four-byte length headers.
pub open spec fn wf_entry(store: Seq<u8>, key: Seq<u8>, v: ValueView) -> bool {
    store.len() <= u32::MAX && key.len() <= u32::MAX && wf_value(v)
}

/// What `produce` yields for an entry: its wire images, or the error that
/// rejects it.
pub open spec fn produce_result(store: Seq<u8>, key: Seq<u8>, v: ValueView) -> Result<
    (Seq<u8>, Seq<u8>),
    ProduceError,
> {
    if !wf_entry(store, key, v) {
        Err(ProduceError::OversizedField)
    } else if key_encoding(store, key).len() + value_encoding(v).len() > MAX_MESSAGE_LEN {
        Err(ProduceError::MessageTooLarge)
    } else {
        Ok((key_encoding(store, key), value_encoding(v)))
    }
}

/// One record ready for appending to the log topic: the encoded key and the
/// encoded value. The broker assigns the source position at append time.
pub struct WireRecord {
    pub key_bytes: Vec<u8>,
    pub payload: Vec<u8>,
}

/// The local-write path: turns entries into wire records for the log topic.
/// The surrounding binary owns the broker connection and performs the send;
/// construction models its fail-fast startup probe.
pub struct ReplicaWriter {
    pub topic: Vec<u8>,
}

impl ReplicaWriter {
    /// A writer for `topic`. `broker_reachable` is the outcome of the startup
    /// probe of the broker connection; construction fails exactly when the
    /// probe failed.
    pub fn new(topic: Vec<u8>, broker_reachable: bool) -> (r: Result<
        ReplicaWriter,
        ConnectionError,
    >)
        ensures
            match r {
                Ok(w) => broker_reachable && w.topic@ == topic@,
                Err(e) => !broker_reachable && e == ConnectionError::BrokerUnreachable,
            },
    {
        if broker_reachable {
            Ok(ReplicaWriter { topic })
        } else {
            Err(ConnectionError::BrokerUnreachable)
        }
    }

    /// Serializes one entry into a wire record. Succeeds exactly when every
    /// field fits its length header and the whole record fits the broker's
    /// message limit; the entry is otherwise rejected unchanged.
    pub fn produce(&self, store: &Vec<u8>, key: &Vec<u8>, value: &Value) -> (r: Result<
        WireRecord,
        ProduceError,
    >)
        ensures
            match r {
                Ok(w) => produce_result(store@, key@, value@) == Ok::<_, ProduceError>(
                    (w.key_bytes@, w.payload@),
                ),
                Err(e) => produce_result(store@, key@, value@) == Err::<
                    (Seq<u8>, Seq<u8>),
                    _,
                >(e),
            },
    {
        if store.len() > u32::MAX as usize || key.len() > u32::MAX as usize {
            return Err(ProduceError::OversizedField);
        }
        if !check_value_wf(value) {
            return Err(ProduceError::OversizedField);
        }
        let key_bytes = encode_entry_key(store, key);
        let payload = encode_value(value);
        if payload.len() > MAX_MESSAGE_LEN || key_bytes.len() > MAX_MESSAGE_LEN - payload.len() {
            return Err(ProduceError::MessageTooLarge);
        }
        Ok(WireRecord { key_bytes, payload })
    }
}

// ------------------------------------------------------------------
// Replay path: decode one consumed record and apply it.
// ------------------------------------------------------------------

/// One record consumed from the log topic: the raw key and payload bytes and
/// the source position the broker assigned at append time.
pub struct LogMessage {
    pub key_bytes: Vec<u8>,
    pub payload: Vec<u8>,
    pub position: u64,
}

/// Ghost image of a [`LogMessage`].
pub struct LogMessageView {
    pub key_bytes: Seq<u8>,
    pub payload: Seq<u8>,
    pub position: u64,
}

impl View for LogMessage {
    type V = LogMessageView;

    open spec fn view(&self) -> LogMessageView {
        LogMessageView {
            key_bytes: self.key_bytes@,
            payload: self.payload@,
            position: self.position,
        }
    }
}

/// How one consumed record changes the map: a record that decodes is applied,
/// a malformed record changes nothing.
pub open spec fn apply_message_spec(
    m: Map<(Seq<u8>, Seq<u8>), SlotView>,
    msg: LogMessageView,
) -> Map<(Seq<u8>, Seq<u8>), SlotView> {
    match decode_key_spec(msg.key_bytes) {
        Ok(sk) => match decode_value_spec(msg.payload) {
            Ok(v) => apply_spec(m, sk.0, sk.1, v, msg.position),
            Err(_) => m,
        },
        Err(_) => m,
    }
}

/// Whether one consumed record decodes, and the error when it does not.
pub open spec fn update_result(msg: LogMessageView) -> Result<(), DecodeError> {
    match decode_key_spec(msg.key_bytes) {
        Ok(_) => match decode_value_spec(msg.payload) {
            Ok(_) => Ok(()),
            Err(e) => Err(e),
        },
        Err(e) => Err(e),
    }
}

/// The map after replaying `msgs` in order over `m`.
pub open spec fn replay_spec(
    m: Map<(Seq<u8>, Seq<u8>), SlotView>,
    msgs: Seq<LogMessageView>,
) -> Map<(Seq<u8>, Seq<u8>), SlotView>
    decreases msgs.len(),
{
    if msgs.len() == 0 {
        m
    } else {
        apply_message_spec(replay_spec(m, msgs.drop_last()), msgs.last())
    }
}

/// Ghost image of a batch of consumed records.
pub open spec fn messages_view(msgs: Seq<LogMessage>) -> Seq<LogMessageView> {
    Seq::new(msgs.len(), |i: int| msgs[i]@)
}

// ------------------------------------------------------------------
// The replay subscription.
// ------------------------------------------------------------------

/// The replay loop's state: the subscription to the log topic (modeled by
/// its fail-fast construction) and the next source position expected from
/// the partition. Every start subscribes from the earliest retained
/// position — the map is rebuilt in full, nothing is checkpointed across
/// restarts. The surrounding binary owns the blocking consume loop and hands
/// each received record to [`ReplicaReader::deliver`].
pub struct ReplicaReader {
    pub topic: Vec<u8>,
    /// The next source position this reader expects.
    pub next_position: u64,
}

impl ReplicaReader {
    /// A reader for `topic`, positioned at the earliest retained position.
    /// `broker_reachable` is the outcome of the startup probe of the broker
    /// connection; construction fails exactly when the probe failed.
    pub fn new(topic: Vec<u8>, broker_reachable: bool) -> (r: Result<
        ReplicaReader,
        ConnectionError,
    >)
        ensures
            match r {
                Ok(reader) => broker_reachable && reader.topic@ == topic@
                    && reader.next_position == 0,
                Err(e) => !broker_reachable && e == ConnectionError::BrokerUnreachable,
            },
    {
        if broker_reachable {
            Ok(ReplicaReader { topic, next_position: 0 })
        } else {
            Err(ConnectionError::BrokerUnreachable)
        }
    }

    /// Hands one received record to the cache, keeping the partition's
    /// replay order: a record at a position the reader has already passed is
    /// a redelivery and is ignored (`Ok(false)`), anything else is applied
    /// exactly as [`Cache::update_from_store`] applies it (`Ok(true)`, or
    /// the record's decode error, under which the cache stays unchanged).
    pub fn deliver(&mut self, cache: &mut Cache, msg: &LogMessage) -> (r: Result<
        bool,
        DecodeError,
    >)
        requires
            old(cache).wf(),
            msg.position < u64::MAX,
        ensures
            final(cache).wf(),
            final(self).topic@ == old(self).topic@,
            if msg.position < old(self).next_position {
                &&& r == Ok::<bool, DecodeError>(false)
                &&& final(cache)@ == old(cache)@
                &&& final(self).next_position == old(self).next_position
            } else {
                &&& final(self).next_position == msg.position + 1
                &&& final(cache)@ == apply_message_spec(old(cache)@, msg@)
                &&& r == (match update_result(msg@) {
                    Ok(()) => Ok::<bool, DecodeError>(true),
                    Err(e) => Err::<bool, DecodeError>(e),
                })
            },
    {
        if msg.position < self.next_position {
            return Ok(false);
        }
        self.next_position = msg.position + 1;
        match cache.update_from_store(msg) {
            Ok(()) => Ok(true),
            Err(e) => Err(e),
        }
    }
}

// ------------------------------------------------------------------
// The cache facade.
// ------------------------------------------------------------------

/// The cache: one materialized map multiplexing named stores, and the writer
/// through which every local mutation is durably logged. Reads come from the
/// map; writes return wire records for the log and leave the map untouched
/// until replay brings them back.
pub struct Cache {
    map: ReplicatedMap,
    writer: ReplicaWriter,
}

impl View for Cache {
    type V = Map<(Seq<u8>, Seq<u8>), SlotView>;

    closed spec fn view(&self) -> Map<(Seq<u8>, Seq<u8>), SlotView> {
        self.map@
    }
}

impl Cache {
    /// Internal invariant of the materialized map.
    pub closed spec fn wf(&self) -> bool {
        self.map.wf()
    }

    /// An empty cache over `writer`.
    pub fn new(writer: ReplicaWriter) -> (r: Cache)
        ensures
            r@ == Map::<(Seq<u8>, Seq<u8>), SlotView>::empty(),
            r.wf(),
    {
        Cache { map: ReplicatedMap::new(), writer }
    }

    /// Encodes a local write for the log topic. The map is not touched: the
    /// write becomes visible only when the record returns through replay.
    pub fn write(&self, store: &Vec<u8>, key: &Vec<u8>, value: &Value) -> (r: Result<
        WireRecord,
        ProduceError,
    >)
        ensures
            match r {
                Ok(w) => produce_result(store@, key@, value@) == Ok::<_, ProduceError>(
                    (w.key_bytes@, w.payload@),
                ),
                Err(e) => produce_result(store@, key@, value@) == Err::<
                    (Seq<u8>, Seq<u8>),
                    _,
                >(e),
            },
    {
        self.writer.produce(store, key, value)
    }

    /// The value currently held for (store, key).
    pub fn read(&self, store: &Vec<u8>, key: &Vec<u8>) -> (r: Option<&Value>)
        requires
            self.wf(),
        ensures
            match r {
                Some(v) => self@.dom().contains((store@, key@)) && self@[(store@, key@)].value
                    == v@,
                None => !self@.dom().contains((store@, key@)),
            },
    {
        self.map.get(store, key)
    }

    /// The keys and values filed under `store`.
    pub fn snapshot(&self, store: &Vec<u8>) -> (r: Vec<(Vec<u8>, Value)>)
        requires
            self.wf(),
        ensures
            forall|i: int|
                0 <= i < r@.len() ==> self@.dom().contains((store@, (#[trigger] r@[i]).0@))
                    && self@[(store@, r@[i].0@)].value == r@[i].1@,
            forall|k: Seq<u8>|
                self@.dom().contains((store@, k)) ==> exists|i: int|
                    0 <= i < r@.len() && (#[trigger] r@[i]).0@ == k,
    {
        self.map.snapshot(store)
    }

    /// The replay callback: decodes one consumed record and applies it to the
    /// map. A malformed record is reported and leaves the map unchanged, so
    /// one corrupt entry never halts replay or disturbs other keys.
    pub fn update_from_store(&mut self, msg: &LogMessage) -> (r: Result<(), DecodeError>)
        requires
            old(self).wf(),
        ensures
            final(self).wf(),
            final(self)@ == apply_message_spec(old(self)@, msg@),
            r == update_result(msg@),
    {
        let (store, key) = match decode_entry_key(&msg.key_bytes) {
            Ok(p) => p,
            Err(e) => {
                return Err(e);
            },
        };
        let value = match decode_value(&msg.payload) {
            Ok(v) => v,
            Err(e) => {
                return Err(e);
            },
        };
        self.map.apply(store, key, value, msg.position);
        Ok(())
    }

    /// Replays a batch of consumed records in order, skipping malformed ones.
    pub fn replay(&mut self, msgs: &Vec<LogMessage>)
        requires
            old(self).wf(),
        ensures
            final(self).wf(),
            final(self)@ == replay_spec(old(self)@, messages_view(msgs@)),
    {
        let ghost all = messages_view(msgs@);
        let mut i: usize = 0;
        while i < msgs.len()
            invariant
                self.wf(),
                i <= msgs@.len(),
                all == messages_view(msgs@),
                self@ == replay_spec(old(self)@, all.subrange(0, i as int)),
            decreases msgs@.len() - i,
        {
            assert(all.subrange(0, i + 1).drop_last() =~= all.subrange(0, i as int));
            assert(all.subrange(0, i + 1).last() == msgs@[i as int]@);
            match self.update_from_store(&msgs[i]) {
                Ok(()) => (),
                Err(_) => (),
            }
            i = i + 1;
        }
        assert(all.subrange(0, msgs@.len() as int) =~= all);
    }
}

// ------------------------------------------------------------------
// Shared handles.
// ------------------------------------------------------------------

/// The lock invariant of a shared cache: the map's well-formedness.
pub struct CacheInv {}

impl vstd::rwlock::RwLockPredicate<Cache> for CacheInv {
    open spec fn inv(self, v: Cache) -> bool {
        v.wf()
    }
}

/// A shared, cheaply cloned handle to one cache. The replay loop, the
/// metadata fetcher, and the read path each hold an alias of the same
/// underlying reader-writer lock, so no component owns the cache and no two
/// see it mid-mutation: every access happens under the lock, and the lock's
/// invariant keeps the cache well-formed across all of them. What each step
/// does to the contents is stated on [`Cache`]'s own methods; the handle adds
/// the sharing, not new behavior.
pub struct CacheHandle {
    lock: std::sync::Arc<vstd::rwlock::RwLock<Cache, CacheInv>>,
}

impl CacheHandle {
    /// Wraps a cache for sharing.
    pub fn new(cache: Cache) -> (r: CacheHandle)
        requires
            cache.wf(),
    {
        CacheHandle {
            lock: std::sync::Arc::new(vstd::rwlock::RwLock::new(cache, Ghost(CacheInv {}))),
        }
    }

    /// Another handle to the same cache.
    pub fn alias(&self) -> (r: CacheHandle) {
        CacheHandle { lock: self.lock.clone() }
    }

    /// Encodes a local write for the log topic, exactly as [`Cache::write`]
    /// does; the shared map is read-locked and never touched.
    pub fn write(&self, store: &Vec<u8>, key: &Vec<u8>, value: &Value) -> (r: Result<
        WireRecord,
        ProduceError,
    >)
        ensures
            match r {
                Ok(w) => produce_result(store@, key@, value@) == Ok::<_, ProduceError>(
                    (w.key_bytes@, w.payload@),
                ),
                Err(e) => produce_result(store@, key@, value@) == Err::<
                    (Seq<u8>, Seq<u8>),
                    _,
                >(e),
            },
    {
        let handle = self.lock.acquire_read();
        let r = handle.borrow().write(store, key, value);
        handle.release_read();
        r
    }

    /// A copy of the value the shared map holds for (store, key) at the
    /// moment of the lookup. What a lookup returns for given contents is
    /// stated on [`Cache::read`]; which contents this call observes depends
    /// on how it interleaves with the replay loop.
    pub fn read_value(&self, store: &Vec<u8>, key: &Vec<u8>) -> (r: Option<Value>) {
        let handle = self.lock.acquire_read();
        let r = match handle.borrow().read(store, key) {
            Some(v) => Some(v.clone()),
            None => None,
        };
        handle.release_read();
        r
    }

    /// The replay callback over the shared map: applies one consumed record
    /// under the write lock, exactly as [`Cache::update_from_store`] does.
    /// Whether the record decodes — and the error when it does not — depends
    /// on the record alone.
    pub fn update_from_store(&self, msg: &LogMessage) -> (r: Result<(), DecodeError>)
        ensures
            r == update_result(msg@),
    {
        let (mut cache, write_handle) = self.lock.acquire_write();
        let r = cache.update_from_store(msg);
        write_handle.release_write(cache);
        r
    }
    /// A copy of every entry the shared map files under `store`, the bulk
    /// read handed to the web boundary for listing a whole store. What the
    /// listing holds for given contents is stated on [`Cache::snapshot`].
    pub fn snapshot(&self, store: &Vec<u8>) -> (r: Vec<(Vec<u8>, Value)>) {
        let handle = self.lock.acquire_read();
        let r = handle.borrow().snapshot(store);
        handle.release_read();
        r
    }

    /// [`ReplicaReader::deliver`] over the shared map: hands one received
    /// record to the cache under the write lock. `Ok(false)` reports a
    /// redelivery at an already passed position, ignored without touching
    /// the map; otherwise the record is applied and the outcome — applied,
    /// or its decode error — depends on the record alone.
    pub fn deliver(&self, reader: &mut ReplicaReader, msg: &LogMessage) -> (r: Result<
        bool,
        DecodeError,
    >)
        requires
            msg.position < u64::MAX,
        ensures
            final(reader).topic@ == old(reader).topic@,
            if msg.position < old(reader).next_position {
                r == Ok::<bool, DecodeError>(false) && final(reader).next_position == old(
                    reader,
                ).next_position
            } else {
                final(reader).next_position == msg.position + 1 && r == (
                match update_result(msg@) {
                    Ok(()) => Ok::<bool, DecodeError>(true),
                    Err(e) => Err::<bool, DecodeError>(e),
                })
            },
    {
        let (mut cache, write_handle) = self.lock.acquire_write();
        let r = reader.deliver(&mut cache, msg);
        write_handle.release_write(cache);
        r
    }
}

// ------------------------------------------------------------------
// Convergence laws.
// ------------------------------------------------------------------

/// Replay is deterministic: instances that start from equal contents and
/// consume the same record sequence in the same per-partition order end with
/// equal contents, whatever machine or schedule performed the replay.
pub proof fn lemma_replay_deterministic(
    a: Map<(Seq<u8>, Seq<u8>), SlotView>,
    b: Map<(Seq<u8>, Seq<u8>), SlotView>,
    msgs: Seq<LogMessageView>,
)
    requires
        a == b,
    ensures
        replay_spec(a, msgs) == replay_spec(b, msgs),
{
}

/// Replay composes over batching: consuming a log in two batches ends where
/// consuming it in one batch does, so the timing of batch boundaries cannot
/// change the final contents.
pub proof fn lemma_replay_split(
    m: Map<(Seq<u8>, Seq<u8>), SlotView>,
    s1: Seq<LogMessageView>,
    s2: Seq<LogMessageView>,
)
    ensures
        replay_spec(m, s1 + s2) == replay_spec(replay_spec(m, s1), s2),
    decreases s2.len(),
{
    if s2.len() == 0 {
        assert(s1 + s2 =~= s1);
    } else {
        assert((s1 + s2).drop_last() =~= s1 + s2.drop_last());
        assert((s1 + s2).last() == s2.last());
        lemma_replay_split(m, s1, s2.drop_last());
    }
}

/// Applying the same entry twice leaves the map as applying it once does:
/// replay is idempotent per record, so re-consuming an entry at the same
/// source position cannot change the result.
pub proof fn lemma_apply_idempotent(
    m: Map<(Seq<u8>, Seq<u8>), SlotView>,
    store: Seq<u8>,
    key: Seq<u8>,
    value: ValueView,
    position: u64,
)
    ensures
        apply_spec(apply_spec(m, store, key, value, position), store, key, value, position)
            == apply_spec(m, store, key, value, position),
{
    let once = apply_spec(m, store, key, value, position);
    let twice = apply_spec(once, store, key, value, position);
    assert(twice =~= once);
}

/// Idempotence lifts to raw records: consuming the same record (same bytes,
/// same source position) twice leaves the map as consuming it once does.
pub proof fn lemma_apply_message_idempotent(
    m: Map<(Seq<u8>, Seq<u8>), SlotView>,
    msg: LogMessageView,
)
    ensures
        apply_message_spec(apply_message_spec(m, msg), msg) == apply_message_spec(m, msg),
{
    match decode_key_spec(msg.key_bytes) {
        Ok(sk) => match decode_value_spec(msg.payload) {
            Ok(v) => {
                lemma_apply_idempotent(m, sk.0, sk.1, v, msg.position);
            },
            Err(_) => {},
        },
        Err(_) => {},
    }
}

/// Last writer wins: of two entries for the same (store, key) at positions
/// `p1 < p2`, the entry at `p2` determines the final slot, in whichever order
/// the two applications happen. The map may not already hold the key at a
/// position beyond `p1`: in-order replay, which is the only way the map is
/// built, guarantees that.
pub proof fn lemma_last_writer_wins(
    m: Map<(Seq<u8>, Seq<u8>), SlotView>,
    store: Seq<u8>,
    key: Seq<u8>,
    v1: ValueView,
    p1: u64,
    v2: ValueView,
    p2: u64,
)
    requires
        p1 < p2,
        m.dom().contains((store, key)) ==> m[(store, key)].position <= p1,
    ensures
        apply_spec(apply_spec(m, store, key, v1, p1), store, key, v2, p2) == apply_spec(
            apply_spec(m, store, key, v2, p2),
            store,
            key,
            v1,
            p1,
        ),
        apply_spec(apply_spec(m, store, key, v1, p1), store, key, v2, p2)[(store, key)]
            == (SlotView { value: v2, position: p2 }),
{
    let k = (store, key);
    let fwd = apply_spec(apply_spec(m, store, key, v1, p1), store, key, v2, p2);
    let rev = apply_spec(apply_spec(m, store, key, v2, p2), store, key, v1, p1);
    assert(fwd =~= rev);
}

/// A malformed record is inert: replaying a log with one undecodable record
/// ends exactly where replaying the log without it does, so one corrupt value
/// never prevents earlier or later valid entries from being applied.
pub proof fn lemma_malformed_record_inert(
    m: Map<(Seq<u8>, Seq<u8>), SlotView>,
    s1: Seq<LogMessageView>,
    bad: LogMessageView,
    s2: Seq<LogMessageView>,
)
    requires
        update_result(bad) is Err,
    ensures
        replay_spec(m, s1 + seq![bad] + s2) == replay_spec(m, s1 + s2),
{
    let x = replay_spec(m, s1);
    assert(apply_message_spec(x, bad) == x);
    lemma_replay_split(m, s1, seq![bad]);
    assert(seq![bad].drop_last() =~= Seq::<LogMessageView>::empty());
    assert(seq![bad].last() == bad);
    assert(replay_spec(x, Seq::<LogMessageView>::empty()) == x);
    assert(replay_spec(x, seq![bad]) == apply_message_spec(
        replay_spec(x, seq![bad].drop_last()),
        bad,
    ));
    assert(replay_spec(m, s1 + seq![bad]) == x);
    lemma_replay_split(m, s1 + seq![bad], s2);
    lemma_replay_split(m, s1, s2);
}

} // verus!
