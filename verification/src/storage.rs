//! The timetable store: one indexed store per entity kind, the derived
//! secondary indices, and the exchange-time lookup with its precedence
//! rule. Built once, read-only thereafter.

use vstd::prelude::*;

use crate::index::IdIndex;
use crate::index::contains_id;
use crate::index::lemma_pair_key_injective;
use crate::index::pair_key;
use crate::index::spec_pair_key;
use crate::models::BitField;
use crate::models::Date;
use crate::models::ExchangeTimeJourney;
use crate::models::ExchangeTimeLine;
use crate::models::HrdfError;
use crate::models::Journey;
use crate::models::Keyed;
use crate::models::Stop;
use crate::models::StopConnection;
use crate::models::TimetableMetadata;
use crate::store::IndexedStore;

verus! {

broadcast use vstd::seq_lib::lemma_seq_contains_after_push;

/// Whether one of the first `n` stored connections has the id `cid` and
/// touches the stop `s`.
pub open spec fn conn_in_prefix(conns: IndexedStore<StopConnection>, n: int, s: i32, cid: i32) -> bool {
    exists|t: int|
        0 <= t < n && (#[trigger] conns.items@[t]).id == cid && conns.items@[t].spec_touches(s as int)
}

/// Whether one of the first `n` stored bit-fields has the id `b` and its
/// bit at the offset `o` set.
pub open spec fn bf_in_prefix(bfs: IndexedStore<BitField>, n: int, o: int, b: i32) -> bool {
    exists|t: int|
        0 <= t < n && (#[trigger] bfs.items@[t]).id == b && bfs.items@[t].spec_is_set(o)
}

/// Whether a key occurs twice in `s`.
pub open spec fn has_dup_keys<T: Keyed>(s: Seq<T>) -> bool {
    exists|i: int, j: int|
        0 <= i < s.len() && 0 <= j < s.len() && i != j && #[trigger] s[i].key() == #[trigger] s[j].key()
}

/// Whether some element of `s` carries the key `k`.
pub open spec fn seq_has_key<T: Keyed>(s: Seq<T>, k: int) -> bool {
    exists|i: int| 0 <= i < s.len() && #[trigger] s[i].key() == k
}

/// Whether one of the first `n` stored journeys calls at the stop `s` and
/// operates under the bit-field `b`.
pub open spec fn stopbf_in_prefix(js: IndexedStore<Journey>, n: int, s: i32, b: i32) -> bool {
    exists|t: int|
        0 <= t < n && (#[trigger] js.items@[t]).spec_visits_stop(s as int)
            && js.items@[t].bit_field_id == b
}

/// Whether one of the first `m` visits of `j` calls at the stop `s`.
pub open spec fn visit_in_prefix(j: Journey, m: int, s: i32) -> bool {
    exists|p: int| 0 <= p < m && (#[trigger] j.visits@[p]).stop_id == s
}

/// Whether one of the first `n` stored journeys has the id `jid`, departs
/// from the stop `s` and operates under the bit-field `b`.
pub open spec fn dep_in_prefix(js: IndexedStore<Journey>, n: int, s: i32, b: i32, jid: i32) -> bool {
    exists|t: int|
        0 <= t < n && (#[trigger] js.items@[t]).id == jid && js.items@[t].spec_departs_from(s as int)
            && js.items@[t].bit_field_id == b
}

/// Whether one of the first `m` visits of `j` departs from the stop `s`.
pub open spec fn dep_visit_in_prefix(j: Journey, m: int, s: i32) -> bool {
    exists|p: int|
        0 <= p < m && (#[trigger] j.visits@[p]).stop_id == s && j.visits@[p].departure_time is Some
}

/// The index key carrying one 32-bit id: its bit pattern, widened.
pub open spec fn spec_id_key(a: i32) -> u64 {
    (a as u32) as u64
}

/// Two distinct ids never share an index key.
pub proof fn lemma_id_key_injective(a: i32, b: i32)
    requires
        spec_id_key(a) == spec_id_key(b),
    ensures
        a == b,
{
    assert(a == b) by (bit_vector)
        requires
            (a as u32) as u64 == (b as u32) as u64,
    ;
}

/// The index key for the id `a`.
pub fn id_key(a: i32) -> (r: u64)
    ensures
        r == spec_id_key(a),
{
    a as u32 as u64
}

/// The aggregated, read-only timetable store.
///
/// It owns one indexed store per entity kind and the secondary indices
/// derived from them at construction time: stop to touching connections,
/// day offset to active bit-fields, stop to bit-fields of journeys calling
/// there, and (stop, bit-field) to journeys departing there.
#[derive(Debug)]
pub struct DataStorage {
    pub stops: IndexedStore<Stop>,
    pub stop_connections: IndexedStore<StopConnection>,
    pub bit_fields: IndexedStore<BitField>,
    pub journeys: IndexedStore<Journey>,
    pub exchange_times_journey: IndexedStore<ExchangeTimeJourney>,
    pub exchange_times_line: IndexedStore<ExchangeTimeLine>,
    pub metadata: TimetableMetadata,
    /// The global fallback pair of exchange times, in minutes, as
    /// (inter-city services, all other services).
    pub default_exchange_time: (i16, i16),
    pub connections_by_stop: IdIndex,
    /// Entry `o` lists the bit-fields whose bit `o` is set; one entry per
    /// day of the validity window.
    pub bit_fields_by_day: Vec<Vec<i32>>,
    pub bit_fields_by_stop: IdIndex,
    pub journeys_by_stop_and_bit_field: IdIndex,
}

impl DataStorage {
    /// The number of days of the validity window.
    pub open spec fn spec_window_len(self) -> int {
        self.metadata.end_date.day_number - self.metadata.start_date.day_number + 1
    }

    /// The day offset of `date` into the validity window.
    pub open spec fn spec_day_offset(self, date: Date) -> int {
        date.day_number - self.metadata.start_date.day_number
    }

    /// Every id a connection references names a stored stop.
    pub open spec fn connections_consistent(self) -> bool {
        forall|i: int|
            0 <= i < self.stop_connections.items@.len() ==> {
                let c = #[trigger] self.stop_connections.items@[i];
                self.stops.spec_contains_key(c.stop_id_1 as int) && self.stops.spec_contains_key(
                    c.stop_id_2 as int,
                )
            }
    }

    /// Every id a journey references names a stored stop or bit-field.
    pub open spec fn journeys_consistent(self) -> bool {
        forall|i: int|
            0 <= i < self.journeys.items@.len() ==> {
                let j = #[trigger] self.journeys.items@[i];
                self.bit_fields.spec_contains_key(j.bit_field_id as int) && forall|p: int|
                    0 <= p < j.visits@.len() ==> self.stops.spec_contains_key(
                        (#[trigger] j.visits@[p]).stop_id as int,
                    )
            }
    }

    /// Every bit sequence covers the validity window exactly.
    pub open spec fn bit_fields_consistent(self) -> bool {
        forall|i: int|
            0 <= i < self.bit_fields.items@.len()
                ==> (#[trigger] self.bit_fields.items@[i]).bits@.len() == self.spec_window_len()
    }

    /// The stop → connections index lists exactly the ids of the stored
    /// connections touching the stop.
    pub open spec fn connections_index_correct(self) -> bool {
        forall|s: i32, cid: i32|
            #[trigger] self.connections_by_stop.spec_has(spec_id_key(s), cid)
                <==> match self.stop_connections.spec_find(cid as int) {
                Some(c) => c.spec_touches(s as int),
                None => false,
            }
    }

    /// The day → bit-fields index lists, for each offset of the validity
    /// window, exactly the ids of the bit-fields whose bit there is set.
    pub open spec fn day_index_correct(self) -> bool {
        &&& self.bit_fields_by_day@.len() == self.spec_window_len()
        &&& forall|o: int, b: i32|
            0 <= o < self.bit_fields_by_day@.len() ==> {
                (#[trigger] self.bit_fields_by_day@[o]@.contains(b))
                    <==> match self.bit_fields.spec_find(b as int) {
                    Some(bf) => bf.spec_is_set(o),
                    None => false,
                }
            }
        &&& forall|o: int, x: int, y: int|
            0 <= o < self.bit_fields_by_day@.len() && 0 <= x < self.bit_fields_by_day@[o]@.len()
                && 0 <= y < self.bit_fields_by_day@[o]@.len() && x != y
                ==> #[trigger] self.bit_fields_by_day@[o]@[x]
                != #[trigger] self.bit_fields_by_day@[o]@[y]
    }

    /// The stop → bit-fields index lists exactly the bit-field ids of the
    /// journeys calling at the stop.
    pub open spec fn stop_bit_fields_index_correct(self) -> bool {
        forall|s: i32, b: i32|
            #[trigger] self.bit_fields_by_stop.spec_has(spec_id_key(s), b) <==> exists|i: int|
                0 <= i < self.journeys.items@.len() && (#[trigger] self.journeys.items@[i]).spec_visits_stop(
                    s as int,
                ) && self.journeys.items@[i].bit_field_id == b
    }

    /// The (stop, bit-field) → journeys index lists exactly the ids of the
    /// stored journeys departing that stop under that calendar entry.
    pub open spec fn journeys_index_correct(self) -> bool {
        forall|s: i32, b: i32, jid: i32|
            #[trigger] self.journeys_by_stop_and_bit_field.spec_has(spec_pair_key(s, b), jid)
                <==> match self.journeys.spec_find(jid as int) {
                Some(j) => j.spec_departs_from(s as int) && j.bit_field_id == b,
                None => false,
            }
    }

    /// Well-formedness of the whole store: the entity stores are keyed
    /// soundly, every cross-reference resolves, and the secondary indices
    /// agree exactly with the entities.
    pub open spec fn wf(self) -> bool {
        &&& self.stops.wf()
        &&& self.stop_connections.wf()
        &&& self.bit_fields.wf()
        &&& self.journeys.wf()
        &&& self.exchange_times_journey.wf()
        &&& self.exchange_times_line.wf()
        &&& self.metadata.start_date.day_number <= self.metadata.end_date.day_number
        &&& self.connections_consistent()
        &&& self.journeys_consistent()
        &&& self.bit_fields_consistent()
        &&& self.connections_by_stop.wf()
        &&& self.bit_fields_by_stop.wf()
        &&& self.journeys_by_stop_and_bit_field.wf()
        &&& self.connections_index_correct()
        &&& self.day_index_correct()
        &&& self.stop_bit_fields_index_correct()
        &&& self.journeys_index_correct()
    }

    /// Whether the stored connection `cid` touches the stop `s`.
    pub open spec fn spec_connection_touches(self, cid: i32, s: i32) -> bool {
        match self.stop_connections.spec_find(cid as int) {
            Some(c) => c.spec_touches(s as int),
            None => false,
        }
    }

    /// Whether the stored bit-field `b` is active on `date`: the date falls
    /// into the validity window and the bit at its offset is set. A date
    /// outside the window is simply inactive, never a fault.
    pub open spec fn spec_bit_field_active_on(self, b: i32, date: Date) -> bool {
        &&& 0 <= self.spec_day_offset(date) < self.spec_window_len()
        &&& match self.bit_fields.spec_find(b as int) {
            Some(bf) => bf.spec_is_set(self.spec_day_offset(date)),
            None => false,
        }
    }

    /// Whether the stored journey `jid` operates at the stop `s` on `date`:
    /// it departs from `s` and its calendar entry is active that day.
    pub open spec fn spec_journey_operating_at(self, jid: i32, s: i32, date: Date) -> bool {
        match self.journeys.spec_find(jid as int) {
            Some(j) => j.spec_departs_from(s as int) && self.spec_bit_field_active_on(
                j.bit_field_id,
                date,
            ),
            None => false,
        }
    }

    /// The ids of the connections touching `stop_id`, at either endpoint;
    /// `None` when no connection touches it.
    pub fn find_connections_by_stop(&self, stop_id: i32) -> (r: Option<&Vec<i32>>)
        requires
            self.wf(),
        ensures
            match r {
                Some(v) => {
                    &&& forall|cid: i32|
                        #[trigger] v@.contains(cid) <==> self.spec_connection_touches(cid, stop_id)
                    &&& forall|x: int, y: int|
                        0 <= x < v@.len() && 0 <= y < v@.len() && x != y ==> #[trigger] v@[x]
                            != #[trigger] v@[y]
                },
                None => forall|cid: i32| !self.spec_connection_touches(cid, stop_id),
            },
    {
        let r = self.connections_by_stop.get(id_key(stop_id));
        proof {
            match r {
                Some(v) => {
                    assert(forall|cid: i32|
                        #[trigger] v@.contains(cid) == self.connections_by_stop.spec_has(
                            spec_id_key(stop_id),
                            cid,
                        ));
                },
                None => {
                    assert forall|cid: i32| !self.spec_connection_touches(cid, stop_id) by {
                        assert(!self.connections_by_stop.spec_has(spec_id_key(stop_id), cid));
                    }
                },
            }
        }
        r
    }

    /// The ids of the bit-fields active on `date`, duplicate-free; empty
    /// for any date outside the validity window.
    pub fn find_bit_fields_by_day(&self, date: Date) -> (r: Vec<i32>)
        requires
            self.wf(),
        ensures
            forall|b: i32| #[trigger] r@.contains(b) <==> self.spec_bit_field_active_on(b, date),
            forall|x: int, y: int|
                0 <= x < r@.len() && 0 <= y < r@.len() && x != y ==> #[trigger] r@[x]
                    != #[trigger] r@[y],
    {
        let start = self.metadata.start_date.day_number;
        let offset_i64: i64 = date.day_number as i64 - start as i64;
        if offset_i64 < 0 || offset_i64 >= self.bit_fields_by_day.len() as i64 {
            Vec::new()
        } else {
            let offset = offset_i64 as usize;
            copy_ids(&self.bit_fields_by_day[offset])
        }
    }

    /// The ids of the bit-fields under which some journey calls at
    /// `stop_id`; `None` when no journey calls there.
    pub fn find_bit_fields_by_stop(&self, stop_id: i32) -> (r: Option<&Vec<i32>>)
        requires
            self.wf(),
        ensures
            match r {
                Some(v) => forall|b: i32|
                    #[trigger] v@.contains(b) <==> self.bit_fields_by_stop.spec_has(
                        spec_id_key(stop_id),
                        b,
                    ),
                None => forall|b: i32|
                    !self.bit_fields_by_stop.spec_has(spec_id_key(stop_id), b),
            },
    {
        let r = self.bit_fields_by_stop.get(id_key(stop_id));
        proof {
            if r is None {
                assert forall|b: i32| !self.bit_fields_by_stop.spec_has(spec_id_key(stop_id), b) by {
                    assert(self.bit_fields_by_stop.spec_get(spec_id_key(stop_id))
                        == Seq::<i32>::empty());
                }
            }
        }
        r
    }

    /// The ids of the journeys departing `stop_id` under the bit-field
    /// `bf_id`, duplicate-free; `None` when there is none.
    pub fn find_journeys_by_stop_and_bit_field(&self, stop_id: i32, bf_id: i32) -> (r: Option<
        &Vec<i32>,
    >)
        requires
            self.wf(),
        ensures
            match r {
                Some(v) => {
                    &&& forall|jid: i32|
                        #[trigger] v@.contains(jid)
                            <==> self.journeys_by_stop_and_bit_field.spec_has(
                            spec_pair_key(stop_id, bf_id),
                            jid,
                        )
                    &&& forall|x: int, y: int|
                        0 <= x < v@.len() && 0 <= y < v@.len() && x != y ==> #[trigger] v@[x]
                            != #[trigger] v@[y]
                },
                None => forall|jid: i32|
                    !self.journeys_by_stop_and_bit_field.spec_has(
                        spec_pair_key(stop_id, bf_id),
                        jid,
                    ),
            },
    {
        let r = self.journeys_by_stop_and_bit_field.get(pair_key(stop_id, bf_id));
        proof {
            if r is None {
                assert forall|jid: i32|
                    !self.journeys_by_stop_and_bit_field.spec_has(
                        spec_pair_key(stop_id, bf_id),
                        jid,
                    ) by {
                    assert(self.journeys_by_stop_and_bit_field.spec_get(
                        spec_pair_key(stop_id, bf_id),
                    ) == Seq::<i32>::empty());
                }
            }
        }
        r
    }

    /// The global fallback pair of exchange times, in minutes.
    pub fn default_exchange_time(&self) -> (r: (i16, i16))
        ensures
            r == self.default_exchange_time,
    {
        self.default_exchange_time
    }
}

/// Derives the day → bit-fields index: one entry per day of the validity
/// window, listing the ids of the bit-fields operating that day.
fn build_day_index(window_len: usize, bfs: &IndexedStore<BitField>) -> (r: Vec<Vec<i32>>)
    requires
        bfs.wf(),
    ensures
        r@.len() == window_len,
        forall|o: int, b: i32|
            0 <= o < window_len ==> ((#[trigger] r@[o]@.contains(b)) <==> match bfs.spec_find(
                b as int,
            ) {
                Some(bf) => bf.spec_is_set(o),
                None => false,
            }),
        forall|o: int, x: int, y: int|
            0 <= o < window_len && 0 <= x < r@[o]@.len() && 0 <= y < r@[o]@.len() && x != y
                ==> #[trigger] r@[o]@[x] != #[trigger] r@[o]@[y],
{
    let mut out: Vec<Vec<i32>> = Vec::new();
    let mut o: usize = 0;
    while o < window_len
        invariant
            bfs.wf(),
            out@.len() == o,
            o <= window_len,
            forall|d: int, b: i32|
                0 <= d < o ==> ((#[trigger] out@[d]@.contains(b)) <==> match bfs.spec_find(
                    b as int,
                ) {
                    Some(bf) => bf.spec_is_set(d),
                    None => false,
                }),
            forall|d: int, x: int, y: int|
                0 <= d < o && 0 <= x < out@[d]@.len() && 0 <= y < out@[d]@.len() && x != y
                    ==> #[trigger] out@[d]@[x] != #[trigger] out@[d]@[y],
        decreases window_len - o,
    {
        let mut list: Vec<i32> = Vec::new();
        let n = bfs.items.len();
        let mut t: usize = 0;
        while t < n
            invariant
                bfs.wf(),
                n == bfs.items@.len(),
                t <= n,
                forall|b: i32|
                    #[trigger] list@.contains(b) <==> bf_in_prefix(*bfs, t as int, o as int, b),
                forall|x: int, y: int|
                    0 <= x < list@.len() && 0 <= y < list@.len() && x != y
                        ==> #[trigger] list@[x] != #[trigger] list@[y],
            decreases n - t,
        {
            let ghost prev = list@;
            let bf = &bfs.items[t];
            if bf.is_set(o) {
                proof {
                    if list@.contains(bf.id) {
                        let u = choose|u: int|
                            0 <= u < t && (#[trigger] bfs.items@[u]).id == bf.id
                                && bfs.items@[u].spec_is_set(o as int);
                        assert(bfs.items@[u].key() == bfs.items@[t as int].key());
                        assert(false);
                    }
                }
                list.push(bf.id);
            }
            proof {
                assert forall|b: i32| #[trigger] list@.contains(b) <==> bf_in_prefix(
                    *bfs,
                    t + 1,
                    o as int,
                    b,
                ) by {
                    if list@.contains(b) {
                        if prev.contains(b) {
                            let u = choose|u: int|
                                0 <= u < t && (#[trigger] bfs.items@[u]).id == b
                                    && bfs.items@[u].spec_is_set(o as int);
                            assert(bf_in_prefix(*bfs, t + 1, o as int, b));
                        } else {
                            assert(bfs.items@[t as int].id == b && bfs.items@[t as int].spec_is_set(
                                o as int,
                            ));
                            assert(bf_in_prefix(*bfs, t + 1, o as int, b));
                        }
                    }
                    if bf_in_prefix(*bfs, t + 1, o as int, b) {
                        let u = choose|u: int|
                            0 <= u < t + 1 && (#[trigger] bfs.items@[u]).id == b
                                && bfs.items@[u].spec_is_set(o as int);
                        if u < t {
                            assert(bf_in_prefix(*bfs, t as int, o as int, b));
                            assert(prev.contains(b));
                        }
                        assert(list@.contains(b));
                    }
                }
            }
            t += 1;
        }
        proof {
            assert forall|b: i32| #[trigger] list@.contains(b) <==> match bfs.spec_find(b as int) {
                Some(bf) => bf.spec_is_set(o as int),
                None => false,
            } by {
                if list@.contains(b) {
                    let u = choose|u: int|
                        0 <= u < n && (#[trigger] bfs.items@[u]).id == b && bfs.items@[u].spec_is_set(
                            o as int,
                        );
                    crate::store::lemma_find_stored(*bfs, u);
                }
                if bfs.spec_find(b as int) matches Some(bf) && bf.spec_is_set(o as int) {
                    let u = choose|u: int|
                        0 <= u < bfs.items@.len() && #[trigger] bfs.items@[u].key() == b as int;
                    assert(bf_in_prefix(*bfs, n as int, o as int, b));
                }
            }
        }
        out.push(list);
        o += 1;
    }
    out
}

/// The longest validity window the store accepts, in days.
pub const MAX_WINDOW_DAYS: i64 = 0xFFFF_FFFF;

/// Why a handed-over timetable is rejected at construction: a duplicate
/// primary key, an unusable validity window, a bit sequence not covering
/// the window, or a cross-reference to an id that no store holds.
pub open spec fn spec_input_rejected(
    stops: Seq<Stop>,
    connections: Seq<StopConnection>,
    bit_fields: Seq<BitField>,
    journeys: Seq<Journey>,
    exchange_times_journey: Seq<ExchangeTimeJourney>,
    exchange_times_line: Seq<ExchangeTimeLine>,
    metadata: TimetableMetadata,
) -> bool {
    ||| has_dup_keys(stops)
    ||| has_dup_keys(connections)
    ||| has_dup_keys(bit_fields)
    ||| has_dup_keys(journeys)
    ||| has_dup_keys(exchange_times_journey)
    ||| has_dup_keys(exchange_times_line)
    ||| metadata.end_date.day_number < metadata.start_date.day_number
    ||| metadata.end_date.day_number - metadata.start_date.day_number + 1 > MAX_WINDOW_DAYS
    ||| exists|i: int|
        0 <= i < bit_fields.len() && (#[trigger] bit_fields[i]).bits@.len()
            != metadata.end_date.day_number - metadata.start_date.day_number + 1
    ||| exists|i: int|
        0 <= i < connections.len() && !{
            let c = #[trigger] connections[i];
            seq_has_key(stops, c.stop_id_1 as int) && seq_has_key(stops, c.stop_id_2 as int)
        }
    ||| exists|i: int|
        0 <= i < journeys.len() && !{
            let j = #[trigger] journeys[i];
            seq_has_key(bit_fields, j.bit_field_id as int) && forall|p: int|
                0 <= p < j.visits@.len() ==> seq_has_key(
                    stops,
                    (#[trigger] j.visits@[p]).stop_id as int,
                )
        }
}

impl DataStorage {
    /// Assembles the timetable store from the entities the ingestion
    /// collaborator delivers: rejects duplicate keys, an unusable validity
    /// window, bit sequences not covering the window and dangling
    /// cross-references as data-integrity defects, then derives every
    /// secondary index. Succeeds on exactly the inputs free of those
    /// defects.
    pub fn new(
        stops: Vec<Stop>,
        connections: Vec<StopConnection>,
        bit_fields: Vec<BitField>,
        journeys: Vec<Journey>,
        exchange_times_journey: Vec<ExchangeTimeJourney>,
        exchange_times_line: Vec<ExchangeTimeLine>,
        metadata: TimetableMetadata,
        default_exchange_time: (i16, i16),
    ) -> (r: Result<DataStorage, HrdfError>)
        ensures
            match r {
                Ok(s) => {
                    &&& s.wf()
                    &&& s.stops.items@ == stops@
                    &&& s.stop_connections.items@ == connections@
                    &&& s.bit_fields.items@ == bit_fields@
                    &&& s.journeys.items@ == journeys@
                    &&& s.exchange_times_journey.items@ == exchange_times_journey@
                    &&& s.exchange_times_line.items@ == exchange_times_line@
                    &&& s.metadata == metadata
                    &&& s.default_exchange_time == default_exchange_time
                    &&& !spec_input_rejected(
                        stops@,
                        connections@,
                        bit_fields@,
                        journeys@,
                        exchange_times_journey@,
                        exchange_times_line@,
                        metadata,
                    )
                },
                Err(e) => spec_input_rejected(
                    stops@,
                    connections@,
                    bit_fields@,
                    journeys@,
                    exchange_times_journey@,
                    exchange_times_line@,
                    metadata,
                ),
            },
    {
        let stops = IndexedStore::new(stops)?;
        let stop_connections = IndexedStore::new(connections)?;
        let bit_fields = IndexedStore::new(bit_fields)?;
        let journeys = IndexedStore::new(journeys)?;
        let exchange_times_journey = IndexedStore::new(exchange_times_journey)?;
        let exchange_times_line = IndexedStore::new(exchange_times_line)?;
        if metadata.end_date.day_number < metadata.start_date.day_number {
            return Err(HrdfError::Configuration);
        }
        let window_i64: i64 = metadata.end_date.day_number as i64
            - metadata.start_date.day_number as i64 + 1;
        if window_i64 > MAX_WINDOW_DAYS {
            return Err(HrdfError::Configuration);
        }
        let window_len: usize = window_i64 as usize;
        if let Some(id) = check_bit_fields(window_len, &bit_fields) {
            return Err(HrdfError::DataIntegrity { id });
        }
        if let Some(id) = check_connections(&stops, &stop_connections) {
            return Err(HrdfError::DataIntegrity { id });
        }
        if let Some(id) = check_journeys(&stops, &bit_fields, &journeys) {
            return Err(HrdfError::DataIntegrity { id });
        }
        let connections_by_stop = build_connections_index(&stop_connections);
        let bit_fields_by_day = build_day_index(window_len, &bit_fields);
        let bit_fields_by_stop = build_stop_bit_fields_index(&journeys);
        let journeys_by_stop_and_bit_field = build_journeys_index(&journeys);
        Ok(
            DataStorage {
                stops,
                stop_connections,
                bit_fields,
                journeys,
                exchange_times_journey,
                exchange_times_line,
                metadata,
                default_exchange_time,
                connections_by_stop,
                bit_fields_by_day,
                bit_fields_by_stop,
                journeys_by_stop_and_bit_field,
            },
        )
    }
}

/// Whether a journey-pair override applies at `stop` between the journeys
/// `j1` and `j2`, in this order.
pub open spec fn journey_override_matches(e: ExchangeTimeJourney, stop: i32, j1: i32, j2: i32) -> bool {
    e.stop_id == stop && e.journey_id_1 == j1 && e.journey_id_2 == j2
}

/// The first stored journey-pair override applying at `stop` between `j1`
/// and `j2`, if any.
pub open spec fn spec_first_journey_override(
    s: Seq<ExchangeTimeJourney>,
    stop: i32,
    j1: i32,
    j2: i32,
) -> Option<ExchangeTimeJourney>
    decreases s.len(),
{
    if s.len() == 0 {
        None
    } else if journey_override_matches(s[0], stop, j1, j2) {
        Some(s[0])
    } else {
        spec_first_journey_override(s.drop_first(), stop, j1, j2)
    }
}

/// Whether a line-pair override applies at `stop` between the
/// administrations `a1` and `a2`, in this order. An override without a
/// stop applies at every stop.
pub open spec fn line_override_matches(
    e: ExchangeTimeLine,
    stop: i32,
    a1: Seq<char>,
    a2: Seq<char>,
) -> bool {
    &&& match e.stop_id {
        Some(s) => s == stop,
        None => true,
    }
    &&& e.administration_1@ == a1
    &&& e.administration_2@ == a2
}

/// The first stored line-pair override applying at `stop` between the
/// administrations `a1` and `a2`, if any.
pub open spec fn spec_first_line_override(
    s: Seq<ExchangeTimeLine>,
    stop: i32,
    a1: Seq<char>,
    a2: Seq<char>,
) -> Option<ExchangeTimeLine>
    decreases s.len(),
{
    if s.len() == 0 {
        None
    } else if line_override_matches(s[0], stop, a1, a2) {
        Some(s[0])
    } else {
        spec_first_line_override(s.drop_first(), stop, a1, a2)
    }
}

impl DataStorage {
    /// The exchange time in minutes required at `stop` to continue from
    /// the ride `j1` onto the ride `j2`, with the most specific source
    /// winning: a journey-pair override first, then a line-pair override,
    /// then the stop's own pair, then the timetable's default pair. Of a
    /// pair, the second value (all services other than inter-city) is the
    /// one a plain continuation uses.
    pub open spec fn spec_exchange_time(self, stop: Stop, j1: Journey, j2: Journey) -> int {
        match spec_first_journey_override(
            self.exchange_times_journey.items@,
            stop.id,
            j1.id,
            j2.id,
        ) {
            Some(e) => e.duration as int,
            None => match spec_first_line_override(
                self.exchange_times_line.items@,
                stop.id,
                j1.administration@,
                j2.administration@,
            ) {
                Some(e) => e.duration as int,
                None => match stop.exchange_time {
                    Some(pair) => pair.1 as int,
                    None => self.default_exchange_time.1 as int,
                },
            },
        }
    }

    /// The first stored journey-pair override for (`stop`, `j1`, `j2`).
    fn find_journey_override(&self, stop: i32, j1: i32, j2: i32) -> (r: Option<&ExchangeTimeJourney>)
        ensures
            match r {
                Some(e) => spec_first_journey_override(
                    self.exchange_times_journey.items@,
                    stop,
                    j1,
                    j2,
                ) == Some(*e),
                None => spec_first_journey_override(
                    self.exchange_times_journey.items@,
                    stop,
                    j1,
                    j2,
                ) is None,
            },
    {
        let items = &self.exchange_times_journey.items;
        let n = items.len();
        let mut i: usize = 0;
        proof {
            assert(items@.skip(0) =~= items@);
        }
        while i < n
            invariant
                items@ == self.exchange_times_journey.items@,
                n == items@.len(),
                i <= n,
                spec_first_journey_override(items@, stop, j1, j2) == spec_first_journey_override(
                    items@.skip(i as int),
                    stop,
                    j1,
                    j2,
                ),
            decreases n - i,
        {
            let e = &items[i];
            proof {
                assert(items@.skip(i as int)[0] == items@[i as int]);
                assert(items@.skip(i as int).drop_first() =~= items@.skip(i + 1));
            }
            if e.stop_id == stop && e.journey_id_1 == j1 && e.journey_id_2 == j2 {
                proof {
                    let rest = items@.skip(i as int);
                    assert(journey_override_matches(rest[0], stop, j1, j2));
                    assert(spec_first_journey_override(rest, stop, j1, j2) == Some(rest[0]));
                }
                return Some(e);
            }
            proof {
                let rest = items@.skip(i as int);
                assert(!journey_override_matches(rest[0], stop, j1, j2));
                assert(spec_first_journey_override(rest, stop, j1, j2)
                    == spec_first_journey_override(items@.skip(i + 1), stop, j1, j2));
            }
            i += 1;
        }
        proof {
            assert(items@.skip(n as int) =~= Seq::<ExchangeTimeJourney>::empty());
        }
        None
    }

    /// The first stored line-pair override for `stop` between the
    /// administrations of `j1` and `j2`.
    fn find_line_override(&self, stop: i32, a1: &String, a2: &String) -> (r: Option<
        &ExchangeTimeLine,
    >)
        ensures
            match r {
                Some(e) => spec_first_line_override(
                    self.exchange_times_line.items@,
                    stop,
                    a1@,
                    a2@,
                ) == Some(*e),
                None => spec_first_line_override(
                    self.exchange_times_line.items@,
                    stop,
                    a1@,
                    a2@,
                ) is None,
            },
    {
        let items = &self.exchange_times_line.items;
        let n = items.len();
        let mut i: usize = 0;
        proof {
            assert(items@.skip(0) =~= items@);
        }
        while i < n
            invariant
                items@ == self.exchange_times_line.items@,
                n == items@.len(),
                i <= n,
                spec_first_line_override(items@, stop, a1@, a2@) == spec_first_line_override(
                    items@.skip(i as int),
                    stop,
                    a1@,
                    a2@,
                ),
            decreases n - i,
        {
            let e = &items[i];
            proof {
                assert(items@.skip(i as int)[0] == items@[i as int]);
                assert(items@.skip(i as int).drop_first() =~= items@.skip(i + 1));
            }
            let stop_matches = match e.stop_id {
                Some(s) => s == stop,
                None => true,
            };
            if stop_matches && e.administration_1 == *a1 && e.administration_2 == *a2 {
                proof {
                    let rest = items@.skip(i as int);
                    assert(line_override_matches(rest[0], stop, a1@, a2@));
                    assert(spec_first_line_override(rest, stop, a1@, a2@) == Some(rest[0]));
                }
                return Some(e);
            }
            proof {
                let rest = items@.skip(i as int);
                assert(!line_override_matches(rest[0], stop, a1@, a2@));
                assert(spec_first_line_override(rest, stop, a1@, a2@) == spec_first_line_override(
                    items@.skip(i + 1),
                    stop,
                    a1@,
                    a2@,
                ));
            }
            i += 1;
        }
        proof {
            assert(items@.skip(n as int) =~= Seq::<ExchangeTimeLine>::empty());
        }
        None
    }

    /// The exchange time in minutes to continue from `j1` onto `j2` at
    /// `stop`, resolved with the precedence rule: journey-pair override,
    /// then line-pair override, then the stop's pair, then the default.
    pub fn exchange_time_between(&self, stop: &Stop, j1: &Journey, j2: &Journey) -> (r: i16)
        ensures
            r as int == self.spec_exchange_time(*stop, *j1, *j2),
    {
        if let Some(e) = self.find_journey_override(stop.id, j1.id, j2.id) {
            return e.duration;
        }
        if let Some(e) = self.find_line_override(stop.id, &j1.administration, &j2.administration) {
            return e.duration;
        }
        match stop.exchange_time {
            Some(pair) => pair.1,
            None => self.default_exchange_time.1,
        }
    }
}

/// Copies an id list.
fn copy_ids(ids: &Vec<i32>) -> (r: Vec<i32>)
    ensures
        r@ == ids@,
{
    let mut out: Vec<i32> = Vec::new();
    let n = ids.len();
    let mut i: usize = 0;
    while i < n
        invariant
            n == ids@.len(),
            i <= n,
            out@ == ids@.take(i as int),
        decreases n - i,
    {
        out.push(ids[i]);
        proof {
            assert(out@ =~= ids@.take(i + 1));
        }
        i += 1;
    }
    proof {
        assert(out@ =~= ids@);
    }
    out
}

/// The id of the first bit-field whose bit sequence does not cover the
/// validity window exactly, if any.
fn check_bit_fields(window_len: usize, bfs: &IndexedStore<BitField>) -> (r: Option<i32>)
    requires
        bfs.wf(),
    ensures
        match r {
            Some(_) => exists|i: int|
                0 <= i < bfs.items@.len() && (#[trigger] bfs.items@[i]).bits@.len() != window_len,
            None => forall|i: int|
                0 <= i < bfs.items@.len() ==> (#[trigger] bfs.items@[i]).bits@.len() == window_len,
        },
{
    let n = bfs.items.len();
    let mut i: usize = 0;
    while i < n
        invariant
            n == bfs.items@.len(),
            i <= n,
            forall|t: int| 0 <= t < i ==> (#[trigger] bfs.items@[t]).bits@.len() == window_len,
        decreases n - i,
    {
        if bfs.items[i].bits.len() != window_len {
            return Some(bfs.items[i].id);
        }
        i += 1;
    }
    None
}

/// The id of the first connection referencing an unknown stop, if any.
fn check_connections(stops: &IndexedStore<Stop>, conns: &IndexedStore<StopConnection>) -> (r: Option<
    i32,
>)
    requires
        stops.wf(),
        conns.wf(),
    ensures
        match r {
            Some(_) => exists|i: int|
                0 <= i < conns.items@.len() && !{
                    let c = #[trigger] conns.items@[i];
                    stops.spec_contains_key(c.stop_id_1 as int) && stops.spec_contains_key(
                        c.stop_id_2 as int,
                    )
                },
            None => forall|i: int|
                0 <= i < conns.items@.len() ==> {
                    let c = #[trigger] conns.items@[i];
                    stops.spec_contains_key(c.stop_id_1 as int) && stops.spec_contains_key(
                        c.stop_id_2 as int,
                    )
                },
        },
{
    let n = conns.items.len();
    let mut i: usize = 0;
    while i < n
        invariant
            stops.wf(),
            conns.wf(),
            n == conns.items@.len(),
            i <= n,
            forall|t: int|
                0 <= t < i ==> {
                    let c = #[trigger] conns.items@[t];
                    stops.spec_contains_key(c.stop_id_1 as int) && stops.spec_contains_key(
                        c.stop_id_2 as int,
                    )
                },
        decreases n - i,
    {
        let c = &conns.items[i];
        if !stops.contains_key(c.stop_id_1) || !stops.contains_key(c.stop_id_2) {
            return Some(c.id);
        }
        i += 1;
    }
    None
}

/// The id of the first journey referencing an unknown bit-field or stop,
/// if any.
fn check_journeys(
    stops: &IndexedStore<Stop>,
    bfs: &IndexedStore<BitField>,
    js: &IndexedStore<Journey>,
) -> (r: Option<i32>)
    requires
        stops.wf(),
        bfs.wf(),
        js.wf(),
    ensures
        match r {
            Some(_) => exists|i: int|
                0 <= i < js.items@.len() && !{
                    let j = #[trigger] js.items@[i];
                    bfs.spec_contains_key(j.bit_field_id as int) && forall|p: int|
                        0 <= p < j.visits@.len() ==> stops.spec_contains_key(
                            (#[trigger] j.visits@[p]).stop_id as int,
                        )
                },
            None => forall|i: int|
                0 <= i < js.items@.len() ==> {
                    let j = #[trigger] js.items@[i];
                    bfs.spec_contains_key(j.bit_field_id as int) && forall|p: int|
                        0 <= p < j.visits@.len() ==> stops.spec_contains_key(
                            (#[trigger] j.visits@[p]).stop_id as int,
                        )
                },
        },
{
    let n = js.items.len();
    let mut i: usize = 0;
    while i < n
        invariant
            stops.wf(),
            bfs.wf(),
            js.wf(),
            n == js.items@.len(),
            i <= n,
            forall|t: int|
                0 <= t < i ==> {
                    let j = #[trigger] js.items@[t];
                    bfs.spec_contains_key(j.bit_field_id as int) && forall|p: int|
                        0 <= p < j.visits@.len() ==> stops.spec_contains_key(
                            (#[trigger] j.visits@[p]).stop_id as int,
                        )
                },
        decreases n - i,
    {
        let j = &js.items[i];
        if !bfs.contains_key(j.bit_field_id) {
            return Some(j.id);
        }
        let m = j.visits.len();
        let mut p: usize = 0;
        while p < m
            invariant
                stops.wf(),
                n == js.items@.len(),
                i < n,
                j == js.items@[i as int],
                bfs.spec_contains_key(j.bit_field_id as int),
                m == j.visits@.len(),
                p <= m,
                forall|q: int|
                    0 <= q < p ==> stops.spec_contains_key(
                        (#[trigger] j.visits@[q]).stop_id as int,
                    ),
            decreases m - p,
        {
            if !stops.contains_key(j.visits[p].stop_id) {
                proof {
                    let jj = js.items@[i as int];
                    assert(!stops.spec_contains_key((jj.visits@[p as int]).stop_id as int));
                    assert(exists|q: int|
                        0 <= q < jj.visits@.len() && !stops.spec_contains_key(
                            (#[trigger] jj.visits@[q]).stop_id as int,
                        ));
                    assert(!{
                        bfs.spec_contains_key(jj.bit_field_id as int) && forall|q: int|
                            0 <= q < jj.visits@.len() ==> stops.spec_contains_key(
                                (#[trigger] jj.visits@[q]).stop_id as int,
                            )
                    });
                    assert(exists|t: int|
                        0 <= t < js.items@.len() && !{
                            let x = #[trigger] js.items@[t];
                            bfs.spec_contains_key(x.bit_field_id as int) && forall|p2: int|
                                0 <= p2 < x.visits@.len() ==> stops.spec_contains_key(
                                    (#[trigger] x.visits@[p2]).stop_id as int,
                                )
                        });
                }
                return Some(j.id);
            }
            p += 1;
        }
        i += 1;
    }
    None
}

/// Derives the stop → bit-fields index: each stop's entry collects the
/// bit-field ids of the journeys calling there.
fn build_stop_bit_fields_index(js: &IndexedStore<Journey>) -> (r: IdIndex)
    requires
        js.wf(),
    ensures
        r.wf(),
        forall|s: i32, b: i32|
            #[trigger] r.spec_has(spec_id_key(s), b) <==> stopbf_in_prefix(
                *js,
                js.items@.len() as int,
                s,
                b,
            ),
{
    let mut idx = IdIndex::new();
    let n = js.items.len();
    let mut i: usize = 0;
    while i < n
        invariant
            js.wf(),
            n == js.items@.len(),
            i <= n,
            idx.wf(),
            forall|s: i32, b: i32|
                #[trigger] idx.spec_has(spec_id_key(s), b) <==> stopbf_in_prefix(
                    *js,
                    i as int,
                    s,
                    b,
                ),
        decreases n - i,
    {
        let j = &js.items[i];
        let m = j.visits.len();
        let mut p: usize = 0;
        while p < m
            invariant
                js.wf(),
                n == js.items@.len(),
                i < n,
                j == js.items@[i as int],
                m == j.visits@.len(),
                p <= m,
                idx.wf(),
                forall|s: i32, b: i32|
                    #[trigger] idx.spec_has(spec_id_key(s), b) <==> stopbf_in_prefix(
                        *js,
                        i as int,
                        s,
                        b,
                    ) || (b == j.bit_field_id && visit_in_prefix(*j, p as int, s)),
            decreases m - p,
        {
            let ghost pre = idx;
            let stop_p = j.visits[p].stop_id;
            idx.add(id_key(stop_p), j.bit_field_id);
            proof {
                assert forall|s: i32, b: i32| #[trigger] idx.spec_has(spec_id_key(s), b)
                    <==> stopbf_in_prefix(*js, i as int, s, b) || (b == j.bit_field_id
                    && visit_in_prefix(*j, p + 1, s)) by {
                    if spec_id_key(s) == spec_id_key(stop_p) {
                        lemma_id_key_injective(s, stop_p);
                    }
                    if idx.spec_has(spec_id_key(s), b) {
                        if !pre.spec_has(spec_id_key(s), b) {
                            assert(s == stop_p && b == j.bit_field_id);
                            assert(j.visits@[p as int].stop_id == s);
                            assert(visit_in_prefix(*j, p + 1, s));
                        } else {
                            if b == j.bit_field_id && visit_in_prefix(*j, p as int, s) {
                                let q = choose|q: int|
                                    0 <= q < p && (#[trigger] j.visits@[q]).stop_id == s;
                                assert(visit_in_prefix(*j, p + 1, s));
                            }
                        }
                    }
                    if stopbf_in_prefix(*js, i as int, s, b) {
                        assert(pre.spec_has(spec_id_key(s), b));
                        assert(idx.spec_has(spec_id_key(s), b));
                    }
                    if b == j.bit_field_id && visit_in_prefix(*j, p + 1, s) {
                        let q = choose|q: int| 0 <= q < p + 1 && (#[trigger] j.visits@[q]).stop_id == s;
                        if q < p {
                            assert(visit_in_prefix(*j, p as int, s));
                            assert(pre.spec_has(spec_id_key(s), b));
                            assert(idx.spec_has(spec_id_key(s), b));
                        } else {
                            assert(s == stop_p);
                            assert(idx.spec_has(spec_id_key(s), b));
                        }
                    }
                }
            }
            p += 1;
        }
        proof {
            assert forall|s: i32, b: i32| #[trigger] idx.spec_has(spec_id_key(s), b)
                <==> stopbf_in_prefix(*js, i + 1, s, b) by {
                if idx.spec_has(spec_id_key(s), b) {
                    if stopbf_in_prefix(*js, i as int, s, b) {
                        let t = choose|t: int|
                            0 <= t < i && (#[trigger] js.items@[t]).spec_visits_stop(s as int)
                                && js.items@[t].bit_field_id == b;
                        assert(stopbf_in_prefix(*js, i + 1, s, b));
                    } else {
                        assert(b == j.bit_field_id && visit_in_prefix(*j, m as int, s));
                        let q = choose|q: int| 0 <= q < m && (#[trigger] j.visits@[q]).stop_id == s;
                        assert(js.items@[i as int].spec_visits_stop(s as int));
                        assert(stopbf_in_prefix(*js, i + 1, s, b));
                    }
                }
                if stopbf_in_prefix(*js, i + 1, s, b) {
                    let t = choose|t: int|
                        0 <= t < i + 1 && (#[trigger] js.items@[t]).spec_visits_stop(s as int)
                            && js.items@[t].bit_field_id == b;
                    if t < i {
                        assert(stopbf_in_prefix(*js, i as int, s, b));
                    } else {
                        let q = choose|q: int|
                            0 <= q < j.visits@.len() && (#[trigger] j.visits@[q]).stop_id == s as int;
                        assert(visit_in_prefix(*j, m as int, s));
                    }
                    assert(idx.spec_has(spec_id_key(s), b));
                }
            }
        }
        i += 1;
    }
    idx
}

/// Derives the (stop, bit-field) → journeys index: the ids of the journeys
/// departing that stop under that calendar entry.
fn build_journeys_index(js: &IndexedStore<Journey>) -> (r: IdIndex)
    requires
        js.wf(),
    ensures
        r.wf(),
        forall|s: i32, b: i32, jid: i32|
            #[trigger] r.spec_has(spec_pair_key(s, b), jid) <==> match js.spec_find(jid as int) {
                Some(j) => j.spec_departs_from(s as int) && j.bit_field_id == b,
                None => false,
            },
{
    let mut idx = IdIndex::new();
    let n = js.items.len();
    let mut i: usize = 0;
    while i < n
        invariant
            js.wf(),
            n == js.items@.len(),
            i <= n,
            idx.wf(),
            forall|s: i32, b: i32, jid: i32|
                #[trigger] idx.spec_has(spec_pair_key(s, b), jid) <==> dep_in_prefix(
                    *js,
                    i as int,
                    s,
                    b,
                    jid,
                ),
        decreases n - i,
    {
        let j = &js.items[i];
        let m = j.visits.len();
        let mut p: usize = 0;
        while p < m
            invariant
                js.wf(),
                n == js.items@.len(),
                i < n,
                j == js.items@[i as int],
                m == j.visits@.len(),
                p <= m,
                idx.wf(),
                forall|s: i32, b: i32, jid: i32|
                    #[trigger] idx.spec_has(spec_pair_key(s, b), jid) <==> dep_in_prefix(
                        *js,
                        i as int,
                        s,
                        b,
                        jid,
                    ) || (jid == j.id && b == j.bit_field_id && dep_visit_in_prefix(*j, p as int, s)),
            decreases m - p,
        {
            let ghost pre = idx;
            let visit = j.visits[p];
            if visit.departure_time.is_some() {
                idx.add(pair_key(visit.stop_id, j.bit_field_id), j.id);
            }
            proof {
                let stop_p = j.visits@[p as int].stop_id;
                assert forall|s: i32, b: i32, jid: i32| #[trigger] idx.spec_has(
                    spec_pair_key(s, b),
                    jid,
                ) <==> dep_in_prefix(*js, i as int, s, b, jid) || (jid == j.id && b
                    == j.bit_field_id && dep_visit_in_prefix(*j, p + 1, s)) by {
                    if spec_pair_key(s, b) == spec_pair_key(stop_p, j.bit_field_id) {
                        lemma_pair_key_injective(s, b, stop_p, j.bit_field_id);
                    }
                    if idx.spec_has(spec_pair_key(s, b), jid) {
                        if !pre.spec_has(spec_pair_key(s, b), jid) {
                            assert(s == stop_p && b == j.bit_field_id && jid == j.id);
                            assert(j.visits@[p as int].stop_id == s
                                && j.visits@[p as int].departure_time is Some);
                            assert(dep_visit_in_prefix(*j, p + 1, s));
                        } else {
                            if jid == j.id && b == j.bit_field_id && dep_visit_in_prefix(
                                *j,
                                p as int,
                                s,
                            ) {
                                let q = choose|q: int|
                                    0 <= q < p && (#[trigger] j.visits@[q]).stop_id == s
                                        && j.visits@[q].departure_time is Some;
                                assert(dep_visit_in_prefix(*j, p + 1, s));
                            }
                        }
                    }
                    if dep_in_prefix(*js, i as int, s, b, jid) {
                        assert(pre.spec_has(spec_pair_key(s, b), jid));
                        assert(idx.spec_has(spec_pair_key(s, b), jid));
                    }
                    if jid == j.id && b == j.bit_field_id && dep_visit_in_prefix(*j, p + 1, s) {
                        let q = choose|q: int|
                            0 <= q < p + 1 && (#[trigger] j.visits@[q]).stop_id == s
                                && j.visits@[q].departure_time is Some;
                        if q < p {
                            assert(dep_visit_in_prefix(*j, p as int, s));
                            assert(pre.spec_has(spec_pair_key(s, b), jid));
                            assert(idx.spec_has(spec_pair_key(s, b), jid));
                        } else {
                            assert(s == stop_p);
                            assert(idx.spec_has(spec_pair_key(s, b), jid));
                        }
                    }
                }
            }
            p += 1;
        }
        proof {
            assert forall|s: i32, b: i32, jid: i32| #[trigger] idx.spec_has(spec_pair_key(s, b), jid)
                <==> dep_in_prefix(*js, i + 1, s, b, jid) by {
                if idx.spec_has(spec_pair_key(s, b), jid) {
                    if dep_in_prefix(*js, i as int, s, b, jid) {
                        let t = choose|t: int|
                            0 <= t < i && (#[trigger] js.items@[t]).id == jid
                                && js.items@[t].spec_departs_from(s as int) && js.items@[t].bit_field_id
                                == b;
                        assert(dep_in_prefix(*js, i + 1, s, b, jid));
                    } else {
                        let q = choose|q: int|
                            0 <= q < m && (#[trigger] j.visits@[q]).stop_id == s
                                && j.visits@[q].departure_time is Some;
                        assert(js.items@[i as int].spec_departs_from(s as int));
                        assert(dep_in_prefix(*js, i + 1, s, b, jid));
                    }
                }
                if dep_in_prefix(*js, i + 1, s, b, jid) {
                    let t = choose|t: int|
                        0 <= t < i + 1 && (#[trigger] js.items@[t]).id == jid
                            && js.items@[t].spec_departs_from(s as int) && js.items@[t].bit_field_id
                            == b;
                    if t < i {
                        assert(dep_in_prefix(*js, i as int, s, b, jid));
                    } else {
                        let q = choose|q: int|
                            0 <= q < j.visits@.len() && (#[trigger] j.visits@[q]).stop_id == s as int
                                && j.visits@[q].departure_time is Some;
                        assert(dep_visit_in_prefix(*j, m as int, s));
                    }
                    assert(idx.spec_has(spec_pair_key(s, b), jid));
                }
            }
        }
        i += 1;
    }
    proof {
        assert forall|s: i32, b: i32, jid: i32| #[trigger] idx.spec_has(spec_pair_key(s, b), jid)
            <==> match js.spec_find(jid as int) {
            Some(j) => j.spec_departs_from(s as int) && j.bit_field_id == b,
            None => false,
        } by {
            if idx.spec_has(spec_pair_key(s, b), jid) {
                let t = choose|t: int|
                    0 <= t < n && (#[trigger] js.items@[t]).id == jid && js.items@[t].spec_departs_from(
                        s as int,
                    ) && js.items@[t].bit_field_id == b;
                crate::store::lemma_find_stored(*js, t);
            }
            if js.spec_find(jid as int) matches Some(j) && j.spec_departs_from(s as int)
                && j.bit_field_id == b {
                let t = choose|t: int|
                    0 <= t < js.items@.len() && #[trigger] js.items@[t].key() == jid as int;
                assert(js.items@[t].id == jid);
                assert(dep_in_prefix(*js, n as int, s, b, jid));
            }
        }
    }
    idx
}

/// Derives the stop → connections index: each stop's entry collects the
/// ids of the connections touching it at either endpoint.
fn build_connections_index(conns: &IndexedStore<StopConnection>) -> (r: IdIndex)
    requires
        conns.wf(),
    ensures
        r.wf(),
        forall|s: i32, cid: i32|
            #[trigger] r.spec_has(spec_id_key(s), cid) <==> match conns.spec_find(cid as int) {
                Some(c) => c.spec_touches(s as int),
                None => false,
            },
{
    let mut idx = IdIndex::new();
    let n = conns.items.len();
    let mut i: usize = 0;
    while i < n
        invariant
            conns.wf(),
            n == conns.items@.len(),
            i <= n,
            idx.wf(),
            forall|s: i32, cid: i32|
                #[trigger] idx.spec_has(spec_id_key(s), cid) <==> conn_in_prefix(
                    *conns,
                    i as int,
                    s,
                    cid,
                ),
        decreases n - i,
    {
        let ghost pre = idx;
        let c = &conns.items[i];
        let s1 = c.stop_id_1;
        let s2 = c.stop_id_2;
        idx.add(id_key(s1), c.id);
        let ghost mid = idx;
        if s2 != s1 {
            idx.add(id_key(s2), c.id);
        }
        proof {
            assert forall|s: i32, cid: i32| #[trigger] idx.spec_has(spec_id_key(s), cid)
                <==> conn_in_prefix(*conns, i + 1, s, cid) by {
                if spec_id_key(s) == spec_id_key(s1) {
                    lemma_id_key_injective(s, s1);
                }
                if spec_id_key(s) == spec_id_key(s2) {
                    lemma_id_key_injective(s, s2);
                }
                if idx.spec_has(spec_id_key(s), cid) {
                    if pre.spec_has(spec_id_key(s), cid) {
                        assert(conn_in_prefix(*conns, i as int, s, cid));
                        let t = choose|t: int|
                            0 <= t < i && (#[trigger] conns.items@[t]).id == cid
                                && conns.items@[t].spec_touches(s as int);
                        assert(conn_in_prefix(*conns, i + 1, s, cid));
                    } else {
                        assert(cid == c.id && (s == s1 || s == s2));
                        assert(conns.items@[i as int].id == cid);
                        assert(conn_in_prefix(*conns, i + 1, s, cid));
                    }
                }
                if conn_in_prefix(*conns, i + 1, s, cid) {
                    let t = choose|t: int|
                        0 <= t < i + 1 && (#[trigger] conns.items@[t]).id == cid
                            && conns.items@[t].spec_touches(s as int);
                    if t < i {
                        assert(conn_in_prefix(*conns, i as int, s, cid));
                        assert(pre.spec_has(spec_id_key(s), cid));
                        assert(idx.spec_has(spec_id_key(s), cid));
                    } else {
                        assert(s == s1 || s == s2);
                        assert(idx.spec_has(spec_id_key(s), cid));
                    }
                }
            }
        }
        i += 1;
    }
    proof {
        assert forall|s: i32, cid: i32| #[trigger] idx.spec_has(spec_id_key(s), cid)
            <==> match conns.spec_find(cid as int) {
            Some(c) => c.spec_touches(s as int),
            None => false,
        } by {
            if idx.spec_has(spec_id_key(s), cid) {
                let t = choose|t: int|
                    0 <= t < n && (#[trigger] conns.items@[t]).id == cid
                        && conns.items@[t].spec_touches(s as int);
                crate::store::lemma_find_stored(*conns, t);
            }
            if conns.spec_find(cid as int) matches Some(c) && c.spec_touches(s as int) {
                let t = choose|t: int|
                    0 <= t < conns.items@.len() && #[trigger] conns.items@[t].key() == cid as int;
                assert(conns.items@[t].id == cid);
                assert(conn_in_prefix(*conns, n as int, s, cid));
            }
        }
    }
    idx
}

} // verus!
