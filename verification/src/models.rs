//! The entity types of the timetable data model.
//!
//! Every cross-reference between entities is an integer id resolved on
//! demand through the stores, so the whole model is a plain value: built
//! once by the ingestion collaborator, read-only afterwards.

use vstd::prelude::*;

verus! {

/// The error taxonomy of the library.
///
/// `DataIntegrity` marks an id referenced somewhere that is absent from its
/// owning store: fatal, surfaced when the timetable is assembled, never
/// skipped. `NotFound` marks a query against an unknown stop id: an ordinary
/// typed failure. `Configuration` marks query parameters with which no
/// search step could ever run.
#[derive(Clone, Copy, Debug, PartialEq, Eq, Structural)]
pub enum HrdfError {
    DataIntegrity { id: i32 },
    NotFound { id: i32 },
    Configuration,
}

/// A civil date, carried as a day number in a fixed, epoch-based day count.
///
/// The calendar logic only ever subtracts two dates to obtain an offset in
/// days, so the encoding of the epoch is immaterial; the ingestion
/// collaborator converts year-month-day values to day numbers and back.
#[derive(Clone, Copy, Debug, PartialEq, Eq, Structural, Hash)]
pub struct Date {
    pub day_number: i32,
}

impl Date {
    /// The date `days` days after this one, as a mathematical value.
    pub open spec fn spec_plus_days(self, days: int) -> int {
        self.day_number + days
    }

    pub fn new(day_number: i32) -> (r: Date)
        ensures
            r.day_number == day_number,
    {
        Date { day_number }
    }
}

/// An entity with a unique primary key.
pub trait Keyed: Sized {
    /// The primary key, as a mathematical value.
    spec fn key(&self) -> int;

    /// The primary key.
    fn id(&self) -> (r: i32)
        ensures
            r as int == self.key(),
    ;
}

/// An operating calendar entry: one bit per day of the timetable's validity
/// window. Bit `d` is set iff the service runs on `start_date + d` days.
/// Days outside the window carry no bit and count as "not operating".
#[derive(Clone, Debug)]
pub struct BitField {
    pub id: i32,
    pub bits: Vec<bool>,
}

impl Keyed for BitField {
    open spec fn key(&self) -> int {
        self.id as int
    }

    fn id(&self) -> i32 {
        self.id
    }
}

impl BitField {
    /// Whether the bit at `offset` days into the validity window is set.
    /// An offset past the end of the bit sequence is not an error: it is
    /// simply not an operating day.
    pub open spec fn spec_is_set(self, offset: int) -> bool {
        0 <= offset < self.bits@.len() && self.bits@[offset]
    }

    pub fn new(id: i32, bits: Vec<bool>) -> (r: BitField)
        ensures
            r.id == id,
            r.bits@ == bits@,
    {
        BitField { id, bits }
    }

    /// True iff the service operates `offset` days after the window start.
    pub fn is_set(&self, offset: usize) -> (r: bool)
        ensures
            r == self.spec_is_set(offset as int),
    {
        offset < self.bits.len() && self.bits[offset]
    }
}

/// A stop of the network. Immutable after load. Coordinates are carried as
/// fixed-point integers (LV95 in centimetres, WGS84 in microdegrees), as
/// handed over by the ingestion collaborator; the search never reads them.
#[derive(Clone, Debug)]
pub struct Stop {
    pub id: i32,
    pub name: String,
    pub long_name: Option<String>,
    pub abbreviation: Option<String>,
    pub synonyms: Vec<String>,
    pub lv95_coordinates: Option<(i64, i64)>,
    pub wgs84_coordinates: Option<(i64, i64)>,
    pub exchange_priority: Option<i16>,
    pub exchange_flag: Option<i16>,
    /// Minutes needed to change between two rides here, as the pair
    /// (inter-city services, all other services). Falls back to the
    /// timetable's default pair when absent.
    pub exchange_time: Option<(i16, i16)>,
    pub sloid: Option<String>,
    pub boarding_areas: Vec<String>,
}

impl Keyed for Stop {
    open spec fn key(&self) -> int {
        self.id as int
    }

    fn id(&self) -> i32 {
        self.id
    }
}

impl Stop {
    pub fn new(id: i32, name: String) -> (r: Stop)
        ensures
            r.id == id,
            r.name == name,
            r.exchange_time is None,
    {
        Stop {
            id,
            name,
            long_name: None,
            abbreviation: None,
            synonyms: Vec::new(),
            lv95_coordinates: None,
            wgs84_coordinates: None,
            exchange_priority: None,
            exchange_flag: None,
            exchange_time: None,
            sloid: None,
            boarding_areas: Vec::new(),
        }
    }
}

/// A fixed-duration walking/transfer edge between two stops, independent of
/// any calendar.
#[derive(Clone, Debug)]
pub struct StopConnection {
    pub id: i32,
    pub stop_id_1: i32,
    pub stop_id_2: i32,
    /// Transfer duration in minutes.
    pub duration: u16,
    pub attributes: Vec<i32>,
}

impl Keyed for StopConnection {
    open spec fn key(&self) -> int {
        self.id as int
    }

    fn id(&self) -> i32 {
        self.id
    }
}

impl StopConnection {
    /// Whether this edge has `stop_id` as one of its two endpoints.
    pub open spec fn spec_touches(self, stop_id: int) -> bool {
        self.stop_id_1 == stop_id || self.stop_id_2 == stop_id
    }

    pub fn new(id: i32, stop_id_1: i32, stop_id_2: i32, duration: u16) -> (r: StopConnection)
        ensures
            r.id == id,
            r.stop_id_1 == stop_id_1,
            r.stop_id_2 == stop_id_2,
            r.duration == duration,
    {
        StopConnection { id, stop_id_1, stop_id_2, duration, attributes: Vec::new() }
    }
}

/// One visit of a journey at a stop. Times are minutes from midnight of the
/// operating day; a value past 1439 marks a visit after midnight.
#[derive(Clone, Copy, Debug, PartialEq, Eq, Structural, Hash)]
pub struct JourneyVisit {
    pub stop_id: i32,
    pub arrival_time: Option<u32>,
    pub departure_time: Option<u32>,
}

/// A scheduled ride: an ordered stop-visit sequence under one operating
/// calendar entry.
#[derive(Clone, Debug)]
pub struct Journey {
    pub id: i32,
    /// The operating authority's code.
    pub administration: String,
    /// The calendar entry selecting the journey's operating days.
    pub bit_field_id: i32,
    pub visits: Vec<JourneyVisit>,
}

impl Keyed for Journey {
    open spec fn key(&self) -> int {
        self.id as int
    }

    fn id(&self) -> i32 {
        self.id
    }
}

impl Journey {
    /// Whether the journey calls at `stop_id` at all.
    pub open spec fn spec_visits_stop(self, stop_id: int) -> bool {
        exists|p: int| 0 <= p < self.visits@.len() && #[trigger] self.visits@[p].stop_id == stop_id
    }

    /// Whether the journey departs from `stop_id`: it calls there with a
    /// scheduled departure time.
    pub open spec fn spec_departs_from(self, stop_id: int) -> bool {
        exists|p: int|
            0 <= p < self.visits@.len() && (#[trigger] self.visits@[p]).stop_id == stop_id
                && self.visits@[p].departure_time is Some
    }

    /// The canonical fingerprint of continuing this journey from
    /// `arrival_stop_id`: two partial routes that rode this journey and
    /// now stand at that stop share it, so their common continuation is
    /// derived at most once. It exists exactly when the journey calls at
    /// the stop, and is collision-free across (journey, stop) pairs.
    pub fn hash_route(&self, arrival_stop_id: i32) -> (r: Option<u64>)
        ensures
            r == if self.spec_visits_stop(arrival_stop_id as int) {
                Some(crate::index::spec_pair_key(self.id, arrival_stop_id))
            } else {
                None::<u64>
            },
    {
        let n = self.visits.len();
        let mut p: usize = 0;
        while p < n
            invariant
                n == self.visits@.len(),
                p <= n,
                forall|q: int| 0 <= q < p ==> (#[trigger] self.visits@[q]).stop_id != arrival_stop_id,
            decreases n - p,
        {
            if self.visits[p].stop_id == arrival_stop_id {
                return Some(crate::index::pair_key(self.id, arrival_stop_id));
            }
            p += 1;
        }
        None
    }

    pub fn new(id: i32, administration: String, bit_field_id: i32, visits: Vec<JourneyVisit>) -> (r:
        Journey)
        ensures
            r.id == id,
            r.administration == administration,
            r.bit_field_id == bit_field_id,
            r.visits@ == visits@,
    {
        Journey { id, administration, bit_field_id, visits }
    }
}

/// An exchange-time override for one ordered pair of journeys at one stop.
/// It takes precedence over line-pair overrides and over the stop's own
/// exchange-time pair.
#[derive(Clone, Debug)]
pub struct ExchangeTimeJourney {
    pub id: i32,
    pub stop_id: i32,
    pub journey_id_1: i32,
    pub journey_id_2: i32,
    /// Minimum transfer duration in minutes.
    pub duration: i16,
    pub is_guaranteed: bool,
    pub bit_field_id: Option<i32>,
}

impl Keyed for ExchangeTimeJourney {
    open spec fn key(&self) -> int {
        self.id as int
    }

    fn id(&self) -> i32 {
        self.id
    }
}

/// An exchange-time override for an ordered pair of administrations,
/// either at one stop or (with no stop) anywhere. It yields to journey-pair
/// overrides and takes precedence over the stop's own exchange-time pair.
#[derive(Clone, Debug)]
pub struct ExchangeTimeLine {
    pub id: i32,
    /// The stop this override applies at; `None` means every stop.
    pub stop_id: Option<i32>,
    pub administration_1: String,
    pub administration_2: String,
    /// Minimum transfer duration in minutes.
    pub duration: i16,
    pub is_guaranteed: bool,
}

impl Keyed for ExchangeTimeLine {
    open spec fn key(&self) -> int {
        self.id as int
    }

    fn id(&self) -> i32 {
        self.id
    }
}

/// The timetable's own description: its name, creation timestamp, version,
/// provider, and the validity window over which every bit-field is defined.
#[derive(Clone, Debug)]
pub struct TimetableMetadata {
    pub name: String,
    pub created_at: String,
    pub version: String,
    pub provider: String,
    pub start_date: Date,
    pub end_date: Date,
}

} // verus!
