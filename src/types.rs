use vstd::prelude::*;

verus! {

/// Identifier of a charging station.
#[derive(Clone, Copy, Debug, PartialEq, Eq, Structural, PartialOrd, Ord, Hash)]
pub struct StationId(pub u32);

/// Identifier of a single charger.
#[derive(Clone, Copy, Debug, PartialEq, Eq, Structural, PartialOrd, Ord, Hash)]
pub struct ChargerId(pub u32);

/// Half-open range of ticks `[start, end)`; it is valid only when `end > start`.
#[derive(Clone, Copy, Debug, PartialEq, Eq, Structural)]
pub struct Interval {
    pub start: u64,
    pub end: u64,
}

/// One availability observation of a charger over an interval.
#[derive(Clone, Copy, Debug, PartialEq, Eq, Structural)]
pub struct ChargerReport {
    pub charger: ChargerId,
    pub interval: Interval,
    pub up: bool,
}

/// A station and the chargers it owns.
#[derive(Clone, Debug)]
pub struct Station {
    pub id: StationId,
    pub chargers: Vec<ChargerId>,
}

impl View for Station {
    type V = (StationId, Seq<ChargerId>);

    open spec fn view(&self) -> (StationId, Seq<ChargerId>) {
        (self.id, self.chargers@)
    }
}

/// The stations of a list, each seen as its identifier and charger sequence.
pub open spec fn stations_view(s: Seq<Station>) -> Seq<(StationId, Seq<ChargerId>)> {
    s.map_values(|st: Station| st@)
}

} // verus!
