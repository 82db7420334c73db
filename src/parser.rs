use vstd::prelude::*;
use std::collections::BTreeSet;
use vstd::string::StringExecFns;
use crate::text::{
    lines, matches_text, numeral_value, parse_numeral, split_tokens, tokens, trim, trimmed_bounds,
    views,
};
use crate::types::{ChargerId, ChargerReport, Interval, Station, StationId, stations_view};

verus! {

broadcast use vstd::std_specs::btree::group_btree_axioms, vstd::laws_cmp::group_laws_cmp;

/// Rejection of an input text.
#[derive(Clone, Debug)]
pub enum ParseError {
    /// The text breaks the format; the message says how and on which line.
    InvalidFormat(String),
}

/// The part of the input that a line falls in.
#[derive(Clone, Copy, Debug, PartialEq, Eq, Structural)]
pub enum Section {
    Preamble,
    Stations,
    Reports,
}

/// What is known after reading a run of lines.
pub struct ParseState {
    pub section: Section,
    pub saw_stations: bool,
    pub saw_reports: bool,
    pub stations: Seq<(StationId, Seq<ChargerId>)>,
    pub reports: Seq<ChargerReport>,
    pub station_ids: Set<u32>,
    pub charger_ids: Set<u32>,
}

/// Nothing read yet: no section open, no header seen.
pub open spec fn initial_state() -> ParseState {
    ParseState {
        section: Section::Preamble,
        saw_stations: false,
        saw_reports: false,
        stations: Seq::empty(),
        reports: Seq::empty(),
        station_ids: Set::empty(),
        charger_ids: Set::empty(),
    }
}

/// The header line of the station section.
pub open spec fn stations_header() -> Seq<char> {
    "[Stations]"@
}

/// The header line of the report section.
pub open spec fn reports_header() -> Seq<char> {
    "[Charger Availability Reports]"@
}

/// A token read as a `u32` numeral.
pub open spec fn u32_value(tok: Seq<char>) -> Option<u32> {
    match numeral_value(tok, 0xFFFF_FFFF) {
        Some(v) => Some(v as u32),
        None => None,
    }
}

/// A token read as a `u64` numeral.
pub open spec fn u64_value(tok: Seq<char>) -> Option<u64> {
    numeral_value(tok, 0xFFFF_FFFF_FFFF_FFFF)
}

/// The charger identifiers of a station line, none repeated and none in `seen`.
pub open spec fn charger_list(seen: Set<u32>, toks: Seq<Seq<char>>) -> Option<Seq<u32>>
    decreases toks.len(),
{
    if toks.len() == 0 {
        Some(Seq::empty())
    } else {
        match charger_list(seen, toks.drop_last()) {
            None => None,
            Some(p) => match u32_value(toks.last()) {
                None => None,
                Some(c) => if p.contains(c) || seen.contains(c) {
                    None
                } else {
                    Some(p.push(c))
                },
            },
        }
    }
}

/// Reading a line of the station section: a new station identifier, then at least one
/// charger identifier that no station has yet.
pub open spec fn after_station_line(st: ParseState, toks: Seq<Seq<char>>) -> Option<ParseState> {
    if toks.len() == 0 {
        None
    } else {
        match u32_value(toks[0]) {
            None => None,
            Some(id) => if st.station_ids.contains(id) {
                None
            } else {
                match charger_list(st.charger_ids, toks.drop_first()) {
                    None => None,
                    Some(cs) => if cs.len() == 0 {
                        None
                    } else {
                        Some(
                            ParseState {
                                stations: st.stations.push(
                                    (StationId(id), cs.map_values(|c: u32| ChargerId(c))),
                                ),
                                station_ids: st.station_ids.insert(id),
                                charger_ids: st.charger_ids.union(cs.to_set()),
                                ..st
                            },
                        )
                    },
                }
            },
        }
    }
}

/// An up flag: `true` or `false`.
pub open spec fn flag_value(tok: Seq<char>) -> Option<bool> {
    if tok == "true"@ {
        Some(true)
    } else if tok == "false"@ {
        Some(false)
    } else {
        None
    }
}

/// Reading a line of the report section: a known charger, a start, a later end and a flag.
pub open spec fn after_report_line(st: ParseState, toks: Seq<Seq<char>>) -> Option<ParseState> {
    if toks.len() != 4 {
        None
    } else {
        match (u32_value(toks[0]), u64_value(toks[1]), u64_value(toks[2]), flag_value(toks[3])) {
            (Some(c), Some(start), Some(end), Some(up)) => if !st.charger_ids.contains(c) || end
                <= start {
                None
            } else {
                Some(
                    ParseState {
                        reports: st.reports.push(
                            ChargerReport {
                                charger: ChargerId(c),
                                interval: Interval { start, end },
                                up,
                            },
                        ),
                        ..st
                    },
                )
            },
            _ => None,
        }
    }
}

/// Reading one line: blank lines are skipped, a header opens its section once, and any
/// other line is read by the rules of the open section.
pub open spec fn after_line(st: ParseState, line: Seq<char>) -> Option<ParseState> {
    let t = trim(line);
    if t.len() == 0 {
        Some(st)
    } else if t == stations_header() {
        if st.saw_stations {
            None
        } else {
            Some(ParseState { section: Section::Stations, saw_stations: true, ..st })
        }
    } else if t == reports_header() {
        if st.saw_reports {
            None
        } else {
            Some(ParseState { section: Section::Reports, saw_reports: true, ..st })
        }
    } else {
        match st.section {
            Section::Preamble => None,
            Section::Stations => after_station_line(st, tokens(line)),
            Section::Reports => after_report_line(st, tokens(line)),
        }
    }
}

/// Reading the lines in order, from the initial state; `None` once one is rejected.
pub open spec fn after_lines(ls: Seq<Seq<char>>) -> Option<ParseState>
    decreases ls.len(),
{
    if ls.len() == 0 {
        Some(initial_state())
    } else {
        match after_lines(ls.drop_last()) {
            None => None,
            Some(st) => after_line(st, ls.last()),
        }
    }
}

/// The stations and reports an input text describes, or `None` when it is rejected: both
/// headers must appear and at least one report must be given.
pub open spec fn parsed(s: Seq<char>) -> Option<(Seq<(StationId, Seq<ChargerId>)>, Seq<ChargerReport>)> {
    match after_lines(lines(s)) {
        None => None,
        Some(st) => if !st.saw_stations || !st.saw_reports || st.reports.len() == 0 {
            None
        } else {
            Some((st.stations, st.reports))
        },
    }
}

proof fn lemma_charger_list_fails(seen: Set<u32>, t: Seq<Seq<char>>, j: int)
    requires
        0 <= j <= t.len(),
        charger_list(seen, t.subrange(0, j)) is None,
    ensures
        charger_list(seen, t) is None,
    decreases t.len(),
{
    if j == t.len() {
        assert(t.subrange(0, j) =~= t);
    } else {
        assert(t.drop_last().subrange(0, j) =~= t.subrange(0, j));
        lemma_charger_list_fails(seen, t.drop_last(), j);
    }
}

/// Line-by-line reader of the input format.
struct Parser {
    section: Section,
    saw_stations: bool,
    saw_reports: bool,
    stations: Vec<Station>,
    reports: Vec<ChargerReport>,
    station_ids: BTreeSet<u32>,
    charger_ids: BTreeSet<u32>,
}

impl Parser {
    spec fn model(&self) -> ParseState {
        ParseState {
            section: self.section,
            saw_stations: self.saw_stations,
            saw_reports: self.saw_reports,
            stations: stations_view(self.stations@),
            reports: self.reports@,
            station_ids: self.station_ids@,
            charger_ids: self.charger_ids@,
        }
    }

    fn new() -> (p: Parser)
        ensures
            p.model() == initial_state(),
    {
        let p = Parser {
            section: Section::Preamble,
            saw_stations: false,
            saw_reports: false,
            stations: Vec::new(),
            reports: Vec::new(),
            station_ids: BTreeSet::new(),
            charger_ids: BTreeSet::new(),
        };
        proof {
            assert(stations_view(p.stations@) =~= Seq::empty());
        }
        p
    }

    fn read_station_line(&mut self, toks: &Vec<Vec<char>>) -> (r: Result<(), &'static str>)
        ensures
            match r {
                Ok(_) => after_station_line(old(self).model(), views(toks@)) == Some(
                    final(self).model(),
                ),
                Err(_) => after_station_line(old(self).model(), views(toks@)) is None,
            },
    {
        let ghost t = views(toks@);
        if toks.len() == 0 {
            return Err("missing station id");
        }
        let id = match parse_numeral(&toks[0], 0xFFFF_FFFF) {
            Some(v) => v as u32,
            None => {
                return Err("invalid station id");
            },
        };
        if self.station_ids.contains(&id) {
            return Err("duplicate station id");
        }
        let ghost seen0 = self.charger_ids@;
        let ghost rest = t.drop_first();
        let ghost mut ids: Seq<u32> = Seq::empty();
        let mut chargers: Vec<ChargerId> = Vec::new();
        let mut j: usize = 1;
        proof {
            assert(rest.subrange(0, 0) =~= Seq::<Seq<char>>::empty());
            assert(ids.to_set() =~= Set::<u32>::empty());
        }
        while j < toks.len()
            invariant
                1 <= j <= toks.len(),
                t == views(toks@),
                rest == t.drop_first(),
                seen0 == old(self).charger_ids@,
                u32_value(t[0]) == Some(id),
                !old(self).station_ids@.contains(id),
                charger_list(seen0, rest.subrange(0, j - 1)) == Some(ids),
                chargers@ == ids.map_values(|c: u32| ChargerId(c)),
                self.charger_ids@ == seen0.union(ids.to_set()),
                self.section == old(self).section,
                self.saw_stations == old(self).saw_stations,
                self.saw_reports == old(self).saw_reports,
                self.stations@ == old(self).stations@,
                self.reports@ == old(self).reports@,
                self.station_ids@ == old(self).station_ids@,
            decreases toks.len() - j,
        {
            let ghost pre = rest.subrange(0, j as int);
            proof {
                assert(pre.drop_last() =~= rest.subrange(0, j - 1));
                assert(pre.last() == toks@[j as int]@);
            }
            let cid = match parse_numeral(&toks[j], 0xFFFF_FFFF) {
                Some(v) => v as u32,
                None => {
                    proof {
                        assert(u32_value(pre.last()) is None);
                        assert(charger_list(seen0, pre) is None);
                        lemma_charger_list_fails(seen0, rest, j as int);
                        assert(charger_list(seen0, rest) is None);
                    }
                    return Err("invalid charger id");
                },
            };
            if self.charger_ids.contains(&cid) {
                proof {
                    assert(ids.contains(cid) || seen0.contains(cid));
                    assert(u32_value(pre.last()) == Some(cid));
                    assert(charger_list(seen0, pre) is None);
                    lemma_charger_list_fails(seen0, rest, j as int);
                }
                return Err("charger id listed more than once");
            }
            self.charger_ids.insert(cid);
            chargers.push(ChargerId(cid));
            proof {
                ids.lemma_push_to_set_commute(cid);
                assert(u32_value(pre.last()) == Some(cid));
                assert(!ids.contains(cid) && !seen0.contains(cid));
                assert(chargers@ =~= ids.push(cid).map_values(|c: u32| ChargerId(c)));
                ids = ids.push(cid);
            }
            j = j + 1;
        }
        proof {
            assert(rest.subrange(0, toks.len() - 1) =~= rest);
        }
        if chargers.len() == 0 {
            return Err("station has no chargers");
        }
        self.station_ids.insert(id);
        let ghost before = self.stations@;
        let st = Station { id: StationId(id), chargers };
        self.stations.push(st);
        proof {
            assert(stations_view(self.stations@) =~= stations_view(before).push(st@));
        }
        Ok(())
    }

    fn read_report_line(&mut self, toks: &Vec<Vec<char>>) -> (r: Result<(), &'static str>)
        ensures
            match r {
                Ok(_) => after_report_line(old(self).model(), views(toks@)) == Some(
                    final(self).model(),
                ),
                Err(_) => after_report_line(old(self).model(), views(toks@)) is None,
            },
    {
        let ghost t = views(toks@);
        if toks.len() != 4 {
            return Err("invalid report format");
        }
        let charger = match parse_numeral(&toks[0], 0xFFFF_FFFF) {
            Some(v) => v as u32,
            None => {
                return Err("invalid charger id");
            },
        };
        if !self.charger_ids.contains(&charger) {
            return Err("report references an unknown charger id");
        }
        let start = match parse_numeral(&toks[1], 0xFFFF_FFFF_FFFF_FFFF) {
            Some(v) => v,
            None => {
                return Err("invalid start time");
            },
        };
        let end = match parse_numeral(&toks[2], 0xFFFF_FFFF_FFFF_FFFF) {
            Some(v) => v,
            None => {
                return Err("invalid end time");
            },
        };
        if end <= start {
            return Err("end must be after start");
        }
        let flag = &toks[3];
        proof {
            assert(flag@.subrange(0, flag.len() as int) =~= flag@);
        }
        let up = if matches_text(flag, 0, flag.len(), "true") {
            true
        } else if matches_text(flag, 0, flag.len(), "false") {
            false
        } else {
            return Err("invalid up flag");
        };
        self.reports.push(
            ChargerReport { charger: ChargerId(charger), interval: Interval { start, end }, up },
        );
        Ok(())
    }

    fn read_line(&mut self, line: &Vec<char>) -> (r: Result<(), &'static str>)
        ensures
            match r {
                Ok(_) => after_line(old(self).model(), line@) == Some(final(self).model()),
                Err(_) => after_line(old(self).model(), line@) is None,
            },
    {
        let (lo, hi) = trimmed_bounds(line);
        if lo == hi {
            return Ok(());
        }
        if matches_text(line, lo, hi, "[Stations]") {
            if self.saw_stations {
                return Err("duplicate [Stations] header");
            }
            self.section = Section::Stations;
            self.saw_stations = true;
            return Ok(());
        }
        if matches_text(line, lo, hi, "[Charger Availability Reports]") {
            if self.saw_reports {
                return Err("duplicate [Charger Availability Reports] header");
            }
            self.section = Section::Reports;
            self.saw_reports = true;
            return Ok(());
        }
        match self.section {
            Section::Preamble => Err("unexpected content before header"),
            Section::Stations => {
                let toks = split_tokens(line);
                self.read_station_line(&toks)
            },
            Section::Reports => {
                let toks = split_tokens(line);
                self.read_report_line(&toks)
            },
        }
    }
}

proof fn lemma_lines_nonempty(s: Seq<char>)
    ensures
        lines(s).len() > 0,
    decreases s.len(),
{
    if s.len() > 0 {
        lemma_lines_nonempty(s.drop_last());
    }
}

/// An error message naming the line it concerns.
fn at_line(what: &str, line_no: usize) -> String {
    let mut m = String::from_str(what);
    m.append(" at line ");
    let n = line_no.to_string();
    m.append(n.as_str());
    m
}

/// Reads the input format: a `[Stations]` section whose lines give a station identifier
/// and its charger identifiers, and a `[Charger Availability Reports]` section whose lines
/// give a charger identifier, a start, an end and `true` or `false`. Succeeds exactly when
/// the text is well formed, and then returns the stations and reports it lists, in order.
pub fn parse_input(input: &str) -> (r: Result<(Vec<Station>, Vec<ChargerReport>), ParseError>)
    ensures
        match r {
            Ok((stations, reports)) => parsed(input@) == Some(
                (stations_view(stations@), reports@),
            ),
            Err(_) => parsed(input@) is None,
        },
{
    let mut p = Parser::new();
    let mut cur: Vec<char> = Vec::new();
    let mut line_no: usize = 1;
    let mut failure: Option<String> = None;
    proof {
        assert(input@.subrange(0, 0) =~= Seq::<char>::empty());
        assert(lines(Seq::<char>::empty()).drop_last() =~= Seq::<Seq<char>>::empty());
        assert(cur@ =~= lines(Seq::<char>::empty()).last());
    }
    for c in it: input.chars()
        invariant
            it.seq() == input@,
            failure is None ==> after_lines(lines(input@.subrange(0, it.index() as int)).drop_last())
                == Some(p.model()),
            failure is Some ==> after_lines(
                lines(input@.subrange(0, it.index() as int)).drop_last(),
            ) is None,
            cur@ == lines(input@.subrange(0, it.index() as int)).last(),
    {
        let ghost pre = input@.subrange(0, it.index() as int);
        let ghost next = input@.subrange(0, it.index() + 1);
        proof {
            assert(next.drop_last() =~= pre);
            lemma_lines_nonempty(pre);
        }
        if c == '\n' {
            if failure.is_none() {
                match p.read_line(&cur) {
                    Ok(()) => {},
                    Err(why) => {
                        failure = Some(at_line(why, line_no));
                    },
                }
            }
            cur = Vec::new();
            line_no = line_no.saturating_add(1);
            proof {
                assert(lines(next).drop_last() =~= lines(pre));
                assert(lines(pre) =~= lines(pre).drop_last().push(lines(pre).last()));
                assert(cur@ =~= lines(next).last());
            }
        } else {
            cur.push(c);
            proof {
                assert(lines(next).drop_last() =~= lines(pre).drop_last());
                assert(cur@ =~= lines(next).last());
            }
        }
    }
    let ghost all = lines(input@);
    proof {
        assert(input@.subrange(0, input@.len() as int) =~= input@);
        lemma_lines_nonempty(input@);
        assert(all =~= all.drop_last().push(all.last()));
    }
    if failure.is_none() {
        match p.read_line(&cur) {
            Ok(()) => {},
            Err(why) => {
                failure = Some(at_line(why, line_no));
            },
        }
    }
    match failure {
        Some(m) => Err(ParseError::InvalidFormat(m)),
        None => {
            if !p.saw_stations || !p.saw_reports {
                Err(ParseError::InvalidFormat(String::from_str("missing required sections")))
            } else if p.reports.len() == 0 {
                Err(
                    ParseError::InvalidFormat(
                        String::from_str("no charger availability reports found"),
                    ),
                )
            } else {
                Ok((p.stations, p.reports))
            }
        },
    }
}

} // verus!
