use vstd::prelude::*;

use crate::float::double::Double;
use crate::table::Table;
use crate::text::{
    chars_of, contents, equals, find, first_at, lemma_first_at, lines, lines_of, part, starts_with,
    string_of, strip_prefixes, trim, trimmed, without_prefixes,
};

verus! {

/// What a line of a cell's section may set.
#[derive(Clone, Copy, PartialEq, Eq, Structural, Debug)]
pub enum Field {
    Scenario,
    ConvergenceRate,
    ConvergenceP50Secs,
    ConvergenceP99Secs,
    SettledAccuracyP50,
    SettledAccuracyP99,
    JitterMeanPerMin,
    JitterP99PerMin,
    ReactionRate,
    ReactionP50Secs,
    ReactionP99Secs,
    Unknown,
}

/// The field that a key names.
pub open spec fn field_named(key: Seq<char>) -> Field {
    if key == "scenario"@ {
        Field::Scenario
    } else if key == "convergence_rate"@ {
        Field::ConvergenceRate
    } else if key == "convergence_p50_secs"@ {
        Field::ConvergenceP50Secs
    } else if key == "convergence_p99_secs"@ {
        Field::ConvergenceP99Secs
    } else if key == "settled_accuracy_p50"@ {
        Field::SettledAccuracyP50
    } else if key == "settled_accuracy_p99"@ {
        Field::SettledAccuracyP99
    } else if key == "jitter_mean_per_min"@ {
        Field::JitterMeanPerMin
    } else if key == "jitter_p99_per_min"@ {
        Field::JitterP99PerMin
    } else if key == "reaction_rate"@ {
        Field::ReactionRate
    } else if key == "reaction_p50_secs"@ {
        Field::ReactionP50Secs
    } else if key == "reaction_p99_secs"@ {
        Field::ReactionP99Secs
    } else {
        Field::Unknown
    }
}

/// The field that a key names.
fn field(key: &Vec<char>) -> (r: Field)
    ensures
        r == field_named(key@),
{
    if equals(key, "scenario") {
        Field::Scenario
    } else if equals(key, "convergence_rate") {
        Field::ConvergenceRate
    } else if equals(key, "convergence_p50_secs") {
        Field::ConvergenceP50Secs
    } else if equals(key, "convergence_p99_secs") {
        Field::ConvergenceP99Secs
    } else if equals(key, "settled_accuracy_p50") {
        Field::SettledAccuracyP50
    } else if equals(key, "settled_accuracy_p99") {
        Field::SettledAccuracyP99
    } else if equals(key, "jitter_mean_per_min") {
        Field::JitterMeanPerMin
    } else if equals(key, "jitter_p99_per_min") {
        Field::JitterP99PerMin
    } else if equals(key, "reaction_rate") {
        Field::ReactionRate
    } else if equals(key, "reaction_p50_secs") {
        Field::ReactionP50Secs
    } else if equals(key, "reaction_p99_secs") {
        Field::ReactionP99Secs
    } else {
        Field::Unknown
    }
}

/// One `key = value` line of a cell's section.
#[derive(Debug)]
pub struct Entry {
    pub cell: String,
    pub field: Field,
    pub value: String,
}

/// What an entry says.
pub ghost struct EntryText {
    pub cell: Seq<char>,
    pub field: Field,
    pub value: Seq<char>,
}

impl View for Entry {
    type V = EntryText;

    open spec fn view(&self) -> EntryText {
        EntryText { cell: self.cell@, field: self.field, value: self.value@ }
    }
}

pub open spec fn entry_texts(entries: Seq<Entry>) -> Seq<EntryText> {
    entries.map_values(|e: Entry| e@)
}

/// How far a file has been read: the section that is open, and the entries so far.
pub ghost struct Progress {
    pub section: Option<Seq<char>>,
    pub entries: Seq<EntryText>,
}

/// A line in square brackets opens a section.
pub open spec fn is_header(line: Seq<char>) -> bool {
    line.len() >= 2 && line[0] == '[' && line.last() == ']'
}

/// What a line that sets something in section `section` says.
pub open spec fn entry_of(section: Seq<char>, line: Seq<char>) -> EntryText {
    let at = first_at(line, '=') as int;
    EntryText {
        cell: without_prefixes(section, "cell."@),
        field: field_named(trimmed(line.take(at))),
        value: trimmed(line.skip(at + 1)),
    }
}

/// Reads one more line. Empty lines and comments say nothing, nor does what
/// stands before the first section, in a section that is no cell's, or without
/// an equals sign.
pub open spec fn after_line(p: Progress, raw: Seq<char>) -> Progress {
    let line = trimmed(raw);
    if line.len() == 0 || line[0] == '#' {
        p
    } else if is_header(line) {
        Progress { section: Some(line.subrange(1, line.len() - 1)), ..p }
    } else {
        match p.section {
            Some(section) => {
                if "cell."@.is_prefix_of(section) && first_at(line, '=') < line.len() {
                    Progress { entries: p.entries.push(entry_of(section, line)), ..p }
                } else {
                    p
                }
            },
            None => p,
        }
    }
}

pub open spec fn after_lines(lines: Seq<Seq<char>>) -> Progress
    decreases lines.len(),
{
    if lines.len() == 0 {
        Progress { section: None, entries: Seq::empty() }
    } else {
        after_line(after_lines(lines.drop_last()), lines.last())
    }
}

/// The entries of a file, in order.
pub open spec fn entries_of(text: Seq<char>) -> Seq<EntryText> {
    after_lines(lines_of(text)).entries
}

/// The name of the section that is open.
pub open spec fn open_section(section: Option<Vec<char>>) -> Option<Seq<char>> {
    match section {
        Some(s) => Some(s@),
        None => None,
    }
}

/// What a line does.
enum LineEffect {
    Nothing,
    Opens(Vec<char>),
    Adds(Entry),
}

/// Looks at one line.
fn read_line(
    section: &Option<Vec<char>>,
    raw: &Vec<char>,
    Ghost(entries): Ghost<Seq<EntryText>>,
) -> (r: LineEffect)
    ensures
        after_line(Progress { section: open_section(*section), entries }, raw@) == match r {
            LineEffect::Nothing => Progress { section: open_section(*section), entries },
            LineEffect::Opens(s) => Progress { section: Some(s@), entries },
            LineEffect::Adds(e) => Progress {
                section: open_section(*section),
                entries: entries.push(e@),
            },
        },
{
    let line = trim(raw);
    let n = line.len();
    if n == 0 || line[0] == '#' {
        return LineEffect::Nothing;
    }
    if n >= 2 && line[0] == '[' && line[n - 1] == ']' {
        return LineEffect::Opens(part(&line, 1, n - 1));
    }
    let name = match section {
        Some(name) => name,
        None => return LineEffect::Nothing,
    };
    if !starts_with(name, "cell.") {
        return LineEffect::Nothing;
    }
    let at = find(&line, 0, '=');
    proof {
        assert(line@.subrange(0, n as int) =~= line@);
        lemma_first_at(line@, '=');
    }
    if at >= n {
        return LineEffect::Nothing;
    }
    let key = trim(&part(&line, 0, at));
    let value = trim(&part(&line, at + 1, n));
    proof {
        assert(line@.subrange(0, at as int) =~= line@.take(at as int));
        assert(line@.subrange(at + 1, n as int) =~= line@.skip(at + 1));
    }
    LineEffect::Adds(
        Entry {
            cell: string_of(&strip_prefixes(name, "cell.")),
            field: field(&key),
            value: string_of(&value),
        },
    )
}

/// Reads the entries of a file.
pub fn parse_entries(text: &str) -> (r: Vec<Entry>)
    ensures
        entry_texts(r@) == entries_of(text@),
{
    let lines = lines(text);
    let n = lines.len();
    let mut section: Option<Vec<char>> = None;
    let mut out: Vec<Entry> = Vec::new();
    let mut i: usize = 0;
    proof {
        assert(contents(lines@.take(0)) =~= Seq::<Seq<char>>::empty());
        assert(entry_texts(out@) =~= Seq::<EntryText>::empty());
    }
    while i < n
        invariant
            i <= n == lines@.len(),
            after_lines(contents(lines@.take(i as int))) == (Progress {
                section: open_section(section),
                entries: entry_texts(out@),
            }),
        decreases n - i,
    {
        let ghost before = out@;
        proof {
            let all = contents(lines@.take(i + 1));
            assert(all.drop_last() =~= contents(lines@.take(i as int)));
            assert(all.last() == lines@[i as int]@);
        }
        match read_line(&section, &lines[i], Ghost(entry_texts(before))) {
            LineEffect::Nothing => {},
            LineEffect::Opens(name) => {
                section = Some(name);
            },
            LineEffect::Adds(entry) => {
                out.push(entry);
                proof {
                    assert(entry_texts(out@) =~= entry_texts(before).push(entry@));
                }
            },
        }
        i = i + 1;
    }
    proof {
        assert(lines@.take(n as int) =~= lines@);
    }
    out
}

/// The text between two quotation marks.
pub open spec fn unquoted(s: Seq<char>) -> Option<Seq<char>> {
    if s.len() >= 2 && s[0] == '"' && s.last() == '"' {
        Some(s.subrange(1, s.len() - 1))
    } else {
        None
    }
}

/// Takes a text out of the quotation marks around it.
pub fn parse_string(s: &str) -> (r: Option<String>)
    ensures
        r is Some <==> unquoted(s@) is Some,
        r matches Some(t) ==> Some(t@) == unquoted(s@),
{
    let chars = chars_of(s);
    let n = chars.len();
    if n >= 2 && chars[0] == '"' && chars[n - 1] == '"' {
        Some(string_of(&part(&chars, 1, n - 1)))
    } else {
        None
    }
}

pub open spec fn spec_delta(a: Option<Double>, b: Option<Double>) -> Option<Double> {
    match (a, b) {
        (Some(x), Some(y)) => Some(x.minus(y)),
        _ => None,
    }
}

/// The difference of two measurements, where both were made.
#[verifier::when_used_as_spec(spec_delta)]
pub fn delta(a: Option<Double>, b: Option<Double>) -> (r: Option<Double>)
    ensures
        r == delta(a, b),
{
    match (a, b) {
        (Some(x), Some(y)) => Some(x.minus(y)),
        _ => None,
    }
}

/// The measurements of a cell, or by how much they differ between two cells.
#[derive(Clone, Copy, Debug)]
pub struct Metrics {
    pub convergence_rate: Option<Double>,
    pub convergence_p50_secs: Option<Double>,
    pub convergence_p99_secs: Option<Double>,
    pub settled_accuracy_p50: Option<Double>,
    pub settled_accuracy_p99: Option<Double>,
    pub jitter_mean_per_min: Option<Double>,
    pub jitter_p99_per_min: Option<Double>,
    pub reaction_rate: Option<Double>,
    pub reaction_p50_secs: Option<Double>,
    pub reaction_p99_secs: Option<Double>,
}

impl Metrics {
    pub open spec fn spec_none() -> Metrics {
        Metrics {
            convergence_rate: None,
            convergence_p50_secs: None,
            convergence_p99_secs: None,
            settled_accuracy_p50: None,
            settled_accuracy_p99: None,
            jitter_mean_per_min: None,
            jitter_p99_per_min: None,
            reaction_rate: None,
            reaction_p50_secs: None,
            reaction_p99_secs: None,
        }
    }

    /// Nothing measured.
    #[verifier::when_used_as_spec(spec_none)]
    pub fn none() -> (r: Metrics)
        ensures
            r == Metrics::none(),
    {
        Metrics {
            convergence_rate: None,
            convergence_p50_secs: None,
            convergence_p99_secs: None,
            settled_accuracy_p50: None,
            settled_accuracy_p99: None,
            jitter_mean_per_min: None,
            jitter_p99_per_min: None,
            reaction_rate: None,
            reaction_p50_secs: None,
            reaction_p99_secs: None,
        }
    }

    pub open spec fn spec_minus(self, other: Metrics) -> Metrics {
        Metrics {
            convergence_rate: delta(self.convergence_rate, other.convergence_rate),
            convergence_p50_secs: delta(self.convergence_p50_secs, other.convergence_p50_secs),
            convergence_p99_secs: delta(self.convergence_p99_secs, other.convergence_p99_secs),
            settled_accuracy_p50: delta(self.settled_accuracy_p50, other.settled_accuracy_p50),
            settled_accuracy_p99: delta(self.settled_accuracy_p99, other.settled_accuracy_p99),
            jitter_mean_per_min: delta(self.jitter_mean_per_min, other.jitter_mean_per_min),
            jitter_p99_per_min: delta(self.jitter_p99_per_min, other.jitter_p99_per_min),
            reaction_rate: delta(self.reaction_rate, other.reaction_rate),
            reaction_p50_secs: delta(self.reaction_p50_secs, other.reaction_p50_secs),
            reaction_p99_secs: delta(self.reaction_p99_secs, other.reaction_p99_secs),
        }
    }

    /// By how much the measurements differ from others.
    #[verifier::when_used_as_spec(spec_minus)]
    pub fn minus(self, other: Metrics) -> (r: Metrics)
        ensures
            r == self.minus(other),
    {
        Metrics {
            convergence_rate: delta(self.convergence_rate, other.convergence_rate),
            convergence_p50_secs: delta(self.convergence_p50_secs, other.convergence_p50_secs),
            convergence_p99_secs: delta(self.convergence_p99_secs, other.convergence_p99_secs),
            settled_accuracy_p50: delta(self.settled_accuracy_p50, other.settled_accuracy_p50),
            settled_accuracy_p99: delta(self.settled_accuracy_p99, other.settled_accuracy_p99),
            jitter_mean_per_min: delta(self.jitter_mean_per_min, other.jitter_mean_per_min),
            jitter_p99_per_min: delta(self.jitter_p99_per_min, other.jitter_p99_per_min),
            reaction_rate: delta(self.reaction_rate, other.reaction_rate),
            reaction_p50_secs: delta(self.reaction_p50_secs, other.reaction_p50_secs),
            reaction_p99_secs: delta(self.reaction_p99_secs, other.reaction_p99_secs),
        }
    }

    pub open spec fn spec_get(self, field: Field) -> Option<Double> {
        match field {
            Field::ConvergenceRate => self.convergence_rate,
            Field::ConvergenceP50Secs => self.convergence_p50_secs,
            Field::ConvergenceP99Secs => self.convergence_p99_secs,
            Field::SettledAccuracyP50 => self.settled_accuracy_p50,
            Field::SettledAccuracyP99 => self.settled_accuracy_p99,
            Field::JitterMeanPerMin => self.jitter_mean_per_min,
            Field::JitterP99PerMin => self.jitter_p99_per_min,
            Field::ReactionRate => self.reaction_rate,
            Field::ReactionP50Secs => self.reaction_p50_secs,
            Field::ReactionP99Secs => self.reaction_p99_secs,
            Field::Scenario | Field::Unknown => None,
        }
    }

    /// One measurement.
    #[verifier::when_used_as_spec(spec_get)]
    pub fn get(self, field: Field) -> (r: Option<Double>)
        ensures
            r == self.get(field),
    {
        match field {
            Field::ConvergenceRate => self.convergence_rate,
            Field::ConvergenceP50Secs => self.convergence_p50_secs,
            Field::ConvergenceP99Secs => self.convergence_p99_secs,
            Field::SettledAccuracyP50 => self.settled_accuracy_p50,
            Field::SettledAccuracyP99 => self.settled_accuracy_p99,
            Field::JitterMeanPerMin => self.jitter_mean_per_min,
            Field::JitterP99PerMin => self.jitter_p99_per_min,
            Field::ReactionRate => self.reaction_rate,
            Field::ReactionP50Secs => self.reaction_p50_secs,
            Field::ReactionP99Secs => self.reaction_p99_secs,
            Field::Scenario | Field::Unknown => None,
        }
    }

    /// With one measurement set.
    pub open spec fn with(self, field: Field, number: Option<Double>) -> Metrics {
        match field {
            Field::ConvergenceRate => Metrics { convergence_rate: number, ..self },
            Field::ConvergenceP50Secs => Metrics { convergence_p50_secs: number, ..self },
            Field::ConvergenceP99Secs => Metrics { convergence_p99_secs: number, ..self },
            Field::SettledAccuracyP50 => Metrics { settled_accuracy_p50: number, ..self },
            Field::SettledAccuracyP99 => Metrics { settled_accuracy_p99: number, ..self },
            Field::JitterMeanPerMin => Metrics { jitter_mean_per_min: number, ..self },
            Field::JitterP99PerMin => Metrics { jitter_p99_per_min: number, ..self },
            Field::ReactionRate => Metrics { reaction_rate: number, ..self },
            Field::ReactionP50Secs => Metrics { reaction_p50_secs: number, ..self },
            Field::ReactionP99Secs => Metrics { reaction_p99_secs: number, ..self },
            Field::Scenario | Field::Unknown => self,
        }
    }

    /// Sets one measurement.
    pub fn set(&mut self, field: Field, number: Option<Double>)
        ensures
            *final(self) == old(self).with(field, number),
    {
        match field {
            Field::ConvergenceRate => {
                self.convergence_rate = number;
            },
            Field::ConvergenceP50Secs => {
                self.convergence_p50_secs = number;
            },
            Field::ConvergenceP99Secs => {
                self.convergence_p99_secs = number;
            },
            Field::SettledAccuracyP50 => {
                self.settled_accuracy_p50 = number;
            },
            Field::SettledAccuracyP99 => {
                self.settled_accuracy_p99 = number;
            },
            Field::JitterMeanPerMin => {
                self.jitter_mean_per_min = number;
            },
            Field::JitterP99PerMin => {
                self.jitter_p99_per_min = number;
            },
            Field::ReactionRate => {
                self.reaction_rate = number;
            },
            Field::ReactionP50Secs => {
                self.reaction_p50_secs = number;
            },
            Field::ReactionP99Secs => {
                self.reaction_p99_secs = number;
            },
            Field::Scenario => {},
            Field::Unknown => {},
        }
    }
}

/// What a file says of one cell.
#[derive(Debug)]
pub struct CellMetrics {
    pub scenario: String,
    pub metrics: Metrics,
}

/// What is known of one cell.
pub ghost struct CellText {
    pub scenario: Seq<char>,
    pub metrics: Metrics,
}

impl View for CellMetrics {
    type V = CellText;

    open spec fn view(&self) -> CellText {
        CellText { scenario: self.scenario@, metrics: self.metrics }
    }
}

impl CellText {
    /// A cell of which nothing is known.
    pub open spec fn blank() -> CellText {
        CellText { scenario: Seq::empty(), metrics: Metrics::none() }
    }

    /// A cell after an entry, where `number` is what its value reads as a number.
    /// A scenario that is not quoted is an empty one.
    pub open spec fn after(self, entry: EntryText, number: Option<Double>) -> CellText {
        if entry.field == Field::Scenario {
            CellText {
                scenario: match unquoted(entry.value) {
                    Some(s) => s,
                    None => Seq::empty(),
                },
                ..self
            }
        } else {
            CellText { metrics: self.metrics.with(entry.field, number), ..self }
        }
    }
}

/// The cells that some entries make, where `numbers` are their values read as
/// numbers. Of several entries for one field the last one counts; a cell that
/// only unknown fields are set of is there all the same.
pub open spec fn cells_of(entries: Seq<EntryText>, numbers: Seq<Option<Double>>) -> Map<
    Seq<char>,
    CellText,
>
    decreases entries.len(),
{
    if entries.len() == 0 {
        Map::empty()
    } else {
        let cells = cells_of(entries.drop_last(), numbers.drop_last());
        let entry = entries.last();
        let cell = if cells.contains_key(entry.cell) {
            cells[entry.cell]
        } else {
            CellText::blank()
        };
        cells.insert(entry.cell, cell.after(entry, numbers.last()))
    }
}

/// What a table says of its cells.
pub open spec fn cell_texts(cells: Map<Seq<char>, CellMetrics>) -> Map<Seq<char>, CellText> {
    cells.map_values(|c: CellMetrics| c@)
}

/// Gathers the entries of each cell, where `numbers` are their values read as
/// numbers.
pub fn collect_cells(entries: &Vec<Entry>, numbers: &Vec<Option<Double>>) -> (r: Table<CellMetrics>)
    requires
        numbers@.len() == entries@.len(),
    ensures
        r.wf(),
        cell_texts(r@) == cells_of(entry_texts(entries@), numbers@),
{
    let n = entries.len();
    let mut table: Table<CellMetrics> = Table::new();
    let mut i: usize = 0;
    proof {
        assert(cell_texts(table@) =~= Map::<Seq<char>, CellText>::empty());
    }
    while i < n
        invariant
            i <= n == entries@.len() == numbers@.len(),
            table.wf(),
            cell_texts(table@) == cells_of(
                entry_texts(entries@.take(i as int)),
                numbers@.take(i as int),
            ),
        decreases n - i,
    {
        let entry = &entries[i];
        let ghost was = table@;
        proof {
            let all = entry_texts(entries@.take(i + 1));
            assert(all.drop_last() =~= entry_texts(entries@.take(i as int)));
            assert(numbers@.take(i + 1).drop_last() =~= numbers@.take(i as int));
            assert(all.last() == entry@);
        }
        let mut cell = match table.remove(entry.cell.as_str()) {
            Some(cell) => cell,
            None => CellMetrics { scenario: String::new(), metrics: Metrics::none() },
        };
        let ghost before = cell@;
        match entry.field {
            Field::Scenario => {
                cell.scenario = match parse_string(entry.value.as_str()) {
                    Some(s) => s,
                    None => String::new(),
                };
            },
            _ => {
                cell.metrics.set(entry.field, numbers[i]);
            },
        }
        proof {
            assert(cell@ == before.after(entry@, numbers@[i as int]));
        }
        let ghost after = cell@;
        table.insert(entry.cell.clone(), cell);
        proof {
            assert(cell_texts(table@) =~= cell_texts(was).insert(entry.cell@, after));
        }
        i = i + 1;
    }
    proof {
        assert(entries@.take(n as int) =~= entries@);
        assert(numbers@.take(n as int) =~= numbers@);
    }
    table
}

} // verus!
