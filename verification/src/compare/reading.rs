use vstd::prelude::*;

use crate::compare::cells::{
    CellText, EntryText, Field, Metrics, Progress, after_line, after_lines, cells_of, entries_of,
    entry_of, field_named,
};
use crate::float::double::Double;
use crate::text::{
    first_at, is_space, lemma_first_at, lines_of, trimmed, trimmed_end, trimmed_start,
    without_prefixes,
};

verus! {

/// Some lines as one text: each ends in a line feed.
pub open spec fn text_of_lines(lines: Seq<Seq<char>>) -> Seq<char>
    decreases lines.len(),
{
    if lines.len() == 0 {
        Seq::empty()
    } else {
        lines[0] + "\n"@ + text_of_lines(lines.drop_first())
    }
}

/// A line without a line feed in it and without a carriage return at its end.
pub open spec fn is_line(line: Seq<char>) -> bool {
    &&& !line.contains('\n')
    &&& line.len() > 0 ==> line.last() != '\r'
}

/// Lines that were written as one text are the lines of that text.
pub proof fn lemma_lines_are_read_back(lines: Seq<Seq<char>>)
    requires
        forall|i: int| 0 <= i < lines.len() ==> is_line(#[trigger] lines[i]),
    ensures
        lines_of(text_of_lines(lines)) == lines,
    decreases lines.len(),
{
    reveal_strlit("\n");
    if lines.len() > 0 {
        let (line, rest) = (lines[0], lines.drop_first());
        assert forall|i: int| 0 <= i < rest.len() implies is_line(#[trigger] rest[i]) by {
            assert(rest[i] == lines[i + 1]);
        }
        lemma_lines_are_read_back(rest);
        let text = text_of_lines(lines);
        let end = line.len() as int;
        assert(text[end] == '\n');
        lemma_first_at(text, '\n');
        let at = first_at(text, '\n') as int;
        if at < end {
            assert(text[at] == line[at]);
            assert(line.contains('\n'));
        }
        assert(text.take(end) =~= line);
        assert(text.skip(end + 1) =~= text_of_lines(rest));
        assert(seq![line] + rest =~= lines);
    } else {
        assert(lines =~= Seq::<Seq<char>>::empty());
    }
}

/// The names of the metrics.
pub open spec fn metric_names() -> Seq<Seq<char>> {
    seq![
        "convergence_rate"@,
        "convergence_p50_secs"@,
        "convergence_p99_secs"@,
        "settled_accuracy_p50"@,
        "settled_accuracy_p99"@,
        "jitter_mean_per_min"@,
        "jitter_p99_per_min"@,
        "reaction_rate"@,
        "reaction_p50_secs"@,
        "reaction_p99_secs"@,
    ]
}

/// The metrics, in the order of their names.
pub open spec fn metric_list(m: Metrics) -> Seq<Option<Double>> {
    seq![
        m.convergence_rate,
        m.convergence_p50_secs,
        m.convergence_p99_secs,
        m.settled_accuracy_p50,
        m.settled_accuracy_p99,
        m.jitter_mean_per_min,
        m.jitter_p99_per_min,
        m.reaction_rate,
        m.reaction_p50_secs,
        m.reaction_p99_secs,
    ]
}

/// The first `n` characters are neither white space nor have they a meaning of their own.
spec fn plain(s: Seq<char>, n: nat) -> bool
    decreases n,
{
    n == 0 || plain(s, (n - 1) as nat) && {
        let c = s[n - 1];
        c != '=' && c != '#' && c != '[' && c != '\n' && !is_space(c)
    }
}

proof fn lemma_plain(s: Seq<char>, n: nat)
    requires
        plain(s, n),
        n <= s.len(),
    ensures
        forall|i: int|
            0 <= i < n ==> s[i] != '=' && s[i] != '#' && s[i] != '[' && s[i] != '\n' && !is_space(
                #[trigger] s[i],
            ),
    decreases n,
{
    if n > 0 {
        lemma_plain(s, (n - 1) as nat);
    }
}

/// The names of the metrics are plain words.
proof fn lemma_names_are_plain(k: int)
    requires
        0 <= k < 10,
    ensures
        metric_names()[k].len() > 0,
        plain(metric_names()[k], metric_names()[k].len()),
{
    reveal_with_fuel(plain, 21);
    reveal_strlit("convergence_rate");
    reveal_strlit("convergence_p50_secs");
    reveal_strlit("convergence_p99_secs");
    reveal_strlit("settled_accuracy_p50");
    reveal_strlit("settled_accuracy_p99");
    reveal_strlit("jitter_mean_per_min");
    reveal_strlit("jitter_p99_per_min");
    reveal_strlit("reaction_rate");
    reveal_strlit("reaction_p50_secs");
    reveal_strlit("reaction_p99_secs");
}

/// A key sets the metric of its own name, and no other one.
pub proof fn lemma_key_sets_its_metric(m: Metrics, k: int, number: Option<Double>)
    requires
        0 <= k < 10,
    ensures
        field_named(metric_names()[k]) != Field::Scenario,
        metric_list(m.with(field_named(metric_names()[k]), number)) == metric_list(m).update(
            k,
            number,
        ),
{
    reveal_strlit("scenario");
    reveal_strlit("convergence_rate");
    reveal_strlit("convergence_p50_secs");
    reveal_strlit("convergence_p99_secs");
    reveal_strlit("settled_accuracy_p50");
    reveal_strlit("settled_accuracy_p99");
    reveal_strlit("jitter_mean_per_min");
    reveal_strlit("jitter_p99_per_min");
    reveal_strlit("reaction_rate");
    reveal_strlit("reaction_p50_secs");
    reveal_strlit("reaction_p99_secs");
    assert("scenario"@.len() == 8);
    assert("convergence_rate"@.len() == 16);
    assert("convergence_p50_secs"@.len() == 20);
    assert("convergence_p99_secs"@.len() == 20);
    assert("settled_accuracy_p50"@.len() == 20);
    assert("settled_accuracy_p99"@.len() == 20);
    assert("jitter_mean_per_min"@.len() == 19);
    assert("jitter_p99_per_min"@.len() == 18);
    assert("reaction_rate"@.len() == 13);
    assert("reaction_p50_secs"@.len() == 17);
    assert("reaction_p99_secs"@.len() == 17);
    assert("convergence_p50_secs"@[13] != "convergence_p99_secs"@[13]);
    assert("convergence_p50_secs"@[0] != "settled_accuracy_p50"@[0]);
    assert("convergence_p50_secs"@[0] != "settled_accuracy_p99"@[0]);
    assert("convergence_p99_secs"@[0] != "settled_accuracy_p50"@[0]);
    assert("convergence_p99_secs"@[0] != "settled_accuracy_p99"@[0]);
    assert("settled_accuracy_p50"@[18] != "settled_accuracy_p99"@[18]);
    assert("reaction_p50_secs"@[10] != "reaction_p99_secs"@[10]);
    assert(field_named("convergence_rate"@) == Field::ConvergenceRate);
    assert(metric_names()[0] == "convergence_rate"@);
    assert(field_named("convergence_p50_secs"@) == Field::ConvergenceP50Secs);
    assert(metric_names()[1] == "convergence_p50_secs"@);
    assert(field_named("convergence_p99_secs"@) == Field::ConvergenceP99Secs);
    assert(metric_names()[2] == "convergence_p99_secs"@);
    assert(field_named("settled_accuracy_p50"@) == Field::SettledAccuracyP50);
    assert(metric_names()[3] == "settled_accuracy_p50"@);
    assert(field_named("settled_accuracy_p99"@) == Field::SettledAccuracyP99);
    assert(metric_names()[4] == "settled_accuracy_p99"@);
    assert(field_named("jitter_mean_per_min"@) == Field::JitterMeanPerMin);
    assert(metric_names()[5] == "jitter_mean_per_min"@);
    assert(field_named("jitter_p99_per_min"@) == Field::JitterP99PerMin);
    assert(metric_names()[6] == "jitter_p99_per_min"@);
    assert(field_named("reaction_rate"@) == Field::ReactionRate);
    assert(metric_names()[7] == "reaction_rate"@);
    assert(field_named("reaction_p50_secs"@) == Field::ReactionP50Secs);
    assert(metric_names()[8] == "reaction_p50_secs"@);
    assert(field_named("reaction_p99_secs"@) == Field::ReactionP99Secs);
    assert(metric_names()[9] == "reaction_p99_secs"@);
    assert(metric_list(m.with(field_named(metric_names()[k]), number)) =~= metric_list(m).update(
        k,
        number,
    ));
}

/// The name of a cell that a section can have.
pub open spec fn is_cell_name(name: Seq<char>) -> bool {
    !name.contains('\n') && !"cell."@.is_prefix_of(name)
}

/// The line that opens the section of a cell.
pub open spec fn cell_header(name: Seq<char>) -> Seq<char> {
    "[cell."@ + name + "]"@
}

/// A value that a line can have: one line of text, without white space around it.
pub open spec fn is_value(value: Seq<char>) -> bool {
    &&& value.len() > 0
    &&& !value.contains('\n')
    &&& !is_space(value[0])
    &&& !is_space(value.last())
}

/// The line that sets a key to a value.
pub open spec fn setting(key: Seq<char>, value: Seq<char>) -> Seq<char> {
    key + " = "@ + value
}

/// A line that sets a plain key says so.
proof fn lemma_setting_is_read(section: Seq<char>, key: Seq<char>, value: Seq<char>)
    requires
        key.len() > 0,
        plain(key, key.len()),
        is_value(value),
    ensures
        is_line(setting(key, value)),
        trimmed(setting(key, value)) == setting(key, value),
        setting(key, value).len() > 0,
        setting(key, value)[0] != '#',
        setting(key, value)[0] != '[',
        first_at(setting(key, value), '=') < setting(key, value).len(),
        entry_of(section, setting(key, value)) == (EntryText {
            cell: without_prefixes(section, "cell."@),
            field: field_named(key),
            value,
        }),
{
    reveal_strlit(" = ");
    lemma_plain(key, key.len());
    let line = setting(key, value);
    let n = key.len() as int;
    assert(line[0] == key[0]);
    assert(line.last() == value.last());
    assert(line[n] == ' ' && line[n + 1] == '=' && line[n + 2] == ' ');
    assert(!line.contains('\n')) by {
        if line.contains('\n') {
            let i = choose|i: int| 0 <= i < line.len() && line[i] == '\n';
            if i < n {
                assert(line[i] == key[i]);
            } else if i >= n + 3 {
                assert(line[i] == value[i - n - 3]);
                assert(value.contains('\n'));
            }
        }
    }
    lemma_first_at(line, '=');
    let at = first_at(line, '=') as int;
    if at < n {
        assert(line[at] == key[at]);
    }
    assert(at == n + 1);
    let left = line.take(at);
    assert(left[0] == key[0]);
    assert(left.last() == ' ');
    assert(left.drop_last() =~= key);
    assert(trimmed_start(left) == left);
    assert(trimmed_end(left) == trimmed_end(key));
    assert(trimmed_end(key) == key) by {
        assert(!is_space(key[n - 1]));
    }
    let right = line.skip(at + 1);
    assert(right[0] == ' ');
    assert(right.drop_first() =~= value);
    assert(trimmed_start(right) == trimmed_start(value));
    assert(trimmed_start(value) == value);
    assert(trimmed_end(value) == value);
}

/// The header of a cell opens its section.
proof fn lemma_header_is_read(p: Progress, name: Seq<char>)
    requires
        is_cell_name(name),
    ensures
        is_line(cell_header(name)),
        after_line(p, cell_header(name)) == (Progress { section: Some("cell."@ + name), ..p }),
        without_prefixes("cell."@ + name, "cell."@) == name,
{
    reveal_strlit("[cell.");
    reveal_strlit("cell.");
    reveal_strlit("]");
    let line = cell_header(name);
    assert(line[0] == '[' && line.last() == ']');
    assert(!line.contains('\n')) by {
        if line.contains('\n') {
            let i = choose|i: int| 0 <= i < line.len() && line[i] == '\n';
            if 6 <= i < 6 + name.len() {
                assert(line[i] == name[i - 6]);
                assert(name.contains('\n'));
            }
        }
    }
    assert(trimmed_start(line) == line);
    assert(trimmed_end(line) == line);
    let section = "cell."@ + name;
    assert(line.subrange(1, line.len() - 1) =~= section);
    assert("cell."@.is_prefix_of(section)) by {
        assert(section.subrange(0, 5) =~= "cell."@);
    }
    assert(section.skip(5) =~= name);
    assert(without_prefixes(section, "cell."@) == without_prefixes(name, "cell."@));
}

/// The lines of a section that sets some metrics, by their places among the names, to
/// some values.
pub open spec fn section_lines(name: Seq<char>, keys: Seq<int>, values: Seq<Seq<char>>) -> Seq<
    Seq<char>,
> {
    Seq::new(
        keys.len() + 1,
        |i: int|
            if i == 0 {
                cell_header(name)
            } else {
                setting(metric_names()[keys[i - 1]], values[i - 1])
            },
    )
}

/// The keys are places among the names, and the values can stand in a line.
pub open spec fn can_be_written(name: Seq<char>, keys: Seq<int>, values: Seq<Seq<char>>) -> bool {
    &&& is_cell_name(name)
    &&& keys.len() == values.len()
    &&& forall|i: int| 0 <= i < keys.len() ==> 0 <= #[trigger] keys[i] < 10
    &&& forall|i: int| 0 <= i < values.len() ==> is_value(#[trigger] values[i])
}

/// The entries of such a section.
spec fn section_entries(name: Seq<char>, keys: Seq<int>, values: Seq<Seq<char>>) -> Seq<EntryText> {
    Seq::new(
        keys.len(),
        |i: int|
            EntryText { cell: name, field: field_named(metric_names()[keys[i]]), value: values[i] },
    )
}

proof fn lemma_section_is_read(name: Seq<char>, keys: Seq<int>, values: Seq<Seq<char>>)
    requires
        can_be_written(name, keys, values),
    ensures
        after_lines(section_lines(name, keys, values)) == (Progress {
            section: Some("cell."@ + name),
            entries: section_entries(name, keys, values),
        }),
    decreases keys.len(),
{
    let lines = section_lines(name, keys, values);
    let start = Progress { section: None, entries: Seq::<EntryText>::empty() };
    lemma_header_is_read(start, name);
    if keys.len() == 0 {
        assert(lines.drop_last() =~= Seq::<Seq<char>>::empty());
        assert(after_lines(lines.drop_last()) == start);
        assert(section_entries(name, keys, values) =~= Seq::<EntryText>::empty());
    } else {
        let (k, v) = (keys.drop_last(), values.drop_last());
        assert forall|i: int| 0 <= i < k.len() implies 0 <= #[trigger] k[i] < 10 by {
            assert(k[i] == keys[i]);
        }
        assert forall|i: int| 0 <= i < v.len() implies is_value(#[trigger] v[i]) by {
            assert(v[i] == values[i]);
        }
        lemma_section_is_read(name, k, v);
        assert(lines.drop_last() =~= section_lines(name, k, v));
        let (key, value) = (metric_names()[keys.last()], values.last());
        assert(0 <= keys[keys.len() - 1] < 10);
        assert(is_value(values[values.len() - 1]));
        lemma_names_are_plain(keys.last());
        lemma_setting_is_read("cell."@ + name, key, value);
        assert("cell."@.is_prefix_of("cell."@ + name)) by {
            assert(("cell."@ + name).subrange(0, "cell."@.len() as int) =~= "cell."@);
        }
        assert(section_entries(name, keys, values) =~= section_entries(name, k, v).push(
            entry_of("cell."@ + name, setting(key, value)),
        ));
    }
}

/// Which number each metric has after some lines: that of the last line that sets it,
/// and none where no line does.
pub open spec fn sets_metrics(
    list: Seq<Option<Double>>,
    keys: Seq<int>,
    numbers: Seq<Option<Double>>,
) -> bool {
    &&& forall|i: int|
        0 <= i < keys.len() && !keys.skip(i + 1).contains(keys[i]) ==> list[#[trigger] keys[i]]
            == numbers[i]
    &&& forall|k: int| 0 <= k < 10 && !keys.contains(k) ==> #[trigger] list[k] is None
}

/// One more line sets one more metric.
proof fn lemma_one_more_line(
    list: Seq<Option<Double>>,
    keys: Seq<int>,
    numbers: Seq<Option<Double>>,
)
    requires
        list.len() == 10,
        keys.len() == numbers.len(),
        keys.len() > 0,
        forall|i: int| 0 <= i < keys.len() ==> 0 <= #[trigger] keys[i] < 10,
        sets_metrics(list, keys.drop_last(), numbers.drop_last()),
    ensures
        sets_metrics(list.update(keys.last(), numbers.last()), keys, numbers),
{
    let (k, n) = (keys.drop_last(), numbers.drop_last());
    let last = keys.len() - 1;
    let next = list.update(keys.last(), numbers.last());
    assert forall|i: int| 0 <= i < keys.len() && !keys.skip(i + 1).contains(keys[i]) implies next[
    #[trigger] keys[i]] == numbers[i] by {
        if i < last {
            let rest = keys.skip(i + 1);
            assert(rest[last - i - 1] == keys[last]);
            assert(keys[i] != keys[last]);
            assert(k[i] == keys[i]);
            let shorter = k.skip(i + 1);
            if shorter.contains(k[i]) {
                let j = choose|j: int| 0 <= j < shorter.len() && shorter[j] == k[i];
                assert(rest[j] == keys[i]);
            }
            assert(list[k[i]] == n[i]);
        }
    }
    assert forall|j: int| 0 <= j < 10 && !keys.contains(j) implies #[trigger] next[j] is None by {
        assert(keys[last] != j);
        if k.contains(j) {
            let i = choose|i: int| 0 <= i < k.len() && k[i] == j;
            assert(keys[i] == j);
        }
        assert(list[j] is None);
    }
}

/// The cell that some entries of one section make.
proof fn lemma_entries_are_gathered(
    name: Seq<char>,
    keys: Seq<int>,
    values: Seq<Seq<char>>,
    numbers: Seq<Option<Double>>,
)
    requires
        can_be_written(name, keys, values),
        numbers.len() == keys.len(),
    ensures
        ({
            let cells = cells_of(section_entries(name, keys, values), numbers);
            let cell = if keys.len() > 0 { cells[name] } else { CellText::blank() };
            &&& cells.dom() == if keys.len() > 0 {
                Set::<Seq<char>>::empty().insert(name)
            } else {
                Set::<Seq<char>>::empty()
            }
            &&& cell.scenario == Seq::<char>::empty()
            &&& sets_metrics(metric_list(cell.metrics), keys, numbers)
        }),
    decreases keys.len(),
{
    let entries = section_entries(name, keys, values);
    let cells = cells_of(entries, numbers);
    if keys.len() > 0 {
        let (k, v, n) = (keys.drop_last(), values.drop_last(), numbers.drop_last());
        assert forall|i: int| 0 <= i < k.len() implies 0 <= #[trigger] k[i] < 10 by {
            assert(k[i] == keys[i]);
        }
        assert forall|i: int| 0 <= i < v.len() implies is_value(#[trigger] v[i]) by {
            assert(v[i] == values[i]);
        }
        lemma_entries_are_gathered(name, k, v, n);
        assert(entries.drop_last() =~= section_entries(name, k, v));
        let before = cells_of(section_entries(name, k, v), n);
        let was = if k.len() > 0 { before[name] } else { CellText::blank() };
        assert(before.contains_key(name) <==> k.len() > 0) by {
            assert(before.dom().contains(name) <==> k.len() > 0);
        }
        assert(0 <= keys[keys.len() - 1] < 10);
        lemma_key_sets_its_metric(was.metrics, keys.last(), numbers.last());
        lemma_one_more_line(metric_list(was.metrics), keys, numbers);
        assert(cells == before.insert(name, was.after(entries.last(), numbers.last())));
        assert(cells.dom() =~= Set::<Seq<char>>::empty().insert(name));
    } else {
        assert(cells.dom() =~= Set::<Seq<char>>::empty());
    }
}

/// Each key sets the metric of its own name. A text whose only section is that of a
/// cell, and which sets some metrics under their names, gives that cell alone, and
/// gives it each metric that was set, as the last such line has it, and no other.
pub proof fn lemma_metrics_are_read_under_their_names(
    name: Seq<char>,
    keys: Seq<int>,
    values: Seq<Seq<char>>,
    numbers: Seq<Option<Double>>,
)
    requires
        can_be_written(name, keys, values),
        numbers.len() == keys.len(),
        keys.len() > 0,
    ensures
        ({
            let text = text_of_lines(section_lines(name, keys, values));
            let cells = cells_of(entries_of(text), numbers);
            &&& entries_of(text).len() == keys.len()
            &&& forall|i: int|
                0 <= i < keys.len() ==> (#[trigger] entries_of(text)[i]).value == values[i]
            &&& cells.dom() == Set::<Seq<char>>::empty().insert(name)
            &&& cells[name].scenario == Seq::<char>::empty()
            &&& sets_metrics(metric_list(cells[name].metrics), keys, numbers)
        }),
{
    let lines = section_lines(name, keys, values);
    let start = Progress { section: None, entries: Seq::<EntryText>::empty() };
    lemma_header_is_read(start, name);
    assert forall|i: int| 0 <= i < lines.len() implies is_line(#[trigger] lines[i]) by {
        if i > 0 {
            assert(0 <= keys[i - 1] < 10);
            assert(is_value(values[i - 1]));
            lemma_names_are_plain(keys[i - 1]);
            lemma_setting_is_read("cell."@ + name, metric_names()[keys[i - 1]], values[i - 1]);
        }
    }
    lemma_lines_are_read_back(lines);
    lemma_section_is_read(name, keys, values);
    lemma_entries_are_gathered(name, keys, values, numbers);
}

/// A cell that is written out under the names of its metrics is read back as it was.
pub proof fn lemma_cells_are_read_back(name: Seq<char>, values: Seq<Seq<char>>, m: Metrics)
    requires
        can_be_written(name, Seq::new(10, |i: int| i), values),
    ensures
        cells_of(
            entries_of(text_of_lines(section_lines(name, Seq::new(10, |i: int| i), values))),
            metric_list(m),
        )[name].metrics == m,
{
    let keys = Seq::new(10, |i: int| i);
    lemma_metrics_are_read_under_their_names(name, keys, values, metric_list(m));
    let r = cells_of(
        entries_of(text_of_lines(section_lines(name, keys, values))),
        metric_list(m),
    )[name].metrics;
    assert forall|i: int| 0 <= i < 10 implies metric_list(r)[i] == metric_list(m)[i] by {
        let rest = keys.skip(i + 1);
        if rest.contains(keys[i]) {
            let j = choose|j: int| 0 <= j < rest.len() && rest[j] == keys[i];
            assert(rest[j] == keys[i + 1 + j]);
        }
        assert(keys[i] == i);
    }
    let (a, b) = (metric_list(r), metric_list(m));
    assert(a[0] == b[0] && a[1] == b[1] && a[2] == b[2] && a[3] == b[3] && a[4] == b[4] && a[5]
        == b[5] && a[6] == b[6] && a[7] == b[7] && a[8] == b[8] && a[9] == b[9]);
}

/// A text in quotation marks under the key `scenario` is the scenario of the cell.
pub proof fn lemma_scenarios_are_read(name: Seq<char>, scenario: Seq<char>, number: Option<Double>)
    requires
        is_cell_name(name),
        !scenario.contains('\n'),
    ensures
        cells_of(
            entries_of(
                text_of_lines(
                    seq![cell_header(name), setting("scenario"@, "\""@ + scenario + "\""@)],
                ),
            ),
            seq![number],
        ) == map![name => (CellText { scenario, metrics: Metrics::none() })],
{
    reveal_strlit("scenario");
    reveal_strlit("\"");
    reveal_with_fuel(plain, 21);
    let value = "\""@ + scenario + "\""@;
    assert(value[0] == '"' && value.last() == '"');
    assert(!value.contains('\n')) by {
        if value.contains('\n') {
            let i = choose|i: int| 0 <= i < value.len() && value[i] == '\n';
            assert(0 < i < value.len() - 1);
            assert(value[i] == scenario[i - 1]);
            assert(scenario.contains('\n'));
        }
    }
    let start = Progress { section: None, entries: Seq::<EntryText>::empty() };
    lemma_header_is_read(start, name);
    let section = "cell."@ + name;
    lemma_setting_is_read(section, "scenario"@, value);
    let (first, second) = (cell_header(name), setting("scenario"@, value));
    let lines = seq![first, second];
    assert forall|i: int| 0 <= i < lines.len() implies is_line(#[trigger] lines[i]) by {
    }
    lemma_lines_are_read_back(lines);
    assert(lines.drop_last() =~= seq![first]);
    assert(seq![first].drop_last() =~= Seq::<Seq<char>>::empty());
    assert(after_lines(Seq::<Seq<char>>::empty()) == start);
    assert(after_lines(seq![first]) == after_line(start, first));
    assert("cell."@.is_prefix_of(section)) by {
        assert(section.subrange(0, "cell."@.len() as int) =~= "cell."@);
    }
    let entry = entry_of(section, second);
    let entries = entries_of(text_of_lines(lines));
    assert(entries =~= seq![entry]);
    assert(entries.drop_last() =~= Seq::<EntryText>::empty());
    assert(value.subrange(1, value.len() - 1) =~= scenario);
    assert(cells_of(Seq::<EntryText>::empty(), seq![number].drop_last()) =~= Map::<
        Seq<char>,
        CellText,
    >::empty());
    assert(cells_of(entries, seq![number]) =~= map![
        name => (CellText { scenario, metrics: Metrics::none() }),
    ]);
}

/// Lines that say nothing: empty ones, comments, and whatever stands before the first
/// section or in a section that is no cell's.
pub proof fn lemma_lines_that_say_nothing(p: Progress, rest: Seq<char>, key: int, value: Seq<char>)
    requires
        0 <= key < 10,
        is_value(value),
        rest.len() > 0 ==> !is_space(rest.last()),
    ensures
        after_line(p, Seq::<char>::empty()) == p,
        after_line(p, "#"@ + rest) == p,
        p.section is None ==> after_line(p, setting(metric_names()[key], value)) == p,
        p.section matches Some(name) ==> !"cell."@.is_prefix_of(name) ==> after_line(
            p,
            setting(metric_names()[key], value),
        ) == p,
{
    reveal_strlit("#");
    let comment = "#"@ + rest;
    assert(comment[0] == '#');
    if rest.len() > 0 {
        assert(comment.last() == rest.last());
    }
    assert(trimmed_start(comment) == comment);
    assert(trimmed_end(comment) == comment);
    lemma_names_are_plain(key);
    lemma_setting_is_read(Seq::empty(), metric_names()[key], value);
}

/// Another section closes that of a cell: what its header says in brackets is open.
pub proof fn lemma_headers_open_sections(p: Progress, name: Seq<char>)
    ensures
        after_line(p, "["@ + name + "]"@) == (Progress { section: Some(name), ..p }),
{
    reveal_strlit("[");
    reveal_strlit("]");
    let line = "["@ + name + "]"@;
    assert(line[0] == '[' && line.last() == ']');
    assert(trimmed_start(line) == line);
    assert(trimmed_end(line) == line);
    assert(line.subrange(1, line.len() - 1) =~= name);
}

/// A carriage return before the line feed does not belong to the line.
pub proof fn lemma_carriage_returns_are_dropped(line: Seq<char>)
    requires
        !line.contains('\n'),
    ensures
        lines_of(line + "\r\n"@) == seq![line],
{
    reveal_strlit("\r\n");
    let text = line + "\r\n"@;
    let n = line.len() as int;
    lemma_first_at(text, '\n');
    let at = first_at(text, '\n') as int;
    assert(text[n] == '\r' && text[n + 1] == '\n');
    if at < n {
        assert(text[at] == line[at]);
    }
    assert(at == n + 1);
    assert(text.take(at).last() == '\r');
    assert(text.take(at).drop_last() =~= line);
    assert(text.skip(at + 1) =~= Seq::<char>::empty());
    assert(lines_of(Seq::<char>::empty()) =~= Seq::<Seq<char>>::empty());
    assert(seq![line] + Seq::<Seq<char>>::empty() =~= seq![line]);
}

/// All white space.
pub open spec fn all_space(s: Seq<char>) -> bool {
    forall|i: int| 0 <= i < s.len() ==> is_space(#[trigger] s[i])
}

/// White space around a text is trimmed, however much there is, and no more than that.
pub proof fn lemma_white_space_is_trimmed(before: Seq<char>, core: Seq<char>, after: Seq<char>)
    requires
        all_space(before),
        all_space(after),
        core.len() > 0,
        !is_space(core[0]),
        !is_space(core.last()),
    ensures
        trimmed(before + core + after) == core,
{
    let rest = core + after;
    lemma_start_is_trimmed(before, rest);
    assert(before + rest =~= before + core + after);
    assert(rest[0] == core[0]);
    lemma_end_is_trimmed(core, after);
}

proof fn lemma_start_is_trimmed(before: Seq<char>, rest: Seq<char>)
    requires
        all_space(before),
        rest.len() > 0,
        !is_space(rest[0]),
    ensures
        trimmed_start(before + rest) == rest,
    decreases before.len(),
{
    let s = before + rest;
    if before.len() > 0 {
        let fewer = before.drop_first();
        assert(is_space(before[0]));
        assert(all_space(fewer)) by {
            assert forall|i: int| 0 <= i < fewer.len() implies is_space(#[trigger] fewer[i]) by {
                assert(fewer[i] == before[i + 1]);
            }
        }
        lemma_start_is_trimmed(fewer, rest);
        assert(s[0] == before[0]);
        assert(s.drop_first() =~= fewer + rest);
    } else {
        assert(s =~= rest);
    }
}

proof fn lemma_end_is_trimmed(core: Seq<char>, after: Seq<char>)
    requires
        all_space(after),
        core.len() > 0,
        !is_space(core.last()),
    ensures
        trimmed_end(core + after) == core,
    decreases after.len(),
{
    let s = core + after;
    if after.len() > 0 {
        let fewer = after.drop_last();
        assert(is_space(after[after.len() - 1]));
        assert(all_space(fewer)) by {
            assert forall|i: int| 0 <= i < fewer.len() implies is_space(#[trigger] fewer[i]) by {
                assert(fewer[i] == after[i]);
            }
        }
        lemma_end_is_trimmed(core, fewer);
        assert(s.last() == after.last());
        assert(s.drop_last() =~= core + fewer);
    } else {
        assert(s =~= core);
    }
}

} // verus!
