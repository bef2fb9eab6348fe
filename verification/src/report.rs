use vstd::prelude::*;
use crate::bench::{BackendId, BenchmarkConfig, BenchmarkEntry, ScenarioId};
use crate::text::{push_char, push_decimal, push_decimal_u128, push_str, spec_decimal, str_chars, str_to_string};

verus! {

/// All entries of one benchmark run, with the configuration it ran with.
#[derive(Clone, Debug)]
pub struct BenchmarkReport {
    pub config: BenchmarkConfig,
    pub entries: Vec<BenchmarkEntry>,
}

/// `items` with `sep` between each two neighbours.
pub open spec fn joined_with(items: Seq<Seq<char>>, sep: Seq<char>) -> Seq<char>
    decreases items.len(),
{
    if items.len() == 0 {
        Seq::empty()
    } else if items.len() == 1 {
        items[0]
    } else {
        joined_with(items.drop_last(), sep) + sep + items.last()
    }
}

/// `s` with each backslash and each double quote escaped by a backslash.
pub open spec fn json_escaped(s: Seq<char>) -> Seq<char>
    decreases s.len(),
{
    if s.len() == 0 {
        Seq::empty()
    } else {
        json_escaped(s.drop_last()) + if s.last() == '\\' {
            seq!['\\', '\\']
        } else if s.last() == '"' {
            seq!['\\', '"']
        } else {
            seq![s.last()]
        }
    }
}

pub open spec fn quoted(s: Seq<char>) -> Seq<char> {
    "\""@ + s + "\""@
}

pub open spec fn decimal_items(v: Seq<u128>) -> Seq<Seq<char>> {
    v.map_values(|x: u128| spec_decimal(x as nat))
}

pub open spec fn bool_json(b: bool) -> Seq<char> {
    if b {
        "true"@
    } else {
        "false"@
    }
}

pub open spec fn reason_json(reason: Option<String>) -> Seq<char> {
    match reason {
        Some(t) => quoted(json_escaped(t@)),
        None => "null"@,
    }
}

/// The start of an entry's JSON object: backend, scenario, availability and
/// reason.
pub open spec fn entry_json_head(e: BenchmarkEntry) -> Seq<char> {
    "{\"backend\":\""@ + e.backend.spec_name() + "\",\"scenario\":\""@ + e.scenario.spec_name()
        + "\",\"available\":"@ + bool_json(e.available) + ",\"reason\":"@ + reason_json(e.reason)
}

/// The samples of an entry's JSON object.
pub open spec fn entry_json_samples(e: BenchmarkEntry) -> Seq<char> {
    ",\"samples_ns\":["@ + joined_with(decimal_items(e.samples_ns@), ","@) + "],\"min_ns\":"@
}

/// The statistics that close an entry's JSON object.
pub open spec fn entry_json_tail(e: BenchmarkEntry) -> Seq<char> {
    spec_decimal(e.min_ns as nat) + ",\"max_ns\":"@ + spec_decimal(e.max_ns as nat) + ",\"median_ns\":"@
        + spec_decimal(e.median_ns as nat) + ",\"mean_ns\":"@ + spec_decimal(e.mean_ns as nat) + ",\"checksum\":"@
        + spec_decimal(e.checksum as nat) + "}"@
}

/// One entry as a JSON object.
pub open spec fn entry_json(e: BenchmarkEntry) -> Seq<char> {
    entry_json_head(e) + entry_json_samples(e) + entry_json_tail(e)
}

pub open spec fn backend_names(b: Seq<BackendId>) -> Seq<Seq<char>> {
    b.map_values(|x: BackendId| quoted(x.spec_name()))
}

pub open spec fn scenario_names(s: Seq<ScenarioId>) -> Seq<Seq<char>> {
    s.map_values(|x: ScenarioId| quoted(x.spec_name()))
}

pub open spec fn entries_json(entries: Seq<BenchmarkEntry>) -> Seq<Seq<char>> {
    entries.map_values(|e: BenchmarkEntry| entry_json(e))
}

/// A report as one JSON object: the configuration, then the entries.
pub open spec fn report_json(c: BenchmarkConfig, entries: Seq<BenchmarkEntry>) -> Seq<char> {
    "{\"config\":{\"input_len\":"@ + spec_decimal(c.input_len as nat) + ",\"worker_count\":"@ + spec_decimal(
        c.worker_count as nat,
    ) + ",\"chunk_size\":"@ + spec_decimal(c.chunk_size as nat) + ",\"warmup_iterations\":"@ + spec_decimal(
        c.warmup_iterations as nat,
    ) + ",\"measure_iterations\":"@ + spec_decimal(c.measure_iterations as nat) + ",\"seed\":"@ + spec_decimal(
        c.seed as nat,
    ) + ",\"backends\":["@ + joined_with(backend_names(c.backends@), ","@) + "],\"scenarios\":["@ + joined_with(
        scenario_names(c.scenarios@),
        ","@,
    ) + "]},\"entries\":["@ + joined_with(entries_json(entries), ","@) + "]}"@
}

/// `n` spaces.
pub open spec fn spaces(n: nat) -> Seq<char> {
    Seq::new(n, |i: int| ' ')
}

/// `s` followed by spaces up to `width` characters.
pub open spec fn pad_right(s: Seq<char>, width: nat) -> Seq<char> {
    if s.len() < width {
        s + spaces((width - s.len()) as nat)
    } else {
        s
    }
}

/// `s` preceded by spaces up to `width` characters.
pub open spec fn pad_left(s: Seq<char>, width: nat) -> Seq<char> {
    if s.len() < width {
        spaces((width - s.len()) as nat) + s
    } else {
        s
    }
}

pub open spec fn number_cell(n: nat) -> Seq<char> {
    "  "@ + pad_left(spec_decimal(n), 11)
}

/// The backend and scenario columns of a row.
pub open spec fn row_head(e: BenchmarkEntry) -> Seq<char> {
    pad_right(e.backend.spec_name(), 12) + "  "@ + pad_right(e.scenario.spec_name(), 15) + "  "@
}

/// The statistics columns of a row: median, minimum, maximum, mean, checksum.
pub open spec fn row_numbers(e: BenchmarkEntry) -> Seq<char> {
    number_cell(e.median_ns as nat) + number_cell(e.min_ns as nat) + number_cell(e.max_ns as nat) + number_cell(
        e.mean_ns as nat,
    ) + number_cell(e.checksum as nat)
}

pub open spec fn reason_text(reason: Option<String>) -> Seq<char> {
    match reason {
        Some(t) => t@,
        None => "unknown"@,
    }
}

/// One entry as a row of the table.
pub open spec fn entry_row(e: BenchmarkEntry) -> Seq<char> {
    if e.available {
        row_head(e) + pad_right("ok"@, 11) + row_numbers(e)
    } else {
        row_head(e) + pad_right("unavailable"@, 11) + "  "@ + reason_text(e.reason)
    }
}

pub open spec fn table_header() -> Seq<char> {
    "backend       scenario         status       median(ns)   min(ns)      max(ns)      mean(ns)     checksum"@
}

pub open spec fn table_rule() -> Seq<char> {
    "------------  ---------------  -----------  -----------  -----------  -----------  -----------  -----------"@
}

/// A report as a table: a header, a rule, then one row per entry, one per line.
pub open spec fn report_table(entries: Seq<BenchmarkEntry>) -> Seq<char> {
    joined_with(seq![table_header(), table_rule()] + entries.map_values(|e: BenchmarkEntry| entry_row(e)), "\n"@)
}

proof fn lemma_joined_push(items: Seq<Seq<char>>, sep: Seq<char>, x: Seq<char>)
    ensures
        joined_with(items.push(x), sep) == if items.len() == 0 {
            x
        } else {
            joined_with(items, sep) + sep + x
        },
{
    assert(items.push(x).drop_last() =~= items);
}

fn push_escaped(s: &mut String, t: &str)
    ensures
        final(s)@ == old(s)@ + json_escaped(t@),
{
    let chars = str_chars(t);
    let mut i: usize = 0;
    proof {
        assert(chars@.subrange(0, 0) =~= Seq::<char>::empty());
        assert(old(s)@ + json_escaped(Seq::<char>::empty()) =~= old(s)@);
    }
    while i < chars.len()
        invariant
            i <= chars@.len(),
            chars@ == t@,
            s@ == old(s)@ + json_escaped(chars@.subrange(0, i as int)),
        decreases chars@.len() - i,
    {
        let c = chars[i];
        let ghost before = s@;
        if c == '\\' {
            push_char(s, '\\');
            push_char(s, '\\');
        } else if c == '"' {
            push_char(s, '\\');
            push_char(s, '"');
        } else {
            push_char(s, c);
        }
        proof {
            let next = chars@.subrange(0, i + 1);
            assert(next.drop_last() =~= chars@.subrange(0, i as int));
            assert(next.last() == c);
            assert(s@ =~= old(s)@ + json_escaped(next));
        }
        i = i + 1;
    }
    proof {
        assert(chars@.subrange(0, chars@.len() as int) =~= chars@);
    }
}

fn push_spaces(s: &mut String, n: usize)
    ensures
        final(s)@ == old(s)@ + spaces(n as nat),
{
    let mut i: usize = 0;
    while i < n
        invariant
            i <= n,
            s@ == old(s)@ + spaces(i as nat),
        decreases n - i,
    {
        push_char(s, ' ');
        i = i + 1;
        proof {
            assert(s@ =~= old(s)@ + spaces(i as nat));
        }
    }
}

fn push_padded_right(s: &mut String, t: &str, width: usize)
    ensures
        final(s)@ == old(s)@ + pad_right(t@, width as nat),
{
    let len = str_chars(t).len();
    push_str(s, t);
    if len < width {
        push_spaces(s, width - len);
    }
    proof {
        assert(s@ =~= old(s)@ + pad_right(t@, width as nat));
    }
}

fn push_number_cell(s: &mut String, n: u128)
    ensures
        final(s)@ == old(s)@ + number_cell(n as nat),
{
    let mut digits = String::new();
    push_decimal_u128(&mut digits, n);
    proof {
        assert(digits@ =~= spec_decimal(n as nat));
    }
    let len = str_chars(digits.as_str()).len();
    push_str(s, "  ");
    if len < 11 {
        push_spaces(s, 11 - len);
    }
    push_str(s, digits.as_str());
    proof {
        assert(s@ =~= old(s)@ + number_cell(n as nat));
    }
}

fn push_entry_json_head(s: &mut String, e: &BenchmarkEntry)
    ensures
        final(s)@ == old(s)@ + entry_json_head(*e),
{
    push_str(s, "{\"backend\":\"");
    push_str(s, e.backend.as_str());
    push_str(s, "\",\"scenario\":\"");
    push_str(s, e.scenario.as_str());
    push_str(s, "\",\"available\":");
    push_str(s, if e.available { "true" } else { "false" });
    push_str(s, ",\"reason\":");
    let ghost before_reason = s@;
    match &e.reason {
        Some(t) => {
            push_str(s, "\"");
            push_escaped(s, t.as_str());
            push_str(s, "\"");
        },
        None => push_str(s, "null"),
    }
    proof {
        assert(s@ =~= before_reason + reason_json(e.reason));
        assert(s@ =~= old(s)@ + entry_json_head(*e));
    }
}

fn push_entry_json_samples(s: &mut String, e: &BenchmarkEntry)
    ensures
        final(s)@ == old(s)@ + entry_json_samples(*e),
{
    push_str(s, ",\"samples_ns\":[");
    let ghost head = s@;
    let ghost items = decimal_items(e.samples_ns@);
    let mut i: usize = 0;
    proof {
        assert(items.subrange(0, 0) =~= Seq::<Seq<char>>::empty());
        assert(s@ =~= head + joined_with(items.subrange(0, 0), ","@));
    }
    while i < e.samples_ns.len()
        invariant
            i <= e.samples_ns@.len(),
            items == decimal_items(e.samples_ns@),
            s@ == head + joined_with(items.subrange(0, i as int), ","@),
        decreases e.samples_ns@.len() - i,
    {
        if i > 0 {
            push_str(s, ",");
        }
        push_decimal_u128(s, e.samples_ns[i]);
        proof {
            assert(items.subrange(0, i + 1) =~= items.subrange(0, i as int).push(items[i as int]));
            lemma_joined_push(items.subrange(0, i as int), ","@, items[i as int]);
            assert(s@ =~= head + joined_with(items.subrange(0, i + 1), ","@));
        }
        i = i + 1;
    }
    proof {
        assert(items.subrange(0, items.len() as int) =~= items);
    }
    push_str(s, "],\"min_ns\":");
    proof {
        assert(s@ =~= old(s)@ + entry_json_samples(*e));
    }
}

fn push_entry_json_tail(s: &mut String, e: &BenchmarkEntry)
    ensures
        final(s)@ == old(s)@ + entry_json_tail(*e),
{
    push_decimal_u128(s, e.min_ns);
    push_str(s, ",\"max_ns\":");
    push_decimal_u128(s, e.max_ns);
    push_str(s, ",\"median_ns\":");
    push_decimal_u128(s, e.median_ns);
    push_str(s, ",\"mean_ns\":");
    push_decimal_u128(s, e.mean_ns);
    push_str(s, ",\"checksum\":");
    push_decimal(s, e.checksum);
    push_str(s, "}");
    proof {
        assert(s@ =~= old(s)@ + entry_json_tail(*e));
    }
}

fn push_entry_json(s: &mut String, e: &BenchmarkEntry)
    ensures
        final(s)@ == old(s)@ + entry_json(*e),
{
    push_entry_json_head(s, e);
    push_entry_json_samples(s, e);
    push_entry_json_tail(s, e);
    proof {
        assert(s@ =~= old(s)@ + entry_json(*e));
    }
}

fn push_row_head(s: &mut String, e: &BenchmarkEntry)
    ensures
        final(s)@ == old(s)@ + row_head(*e),
{
    push_padded_right(s, e.backend.as_str(), 12);
    push_str(s, "  ");
    push_padded_right(s, e.scenario.as_str(), 15);
    push_str(s, "  ");
    proof {
        assert(s@ =~= old(s)@ + row_head(*e));
    }
}

fn push_row_numbers(s: &mut String, e: &BenchmarkEntry)
    ensures
        final(s)@ == old(s)@ + row_numbers(*e),
{
    push_number_cell(s, e.median_ns);
    push_number_cell(s, e.min_ns);
    push_number_cell(s, e.max_ns);
    push_number_cell(s, e.mean_ns);
    push_number_cell(s, e.checksum as u128);
    proof {
        assert(s@ =~= old(s)@ + row_numbers(*e));
    }
}

fn push_entry_row(s: &mut String, e: &BenchmarkEntry)
    ensures
        final(s)@ == old(s)@ + entry_row(*e),
{
    push_row_head(s, e);
    if e.available {
        push_padded_right(s, "ok", 11);
        push_row_numbers(s, e);
    } else {
        push_padded_right(s, "unavailable", 11);
        push_str(s, "  ");
        match &e.reason {
            Some(t) => push_str(s, t.as_str()),
            None => push_str(s, "unknown"),
        }
    }
    proof {
        assert(s@ =~= old(s)@ + entry_row(*e));
    }
}

impl BenchmarkReport {
    /// The entries, one per backend and scenario.
    pub fn statuses(&self) -> (r: &[BenchmarkEntry])
        ensures
            r@ == self.entries@,
    {
        self.entries.as_slice()
    }

    /// The report as one JSON object.
    pub fn to_json(&self) -> (s: String)
        ensures
            s@ == report_json(self.config, self.entries@),
    {
        let c = &self.config;
        let mut s = str_to_string("{\"config\":{\"input_len\":");
        push_decimal(&mut s, c.input_len as u64);
        push_str(&mut s, ",\"worker_count\":");
        push_decimal(&mut s, c.worker_count as u64);
        push_str(&mut s, ",\"chunk_size\":");
        push_decimal(&mut s, c.chunk_size as u64);
        push_str(&mut s, ",\"warmup_iterations\":");
        push_decimal(&mut s, c.warmup_iterations as u64);
        push_str(&mut s, ",\"measure_iterations\":");
        push_decimal(&mut s, c.measure_iterations as u64);
        push_str(&mut s, ",\"seed\":");
        push_decimal(&mut s, c.seed);
        push_str(&mut s, ",\"backends\":[");
        let ghost head = s@;
        let ghost names = backend_names(c.backends@);
        let mut i: usize = 0;
        proof {
            assert(names.subrange(0, 0) =~= Seq::<Seq<char>>::empty());
            assert(s@ =~= head + joined_with(names.subrange(0, 0), ","@));
        }
        while i < c.backends.len()
            invariant
                i <= c.backends@.len(),
                names == backend_names(c.backends@),
                s@ == head + joined_with(names.subrange(0, i as int), ","@),
            decreases c.backends@.len() - i,
        {
            if i > 0 {
                push_str(&mut s, ",");
            }
            push_str(&mut s, "\"");
            push_str(&mut s, c.backends[i].as_str());
            push_str(&mut s, "\"");
            proof {
                assert(names.subrange(0, i + 1) =~= names.subrange(0, i as int).push(names[i as int]));
                lemma_joined_push(names.subrange(0, i as int), ","@, names[i as int]);
                assert(s@ =~= head + joined_with(names.subrange(0, i + 1), ","@));
            }
            i = i + 1;
        }
        proof {
            assert(names.subrange(0, names.len() as int) =~= names);
        }
        push_str(&mut s, "],\"scenarios\":[");
        let ghost head2 = s@;
        let ghost snames = scenario_names(c.scenarios@);
        let mut j: usize = 0;
        proof {
            assert(snames.subrange(0, 0) =~= Seq::<Seq<char>>::empty());
            assert(s@ =~= head2 + joined_with(snames.subrange(0, 0), ","@));
        }
        while j < c.scenarios.len()
            invariant
                j <= c.scenarios@.len(),
                snames == scenario_names(c.scenarios@),
                s@ == head2 + joined_with(snames.subrange(0, j as int), ","@),
            decreases c.scenarios@.len() - j,
        {
            if j > 0 {
                push_str(&mut s, ",");
            }
            push_str(&mut s, "\"");
            push_str(&mut s, c.scenarios[j].as_str());
            push_str(&mut s, "\"");
            proof {
                assert(snames.subrange(0, j + 1) =~= snames.subrange(0, j as int).push(snames[j as int]));
                lemma_joined_push(snames.subrange(0, j as int), ","@, snames[j as int]);
                assert(s@ =~= head2 + joined_with(snames.subrange(0, j + 1), ","@));
            }
            j = j + 1;
        }
        proof {
            assert(snames.subrange(0, snames.len() as int) =~= snames);
        }
        push_str(&mut s, "]},\"entries\":[");
        let ghost head3 = s@;
        let ghost items = entries_json(self.entries@);
        let mut k: usize = 0;
        proof {
            assert(items.subrange(0, 0) =~= Seq::<Seq<char>>::empty());
            assert(s@ =~= head3 + joined_with(items.subrange(0, 0), ","@));
        }
        while k < self.entries.len()
            invariant
                k <= self.entries@.len(),
                items == entries_json(self.entries@),
                s@ == head3 + joined_with(items.subrange(0, k as int), ","@),
            decreases self.entries@.len() - k,
        {
            if k > 0 {
                push_str(&mut s, ",");
            }
            push_entry_json(&mut s, &self.entries[k]);
            proof {
                assert(items.subrange(0, k + 1) =~= items.subrange(0, k as int).push(items[k as int]));
                lemma_joined_push(items.subrange(0, k as int), ","@, items[k as int]);
                assert(s@ =~= head3 + joined_with(items.subrange(0, k + 1), ","@));
            }
            k = k + 1;
        }
        proof {
            assert(items.subrange(0, items.len() as int) =~= items);
        }
        push_str(&mut s, "]}");
        proof {
            assert(s@ =~= report_json(self.config, self.entries@));
        }
        s
    }

    /// The report as a table, one line per entry under a header.
    pub fn to_table(&self) -> (s: String)
        ensures
            s@ == report_table(self.entries@),
    {
        let ghost lines = seq![table_header(), table_rule()] + self.entries@.map_values(|e: BenchmarkEntry| entry_row(e));
        let mut s = str_to_string(
            "backend       scenario         status       median(ns)   min(ns)      max(ns)      mean(ns)     checksum",
        );
        push_str(&mut s, "\n");
        push_str(
            &mut s,
            "------------  ---------------  -----------  -----------  -----------  -----------  -----------  -----------",
        );
        proof {
            assert(lines.subrange(0, 1) =~= seq![table_header()]);
            assert(lines.subrange(0, 2) =~= lines.subrange(0, 1).push(table_rule()));
            lemma_joined_push(lines.subrange(0, 1), "\n"@, table_rule());
            assert(s@ =~= joined_with(lines.subrange(0, 2), "\n"@));
        }
        let mut k: usize = 0;
        while k < self.entries.len()
            invariant
                k <= self.entries@.len(),
                lines == seq![table_header(), table_rule()] + self.entries@.map_values(|e: BenchmarkEntry| entry_row(e)),
                s@ == joined_with(lines.subrange(0, k + 2), "\n"@),
            decreases self.entries@.len() - k,
        {
            push_str(&mut s, "\n");
            push_entry_row(&mut s, &self.entries[k]);
            proof {
                assert(lines[k + 2] == entry_row(self.entries@[k as int]));
                assert(lines.subrange(0, k + 3) =~= lines.subrange(0, k + 2).push(lines[k + 2]));
                lemma_joined_push(lines.subrange(0, k + 2), "\n"@, lines[k + 2]);
            }
            k = k + 1;
        }
        proof {
            assert(lines.subrange(0, lines.len() as int) =~= lines);
        }
        s
    }
}

} // verus!
