//! The statistics report as plain text: one table per aggregate, with the name
//! of the aggregate, the column names, then the rows, each column as wide as
//! its widest cell.
use vstd::prelude::*;

use crate::catalog::string_views;
use crate::text::{chars_of, decimal, decimal_chars, join, push_all, string_of, trim_end, trim_end_chars};

verus! {

/// `cell` followed by spaces up to `width` characters; a longer cell is kept
/// whole.
pub open spec fn padded(cell: Seq<char>, width: nat) -> Seq<char> {
    if cell.len() >= width {
        cell
    } else {
        cell + Seq::new((width - cell.len()) as nat, |_i: int| ' ')
    }
}

/// Each cell of a line padded to its column's width.
pub open spec fn padded_cells(cells: Seq<Seq<char>>, widths: Seq<usize>) -> Seq<Seq<char>> {
    Seq::new(cells.len(), |c: int| padded(cells[c], widths[c] as nat))
}

/// Two spaces, which is what stands between two cells.
pub open spec fn gap() -> Seq<char> {
    seq![' ', ' ']
}

/// One line of a table: each cell padded to its column's width, the cells
/// joined by two spaces, and nothing white at the end.
pub open spec fn table_line(cells: Seq<Seq<char>>, widths: Seq<usize>) -> Seq<char> {
    trim_end(join(padded_cells(cells, widths), gap()))
}

/// The cells of each row.
pub open spec fn row_views(rows: Seq<Vec<String>>) -> Seq<Seq<Seq<char>>> {
    rows.map_values(|r: Vec<String>| string_views(r@))
}

/// The characters of the widest cell of column `c`, the header among them.
pub open spec fn column_width(header: Seq<char>, rows: Seq<Seq<Seq<char>>>, c: int) -> nat
    decreases rows.len(),
{
    if rows.len() == 0 {
        header.len()
    } else {
        let w = column_width(header, rows.drop_last(), c);
        if 0 <= c < rows.last().len() && rows.last()[c].len() > w {
            rows.last()[c].len()
        } else {
            w
        }
    }
}

/// One line of a table, its cells padded to `widths`.
pub fn pad(cells: &Vec<String>, widths: &Vec<usize>) -> (line: String)
    requires
        cells@.len() <= widths@.len(),
    ensures
        line@ == table_line(string_views(cells@), widths@),
{
    let ghost parts = padded_cells(string_views(cells@), widths@);
    let mut out: Vec<char> = Vec::new();
    let mut c: usize = 0;
    while c < cells.len()
        invariant
            c <= cells@.len() <= widths@.len(),
            parts == padded_cells(string_views(cells@), widths@),
            out@ == join(parts.take(c as int), gap()),
        decreases cells.len() - c,
    {
        assert(parts.take(c + 1).drop_last() =~= parts.take(c as int));
        let ghost start = out@;
        if c > 0 {
            out.push(' ');
            out.push(' ');
        }
        let ghost lead = out@;
        let cell = chars_of(cells[c].as_str());
        push_all(&mut out, &cell);
        let mut n: usize = cell.len();
        while n < widths[c]
            invariant
                c < cells@.len() <= widths@.len(),
                cell@ == cells@[c as int]@,
                cell@.len() <= n <= (if cell@.len() >= widths@[c as int] { cell@.len() as usize } else { widths@[c as int] }),
                out@ == lead + cell@ + Seq::new((n - cell@.len()) as nat, |_i: int| ' '),
            decreases widths@[c as int] - n,
        {
            let ghost was = out@;
            out.push(' ');
            assert(out@ =~= lead + cell@ + Seq::new((n + 1 - cell@.len()) as nat, |_i: int| ' '));
            n += 1;
        }
        proof {
            assert(parts[c as int] == padded(cell@, widths@[c as int] as nat));
            if cell@.len() >= widths@[c as int] {
                assert(out@ =~= lead + parts[c as int]);
            } else {
                assert(out@ =~= lead + parts[c as int]);
            }
            if c == 0 {
                assert(lead =~= Seq::<char>::empty());
                assert(out@ =~= join(parts.take(1), gap()));
            } else {
                assert(lead =~= start + gap());
                assert(out@ =~= join(parts.take(c as int), gap()) + gap() + parts.take(c + 1).last());
            }
        }
        c += 1;
    }
    assert(parts.take(cells@.len() as int) =~= parts);
    let trimmed = trim_end_chars(&out);
    string_of(&trimmed)
}

/// The width of each column: the characters of its widest cell, the header
/// among them.
pub fn column_widths(headers: &Vec<String>, rows: &Vec<Vec<String>>) -> (widths: Vec<usize>)
    requires
        forall|k: int| 0 <= k < rows@.len() ==> (#[trigger] rows@[k])@.len() <= headers@.len(),
    ensures
        widths@.len() == headers@.len(),
        forall|c: int| 0 <= c < headers@.len() ==> widths@[c] == column_width(
            #[trigger] headers@[c]@,
            row_views(rows@),
            c,
        ),
{
    let mut widths: Vec<usize> = Vec::new();
    let mut c: usize = 0;
    while c < headers.len()
        invariant
            c <= headers@.len(),
            widths@.len() == c,
            forall|j: int| 0 <= j < c ==> widths@[j] == column_width(#[trigger] headers@[j]@, row_views(rows@), j),
        decreases headers.len() - c,
    {
        let header = chars_of(headers[c].as_str());
        let mut w: usize = header.len();
        let mut k: usize = 0;
        while k < rows.len()
            invariant
                c < headers@.len(),
                k <= rows@.len(),
                header@ == headers@[c as int]@,
                w == column_width(header@, row_views(rows@).take(k as int), c as int),
            decreases rows.len() - k,
        {
            proof {
                assert(row_views(rows@).take(k + 1).drop_last() =~= row_views(rows@).take(k as int));
                assert(row_views(rows@).take(k + 1).last() == string_views(rows@[k as int]@));
            }
            if c < rows[k].len() {
                let cell = chars_of(rows[k][c].as_str());
                if cell.len() > w {
                    w = cell.len();
                }
            }
            k += 1;
        }
        proof {
            assert(row_views(rows@).take(rows@.len() as int) =~= row_views(rows@));
        }
        widths.push(w);
        c += 1;
    }
    widths
}

/// The lines of one table: the name of the aggregate, the column names, one
/// line per row, each of those two spaces in, and an empty line after.
pub open spec fn table_text(name: Seq<char>, headers: Seq<Seq<char>>, rows: Seq<Seq<Seq<char>>>, widths: Seq<usize>) -> Seq<Seq<char>> {
    seq![name, gap() + table_line(headers, widths)] + Seq::new(
        rows.len(),
        |k: int| gap() + table_line(rows[k], widths),
    ) + seq![Seq::<char>::empty()]
}

/// The width of each column of a table with these headers and rows.
pub open spec fn widths_of(headers: Seq<Seq<char>>, rows: Seq<Seq<Seq<char>>>) -> Seq<usize> {
    Seq::new(headers.len(), |c: int| column_width(headers[c], rows, c) as usize)
}

/// `"  "` and then `line`.
fn indented(line: String) -> (out: String)
    ensures
        out@ == gap() + line@,
{
    let mut chars: Vec<char> = Vec::new();
    chars.push(' ');
    chars.push(' ');
    push_all(&mut chars, &chars_of(line.as_str()));
    assert(chars@ =~= gap() + line@);
    string_of(&chars)
}

/// The lines of the table for one aggregate. Every row has at most as many
/// cells as there are headers.
pub fn table_lines(name: &str, headers: &Vec<String>, rows: &Vec<Vec<String>>) -> (lines: Vec<String>)
    requires
        forall|k: int| 0 <= k < rows@.len() ==> (#[trigger] rows@[k])@.len() <= headers@.len(),
    ensures
        string_views(lines@) == table_text(
            name@,
            string_views(headers@),
            row_views(rows@),
            widths_of(string_views(headers@), row_views(rows@)),
        ),
{
    let widths = column_widths(headers, rows);
    let ghost w = widths_of(string_views(headers@), row_views(rows@));
    assert(widths@ =~= w) by {
        assert forall|c: int| 0 <= c < headers@.len() implies widths@[c] == w[c] by {
            assert(string_views(headers@)[c] == headers@[c]@);
            assert(widths@[c] == column_width(headers@[c]@, row_views(rows@), c));
        }
    }
    let mut lines: Vec<String> = Vec::new();
    lines.push(string_of(&chars_of(name)));
    lines.push(indented(pad(headers, &widths)));
    let mut k: usize = 0;
    while k < rows.len()
        invariant
            k <= rows@.len(),
            widths@ == w,
            widths@.len() == headers@.len(),
            forall|j: int| 0 <= j < rows@.len() ==> (#[trigger] rows@[j])@.len() <= headers@.len(),
            string_views(lines@) == seq![name@, gap() + table_line(string_views(headers@), w)] + Seq::new(
                k as nat,
                |j: int| gap() + table_line(row_views(rows@)[j], w),
            ),
        decreases rows.len() - k,
    {
        let line = indented(pad(&rows[k], &widths));
        let ghost before = lines@;
        lines.push(line);
        proof {
            assert(row_views(rows@)[k as int] == string_views(rows@[k as int]@));
            assert(string_views(lines@) =~= string_views(before).push(line@));
            assert(string_views(lines@) =~= seq![name@, gap() + table_line(string_views(headers@), w)] + Seq::new(
                (k + 1) as nat,
                |j: int| gap() + table_line(row_views(rows@)[j], w),
            ));
        }
        k += 1;
    }
    let ghost before = lines@;
    lines.push(String::new());
    assert(string_views(lines@) =~= string_views(before).push(Seq::<char>::empty()));
    assert(string_views(lines@) =~= table_text(name@, string_views(headers@), row_views(rows@), w));
    lines
}

/// Each column is as wide as its widest cell: no cell of it, the header among
/// them, is wider, and one of them is exactly that wide.
pub proof fn lemma_column_width_is_widest(header: Seq<char>, rows: Seq<Seq<Seq<char>>>, c: int)
    ensures
        column_width(header, rows, c) >= header.len(),
        forall|k: int| 0 <= k < rows.len() && 0 <= c < rows[k].len() ==> column_width(header, rows, c) >= (
        #[trigger] rows[k])[c].len(),
        column_width(header, rows, c) == header.len() || exists|k: int|
            0 <= k < rows.len() && 0 <= c < rows[k].len() && column_width(header, rows, c) == (#[trigger] rows[k])[c].len(),
    decreases rows.len(),
{
    if rows.len() > 0 {
        lemma_column_width_is_widest(header, rows.drop_last(), c);
        let w = column_width(header, rows.drop_last(), c);
        assert forall|k: int| 0 <= k < rows.len() && 0 <= c < rows[k].len() implies column_width(header, rows, c) >= (
        #[trigger] rows[k])[c].len() by {
            if k < rows.len() - 1 {
                assert(rows.drop_last()[k] == rows[k]);
            }
        }
        if column_width(header, rows, c) != header.len() {
            if column_width(header, rows, c) == w {
                let k = choose|k: int| 0 <= k < rows.drop_last().len() && 0 <= c < rows.drop_last()[k].len()
                    && w == (#[trigger] rows.drop_last()[k])[c].len();
                assert(rows.drop_last()[k] == rows[k]);
                assert(column_width(header, rows, c) == rows[k][c].len());
            } else {
                let k = rows.len() - 1;
                assert(rows[k] == rows.last());
                assert(column_width(header, rows, c) == rows[k][c].len());
            }
        }
    }
}

/// Within a table every cell is padded to exactly its column's width, so every
/// column starts at the same character on every line.
pub proof fn lemma_cells_fill_their_columns(cells: Seq<Seq<char>>, widths: Seq<usize>)
    requires
        cells.len() <= widths.len(),
        forall|c: int| 0 <= c < cells.len() ==> (#[trigger] cells[c]).len() <= widths[c],
    ensures
        forall|c: int| 0 <= c < cells.len() ==> (#[trigger] padded_cells(cells, widths)[c]).len() == widths[c],
{
}

/// What each memory was shown for, and how often.
#[derive(Clone, Debug)]
pub struct MemoryStatsRow {
    pub memory: String,
    pub shown_index: u64,
    pub shown_full_new: u64,
    pub shown_full_changed: u64,
    pub shown_full_stale: u64,
    pub fetched_full: u64,
    pub retracted: u64,
    /// When the memory was last shown, as the log wrote it.
    pub last_shown: Option<String>,
}

/// What one trigger pattern did.
#[derive(Clone, Debug)]
pub struct TriggerStatsRow {
    pub scope_id: String,
    pub field: String,
    pub pattern: String,
    pub fires: u64,
    pub new_activations: u64,
    /// The share of its fires that stopped a tool call, already written with
    /// two decimals.
    pub deny_share: String,
}

/// How often one scope was turned on, as the log recorded it.
#[derive(Clone, Debug)]
pub struct ScopeActivationsRow {
    pub scope_id: String,
    pub activations: u64,
}

/// Stopped tool calls on one day, against every event of that day.
#[derive(Clone, Debug)]
pub struct DenyDayRow {
    pub day: String,
    pub denies: u64,
    pub events: u64,
}

/// How long the server took to answer one kind of event, in microseconds.
#[derive(Clone, Debug)]
pub struct LatencyRow {
    pub event: String,
    pub count: u64,
    pub p50_us: u64,
    pub p90_us: u64,
    pub p99_us: u64,
    pub max_us: u64,
}

/// What one session was delivered, in bytes.
#[derive(Clone, Debug)]
pub struct SessionBytesRow {
    pub session_key: String,
    pub bytes_full: u64,
    pub bytes_index: u64,
}

/// Every aggregate of the statistics log.
#[derive(Clone, Debug)]
pub struct StatsReport {
    pub memories: Vec<MemoryStatsRow>,
    pub triggers: Vec<TriggerStatsRow>,
    pub scopes: Vec<ScopeActivationsRow>,
    pub denies: Vec<DenyDayRow>,
    pub latency: Vec<LatencyRow>,
    pub sessions: Vec<SessionBytesRow>,
}

/// An absent text as the empty one.
pub open spec fn or_empty(t: Option<String>) -> Seq<char> {
    match t {
        Some(s) => s@,
        None => Seq::empty(),
    }
}

/// The cells of a memory's line.
pub open spec fn memory_cells(r: MemoryStatsRow) -> Seq<Seq<char>> {
    seq![
        r.memory@,
        decimal(r.shown_index as nat),
        decimal(r.shown_full_new as nat),
        decimal(r.shown_full_changed as nat),
        decimal(r.shown_full_stale as nat),
        decimal(r.fetched_full as nat),
        decimal(r.retracted as nat),
        or_empty(r.last_shown),
    ]
}

/// The cells of a trigger's line.
pub open spec fn trigger_cells(r: TriggerStatsRow) -> Seq<Seq<char>> {
    seq![r.scope_id@, r.field@, r.pattern@, decimal(r.fires as nat), decimal(r.new_activations as nat), r.deny_share@]
}

/// The cells of a scope's line.
pub open spec fn scope_cells(r: ScopeActivationsRow) -> Seq<Seq<char>> {
    seq![r.scope_id@, decimal(r.activations as nat)]
}

/// The cells of a day's line.
pub open spec fn deny_cells(r: DenyDayRow) -> Seq<Seq<char>> {
    seq![r.day@, decimal(r.denies as nat), decimal(r.events as nat)]
}

/// The cells of an event kind's line.
pub open spec fn latency_cells(r: LatencyRow) -> Seq<Seq<char>> {
    seq![
        r.event@,
        decimal(r.count as nat),
        decimal(r.p50_us as nat),
        decimal(r.p90_us as nat),
        decimal(r.p99_us as nat),
        decimal(r.max_us as nat),
    ]
}

/// The cells of a session's line.
pub open spec fn session_cells(r: SessionBytesRow) -> Seq<Seq<char>> {
    seq![r.session_key@, decimal(r.bytes_full as nat), decimal(r.bytes_index as nat)]
}

/// One table of the report, from its name, its column names and its lines.
pub open spec fn table_of(name: Seq<char>, headers: Seq<Seq<char>>, rows: Seq<Seq<Seq<char>>>) -> Seq<Seq<char>> {
    table_text(name, headers, rows, widths_of(headers, rows))
}

/// The report as plain text: one table per aggregate.
pub open spec fn report_text(r: StatsReport) -> Seq<Seq<char>> {
    table_of(
        "memories"@,
        seq![
            "memory"@,
            "shown_index"@,
            "shown_full_new"@,
            "shown_full_changed"@,
            "shown_full_stale"@,
            "fetched_full"@,
            "retracted"@,
            "last_shown"@,
        ],
        r.memories@.map_values(|x: MemoryStatsRow| memory_cells(x)),
    ) + table_of(
        "triggers"@,
        seq!["scope_id"@, "field"@, "pattern"@, "fires"@, "new_activations"@, "deny_share"@],
        r.triggers@.map_values(|x: TriggerStatsRow| trigger_cells(x)),
    ) + table_of(
        "scopes"@,
        seq!["scope_id"@, "activations"@],
        r.scopes@.map_values(|x: ScopeActivationsRow| scope_cells(x)),
    ) + table_of(
        "denies"@,
        seq!["day"@, "denies"@, "events"@],
        r.denies@.map_values(|x: DenyDayRow| deny_cells(x)),
    ) + table_of(
        "latency"@,
        seq!["event"@, "count"@, "p50_us"@, "p90_us"@, "p99_us"@, "max_us"@],
        r.latency@.map_values(|x: LatencyRow| latency_cells(x)),
    ) + table_of(
        "sessions"@,
        seq!["session_key"@, "bytes_full"@, "bytes_index"@],
        r.sessions@.map_values(|x: SessionBytesRow| session_cells(x)),
    )
}

/// `n` in decimal.
fn number(n: u64) -> (text: String)
    ensures
        text@ == decimal(n as nat),
{
    string_of(&decimal_chars(n))
}

/// A text of its own.
fn owned(t: &str) -> (text: String)
    ensures
        text@ == t@,
{
    string_of(&chars_of(t))
}

/// An absent text as the empty one.
fn text_or_empty(t: &Option<String>) -> (text: String)
    ensures
        text@ == or_empty(*t),
{
    match t {
        Some(s) => owned(s.as_str()),
        None => String::new(),
    }
}

/// Append one table to the report's lines.
fn append_table(lines: &mut Vec<String>, name: &str, headers: &Vec<String>, rows: &Vec<Vec<String>>)
    requires
        forall|k: int| 0 <= k < rows@.len() ==> (#[trigger] rows@[k])@.len() <= headers@.len(),
    ensures
        string_views(final(lines)@) == string_views(old(lines)@) + table_of(
            name@,
            string_views(headers@),
            row_views(rows@),
        ),
{
    let table = table_lines(name, headers, rows);
    let mut i: usize = 0;
    let ghost before = lines@;
    while i < table.len()
        invariant
            i <= table@.len(),
            string_views(lines@) == string_views(before) + string_views(table@).take(i as int),
        decreases table.len() - i,
    {
        let ghost was = lines@;
        lines.push(owned(table[i].as_str()));
        assert(string_views(lines@) =~= string_views(was).push(table@[i as int]@));
        assert(string_views(table@).take(i + 1) =~= string_views(table@).take(i as int).push(table@[i as int]@));
        i += 1;
    }
    assert(string_views(table@).take(table@.len() as int) =~= string_views(table@));
}

/// The lines of a list of texts.
fn names(items: &[&str]) -> (out: Vec<String>)
    ensures
        out@.len() == items@.len(),
        forall|i: int| 0 <= i < items@.len() ==> (#[trigger] out@[i])@ == items@[i]@,
{
    let mut out: Vec<String> = Vec::new();
    let mut i: usize = 0;
    while i < items.len()
        invariant
            i <= items@.len(),
            out@.len() == i,
            forall|j: int| 0 <= j < i ==> (#[trigger] out@[j])@ == items@[j]@,
        decreases items.len() - i,
    {
        out.push(owned(items[i]));
        i += 1;
    }
    out
}

/// The statistics report as plain text, one table per aggregate: its name,
/// its column names, then its lines, each column as wide as its widest cell,
/// and an empty line after it.
pub fn report_lines(report: &StatsReport) -> (lines: Vec<String>)
    ensures
        string_views(lines@) == report_text(*report),
{
    let mut lines: Vec<String> = Vec::new();
    // memories
    let headers = names(&[
        "memory",
        "shown_index",
        "shown_full_new",
        "shown_full_changed",
        "shown_full_stale",
        "fetched_full",
        "retracted",
        "last_shown",
    ]);
    let mut rows: Vec<Vec<String>> = Vec::new();
    let mut i: usize = 0;
    while i < report.memories.len()
        invariant
            i <= report.memories@.len(),
            rows@.len() == i,
            forall|k: int| 0 <= k < i ==> string_views((#[trigger] rows@[k])@) == memory_cells(report.memories@[k]),
        decreases report.memories.len() - i,
    {
        let r = &report.memories[i];
        let mut cells: Vec<String> = Vec::new();
        cells.push(owned(r.memory.as_str()));
        cells.push(number(r.shown_index));
        cells.push(number(r.shown_full_new));
        cells.push(number(r.shown_full_changed));
        cells.push(number(r.shown_full_stale));
        cells.push(number(r.fetched_full));
        cells.push(number(r.retracted));
        cells.push(text_or_empty(&r.last_shown));
        assert(string_views(cells@) =~= memory_cells(*r));
        rows.push(cells);
        i += 1;
    }
    proof {
        assert(string_views(headers@) =~= seq![
            "memory"@,
            "shown_index"@,
            "shown_full_new"@,
            "shown_full_changed"@,
            "shown_full_stale"@,
            "fetched_full"@,
            "retracted"@,
            "last_shown"@,
        ]);
        assert(row_views(rows@) =~= report.memories@.map_values(|x: MemoryStatsRow| memory_cells(x)));
    }
    append_table(&mut lines, "memories", &headers, &rows);
    // triggers
    let headers = names(&["scope_id", "field", "pattern", "fires", "new_activations", "deny_share"]);
    let mut rows: Vec<Vec<String>> = Vec::new();
    let mut i: usize = 0;
    while i < report.triggers.len()
        invariant
            i <= report.triggers@.len(),
            rows@.len() == i,
            forall|k: int| 0 <= k < i ==> string_views((#[trigger] rows@[k])@) == trigger_cells(report.triggers@[k]),
        decreases report.triggers.len() - i,
    {
        let r = &report.triggers[i];
        let mut cells: Vec<String> = Vec::new();
        cells.push(owned(r.scope_id.as_str()));
        cells.push(owned(r.field.as_str()));
        cells.push(owned(r.pattern.as_str()));
        cells.push(number(r.fires));
        cells.push(number(r.new_activations));
        cells.push(owned(r.deny_share.as_str()));
        assert(string_views(cells@) =~= trigger_cells(*r));
        rows.push(cells);
        i += 1;
    }
    proof {
        assert(string_views(headers@) =~= seq!["scope_id"@, "field"@, "pattern"@, "fires"@, "new_activations"@, "deny_share"@]);
        assert(row_views(rows@) =~= report.triggers@.map_values(|x: TriggerStatsRow| trigger_cells(x)));
    }
    append_table(&mut lines, "triggers", &headers, &rows);
    // scopes
    let headers = names(&["scope_id", "activations"]);
    let mut rows: Vec<Vec<String>> = Vec::new();
    let mut i: usize = 0;
    while i < report.scopes.len()
        invariant
            i <= report.scopes@.len(),
            rows@.len() == i,
            forall|k: int| 0 <= k < i ==> string_views((#[trigger] rows@[k])@) == scope_cells(report.scopes@[k]),
        decreases report.scopes.len() - i,
    {
        let r = &report.scopes[i];
        let mut cells: Vec<String> = Vec::new();
        cells.push(owned(r.scope_id.as_str()));
        cells.push(number(r.activations));
        assert(string_views(cells@) =~= scope_cells(*r));
        rows.push(cells);
        i += 1;
    }
    proof {
        assert(string_views(headers@) =~= seq!["scope_id"@, "activations"@]);
        assert(row_views(rows@) =~= report.scopes@.map_values(|x: ScopeActivationsRow| scope_cells(x)));
    }
    append_table(&mut lines, "scopes", &headers, &rows);
    // denies
    let headers = names(&["day", "denies", "events"]);
    let mut rows: Vec<Vec<String>> = Vec::new();
    let mut i: usize = 0;
    while i < report.denies.len()
        invariant
            i <= report.denies@.len(),
            rows@.len() == i,
            forall|k: int| 0 <= k < i ==> string_views((#[trigger] rows@[k])@) == deny_cells(report.denies@[k]),
        decreases report.denies.len() - i,
    {
        let r = &report.denies[i];
        let mut cells: Vec<String> = Vec::new();
        cells.push(owned(r.day.as_str()));
        cells.push(number(r.denies));
        cells.push(number(r.events));
        assert(string_views(cells@) =~= deny_cells(*r));
        rows.push(cells);
        i += 1;
    }
    proof {
        assert(string_views(headers@) =~= seq!["day"@, "denies"@, "events"@]);
        assert(row_views(rows@) =~= report.denies@.map_values(|x: DenyDayRow| deny_cells(x)));
    }
    append_table(&mut lines, "denies", &headers, &rows);
    // latency
    let headers = names(&["event", "count", "p50_us", "p90_us", "p99_us", "max_us"]);
    let mut rows: Vec<Vec<String>> = Vec::new();
    let mut i: usize = 0;
    while i < report.latency.len()
        invariant
            i <= report.latency@.len(),
            rows@.len() == i,
            forall|k: int| 0 <= k < i ==> string_views((#[trigger] rows@[k])@) == latency_cells(report.latency@[k]),
        decreases report.latency.len() - i,
    {
        let r = &report.latency[i];
        let mut cells: Vec<String> = Vec::new();
        cells.push(owned(r.event.as_str()));
        cells.push(number(r.count));
        cells.push(number(r.p50_us));
        cells.push(number(r.p90_us));
        cells.push(number(r.p99_us));
        cells.push(number(r.max_us));
        assert(string_views(cells@) =~= latency_cells(*r));
        rows.push(cells);
        i += 1;
    }
    proof {
        assert(string_views(headers@) =~= seq!["event"@, "count"@, "p50_us"@, "p90_us"@, "p99_us"@, "max_us"@]);
        assert(row_views(rows@) =~= report.latency@.map_values(|x: LatencyRow| latency_cells(x)));
    }
    append_table(&mut lines, "latency", &headers, &rows);
    // sessions
    let headers = names(&["session_key", "bytes_full", "bytes_index"]);
    let mut rows: Vec<Vec<String>> = Vec::new();
    let mut i: usize = 0;
    while i < report.sessions.len()
        invariant
            i <= report.sessions@.len(),
            rows@.len() == i,
            forall|k: int| 0 <= k < i ==> string_views((#[trigger] rows@[k])@) == session_cells(report.sessions@[k]),
        decreases report.sessions.len() - i,
    {
        let r = &report.sessions[i];
        let mut cells: Vec<String> = Vec::new();
        cells.push(owned(r.session_key.as_str()));
        cells.push(number(r.bytes_full));
        cells.push(number(r.bytes_index));
        assert(string_views(cells@) =~= session_cells(*r));
        rows.push(cells);
        i += 1;
    }
    proof {
        assert(string_views(headers@) =~= seq!["session_key"@, "bytes_full"@, "bytes_index"@]);
        assert(row_views(rows@) =~= report.sessions@.map_values(|x: SessionBytesRow| session_cells(x)));
    }
    append_table(&mut lines, "sessions", &headers, &rows);
    lines
}

} // verus!
