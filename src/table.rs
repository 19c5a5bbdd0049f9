//! Reading a CSV stream row by row: the header names the `ean` column, and
//! every later row counts as valid or invalid by the code it holds there.
use crate::gtin::{is_gtin13, is_valid_gtin_13_bytes};
use vstd::prelude::*;
use vstd::string::StringSliceAdditionalSpecFns;

verus! {

/// The comma that separates the fields of a row.
pub const COMMA: u8 = 44;

/// The double quote that may surround a field.
pub const QUOTE: u8 = 34;

/// What each byte vector of `v` holds.
pub open spec fn views(v: Seq<Vec<u8>>) -> Seq<Seq<u8>> {
    v.map_values(|f: Vec<u8>| f@)
}

/// `s` cut at every `sep`: one piece more than there are separators.
pub open spec fn split_on(s: Seq<u8>, sep: u8) -> Seq<Seq<u8>>
    decreases s.len(),
{
    if s.len() == 0 {
        seq![Seq::<u8>::empty()]
    } else {
        let r = split_on(s.drop_last(), sep);
        if s.last() == sep {
            r.push(Seq::<u8>::empty())
        } else {
            r.update(r.len() - 1, r.last().push(s.last()))
        }
    }
}

proof fn lemma_split_nonempty(s: Seq<u8>, sep: u8)
    ensures
        split_on(s, sep).len() >= 1,
    decreases s.len(),
{
    if s.len() > 0 {
        lemma_split_nonempty(s.drop_last(), sep);
    }
}

/// The pieces of `s` between the separators `sep`.
pub fn split_fields(s: &[u8], sep: u8) -> (r: Vec<Vec<u8>>)
    ensures
        views(r@) == split_on(s@, sep),
{
    let n = s.len();
    let mut fields: Vec<Vec<u8>> = Vec::new();
    let mut cur: Vec<u8> = Vec::new();
    let mut i: usize = 0;
    assert(views(fields@).push(cur@) =~= split_on(s@.subrange(0, 0), sep));
    while i < n
        invariant
            i <= n,
            n == s@.len(),
            views(fields@).push(cur@) == split_on(s@.subrange(0, i as int), sep),
        decreases n - i,
    {
        let ghost pre = s@.subrange(0, i as int);
        assert(s@.subrange(0, i as int + 1).drop_last() =~= pre);
        let ghost before = views(fields@);
        proof {
            lemma_split_nonempty(pre, sep);
        }
        let b = s[i];
        if b == sep {
            let ghost c = cur@;
            fields.push(cur);
            cur = Vec::new();
            assert(views(fields@) =~= before.push(c));
            assert(views(fields@).push(cur@) =~= split_on(s@.subrange(0, i as int + 1), sep));
        } else {
            let ghost old_cur = cur@;
            cur.push(b);
            assert(views(fields@).push(cur@) =~= before.push(old_cur).update(
                before.len() as int,
                old_cur.push(b),
            ));
        }
        i = i + 1;
    }
    let ghost before = views(fields@);
    let ghost c = cur@;
    fields.push(cur);
    assert(s@.subrange(0, n as int) =~= s@);
    assert(views(fields@) =~= before.push(c));
    fields
}


/// The header name `ean`.
pub open spec fn ean_label() -> Seq<u8> {
    seq![101u8, 97u8, 110u8]
}

/// Position of the first field from `i` on that is `ean`, if any.
pub open spec fn find_ean_from(h: Seq<Seq<u8>>, i: int) -> Option<nat>
    decreases h.len() - i,
{
    if i < 0 || i >= h.len() {
        None
    } else if h[i] == ean_label() {
        Some(i as nat)
    } else {
        find_ean_from(h, i + 1)
    }
}

/// The column that holds the codes: the first header field named exactly
/// `ean`, or the first column when no field has that name.
pub open spec fn ean_column(header: Seq<u8>) -> nat {
    match find_ean_from(split_on(header, COMMA), 0) {
        Some(i) => i,
        None => 0,
    }
}

/// Index of the first field equal to `ean`, or 0 when there is none.
pub fn find_ean_column(fields: &Vec<Vec<u8>>) -> (r: usize)
    ensures
        r as nat == match find_ean_from(views(fields@), 0) {
            Some(i) => i,
            None => 0,
        },
{
    let mut i: usize = 0;
    while i < fields.len()
        invariant
            i <= fields.len(),
            find_ean_from(views(fields@), 0) == find_ean_from(views(fields@), i as int),
        decreases fields.len() - i,
    {
        let f = &fields[i];
        if f.len() == 3 && f[0] == 101 && f[1] == 97 && f[2] == 110 {
            assert(views(fields@)[i as int] =~= ean_label());
            return i;
        }
        assert(views(fields@)[i as int] != ean_label()) by {
            if f@.len() == 3 {
                assert(views(fields@)[i as int][0] != ean_label()[0] || views(fields@)[i as int][1]
                    != ean_label()[1] || views(fields@)[i as int][2] != ean_label()[2]);
            }
        }
        i = i + 1;
    }
    0
}

/// `f` without one pair of surrounding double quotes, where it starts and ends
/// with one (a lone quote is no pair).
pub open spec fn unquote(f: Seq<u8>) -> Seq<u8> {
    if f.len() >= 2 && f[0] == QUOTE && f[f.len() - 1] == QUOTE {
        f.subrange(1, f.len() - 1)
    } else {
        f
    }
}

/// Copy of `f` without one pair of surrounding double quotes.
pub fn strip_quotes(f: &[u8]) -> (r: Vec<u8>)
    ensures
        r@ == unquote(f@),
{
    let n = f.len();
    let (start, end) = if n >= 2 && f[0] == QUOTE && f[n - 1] == QUOTE {
        (1, n - 1)
    } else {
        (0, n)
    };
    let mut r: Vec<u8> = Vec::new();
    let mut i: usize = start;
    while i < end
        invariant
            start <= i <= end <= n,
            n == f@.len(),
            r@ =~= f@.subrange(start as int, i as int),
        decreases end - i,
    {
        r.push(f[i]);
        i = i + 1;
    }
    assert(f@.subrange(0, n as int) =~= f@);
    r
}

/// A data row is valid when it has a field at `column` and that field,
/// unquoted, is a GTIN-13 code.
pub open spec fn row_is_valid(line: Seq<u8>, column: nat) -> bool {
    let fields = split_on(line, COMMA);
    column < fields.len() && is_gtin13(unquote(fields[column as int]))
}

/// Does the data row `line` hold a GTIN-13 code in field `column`?
pub fn check_row(line: &[u8], column: usize) -> (r: bool)
    ensures
        r == row_is_valid(line@, column as nat),
{
    let fields = split_fields(line, COMMA);
    if column >= fields.len() {
        return false;
    }
    assert(views(fields@)[column as int] == fields[column as int]@);
    let ean = strip_quotes(fields[column].as_slice());
    is_valid_gtin_13_bytes(ean.as_slice())
}


/// Where a reader of the stream stands, as a mathematical value.
pub enum Stage {
    /// No header line seen yet.
    Header,
    /// The header named the code column `column`; data rows follow.
    Rows { column: nat },
    /// A line could not be read where the header was due: the run is over.
    Halted,
}

/// A reader's stage and its two counters.
pub struct Tally {
    pub stage: Stage,
    pub valid: nat,
    pub invalid: nat,
}

/// The state before the first line.
pub open spec fn start() -> Tally {
    Tally { stage: Stage::Header, valid: 0, invalid: 0 }
}

/// One item of the stream: a line's bytes, or `None` for a line that could
/// not be read.
pub open spec fn step(t: Tally, item: Option<Seq<u8>>) -> Tally {
    match item {
        None => match t.stage {
            Stage::Header => Tally { stage: Stage::Halted, ..t },
            Stage::Rows { .. } => Tally { invalid: t.invalid + 1, ..t },
            Stage::Halted => t,
        },
        Some(line) => if line.len() == 0 {
            t
        } else {
            match t.stage {
                Stage::Header => Tally { stage: Stage::Rows { column: ean_column(line) }, ..t },
                Stage::Rows { column } => if row_is_valid(line, column) {
                    Tally { valid: t.valid + 1, ..t }
                } else {
                    Tally { invalid: t.invalid + 1, ..t }
                },
                Stage::Halted => t,
            }
        },
    }
}

/// The state after the whole stream `items`.
pub open spec fn run(items: Seq<Option<Seq<u8>>>) -> Tally
    decreases items.len(),
{
    if items.len() == 0 {
        start()
    } else {
        step(run(items.drop_last()), items.last())
    }
}

/// Where a [`RowCounter`] stands.
enum Phase {
    Header,
    Rows(usize),
    Halted,
}

/// Counts the valid and invalid data rows of a CSV stream fed to it one line
/// at a time. Empty lines are skipped. A line that could not be read counts
/// as an invalid row; where the header was due it ends the run, which then
/// counts nothing.
pub struct RowCounter {
    phase: Phase,
    valid: usize,
    invalid: usize,
}

impl View for RowCounter {
    type V = Tally;

    closed spec fn view(&self) -> Tally {
        Tally {
            stage: match self.phase {
                Phase::Header => Stage::Header,
                Phase::Rows(c) => Stage::Rows { column: c as nat },
                Phase::Halted => Stage::Halted,
            },
            valid: self.valid as nat,
            invalid: self.invalid as nat,
        }
    }
}

impl RowCounter {
    /// A counter before the header line.
    pub fn new() -> (r: RowCounter)
        ensures
            r@ == start(),
    {
        RowCounter { phase: Phase::Header, valid: 0, invalid: 0 }
    }

    /// Takes the next line of the stream, without its line terminator.
    pub fn feed_line(&mut self, line: &[u8])
        requires
            old(self)@.valid + old(self)@.invalid < usize::MAX,
        ensures
            final(self)@ == step(old(self)@, Some(line@)),
    {
        if line.len() == 0 {
            return;
        }
        match self.phase {
            Phase::Header => {
                let header = split_fields(line, COMMA);
                let column = find_ean_column(&header);
                self.phase = Phase::Rows(column);
            },
            Phase::Rows(column) => {
                if check_row(line, column) {
                    self.valid = self.valid + 1;
                } else {
                    self.invalid = self.invalid + 1;
                }
            },
            Phase::Halted => {},
        }
    }

    /// Takes a line of the stream that could not be read.
    pub fn feed_read_error(&mut self)
        requires
            old(self)@.valid + old(self)@.invalid < usize::MAX,
        ensures
            final(self)@ == step(old(self)@, None),
    {
        match self.phase {
            Phase::Header => {
                self.phase = Phase::Halted;
            },
            Phase::Rows(_) => {
                self.invalid = self.invalid + 1;
            },
            Phase::Halted => {},
        }
    }

    /// The counts so far: `(valid, invalid)`.
    pub fn counts(&self) -> (r: (usize, usize))
        ensures
            r.0 as nat == self@.valid,
            r.1 as nat == self@.invalid,
    {
        (self.valid, self.invalid)
    }
}


/// `l` without the carriage return of a CRLF line end.
pub open spec fn drop_cr(l: Seq<u8>) -> Seq<u8> {
    if l.len() > 0 && l.last() == 13 {
        l.drop_last()
    } else {
        l
    }
}

/// The lines of a text, each ended by `\n` or `\r\n` or by the end of the text.
pub open spec fn text_lines(b: Seq<u8>) -> Seq<Option<Seq<u8>>> {
    split_on(b, 10).map_values(|l: Seq<u8>| Some(drop_cr(l)))
}

/// Counts the valid and invalid data rows of the CSV text `text`:
/// `(valid, invalid)`.
pub fn count_text(text: &str) -> (r: (usize, usize))
    ensures
        r.0 as nat == run(text_lines(text.spec_bytes())).valid,
        r.1 as nat == run(text_lines(text.spec_bytes())).invalid,
{
    let lines = split_fields(text.as_bytes(), 10);
    let ghost items = text_lines(text.spec_bytes());
    let mut counter = RowCounter::new();
    let mut i: usize = 0;
    while i < lines.len()
        invariant
            i <= lines.len(),
            items.len() == lines.len(),
            forall|j: int| 0 <= j < lines.len() ==> #[trigger] items[j] == Some(drop_cr(lines[j]@)),
            counter@ == run(items.subrange(0, i as int)),
            counter@.valid + counter@.invalid <= i,
        decreases lines.len() - i,
    {
        assert(items.subrange(0, i as int + 1).drop_last() =~= items.subrange(0, i as int));
        let line = lines[i].as_slice();
        let n = line.len();
        if n > 0 && line[n - 1] == 13 {
            assert(line@.subrange(0, n - 1) =~= line@.drop_last());
            counter.feed_line(slice_prefix(line, n - 1));
        } else {
            counter.feed_line(line);
        }
        i = i + 1;
    }
    assert(items.subrange(0, lines.len() as int) =~= items);
    counter.counts()
}

/// The first `k` bytes of `s`.
fn slice_prefix(s: &[u8], k: usize) -> (r: &[u8])
    requires
        k <= s@.len(),
    ensures
        r@ == s@.subrange(0, k as int),
{
    let (a, _) = s.split_at(k);
    a
}

/// Every data row lands in exactly one counter: the two counts add up to the
/// number of data rows, that is the nonempty lines after the header, readable
/// or not.
pub proof fn lemma_counts_add_up(items: Seq<Option<Seq<u8>>>)
    ensures
        run(items).valid + run(items).invalid == data_rows(items),
    decreases items.len(),
{
    if items.len() > 0 {
        lemma_counts_add_up(items.drop_last());
    }
}

/// The number of data rows in `items`: the nonempty or unreadable lines after
/// the header, none where the header could not be read.
pub open spec fn data_rows(items: Seq<Option<Seq<u8>>>) -> nat
    decreases items.len(),
{
    if items.len() == 0 {
        0
    } else {
        let before = run(items.drop_last());
        data_rows(items.drop_last()) + match before.stage {
            Stage::Rows { .. } => match items.last() {
                Some(line) => if line.len() > 0 { 1nat } else { 0nat },
                None => 1nat,
            },
            _ => 0nat,
        }
    }
}

/// A stream of blank lines has no header and counts nothing.
pub proof fn lemma_blank_input(items: Seq<Option<Seq<u8>>>)
    requires
        forall|i: int| 0 <= i < items.len() ==> #[trigger] items[i] == Some(Seq::<u8>::empty()),
    ensures
        run(items) == start(),
    decreases items.len(),
{
    if items.len() > 0 {
        lemma_blank_input(items.drop_last());
    }
}

} // verus!
