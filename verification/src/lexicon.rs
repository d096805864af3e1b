//! The pattern catalog: cells, named terms, the ordered lexicon, and the
//! parser for the line-oriented catalog text format.

use vstd::prelude::*;

verus! {

/// A point on the unbounded two-dimensional integer lattice. Coordinates may
/// be negative; cells are equal exactly when both coordinates are equal.
#[derive(Hash, Eq, PartialEq, Structural, Debug, Clone, Copy)]
pub struct Cell {
    pub x: i32,
    pub y: i32,
}

/// Error raised when the catalog text cannot be decoded; carries a
/// human-readable diagnostic.
#[derive(Debug)]
pub struct ParseError(pub String);

/// A named pattern: a name and an ordered list of cell offsets relative to
/// the block's local origin. An empty cell list is a valid placeholder.
#[derive(Debug, Clone)]
pub struct Term {
    pub name: String,
    pub cells: Vec<Cell>,
}

/// The mathematical content of a [`Term`].
pub ghost struct TermView {
    pub name: Seq<char>,
    pub cells: Seq<Cell>,
}

impl View for Term {
    type V = TermView;

    open spec fn view(&self) -> TermView {
        TermView { name: self.name@, cells: self.cells@ }
    }
}

/// The mathematical content of a sequence of terms.
pub open spec fn terms_view(terms: Seq<Term>) -> Seq<TermView> {
    terms.map_values(|t: Term| t@)
}

/// The ordered, read-only catalog of terms; order is source document order.
#[derive(Debug)]
pub struct Lexicon {
    pub terms: Vec<Term>,
}

impl View for Lexicon {
    type V = Seq<TermView>;

    open spec fn view(&self) -> Seq<TermView> {
        terms_view(self.terms@)
    }
}

/// Index of the first term at position `i` or later whose name is `name`.
pub open spec fn first_match_from(terms: Seq<TermView>, name: Seq<char>, i: int) -> Option<int>
    decreases terms.len() - i,
{
    if i < 0 || i >= terms.len() {
        None
    } else if terms[i].name == name {
        Some(i)
    } else {
        first_match_from(terms, name, i + 1)
    }
}

impl Lexicon {
    /// The first term whose name equals `name` exactly, or absent.
    pub fn get_term(&self, name: String) -> (r: Option<&Term>)
        ensures
            match r {
                Some(t) => first_match_from(self@, name@, 0) matches Some(i) && t@ == self@[i],
                None => first_match_from(self@, name@, 0) is None,
            },
    {
        let n = self.terms.len();
        let mut i: usize = 0;
        while i < n
            invariant
                n == self.terms.len(),
                0 <= i <= n,
                first_match_from(self@, name@, 0) == first_match_from(self@, name@, i as int),
            decreases n - i,
        {
            if self.terms[i].name == name {
                return Some(&self.terms[i]);
            }
            i += 1;
        }
        None
    }
}

/// What decoding the catalog text yields: the terms in document order, or
/// one of the two fatal diagnoses.
pub ghost enum ParseOutcome {
    /// The whole catalog decoded; the terms stand in source order.
    Parsed(Seq<TermView>),
    /// The input ended before the preamble delimiter, inside a block, or
    /// before the required closing delimiter.
    MissingInput,
    /// A line starting with a colon whose header does not fit `:<name>:`.
    BadHeader,
}

/// The parser's control state between lines.
pub ghost enum ParsePhase {
    /// Discarding preamble lines until the first delimiter.
    Preamble,
    /// Between blocks, with the terms read so far.
    Body(Seq<TermView>),
    /// Inside a block: terms so far, the block's name, its cells so far, and
    /// the local row index of the next pattern row.
    Rows(Seq<TermView>, Seq<char>, Seq<Cell>, int),
}

/// Number of characters from `pos` up to (excluding) the next newline or the
/// end of the text.
pub open spec fn line_len(s: Seq<char>, pos: int) -> nat
    decreases s.len() - pos,
{
    if pos < 0 || pos >= s.len() {
        0
    } else if s[pos] == '\n' {
        0
    } else {
        1 + line_len(s, pos + 1)
    }
}

/// A delimiter line: it begins with four or more dashes.
pub open spec fn is_delim(line: Seq<char>) -> bool {
    line.len() >= 4 && line[0] == '-' && line[1] == '-' && line[2] == '-' && line[3] == '-'
}

/// Index of the first colon at position `from` or later, if any.
pub open spec fn find_colon(line: Seq<char>, from: int) -> Option<int>
    decreases line.len() - from,
{
    if from < 0 || from >= line.len() {
        None
    } else if line[from] == ':' {
        Some(from)
    } else {
        find_colon(line, from + 1)
    }
}

/// The name of a header line `:<name>:<anything>`: the non-empty text
/// between the leading colon and the next one, or nothing when the line has
/// no such shape.
pub open spec fn header_name(line: Seq<char>) -> Option<Seq<char>> {
    match find_colon(line, 1) {
        Some(j) => if j >= 2 {
            Some(line.subrange(1, j))
        } else {
            None
        },
        None => None,
    }
}

/// The cells of one pattern row, read from character position `k` on: each
/// `*` at position `p` marks the live cell `(p - 1, y)` — one column per
/// character after the leading tab.
pub open spec fn row_cells(line: Seq<char>, y: int, k: int) -> Seq<Cell>
    decreases line.len() - k,
{
    if k < 0 || k >= line.len() {
        Seq::empty()
    } else if line[k] == '*' {
        seq![Cell { x: (k - 1) as i32, y: y as i32 }] + row_cells(line, y, k + 1)
    } else {
        row_cells(line, y, k + 1)
    }
}

/// One pass of the line-oriented grammar from the line starting at `pos`,
/// in control state `ph`. The preamble runs to the first delimiter line;
/// each block is a `:<name>:` header followed by tab-prefixed pattern rows
/// and ends at the first blank line; other lines between blocks are ignored;
/// a second delimiter line closes the catalog. Running out of input in any
/// state is fatal, as is an ill-formed header.
pub open spec fn run(s: Seq<char>, pos: int, ph: ParsePhase) -> ParseOutcome
    decreases s.len() + 1 - pos,
{
    if pos >= s.len() {
        ParseOutcome::MissingInput
    } else {
        let ll = line_len(s, pos);
        let line = s.subrange(pos, pos + ll);
        let next = if pos + ll + 1 <= s.len() {
            pos + ll + 1
        } else {
            s.len() as int
        };
        match ph {
            ParsePhase::Preamble => if is_delim(line) {
                run(s, next, ParsePhase::Body(Seq::empty()))
            } else {
                run(s, next, ParsePhase::Preamble)
            },
            ParsePhase::Body(acc) => if is_delim(line) {
                ParseOutcome::Parsed(acc)
            } else if line.len() > 0 && line[0] == ':' {
                match header_name(line) {
                    Some(name) => run(s, next, ParsePhase::Rows(acc, name, Seq::empty(), 0)),
                    None => ParseOutcome::BadHeader,
                }
            } else {
                run(s, next, ParsePhase::Body(acc))
            },
            ParsePhase::Rows(acc, name, cells, y) => if line.len() == 0 {
                run(s, next, ParsePhase::Body(acc.push(TermView { name, cells })))
            } else if line[0] == '\t' {
                run(s, next, ParsePhase::Rows(acc, name, cells + row_cells(line, y, 1), y + 1))
            } else {
                run(s, next, ParsePhase::Rows(acc, name, cells, y))
            },
        }
    }
}

/// Decoding the whole catalog text: the grammar run from the first line.
pub open spec fn parse_catalog(s: Seq<char>) -> ParseOutcome {
    run(s, 0, ParsePhase::Preamble)
}

/// Index just past the last character of the line starting at `pos`.
fn scan_line_end(source: &str, pos: usize, n: usize) -> (end: usize)
    requires
        n == source@.len(),
        pos <= n,
    ensures
        pos <= end <= n,
        end - pos == line_len(source@, pos as int),
{
    let mut k = pos;
    while k < n
        invariant
            n == source@.len(),
            pos <= k <= n,
            line_len(source@, pos as int) == (k - pos) + line_len(source@, k as int),
        ensures
            pos <= k <= n,
            line_len(source@, pos as int) == (k - pos) + line_len(source@, k as int),
            k == n || source@[k as int] == '\n',
        decreases n - k,
    {
        let c = source.get_char(k);
        if c == '\n' {
            break;
        }
        proof {
            assert(line_len(source@, k as int) == 1 + line_len(source@, k + 1));
        }
        k += 1;
    }
    proof {
        assert(line_len(source@, k as int) == 0);
    }
    k
}

/// Whether the line `[pos, end)` of `source` is a delimiter line.
fn line_is_delim(source: &str, pos: usize, end: usize) -> (r: bool)
    requires
        pos <= end <= source@.len(),
    ensures
        r == is_delim(source@.subrange(pos as int, end as int)),
{
    let ghost line = source@.subrange(pos as int, end as int);
    if end - pos < 4 {
        return false;
    }
    let r = source.get_char(pos) == '-' && source.get_char(pos + 1) == '-' && source.get_char(
        pos + 2,
    ) == '-' && source.get_char(pos + 3) == '-';
    proof {
        assert(line[0] == source@[pos as int]);
        assert(line[1] == source@[pos as int + 1]);
        assert(line[2] == source@[pos as int + 2]);
        assert(line[3] == source@[pos as int + 3]);
    }
    r
}

/// Whether the line `[pos, end)` of `source` is non-empty and starts with
/// the character `c`.
fn line_starts_with_char(source: &str, pos: usize, end: usize, c: char) -> (r: bool)
    requires
        pos <= end <= source@.len(),
    ensures
        r == ({
            let line = source@.subrange(pos as int, end as int);
            line.len() > 0 && line[0] == c
        }),
{
    if pos < end {
        source.get_char(pos) == c
    } else {
        false
    }
}

/// Reads the name out of the header line `[pos, end)`, which starts with a
/// colon: the non-empty text before the next colon, or nothing when the
/// header is ill-formed.
fn parse_header(source: &str, pos: usize, end: usize) -> (r: Option<String>)
    requires
        pos <= end <= source@.len(),
    ensures
        ({
            let line = source@.subrange(pos as int, end as int);
            match r {
                Some(name) => header_name(line) matches Some(nm) && name@ == nm,
                None => header_name(line) is None,
            }
        }),
{
    let ghost line = source@.subrange(pos as int, end as int);
    let mut k: usize = 1;
    while k < end - pos
        invariant
            pos <= end <= source@.len(),
            1 <= k,
            end - pos >= 1 ==> k <= end - pos,
            line == source@.subrange(pos as int, end as int),
            find_colon(line, 1) == find_colon(line, k as int),
        decreases end - pos - k,
    {
        if source.get_char(pos + k) == ':' {
            proof {
                assert(line[k as int] == source@[pos + k as int]);
                assert(find_colon(line, k as int) == Some(k as int));
            }
            if k >= 2 {
                let name_slice = source.substring_char(pos + 1, pos + k);
                let name = name_slice.to_owned();
                proof {
                    assert(name@ =~= line.subrange(1, k as int));
                }
                return Some(name);
            } else {
                return None;
            }
        }
        proof {
            assert(line[k as int] == source@[pos + k as int]);
            assert(find_colon(line, k as int) == find_colon(line, k + 1));
        }
        k += 1;
    }
    proof {
        assert(k >= line.len());
        assert(find_colon(line, k as int) is None);
    }
    None
}

/// Appends the cells of the pattern row `[pos, end)` at local row `y`: one
/// cell `(column, y)` per `*`, columns counted from the character after the
/// leading tab.
fn parse_row(cells: &mut Vec<Cell>, source: &str, pos: usize, end: usize, y: i32)
    requires
        pos < end <= source@.len(),
        source@.len() < 0x8000_0000,
        0 <= y,
    ensures
        final (cells)@ == old(cells)@ + row_cells(
            source@.subrange(pos as int, end as int),
            y as int,
            1,
        ),
{
    let ghost line = source@.subrange(pos as int, end as int);
    let mut k: usize = 1;
    while k < end - pos
        invariant
            pos < end <= source@.len(),
            source@.len() < 0x8000_0000,
            0 <= y,
            1 <= k <= end - pos,
            line == source@.subrange(pos as int, end as int),
            cells@ + row_cells(line, y as int, k as int) == old(cells)@ + row_cells(
                line,
                y as int,
                1,
            ),
        decreases end - pos - k,
    {
        let c = source.get_char(pos + k);
        proof {
            assert(line[k as int] == source@[pos + k as int]);
        }
        if c == '*' {
            let xi: i32 = (k - 1) as i32;
            let ghost cells_before = cells@;
            cells.push(Cell { x: xi, y });
            proof {
                assert(xi as int == k - 1);
                assert(Cell { x: xi, y } == Cell { x: (k - 1) as i32, y: (y as int) as i32 });
                assert(row_cells(line, y as int, k as int) == seq![
                    Cell { x: (k - 1) as i32, y: (y as int) as i32 },
                ] + row_cells(line, y as int, k + 1));
                assert(cells@ + row_cells(line, y as int, k + 1) =~= cells_before + row_cells(
                    line,
                    y as int,
                    k as int,
                ));
            }
        } else {
            proof {
                assert(row_cells(line, y as int, k as int) == row_cells(line, y as int, k + 1));
            }
        }
        k += 1;
    }
    proof {
        assert(k >= line.len());
        assert(row_cells(line, y as int, k as int) =~= Seq::<Cell>::empty());
        assert(cells@ =~= cells@ + Seq::<Cell>::empty());
    }
}

/// The parser's executable control state; the accumulated terms, current
/// block name, cells and row index live in separate variables.
enum Phase {
    Preamble,
    Body,
    Rows,
}

/// The control state the executable parser stands in, as a [`ParsePhase`].
spec fn phase_view(ph: Phase, terms: Seq<Term>, name: Seq<char>, cells: Seq<Cell>, y: int)
    -> ParsePhase {
    match ph {
        Phase::Preamble => ParsePhase::Preamble,
        Phase::Body => ParsePhase::Body(terms_view(terms)),
        Phase::Rows => ParsePhase::Rows(terms_view(terms), name, cells, y),
    }
}

/// Decodes the catalog text into the ordered list of named patterns, exactly
/// as [`parse_catalog`] reads the grammar; a fatal condition yields the
/// matching diagnostic and no catalog. The length bound keeps every column
/// and row index on the 32-bit lattice.
pub fn get_lexicon(source: &str) -> (r: Result<Lexicon, ParseError>)
    requires
        source@.len() < 0x8000_0000,
    ensures
        match r {
            Ok(lex) => parse_catalog(source@) == ParseOutcome::Parsed(lex@),
            Err(e) => !(parse_catalog(source@) is Parsed) && (parse_catalog(source@)
                is MissingInput ==> e.0@ == "Unexpected end of input"@) && (parse_catalog(source@)
                is BadHeader ==> e.0@ == "Can't parse term name."@),
        },
{
    let n = source.unicode_len();
    let mut pos: usize = 0;
    let mut phase = Phase::Preamble;
    let mut terms: Vec<Term> = Vec::new();
    let mut cur_name = String::new();
    let mut cur_cells: Vec<Cell> = Vec::new();
    let mut cur_y: i32 = 0;
    while pos < n
        invariant
            n == source@.len(),
            source@.len() < 0x8000_0000,
            0 <= pos <= n,
            phase is Preamble ==> terms@.len() == 0,
            phase is Rows ==> 0 <= cur_y <= pos as int,
            run(
                source@,
                pos as int,
                phase_view(phase, terms@, cur_name@, cur_cells@, cur_y as int),
            ) == parse_catalog(source@),
        decreases n - pos,
    {
        let ghost st = phase_view(phase, terms@, cur_name@, cur_cells@, cur_y as int);
        let end = scan_line_end(source, pos, n);
        let ghost line = source@.subrange(pos as int, end as int);
        let next = if end < n {
            end + 1
        } else {
            n
        };
        proof {
            assert(line_len(source@, pos as int) == end - pos);
            assert(({
                let ll = line_len(source@, pos as int);
                if pos + ll + 1 <= source@.len() {
                    pos + ll + 1
                } else {
                    source@.len() as int
                }
            }) == next as int);
        }
        match phase {
            Phase::Preamble => {
                if line_is_delim(source, pos, end) {
                    phase = Phase::Body;
                    proof {
                        assert(run(source@, pos as int, st) == run(
                            source@,
                            next as int,
                            ParsePhase::Body(Seq::empty()),
                        ));
                        assert(terms_view(terms@) =~= Seq::<TermView>::empty());
                    }
                } else {
                    proof {
                        assert(run(source@, pos as int, st) == run(
                            source@,
                            next as int,
                            ParsePhase::Preamble,
                        ));
                    }
                }
            },
            Phase::Body => {
                if line_is_delim(source, pos, end) {
                    proof {
                        assert(run(source@, pos as int, st) == ParseOutcome::Parsed(
                            terms_view(terms@),
                        ));
                    }
                    let lex = Lexicon { terms };
                    return Ok(lex);
                } else if line_starts_with_char(source, pos, end, ':') {
                    match parse_header(source, pos, end) {
                        Some(name) => {
                            cur_name = name;
                            cur_cells = Vec::new();
                            cur_y = 0;
                            phase = Phase::Rows;
                            proof {
                                assert(run(source@, pos as int, st) == run(
                                    source@,
                                    next as int,
                                    ParsePhase::Rows(
                                        terms_view(terms@),
                                        cur_name@,
                                        Seq::empty(),
                                        0,
                                    ),
                                ));
                                assert(cur_cells@ =~= Seq::<Cell>::empty());
                            }
                        },
                        None => {
                            proof {
                                assert(run(source@, pos as int, st)
                                    == ParseOutcome::BadHeader);
                            }
                            return Err(ParseError("Can't parse term name.".to_owned()));
                        },
                    }
                } else {
                    proof {
                        assert(run(source@, pos as int, st) == run(
                            source@,
                            next as int,
                            ParsePhase::Body(terms_view(terms@)),
                        ));
                    }
                }
            },
            Phase::Rows => {
                if end == pos {
                    proof {
                        assert(line.len() == 0);
                        assert(run(source@, pos as int, st) == run(
                            source@,
                            next as int,
                            ParsePhase::Body(
                                terms_view(terms@).push(
                                    TermView { name: cur_name@, cells: cur_cells@ },
                                ),
                            ),
                        ));
                    }
                    let ghost terms_before = terms@;
                    let finished = Term { name: cur_name, cells: cur_cells };
                    terms.push(finished);
                    cur_name = String::new();
                    cur_cells = Vec::new();
                    phase = Phase::Body;
                    proof {
                        assert(terms_view(terms@) =~= terms_view(terms_before).push(finished@));
                    }
                } else if line_starts_with_char(source, pos, end, '\t') {
                    proof {
                        assert(run(source@, pos as int, st) == run(
                            source@,
                            next as int,
                            ParsePhase::Rows(
                                terms_view(terms@),
                                cur_name@,
                                cur_cells@ + row_cells(line, cur_y as int, 1),
                                cur_y as int + 1,
                            ),
                        ));
                    }
                    parse_row(&mut cur_cells, source, pos, end, cur_y);
                    cur_y += 1;
                } else {
                    proof {
                        assert(run(source@, pos as int, st) == run(
                            source@,
                            next as int,
                            ParsePhase::Rows(
                                terms_view(terms@),
                                cur_name@,
                                cur_cells@,
                                cur_y as int,
                            ),
                        ));
                    }
                }
            },
        }
        pos = next;
    }
    proof {
        assert(run(source@, pos as int, phase_view(phase, terms@, cur_name@, cur_cells@, cur_y as int))
            == ParseOutcome::MissingInput);
    }
    Err(ParseError("Unexpected end of input".to_owned()))
}

} // verus!
