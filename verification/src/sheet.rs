//! The row/sheet assembler: splits the input text into lines, drives the
//! value scanner across each line, and builds the sparse grid of cells,
//! keyed by coordinate.

use vstd::prelude::*;

verus! {

use crate::coord::Coord;
use crate::scan::{
    get_next_value, init_state, lemma_scan_never_error, lemma_scan_run_end, spec_scan,
    value_no_error, ParseErrKind, ScanFailV,
};
use crate::value::{Cell, CellV};

/// A parse failure located in the input: zero-based line and column, and
/// what went wrong there.
#[derive(Copy, Clone, Debug, PartialEq, Eq, Structural)]
pub struct ParseError {
    pub line: usize,
    pub col: usize,
    pub kind: ParseErrKind,
}

/// The view of a located parse failure.
#[verifier::ext_equal]
pub struct ParseErrV {
    pub line: int,
    pub col: int,
    pub kind: ParseErrKind,
}

/// `t` without its carriage returns.
pub open spec fn strip_cr(t: Seq<char>) -> Seq<char>
    decreases t.len(),
{
    if t.len() == 0 {
        t
    } else if t.last() == '\r' {
        strip_cr(t.drop_last())
    } else {
        strip_cr(t.drop_last()).push(t.last())
    }
}

/// `t` split at its line feeds: always one more line than there are line
/// feeds, so empty text is one empty line.
pub open spec fn split_lines(t: Seq<char>) -> Seq<Seq<char>>
    decreases t.len(),
{
    if t.len() == 0 {
        seq![Seq::<char>::empty()]
    } else if t.last() == '\n' {
        split_lines(t.drop_last()).push(Seq::<char>::empty())
    } else {
        let rest = split_lines(t.drop_last());
        rest.update(rest.len() - 1, rest.last().push(t.last()))
    }
}

/// The cells of one line from `start` on: the scanner runs once per cell,
/// columns count up from `x`, and a terminator that is not a comma is the
/// assembler's own failure.
pub open spec fn parse_line(l: Seq<char>, start: int, x: int, y: int) -> Result<
    Seq<(Coord, CellV)>,
    ScanFailV,
>
    decreases l.len() - start,
    via parse_line_decreases
{
    match spec_scan(l, start) {
        Err(f) => Err(f),
        Ok(o) => {
            let co = Coord { x: x as usize, y: y as usize };
            let cv = CellV { value: o.value, backing: l.subrange(start, o.end) };
            if o.end >= l.len() {
                Ok(seq![(co, cv)])
            } else if l[o.end] == ',' {
                match parse_line(l, o.end + 1, x + 1, y) {
                    Err(f) => Err(f),
                    Ok(cs) => Ok(seq![(co, cv)] + cs),
                }
            } else {
                Err(ScanFailV { col: o.end, kind: ParseErrKind::InvalidTrailingCharacter })
            }
        },
    }
}

#[via_fn]
proof fn parse_line_decreases(l: Seq<char>, start: int, x: int, y: int) {
    lemma_scan_run_end(l, start, init_state());
}

/// The cells of the lines `ls`, the first at row `y`, the rest below it;
/// a line's failure carries its row.
pub open spec fn parse_lines_from(ls: Seq<Seq<char>>, y: int) -> Result<
    Seq<(Coord, CellV)>,
    ParseErrV,
>
    decreases ls.len(),
{
    if ls.len() == 0 {
        Ok(Seq::empty())
    } else {
        match parse_line(ls[0], 0, 0, y) {
            Err(f) => Err(ParseErrV { line: y, col: f.col, kind: f.kind }),
            Ok(cs) => match parse_lines_from(ls.subrange(1, ls.len() as int), y + 1) {
                Err(e) => Err(e),
                Ok(rest) => Ok(cs + rest),
            },
        }
    }
}

/// What parsing a whole file text yields: carriage returns dropped, each
/// line's cells at its row, in reading order, or the first failure.
pub open spec fn spec_parse_sheet(t: Seq<char>) -> Result<Seq<(Coord, CellV)>, ParseErrV> {
    parse_lines_from(split_lines(strip_cr(t)), 0)
}

/// No coordinate appears twice.
pub open spec fn distinct_coords(s: Seq<(Coord, CellV)>) -> bool {
    forall|i: int, j: int| 0 <= i < j < s.len() ==> (#[trigger] s[i]).0 != (#[trigger] s[j]).0
}

/// A line's cells sit at consecutive columns of its row, one at least.
pub proof fn lemma_parse_line_shape(l: Seq<char>, start: int, x: int, y: int)
    requires
        0 <= start <= l.len(),
        0 <= x,
        0 <= y <= usize::MAX,
        x + (l.len() - start) <= usize::MAX,
    ensures
        match parse_line(l, start, x, y) {
            Ok(cs) => 1 <= cs.len() <= l.len() - start + 1 && (forall|k: int|
                0 <= k < cs.len() ==> (#[trigger] cs[k]).0 == (Coord {
                    x: (x + k) as usize,
                    y: y as usize,
                })),
            Err(_) => true,
        },
    decreases l.len() - start,
{
    lemma_scan_run_end(l, start, init_state());
    match spec_scan(l, start) {
        Ok(o) => {
            if o.end < l.len() && l[o.end] == ',' {
                lemma_parse_line_shape(l, o.end + 1, x + 1, y);
            }
        },
        Err(_) => {},
    }
}

/// All the cells of a block of lines sit in its rows, no coordinate twice.
pub proof fn lemma_parse_lines_shape(ls: Seq<Seq<char>>, y: int)
    requires
        0 <= y,
        y + ls.len() <= usize::MAX,
        forall|k: int| 0 <= k < ls.len() ==> (#[trigger] ls[k]).len() <= usize::MAX,
    ensures
        match parse_lines_from(ls, y) {
            Ok(cs) => distinct_coords(cs) && (forall|k: int|
                0 <= k < cs.len() ==> y <= ((#[trigger] cs[k]).0.y as int) && ((cs[k]).0.y as int)
                    < y + ls.len()),
            Err(_) => true,
        },
    decreases ls.len(),
{
    if ls.len() > 0 {
        lemma_parse_line_shape(ls[0], 0, 0, y);
        let tail = ls.subrange(1, ls.len() as int);
        assert(forall|k: int| 0 <= k < tail.len() ==> #[trigger] tail[k] == ls[k + 1]);
        lemma_parse_lines_shape(tail, y + 1);
        match parse_line(ls[0], 0, 0, y) {
            Ok(cs) => {
                match parse_lines_from(tail, y + 1) {
                    Ok(rest) => {
                        let whole = cs + rest;
                        assert forall|i: int, j: int| 0 <= i < j < whole.len() implies (
                        #[trigger] whole[i]).0 != (#[trigger] whole[j]).0 by {
                            if j < cs.len() {
                                assert(whole[i] == cs[i] && whole[j] == cs[j]);
                                assert(cs[i].0.x == i && cs[j].0.x == j);
                            } else if i >= cs.len() {
                                assert(whole[i] == rest[i - cs.len()] && whole[j] == rest[j
                                    - cs.len()]);
                            } else {
                                assert(whole[i] == cs[i] && whole[j] == rest[j - cs.len()]);
                                assert(cs[i].0.y as int == y);
                                assert(rest[j - cs.len()].0.y as int >= y + 1);
                            }
                        }
                        assert forall|k: int| 0 <= k < whole.len() implies y <= ((
                        #[trigger] whole[k]).0.y as int) && ((whole[k]).0.y as int) < y
                            + ls.len() by {
                            if k < cs.len() {
                                assert(whole[k] == cs[k]);
                            } else {
                                assert(whole[k] == rest[k - cs.len()]);
                            }
                        }
                    },
                    Err(_) => {},
                }
            },
            Err(_) => {},
        }
    }
}

/// No cell of one parsed line holds an evaluation-error value.
pub proof fn lemma_parse_line_never_error(l: Seq<char>, start: int, x: int, y: int)
    ensures
        match parse_line(l, start, x, y) {
            Ok(cs) => forall|k: int|
                0 <= k < cs.len() ==> value_no_error((#[trigger] cs[k]).1.value),
            Err(_) => true,
        },
    decreases l.len() - start,
{
    lemma_scan_run_end(l, start, init_state());
    lemma_scan_never_error(l, start);
    match spec_scan(l, start) {
        Ok(o) => {
            if o.end < l.len() && l[o.end] == ',' {
                lemma_parse_line_never_error(l, o.end + 1, x + 1, y);
                match parse_line(l, o.end + 1, x + 1, y) {
                    Ok(cs2) => {
                        match parse_line(l, start, x, y) {
                            Ok(cs) => {
                                assert forall|k: int| 0 <= k < cs.len() implies value_no_error(
                                    (#[trigger] cs[k]).1.value,
                                ) by {
                                    if k > 0 {
                                        assert(cs[k] == cs2[k - 1]);
                                    }
                                }
                            },
                            Err(_) => {},
                        }
                    },
                    Err(_) => {},
                }
            }
        },
        Err(_) => {},
    }
}

/// No cell of a parsed sheet holds an evaluation-error value: the parser
/// yields only empty, text, number and formula cells.
pub proof fn lemma_sheet_never_error(t: Seq<char>)
    ensures
        match spec_parse_sheet(t) {
            Ok(cs) => forall|k: int|
                0 <= k < cs.len() ==> value_no_error((#[trigger] cs[k]).1.value),
            Err(_) => true,
        },
{
    lemma_parse_lines_never_error(split_lines(strip_cr(t)), 0);
}

proof fn lemma_parse_lines_never_error(ls: Seq<Seq<char>>, y: int)
    ensures
        match parse_lines_from(ls, y) {
            Ok(cs) => forall|k: int|
                0 <= k < cs.len() ==> value_no_error((#[trigger] cs[k]).1.value),
            Err(_) => true,
        },
    decreases ls.len(),
{
    if ls.len() > 0 {
        lemma_parse_line_never_error(ls[0], 0, 0, y);
        let tail = ls.subrange(1, ls.len() as int);
        lemma_parse_lines_never_error(tail, y + 1);
        match parse_line(ls[0], 0, 0, y) {
            Ok(cs) => {
                match parse_lines_from(tail, y + 1) {
                    Ok(rest) => {
                        let whole = cs + rest;
                        assert forall|k: int| 0 <= k < whole.len() implies value_no_error(
                            (#[trigger] whole[k]).1.value,
                        ) by {
                            if k < cs.len() {
                                assert(whole[k] == cs[k]);
                            } else {
                                assert(whole[k] == rest[k - cs.len()]);
                            }
                        }
                    },
                    Err(_) => {},
                }
            },
            Err(_) => {},
        }
    }
}

/// The grid a run of keyed cells stands for, later entries over earlier
/// ones.
pub open spec fn cells_map(s: Seq<(Coord, CellV)>) -> Map<Coord, CellV>
    decreases s.len(),
{
    if s.len() == 0 {
        Map::empty()
    } else {
        cells_map(s.drop_last()).insert(s.last().0, s.last().1)
    }
}

/// With distinct coordinates, every entry is found in the grid unchanged.
pub proof fn lemma_cells_map_index(s: Seq<(Coord, CellV)>, j: int)
    requires
        distinct_coords(s),
        0 <= j < s.len(),
    ensures
        cells_map(s).contains_key(s[j].0),
        cells_map(s)[s[j].0] == s[j].1,
    decreases s.len(),
{
    if j < s.len() - 1 {
        assert(distinct_coords(s.drop_last())) by {
            assert(forall|k: int|
                0 <= k < s.len() - 1 ==> #[trigger] s.drop_last()[k] == s[k]);
        }
        lemma_cells_map_index(s.drop_last(), j);
        assert(s[s.len() - 1].0 != s[j].0);
    }
}

/// A coordinate on no entry is not in the grid.
pub proof fn lemma_cells_map_absent(s: Seq<(Coord, CellV)>, co: Coord)
    requires
        forall|k: int| 0 <= k < s.len() ==> (#[trigger] s[k]).0 != co,
    ensures
        !cells_map(s).contains_key(co),
    decreases s.len(),
{
    if s.len() > 0 {
        assert(forall|k: int| 0 <= k < s.len() - 1 ==> #[trigger] s.drop_last()[k] == s[k]);
        lemma_cells_map_absent(s.drop_last(), co);
    }
}


/// The characters of each collected line.
spec fn line_views(ls: Seq<Vec<char>>) -> Seq<Seq<char>> {
    ls.map_values(|v: Vec<char>| v@)
}

/// The views of a run of keyed cells.
spec fn cell_views(s: Seq<(Coord, Cell)>) -> Seq<(Coord, CellV)> {
    s.map_values(|p: (Coord, Cell)| (p.0, p.1@))
}

/// The sparse grid: the parsed cells keyed by coordinate, the originating
/// file path, and the coordinate the cursor stands on.
pub struct Sheet {
    cells: Vec<(Coord, Cell)>,
    file_path: String,
    selected_cell: Coord,
}

/// The view of a sheet.
#[verifier::ext_equal]
pub struct SheetV {
    pub cells: Map<Coord, CellV>,
    pub file_path: Seq<char>,
    pub selected_cell: Coord,
}

impl View for Sheet {
    type V = SheetV;

    closed spec fn view(&self) -> SheetV {
        SheetV {
            cells: cells_map(cell_views(self.cells@)),
            file_path: self.file_path@,
            selected_cell: self.selected_cell,
        }
    }
}

/// What a successful parse of the text `t` under path `p` leaves in a
/// sheet's view.
pub open spec fn parse_outcome(t: Seq<char>, p: Seq<char>, v: SheetV) -> bool {
    &&& spec_parse_sheet(t) matches Ok(cs) && v.cells == cells_map(cs)
    &&& v.file_path == p
    &&& v.selected_cell == (Coord { x: 0, y: 0 })
}

/// Parsing the same file text twice yields structurally identical sheets:
/// the text and the path determine the whole view.
pub proof fn lemma_reparse_identical(t: Seq<char>, p: Seq<char>, a: SheetV, b: SheetV)
    requires
        parse_outcome(t, p, a),
        parse_outcome(t, p, b),
    ensures
        a == b,
{
    assert(a =~= b);
}

impl Sheet {
    #[verifier::type_invariant]
    closed spec fn wf(self) -> bool {
        distinct_coords(cell_views(self.cells@))
    }

    /// Parses the whole file text into a sheet, or reports the first
    /// failure with its position.
    pub fn new(file_path: String, text: String) -> (r: Result<Sheet, ParseError>)
        ensures
            match r {
                Ok(sheet) => parse_outcome(text@, file_path@, sheet@),
                Err(e) => spec_parse_sheet(text@) matches Err(f) && e.line as int == f.line
                    && e.col as int == f.col && e.kind == f.kind,
            },
    {
        let chars = crate::coord::str_chars(text.as_str());
        let ghost ls = split_lines(strip_cr(text@));
        // Split the text into lines, dropping carriage returns.
        let mut lines: Vec<Vec<char>> = Vec::new();
        let mut cur: Vec<char> = Vec::new();
        let n = chars.len();
        let mut k: usize = 0;
        proof {
            assert(text@.subrange(0, 0) =~= Seq::<char>::empty());
            assert(line_views(lines@).push(cur@) =~= split_lines(strip_cr(text@.subrange(0, 0))));
        }
        while k < n
            invariant
                n == chars@.len(),
                chars@ == text@,
                k <= n,
                line_views(lines@).push(cur@) == split_lines(strip_cr(text@.subrange(0, k as int))),
            decreases n - k,
        {
            let c = chars[k];
            let ghost pre = text@.subrange(0, k as int);
            proof {
                assert(text@.subrange(0, k as int + 1).drop_last() =~= pre);
                assert(text@.subrange(0, k as int + 1).last() == text@[k as int]);
            }
            if c == '\r' {
            } else if c == '\n' {
                let ghost oldlines = lines@;
                let ghost oldcur = cur@;
                lines.push(cur);
                cur = Vec::new();
                proof {
                    let sc = strip_cr(pre);
                    assert(line_views(lines@) =~= line_views(oldlines).push(oldcur));
                    assert(strip_cr(text@.subrange(0, k as int + 1)) == sc.push('\n'));
                    assert(sc.push('\n').drop_last() =~= sc);
                    assert(sc.push('\n').last() == '\n');
                    assert(split_lines(sc.push('\n')) == split_lines(sc).push(
                        Seq::<char>::empty(),
                    ));
                    assert(line_views(lines@).push(cur@) =~= split_lines(sc).push(
                        Seq::<char>::empty(),
                    ));
                }
            } else {
                let ghost oldlines = lines@;
                let ghost oldcur = cur@;
                cur.push(c);
                proof {
                    let sc = strip_cr(pre);
                    let rest = split_lines(sc);
                    assert(rest == line_views(oldlines).push(oldcur));
                    assert(strip_cr(text@.subrange(0, k as int + 1)) == sc.push(c));
                    assert(sc.push(c).drop_last() =~= sc);
                    assert(sc.push(c).last() == c);
                    assert(split_lines(sc.push(c)) == rest.update(
                        rest.len() - 1,
                        rest.last().push(c),
                    ));
                    assert(line_views(lines@).push(cur@) =~= rest.update(
                        rest.len() - 1,
                        rest.last().push(c),
                    ));
                }
            }
            k = k + 1;
        }
        lines.push(cur);
        proof {
            assert(text@.subrange(0, n as int) =~= text@);
            assert(line_views(lines@) =~= ls);
        }
        // Parse each line, columns counting up per cell, rows per line.
        let mut cells: Vec<(Coord, Cell)> = Vec::new();
        let mut y: usize = 0;
        let ln = lines.len();
        proof {
            assert(ls.subrange(0, ls.len() as int) =~= ls);
            match parse_lines_from(ls, 0) {
                Ok(all) => {
                    assert(cell_views(cells@) =~= Seq::<(Coord, CellV)>::empty());
                    assert(all =~= cell_views(cells@) + all);
                },
                Err(_) => {},
            }
        }
        while y < ln
            invariant
                ln == lines@.len(),
                y <= ln,
                line_views(lines@) == ls,
                ls == split_lines(strip_cr(text@)),
                forall|q: int| 0 <= q < y ==> (#[trigger] ls[q]).len() <= usize::MAX,
                match parse_lines_from(ls.subrange(y as int, ls.len() as int), y as int) {
                    Ok(rest) => parse_lines_from(ls, 0) matches Ok(all) && all == cell_views(
                        cells@,
                    ) + rest,
                    Err(e) => parse_lines_from(ls, 0) == Err::<Seq<(Coord, CellV)>, ParseErrV>(e),
                },
            decreases ln - y,
        {
            let linevec = &lines[y];
            let ghost l = ls[y as int];
            let lyn = linevec.len();
            let mut st: usize = 0;
            let mut xi: usize = 0;
            let ghost cells0 = cell_views(cells@);
            let ghost mut front: Seq<(Coord, CellV)> = Seq::empty();
            let mut more = true;
            proof {
                assert(l == linevec@);
                assert(front + Seq::<(Coord, CellV)>::empty() =~= front);
                match parse_line(l, 0, 0, y as int) {
                    Ok(whole) => {
                        assert(whole =~= front + whole);
                    },
                    Err(_) => {},
                }
                assert(cell_views(cells@) =~= cells0 + front);
            }
            while more
                invariant
                    ln == lines@.len(),
                    (y as int) < ls.len(),
                    line_views(lines@) == ls,
                    ls == split_lines(strip_cr(text@)),
                    forall|q: int| 0 <= q < y ==> (#[trigger] ls[q]).len() <= usize::MAX,
                    l == linevec@,
                    l == ls[y as int],
                    lyn == l.len(),
                    more ==> st <= lyn && xi <= st,
                    cell_views(cells@) == cells0 + front,
                    more ==> match parse_line(l, st as int, xi as int, y as int) {
                        Ok(cs) => parse_line(l, 0, 0, y as int) matches Ok(whole) && whole == front
                            + cs,
                        Err(f) => parse_line(l, 0, 0, y as int) == Err::<Seq<(Coord, CellV)>, ScanFailV>(f),
                    },
                    !more ==> parse_line(l, 0, 0, y as int) == Ok::<Seq<(Coord, CellV)>, ScanFailV>(front),
                    match parse_lines_from(ls.subrange(y as int, ls.len() as int), y as int) {
                        Ok(rest) => parse_lines_from(ls, 0) matches Ok(all) && all == cells0
                            + rest,
                        Err(e) => parse_lines_from(ls, 0) == Err::<Seq<(Coord, CellV)>, ParseErrV>(e),
                    },
                decreases lyn - st + (if more { 1int } else { 0int }),
            {
                match get_next_value(linevec, st) {
                    Err(e) => {
                        proof {
                            assert(parse_line(l, 0, 0, y as int) == Err::<
                                Seq<(Coord, CellV)>,
                                ScanFailV,
                            >(ScanFailV { col: e.col as int, kind: e.kind }));
                            assert(parse_lines_from(
                                ls.subrange(y as int, ls.len() as int),
                                y as int,
                            ) == Err::<Seq<(Coord, CellV)>, ParseErrV>(
                                ParseErrV { line: y as int, col: e.col as int, kind: e.kind },
                            ));
                        }
                        return Err(ParseError { line: y, col: e.col, kind: e.kind });
                    },
                    Ok((cell, term)) => {
                        let ghost o = spec_scan(l, st as int)->Ok_0;
                        let blen = cell.string_backing.as_str().unicode_len();
                        proof {
                            lemma_scan_run_end(l, st as int, init_state());
                            assert(cell@.backing.len() == o.end - st);
                        }
                        let end = st + blen;
                        let co = Coord { x: xi, y };
                        let ghost cv = cell@;
                        let ghost oldcells = cells@;
                        cells.push((co, cell));
                        proof {
                            front = front.push((co, cv));
                            assert(cell_views(cells@) =~= cell_views(oldcells).push((co, cv)));
                            assert(cell_views(oldcells).push((co, cv)) =~= cells0 + front);
                            assert(cell_views(cells@) == cells0 + front);
                        }
                        match term {
                            None => {
                                proof {
                                    assert(o.end == l.len());
                                    assert(parse_line(l, st as int, xi as int, y as int)
                                        == Ok::<Seq<(Coord, CellV)>, ScanFailV>(seq![(co, cv)]));
                                    assert(front =~= front.drop_last() + seq![(co, cv)]);
                                    match parse_line(l, 0, 0, y as int) {
                                        Ok(whole) => {
                                            assert(whole =~= front);
                                        },
                                        Err(_) => {},
                                    }
                                }
                                more = false;
                            },
                            Some(t) => {
                                if t == ',' {
                                    proof {
                                        assert(l[o.end] == ',');
                                        assert(o.end < l.len());
                                        match parse_line(l, o.end + 1, xi + 1, y as int) {
                                            Ok(cs2) => {
                                                assert(parse_line(l, st as int, xi as int, y as int)
                                                    == Ok::<Seq<(Coord, CellV)>, ScanFailV>(
                                                    seq![(co, cv)] + cs2,
                                                ));
                                                match parse_line(l, 0, 0, y as int) {
                                                    Ok(whole) => {
                                                        assert(whole =~= front + cs2);
                                                    },
                                                    Err(_) => {},
                                                }
                                            },
                                            Err(_) => {},
                                        }
                                    }
                                    st = end + 1;
                                    xi = xi + 1;
                                } else {
                                    proof {
                                        assert(o.end < l.len() && l[o.end] == t && t != ',');
                                        assert(parse_line(l, 0, 0, y as int) == Err::<
                                            Seq<(Coord, CellV)>,
                                            ScanFailV,
                                        >(ScanFailV {
                                            col: o.end,
                                            kind: ParseErrKind::InvalidTrailingCharacter,
                                        }));
                                    }
                                    return Err(
                                        ParseError {
                                            line: y,
                                            col: end,
                                            kind: ParseErrKind::InvalidTrailingCharacter,
                                        },
                                    );
                                }
                            },
                        }
                    },
                }
            }
            proof {
                let tail = ls.subrange(y as int, ls.len() as int);
                assert(tail[0] == ls[y as int]);
                assert(tail.subrange(1, tail.len() as int) =~= ls.subrange(
                    y as int + 1,
                    ls.len() as int,
                ));
                match parse_lines_from(ls.subrange(y as int + 1, ls.len() as int), y as int + 1) {
                    Ok(rest2) => {
                        assert(parse_lines_from(tail, y as int) == Ok::<
                            Seq<(Coord, CellV)>,
                            ParseErrV,
                        >(front + rest2));
                        match parse_lines_from(ls, 0) {
                            Ok(all) => {
                                assert(all =~= (cells0 + front) + rest2);
                            },
                            Err(_) => {},
                        }
                    },
                    Err(_) => {},
                }
            }
            y = y + 1;
        }
        proof {
            assert(ls.subrange(ln as int, ls.len() as int) =~= Seq::<Seq<char>>::empty());
            match parse_lines_from(ls, 0) {
                Ok(all) => {
                    assert(all =~= cell_views(cells@));
                },
                Err(_) => {},
            }
            lemma_parse_lines_shape(ls, 0);
        }
        let sheet = Sheet { cells, file_path, selected_cell: Coord { x: 0, y: 0 } };
        Ok(sheet)
    }

    /// The cell at `c`, if one was parsed there.
    pub fn get(&self, c: Coord) -> (r: Option<&Cell>)
        ensures
            match r {
                Some(cell) => self@.cells.contains_key(c) && cell@ == self@.cells[c],
                None => !self@.cells.contains_key(c),
            },
    {
        proof {
            use_type_invariant(self);
        }
        let n = self.cells.len();
        let mut j: usize = 0;
        while j < n
            invariant
                n == self.cells@.len(),
                j <= n,
                distinct_coords(cell_views(self.cells@)),
                forall|q: int| 0 <= q < j ==> (#[trigger] self.cells@[q]).0 != c,
            decreases n - j,
        {
            let p = &self.cells[j];
            if p.0 == c {
                proof {
                    lemma_cells_map_index(cell_views(self.cells@), j as int);
                }
                return Some(&self.cells[j].1);
            }
            j = j + 1;
        }
        proof {
            assert(forall|q: int|
                0 <= q < cell_views(self.cells@).len() ==> (#[trigger] cell_views(self.cells@)[q]).0
                    != c);
            lemma_cells_map_absent(cell_views(self.cells@), c);
        }
        None
    }

    /// The path the sheet was read from.
    pub fn file_path(&self) -> (r: &String)
        ensures
            r@ == self@.file_path,
    {
        &self.file_path
    }

    /// The coordinate the cursor stands on.
    pub fn selected(&self) -> (r: Coord)
        ensures
            r == self@.selected_cell,
    {
        self.selected_cell
    }
}

} // verus!
