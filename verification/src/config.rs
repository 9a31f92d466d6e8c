//! The plain-text level / debug configuration format.
//!
//! ```text
//! # eternal_game_02 config v2
//! start_charge 4
//! place 19 20
//! origin 20 10
//! grid 1 10
//! #
//! ...
//! ```
//!
//! Only the bounding box of the solid cells is written, top row first: `#`
//! solid, `.` empty. On reading, the legacy surface and trail markers `+` and
//! `o` read as empty, and other characters leave the cell alone.
use vstd::prelude::*;

use crate::ball::Tuning;
use crate::grid::{
    col, lemma_idx_bounds, lemma_idx_roundtrip, round_half, row, shifted_cell, Cell, Grid, Pos, GRID_CELLS, GRID_H, GRID_W,
};
use crate::text::{
    has_prefix, int_text, line_ranges, lines, parse_charge, parse_charge_spec, parse_i32, parse_i32_spec, push_all,
    push_int, trim, trim_range, two_tokens, two_tokens_exec,
};

verus! {

/// The character written for a cell.
pub open spec fn cell_byte(c: Cell) -> u8 {
    match c {
        Cell::Empty => 0x2E,
        Cell::Solid => 0x23,
    }
}

/// The cell a character reads as, if any.
pub open spec fn byte_cell(c: u8) -> Option<Cell> {
    if c == 0x2E || c == 0x2B || c == 0x6F {
        Some(Cell::Empty)
    } else if c == 0x23 {
        Some(Cell::Solid)
    } else {
        None
    }
}

pub fn cell_char(cell: Cell) -> (r: u8)
    ensures
        r == cell_byte(cell),
{
    match cell {
        Cell::Empty => 0x2E,
        Cell::Solid => 0x23,
    }
}

pub fn char_cell(c: u8) -> (r: Option<Cell>)
    ensures
        r == byte_cell(c),
{
    if c == 0x2E || c == 0x2B || c == 0x6F {
        Some(Cell::Empty)
    } else if c == 0x23 {
        Some(Cell::Solid)
    } else {
        None
    }
}

/// `"# "`, the start of a comment line.
pub open spec fn kw_comment() -> Seq<u8> {
    seq![0x23u8, 0x20u8]
}

/// `"start_charge "`.
pub open spec fn kw_start() -> Seq<u8> {
    seq![0x73u8, 0x74u8, 0x61u8, 0x72u8, 0x74u8, 0x5Fu8, 0x63u8, 0x68u8, 0x61u8, 0x72u8, 0x67u8, 0x65u8, 0x20u8]
}

/// `"place "`.
pub open spec fn kw_place() -> Seq<u8> {
    seq![0x70u8, 0x6Cu8, 0x61u8, 0x63u8, 0x65u8, 0x20u8]
}

/// `"origin "`.
pub open spec fn kw_origin() -> Seq<u8> {
    seq![0x6Fu8, 0x72u8, 0x69u8, 0x67u8, 0x69u8, 0x6Eu8, 0x20u8]
}

/// `"grid "`.
pub open spec fn kw_grid() -> Seq<u8> {
    seq![0x67u8, 0x72u8, 0x69u8, 0x64u8, 0x20u8]
}

/// `"none"`.
pub open spec fn kw_none() -> Seq<u8> {
    seq![0x6Eu8, 0x6Fu8, 0x6Eu8, 0x65u8]
}

/// What the reader has gathered so far.
#[verifier::ext_equal]
pub struct ParseState {
    pub start_charge: i64,
    pub place: Option<Pos>,
    pub origin: (i32, i32),
    pub dims: Option<(i32, i32)>,
    pub rows: Seq<Seq<u8>>,
}

pub open spec fn initial_state() -> ParseState {
    ParseState { start_charge: 0, place: None, origin: (0, 0), dims: None, rows: Seq::empty() }
}

/// Read one line: comments and blank lines are skipped, the header lines set
/// their field (or fail), anything else is a grid row.
pub open spec fn apply_line(st: ParseState, line: Seq<u8>) -> Option<ParseState> {
    if has_prefix(line, kw_comment()) || trim(line).len() == 0 {
        Some(st)
    } else if has_prefix(line, kw_start()) {
        let rest = line.subrange(kw_start().len() as int, line.len() as int);
        match parse_charge_spec(trim(rest)) {
            Some(c) => Some(ParseState { start_charge: c, ..st }),
            None => None,
        }
    } else if has_prefix(line, kw_place()) {
        let rest = line.subrange(kw_place().len() as int, line.len() as int);
        if trim(rest) == kw_none() {
            Some(st)
        } else {
            match two_tokens(rest) {
                Some((a, b)) => match (parse_i32_spec(a), parse_i32_spec(b)) {
                    (Some(x), Some(y)) => Some(ParseState { place: Some(Pos { x, y }), ..st }),
                    _ => None,
                },
                None => None,
            }
        }
    } else if has_prefix(line, kw_origin()) {
        let rest = line.subrange(kw_origin().len() as int, line.len() as int);
        match two_tokens(rest) {
            Some((a, b)) => match (parse_i32_spec(a), parse_i32_spec(b)) {
                (Some(x), Some(y)) => Some(ParseState { origin: (x, y), ..st }),
                _ => None,
            },
            None => None,
        }
    } else if has_prefix(line, kw_grid()) {
        let rest = line.subrange(kw_grid().len() as int, line.len() as int);
        match two_tokens(rest) {
            Some((a, b)) => match (parse_i32_spec(a), parse_i32_spec(b)) {
                (Some(w), Some(h)) => Some(ParseState { dims: Some((w, h)), ..st }),
                _ => None,
            },
            None => None,
        }
    } else {
        Some(ParseState { rows: st.rows.push(line), ..st })
    }
}

/// Read every line in order, failing as soon as one fails.
pub open spec fn read_lines(ls: Seq<Seq<u8>>) -> Option<ParseState>
    decreases ls.len(),
{
    if ls.len() == 0 {
        Some(initial_state())
    } else {
        match read_lines(ls.drop_last()) {
            None => None,
            Some(st) => apply_line(st, ls.last()),
        }
    }
}

/// The parsed state of a whole text, if it has a `grid` line and exactly as
/// many rows as that line says.
pub open spec fn parse_state(text: Seq<u8>) -> Option<ParseState> {
    match read_lines(lines(text)) {
        None => None,
        Some(st) => match st.dims {
            None => None,
            Some((w, h)) => if h >= 0 && st.rows.len() == h {
                Some(st)
            } else {
                None
            },
        },
    }
}

/// A UTF-8 continuation byte.
pub open spec fn is_cont(b: u8) -> bool {
    0x80 <= b <= 0xBF
}

/// The first byte of every character of `s`.
pub open spec fn leads(s: Seq<u8>) -> Seq<u8>
    decreases s.len(),
{
    if s.len() == 0 {
        Seq::empty()
    } else if is_cont(s.last()) {
        leads(s.drop_last())
    } else {
        leads(s.drop_last()).push(s.last())
    }
}

/// The cell at `(x, y)` of the board read from `st`: rows are printed top
/// (highest `y`) first from `origin`, and at most `w` characters of a row are
/// read (all of them when `w` is negative).
pub open spec fn parsed_cell(st: ParseState, x: int, y: int) -> Cell {
    let (w, h) = st.dims->0;
    let r = st.origin.1 + (h - 1) - y;
    let ci = x - st.origin.0;
    if 0 <= r < st.rows.len() && 0 <= ci < leads(st.rows[r]).len() && (w < 0 || ci < w)
        && leads(st.rows[r])[ci] == 0x23 {
        Cell::Solid
    } else {
        Cell::Empty
    }
}


/// The reader's state while going through the lines.
struct Reader {
    start_charge: i64,
    place: Option<Pos>,
    origin: (i32, i32),
    dims: Option<(i32, i32)>,
    rows: Vec<Vec<u8>>,
}

impl Reader {
    spec fn model(&self) -> ParseState {
        ParseState {
            start_charge: self.start_charge,
            place: self.place,
            origin: self.origin,
            dims: self.dims,
            rows: self.rows@.map_values(|v: Vec<u8>| v@),
        }
    }
}

/// A copy of `s[a..b]`.
pub fn copy_range(s: &[u8], a: usize, b: usize) -> (r: Vec<u8>)
    requires
        a <= b <= s@.len(),
    ensures
        r@ == s@.subrange(a as int, b as int),
{
    let mut r: Vec<u8> = Vec::new();
    let mut i = a;
    while i < b
        invariant
            a <= i <= b,
            b <= s@.len(),
            r@ == s@.subrange(a as int, i as int),
        decreases b - i,
    {
        r.push(s[i]);
        assert(s@.subrange(a as int, i + 1) =~= s@.subrange(a as int, i as int).push(s@[i as int]));
        i = i + 1;
    }
    r
}

/// Does `s` start with `p`?
pub fn starts_with(s: &[u8], p: &[u8]) -> (r: bool)
    ensures
        r == has_prefix(s@, p@),
{
    if p.len() > s.len() {
        return false;
    }
    let mut i: usize = 0;
    while i < p.len()
        invariant
            p@.len() <= s@.len(),
            i <= p@.len(),
            forall|j: int| 0 <= j < i ==> s@[j] == p@[j],
        decreases p@.len() - i,
    {
        if s[i] != p[i] {
            assert(s@.subrange(0, p@.len() as int)[i as int] != p@[i as int]);
            return false;
        }
        i = i + 1;
    }
    assert(s@.subrange(0, p@.len() as int) =~= p@);
    true
}

/// Is `s[a..b]` exactly `p`?
fn range_equals(s: &[u8], a: usize, b: usize, p: &[u8]) -> (r: bool)
    requires
        a <= b <= s@.len(),
    ensures
        r == (s@.subrange(a as int, b as int) == p@),
{
    if b - a != p.len() {
        return false;
    }
    let mut i: usize = 0;
    while i < p.len()
        invariant
            a <= b <= s@.len(),
            b - a == p@.len(),
            i <= p@.len(),
            forall|j: int| 0 <= j < i ==> s@[a + j] == p@[j],
        decreases p@.len() - i,
    {
        if s[a + i] != p[i] {
            assert(s@.subrange(a as int, b as int)[i as int] != p@[i as int]);
            return false;
        }
        i = i + 1;
    }
    assert(s@.subrange(a as int, b as int) =~= p@);
    true
}

fn kw_comment_bytes() -> (r: Vec<u8>)
    ensures
        r@ == kw_comment(),
{
    let mut r: Vec<u8> = Vec::new();
    r.push(0x23);
    r.push(0x20);
    assert(r@ =~= kw_comment());
    r
}

fn kw_start_bytes() -> (r: Vec<u8>)
    ensures
        r@ == kw_start(),
{
    let mut r: Vec<u8> = Vec::new();
    r.push(0x73);
    r.push(0x74);
    r.push(0x61);
    r.push(0x72);
    r.push(0x74);
    r.push(0x5F);
    r.push(0x63);
    r.push(0x68);
    r.push(0x61);
    r.push(0x72);
    r.push(0x67);
    r.push(0x65);
    r.push(0x20);
    assert(r@ =~= kw_start());
    r
}

fn kw_place_bytes() -> (r: Vec<u8>)
    ensures
        r@ == kw_place(),
{
    let mut r: Vec<u8> = Vec::new();
    r.push(0x70);
    r.push(0x6C);
    r.push(0x61);
    r.push(0x63);
    r.push(0x65);
    r.push(0x20);
    assert(r@ =~= kw_place());
    r
}

fn kw_origin_bytes() -> (r: Vec<u8>)
    ensures
        r@ == kw_origin(),
{
    let mut r: Vec<u8> = Vec::new();
    r.push(0x6F);
    r.push(0x72);
    r.push(0x69);
    r.push(0x67);
    r.push(0x69);
    r.push(0x6E);
    r.push(0x20);
    assert(r@ =~= kw_origin());
    r
}

fn kw_grid_bytes() -> (r: Vec<u8>)
    ensures
        r@ == kw_grid(),
{
    let mut r: Vec<u8> = Vec::new();
    r.push(0x67);
    r.push(0x72);
    r.push(0x69);
    r.push(0x64);
    r.push(0x20);
    assert(r@ =~= kw_grid());
    r
}

fn kw_none_bytes() -> (r: Vec<u8>)
    ensures
        r@ == kw_none(),
{
    let mut r: Vec<u8> = Vec::new();
    r.push(0x6E);
    r.push(0x6F);
    r.push(0x6E);
    r.push(0x65);
    assert(r@ =~= kw_none());
    r
}

/// Two integers after a keyword of length `k`.
fn two_ints(line: &Vec<u8>, k: usize) -> (r: Option<(i32, i32)>)
    requires
        k <= line@.len(),
    ensures
        ({
            let rest = line@.subrange(k as int, line@.len() as int);
            r == match two_tokens(rest) {
                Some((a, b)) => match (parse_i32_spec(a), parse_i32_spec(b)) {
                    (Some(x), Some(y)) => Some((x, y)),
                    _ => None,
                },
                None => None,
            }
        }),
{
    match two_tokens_exec(line.as_slice(), k) {
        None => None,
        Some(((a, b), (c, d))) => {
            let x = parse_i32(line.as_slice(), a, b);
            let y = parse_i32(line.as_slice(), c, d);
            match (x, y) {
                (Some(x), Some(y)) => Some((x, y)),
                _ => None,
            }
        },
    }
}

impl Reader {
    /// Read one line; `false` if it is malformed.
    fn read(&mut self, line: Vec<u8>) -> (ok: bool)
        ensures
            ok ==> apply_line(old(self).model(), line@) == Some(final(self).model()),
            !ok ==> apply_line(old(self).model(), line@) is None,
    {
        let ghost st = self.model();
        let n = line.len();
        if starts_with(line.as_slice(), kw_comment_bytes().as_slice()) {
            return true;
        }
        let (tb, te) = trim_range(line.as_slice(), 0);
        proof {
            assert(line@.subrange(0, n as int) =~= line@);
        }
        if tb == te {
            return true;
        }
        let kw = kw_start_bytes();
        if starts_with(line.as_slice(), kw.as_slice()) {
            let (a, b) = trim_range(line.as_slice(), kw.len());
            match parse_charge(line.as_slice(), a, b) {
                Some(c) => {
                    self.start_charge = c;
                    return true;
                },
                None => {
                    return false;
                },
            }
        }
        let kw = kw_place_bytes();
        if starts_with(line.as_slice(), kw.as_slice()) {
            let (a, b) = trim_range(line.as_slice(), kw.len());
            let none = kw_none_bytes();
            if range_equals(line.as_slice(), a, b, none.as_slice()) {
                return true;
            }
            match two_ints(&line, kw.len()) {
                Some((x, y)) => {
                    self.place = Some(Pos { x, y });
                    return true;
                },
                None => {
                    return false;
                },
            }
        }
        let kw = kw_origin_bytes();
        if starts_with(line.as_slice(), kw.as_slice()) {
            match two_ints(&line, kw.len()) {
                Some((x, y)) => {
                    self.origin = (x, y);
                    return true;
                },
                None => {
                    return false;
                },
            }
        }
        let kw = kw_grid_bytes();
        if starts_with(line.as_slice(), kw.as_slice()) {
            match two_ints(&line, kw.len()) {
                Some((w, h)) => {
                    self.dims = Some((w, h));
                    return true;
                },
                None => {
                    return false;
                },
            }
        }
        let ghost lv = line@;
        self.rows.push(line);
        proof {
            assert(self.rows@.map_values(|v: Vec<u8>| v@) =~= old(self).rows@.map_values(|v: Vec<u8>| v@).push(lv));
        }
        true
    }
}


proof fn lemma_leads_len(s: Seq<u8>)
    ensures
        leads(s).len() <= s.len(),
    decreases s.len(),
{
    if s.len() > 0 {
        lemma_leads_len(s.drop_last());
    }
}

/// The characters of a prefix are a prefix of the characters.
proof fn lemma_leads_prefix(s: Seq<u8>, i: int)
    requires
        0 <= i <= s.len(),
    ensures
        leads(s.take(i)).len() <= leads(s).len(),
        leads(s).take(leads(s.take(i)).len() as int) == leads(s.take(i)),
    decreases s.len(),
{
    if i == s.len() {
        assert(s.take(i) =~= s);
        assert(leads(s).take(leads(s).len() as int) =~= leads(s));
    } else {
        assert(s.drop_last().take(i) =~= s.take(i));
        lemma_leads_prefix(s.drop_last(), i);
        let a = leads(s.take(i));
        let l = leads(s.drop_last());
        if !is_cont(s.last()) {
            assert(l.push(s.last()).take(a.len() as int) =~= l.take(a.len() as int));
        }
    }
}

/// Should the cell at column `x` of a row read `#`? See [`parsed_cell`].
pub open spec fn row_hash(row: Seq<u8>, ox: int, w: int, x: int) -> bool {
    let ci = x - ox;
    0 <= ci < leads(row).len() && (w < 0 || ci < w) && leads(row)[ci] == 0x23
}

/// Paint the solids of one text row onto row `y` of a board that is empty
/// there.
fn fill_row(g: &mut Grid, line: &Vec<u8>, ox: i32, y: i64, w: i32)
    requires
        old(g).wf(),
        old(g).dirty,
        forall|k: int| 0 <= k < GRID_CELLS && row(k) == y ==> #[trigger] old(g).cells@[k] == Cell::Empty,
    ensures
        final(g).wf(),
        final(g).locked@ == old(g).locked@,
        final(g).dirty,
        forall|k: int|
            0 <= k < GRID_CELLS ==> #[trigger] final(g).cells@[k] == if row(k) == y && row_hash(
                line@,
                ox as int,
                w as int,
                col(k),
            ) {
                Cell::Solid
            } else {
                old(g).cells@[k]
            },
{
    let n = line.len();
    let mut i: usize = 0;
    let mut x: usize = 0;
    let ghost old_cells = g.cells@;
    while i < n
        invariant_except_break
            g.wf(),
            g.locked@ == old(g).locked@,
            g.dirty,
            old(g).cells@.len() == GRID_CELLS,
            n == line@.len(),
            i <= n,
            x <= i,
            old_cells == old(g).cells@,
            x == leads(line@.take(i as int)).len(),
            w >= 0 ==> x <= w,
            forall|k: int| 0 <= k < GRID_CELLS && row(k) == y ==> #[trigger] old(g).cells@[k] == Cell::Empty,
            forall|k: int|
                0 <= k < GRID_CELLS ==> #[trigger] g.cells@[k] == if row(k) == y && 0 <= col(k) - ox < x
                    && leads(line@.take(i as int))[col(k) - ox] == 0x23 {
                    Cell::Solid
                } else {
                    old(g).cells@[k]
                },
        ensures
            g.wf(),
            g.locked@ == old(g).locked@,
            g.dirty,
            old(g).cells@.len() == GRID_CELLS,
            i <= n,
            n == line@.len(),
            x == leads(line@.take(i as int)).len(),
            w >= 0 ==> x <= w,
            i == n || (w >= 0 && x == w),
            forall|k: int|
                0 <= k < GRID_CELLS ==> #[trigger] g.cells@[k] == if row(k) == y && 0 <= col(k) - ox < x
                    && leads(line@.take(i as int))[col(k) - ox] == 0x23 {
                    Cell::Solid
                } else {
                    old(g).cells@[k]
                },
        decreases n - i,
    {
        let b = line[i];
        let ghost prev_take = line@.take(i as int);
        assert(line@.take(i + 1).drop_last() =~= prev_take);
        assert(line@.take(i + 1).last() == b);
        proof {
            lemma_leads_len(line@.take(i + 1));
        }
        if !(0x80 <= b && b <= 0xBF) {
            if w >= 0 && x as i64 == w as i64 {
                break;
            }
            if b == 0x23 {
                let cx = ox as i128 + x as i128;
                if cx >= 0 && y >= 0 && cx < GRID_W as i128 && y < GRID_H as i64 {
                    let ghost before = g.cells@;
                    g.set(Pos { x: cx as i32, y: y as i32 }, Cell::Solid);
                    proof {
                        lemma_idx_bounds(cx as int, y as int);
                        assert forall|k: int| 0 <= k < GRID_CELLS implies #[trigger] g.cells@[k] == if row(k)
                            == y && 0 <= col(k) - ox < x + 1 && leads(line@.take(i + 1))[col(k) - ox] == 0x23 {
                            Cell::Solid
                        } else {
                            old(g).cells@[k]
                        } by {
                            lemma_idx_roundtrip(k);
                        }
                    }
                } else {
                    proof {
                        assert forall|k: int| 0 <= k < GRID_CELLS implies #[trigger] g.cells@[k] == if row(k)
                            == y && 0 <= col(k) - ox < x + 1 && leads(line@.take(i + 1))[col(k) - ox] == 0x23 {
                            Cell::Solid
                        } else {
                            old(g).cells@[k]
                        } by {
                            lemma_idx_roundtrip(k);
                        }
                    }
                }
            } else {
                proof {
                    assert forall|k: int| 0 <= k < GRID_CELLS implies #[trigger] g.cells@[k] == if row(k) == y
                        && 0 <= col(k) - ox < x + 1 && leads(line@.take(i + 1))[col(k) - ox] == 0x23 {
                        Cell::Solid
                    } else {
                        old(g).cells@[k]
                    } by {
                        lemma_idx_roundtrip(k);
                    }
                }
            }
            x = x + 1;
        }
        i = i + 1;
    }
    proof {
        lemma_leads_prefix(line@, i as int);
        if i == n {
            assert(line@.take(i as int) =~= line@);
        }
        assert forall|k: int| 0 <= k < GRID_CELLS implies #[trigger] g.cells@[k] == if row(k) == y && row_hash(
            line@,
            ox as int,
            w as int,
            col(k),
        ) {
            Cell::Solid
        } else {
            old(g).cells@[k]
        } by {
            let ci = col(k) - ox;
            if 0 <= ci < x {
                assert(leads(line@)[ci] == leads(line@.take(i as int))[ci]);
            }
        }
    }
}

/// Read every line of `text`, or `None` at the first malformed one.
fn read_all(text: &[u8]) -> (r: Option<Reader>)
    ensures
        match read_lines(lines(text@)) {
            None => r is None,
            Some(st) => r matches Some(rd) && rd.model() == st,
        },
{
    let ranges = line_ranges(text);
    let ghost ls = lines(text@);
    let mut reader = Reader { start_charge: 0, place: None, origin: (0, 0), dims: None, rows: Vec::new() };
    proof {
        assert(reader.model() =~= initial_state());
        assert(ls.take(0) =~= Seq::<Seq<u8>>::empty());
    }
    let mut i: usize = 0;
    while i < ranges.len()
        invariant
            i <= ranges@.len(),
            ranges@.len() == ls.len(),
            ls == lines(text@),
            forall|j: int|
                #![trigger ranges@[j]]
                0 <= j < ranges@.len() ==> ranges@[j].0 <= ranges@[j].1 <= text@.len() && ls[j]
                    == text@.subrange(ranges@[j].0 as int, ranges@[j].1 as int),
            read_lines(ls.take(i as int)) == Some(reader.model()),
        decreases ranges@.len() - i,
    {
        let (a, b) = ranges[i];
        let line = copy_range(text, a, b);
        proof {
            assert(ls.take(i + 1).drop_last() =~= ls.take(i as int));
            assert(ls.take(i + 1).last() == ls[i as int]);
        }
        if !reader.read(line) {
            proof {
                lemma_read_lines_fails(ls, i as int + 1);
            }
            return None;
        }
        i = i + 1;
    }
    proof {
        assert(ls.take(ls.len() as int) =~= ls);
    }
    Some(reader)
}

/// The board described by the rows of a fully read text.
fn build_grid(reader: &Reader) -> (g: Grid)
    requires
        reader.model().dims matches Some((w, h)) && h >= 0 && reader.rows@.len() == h,
    ensures
        g.wf(),
        g.dirty,
        forall|k: int|
            0 <= k < GRID_CELLS ==> !g.locked@[k] && #[trigger] g.cells@[k] == parsed_cell(
                reader.model(),
                col(k),
                row(k),
            ),
{
    let ghost st = reader.model();
    let (w, h) = match reader.dims {
        Some(d) => d,
        None => (0, 0),
    };
    let mut g = Grid::new();
    let oy = reader.origin.1 as i64;
    let ox = reader.origin.0;
    let mut r: usize = 0;
    while r < reader.rows.len()
        invariant
            g.wf(),
            g.dirty,
            st == reader.model(),
            st.dims == Some((w, h)),
            h >= 0,
            reader.rows@.len() == h,
            oy == st.origin.1,
            ox == st.origin.0,
            r <= reader.rows@.len(),
            forall|k: int| 0 <= k < GRID_CELLS ==> !g.locked@[k],
            forall|k: int|
                0 <= k < GRID_CELLS ==> #[trigger] g.cells@[k] == if 0 <= oy + (h - 1) - row(k) < r {
                    parsed_cell(st, col(k), row(k))
                } else {
                    Cell::Empty
                },
        decreases reader.rows@.len() - r,
    {
        let y = oy + (h as i64 - 1 - r as i64);
        fill_row(&mut g, &reader.rows[r], ox, y, w);
        proof {
            assert(st.rows[r as int] == reader.rows@[r as int]@);
            assert forall|k: int| 0 <= k < GRID_CELLS implies #[trigger] g.cells@[k] == if 0 <= oy + (h - 1) - row(
                k,
            ) < r + 1 {
                parsed_cell(st, col(k), row(k))
            } else {
                Cell::Empty
            } by {
            }
        }
        r = r + 1;
    }
    proof {
        assert forall|k: int| 0 <= k < GRID_CELLS implies #[trigger] g.cells@[k] == parsed_cell(st, col(k), row(k))
            by {
            let ri = oy + (h - 1) - row(k);
            if !(0 <= ri < h) {
                assert(parsed_cell(st, col(k), row(k)) == Cell::Empty);
            }
        }
    }
    g
}

/// Parse the text format back into a runnable state: the board, the placed
/// start (if any) and the tuning. The starting charge must be a whole number
/// (see [`crate::text::parse_charge_spec`]); a file whose `start_charge` is a
/// fraction, an exponent or not a number does not load.
pub fn parse(text: &[u8]) -> (r: Option<(Grid, Option<Pos>, Tuning)>)
    ensures
        match parse_state(text@) {
            None => r is None,
            Some(st) => r matches Some((g, place, t)) && g.wf() && g.dirty && place == st.place
                && t.start_charge == st.start_charge && !t.manual && (forall|k: int|
                0 <= k < GRID_CELLS ==> !g.locked@[k] && #[trigger] g.cells@[k] == parsed_cell(
                    st,
                    col(k),
                    row(k),
                )),
        },
{
    let reader = match read_all(text) {
        None => {
            return None;
        },
        Some(rd) => rd,
    };
    let (w, h) = match reader.dims {
        None => {
            return None;
        },
        Some(d) => d,
    };
    if h < 0 || reader.rows.len() != h as usize {
        return None;
    }
    let g = build_grid(&reader);
    Some((g, reader.place, Tuning { start_charge: reader.start_charge, manual: false }))
}

proof fn lemma_read_lines_fails(ls: Seq<Seq<u8>>, n: int)
    requires
        0 <= n <= ls.len(),
        read_lines(ls.take(n)) is None,
    ensures
        read_lines(ls) is None,
    decreases ls.len() - n,
{
    if n < ls.len() {
        assert(ls.take(n + 1).drop_last() =~= ls.take(n));
        lemma_read_lines_fails(ls, n + 1);
    } else {
        assert(ls.take(n) =~= ls);
    }
}


/// `"# eternal_game_02 config v2"`.
pub open spec fn kw_header() -> Seq<u8> {
    seq![
        0x23u8, 0x20u8, 0x65u8, 0x74u8, 0x65u8, 0x72u8, 0x6Eu8, 0x61u8, 0x6Cu8, 0x5Fu8, 0x67u8, 0x61u8,
        0x6Du8, 0x65u8, 0x5Fu8, 0x30u8, 0x32u8, 0x20u8, 0x63u8, 0x6Fu8, 0x6Eu8, 0x66u8, 0x69u8, 0x67u8,
        0x20u8, 0x76u8, 0x32u8,
    ]
}

pub open spec fn nl() -> Seq<u8> {
    seq![0x0Au8]
}

pub open spec fn sp() -> Seq<u8> {
    seq![0x20u8]
}

/// The cell at `(x, y)`, empty off the board.
pub open spec fn cell_or_empty(g: Grid, x: int, y: int) -> Cell {
    match g.cell(x, y) {
        Some(c) => c,
        None => Cell::Empty,
    }
}

/// One text row: the cells `x0..=x1` of row `y`.
pub open spec fn row_text(g: Grid, x0: int, x1: int, y: int) -> Seq<u8> {
    Seq::new((x1 - x0 + 1) as nat, |i: int| cell_byte(cell_or_empty(g, x0 + i, y)))
}

/// `n` text rows, each ended by a newline, from row `ytop` downwards.
pub open spec fn rows_text(g: Grid, x0: int, x1: int, ytop: int, n: nat) -> Seq<u8>
    decreases n,
{
    if n == 0 {
        Seq::empty()
    } else {
        row_text(g, x0, x1, ytop) + nl() + rows_text(g, x0, x1, ytop - 1, (n - 1) as nat)
    }
}

/// The `place` line.
pub open spec fn place_text(place: Option<Pos>) -> Seq<u8> {
    match place {
        Some(p) => kw_place() + int_text(p.x as int) + sp() + int_text(p.y as int) + nl(),
        None => kw_place() + kw_none() + nl(),
    }
}

/// The solid bounding box, or the single cell `(0, 0)` for a blank board.
pub open spec fn bounds_of(g: Grid) -> (Pos, Pos) {
    if g.has_solid() {
        choose|b: (Pos, Pos)| g.is_bbox(b.0, b.1)
    } else {
        (Pos { x: 0, y: 0 }, Pos { x: 0, y: 0 })
    }
}

/// The header lines: comment, starting charge, placed start, origin and size.
pub open spec fn header_text(place: Option<Pos>, charge: i64, mn: Pos, mx: Pos) -> Seq<u8> {
    kw_header() + nl() + kw_start() + int_text(charge as int) + nl() + place_text(place) + kw_origin()
        + int_text(mn.x as int) + sp() + int_text(mn.y as int) + nl() + kw_grid() + int_text(
        mx.x - mn.x + 1,
    ) + sp() + int_text(mx.y - mn.y + 1) + nl()
}

/// The whole text for a board, a placed start and a starting charge.
pub open spec fn config_text(g: Grid, place: Option<Pos>, charge: i64) -> Seq<u8> {
    let (mn, mx) = bounds_of(g);
    header_text(place, charge, mn, mx) + rows_text(
        g,
        mn.x as int,
        mx.x as int,
        mx.y as int,
        (mx.y - mn.y + 1) as nat,
    )
}

/// The tight bounding box is unique.
pub proof fn lemma_bbox_unique(g: Grid, a: Pos, b: Pos, c: Pos, d: Pos)
    requires
        g.wf(),
        g.is_bbox(a, b),
        g.is_bbox(c, d),
    ensures
        a == c,
        b == d,
{
    let k0 = choose|k: int| 0 <= k < GRID_CELLS && #[trigger] g.cells@[k] == Cell::Solid && col(k) == a.x;
    let k1 = choose|k: int| 0 <= k < GRID_CELLS && #[trigger] g.cells@[k] == Cell::Solid && col(k) == b.x;
    let k2 = choose|k: int| 0 <= k < GRID_CELLS && #[trigger] g.cells@[k] == Cell::Solid && row(k) == a.y;
    let k3 = choose|k: int| 0 <= k < GRID_CELLS && #[trigger] g.cells@[k] == Cell::Solid && row(k) == b.y;
    let j0 = choose|k: int| 0 <= k < GRID_CELLS && #[trigger] g.cells@[k] == Cell::Solid && col(k) == c.x;
    let j1 = choose|k: int| 0 <= k < GRID_CELLS && #[trigger] g.cells@[k] == Cell::Solid && col(k) == d.x;
    let j2 = choose|k: int| 0 <= k < GRID_CELLS && #[trigger] g.cells@[k] == Cell::Solid && row(k) == c.y;
    let j3 = choose|k: int| 0 <= k < GRID_CELLS && #[trigger] g.cells@[k] == Cell::Solid && row(k) == d.y;
    assert(a.x == c.x);
    assert(b.x == d.x);
    assert(a.y == c.y);
    assert(b.y == d.y);
}

fn kw_header_bytes() -> (r: Vec<u8>)
    ensures
        r@ == kw_header(),
{
    let mut r: Vec<u8> = Vec::new();
    r.push(0x23);
    r.push(0x20);
    r.push(0x65);
    r.push(0x74);
    r.push(0x65);
    r.push(0x72);
    r.push(0x6E);
    r.push(0x61);
    r.push(0x6C);
    r.push(0x5F);
    r.push(0x67);
    r.push(0x61);
    r.push(0x6D);
    r.push(0x65);
    r.push(0x5F);
    r.push(0x30);
    r.push(0x32);
    r.push(0x20);
    r.push(0x63);
    r.push(0x6F);
    r.push(0x6E);
    r.push(0x66);
    r.push(0x69);
    r.push(0x67);
    r.push(0x20);
    r.push(0x76);
    r.push(0x32);
    assert(r@ =~= kw_header());
    r
}

/// Append the cells `x0..=x1` of row `y`.
fn push_row(out: &mut Vec<u8>, g: &Grid, x0: i32, x1: i32, y: i32)
    requires
        g.wf(),
        x0 <= x1 + 1,
    ensures
        final(out)@ == old(out)@ + row_text(*g, x0 as int, x1 as int, y as int),
{
    let mut x: i64 = x0 as i64;
    while x <= x1 as i64
        invariant
            g.wf(),
            x0 <= x <= x1 + 1,
            out@ == old(out)@ + row_text(*g, x0 as int, x1 as int, y as int).take(x - x0),
        decreases x1 + 1 - x,
    {
        let c = match g.get_at(x, y as i64) {
            Some(c) => c,
            None => Cell::Empty,
        };
        out.push(cell_char(c));
        proof {
            let rt = row_text(*g, x0 as int, x1 as int, y as int);
            assert(rt.take(x + 1 - x0) =~= rt.take(x - x0).push(rt[x - x0]));
        }
        x = x + 1;
    }
    proof {
        let rt = row_text(*g, x0 as int, x1 as int, y as int);
        assert(rt.take(x1 + 1 - x0) =~= rt);
    }
}

/// Append `kw`, the integer `v` and a newline.
fn push_int_line(out: &mut Vec<u8>, kw: &[u8], v: i64)
    ensures
        final(out)@ == old(out)@ + (kw@ + int_text(v as int) + nl()),
{
    push_all(out, kw);
    push_int(out, v);
    out.push(0x0A);
    assert(out@ =~= old(out)@ + (kw@ + int_text(v as int) + nl()));
}

/// Append `kw`, the integers `a` and `b` separated by a space, and a newline.
fn push_two_ints_line(out: &mut Vec<u8>, kw: &[u8], a: i64, b: i64)
    ensures
        final(out)@ == old(out)@ + (kw@ + int_text(a as int) + sp() + int_text(b as int) + nl()),
{
    push_all(out, kw);
    push_int(out, a);
    out.push(0x20);
    push_int(out, b);
    out.push(0x0A);
    assert(out@ =~= old(out)@ + (kw@ + int_text(a as int) + sp() + int_text(b as int) + nl()));
}

/// Append the header lines.
fn push_header(out: &mut Vec<u8>, place: Option<Pos>, charge: i64, mn: Pos, mx: Pos)
    requires
        0 <= mn.x <= mx.x < GRID_W,
        0 <= mn.y <= mx.y < GRID_H,
    ensures
        final(out)@ == old(out)@ + header_text(place, charge, mn, mx),
{
    let ghost o0 = out@;
    push_all(out, kw_header_bytes().as_slice());
    out.push(0x0A);
    let ghost o1 = out@;
    push_int_line(out, kw_start_bytes().as_slice(), charge);
    let ghost o2 = out@;
    match place {
        Some(p) => {
            push_two_ints_line(out, kw_place_bytes().as_slice(), p.x as i64, p.y as i64);
        },
        None => {
            let kw = kw_place_bytes();
            push_all(out, kw.as_slice());
            push_all(out, kw_none_bytes().as_slice());
            out.push(0x0A);
            assert(out@ =~= o2 + place_text(place));
        },
    }
    let ghost o3 = out@;
    push_two_ints_line(out, kw_origin_bytes().as_slice(), mn.x as i64, mn.y as i64);
    let ghost o4 = out@;
    push_two_ints_line(out, kw_grid_bytes().as_slice(), mx.x as i64 - mn.x as i64 + 1, mx.y as i64 - mn.y as i64 + 1);
    proof {
        assert(o1 == o0 + (kw_header() + nl()));
        assert(o3 == o2 + place_text(place));
        assert(out@ =~= o0 + header_text(place, charge, mn, mx));
    }
}

/// Append the rows `mx.y` down to `mn.y` over the columns `mn.x..=mx.x`.
fn push_rows(out: &mut Vec<u8>, grid: &Grid, mn: Pos, mx: Pos)
    requires
        grid.wf(),
        0 <= mn.x <= mx.x < GRID_W,
        0 <= mn.y <= mx.y < GRID_H,
    ensures
        final(out)@ == old(out)@ + rows_text(*grid, mn.x as int, mx.x as int, mx.y as int, (mx.y - mn.y + 1) as nat),
{
    let ghost head = old(out)@;
    let ghost n = (mx.y - mn.y + 1) as nat;
    let mut y: i32 = mx.y;
    assert(head + rows_text(*grid, mn.x as int, mx.x as int, mx.y as int, n) == head + rows_text(
        *grid,
        mn.x as int,
        mx.x as int,
        mx.y as int,
        n,
    ));
    while y >= mn.y
        invariant
            grid.wf(),
            0 <= mn.x <= mx.x < GRID_W,
            0 <= mn.y <= mx.y < GRID_H,
            mn.y - 1 <= y <= mx.y,
            n == mx.y - mn.y + 1,
            head == old(out)@,
            out@ + rows_text(*grid, mn.x as int, mx.x as int, y as int, (y - mn.y + 1) as nat) == head
                + rows_text(*grid, mn.x as int, mx.x as int, mx.y as int, n),
        decreases y - mn.y + 1,
    {
        let ghost before = out@;
        push_row(out, grid, mn.x, mx.x, y);
        out.push(0x0A);
        proof {
            let rt = row_text(*grid, mn.x as int, mx.x as int, y as int);
            let rest = rows_text(*grid, mn.x as int, mx.x as int, y - 1, (y - 1 - mn.y + 1) as nat);
            assert(rows_text(*grid, mn.x as int, mx.x as int, y as int, (y - mn.y + 1) as nat) == rt + nl()
                + rest);
            assert(before + (rt + nl() + rest) =~= out@ + rest);
        }
        y = y - 1;
    }
    assert(rows_text(*grid, mn.x as int, mx.x as int, y as int, 0) =~= Seq::<u8>::empty());
    assert(out@ + Seq::<u8>::empty() =~= out@);
}

/// Serialise the board, the placed start and the tuning to the text format.
pub fn serialize(grid: &Grid, place: Option<Pos>, tuning: &Tuning) -> (r: Vec<u8>)
    requires
        grid.wf(),
    ensures
        r@ == config_text(*grid, place, tuning.start_charge),
{
    let (mn, mx) = match grid.content_bounds() {
        Some(b) => b,
        None => (Pos { x: 0, y: 0 }, Pos { x: 0, y: 0 }),
    };
    proof {
        if grid.has_solid() {
            let b = choose|b: (Pos, Pos)| grid.is_bbox(b.0, b.1);
            assert(grid.is_bbox(mn, mx));
            lemma_bbox_unique(*grid, mn, mx, b.0, b.1);
            crate::grid::lemma_bbox_on_board(*grid, mn, mx);
        }
    }
    let mut out: Vec<u8> = Vec::new();
    push_header(&mut out, place, tuning.start_charge, mn, mx);
    push_rows(&mut out, grid, mn, mx);
    assert(out@ =~= config_text(*grid, place, tuning.start_charge));
    out
}

/// The character shown for `(x, y)` in a board picture: `@` for the marker,
/// else the cell's own character.
pub open spec fn picture_byte(g: Grid, marker: Option<Pos>, x: int, y: int) -> u8 {
    if marker matches Some(m) && m.x == x && m.y == y {
        0x40
    } else {
        cell_byte(cell_or_empty(g, x, y))
    }
}

/// One picture row: the columns `x0..=x1` of row `y`.
pub open spec fn picture_row(g: Grid, marker: Option<Pos>, x0: int, x1: int, y: int) -> Seq<u8> {
    Seq::new((x1 - x0 + 1) as nat, |i: int| picture_byte(g, marker, x0 + i, y))
}

/// `n` picture rows, each ended by a newline, from row `ytop` downwards.
pub open spec fn picture_rows(g: Grid, marker: Option<Pos>, x0: int, x1: int, ytop: int, n: nat) -> Seq<u8>
    decreases n,
{
    if n == 0 {
        Seq::empty()
    } else {
        picture_row(g, marker, x0, x1, ytop) + nl() + picture_rows(g, marker, x0, x1, ytop - 1, (n - 1) as nat)
    }
}

pub open spec fn min_int(a: int, b: int) -> int {
    if a < b {
        a
    } else {
        b
    }
}

pub open spec fn max_int(a: int, b: int) -> int {
    if a > b {
        a
    } else {
        b
    }
}

/// The area a picture shows, `(x0, y0, x1, y1)`: the solid bounding box grown
/// by one cell on every side, and stretched to take in the marker.
pub open spec fn picture_frame(g: Grid, marker: Option<Pos>) -> (int, int, int, int) {
    let (mn, mx) = bounds_of(g);
    let x0 = mn.x - 1;
    let y0 = mn.y - 1;
    let x1 = mx.x + 1;
    let y1 = mx.y + 1;
    match marker {
        Some(m) => (min_int(x0, m.x as int), min_int(y0, m.y as int), max_int(x1, m.x as int), max_int(y1, m.y as int)),
        None => (x0, y0, x1, y1),
    }
}

/// The picture of a board: empty for a blank board, else its framed area top
/// row first.
pub open spec fn ascii_text(g: Grid, marker: Option<Pos>) -> Seq<u8> {
    if !g.has_solid() {
        Seq::empty()
    } else {
        let (x0, y0, x1, y1) = picture_frame(g, marker);
        picture_rows(g, marker, x0, x1, y1, (y1 - y0 + 1) as nat)
    }
}

/// Append the picture row `y` over the columns `x0..=x1`.
fn push_picture_row(out: &mut Vec<u8>, g: &Grid, marker: Option<Pos>, x0: i64, x1: i64, y: i64)
    requires
        g.wf(),
        x0 <= x1 + 1,
        i32::MIN - 2 <= x0,
        x1 <= i32::MAX + 2,
    ensures
        final(out)@ == old(out)@ + picture_row(*g, marker, x0 as int, x1 as int, y as int),
{
    let mut x: i64 = x0;
    while x <= x1
        invariant
            g.wf(),
            x0 <= x <= x1 + 1,
            x1 <= i32::MAX + 2,
            out@ == old(out)@ + picture_row(*g, marker, x0 as int, x1 as int, y as int).take(x - x0),
        decreases x1 + 1 - x,
    {
        let is_marker = match marker {
            Some(m) => m.x as i64 == x && m.y as i64 == y,
            None => false,
        };
        let b = if is_marker {
            0x40u8
        } else {
            match g.get_at(x, y) {
                Some(c) => cell_char(c),
                None => cell_char(Cell::Empty),
            }
        };
        out.push(b);
        proof {
            let pr = picture_row(*g, marker, x0 as int, x1 as int, y as int);
            assert(pr[x - x0] == b);
            assert(pr.take(x + 1 - x0) =~= pr.take(x - x0).push(pr[x - x0]));
        }
        x = x + 1;
    }
    proof {
        let pr = picture_row(*g, marker, x0 as int, x1 as int, y as int);
        assert(pr.take(x1 + 1 - x0) =~= pr);
    }
}

/// Render the solid region as text, top row first. The marker (the ball)
/// shows as `@`. The crop includes a one-cell ring so the open cells the ball
/// walks are visible too. A blank board gives an empty text.
pub fn ascii(grid: &Grid, marker: Option<Pos>) -> (r: Vec<u8>)
    requires
        grid.wf(),
    ensures
        r@ == ascii_text(*grid, marker),
{
    let (mn, mx) = match grid.content_bounds() {
        None => {
            return Vec::new();
        },
        Some(b) => b,
    };
    proof {
        let b = choose|b: (Pos, Pos)| grid.is_bbox(b.0, b.1);
        lemma_bbox_unique(*grid, mn, mx, b.0, b.1);
        crate::grid::lemma_bbox_on_board(*grid, mn, mx);
    }
    let mut x0: i64 = mn.x as i64 - 1;
    let mut y0: i64 = mn.y as i64 - 1;
    let mut x1: i64 = mx.x as i64 + 1;
    let mut y1: i64 = mx.y as i64 + 1;
    match marker {
        Some(m) => {
            if (m.x as i64) < x0 {
                x0 = m.x as i64;
            }
            if (m.y as i64) < y0 {
                y0 = m.y as i64;
            }
            if (m.x as i64) > x1 {
                x1 = m.x as i64;
            }
            if (m.y as i64) > y1 {
                y1 = m.y as i64;
            }
        },
        None => {},
    }
    let ghost frame = picture_frame(*grid, marker);
    assert(frame == (x0 as int, y0 as int, x1 as int, y1 as int));
    let ghost n = (y1 - y0 + 1) as nat;
    let mut out: Vec<u8> = Vec::new();
    let mut y: i64 = y1;
    while y >= y0
        invariant
            grid.wf(),
            i32::MIN - 2 <= x0 <= x1,
            x1 <= i32::MAX + 2,
            i32::MIN - 2 <= y0 <= y1,
            y1 <= i32::MAX + 2,
            y0 - 1 <= y <= y1,
            n == y1 - y0 + 1,
            out@ + picture_rows(*grid, marker, x0 as int, x1 as int, y as int, (y - y0 + 1) as nat) == picture_rows(
                *grid,
                marker,
                x0 as int,
                x1 as int,
                y1 as int,
                n,
            ),
        decreases y - y0 + 1,
    {
        let ghost before = out@;
        push_picture_row(&mut out, grid, marker, x0, x1, y);
        out.push(0x0A);
        proof {
            let pr = picture_row(*grid, marker, x0 as int, x1 as int, y as int);
            let rest = picture_rows(*grid, marker, x0 as int, x1 as int, y - 1, (y - 1 - y0 + 1) as nat);
            assert(picture_rows(*grid, marker, x0 as int, x1 as int, y as int, (y - y0 + 1) as nat) == pr + nl()
                + rest);
            assert(before + (pr + nl() + rest) =~= out@ + rest);
        }
        y = y - 1;
    }
    assert(picture_rows(*grid, marker, x0 as int, x1 as int, y as int, 0) =~= Seq::<u8>::empty());
    assert(out@ + Seq::<u8>::empty() =~= out@);
    out
}

/// `(mn, mx)` is the tight bounding box of the solids among `cells`.
pub open spec fn cells_bbox(cells: Seq<Cell>, mn: Pos, mx: Pos) -> bool {
    &&& forall|k: int|
        0 <= k < GRID_CELLS && #[trigger] cells[k] == Cell::Solid ==> mn.x <= col(k) <= mx.x && mn.y <= row(k)
            <= mx.y
    &&& exists|k: int| 0 <= k < GRID_CELLS && #[trigger] cells[k] == Cell::Solid && col(k) == mn.x
    &&& exists|k: int| 0 <= k < GRID_CELLS && #[trigger] cells[k] == Cell::Solid && col(k) == mx.x
    &&& exists|k: int| 0 <= k < GRID_CELLS && #[trigger] cells[k] == Cell::Solid && row(k) == mn.y
    &&& exists|k: int| 0 <= k < GRID_CELLS && #[trigger] cells[k] == Cell::Solid && row(k) == mx.y
}

/// The board cells read from a parsed text.
pub open spec fn parsed_cells(st: ParseState) -> Seq<Cell> {
    Seq::new(GRID_CELLS as nat, |k: int| parsed_cell(st, col(k), row(k)))
}

/// The move that centres the solids of `cells` on the board: the bounding
/// box's centre goes to the board's centre, halves rounded away from zero.
/// No move for a blank board.
pub open spec fn centre_shift(cells: Seq<Cell>) -> Pos {
    if exists|k: int| 0 <= k < GRID_CELLS && #[trigger] cells[k] == Cell::Solid {
        let b = choose|b: (Pos, Pos)| cells_bbox(cells, b.0, b.1);
        Pos {
            x: round_half(GRID_W - 1 - (b.0.x + b.1.x)) as i32,
            y: round_half(GRID_H - 1 - (b.0.y + b.1.y)) as i32,
        }
    } else {
        Pos { x: 0, y: 0 }
    }
}

/// `a + b` wrapped to an `i32`, as a release build adds.
pub open spec fn wrap_add(a: i32, b: i32) -> i32 {
    if a + b > i32::MAX {
        (a + b - 0x1_0000_0000) as i32
    } else if a + b < i32::MIN {
        (a + b + 0x1_0000_0000) as i32
    } else {
        (a + b) as i32
    }
}

/// A placed start moved along with the board.
pub open spec fn moved_place(place: Option<Pos>, s: Pos) -> Option<Pos> {
    match place {
        Some(p) => Some(Pos { x: wrap_add(p.x, s.x), y: wrap_add(p.y, s.y) }),
        None => None,
    }
}

/// Load a level: parse it, centre its solids on the board (moving the placed
/// start with them), then lock every solid so the level's own geometry can't
/// be erased — only the player's strokes can be.
pub fn parse_level(text: &[u8]) -> (r: Option<(Grid, Option<Pos>, Tuning)>)
    ensures
        match parse_state(text@) {
            None => r is None,
            Some(st) => r matches Some((g, place, t)) && {
                let pc = parsed_cells(st);
                let s = centre_shift(pc);
                &&& g.wf()
                &&& g.dirty
                &&& forall|k: int| 0 <= k < GRID_CELLS ==> #[trigger] g.cells@[k] == shifted_cell(pc, s.x as int, s.y as int, k)
                &&& forall|k: int| 0 <= k < GRID_CELLS ==> #[trigger] g.locked@[k] == (g.cells@[k] == Cell::Solid)
                &&& place == moved_place(st.place, s)
                &&& t.start_charge == st.start_charge
                &&& !t.manual
            },
        },
{
    let (mut grid, place, tuning) = match parse(text) {
        None => {
            return None;
        },
        Some(p) => p,
    };
    let ghost st = parse_state(text@)->0;
    let ghost pc = parsed_cells(st);
    assert(grid.cells@ =~= pc);
    let ghost g0 = grid;
    let shift = grid.recenter_solids();
    proof {
        if g0.has_solid() {
            let (mn, mx) = choose|mn: Pos, mx: Pos| g0.is_bbox(mn, mx) && shift.x == round_half(GRID_W - 1 - (mn.x + mx.x))
                && shift.y == round_half(GRID_H - 1 - (mn.y + mx.y));
            let b = choose|b: (Pos, Pos)| cells_bbox(pc, b.0, b.1);
            assert(cells_bbox(pc, mn, mx));
            assert(g0.is_bbox(b.0, b.1));
            lemma_bbox_unique(g0, mn, mx, b.0, b.1);
        }
    }
    assert(shift == centre_shift(pc));
    let moved = match place {
        Some(p) => Some(Pos { x: p.x.wrapping_add(shift.x), y: p.y.wrapping_add(shift.y) }),
        None => None,
    };
    grid.lock_solids();
    Some((grid, moved, tuning))
}

} // verus!
