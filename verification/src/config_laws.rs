//! The config format reads back what it writes: parsing the text of a board,
//! a placed start and a starting charge gives back exactly the same solids,
//! start and charge.
use vstd::prelude::*;

use crate::config::{
    apply_line, bounds_of, cell_byte, cell_or_empty, config_text, header_text, initial_state, kw_comment,
    kw_grid, kw_header, kw_none, kw_origin, kw_place, kw_start, leads, nl, parse_state, parsed_cell, place_text,
    read_lines, row_text, rows_text, sp, ParseState,
};
use crate::grid::{col, lemma_bbox_on_board, lemma_idx_roundtrip, row, Cell, Grid, Pos, GRID_CELLS, GRID_H, GRID_W};
use crate::text::{
    all_digits, digits_value, find_nl, has_prefix, int_text, int_value, lines, nat_digits,
    parse_charge_spec, parse_i32_spec, point_at, strip_cr, token_end, trim, trim_start, two_tokens,
    ws_end_len, ws_len,
};

verus! {

/// Each line followed by a newline.
pub open spec fn join_lines(ls: Seq<Seq<u8>>) -> Seq<u8>
    decreases ls.len(),
{
    if ls.len() == 0 {
        Seq::empty()
    } else {
        ls[0] + nl() + join_lines(ls.drop_first())
    }
}

/// A line that `lines` gives back unchanged: no newline in it, no carriage
/// return at its end.
pub open spec fn plain_line(a: Seq<u8>) -> bool {
    &&& forall|i: int| 0 <= i < a.len() ==> a[i] != 0x0A
    &&& (a.len() == 0 || a.last() != 0x0D)
}

proof fn lemma_find_nl_at(s: Seq<u8>, m: int, i: int)
    requires
        0 <= i <= m < s.len(),
        s[m] == 0x0A,
        forall|k: int| 0 <= k < m ==> s[k] != 0x0A,
    ensures
        find_nl(s, i) == m,
    decreases m - i,
{
    if i < m {
        lemma_find_nl_at(s, m, i + 1);
    }
}

proof fn lemma_lines_cons(a: Seq<u8>, rest: Seq<u8>)
    requires
        plain_line(a),
    ensures
        lines(a + nl() + rest) == seq![a] + lines(rest),
{
    let s = a + nl() + rest;
    assert(s[a.len() as int] == 0x0A);
    assert forall|k: int| 0 <= k < a.len() implies s[k] != 0x0A by {
        assert(s[k] == a[k]);
    }
    lemma_find_nl_at(s, a.len() as int, 0);
    assert(s.subrange(0, a.len() as int) =~= a);
    assert(strip_cr(a) == a);
    assert(s.subrange(a.len() as int + 1, s.len() as int) =~= rest);
}

proof fn lemma_lines_join(ls: Seq<Seq<u8>>)
    requires
        forall|i: int| 0 <= i < ls.len() ==> plain_line(#[trigger] ls[i]),
    ensures
        lines(join_lines(ls)) == ls,
    decreases ls.len(),
{
    if ls.len() == 0 {
        assert(lines(Seq::<u8>::empty()) =~= Seq::<Seq<u8>>::empty());
    } else {
        let t = ls.drop_first();
        assert forall|i: int| 0 <= i < t.len() implies plain_line(#[trigger] t[i]) by {
            assert(t[i] == ls[i + 1]);
        }
        lemma_lines_join(t);
        assert(plain_line(ls[0]));
        lemma_lines_cons(ls[0], join_lines(t));
        assert(seq![ls[0]] + t =~= ls);
    }
}

proof fn lemma_join_append(a: Seq<Seq<u8>>, b: Seq<Seq<u8>>)
    ensures
        join_lines(a + b) == join_lines(a) + join_lines(b),
    decreases a.len(),
{
    if a.len() == 0 {
        assert(a + b =~= b);
        assert(Seq::<u8>::empty() + join_lines(b) =~= join_lines(b));
    } else {
        assert((a + b).drop_first() =~= a.drop_first() + b);
        lemma_join_append(a.drop_first(), b);
        assert((a + b)[0] == a[0]);
        assert(a[0] + nl() + (join_lines(a.drop_first()) + join_lines(b)) =~= (a[0] + nl() + join_lines(
            a.drop_first(),
        )) + join_lines(b));
    }
}

/// The rows of a text block, top first.
pub open spec fn row_lines(g: Grid, x0: int, x1: int, ytop: int, n: nat) -> Seq<Seq<u8>> {
    Seq::new(n, |i: int| row_text(g, x0, x1, ytop - i))
}

proof fn lemma_rows_join(g: Grid, x0: int, x1: int, ytop: int, n: nat)
    ensures
        rows_text(g, x0, x1, ytop, n) == join_lines(row_lines(g, x0, x1, ytop, n)),
    decreases n,
{
    let rl = row_lines(g, x0, x1, ytop, n);
    if n == 0 {
        assert(rl =~= Seq::<Seq<u8>>::empty());
    } else {
        lemma_rows_join(g, x0, x1, ytop - 1, (n - 1) as nat);
        assert(rl.drop_first() =~= row_lines(g, x0, x1, ytop - 1, (n - 1) as nat));
        assert(rl[0] == row_text(g, x0, x1, ytop));
    }
}

/// Digits and a minus sign only.
pub open spec fn numeric(s: Seq<u8>) -> bool {
    forall|i: int| 0 <= i < s.len() ==> (0x30 <= #[trigger] s[i] <= 0x39 || s[i] == 0x2D)
}

proof fn lemma_nat_digits(n: nat)
    ensures
        nat_digits(n).len() > 0,
        all_digits(nat_digits(n)),
        digits_value(nat_digits(n)) == n,
    decreases n,
{
    let s = nat_digits(n);
    if n >= 10 {
        lemma_nat_digits(n / 10);
        let d = nat_digits(n / 10);
        assert(s.drop_last() =~= d);
        assert(s.last() == (n % 10 + 0x30) as u8);
        assert((n / 10) * 10 + n % 10 == n);
        assert(s.last() == n % 10 + 0x30);
        assert(digits_value(s) == digits_value(s.drop_last()) * 10 + (s.last() - 0x30));
        assert forall|i: int| 0 <= i < s.len() implies crate::text::is_digit(#[trigger] s[i]) by {
            if i < d.len() {
                assert(s[i] == d[i]);
            }
        }
    } else {
        assert(s.drop_last() =~= Seq::<u8>::empty());
        assert(s.last() == (n + 0x30) as u8);
        assert(s.last() == n + 0x30);
        assert(digits_value(s) == digits_value(s.drop_last()) * 10 + (s.last() - 0x30));
    }
}

proof fn lemma_int_text(v: int)
    ensures
        int_text(v).len() > 0,
        numeric(int_text(v)),
        int_value(int_text(v)) == Some(v),
        int_text(v)[0] != 0x2B,
        crate::text::is_digit(int_text(v).last()),
        int_text(v)[0] == 0x2D || crate::text::is_digit(int_text(v)[0]),
{
    let t = int_text(v);
    if v < 0 {
        lemma_nat_digits((-v) as nat);
        let d = nat_digits((-v) as nat);
        assert(t.subrange(1, t.len() as int) =~= d);
        assert(t.last() == d.last());
        assert forall|i: int| 0 <= i < t.len() implies (0x30 <= #[trigger] t[i] <= 0x39 || t[i] == 0x2D) by {
            if i > 0 {
                assert(t[i] == d[i - 1]);
            }
        }
    } else {
        lemma_nat_digits(v as nat);
    }
}

proof fn lemma_numeric_no_ws(s: Seq<u8>, i: int)
    requires
        numeric(s),
    ensures
        ws_len(s, i) == 0,
{
}

proof fn lemma_numeric_trim(s: Seq<u8>)
    requires
        numeric(s),
        s.len() > 0,
    ensures
        trim(s) == s,
        trim_start(s) == s,
{
    lemma_numeric_no_ws(s, 0);
    assert(ws_end_len(s) == 0);
}

proof fn lemma_numeric_token_end(s: Seq<u8>, i: int)
    requires
        numeric(s),
        0 <= i <= s.len(),
    ensures
        token_end(s, i) == s.len(),
    decreases s.len() - i,
{
    if i < s.len() {
        lemma_numeric_no_ws(s, i);
        lemma_numeric_token_end(s, i + 1);
    }
}

proof fn lemma_token_end_space(t: Seq<u8>, a: Seq<u8>, i: int)
    requires
        numeric(a),
        t == a + sp() + t.subrange(a.len() as int + 1, t.len() as int),
        0 <= i <= a.len(),
    ensures
        token_end(t, i) == a.len(),
    decreases a.len() - i,
{
    if i < a.len() {
        assert(t[i] == a[i]);
        assert(ws_len(t, i) == 0);
        lemma_token_end_space(t, a, i + 1);
    } else {
        assert(t[i] == 0x20);
    }
}

proof fn lemma_two_tokens(a: Seq<u8>, b: Seq<u8>)
    requires
        numeric(a),
        numeric(b),
        a.len() > 0,
        b.len() > 0,
    ensures
        two_tokens(a + sp() + b) == Some((a, b)),
{
    let s = a + sp() + b;
    assert(s[0] == a[0]);
    assert(ws_len(s, 0) == 0);
    assert(trim_start(s) == s);
    assert(s == a + sp() + s.subrange(a.len() as int + 1, s.len() as int)) by {
        assert(s.subrange(a.len() as int + 1, s.len() as int) =~= b);
    }
    lemma_token_end_space(s, a, 0);
    assert(s.subrange(0, a.len() as int) =~= a);
    let rest = s.subrange(a.len() as int, s.len() as int);
    assert(rest =~= sp() + b);
    assert(ws_len(rest, 0) == 1);
    assert(rest.subrange(1, rest.len() as int) =~= b);
    lemma_numeric_trim(b);
    assert(trim_start(rest) == b);
    lemma_numeric_token_end(b, 0);
    assert(b.subrange(0, b.len() as int) =~= b);
}

proof fn lemma_point_absent(s: Seq<u8>, i: int)
    requires
        numeric(s),
        0 <= i,
    ensures
        point_at(s, i) == -1,
    decreases s.len() - i,
{
    if i < s.len() {
        lemma_point_absent(s, i + 1);
    }
}

proof fn lemma_parse_int_text(v: int)
    ensures
        i32::MIN <= v <= i32::MAX ==> parse_i32_spec(int_text(v)) == Some(v as i32),
        i64::MIN <= v <= i64::MAX ==> parse_charge_spec(int_text(v)) == Some(v as i64),
{
    lemma_int_text(v);
    lemma_point_absent(int_text(v), 0);
}

/// Printable ASCII only: no newline, no carriage return, nothing a UTF-8
/// reader would take for part of a wider character.
pub open spec fn printable(s: Seq<u8>) -> bool {
    forall|i: int| 0 <= i < s.len() ==> 0x20 <= #[trigger] s[i] <= 0x7E
}

/// A visible ASCII character: printable and not a space.
pub open spec fn graphic(b: u8) -> bool {
    0x21 <= b <= 0x7E
}

proof fn lemma_keywords()
    ensures
        printable(kw_header()),
        printable(kw_start()),
        printable(kw_place()),
        printable(kw_origin()),
        printable(kw_grid()),
        printable(kw_none()),
        printable(sp()),
        kw_header().len() == 27,
        kw_header()[0] == 0x23,
        kw_header()[1] == 0x20,
        kw_header()[26] == 0x32,
        kw_comment().len() == 2,
        kw_comment()[0] == 0x23,
        kw_comment()[1] == 0x20,
        kw_start().len() == 13,
        kw_start()[0] == 0x73,
        kw_place().len() == 6,
        kw_place()[0] == 0x70,
        kw_origin().len() == 7,
        kw_origin()[0] == 0x6F,
        kw_grid().len() == 5,
        kw_grid()[0] == 0x67,
        kw_none().len() == 4,
        kw_none()[0] == 0x6E,
        kw_none()[3] == 0x65,
{
    assert(printable(kw_header()));
    assert(printable(kw_start()));
    assert(printable(kw_place()));
    assert(printable(kw_origin()));
    assert(printable(kw_grid()));
    assert(printable(kw_none()));
}

/// A string that starts and ends with a visible character is its own trim.
proof fn lemma_trim_graphic(s: Seq<u8>)
    requires
        s.len() > 0,
        graphic(s[0]),
        graphic(s.last()),
    ensures
        trim_start(s) == s,
        trim(s) == s,
{
    assert(ws_len(s, 0) == 0);
    assert(ws_end_len(s) == 0);
}

proof fn lemma_not_prefix(s: Seq<u8>, p: Seq<u8>)
    requires
        s.len() > 0,
        p.len() > 0,
        s[0] != p[0],
    ensures
        !has_prefix(s, p),
{
    if p.len() <= s.len() {
        assert(s.subrange(0, p.len() as int)[0] == s[0]);
    }
}

proof fn lemma_keyword_line(kw: Seq<u8>, rest: Seq<u8>)
    ensures
        has_prefix(kw + rest, kw),
        (kw + rest).subrange(kw.len() as int, (kw + rest).len() as int) == rest,
{
    assert((kw + rest).subrange(0, kw.len() as int) =~= kw);
    assert((kw + rest).subrange(kw.len() as int, (kw + rest).len() as int) =~= rest);
}

proof fn lemma_printable_plain(s: Seq<u8>)
    requires
        printable(s),
    ensures
        plain_line(s),
{
    if s.len() > 0 {
        assert(s.last() == s[s.len() - 1]);
    }
}

/// The `place` line without its newline.
pub open spec fn place_body(place: Option<Pos>) -> Seq<u8> {
    match place {
        Some(p) => kw_place() + int_text(p.x as int) + sp() + int_text(p.y as int),
        None => kw_place() + kw_none(),
    }
}

/// The header lines, without their newlines.
pub open spec fn header_lines(place: Option<Pos>, charge: i64, mn: Pos, mx: Pos) -> Seq<Seq<u8>> {
    seq![
        kw_header(),
        kw_start() + int_text(charge as int),
        place_body(place),
        kw_origin() + int_text(mn.x as int) + sp() + int_text(mn.y as int),
        kw_grid() + int_text(mx.x - mn.x + 1) + sp() + int_text(mx.y - mn.y + 1),
    ]
}

proof fn lemma_join_one(a: Seq<u8>)
    ensures
        join_lines(seq![a]) == a + nl(),
{
    assert(seq![a].drop_first() =~= Seq::<Seq<u8>>::empty());
    assert(join_lines(Seq::<Seq<u8>>::empty()) == Seq::<u8>::empty());
    assert(seq![a][0] == a);
    assert(a + nl() + Seq::<u8>::empty() =~= a + nl());
}

proof fn lemma_join5(l0: Seq<u8>, l1: Seq<u8>, l2: Seq<u8>, l3: Seq<u8>, l4: Seq<u8>)
    ensures
        join_lines(seq![l0, l1, l2, l3, l4]) == l0 + nl() + (l1 + nl()) + (l2 + nl()) + (l3 + nl()) + (l4 + nl()),
{
    let t3 = seq![l3] + seq![l4];
    let t2 = seq![l2] + t3;
    let t1 = seq![l1] + t2;
    assert(seq![l0, l1, l2, l3, l4] =~= seq![l0] + t1);
    lemma_join_one(l0);
    lemma_join_one(l1);
    lemma_join_one(l2);
    lemma_join_one(l3);
    lemma_join_one(l4);
    lemma_join_append(seq![l3], seq![l4]);
    lemma_join_append(seq![l2], t3);
    lemma_join_append(seq![l1], t2);
    lemma_join_append(seq![l0], t1);
    assert(l0 + nl() + (l1 + nl()) + (l2 + nl()) + (l3 + nl()) + (l4 + nl()) =~= (l0 + nl()) + ((l1 + nl()) + ((
    l2 + nl()) + ((l3 + nl()) + (l4 + nl())))));
}

proof fn lemma_header_shape(
    h: Seq<u8>,
    ks: Seq<u8>,
    c: Seq<u8>,
    pb: Seq<u8>,
    ko: Seq<u8>,
    x: Seq<u8>,
    y: Seq<u8>,
    kg: Seq<u8>,
    w: Seq<u8>,
    hh: Seq<u8>,
)
    ensures
        h + nl() + ks + c + nl() + (pb + nl()) + ko + x + sp() + y + nl() + kg + w + sp() + hh + nl() == h + nl() + (ks
            + c + nl()) + (pb + nl()) + (ko + x + sp() + y + nl()) + (kg + w + sp() + hh + nl()),
{
    assert(h + nl() + ks + c + nl() + (pb + nl()) + ko + x + sp() + y + nl() + kg + w + sp() + hh + nl() =~= h + nl()
        + (ks + c + nl()) + (pb + nl()) + (ko + x + sp() + y + nl()) + (kg + w + sp() + hh + nl()));
}

proof fn lemma_header_join(place: Option<Pos>, charge: i64, mn: Pos, mx: Pos)
    ensures
        header_text(place, charge, mn, mx) == join_lines(header_lines(place, charge, mn, mx)),
{
    let hl = header_lines(place, charge, mn, mx);
    lemma_join5(hl[0], hl[1], hl[2], hl[3], hl[4]);
    assert(hl =~= seq![hl[0], hl[1], hl[2], hl[3], hl[4]]);
    assert(place_text(place) == place_body(place) + nl()) by {
        assert(place_text(place) =~= place_body(place) + nl());
    }
    lemma_header_shape(
        kw_header(),
        kw_start(),
        int_text(charge as int),
        place_body(place),
        kw_origin(),
        int_text(mn.x as int),
        int_text(mn.y as int),
        kw_grid(),
        int_text(mx.x - mn.x + 1),
        int_text(mx.y - mn.y + 1),
    );
}

/// A text row: at least one cell, each `.` or `#`.
pub open spec fn row_line_ok(r: Seq<u8>) -> bool {
    r.len() > 0 && forall|i: int| 0 <= i < r.len() ==> (#[trigger] r[i] == 0x2E || r[i] == 0x23)
}

proof fn lemma_leads_ascii(s: Seq<u8>)
    requires
        forall|i: int| 0 <= i < s.len() ==> #[trigger] s[i] < 0x80,
    ensures
        leads(s) == s,
    decreases s.len(),
{
    if s.len() > 0 {
        let t = s.drop_last();
        assert forall|i: int| 0 <= i < t.len() implies #[trigger] t[i] < 0x80 by {
            assert(t[i] == s[i]);
        }
        lemma_leads_ascii(t);
        assert(s.last() == s[s.len() - 1]);
        assert(t.push(s.last()) =~= s);
    }
}

proof fn lemma_read_step(ls: Seq<Seq<u8>>, i: int)
    requires
        0 <= i < ls.len(),
    ensures
        read_lines(ls.take(i + 1)) == match read_lines(ls.take(i)) {
            None => None,
            Some(st) => apply_line(st, ls[i]),
        },
{
    assert(ls.take(i + 1).drop_last() =~= ls.take(i));
    assert(ls.take(i + 1).last() == ls[i]);
}

/// A text row is read as a grid row.
proof fn lemma_apply_row(st: ParseState, r: Seq<u8>)
    requires
        row_line_ok(r),
    ensures
        apply_line(st, r) == Some(ParseState { rows: st.rows.push(r), ..st }),
{
    lemma_keywords();
    assert(r[0] == 0x2E || r[0] == 0x23);
    assert(r.last() == r[r.len() - 1]);
    lemma_trim_graphic(r);
    if has_prefix(r, kw_comment()) {
        assert(r.subrange(0, 2)[1] == r[1]);
        assert(r[1] == 0x2E || r[1] == 0x23);
        assert(false);
    }
    lemma_not_prefix(r, kw_start());
    lemma_not_prefix(r, kw_place());
    lemma_not_prefix(r, kw_origin());
    lemma_not_prefix(r, kw_grid());
}

proof fn lemma_read_rows(ls: Seq<Seq<u8>>, st: ParseState, rl: Seq<Seq<u8>>, n: int)
    requires
        ls.len() == 5 + rl.len(),
        forall|j: int| 0 <= j < rl.len() ==> ls[5 + j] == #[trigger] rl[j],
        forall|j: int| 0 <= j < rl.len() ==> row_line_ok(#[trigger] rl[j]),
        read_lines(ls.take(5)) == Some(st),
        st.rows.len() == 0,
        0 <= n <= rl.len(),
    ensures
        read_lines(ls.take(5 + n)) == Some(ParseState { rows: rl.take(n), ..st }),
    decreases n,
{
    if n == 0 {
        assert(rl.take(0) =~= st.rows);
        assert(st =~= ParseState { rows: rl.take(0), ..st });
    } else {
        lemma_read_rows(ls, st, rl, n - 1);
        lemma_read_step(ls, 5 + n - 1);
        assert(ls[5 + (n - 1)] == rl[n - 1]);
        lemma_apply_row(ParseState { rows: rl.take(n - 1), ..st }, rl[n - 1]);
        assert(rl.take(n - 1).push(rl[n - 1]) =~= rl.take(n));
    }
}

/// A keyword followed by two integers separated by a space.
proof fn lemma_pair_line(kw: Seq<u8>, a: int, b: int)
    requires
        kw.len() > 0,
        graphic(kw[0]),
        i32::MIN <= a <= i32::MAX,
        i32::MIN <= b <= i32::MAX,
    ensures
        ({
            let line = kw + int_text(a) + sp() + int_text(b);
            let rest = int_text(a) + sp() + int_text(b);
            &&& line.len() > 0
            &&& line[0] == kw[0]
            &&& has_prefix(line, kw)
            &&& line.subrange(kw.len() as int, line.len() as int) == rest
            &&& trim(line) == line
            &&& trim(rest) == rest
            &&& rest[0] != 0x6E
            &&& two_tokens(rest) == Some((int_text(a), int_text(b)))
            &&& parse_i32_spec(int_text(a)) == Some(a as i32)
            &&& parse_i32_spec(int_text(b)) == Some(b as i32)
        }),
{
    let ia = int_text(a);
    let ib = int_text(b);
    let line = kw + ia + sp() + ib;
    let rest = ia + sp() + ib;
    lemma_int_text(a);
    lemma_int_text(b);
    lemma_parse_int_text(a);
    lemma_parse_int_text(b);
    assert(line =~= kw + rest);
    lemma_keyword_line(kw, rest);
    assert(line[0] == kw[0]);
    assert(line.last() == ib.last());
    assert(rest.last() == ib.last());
    assert(rest[0] == ia[0]);
    lemma_trim_graphic(line);
    lemma_trim_graphic(rest);
    lemma_two_tokens(ia, ib);
}

proof fn lemma_apply_start(st: ParseState, charge: i64)
    ensures
        apply_line(st, kw_start() + int_text(charge as int)) == Some(ParseState { start_charge: charge, ..st }),
{
    lemma_keywords();
    let it = int_text(charge as int);
    let line = kw_start() + it;
    lemma_int_text(charge as int);
    lemma_parse_int_text(charge as int);
    lemma_keyword_line(kw_start(), it);
    assert(line[0] == 0x73);
    assert(line.last() == it.last());
    lemma_trim_graphic(line);
    lemma_not_prefix(line, kw_comment());
    lemma_numeric_trim(it);
}

proof fn lemma_apply_place(st: ParseState, place: Option<Pos>)
    ensures
        apply_line(st, place_body(place)) == Some(
            match place {
                None => st,
                Some(p) => ParseState { place: Some(p), ..st },
            },
        ),
{
    lemma_keywords();
    let line = place_body(place);
    match place {
        None => {
            lemma_keyword_line(kw_place(), kw_none());
            assert(line[0] == 0x70);
            assert(line.last() == 0x65);
            lemma_trim_graphic(line);
            lemma_trim_graphic(kw_none());
        },
        Some(p) => {
            lemma_pair_line(kw_place(), p.x as int, p.y as int);
            assert(p == Pos { x: p.x as int as i32, y: p.y as int as i32 });
            if trim(int_text(p.x as int) + sp() + int_text(p.y as int)) == kw_none() {
                assert(false);
            }
        },
    }
    lemma_not_prefix(line, kw_comment());
    lemma_not_prefix(line, kw_start());
}

proof fn lemma_apply_origin(st: ParseState, x: i32, y: i32)
    ensures
        apply_line(st, kw_origin() + int_text(x as int) + sp() + int_text(y as int)) == Some(
            ParseState { origin: (x, y), ..st },
        ),
{
    lemma_keywords();
    let line = kw_origin() + int_text(x as int) + sp() + int_text(y as int);
    lemma_pair_line(kw_origin(), x as int, y as int);
    lemma_not_prefix(line, kw_comment());
    lemma_not_prefix(line, kw_start());
    lemma_not_prefix(line, kw_place());
}

proof fn lemma_apply_grid(st: ParseState, w: int, h: int)
    requires
        i32::MIN <= w <= i32::MAX,
        i32::MIN <= h <= i32::MAX,
    ensures
        apply_line(st, kw_grid() + int_text(w) + sp() + int_text(h)) == Some(
            ParseState { dims: Some((w as i32, h as i32)), ..st },
        ),
{
    lemma_keywords();
    let line = kw_grid() + int_text(w) + sp() + int_text(h);
    lemma_pair_line(kw_grid(), w, h);
    lemma_not_prefix(line, kw_comment());
    lemma_not_prefix(line, kw_start());
    lemma_not_prefix(line, kw_place());
    lemma_not_prefix(line, kw_origin());
}

/// What reading the header leaves behind.
pub open spec fn header_state(place: Option<Pos>, charge: i64, mn: Pos, mx: Pos) -> ParseState {
    ParseState {
        start_charge: charge,
        place,
        origin: (mn.x, mn.y),
        dims: Some(((mx.x - mn.x + 1) as i32, (mx.y - mn.y + 1) as i32)),
        rows: Seq::empty(),
    }
}

proof fn lemma_read_header(ls: Seq<Seq<u8>>, place: Option<Pos>, charge: i64, mn: Pos, mx: Pos)
    requires
        ls.len() >= 5,
        ls.take(5) == header_lines(place, charge, mn, mx),
        0 <= mn.x <= mx.x < GRID_W,
        0 <= mn.y <= mx.y < GRID_H,
    ensures
        read_lines(ls.take(5)) == Some(header_state(place, charge, mn, mx)),
{
    lemma_keywords();
    let hl = header_lines(place, charge, mn, mx);
    assert(ls.take(0) =~= Seq::<Seq<u8>>::empty());
    let st0 = initial_state();
    assert forall|i: int| 0 <= i < 5 implies ls[i] == #[trigger] hl[i] by {
        assert(ls.take(5)[i] == ls[i]);
    }
    lemma_read_step(ls, 0);
    assert(has_prefix(kw_header(), kw_comment())) by {
        assert(kw_header().subrange(0, 2) =~= kw_comment());
    }
    assert(read_lines(ls.take(1)) == Some(st0));
    lemma_read_step(ls, 1);
    lemma_apply_start(st0, charge);
    let st1 = ParseState { start_charge: charge, ..st0 };
    lemma_read_step(ls, 2);
    lemma_apply_place(st1, place);
    let st2 = ParseState { place, ..st1 };
    assert(read_lines(ls.take(3)) == Some(st2));
    lemma_read_step(ls, 3);
    lemma_apply_origin(st2, mn.x, mn.y);
    let st3 = ParseState { origin: (mn.x, mn.y), ..st2 };
    lemma_read_step(ls, 4);
    lemma_apply_grid(st3, mx.x - mn.x + 1, mx.y - mn.y + 1);
    assert(ParseState { dims: Some(((mx.x - mn.x + 1) as i32, (mx.y - mn.y + 1) as i32)), ..st3 } =~= header_state(
        place,
        charge,
        mn,
        mx,
    ));
}

proof fn lemma_printable_cat(a: Seq<u8>, b: Seq<u8>)
    requires
        printable(a),
        printable(b),
    ensures
        printable(a + b),
{
    assert forall|i: int| 0 <= i < (a + b).len() implies 0x20 <= #[trigger] (a + b)[i] <= 0x7E by {
        if i >= a.len() {
            assert((a + b)[i] == b[i - a.len()]);
        }
    }
}

proof fn lemma_pair_printable(kw: Seq<u8>, a: int, b: int)
    requires
        printable(kw),
    ensures
        printable(kw + int_text(a) + sp() + int_text(b)),
{
    lemma_keywords();
    lemma_int_text(a);
    lemma_int_text(b);
    lemma_printable_cat(kw, int_text(a));
    lemma_printable_cat(kw + int_text(a), sp());
    lemma_printable_cat(kw + int_text(a) + sp(), int_text(b));
}

proof fn lemma_header_printable(place: Option<Pos>, charge: i64, mn: Pos, mx: Pos)
    ensures
        forall|i: int|
            0 <= i < header_lines(place, charge, mn, mx).len() ==> printable(
                #[trigger] header_lines(place, charge, mn, mx)[i],
            ),
{
    lemma_keywords();
    let hl = header_lines(place, charge, mn, mx);
    lemma_int_text(charge as int);
    lemma_printable_cat(kw_start(), int_text(charge as int));
    match place {
        Some(p) => lemma_pair_printable(kw_place(), p.x as int, p.y as int),
        None => lemma_printable_cat(kw_place(), kw_none()),
    }
    lemma_pair_printable(kw_origin(), mn.x as int, mn.y as int);
    lemma_pair_printable(kw_grid(), mx.x - mn.x + 1, mx.y - mn.y + 1);
    assert(printable(hl[0]) && printable(hl[1]) && printable(hl[2]) && printable(hl[3]) && printable(hl[4]));
}

proof fn lemma_rows_ok(g: Grid, x0: int, x1: int, ytop: int, n: nat)
    requires
        x0 <= x1,
    ensures
        forall|i: int| 0 <= i < n ==> row_line_ok(#[trigger] row_lines(g, x0, x1, ytop, n)[i]),
{
    assert forall|i: int| 0 <= i < n implies row_line_ok(#[trigger] row_lines(g, x0, x1, ytop, n)[i]) by {
        let r = row_lines(g, x0, x1, ytop, n)[i];
        assert forall|j: int| 0 <= j < r.len() implies (#[trigger] r[j] == 0x2E || r[j] == 0x23) by {
            match cell_or_empty(g, x0 + j, ytop - i) {
                Cell::Empty => {},
                Cell::Solid => {},
            }
        }
    }
}

proof fn lemma_bounds(g: Grid)
    requires
        g.wf(),
    ensures
        0 <= bounds_of(g).0.x <= bounds_of(g).1.x < GRID_W,
        0 <= bounds_of(g).0.y <= bounds_of(g).1.y < GRID_H,
        g.has_solid() ==> g.is_bbox(bounds_of(g).0, bounds_of(g).1),
{
    if g.has_solid() {
        crate::grid::lemma_bbox_exists(g);
        lemma_bbox_on_board(g, bounds_of(g).0, bounds_of(g).1);
    }
}

/// The text rows of a board, top first, over its bounding box.
pub open spec fn board_rows(g: Grid) -> Seq<Seq<u8>> {
    let (mn, mx) = bounds_of(g);
    row_lines(g, mn.x as int, mx.x as int, mx.y as int, (mx.y - mn.y + 1) as nat)
}

proof fn lemma_config_lines(g: Grid, place: Option<Pos>, charge: i64)
    requires
        g.wf(),
    ensures
        lines(config_text(g, place, charge)) == header_lines(place, charge, bounds_of(g).0, bounds_of(g).1)
            + board_rows(g),
{
    lemma_bounds(g);
    let (mn, mx) = bounds_of(g);
    let h = mx.y - mn.y + 1;
    let hl = header_lines(place, charge, mn, mx);
    let rl = board_rows(g);
    let ls = hl + rl;
    lemma_header_join(place, charge, mn, mx);
    lemma_rows_join(g, mn.x as int, mx.x as int, mx.y as int, h as nat);
    lemma_join_append(hl, rl);
    lemma_header_printable(place, charge, mn, mx);
    lemma_rows_ok(g, mn.x as int, mx.x as int, mx.y as int, h as nat);
    assert forall|i: int| 0 <= i < ls.len() implies plain_line(#[trigger] ls[i]) by {
        if i < 5 {
            assert(ls[i] == hl[i]);
            lemma_printable_plain(hl[i]);
        } else {
            assert(ls[i] == rl[i - 5]);
            assert(row_line_ok(rl[i - 5]));
            lemma_printable_plain(rl[i - 5]);
        }
    }
    lemma_lines_join(ls);
}

proof fn lemma_config_state(g: Grid, place: Option<Pos>, charge: i64)
    requires
        g.wf(),
    ensures
        parse_state(config_text(g, place, charge)) == Some(
            ParseState { rows: board_rows(g), ..header_state(place, charge, bounds_of(g).0, bounds_of(g).1) },
        ),
{
    lemma_bounds(g);
    let (mn, mx) = bounds_of(g);
    let h = mx.y - mn.y + 1;
    let hl = header_lines(place, charge, mn, mx);
    let rl = board_rows(g);
    let ls = hl + rl;
    lemma_config_lines(g, place, charge);
    lemma_rows_ok(g, mn.x as int, mx.x as int, mx.y as int, h as nat);
    assert(ls.take(5) =~= hl);
    lemma_read_header(ls, place, charge, mn, mx);
    let st0 = header_state(place, charge, mn, mx);
    assert forall|j: int| 0 <= j < rl.len() implies ls[5 + j] == #[trigger] rl[j] by {
    }
    lemma_read_rows(ls, st0, rl, rl.len() as int);
    assert(ls.take(5 + rl.len() as int) =~= ls);
    assert(rl.take(rl.len() as int) =~= rl);
}

/// The board, start and charge that [`crate::config::serialize`] writes are
/// the ones [`crate::config::parse`] reads back: the text parses, the placed
/// start and the starting charge come back unchanged, and every cell of the
/// board reads as it was.
#[verifier::spinoff_prover]
#[verifier::rlimit(30)]
pub proof fn config_round_trips(g: Grid, place: Option<Pos>, charge: i64)
    requires
        g.wf(),
    ensures
        parse_state(config_text(g, place, charge)) matches Some(st) && st.place == place && st.start_charge
            == charge && forall|k: int| 0 <= k < GRID_CELLS ==> parsed_cell(st, col(k), row(k)) == #[trigger] g.cells@[k],
{
    lemma_bounds(g);
    lemma_config_state(g, place, charge);
    let (mn, mx) = bounds_of(g);
    let w = mx.x - mn.x + 1;
    let h = mx.y - mn.y + 1;
    let rl = board_rows(g);
    lemma_rows_ok(g, mn.x as int, mx.x as int, mx.y as int, h as nat);
    let st = ParseState { rows: rl, ..header_state(place, charge, mn, mx) };
    assert forall|k: int| 0 <= k < GRID_CELLS implies parsed_cell(st, col(k), row(k)) == #[trigger] g.cells@[k] by {
        lemma_idx_roundtrip(k);
        let x = col(k);
        let y = row(k);
        let r = mx.y - y;
        let ci = x - mn.x;
        if 0 <= r < h && 0 <= ci < w {
            let line = rl[r];
            assert(line == row_text(g, mn.x as int, mx.x as int, y));
            assert(row_line_ok(line));
            lemma_leads_ascii(line);
            assert(line[ci] == cell_byte(cell_or_empty(g, x, y)));
            assert(cell_or_empty(g, x, y) == g.cells@[k]);
        } else if g.cells@[k] == Cell::Solid {
            assert(g.is_bbox(mn, mx));
        }
    }
}

} // verus!
