//! Byte-level text helpers for the config format: lines, whitespace, tokens
//! and decimal integers, with the meanings of `str::lines`, `char::is_whitespace`
//! (over UTF-8), `str::split_whitespace` and `i32::from_str`.
use vstd::prelude::*;

verus! {

/// Length of the UTF-8 encoded whitespace character starting at byte `i` of
/// `s`, or `0` if none starts there. Whitespace is Unicode `White_Space`:
/// U+0009..U+000D, U+0020, U+0085, U+00A0, U+1680, U+2000..U+200A, U+2028,
/// U+2029, U+202F, U+205F and U+3000.
pub open spec fn ws_len(s: Seq<u8>, i: int) -> int {
    if 0 <= i < s.len() {
        let b = s[i];
        if b == 0x20 || (0x09 <= b <= 0x0D) {
            1
        } else if b == 0xC2 && i + 1 < s.len() && (s[i + 1] == 0x85 || s[i + 1] == 0xA0) {
            2
        } else if i + 2 < s.len() && ws3(b, s[i + 1], s[i + 2]) {
            3
        } else {
            0
        }
    } else {
        0
    }
}

/// The three-byte encodings of whitespace.
pub open spec fn ws3(a: u8, b: u8, c: u8) -> bool {
    ||| a == 0xE1 && b == 0x9A && c == 0x80
    ||| a == 0xE2 && b == 0x80 && ((0x80 <= c <= 0x8A) || c == 0xA8 || c == 0xA9 || c == 0xAF)
    ||| a == 0xE2 && b == 0x81 && c == 0x9F
    ||| a == 0xE3 && b == 0x80 && c == 0x80
}

/// Length of the whitespace character that ends `s`, or `0`.
pub open spec fn ws_end_len(s: Seq<u8>) -> int {
    let n = s.len() as int;
    if n >= 1 && (s[n - 1] == 0x20 || (0x09 <= s[n - 1] <= 0x0D)) {
        1
    } else if n >= 2 && s[n - 2] == 0xC2 && (s[n - 1] == 0x85 || s[n - 1] == 0xA0) {
        2
    } else if n >= 3 && ws3(s[n - 3], s[n - 2], s[n - 1]) {
        3
    } else {
        0
    }
}

/// `s` without its leading whitespace.
pub open spec fn trim_start(s: Seq<u8>) -> Seq<u8>
    decreases s.len(),
{
    if ws_len(s, 0) > 0 {
        trim_start(s.subrange(ws_len(s, 0), s.len() as int))
    } else {
        s
    }
}

/// `s` without its trailing whitespace.
pub open spec fn trim_end(s: Seq<u8>) -> Seq<u8>
    decreases s.len(),
{
    if ws_end_len(s) > 0 {
        trim_end(s.subrange(0, s.len() - ws_end_len(s)))
    } else {
        s
    }
}

/// `s` without leading and trailing whitespace.
pub open spec fn trim(s: Seq<u8>) -> Seq<u8> {
    trim_end(trim_start(s))
}

/// Index of the first byte at or after `i` that starts whitespace, or the
/// length of `s`.
pub open spec fn token_end(s: Seq<u8>, i: int) -> int
    decreases s.len() - i,
{
    if i >= s.len() {
        s.len() as int
    } else if ws_len(s, i) > 0 {
        i
    } else {
        token_end(s, i + 1)
    }
}

/// The first whitespace-separated token of `s` and what follows it, or `None`
/// if `s` is all whitespace.
pub open spec fn next_token(s: Seq<u8>) -> Option<(Seq<u8>, Seq<u8>)> {
    let t = trim_start(s);
    if t.len() == 0 {
        None
    } else {
        let e = token_end(t, 0);
        Some((t.subrange(0, e), t.subrange(e, t.len() as int)))
    }
}

/// The first two whitespace-separated tokens of `s`.
pub open spec fn two_tokens(s: Seq<u8>) -> Option<(Seq<u8>, Seq<u8>)> {
    match next_token(s) {
        None => None,
        Some((a, rest)) => match next_token(rest) {
            None => None,
            Some((b, _)) => Some((a, b)),
        },
    }
}

/// Index of the first `'\n'` at or after `i`, or `-1`.
pub open spec fn find_nl(s: Seq<u8>, i: int) -> int
    decreases s.len() - i,
{
    if i < 0 || i >= s.len() {
        -1
    } else if s[i] == 0x0A {
        i
    } else {
        find_nl(s, i + 1)
    }
}

/// `s` without one trailing `'\r'`.
pub open spec fn strip_cr(s: Seq<u8>) -> Seq<u8> {
    if s.len() > 0 && s.last() == 0x0D {
        s.drop_last()
    } else {
        s
    }
}

pub proof fn lemma_find_nl(s: Seq<u8>, i: int)
    requires
        0 <= i,
    ensures
        find_nl(s, i) == -1 || (i <= find_nl(s, i) < s.len() && s[find_nl(s, i)] == 0x0A),
        find_nl(s, i) == -1 ==> forall|k: int| i <= k < s.len() ==> s[k] != 0x0A,
        find_nl(s, i) >= 0 ==> forall|k: int| i <= k < find_nl(s, i) ==> s[k] != 0x0A,
    decreases s.len() - i,
{
    if i < s.len() && s[i] != 0x0A {
        lemma_find_nl(s, i + 1);
    }
}

/// The lines of `s` as `str::lines` gives them: split at `'\n'`, a `'\r'`
/// right before it dropped, and no empty line after a final `'\n'`.
pub open spec fn lines(s: Seq<u8>) -> Seq<Seq<u8>>
    decreases s.len(),
{
    if s.len() == 0 {
        Seq::empty()
    } else {
        let j = find_nl(s, 0);
        if j < 0 {
            seq![s]
        } else {
            proof {
                lemma_find_nl(s, 0);
            }
            seq![strip_cr(s.subrange(0, j))] + lines(s.subrange(j + 1, s.len() as int))
        }
    }
}

/// `s` starts with `p`.
pub open spec fn has_prefix(s: Seq<u8>, p: Seq<u8>) -> bool {
    p.len() <= s.len() && s.subrange(0, p.len() as int) == p
}

pub open spec fn is_digit(b: u8) -> bool {
    0x30 <= b <= 0x39
}

pub open spec fn all_digits(s: Seq<u8>) -> bool {
    forall|i: int| 0 <= i < s.len() ==> is_digit(#[trigger] s[i])
}

/// The decimal value of a run of digits.
pub open spec fn digits_value(s: Seq<u8>) -> int
    decreases s.len(),
{
    if s.len() == 0 {
        0
    } else {
        digits_value(s.drop_last()) * 10 + (s.last() - 0x30)
    }
}

/// A signed decimal integer as `from_str` reads one: an optional `+` or `-`
/// and at least one digit, nothing else.
pub open spec fn int_value(s: Seq<u8>) -> Option<int> {
    if s.len() > 0 && (s[0] == 0x2B || s[0] == 0x2D) {
        let d = s.subrange(1, s.len() as int);
        if d.len() > 0 && all_digits(d) {
            Some(
                if s[0] == 0x2D {
                    -digits_value(d)
                } else {
                    digits_value(d)
                },
            )
        } else {
            None
        }
    } else if s.len() > 0 && all_digits(s) {
        Some(digits_value(s))
    } else {
        None
    }
}

/// `i32::from_str`: the value of `s` if it is an integer that fits.
pub open spec fn parse_i32_spec(s: Seq<u8>) -> Option<i32> {
    match int_value(s) {
        Some(v) => if i32::MIN <= v <= i32::MAX {
            Some(v as i32)
        } else {
            None
        },
        None => None,
    }
}

/// A whole number of charge: an integer, optionally followed by a point and
/// zeros (`4`, `-2`, `4.`, `4.00`), that fits an `i64`. The charge is counted
/// in whole units, so anything else — a fraction such as `2.5` or `.5`, an
/// exponent such as `1e3`, `inf` or `NaN` — is refused.
pub open spec fn parse_charge_spec(s: Seq<u8>) -> Option<i64> {
    let p = point_at(s, 0);
    let head = if p < 0 {
        s
    } else {
        s.subrange(0, p)
    };
    let tail_ok = p < 0 || forall|i: int| p < i < s.len() ==> s[i] == 0x30;
    match int_value(head) {
        Some(v) => if tail_ok && i64::MIN <= v <= i64::MAX {
            Some(v as i64)
        } else {
            None
        },
        None => None,
    }
}

/// Index of the first `'.'` at or after `i`, or `-1`.
pub open spec fn point_at(s: Seq<u8>, i: int) -> int
    decreases s.len() - i,
{
    if i < 0 || i >= s.len() {
        -1
    } else if s[i] == 0x2E {
        i
    } else {
        point_at(s, i + 1)
    }
}

/// Decimal digits of a natural number, most significant first.
pub open spec fn nat_digits(n: nat) -> Seq<u8>
    decreases n,
{
    if n < 10 {
        seq![(n + 0x30) as u8]
    } else {
        nat_digits(n / 10).push((n % 10 + 0x30) as u8)
    }
}

/// Decimal text of an integer, with a `-` for negatives (as `Display` prints
/// it).
pub open spec fn int_text(v: int) -> Seq<u8> {
    if v < 0 {
        seq![0x2Du8] + nat_digits((-v) as nat)
    } else {
        nat_digits(v as nat)
    }
}


pub fn ws_len_exec(s: &[u8], i: usize) -> (r: usize)
    ensures
        r == ws_len(s@, i as int),
        r <= 3,
        r > 0 ==> i + r <= s@.len(),
{
    let n = s.len();
    if i >= n {
        return 0;
    }
    let b = s[i];
    if b == 0x20 || (0x09 <= b && b <= 0x0D) {
        1
    } else if b == 0xC2 && n - i > 1 && (s[i + 1] == 0x85 || s[i + 1] == 0xA0) {
        2
    } else if n - i > 2 && is_ws3(b, s[i + 1], s[i + 2]) {
        3
    } else {
        0
    }
}

fn is_ws3(a: u8, b: u8, c: u8) -> (r: bool)
    ensures
        r == ws3(a, b, c),
{
    (a == 0xE1 && b == 0x9A && c == 0x80) || (a == 0xE2 && b == 0x80 && ((0x80 <= c && c <= 0x8A) || c
        == 0xA8 || c == 0xA9 || c == 0xAF)) || (a == 0xE2 && b == 0x81 && c == 0x9F) || (a == 0xE3 && b
        == 0x80 && c == 0x80)
}

/// [`ws_end_len`] of `s[lo..hi]`.
fn ws_end_len_exec(s: &[u8], lo: usize, hi: usize) -> (r: usize)
    requires
        lo <= hi <= s@.len(),
    ensures
        r == ws_end_len(s@.subrange(lo as int, hi as int)),
        r <= hi - lo,
{
    let ghost t = s@.subrange(lo as int, hi as int);
    let n = hi - lo;
    if n >= 1 && (s[hi - 1] == 0x20 || (0x09 <= s[hi - 1] && s[hi - 1] <= 0x0D)) {
        assert(t[n - 1] == s@[hi - 1]);
        1
    } else if n >= 2 && s[hi - 2] == 0xC2 && (s[hi - 1] == 0x85 || s[hi - 1] == 0xA0) {
        assert(t[n - 1] == s@[hi - 1] && t[n - 2] == s@[hi - 2]);
        2
    } else if n >= 3 && is_ws3(s[hi - 3], s[hi - 2], s[hi - 1]) {
        assert(t[n - 1] == s@[hi - 1] && t[n - 2] == s@[hi - 2] && t[n - 3] == s@[hi - 3]);
        3
    } else {
        proof {
            if n >= 1 {
                assert(t[n - 1] == s@[hi - 1]);
            }
            if n >= 2 {
                assert(t[n - 2] == s@[hi - 2]);
            }
            if n >= 3 {
                assert(t[n - 3] == s@[hi - 3]);
            }
        }
        0
    }
}

pub proof fn lemma_ws_len_shift(s: Seq<u8>, b: int, i: int)
    requires
        0 <= b <= s.len(),
        0 <= i,
    ensures
        ws_len(s.subrange(b, s.len() as int), i) == ws_len(s, b + i),
{
}

/// Where `s[from..]` starts once its leading whitespace is skipped.
pub fn trim_start_index(s: &[u8], from: usize) -> (b: usize)
    requires
        from <= s@.len(),
    ensures
        from <= b <= s@.len(),
        trim_start(s@.subrange(from as int, s@.len() as int)) == s@.subrange(b as int, s@.len() as int),
        ws_len(s@, b as int) == 0,
{
    let n = s.len();
    let mut b = from;
    let mut w = ws_len_exec(s, b);
    while w > 0
        invariant
            n == s@.len(),
            from <= b <= s@.len(),
            w == ws_len(s@, b as int),
            w > 0 ==> b + w <= s@.len(),
            trim_start(s@.subrange(from as int, s@.len() as int)) == trim_start(
                s@.subrange(b as int, s@.len() as int),
            ),
        decreases s@.len() - b,
    {
        proof {
            let t = s@.subrange(b as int, s@.len() as int);
            lemma_ws_len_shift(s@, b as int, 0);
            assert(t.subrange(w as int, t.len() as int) =~= s@.subrange(b + w, s@.len() as int));
        }
        b = b + w;
        w = ws_len_exec(s, b);
    }
    proof {
        lemma_ws_len_shift(s@, b as int, 0);
    }
    b
}

/// Where `s[lo..hi]` ends once its trailing whitespace is dropped.
fn trim_end_index(s: &[u8], lo: usize, hi: usize) -> (e: usize)
    requires
        lo <= hi <= s@.len(),
    ensures
        lo <= e <= hi,
        trim_end(s@.subrange(lo as int, hi as int)) == s@.subrange(lo as int, e as int),
{
    let mut e = hi;
    while ws_end_len_exec(s, lo, e) > 0
        invariant
            lo <= e <= hi,
            hi <= s@.len(),
            trim_end(s@.subrange(lo as int, hi as int)) == trim_end(s@.subrange(lo as int, e as int)),
        decreases e - lo,
    {
        let w = ws_end_len_exec(s, lo, e);
        proof {
            let t = s@.subrange(lo as int, e as int);
            assert(t.subrange(0, t.len() - w) =~= s@.subrange(lo as int, e - w));
        }
        e = e - w;
    }
    e
}

/// The bounds of `s[from..]` with surrounding whitespace dropped.
pub fn trim_range(s: &[u8], from: usize) -> (r: (usize, usize))
    requires
        from <= s@.len(),
    ensures
        from <= r.0 <= r.1 <= s@.len(),
        trim(s@.subrange(from as int, s@.len() as int)) == s@.subrange(r.0 as int, r.1 as int),
{
    let b = trim_start_index(s, from);
    let e = trim_end_index(s, b, s.len());
    (b, e)
}

proof fn lemma_token_end_shift(s: Seq<u8>, b: int, i: int)
    requires
        0 <= b <= s.len(),
        0 <= i,
    ensures
        token_end(s.subrange(b, s.len() as int), i) == token_end(s, b + i) - b,
    decreases s.len() - (b + i),
{
    lemma_ws_len_shift(s, b, i);
    if b + i < s.len() && ws_len(s, b + i) == 0 {
        lemma_token_end_shift(s, b, i + 1);
    }
}

/// The first token of `s[from..]`, as bounds into `s`.
pub fn next_token_exec(s: &[u8], from: usize) -> (r: Option<(usize, usize)>)
    requires
        from <= s@.len(),
    ensures
        match next_token(s@.subrange(from as int, s@.len() as int)) {
            None => r is None,
            Some((tok, rest)) => r matches Some((a, e)) && a <= e <= s@.len() && tok == s@.subrange(
                a as int,
                e as int,
            ) && rest == s@.subrange(e as int, s@.len() as int),
        },
{
    let b = trim_start_index(s, from);
    if b == s.len() {
        return None;
    }
    let mut e = b;
    while e < s.len() && ws_len_exec(s, e) == 0
        invariant
            b <= e <= s@.len(),
            token_end(s@, b as int) == token_end(s@, e as int),
        decreases s@.len() - e,
    {
        e = e + 1;
    }
    proof {
        let t = s@.subrange(b as int, s@.len() as int);
        lemma_token_end_shift(s@, b as int, 0);
        assert(token_end(t, 0) == e - b);
        assert(t.subrange(0, e - b) =~= s@.subrange(b as int, e as int));
        assert(t.subrange(e - b, t.len() as int) =~= s@.subrange(e as int, s@.len() as int));
    }
    Some((b, e))
}

/// The first two tokens of `s[from..]`, as bounds into `s`.
pub fn two_tokens_exec(s: &[u8], from: usize) -> (r: Option<((usize, usize), (usize, usize))>)
    requires
        from <= s@.len(),
    ensures
        match two_tokens(s@.subrange(from as int, s@.len() as int)) {
            None => r is None,
            Some((x, y)) => r matches Some(((a, b), (c, d))) && a <= b <= s@.len() && c <= d <= s@.len()
                && x == s@.subrange(a as int, b as int) && y == s@.subrange(c as int, d as int),
        },
{
    match next_token_exec(s, from) {
        None => None,
        Some((a, b)) => match next_token_exec(s, b) {
            None => None,
            Some((c, d)) => Some(((a, b), (c, d))),
        },
    }
}

pub proof fn lemma_find_nl_shift(s: Seq<u8>, p: int, i: int)
    requires
        0 <= p <= s.len(),
        0 <= i,
    ensures
        find_nl(s.subrange(p, s.len() as int), i) == if find_nl(s, p + i) < 0 {
            -1
        } else {
            find_nl(s, p + i) - p
        },
    decreases s.len() - (p + i),
{
    if p + i < s.len() && s[p + i] != 0x0A {
        lemma_find_nl_shift(s, p, i + 1);
    }
}

/// The bounds of every line of `s`, as `str::lines` splits it.
pub fn line_ranges(s: &[u8]) -> (r: Vec<(usize, usize)>)
    ensures
        r@.len() == lines(s@).len(),
        forall|i: int|
            #![trigger r@[i]]
            0 <= i < r@.len() ==> r@[i].0 <= r@[i].1 <= s@.len() && lines(s@)[i] == s@.subrange(
                r@[i].0 as int,
                r@[i].1 as int,
            ),
{
    let mut r: Vec<(usize, usize)> = Vec::new();
    let mut p: usize = 0;
    let n = s.len();
    proof {
        assert(s@.subrange(0, n as int) =~= s@);
        assert(Seq::new(r@.len(), |i: int| s@.subrange(r@[i].0 as int, r@[i].1 as int)) =~= Seq::<Seq<u8>>::empty());
        assert(lines(s@) =~= Seq::<Seq<u8>>::empty() + lines(s@));
    }
    while p < n
        invariant
            p <= n,
            n == s@.len(),
            forall|i: int| 0 <= i < r@.len() ==> (#[trigger] r@[i]).0 <= r@[i].1 <= s@.len(),
            lines(s@) == Seq::new(r@.len(), |i: int| s@.subrange(r@[i].0 as int, r@[i].1 as int)) + lines(
                s@.subrange(p as int, n as int),
            ),
        decreases n - p,
    {
        let ghost before = Seq::new(r@.len(), |i: int| s@.subrange(r@[i].0 as int, r@[i].1 as int));
        let ghost t = s@.subrange(p as int, n as int);
        let mut j = p;
        while j < n && s[j] != 0x0A
            invariant
                p <= j <= n,
                n == s@.len(),
                find_nl(s@, p as int) == find_nl(s@, j as int),
            decreases n - j,
        {
            j = j + 1;
        }
        proof {
            lemma_find_nl_shift(s@, p as int, 0);
        }
        if j == n {
            r.push((p, n));
            proof {
                assert(find_nl(t, 0) == -1);
                assert(lines(t) == seq![t]);
                let after = Seq::new(r@.len(), |i: int| s@.subrange(r@[i].0 as int, r@[i].1 as int));
                assert(after =~= before.push(t));
                assert(s@.subrange(n as int, n as int) =~= Seq::<u8>::empty());
                assert(lines(s@) =~= after + lines(s@.subrange(n as int, n as int)));
            }
            p = n;
        } else {
            let e = if j > p && s[j - 1] == 0x0D {
                j - 1
            } else {
                j
            };
            r.push((p, e));
            proof {
                assert(find_nl(t, 0) == j - p);
                let line = t.subrange(0, j - p);
                assert(line =~= s@.subrange(p as int, j as int));
                assert(strip_cr(line) =~= s@.subrange(p as int, e as int));
                assert(t.subrange(j - p + 1, t.len() as int) =~= s@.subrange(j + 1, n as int));
                assert(lines(t) == seq![strip_cr(line)] + lines(s@.subrange(j + 1, n as int)));
                let after = Seq::new(r@.len(), |i: int| s@.subrange(r@[i].0 as int, r@[i].1 as int));
                assert(after =~= before.push(s@.subrange(p as int, e as int)));
                assert(lines(s@) =~= after + lines(s@.subrange(j + 1, n as int)));
            }
            p = j + 1;
        }
    }
    proof {
        assert(s@.subrange(n as int, n as int) =~= Seq::<u8>::empty());
        assert(lines(s@) =~= Seq::new(r@.len(), |i: int| s@.subrange(r@[i].0 as int, r@[i].1 as int)));
    }
    r
}


pub proof fn lemma_digits_value_nonneg(d: Seq<u8>)
    requires
        all_digits(d),
    ensures
        digits_value(d) >= 0,
    decreases d.len(),
{
    if d.len() > 0 {
        lemma_digits_value_nonneg(d.drop_last());
    }
}

proof fn lemma_digits_value_prefix(d: Seq<u8>, k: int)
    requires
        all_digits(d),
        0 <= k <= d.len(),
    ensures
        digits_value(d) >= digits_value(d.take(k)),
    decreases d.len(),
{
    if k < d.len() {
        assert(d.drop_last().take(k) =~= d.take(k));
        lemma_digits_value_prefix(d.drop_last(), k);
        lemma_digits_value_nonneg(d.drop_last());
        let x = digits_value(d.drop_last());
        assert(x * 10 + (d.last() - 0x30) >= x) by (nonlinear_arith)
            requires
                x >= 0,
                0 <= d.last() - 0x30,
        ;
    } else {
        assert(d.take(k) =~= d);
    }
}

/// The value of the digits `s[a..b]` if they are all digits, at least one,
/// and the value is at most `cap`.
fn digits_capped(s: &[u8], a: usize, b: usize, cap: u64) -> (r: Option<u64>)
    requires
        a <= b <= s@.len(),
    ensures
        ({
            let d = s@.subrange(a as int, b as int);
            r == if d.len() > 0 && all_digits(d) && digits_value(d) <= cap {
                Some(digits_value(d) as u64)
            } else {
                None::<u64>
            }
        }),
{
    let ghost d = s@.subrange(a as int, b as int);
    if a == b {
        return None;
    }
    let mut v: u64 = 0;
    let mut i = a;
    while i < b
        invariant
            a <= i <= b,
            b <= s@.len(),
            d == s@.subrange(a as int, b as int),
            all_digits(d.take(i - a)),
            v == digits_value(d.take(i - a)),
            v <= cap,
        decreases b - i,
    {
        let c = s[i];
        if c < 0x30 || c > 0x39 {
            assert(!is_digit(d[i - a]));
            return None;
        }
        assert(d.take(i - a + 1).drop_last() =~= d.take(i - a));
        let nv: u128 = v as u128 * 10 + (c - 0x30) as u128;
        if nv > cap as u128 {
            proof {
                assert(digits_value(d.take(i - a + 1)) == v * 10 + (c - 0x30));
                if all_digits(d) {
                    lemma_digits_value_prefix(d, i - a + 1);
                }
            }
            return None;
        }
        v = nv as u64;
        i = i + 1;
    }
    assert(d.take(b - a) =~= d);
    Some(v)
}

/// `i32::from_str` on `s[a..b]`.
pub fn parse_i32(s: &[u8], a: usize, b: usize) -> (r: Option<i32>)
    requires
        a <= b <= s@.len(),
    ensures
        r == parse_i32_spec(s@.subrange(a as int, b as int)),
{
    let ghost d = s@.subrange(a as int, b as int);
    if a < b && (s[a] == 0x2B || s[a] == 0x2D) {
        let neg = s[a] == 0x2D;
        proof {
            assert(d[0] == s@[a as int]);
            assert(d.subrange(1, d.len() as int) =~= s@.subrange(a + 1, b as int));
        }
        let cap: u64 = if neg {
            2147483648
        } else {
            2147483647
        };
        match digits_capped(s, a + 1, b, cap) {
            None => {
                proof {
                    let t = s@.subrange(a + 1, b as int);
                    if t.len() > 0 && all_digits(t) {
                        lemma_digits_value_nonneg(t);
                    }
                }
                None
            },
            Some(v) => {
                proof {
                    lemma_digits_value_nonneg(s@.subrange(a + 1, b as int));
                }
                if neg {
                    Some((-(v as i64)) as i32)
                } else {
                    Some(v as i32)
                }
            },
        }
    } else {
        proof {
            if a < b {
                assert(d[0] == s@[a as int]);
            }
        }
        match digits_capped(s, a, b, 2147483647) {
            None => {
                proof {
                    if d.len() > 0 && all_digits(d) {
                        lemma_digits_value_nonneg(d);
                    }
                }
                None
            },
            Some(v) => {
                proof {
                    lemma_digits_value_nonneg(d);
                }
                Some(v as i32)
            },
        }
    }
}

/// The whole number of charge in `s[a..b]`, see [`parse_charge_spec`].
pub fn parse_charge(s: &[u8], a: usize, b: usize) -> (r: Option<i64>)
    requires
        a <= b <= s@.len(),
    ensures
        r == parse_charge_spec(s@.subrange(a as int, b as int)),
{
    let ghost d = s@.subrange(a as int, b as int);
    let mut j = a;
    while j < b && s[j] != 0x2E
        invariant
            a <= j <= b,
            b <= s@.len(),
            d == s@.subrange(a as int, b as int),
            point_at(d, 0) == point_at(d, j - a),
        decreases b - j,
    {
        j = j + 1;
    }
    let head_end = j;
    if j < b {
        assert(point_at(d, 0) == j - a);
        let mut k = j + 1;
        while k < b
            invariant
                a <= j < k <= b,
                b <= s@.len(),
                d == s@.subrange(a as int, b as int),
                point_at(d, 0) == j - a,
                forall|i: int| j - a < i < k - a ==> d[i] == 0x30,
            decreases b - k,
        {
            if s[k] != 0x30 {
                assert(d[k - a] != 0x30);
                return None;
            }
            k = k + 1;
        }
    } else {
        assert(point_at(d, 0) == -1);
        assert(d.subrange(0, d.len() as int) =~= d);
    }
    proof {
        if j < b {
            assert(d.subrange(0, j - a) =~= s@.subrange(a as int, j as int));
        } else {
            assert(d =~= s@.subrange(a as int, j as int));
        }
    }
    let ghost h = s@.subrange(a as int, head_end as int);
    if a < head_end && (s[a] == 0x2B || s[a] == 0x2D) {
        let neg = s[a] == 0x2D;
        proof {
            assert(h[0] == s@[a as int]);
            assert(h.subrange(1, h.len() as int) =~= s@.subrange(a + 1, head_end as int));
        }
        let cap: u64 = if neg {
            9223372036854775808
        } else {
            9223372036854775807
        };
        match digits_capped(s, a + 1, head_end, cap) {
            None => {
                proof {
                    let t = s@.subrange(a + 1, head_end as int);
                    if t.len() > 0 && all_digits(t) {
                        lemma_digits_value_nonneg(t);
                    }
                }
                None
            },
            Some(v) => {
                proof {
                    lemma_digits_value_nonneg(s@.subrange(a + 1, head_end as int));
                }
                if neg {
                    Some((-(v as i128)) as i64)
                } else {
                    Some(v as i64)
                }
            },
        }
    } else {
        proof {
            if a < head_end {
                assert(h[0] == s@[a as int]);
            }
        }
        match digits_capped(s, a, head_end, 9223372036854775807) {
            None => {
                proof {
                    if h.len() > 0 && all_digits(h) {
                        lemma_digits_value_nonneg(h);
                    }
                }
                None
            },
            Some(v) => {
                proof {
                    lemma_digits_value_nonneg(h);
                }
                Some(v as i64)
            },
        }
    }
}

/// The decimal digits of `m`.
pub fn nat_text(m: u64) -> (r: Vec<u8>)
    ensures
        r@ == nat_digits(m as nat),
{
    let mut q = m;
    let mut tail: Vec<u8> = Vec::new();
    while q >= 10
        invariant
            nat_digits(m as nat) == nat_digits(q as nat) + tail@,
        decreases q,
    {
        let dgt = ((q % 10) as u8) + 0x30;
        let ghost before = tail@;
        proof {
            assert(nat_digits(q as nat) == nat_digits((q / 10) as nat).push(dgt));
            assert(nat_digits((q / 10) as nat).push(dgt) + before =~= nat_digits((q / 10) as nat) + (seq![dgt]
                + before));
        }
        tail.insert(0, dgt);
        assert(tail@ =~= seq![dgt] + before);
        q = q / 10;
    }
    let mut r: Vec<u8> = Vec::new();
    r.push((q as u8) + 0x30);
    assert(r@ =~= nat_digits(q as nat) + tail@.take(0));
    let mut i: usize = 0;
    while i < tail.len()
        invariant
            i <= tail@.len(),
            r@ == nat_digits(q as nat) + tail@.take(i as int),
        decreases tail@.len() - i,
    {
        r.push(tail[i]);
        assert(tail@.take(i + 1) =~= tail@.take(i as int).push(tail@[i as int]));
        i = i + 1;
    }
    assert(tail@.take(tail@.len() as int) =~= tail@);
    r
}

/// Append the decimal text of `v` to `out`.
pub fn push_int(out: &mut Vec<u8>, v: i64)
    ensures
        final(out)@ == old(out)@ + int_text(v as int),
{
    if v < 0 {
        out.push(0x2D);
        let m = (-(v as i128)) as u64;
        let digits = nat_text(m);
        push_all(out, &digits);
        assert(out@ =~= old(out)@ + (seq![0x2Du8] + digits@));
    } else {
        let digits = nat_text(v as u64);
        push_all(out, &digits);
    }
}

/// Append every byte of `src` to `out`.
pub fn push_all(out: &mut Vec<u8>, src: &[u8])
    ensures
        final(out)@ == old(out)@ + src@,
{
    let mut i: usize = 0;
    while i < src.len()
        invariant
            i <= src@.len(),
            out@ == old(out)@ + src@.take(i as int),
        decreases src@.len() - i,
    {
        out.push(src[i]);
        assert(src@.take(i + 1) =~= src@.take(i as int).push(src@[i as int]));
        i = i + 1;
    }
    assert(src@.take(src@.len() as int) =~= src@);
}
} // verus!
