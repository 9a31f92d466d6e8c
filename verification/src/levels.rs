//! The list of level files and the player's place in it.
//!
//! Levels are text files under `levels/`. A level is a tutorial when its file
//! name says so (`00_tutorial.txt`); the tutorial is only reached from the
//! menu, so moving through the game skips it.
use vstd::prelude::*;
use vstd::string::StrSliceExecFns;
use vstd::string::StringExecFns;

verus! {

/// The file name of `path` (its last component) as `std::path::Path` reads
/// it on the target, if it has one.
pub uninterp spec fn file_name_of(path: Seq<char>) -> Option<Seq<char>>;

/// `std::path::Path::file_name`, its result turned into a `String`.
///
/// Trusted: the result is `file_name_of` of the path. The file name of a
/// valid string is itself valid, so the lossy conversion is exact.
#[verifier::external_body]
fn file_name(path: &str) -> (r: Option<String>)
    ensures
        match r {
            Some(s) => file_name_of(path@) == Some(s@),
            None => file_name_of(path@) is None,
        },
{
    match std::path::Path::new(path).file_name() {
        Some(name) => Some(name.to_string_lossy().into_owned()),
        None => None,
    }
}

/// The file name of the level at `path`, as the saved progress records it.
pub fn level_name(path: &str) -> (r: Option<String>)
    ensures
        match r {
            Some(n) => file_name_of(path@) == Some(n@),
            None => file_name_of(path@) is None,
        },
{
    file_name(path)
}

/// `"tutorial"`.
pub open spec fn tutorial_word() -> Seq<char> {
    seq!['t', 'u', 't', 'o', 'r', 'i', 'a', 'l']
}

/// `c` is the lower-case ASCII letter `w`, in either case.
pub open spec fn same_letter(c: char, w: char) -> bool {
    c == w || c as int == w as int - 32
}

/// The word `tutorial`, in any mix of cases, starts at `i` in `n`.
pub open spec fn tutorial_at(n: Seq<char>, i: int) -> bool {
    0 <= i && i + 8 <= n.len() && forall|j: int| 0 <= j < 8 ==> same_letter(#[trigger] n[i + j], tutorial_word()[j])
}

/// The name holds the word `tutorial`, whatever its case.
pub open spec fn names_tutorial(n: Seq<char>) -> bool {
    exists|i: int| tutorial_at(n, i)
}

/// A level is a tutorial if its file name says so, e.g. `00_tutorial.txt`.
pub open spec fn tutorial_path(path: Seq<char>) -> bool {
    match file_name_of(path) {
        Some(n) => names_tutorial(n),
        None => false,
    }
}

fn word_char(j: usize) -> (c: char)
    requires
        j < 8,
    ensures
        c == tutorial_word()[j as int],
{
    if j == 0 {
        't'
    } else if j == 1 {
        'u'
    } else if j == 2 {
        't'
    } else if j == 3 {
        'o'
    } else if j == 4 {
        'r'
    } else if j == 5 {
        'i'
    } else if j == 6 {
        'a'
    } else {
        'l'
    }
}

/// Does the word `tutorial`, in any case, start at character `i` of `name`?
fn word_at(name: &str, i: usize, n: usize) -> (r: bool)
    requires
        n == name@.len(),
        i + 8 <= n,
    ensures
        r == tutorial_at(name@, i as int),
{
    let mut j: usize = 0;
    while j < 8
        invariant
            n == name@.len(),
            i + 8 <= n,
            j <= 8,
            forall|t: int| 0 <= t < j ==> same_letter(#[trigger] name@[i + t], tutorial_word()[t]),
        decreases 8 - j,
    {
        let c = name.get_char(i + j);
        let w = word_char(j);
        if !(c == w || (c as u32) + 32 == (w as u32)) {
            assert(!same_letter(name@[i + j], tutorial_word()[j as int]));
            return false;
        }
        j = j + 1;
    }
    true
}

/// Does `name` hold the word `tutorial`, in any case?
pub fn is_tutorial_name(name: &str) -> (r: bool)
    ensures
        r == names_tutorial(name@),
{
    let n = name.unicode_len();
    if n < 8 {
        return false;
    }
    let mut i: usize = 0;
    while i <= n - 8
        invariant
            n == name@.len(),
            n >= 8,
            i <= n - 7,
            forall|k: int| 0 <= k < i ==> !tutorial_at(name@, k),
        decreases n - i,
    {
        let ok = word_at(name, i, n);
        if ok {
            assert(tutorial_at(name@, i as int));
            return true;
        }
        i = i + 1;
    }
    proof {
        assert forall|k: int| !tutorial_at(name@, k) by {
            if 0 <= k && k + 8 <= n {
                assert(k < i);
            }
        }
    }
    false
}

/// Is the level at `path` a tutorial?
pub fn is_tutorial(path: &str) -> (r: bool)
    ensures
        r == tutorial_path(path@),
{
    match file_name(path) {
        Some(name) => is_tutorial_name(name.as_str()),
        None => false,
    }
}

/// Is level `i` of `files` a tutorial?
pub open spec fn tut_at(files: Seq<String>, i: int) -> bool {
    tutorial_path(files[i]@)
}

/// The index `k` places after `c0` in a ring of `len`.
pub open spec fn after(c0: int, k: int, len: int) -> int {
    (c0 + k) % len
}

/// The level files found under `levels/`, and which one is loaded (`-1`
/// before any).
pub struct Levels {
    pub files: Vec<String>,
    pub current: isize,
}

impl Levels {
    /// An empty list with nothing loaded.
    pub fn new() -> (r: Levels)
        ensures
            r.files@.len() == 0,
            r.current == -1,
    {
        Levels { files: Vec::new(), current: -1 }
    }

    /// The next non-tutorial level, wrapping around past the end. The
    /// tutorial stays a menu-only experience.
    pub fn next_game(&mut self) -> (r: Option<String>)
        requires
            old(self).files@.len() <= isize::MAX,
            old(self).current < isize::MAX,
        ensures
            final(self).files@ == old(self).files@,
            ({
                let files = old(self).files@;
                let len = files.len() as int;
                let c0 = old(self).current as int;
                if len == 0 {
                    r is None && final(self).current == old(self).current
                } else {
                    match r {
                        Some(p) => exists|k: int|
                            1 <= k <= len && !tut_at(files, #[trigger] after(c0, k, len)) && (forall|j: int|
                                1 <= j < k ==> tut_at(files, #[trigger] after(c0, j, len))) && final(self).current
                                == after(c0, k, len) && p == files[after(c0, k, len)],
                        None => (forall|j: int| 1 <= j <= len ==> tut_at(files, #[trigger] after(c0, j, len)))
                            && final(self).current == after(c0, len, len),
                    }
                }
            }),
    {
        let len = self.files.len();
        if len == 0 {
            return None;
        }
        let ghost files = self.files@;
        let ghost c0 = self.current as int;
        let ghost l = len as int;
        let ilen = len as isize;
        let mut n: usize = 0;
        while n < len
            invariant
                self.files@ == files,
                files == old(self).files@,
                c0 == old(self).current,
                len == files.len(),
                l == len,
                ilen == len,
                1 <= len <= isize::MAX,
                c0 < isize::MAX,
                n <= len,
                n == 0 ==> self.current == c0,
                n > 0 ==> self.current == after(c0, n as int, l),
                forall|j: int| 1 <= j <= n ==> tut_at(files, #[trigger] after(c0, j, l)),
            decreases len - n,
        {
            let ghost prev = self.current as int;
            let next = match (self.current + 1).checked_rem_euclid(ilen) {
                Some(v) => v,
                None => 0,
            };
            proof {
                if n > 0 {
                    vstd::arithmetic::div_mod::lemma_add_mod_noop(c0 + n, 1, l);
                    vstd::arithmetic::div_mod::lemma_mod_twice(c0 + n, l);
                    if l > 1 {
                        vstd::arithmetic::div_mod::lemma_small_mod(1, l as nat);
                    }
                    vstd::arithmetic::div_mod::lemma_add_mod_noop(prev, 1, l);
                }
                vstd::arithmetic::div_mod::lemma_mod_bound(prev + 1, l);
            }
            assert(next == after(c0, n + 1, l));
            self.current = next;
            let i = next as usize;
            if !is_tutorial(self.files[i].as_str()) {
                return Some(self.files[i].clone());
            }
            n = n + 1;
        }
        None
    }

    /// The first non-tutorial level, where a new game starts.
    pub fn first_game(&mut self) -> (r: Option<String>)
        requires
            old(self).files@.len() <= isize::MAX,
        ensures
            final(self).files@ == old(self).files@,
            match r {
                Some(p) => exists|i: int|
                    0 <= i < old(self).files@.len() && !tut_at(old(self).files@, i) && (forall|j: int|
                        0 <= j < i ==> tut_at(old(self).files@, j)) && final(self).current == i && p == old(
                        self,
                    ).files@[i],
                None => (forall|j: int| 0 <= j < old(self).files@.len() ==> tut_at(old(self).files@, j))
                    && final(self).current == old(self).current,
            },
    {
        let mut i: usize = 0;
        while i < self.files.len()
            invariant
                self.files@ == old(self).files@,
                old(self).files@.len() <= isize::MAX,
                self.current == old(self).current,
                i <= self.files@.len(),
                forall|j: int| 0 <= j < i ==> tut_at(self.files@, j),
            decreases self.files@.len() - i,
        {
            if !is_tutorial(self.files[i].as_str()) {
                self.current = i as isize;
                return Some(self.files[i].clone());
            }
            i = i + 1;
        }
        None
    }

    /// The next non-tutorial level after the current one, without wrapping.
    /// `None` means the current level was the last: the game is won.
    pub fn next_game_after(&mut self) -> (r: Option<String>)
        requires
            old(self).files@.len() <= isize::MAX,
        ensures
            final(self).files@ == old(self).files@,
            ({
                let files = old(self).files@;
                let start = if old(self).current < 0 {
                    0
                } else {
                    old(self).current as int
                };
                match r {
                    Some(p) => exists|i: int|
                        start < i < files.len() && !tut_at(files, i) && (forall|j: int|
                            start < j < i ==> tut_at(files, j)) && final(self).current == i && p == files[i],
                    None => (forall|j: int| start < j < files.len() ==> tut_at(files, j)) && final(self).current
                        == old(self).current,
                }
            }),
    {
        let start: usize = if self.current < 0 {
            0
        } else {
            self.current as usize
        };
        let mut i: usize = start + 1;
        while i < self.files.len()
            invariant
                self.files@ == old(self).files@,
                old(self).files@.len() <= isize::MAX,
                self.current == old(self).current,
                start == (if old(self).current < 0 {
                    0
                } else {
                    old(self).current as int
                }),
                start < i,
                i <= self.files@.len() || i == start + 1,
                forall|j: int| start < j < i && j < self.files@.len() ==> tut_at(self.files@, j),
            decreases self.files@.len() - i,
        {
            if !is_tutorial(self.files[i].as_str()) {
                self.current = i as isize;
                return Some(self.files[i].clone());
            }
            i = i + 1;
        }
        None
    }

    /// The tutorial level, for the menu's **Tutorial** entry.
    pub fn tutorial(&mut self) -> (r: Option<String>)
        requires
            old(self).files@.len() <= isize::MAX,
        ensures
            final(self).files@ == old(self).files@,
            match r {
                Some(p) => exists|i: int|
                    0 <= i < old(self).files@.len() && tut_at(old(self).files@, i) && (forall|j: int|
                        0 <= j < i ==> !tut_at(old(self).files@, j)) && final(self).current == i && p == old(
                        self,
                    ).files@[i],
                None => (forall|j: int| 0 <= j < old(self).files@.len() ==> !tut_at(old(self).files@, j))
                    && final(self).current == old(self).current,
            },
    {
        let mut i: usize = 0;
        while i < self.files.len()
            invariant
                self.files@ == old(self).files@,
                old(self).files@.len() <= isize::MAX,
                self.current == old(self).current,
                i <= self.files@.len(),
                forall|j: int| 0 <= j < i ==> !tut_at(self.files@, j),
            decreases self.files@.len() - i,
        {
            if is_tutorial(self.files[i].as_str()) {
                self.current = i as isize;
                return Some(self.files[i].clone());
            }
            i = i + 1;
        }
        None
    }

    /// Find a level by file name (used by **Continue**).
    pub fn find(&mut self, name: &str) -> (r: Option<String>)
        requires
            old(self).files@.len() <= isize::MAX,
        ensures
            final(self).files@ == old(self).files@,
            match r {
                Some(p) => exists|i: int|
                    0 <= i < old(self).files@.len() && file_name_of(old(self).files@[i]@) == Some(name@) && (forall|
                        j: int,
                    |
                        0 <= j < i ==> file_name_of(old(self).files@[j]@) != Some(name@)) && final(self).current == i
                        && p == old(self).files@[i],
                None => (forall|j: int|
                    0 <= j < old(self).files@.len() ==> file_name_of(old(self).files@[j]@) != Some(name@))
                    && final(self).current == old(self).current,
            },
    {
        let wanted = String::from_str(name);
        let mut i: usize = 0;
        while i < self.files.len()
            invariant
                self.files@ == old(self).files@,
                old(self).files@.len() <= isize::MAX,
                self.current == old(self).current,
                wanted@ == name@,
                i <= self.files@.len(),
                forall|j: int| 0 <= j < i ==> file_name_of(self.files@[j]@) != Some(name@),
            decreases self.files@.len() - i,
        {
            let same = match file_name(self.files[i].as_str()) {
                Some(n) => n == wanted,
                None => false,
            };
            if same {
                self.current = i as isize;
                return Some(self.files[i].clone());
            }
            i = i + 1;
        }
        None
    }

    /// The file name of the loaded level (of the first one before any is
    /// loaded), or `no levels`.
    pub fn label(&self) -> (r: String)
        ensures
            r@ == label_text(self.files@, self.current as int),
    {
        let i: usize = if self.current < 0 {
            0
        } else {
            self.current as usize
        };
        if i < self.files.len() {
            match file_name(self.files[i].as_str()) {
                Some(n) => n,
                None => String::new(),
            }
        } else {
            proof {
                reveal_strlit("no levels");
            }
            String::from_str("no levels")
        }
    }
}

/// What [`Levels::label`] shows.
pub open spec fn label_text(files: Seq<String>, current: int) -> Seq<char> {
    let i = if current < 0 {
        0
    } else {
        current
    };
    if i < files.len() {
        match file_name_of(files[i]@) {
            Some(n) => n,
            None => Seq::empty(),
        }
    } else {
        seq!['n', 'o', ' ', 'l', 'e', 'v', 'e', 'l', 's']
    }
}

/// A `White_Space` character, as `char::is_whitespace` and `str::trim` see
/// it.
pub open spec fn ws_char(c: char) -> bool {
    ||| '\t' <= c <= '\r'
    ||| c == ' '
    ||| c == '\u{85}'
    ||| c == '\u{A0}'
    ||| c == '\u{1680}'
    ||| '\u{2000}' <= c <= '\u{200A}'
    ||| c == '\u{2028}'
    ||| c == '\u{2029}'
    ||| c == '\u{202F}'
    ||| c == '\u{205F}'
    ||| c == '\u{3000}'
}

/// `s` without leading and trailing whitespace.
pub open spec fn trim_chars(s: Seq<char>) -> Seq<char>
    decreases s.len(),
{
    if s.len() == 0 {
        s
    } else if ws_char(s[0]) {
        trim_chars(s.drop_first())
    } else if ws_char(s.last()) {
        trim_chars(s.drop_last())
    } else {
        s
    }
}

fn is_ws(c: char) -> (r: bool)
    ensures
        r == ws_char(c),
{
    ('\t' <= c && c <= '\r') || c == ' ' || c == '\u{85}' || c == '\u{A0}' || c == '\u{1680}' || ('\u{2000}' <= c
        && c <= '\u{200A}') || c == '\u{2028}' || c == '\u{2029}' || c == '\u{202F}' || c == '\u{205F}' || c
        == '\u{3000}'
}

proof fn lemma_trim_all_ws(t: Seq<char>)
    requires
        forall|k: int| 0 <= k < t.len() ==> ws_char(#[trigger] t[k]),
    ensures
        trim_chars(t) == Seq::<char>::empty(),
    decreases t.len(),
{
    if t.len() > 0 {
        let d = t.drop_first();
        assert forall|k: int| 0 <= k < d.len() implies ws_char(#[trigger] d[k]) by {
            assert(d[k] == t[k + 1]);
        }
        lemma_trim_all_ws(d);
    } else {
        assert(t =~= Seq::<char>::empty());
    }
}

/// Trimming `s[i..j]` leaves `s[a..b]` when only whitespace lies outside
/// `a..b` and `s[a..b]` neither starts nor ends with whitespace.
proof fn lemma_trim_range(s: Seq<char>, i: int, a: int, b: int, j: int)
    requires
        0 <= i <= a <= b <= j <= s.len(),
        forall|k: int| i <= k < a ==> ws_char(#[trigger] s[k]),
        forall|k: int| b <= k < j ==> ws_char(#[trigger] s[k]),
        a < b ==> !ws_char(s[a]) && !ws_char(s[b - 1]),
    ensures
        trim_chars(s.subrange(i, j)) == s.subrange(a, b),
    decreases (a - i) + (j - b),
{
    let t = s.subrange(i, j);
    if a == b {
        lemma_trim_all_ws(t);
        assert(s.subrange(a, b) =~= Seq::<char>::empty());
    } else if i < a {
        assert(t[0] == s[i]);
        assert(t.drop_first() =~= s.subrange(i + 1, j));
        lemma_trim_range(s, i + 1, a, b, j);
    } else if b < j {
        assert(t[0] == s[a]);
        assert(t.last() == s[j - 1]);
        assert(t.drop_last() =~= s.subrange(i, j - 1));
        lemma_trim_range(s, i, a, b, j - 1);
    } else {
        assert(t[0] == s[a]);
        assert(t.last() == s[b - 1]);
    }
}

/// The saved level name in the text of the progress file: the text without
/// surrounding whitespace, `None` when nothing is left.
pub fn saved_level(contents: &str) -> (r: Option<String>)
    ensures
        match r {
            Some(n) => n@ == trim_chars(contents@) && n@.len() > 0,
            None => trim_chars(contents@).len() == 0,
        },
{
    let n = contents.unicode_len();
    let mut a: usize = 0;
    while a < n && is_ws(contents.get_char(a))
        invariant
            n == contents@.len(),
            a <= n,
            forall|k: int| 0 <= k < a ==> ws_char(#[trigger] contents@[k]),
        decreases n - a,
    {
        a = a + 1;
    }
    let mut b: usize = n;
    while b > a && is_ws(contents.get_char(b - 1))
        invariant
            n == contents@.len(),
            a <= b <= n,
            forall|k: int| b <= k < n ==> ws_char(#[trigger] contents@[k]),
        decreases b,
    {
        b = b - 1;
    }
    proof {
        assert(contents@.subrange(0, n as int) =~= contents@);
        lemma_trim_range(contents@, 0, a as int, b as int, n as int);
    }
    if a == b {
        return None;
    }
    Some(String::from_str(contents.substring_char(a, b)))
}

/// The last game level the player loaded, for the menu's Continue option.
pub struct Progress {
    pub saved: Option<String>,
}

/// The name ends in the extension `.txt` (with something before the dot), as
/// `Path::extension` reads it.
pub open spec fn txt_name(n: Seq<char>) -> bool {
    n.len() > 4 && n.subrange(n.len() - 4, n.len() as int) == seq!['.', 't', 'x', 't']
}

/// The path names a `.txt` file.
pub open spec fn txt_path(p: Seq<char>) -> bool {
    match file_name_of(p) {
        Some(n) => txt_name(n),
        None => false,
    }
}

/// The `.txt` paths among `ps`, in order.
pub open spec fn txt_paths(ps: Seq<Seq<char>>) -> Seq<Seq<char>>
    decreases ps.len(),
{
    if ps.len() == 0 {
        Seq::empty()
    } else if txt_path(ps.last()) {
        txt_paths(ps.drop_last()).push(ps.last())
    } else {
        txt_paths(ps.drop_last())
    }
}

/// `a` sorts strictly before `b`, character by character.
pub open spec fn lex_lt(a: Seq<char>, b: Seq<char>) -> bool
    decreases a.len(),
{
    if a.len() == 0 {
        b.len() > 0
    } else if b.len() == 0 {
        false
    } else if a[0] != b[0] {
        (a[0] as u32) < (b[0] as u32)
    } else {
        lex_lt(a.drop_first(), b.drop_first())
    }
}

/// The views of a list of strings.
pub open spec fn views(v: Seq<String>) -> Seq<Seq<char>> {
    v.map_values(|s: String| s@)
}

/// The list is in order: no later entry sorts before an earlier one.
pub open spec fn sorted(v: Seq<Seq<char>>) -> bool {
    forall|i: int, j: int| 0 <= i < j < v.len() ==> !lex_lt(#[trigger] v[j], #[trigger] v[i])
}

proof fn lemma_lex_trans(a: Seq<char>, b: Seq<char>, c: Seq<char>)
    requires
        lex_lt(a, b),
        lex_lt(b, c),
    ensures
        lex_lt(a, c),
    decreases a.len(),
{
    if a.len() > 0 && b.len() > 0 && c.len() > 0 && a[0] == b[0] && b[0] == c[0] {
        lemma_lex_trans(a.drop_first(), b.drop_first(), c.drop_first());
    }
}

proof fn lemma_lex_irrefl(a: Seq<char>)
    ensures
        !lex_lt(a, a),
    decreases a.len(),
{
    if a.len() > 0 {
        lemma_lex_irrefl(a.drop_first());
    }
}

/// Does `a` sort strictly before `b`?
fn less(a: &str, b: &str) -> (r: bool)
    ensures
        r == lex_lt(a@, b@),
{
    let n = a.unicode_len();
    let m = b.unicode_len();
    let mut i: usize = 0;
    assert(a@.skip(0) =~= a@);
    assert(b@.skip(0) =~= b@);
    while i < n && i < m
        invariant
            n == a@.len(),
            m == b@.len(),
            i <= n,
            i <= m,
            lex_lt(a@, b@) == lex_lt(a@.skip(i as int), b@.skip(i as int)),
        decreases n - i,
    {
        let x = a.get_char(i);
        let y = b.get_char(i);
        assert(a@.skip(i as int)[0] == x);
        assert(b@.skip(i as int)[0] == y);
        if x != y {
            return (x as u32) < (y as u32);
        }
        assert(a@.skip(i as int).drop_first() =~= a@.skip(i + 1));
        assert(b@.skip(i as int).drop_first() =~= b@.skip(i + 1));
        i = i + 1;
    }
    assert(a@.skip(i as int).len() == n - i);
    i < m
}

/// Does the path name a `.txt` file?
fn is_txt(path: &str) -> (r: bool)
    ensures
        r == txt_path(path@),
{
    match file_name(path) {
        None => false,
        Some(name) => {
            let n = name.unicode_len();
            if n <= 4 {
                return false;
            }
            let ok = name.get_char(n - 4) == '.' && name.get_char(n - 3) == 't' && name.get_char(n - 2) == 'x'
                && name.get_char(n - 1) == 't';
            proof {
                let tail = name@.subrange(n - 4, n as int);
                if ok {
                    assert(tail =~= seq!['.', 't', 'x', 't']);
                } else {
                    if tail == seq!['.', 't', 'x', 't'] {
                        assert(tail[0] == name@[n - 4]);
                        assert(tail[1] == name@[n - 3]);
                        assert(tail[2] == name@[n - 2]);
                        assert(tail[3] == name@[n - 1]);
                    }
                }
            }
            ok
        },
    }
}

impl Levels {
    /// The level list from the paths found under `levels/`: the `.txt` files,
    /// in order, with nothing loaded yet.
    pub fn scan(paths: Vec<String>) -> (r: Levels)
        ensures
            r.current == -1,
            sorted(views(r.files@)),
            views(r.files@).to_multiset() == txt_paths(views(paths@)).to_multiset(),
    {
        let mut files: Vec<String> = Vec::new();
        let mut k: usize = 0;
        assert(views(files@) =~= txt_paths(views(paths@).take(0)));
        while k < paths.len()
            invariant
                k <= paths@.len(),
                sorted(views(files@)),
                views(files@).to_multiset() == txt_paths(views(paths@).take(k as int)).to_multiset(),
            decreases paths@.len() - k,
        {
            let p = paths[k].clone();
            proof {
                assert(views(paths@).take(k + 1).drop_last() =~= views(paths@).take(k as int));
                assert(views(paths@).take(k + 1).last() == p@);
            }
            if is_txt(p.as_str()) {
                let mut pos: usize = 0;
                while pos < files.len() && !less(p.as_str(), files[pos].as_str())
                    invariant
                        k < paths@.len(),
                        p@ == views(paths@)[k as int],
                        txt_path(p@),
                        sorted(views(files@)),
                        views(files@).to_multiset() == txt_paths(views(paths@).take(k as int)).to_multiset(),
                        pos <= files@.len(),
                        forall|j: int| 0 <= j < pos ==> !lex_lt(p@, #[trigger] files@[j]@),
                    decreases files@.len() - pos,
                {
                    pos = pos + 1;
                }
                assert(pos < files@.len() ==> lex_lt(p@, files@[pos as int]@));
                let ghost before = files@;
                files.insert(pos, p);
                proof {
                    let vb = views(before);
                    let va = views(files@);
                    assert(va =~= vb.insert(pos as int, p@));
                    vstd::seq_lib::to_multiset_insert(vb, pos as int, p@);
                    vstd::seq_lib::to_multiset_build(txt_paths(views(paths@).take(k as int)), p@);
                    assert forall|i: int, j: int| 0 <= i < j < va.len() implies !lex_lt(
                        #[trigger] va[j],
                        #[trigger] va[i],
                    ) by {
                        if j < pos {
                            assert(va[i] == vb[i] && va[j] == vb[j]);
                        } else if j == pos {
                            assert(va[j] == p@);
                            assert(va[i] == before[i]@);
                        } else if i == pos {
                            assert(va[i] == p@);
                            assert(va[j] == vb[j - 1]);
                            if lex_lt(vb[j - 1], p@) {
                                assert(pos < before.len());
                                assert(lex_lt(p@, vb[pos as int]));
                                if pos < j - 1 {
                                    assert(!lex_lt(vb[j - 1], vb[pos as int]));
                                }
                                lemma_lex_trans(vb[j - 1], p@, vb[pos as int]);
                                lemma_lex_irrefl(vb[pos as int]);
                            }
                        } else if i < pos {
                            assert(va[i] == vb[i] && va[j] == vb[j - 1]);
                        } else {
                            assert(va[i] == vb[i - 1] && va[j] == vb[j - 1]);
                        }
                    }
                }
            }
            k = k + 1;
        }
        proof {
            assert(views(paths@).take(paths@.len() as int) =~= views(paths@));
        }
        Levels { files, current: -1 }
    }
}

} // verus!
