//! The status model and the parser for `git status --porcelain=v2 --branch`.

use vstd::prelude::*;
use vstd::string::StrSliceExecFns;
use vstd::utf8::{decode_utf8, valid_utf8};

use crate::text::{
    char_is_space, char_utf8_width, char_width, decode_lossy, is_space, lossy_utf8, parse_usize,
    parse_usize_range, push_range, range_equals, range_starts_with, starts_with, str_chars, trim,
    trim_bounds, utf8_width,
};

verus! {

broadcast use vstd::string::group_string_axioms;

/// The repository state that the prompt shows.
#[derive(Debug, Clone, PartialEq, Eq)]
pub struct GitStatus {
    pub branch: String,
    pub ahead: usize,
    pub behind: usize,
    pub staged: usize,
    pub conflicts: usize,
    pub changed: usize,
    pub untracked: usize,
}

/// The mathematical value of a [`GitStatus`].
pub struct StatusView {
    pub branch: Seq<char>,
    pub ahead: nat,
    pub behind: nat,
    pub staged: nat,
    pub conflicts: nat,
    pub changed: nat,
    pub untracked: nat,
}

impl View for GitStatus {
    type V = StatusView;

    open spec fn view(&self) -> StatusView {
        StatusView {
            branch: self.branch@,
            ahead: self.ahead as nat,
            behind: self.behind as nat,
            staged: self.staged as nat,
            conflicts: self.conflicts as nat,
            changed: self.changed as nat,
            untracked: self.untracked as nat,
        }
    }
}

/// What the parser has gathered after some lines of status output.
pub struct StatusScan {
    pub head: Option<Seq<char>>,
    pub oid: Option<Seq<char>>,
    pub ahead: nat,
    pub behind: nat,
    pub staged: nat,
    pub conflicts: nat,
    pub changed: nat,
    pub untracked: nat,
}

/// The parser's state before the first line.
pub open spec fn empty_scan() -> StatusScan {
    StatusScan {
        head: None,
        oid: None,
        ahead: 0,
        behind: 0,
        staged: 0,
        conflicts: 0,
        changed: 0,
        untracked: 0,
    }
}

/// The first index at or after `i` that holds a newline, or `s.len()`.
pub open spec fn line_end(s: Seq<char>, i: int) -> int
    decreases s.len() - i,
{
    if i < 0 || i >= s.len() || s[i] == '\n' {
        i
    } else {
        line_end(s, i + 1)
    }
}

/// The first index at or after `i` that holds whitespace, or `s.len()`.
pub open spec fn next_space(s: Seq<char>, i: int) -> int
    decreases s.len() - i,
{
    if i < 0 || i >= s.len() || is_space(s[i]) {
        i
    } else {
        next_space(s, i + 1)
    }
}

/// The first index at or after `i` that holds no whitespace, or `s.len()`.
pub open spec fn next_non_space(s: Seq<char>, i: int) -> int
    decreases s.len() - i,
{
    if i < 0 || i >= s.len() || !is_space(s[i]) {
        i
    } else {
        next_non_space(s, i + 1)
    }
}

pub proof fn lemma_line_end(s: Seq<char>, i: int)
    requires
        0 <= i <= s.len(),
    ensures
        i <= line_end(s, i) <= s.len(),
        line_end(s, i) < s.len() ==> s[line_end(s, i)] == '\n',
        forall|k: int| i <= k < line_end(s, i) ==> s[k] != '\n',
    decreases s.len() - i,
{
    if i < s.len() && s[i] != '\n' {
        lemma_line_end(s, i + 1);
    }
}

pub proof fn lemma_next_space(s: Seq<char>, i: int)
    requires
        0 <= i <= s.len(),
    ensures
        i <= next_space(s, i) <= s.len(),
        next_space(s, i) < s.len() ==> is_space(s[next_space(s, i)]),
        forall|k: int| i <= k < next_space(s, i) ==> !is_space(s[k]),
    decreases s.len() - i,
{
    if i < s.len() && !is_space(s[i]) {
        lemma_next_space(s, i + 1);
    }
}

pub proof fn lemma_next_non_space(s: Seq<char>, i: int)
    requires
        0 <= i <= s.len(),
    ensures
        i <= next_non_space(s, i) <= s.len(),
        next_non_space(s, i) < s.len() ==> !is_space(s[next_non_space(s, i)]),
        forall|k: int| i <= k < next_non_space(s, i) ==> is_space(s[k]),
    decreases s.len() - i,
{
    if i < s.len() && is_space(s[i]) {
        lemma_next_non_space(s, i + 1);
    }
}

/// The line that starts at `i`, without its `\n` or `\r\n` terminator, as
/// `str::lines` yields it.
pub open spec fn line_at(s: Seq<char>, i: int) -> Seq<char> {
    let e = line_end(s, i);
    let raw = s.subrange(i, e);
    if e < s.len() && raw.len() > 0 && raw.last() == '\r' {
        raw.drop_last()
    } else {
        raw
    }
}

/// The first whitespace-separated word of `t`, as `split_whitespace().next()`
/// yields it.
pub open spec fn first_word(t: Seq<char>) -> Option<Seq<char>> {
    let a = next_non_space(t, 0);
    if a >= t.len() {
        None
    } else {
        Some(t.subrange(a, next_space(t, a)))
    }
}

/// A status code counts as a change unless it is `.` or a blank.
pub open spec fn is_changed(code: Seq<char>) -> bool {
    !(code == seq!['.'] || code == seq![' '])
}


/// The `XY` status code of an ordinary (`1 `) or renamed (`2 `) entry:
/// its first word, when that is two characters and the first of them is a
/// single UTF-8 byte. Any other code is malformed.
pub open spec fn entry_code(line: Seq<char>) -> Option<Seq<char>> {
    match first_word(line.skip(2)) {
        Some(xy) => if xy.len() == 2 && char_width(xy[0]) == 1 {
            Some(xy)
        } else {
            None
        },
        None => None,
    }
}

/// The ahead and behind counts after the words of a `# branch.ab ` line
/// from index `i` on: a word `+N` sets ahead, `-N` sets behind, other words
/// change nothing, and a count that does not parse fails the whole line.
pub open spec fn ab_scan(t: Seq<char>, i: int, ahead: nat, behind: nat) -> Option<(nat, nat)>
    decreases t.len() - i,
{
    if i < 0 || i > t.len() {
        Some((ahead, behind))
    } else {
        let a = next_non_space(t, i);
        if a >= t.len() {
            Some((ahead, behind))
        } else {
            proof {
                lemma_next_non_space(t, i);
                lemma_next_space(t, a);
            }
            let e = next_space(t, a);
            let w = t.subrange(a, e);
            if w[0] == '+' {
                match parse_usize(w.drop_first()) {
                    Some(v) => ab_scan(t, e, v, behind),
                    None => None,
                }
            } else if w[0] == '-' {
                match parse_usize(w.drop_first()) {
                    Some(v) => ab_scan(t, e, ahead, v),
                    None => None,
                }
            } else {
                ab_scan(t, e, ahead, behind)
            }
        }
    }
}

/// The parser's state after one more line; `None` when the line makes the
/// whole output unusable.
pub open spec fn step(st: StatusScan, line: Seq<char>) -> Option<StatusScan> {
    if starts_with(line, "# branch.head "@) {
        Some(StatusScan { head: Some(line.skip("# branch.head "@.len() as int)), ..st })
    } else if starts_with(line, "# branch.oid "@) {
        Some(StatusScan { oid: Some(line.skip("# branch.oid "@.len() as int)), ..st })
    } else if starts_with(line, "# branch.ab "@) {
        match ab_scan(line.skip("# branch.ab "@.len() as int), 0, st.ahead, st.behind) {
            Some((a, b)) => Some(StatusScan { ahead: a, behind: b, ..st }),
            None => None,
        }
    } else if starts_with(line, "? "@) {
        Some(StatusScan { untracked: st.untracked + 1, ..st })
    } else if starts_with(line, "1 "@) || starts_with(line, "2 "@) {
        match entry_code(line) {
            Some(xy) => Some(
                StatusScan {
                    staged: st.staged + if is_changed(seq![xy[0]]) {
                        1nat
                    } else {
                        0nat
                    },
                    changed: st.changed + if is_changed(seq![xy[1]]) {
                        1nat
                    } else {
                        0nat
                    },
                    ..st
                },
            ),
            None => None,
        }
    } else if starts_with(line, "u "@) {
        Some(StatusScan { conflicts: st.conflicts + 1, ..st })
    } else {
        Some(st)
    }
}

/// The parser's state after the lines that start at `i` or later.
pub open spec fn scan_from(s: Seq<char>, i: int, st: StatusScan) -> Option<StatusScan>
    decreases s.len() + 1 - i,
{
    if i < 0 || i >= s.len() {
        Some(st)
    } else {
        proof {
            lemma_line_end(s, i);
        }
        match step(st, line_at(s, i)) {
            Some(next) => {
                proof {
                    lemma_line_end(s, i);
                }
                scan_from(s, line_end(s, i) + 1, next)
            },
            None => None,
        }
    }
}

/// The first `n` UTF-8 bytes of `s` as characters, when byte `n` falls on a
/// character boundary (what `str::get(..n)` gives).
pub open spec fn byte_prefix(s: Seq<char>, n: nat) -> Option<Seq<char>> {
    if exists|k: int| 0 <= k <= s.len() && #[trigger] utf8_width(s.take(k)) == n {
        Some(s.take(choose|k: int| 0 <= k <= s.len() && #[trigger] utf8_width(s.take(k)) == n))
    } else {
        None
    }
}

/// The abbreviated object id shown for a detached head: the first seven
/// bytes of the id, unless the id is `(initial)` or shorter than that.
pub open spec fn short_oid_of(oid: Seq<char>) -> Option<Seq<char>> {
    if oid == "(initial)"@ || utf8_width(oid) < 7 {
        None
    } else {
        byte_prefix(oid, 7)
    }
}

/// The branch label: the head's name, or `:` and the short object id when
/// the head is detached; `None` when there is no head line or no short id.
pub open spec fn branch_label(st: StatusScan) -> Option<Seq<char>> {
    match st.head {
        Some(h) => if h == "(detached)"@ {
            match st.oid {
                Some(o) => match short_oid_of(o) {
                    Some(p) => Some(seq![':'] + p),
                    None => None,
                },
                None => None,
            }
        } else {
            Some(h)
        },
        None => None,
    }
}

/// The status that the output `s` describes, or `None` when it is
/// malformed or incomplete.
pub open spec fn status_of(s: Seq<char>) -> Option<StatusView> {
    match scan_from(s, 0, empty_scan()) {
        Some(st) => match branch_label(st) {
            Some(b) => Some(
                StatusView {
                    branch: b,
                    ahead: st.ahead,
                    behind: st.behind,
                    staged: st.staged,
                    conflicts: st.conflicts,
                    changed: st.changed,
                    untracked: st.untracked,
                },
            ),
            None => None,
        },
        None => None,
    }
}


/// Finds [`line_end`] from `i`.
fn find_line_end(v: &Vec<char>, i: usize) -> (e: usize)
    requires
        i <= v@.len(),
    ensures
        e == line_end(v@, i as int),
{
    let mut e = i;
    while e < v.len() && v[e] != '\n'
        invariant
            i <= e <= v@.len(),
            line_end(v@, i as int) == line_end(v@, e as int),
        decreases v@.len() - e,
    {
        e = e + 1;
    }
    e
}

/// Finds [`next_space`] in `v[from..to]`, starting at absolute index `i`.
fn find_space(v: &Vec<char>, from: usize, i: usize, to: usize) -> (e: usize)
    requires
        from <= i <= to <= v@.len(),
    ensures
        i <= e <= to,
        e - from == next_space(v@.subrange(from as int, to as int), i - from),
{
    let ghost t = v@.subrange(from as int, to as int);
    let mut e = i;
    while e < to && !char_is_space(v[e])
        invariant
            from <= i <= e <= to <= v@.len(),
            t == v@.subrange(from as int, to as int),
            next_space(t, i - from) == next_space(t, e - from),
        decreases to - e,
    {
        assert(t[e - from] == v@[e as int]);
        e = e + 1;
    }
    if e < to {
        assert(t[e - from] == v@[e as int]);
    }
    e
}

/// Finds [`next_non_space`] in `v[from..to]`, starting at absolute index `i`.
fn find_non_space(v: &Vec<char>, from: usize, i: usize, to: usize) -> (e: usize)
    requires
        from <= i <= to <= v@.len(),
    ensures
        i <= e <= to,
        e - from == next_non_space(v@.subrange(from as int, to as int), i - from),
{
    let ghost t = v@.subrange(from as int, to as int);
    let mut e = i;
    while e < to && char_is_space(v[e])
        invariant
            from <= i <= e <= to <= v@.len(),
            t == v@.subrange(from as int, to as int),
            next_non_space(t, i - from) == next_non_space(t, e - from),
        decreases to - e,
    {
        assert(t[e - from] == v@[e as int]);
        e = e + 1;
    }
    if e < to {
        assert(t[e - from] == v@[e as int]);
    }
    e
}


pub proof fn lemma_width_grows(s: Seq<char>, j: int, k: int)
    requires
        0 <= j <= k <= s.len(),
    ensures
        utf8_width(s.take(j)) <= utf8_width(s.take(k)),
        j < k ==> utf8_width(s.take(j)) < utf8_width(s.take(k)),
    decreases k - j,
{
    if j < k {
        assert(s.take(k).drop_last() =~= s.take(k - 1));
        lemma_width_grows(s, j, k - 1);
    }
}

/// The end index of [`short_oid_of`] for the id `v[from..to]`.
fn short_oid(v: &Vec<char>, from: usize, to: usize) -> (r: Option<usize>)
    requires
        from <= to <= v@.len(),
    ensures
        match short_oid_of(v@.subrange(from as int, to as int)) {
            Some(p) => r matches Some(e) && from <= e <= to && v@.subrange(from as int, e as int) == p,
            None => r is None,
        },
{
    if range_equals(v, from, to, "(initial)") {
        return None;
    }
    let ghost o = v@.subrange(from as int, to as int);
    let mut k = from;
    let mut w: usize = 0;
    while k < to && w < 7
        invariant
            from <= k <= to <= v@.len(),
            o == v@.subrange(from as int, to as int),
            w == utf8_width(o.take(k - from)),
            w < 11,
            forall|j: int| 0 <= j < k - from ==> #[trigger] utf8_width(o.take(j)) < 7,
        decreases to - k,
    {
        assert(o.take(k - from + 1).drop_last() =~= o.take(k - from));
        assert(o[k - from] == v@[k as int]);
        w = w + char_utf8_width(v[k]);
        k = k + 1;
    }
    proof {
        assert(o.take(o.len() as int) =~= o);
        lemma_width_grows(o, k - from, o.len() as int);
    }
    if w != 7 {
        proof {
            if w > 7 {
                assert forall|j: int| 0 <= j <= o.len() implies #[trigger] utf8_width(o.take(j)) != 7 by {
                    if j >= k - from {
                        lemma_width_grows(o, k - from, j);
                    }
                }
            }
        }
        return None;
    }
    proof {
        assert(utf8_width(o.take(k - from)) == 7);
        let c = choose|j: int| 0 <= j <= o.len() && #[trigger] utf8_width(o.take(j)) == 7;
        if c < k - from {
            lemma_width_grows(o, c, k - from);
        } else if c > k - from {
            lemma_width_grows(o, k - from, c);
        }
        assert(o.take(k - from) =~= v@.subrange(from as int, k as int));
    }
    Some(k)
}

/// Tests [`is_changed`] on `v[from..to]`.
fn code_is_changed(v: &Vec<char>, from: usize, to: usize) -> (r: bool)
    requires
        from <= to <= v@.len(),
    ensures
        r == is_changed(v@.subrange(from as int, to as int)),
{
    if to - from == 1 && (v[from] == '.' || v[from] == ' ') {
        assert(v@.subrange(from as int, to as int) =~= seq![v@[from as int]]);
        false
    } else {
        if to - from == 1 {
            assert(v@.subrange(from as int, to as int)[0] == v@[from as int]);
            assert(seq!['.'][0] == '.');
            assert(seq![' '][0] == ' ');
        } else {
            assert(seq!['.'].len() == 1);
            assert(seq![' '].len() == 1);
        }
        true
    }
}


/// Computes [`ab_scan`] over the words of `v[from..to]`.
fn ab_counts(v: &Vec<char>, from: usize, to: usize, ahead0: usize, behind0: usize) -> (r: Option<(usize, usize)>)
    requires
        from <= to <= v@.len(),
    ensures
        match ab_scan(v@.subrange(from as int, to as int), 0, ahead0 as nat, behind0 as nat) {
            Some((a, b)) => r matches Some((x, y)) && x == a && y == b,
            None => r is None,
        },
{
    let ghost t = v@.subrange(from as int, to as int);
    let mut ahead = ahead0;
    let mut behind = behind0;
    let mut p = from;
    loop
        invariant
            from <= p <= to <= v@.len(),
            t == v@.subrange(from as int, to as int),
            ab_scan(t, 0, ahead0 as nat, behind0 as nat) == ab_scan(t, p - from, ahead as nat, behind as nat),
        decreases to - p,
    {
        let a = find_non_space(v, from, p, to);
        if a >= to {
            return Some((ahead, behind));
        }
        let e = find_space(v, from, a, to);
        proof {
            lemma_next_non_space(t, p - from);
            lemma_next_space(t, a - from);
            assert(t[a - from] == v@[a as int]);
            assert(t.subrange(a - from, e - from) =~= v@.subrange(a as int, e as int));
            assert(v@.subrange(a as int, e as int).drop_first() =~= v@.subrange(a + 1, e as int));
        }
        if v[a] == '+' {
            match parse_usize_range(v, a + 1, e) {
                Some(n) => {
                    ahead = n;
                },
                None => {
                    return None;
                },
            }
        } else if v[a] == '-' {
            match parse_usize_range(v, a + 1, e) {
                Some(n) => {
                    behind = n;
                },
                None => {
                    return None;
                },
            }
        }
        p = e;
    }
}


/// The parser's state while it runs: positions of the head and object id
/// within the output, and the counts so far.
#[derive(Clone, Copy)]
struct ScanState {
    head: Option<(usize, usize)>,
    oid: Option<(usize, usize)>,
    ahead: usize,
    behind: usize,
    staged: usize,
    conflicts: usize,
    changed: usize,
    untracked: usize,
}

/// The characters that a position pair marks in `v`.
spec fn marked(v: Seq<char>, r: Option<(usize, usize)>) -> Option<Seq<char>> {
    match r {
        Some((a, b)) => Some(v.subrange(a as int, b as int)),
        None => None,
    }
}

/// A position pair lies within a sequence of length `n`.
spec fn mark_fits(r: Option<(usize, usize)>, n: nat) -> bool {
    r matches Some((a, b)) ==> a <= b <= n
}

impl ScanState {
    spec fn view_in(self, v: Seq<char>) -> StatusScan {
        StatusScan {
            head: marked(v, self.head),
            oid: marked(v, self.oid),
            ahead: self.ahead as nat,
            behind: self.behind as nat,
            staged: self.staged as nat,
            conflicts: self.conflicts as nat,
            changed: self.changed as nat,
            untracked: self.untracked as nat,
        }
    }

    /// The marks fit in `v` and every count is at most `bound`.
    spec fn fits(self, n: nat, bound: int) -> bool {
        &&& mark_fits(self.head, n)
        &&& mark_fits(self.oid, n)
        &&& self.staged <= bound
        &&& self.conflicts <= bound
        &&& self.changed <= bound
        &&& self.untracked <= bound
    }
}

/// Applies [`step`] to the line `v[from..to]`.
fn step_line(v: &Vec<char>, from: usize, to: usize, st: ScanState) -> (r: Option<ScanState>)
    requires
        from <= to <= v@.len(),
        st.fits(v@.len(), from as int),
    ensures
        match step(st.view_in(v@), v@.subrange(from as int, to as int)) {
            Some(next) => r matches Some(n) && n.view_in(v@) == next && n.fits(v@.len(), to as int),
            None => r is None,
        },
{
    let ghost line = v@.subrange(from as int, to as int);
    proof {
        reveal_strlit("? ");
        reveal_strlit("1 ");
        reveal_strlit("2 ");
        reveal_strlit("u ");
    }
    if range_starts_with(v, from, to, "# branch.head ") {
        let k = "# branch.head ".unicode_len();
        assert(line.skip(k as int) =~= v@.subrange(from + k, to as int));
        Some(ScanState { head: Some((from + k, to)), ..st })
    } else if range_starts_with(v, from, to, "# branch.oid ") {
        let k = "# branch.oid ".unicode_len();
        assert(line.skip(k as int) =~= v@.subrange(from + k, to as int));
        Some(ScanState { oid: Some((from + k, to)), ..st })
    } else if range_starts_with(v, from, to, "# branch.ab ") {
        let k = "# branch.ab ".unicode_len();
        assert(line.skip(k as int) =~= v@.subrange(from + k, to as int));
        match ab_counts(v, from + k, to, st.ahead, st.behind) {
            Some((a, b)) => Some(ScanState { ahead: a, behind: b, ..st }),
            None => None,
        }
    } else if range_starts_with(v, from, to, "? ") {
        Some(ScanState { untracked: st.untracked + 1, ..st })
    } else if range_starts_with(v, from, to, "1 ") || range_starts_with(v, from, to, "2 ") {
        let ghost t = line.skip(2);
        assert(t =~= v@.subrange(from + 2, to as int));
        let a = find_non_space(v, from + 2, from + 2, to);
        if a >= to {
            return None;
        }
        let e = find_space(v, from + 2, a, to);
        proof {
            lemma_next_non_space(t, 0);
            lemma_next_space(t, a - from - 2);
            assert(t[a - from - 2] == v@[a as int]);
            assert(t.subrange(a - from - 2, e - from - 2) =~= v@.subrange(a as int, e as int));
        }
        let ghost xy = v@.subrange(a as int, e as int);
        if e - a != 2 || char_utf8_width(v[a]) != 1 {
            return None;
        }
        assert(seq![xy[0]] =~= v@.subrange(a as int, a + 1));
        assert(seq![xy[1]] =~= v@.subrange(a + 1, e as int));
        let staged = if code_is_changed(v, a, a + 1) {
            st.staged + 1
        } else {
            st.staged
        };
        let changed = if code_is_changed(v, a + 1, e) {
            st.changed + 1
        } else {
            st.changed
        };
        Some(ScanState { staged, changed, ..st })
    } else if range_starts_with(v, from, to, "u ") {
        Some(ScanState { conflicts: st.conflicts + 1, ..st })
    } else {
        Some(st)
    }
}


/// Runs the parser over every line of `v`.
fn scan_output(v: &Vec<char>) -> (r: Option<ScanState>)
    ensures
        match scan_from(v@, 0, empty_scan()) {
            Some(st) => r matches Some(e) && e.view_in(v@) == st && e.fits(v@.len(), v@.len() as int),
            None => r is None,
        },
{
    let n = v.len();
    let mut st = ScanState {
        head: None,
        oid: None,
        ahead: 0,
        behind: 0,
        staged: 0,
        conflicts: 0,
        changed: 0,
        untracked: 0,
    };
    assert(st.view_in(v@) == empty_scan());
    let mut i: usize = 0;
    while i < n
        invariant
            i <= n == v@.len(),
            st.fits(v@.len(), i as int),
            scan_from(v@, 0, empty_scan()) == scan_from(v@, i as int, st.view_in(v@)),
        decreases n - i,
    {
        let e = find_line_end(v, i);
        proof {
            lemma_line_end(v@, i as int);
        }
        let le = if e < n && e > i && v[e - 1] == '\r' {
            e - 1
        } else {
            e
        };
        assert(v@.subrange(i as int, le as int) =~= line_at(v@, i as int));
        let ghost before = st.view_in(v@);
        let ghost at = i as int;
        match step_line(v, i, le, st) {
            None => {
                return None;
            },
            Some(next) => {
                st = next;
            },
        }
        assert(scan_from(v@, at, before) == scan_from(v@, e + 1, st.view_in(v@)));
        if e >= n {
            i = n;
            assert(scan_from(v@, e + 1, st.view_in(v@)) == scan_from(v@, n as int, st.view_in(v@)));
        } else {
            i = e + 1;
        }
    }
    Some(st)
}

/// The status for a finished scan of `v`, as [`status_of`] describes it.
fn build_status(v: &Vec<char>, st: ScanState) -> (r: Option<GitStatus>)
    requires
        st.fits(v@.len(), v@.len() as int),
    ensures
        match branch_label(st.view_in(v@)) {
            Some(b) => r matches Some(s) && s.branch@ == b && s.ahead == st.ahead && s.behind == st.behind
                && s.staged == st.staged && s.conflicts == st.conflicts && s.changed == st.changed
                && s.untracked == st.untracked,
            None => r is None,
        },
{
    let (ha, hb) = match st.head {
        Some(h) => h,
        None => {
            return None;
        },
    };
    let mut branch = String::new();
    if range_equals(v, ha, hb, "(detached)") {
        let (oa, ob) = match st.oid {
            Some(o) => o,
            None => {
                return None;
            },
        };
        let e = match short_oid(v, oa, ob) {
            Some(e) => e,
            None => {
                return None;
            },
        };
        branch.push(':');
        push_range(&mut branch, v, oa, e);
        assert(branch@ =~= seq![':'] + v@.subrange(oa as int, e as int));
    } else {
        push_range(&mut branch, v, ha, hb);
        assert(branch@ =~= v@.subrange(ha as int, hb as int));
    }
    Some(
        GitStatus {
            branch,
            ahead: st.ahead,
            behind: st.behind,
            staged: st.staged,
            conflicts: st.conflicts,
            changed: st.changed,
            untracked: st.untracked,
        },
    )
}

/// Parses the output of `git status --porcelain=v2 --branch`.
///
/// Lines `# branch.head NAME` and `# branch.oid ID` record the head and its
/// object id, `# branch.ab +A -B` the ahead and behind counts, `? ` lines
/// count untracked files, `u ` lines conflicts, and `1 `/`2 ` entries count
/// as staged and changed by the two halves of their status code. Other
/// lines are ignored. The result is `None` when no head line is present,
/// when a detached head has no usable object id, when a count does not
/// parse, or when an entry's status code is malformed (see [`entry_code`]).
pub fn parse_status(output: &str) -> (r: Option<GitStatus>)
    ensures
        match status_of(output@) {
            Some(sv) => r matches Some(s) && s@ == sv,
            None => r is None,
        },
{
    let v = str_chars(output);
    match scan_output(&v) {
        Some(st) => build_status(&v, st),
        None => None,
    }
}


/// The output names `(detached)` as its head.
pub open spec fn head_is_detached(s: Seq<char>) -> bool {
    scan_from(s, 0, empty_scan()) matches Some(st) && st.head == Some("(detached)"@)
}

/// What a run of `git status --porcelain=v2 --branch` amounts to.
pub enum StatusReport {
    /// Git failed, or its output does not describe a complete status.
    Unavailable,
    /// The status, on a branch.
    Ready(GitStatus),
    /// The status of a detached head; its label still awaits the short id
    /// that `git rev-parse --short HEAD` prints (see [`resolve_short_head`]).
    Detached(GitStatus),
}

/// `r` is what the status output `text` amounts to.
pub open spec fn report_fits(r: StatusReport, text: Seq<char>) -> bool {
    match status_of(text) {
        Some(sv) => if head_is_detached(text) {
            r matches StatusReport::Detached(s) && s@ == sv
        } else {
            r matches StatusReport::Ready(s) && s@ == sv
        },
        None => r is Unavailable,
    }
}

/// Interprets a run of `git status --porcelain=v2 --branch`: whether it
/// succeeded, and the bytes it printed (decoded as lossy UTF-8).
pub fn status_report(succeeded: bool, stdout: &[u8]) -> (r: StatusReport)
    ensures
        !succeeded ==> r is Unavailable,
        succeeded ==> report_fits(r, lossy_utf8(stdout@)),
        succeeded && valid_utf8(stdout@) ==> report_fits(r, decode_utf8(stdout@)),
{
    if !succeeded {
        return StatusReport::Unavailable;
    }
    let text = decode_lossy(stdout);
    let v = str_chars(text.as_str());
    match scan_output(&v) {
        None => StatusReport::Unavailable,
        Some(st) => match build_status(&v, st) {
            None => StatusReport::Unavailable,
            Some(status) => {
                let detached = match st.head {
                    Some((a, b)) => range_equals(&v, a, b, "(detached)"),
                    None => false,
                };
                if detached {
                    StatusReport::Detached(status)
                } else {
                    StatusReport::Ready(status)
                }
            },
        },
    }
}

/// The branch label for a detached head, from a run of
/// `git rev-parse --short HEAD`: `:` and the trimmed output, when the run
/// succeeded and printed something besides whitespace.
pub open spec fn short_head_label(succeeded: bool, text: Seq<char>) -> Option<Seq<char>> {
    if succeeded && trim(text).len() > 0 {
        Some(seq![':'] + trim(text))
    } else {
        None
    }
}

/// `r` is `status` with the branch label `label`, or `None` without one.
pub open spec fn resolved_fits(r: Option<GitStatus>, status: StatusView, label: Option<Seq<char>>) -> bool {
    match label {
        Some(b) => r matches Some(s) && s@ == StatusView { branch: b, ..status },
        None => r is None,
    }
}

/// Completes the status of a detached head with the short id from a run of
/// `git rev-parse --short HEAD`; `None` when that run yields no id.
pub fn resolve_short_head(status: GitStatus, succeeded: bool, stdout: &[u8]) -> (r: Option<GitStatus>)
    ensures
        resolved_fits(r, status@, short_head_label(succeeded, lossy_utf8(stdout@))),
        valid_utf8(stdout@) ==> resolved_fits(r, status@, short_head_label(succeeded, decode_utf8(stdout@))),
{
    if !succeeded {
        return None;
    }
    let text = decode_lossy(stdout);
    let v = str_chars(text.as_str());
    let (a, b) = trim_bounds(&v);
    if a == b {
        return None;
    }
    let mut branch = String::new();
    branch.push(':');
    push_range(&mut branch, &v, a, b);
    assert(branch@ =~= seq![':'] + trim(lossy_utf8(stdout@)));
    Some(GitStatus { branch, ..status })
}


/// The number of lines from index `i` on that start with `p`.
pub open spec fn count_lines(s: Seq<char>, i: int, p: Seq<char>) -> nat
    decreases s.len() + 1 - i,
{
    if i < 0 || i >= s.len() {
        0
    } else {
        proof {
            lemma_line_end(s, i);
        }
        (if starts_with(line_at(s, i), p) {
            1nat
        } else {
            0nat
        }) + count_lines(s, line_end(s, i) + 1, p)
    }
}

/// An ordinary or renamed entry whose code marks a staged change.
pub open spec fn stages_change(line: Seq<char>) -> bool {
    &&& starts_with(line, "1 "@) || starts_with(line, "2 "@)
    &&& entry_code(line) matches Some(xy) && is_changed(seq![xy[0]])
}

/// An ordinary or renamed entry whose code marks a change in the worktree.
pub open spec fn changes_worktree(line: Seq<char>) -> bool {
    &&& starts_with(line, "1 "@) || starts_with(line, "2 "@)
    &&& entry_code(line) matches Some(xy) && is_changed(seq![xy[1]])
}

/// The number of lines from index `i` on that [`stages_change`].
pub open spec fn count_staged_lines(s: Seq<char>, i: int) -> nat
    decreases s.len() + 1 - i,
{
    if i < 0 || i >= s.len() {
        0
    } else {
        proof {
            lemma_line_end(s, i);
        }
        (if stages_change(line_at(s, i)) {
            1nat
        } else {
            0nat
        }) + count_staged_lines(s, line_end(s, i) + 1)
    }
}

/// The number of lines from index `i` on that [`changes_worktree`].
pub open spec fn count_changed_lines(s: Seq<char>, i: int) -> nat
    decreases s.len() + 1 - i,
{
    if i < 0 || i >= s.len() {
        0
    } else {
        proof {
            lemma_line_end(s, i);
        }
        (if changes_worktree(line_at(s, i)) {
            1nat
        } else {
            0nat
        }) + count_changed_lines(s, line_end(s, i) + 1)
    }
}

/// The first characters of the line prefixes the parser knows.
pub proof fn lemma_prefix_heads(line: Seq<char>)
    ensures
        starts_with(line, "? "@) ==> line[0] == '?',
        starts_with(line, "u "@) ==> line[0] == 'u',
        starts_with(line, "1 "@) ==> line[0] == '1',
        starts_with(line, "2 "@) ==> line[0] == '2',
        starts_with(line, "# branch.head "@) ==> line[0] == '#',
        starts_with(line, "# branch.oid "@) ==> line[0] == '#',
        starts_with(line, "# branch.ab "@) ==> line[0] == '#',
{
    reveal_strlit("? ");
    reveal_strlit("u ");
    reveal_strlit("1 ");
    reveal_strlit("2 ");
    reveal_strlit("# branch.head ");
    reveal_strlit("# branch.oid ");
    reveal_strlit("# branch.ab ");
    if starts_with(line, "? "@) {
        assert(line.take("? "@.len() as int)[0] == line[0]);
    }
    if starts_with(line, "u "@) {
        assert(line.take("u "@.len() as int)[0] == line[0]);
    }
    if starts_with(line, "1 "@) {
        assert(line.take("1 "@.len() as int)[0] == line[0]);
    }
    if starts_with(line, "2 "@) {
        assert(line.take("2 "@.len() as int)[0] == line[0]);
    }
    if starts_with(line, "# branch.head "@) {
        assert(line.take("# branch.head "@.len() as int)[0] == line[0]);
    }
    if starts_with(line, "# branch.oid "@) {
        assert(line.take("# branch.oid "@.len() as int)[0] == line[0]);
    }
    if starts_with(line, "# branch.ab "@) {
        assert(line.take("# branch.ab "@.len() as int)[0] == line[0]);
    }
}

pub proof fn lemma_scan_counts(s: Seq<char>, i: int, st: StatusScan)
    requires
        0 <= i,
    ensures
        scan_from(s, i, st) matches Some(fin) ==> {
            &&& fin.untracked == st.untracked + count_lines(s, i, "? "@)
            &&& fin.conflicts == st.conflicts + count_lines(s, i, "u "@)
            &&& fin.staged == st.staged + count_staged_lines(s, i)
            &&& fin.changed == st.changed + count_changed_lines(s, i)
            &&& (count_lines(s, i, "# branch.head "@) == 0 ==> fin.head == st.head)
        },
    decreases s.len() + 1 - i,
{
    if i < s.len() {
        lemma_line_end(s, i);
        let line = line_at(s, i);
        lemma_prefix_heads(line);
        match step(st, line) {
            Some(next) => {
                lemma_scan_counts(s, line_end(s, i) + 1, next);
            },
            None => {},
        }
    }
}

/// The counts follow the entry lines: the untracked count is the number of
/// `? ` lines, the conflict count the number of `u ` lines, and the staged
/// and changed counts the numbers of `1 ` and `2 ` entries whose code marks
/// the index or the worktree as changed. So output without entry lines
/// gives a clean status, and output without a `# branch.head ` line gives
/// none.
pub proof fn lemma_counts_follow_lines(s: Seq<char>)
    ensures
        status_of(s) matches Some(v) ==> {
            &&& v.untracked == count_lines(s, 0, "? "@)
            &&& v.conflicts == count_lines(s, 0, "u "@)
            &&& v.staged == count_staged_lines(s, 0)
            &&& v.changed == count_changed_lines(s, 0)
        },
        count_lines(s, 0, "# branch.head "@) == 0 ==> status_of(s) is None,
{
    lemma_scan_counts(s, 0, empty_scan());
}

/// A line that starts with none of the prefixes the parser knows.
pub open spec fn is_plain_line(line: Seq<char>) -> bool {
    &&& !starts_with(line, "# branch.head "@)
    &&& !starts_with(line, "# branch.oid "@)
    &&& !starts_with(line, "# branch.ab "@)
    &&& !starts_with(line, "? "@)
    &&& !starts_with(line, "1 "@)
    &&& !starts_with(line, "2 "@)
    &&& !starts_with(line, "u "@)
}

proof fn lemma_line_end_in_prefix(s: Seq<char>, r: Seq<char>, i: int)
    requires
        0 <= i < s.len(),
        s.last() == '\n',
    ensures
        line_end(s + r, i) == line_end(s, i),
    decreases s.len() - i,
{
    assert((s + r)[i] == s[i]);
    if s[i] != '\n' {
        assert(i != s.len() - 1);
        lemma_line_end_in_prefix(s, r, i + 1);
    }
}

pub proof fn lemma_scan_extends(s: Seq<char>, r: Seq<char>, i: int, st: StatusScan)
    requires
        0 <= i <= s.len(),
        s.len() == 0 || s.last() == '\n',
    ensures
        scan_from(s + r, i, st) == match scan_from(s, i, st) {
            Some(x) => scan_from(s + r, s.len() as int, x),
            None => None,
        },
    decreases s.len() - i,
{
    if i < s.len() {
        let t = s + r;
        lemma_line_end(s, i);
        lemma_line_end_in_prefix(s, r, i);
        let e = line_end(s, i);
        assert(e < s.len()) by {
            if e == s.len() {
                assert(s[s.len() - 1] != '\n');
            }
        }
        assert(t.subrange(i, e) =~= s.subrange(i, e));
        assert(line_at(t, i) == line_at(s, i));
        match step(st, line_at(s, i)) {
            Some(next) => {
                lemma_scan_extends(s, r, e + 1, next);
            },
            None => {},
        }
    }
}

pub proof fn lemma_plain_prefix(line: Seq<char>, p: Seq<char>)
    requires
        line.len() > 0,
        starts_with(line.drop_last(), p),
    ensures
        starts_with(line, p),
{
    assert(line.take(p.len() as int) =~= line.drop_last().take(p.len() as int));
}

/// A line that starts with none of the known prefixes changes nothing:
/// appending it to output that is empty or ends with a newline gives the
/// same status.
pub proof fn lemma_plain_line_changes_nothing(s: Seq<char>, line: Seq<char>)
    requires
        s.len() == 0 || s.last() == '\n',
        forall|k: int| 0 <= k < line.len() ==> line[k] != '\n',
        is_plain_line(line),
    ensures
        status_of(s + line + seq!['\n']) == status_of(s),
{
    let r = line + seq!['\n'];
    let t = s + r;
    assert(t =~= s + line + seq!['\n']);
    lemma_scan_extends(s, r, 0, empty_scan());
    let n = s.len() as int;
    let e = n + line.len();
    match scan_from(s, 0, empty_scan()) {
        Some(x) => {
            lemma_line_end(t, n);
            assert(t[e] == '\n');
            assert forall|k: int| n <= k < e implies t[k] != '\n' by {
                assert(t[k] == line[k - n]);
            }
            assert(line_end(t, n) == e);
            assert(t.subrange(n, e) =~= line);
            let l2 = line_at(t, n);
            if line.len() > 0 && line.last() == '\r' {
                assert(l2 == line.drop_last());
                if starts_with(l2, "# branch.head "@) { lemma_plain_prefix(line, "# branch.head "@); }
                if starts_with(l2, "# branch.oid "@) { lemma_plain_prefix(line, "# branch.oid "@); }
                if starts_with(l2, "# branch.ab "@) { lemma_plain_prefix(line, "# branch.ab "@); }
                if starts_with(l2, "? "@) { lemma_plain_prefix(line, "? "@); }
                if starts_with(l2, "1 "@) { lemma_plain_prefix(line, "1 "@); }
                if starts_with(l2, "2 "@) { lemma_plain_prefix(line, "2 "@); }
                if starts_with(l2, "u "@) { lemma_plain_prefix(line, "u "@); }
            } else {
                assert(l2 == line);
            }
            assert(step(x, l2) == Some(x));
            assert(scan_from(t, e + 1, x) == Some(x));
            assert(scan_from(t, n, x) == Some(x));
        },
        None => {},
    }
}

} // verus!
