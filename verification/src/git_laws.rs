//! Laws of the status parser, stated over the characters of the output.

use vstd::prelude::*;

use crate::git::{
    lemma_line_end, lemma_plain_prefix, lemma_prefix_heads, lemma_scan_extends, line_at, line_end,
    empty_scan, scan_from, status_of, step, StatusView,
};
use crate::git::{count_lines, head_is_detached, lemma_scan_counts, report_fits, StatusReport};
use crate::git::{short_head_label};
use crate::text::{lemma_trim_removes_end_whitespace, trim};
use crate::git::{ab_scan, lemma_width_grows, next_non_space, next_space};
use crate::text::{utf8_width, all_digits, decimal, is_digit, is_space, lemma_decimal_digits, lemma_decimal_parses_back, parse_usize, starts_with};

verus! {

/// Status output that is empty or ends with a newline: another line can be
/// appended to it.
pub open spec fn ends_line(s: Seq<char>) -> bool {
    s.len() == 0 || s.last() == '\n'
}

/// A line body: no newline, and no carriage return at its end.
pub open spec fn is_line_body(line: Seq<char>) -> bool {
    &&& forall|k: int| 0 <= k < line.len() ==> line[k] != '\n'
    &&& line.len() == 0 || line.last() != '\r'
}

/// Appending a line runs the parser one more step on that line.
pub proof fn lemma_append_line(s: Seq<char>, line: Seq<char>)
    requires
        ends_line(s),
        is_line_body(line),
    ensures
        scan_from(s + line + seq!['\n'], 0, empty_scan()) == match scan_from(s, 0, empty_scan()) {
            Some(x) => step(x, line),
            None => None,
        },
{
    let r = line + seq!['\n'];
    let t = s + r;
    assert(t =~= s + line + seq!['\n']);
    lemma_scan_extends(s, r, 0, empty_scan());
    let n = s.len() as int;
    let e = n + line.len();
    match scan_from(s, 0, empty_scan()) {
        Some(x) => {
            lemma_line_end(t, n);
            assert(t[e] == '\n');
            assert forall|k: int| n <= k < e implies t[k] != '\n' by {
                assert(t[k] == line[k - n]);
            }
            assert(line_end(t, n) == e);
            assert(t.subrange(n, e) =~= line);
            assert(line_at(t, n) == line);
            match step(x, line) {
                Some(y) => {
                    assert(scan_from(t, e + 1, y) == Some(y));
                },
                None => {},
            }
        },
        None => {},
    }
}


/// 1 when a half of a status code marks a change (anything but `.` or a
/// blank), 0 otherwise.
pub open spec fn marks_change(c: char) -> nat {
    if c == '.' || c == ' ' {
        0
    } else {
        1
    }
}

/// An ordinary (`1 XY ...`) or renamed (`2 XY ...`) entry counts one
/// staged file exactly when X is not `.` or a blank, and one changed file
/// exactly when Y is not; nothing else changes.
pub proof fn lemma_entry_counts_index_and_worktree(
    s: Seq<char>,
    kind: char,
    x: char,
    y: char,
    rest: Seq<char>,
)
    requires
        ends_line(s),
        kind == '1' || kind == '2',
        !is_space(x),
        !is_space(y),
        (x as u32) < 0x80,
        rest.len() == 0 || is_space(rest[0]),
        is_line_body(rest),
        y != '\n',
    ensures
        status_of(s + seq![kind, ' ', x, y] + rest + seq!['\n']) == match status_of(s) {
            Some(v) => Some(
                StatusView {
                    staged: v.staged + marks_change(x),
                    changed: v.changed + marks_change(y),
                    ..v
                },
            ),
            None => None,
        },
{
    let line = seq![kind, ' ', x, y] + rest;
    assert(is_line_body(line)) by {
        assert forall|k: int| 0 <= k < line.len() implies line[k] != '\n' by {
            if k >= 4 {
                assert(line[k] == rest[k - 4]);
            }
        }
        if rest.len() > 0 {
            assert(line.last() == rest.last());
        }
    }
    assert(s + line + seq!['\n'] =~= s + seq![kind, ' ', x, y] + rest + seq!['\n']);
    lemma_append_line(s, line);
    lemma_prefix_heads(line);
    reveal_strlit("1 ");
    reveal_strlit("2 ");
    if kind == '1' {
        assert(line.take(2) =~= "1 "@);
    } else {
        assert(line.take(2) =~= "2 "@);
        assert(line.take(2)[0] != "1 "@[0]);
    }
    let w = line.skip(2);
    assert(w =~= seq![x, y] + rest);
    assert(w[0] == x && w[1] == y);
    assert(crate::git::next_non_space(w, 0) == 0);
    assert(crate::git::next_space(w, 2) == 2);
    assert(crate::git::next_space(w, 1) == 2);
    assert(crate::git::next_space(w, 0) == 2);
    assert(w.subrange(0, 2) =~= seq![x, y]);
    assert(crate::git::first_word(w) == Some(seq![x, y]));
    assert(crate::git::entry_code(line) == Some(seq![x, y]));
    assert(seq![x, y][0] == x);
    assert(seq![x, y][1] == y);
    assert((seq![x] == seq!['.']) == (x == '.')) by {
        if seq![x] == seq!['.'] {
            assert(seq![x][0] == seq!['.'][0]);
        }
        if x == '.' {
            assert(seq![x] =~= seq!['.']);
        }
    }
    assert((seq![x] == seq![' ']) == (x == ' ')) by {
        if seq![x] == seq![' '] {
            assert(seq![x][0] == seq![' '][0]);
        }
        if x == ' ' {
            assert(seq![x] =~= seq![' ']);
        }
    }
    assert((seq![y] == seq!['.']) == (y == '.')) by {
        if seq![y] == seq!['.'] {
            assert(seq![y][0] == seq!['.'][0]);
        }
        if y == '.' {
            assert(seq![y] =~= seq!['.']);
        }
    }
    assert((seq![y] == seq![' ']) == (y == ' ')) by {
        if seq![y] == seq![' '] {
            assert(seq![y][0] == seq![' '][0]);
        }
        if y == ' ' {
            assert(seq![y] =~= seq![' ']);
        }
    }
}


/// A `? ` line counts one more untracked file and changes nothing else.
pub proof fn lemma_untracked_line_counts(s: Seq<char>, rest: Seq<char>)
    requires
        ends_line(s),
        is_line_body(seq!['?', ' '] + rest),
    ensures
        status_of(s + seq!['?', ' '] + rest + seq!['\n']) == match status_of(s) {
            Some(v) => Some(StatusView { untracked: v.untracked + 1, ..v }),
            None => None,
        },
{
    let line = seq!['?', ' '] + rest;
    assert(s + line + seq!['\n'] =~= s + seq!['?', ' '] + rest + seq!['\n']);
    lemma_append_line(s, line);
    lemma_prefix_heads(line);
    reveal_strlit("? ");
    assert(line.take(2) =~= "? "@);
}

/// A `u ` line counts one more conflict and changes nothing else.
pub proof fn lemma_conflict_line_counts(s: Seq<char>, rest: Seq<char>)
    requires
        ends_line(s),
        is_line_body(seq!['u', ' '] + rest),
    ensures
        status_of(s + seq!['u', ' '] + rest + seq!['\n']) == match status_of(s) {
            Some(v) => Some(StatusView { conflicts: v.conflicts + 1, ..v }),
            None => None,
        },
{
    let line = seq!['u', ' '] + rest;
    assert(s + line + seq!['\n'] =~= s + seq!['u', ' '] + rest + seq!['\n']);
    lemma_append_line(s, line);
    lemma_prefix_heads(line);
    reveal_strlit("u ");
    assert(line.take(2) =~= "u "@);
}

/// A `# branch.head NAME` line, for a name other than `(detached)`, makes
/// the branch label NAME whatever came before (the object id included),
/// keeping the counts gathered so far.
pub proof fn lemma_head_line_names_branch(s: Seq<char>, name: Seq<char>)
    requires
        ends_line(s),
        is_line_body("# branch.head "@ + name),
        name != "(detached)"@,
    ensures
        status_of(s + "# branch.head "@ + name + seq!['\n']) == match scan_from(s, 0, empty_scan()) {
            Some(x) => Some(
                StatusView {
                    branch: name,
                    ahead: x.ahead,
                    behind: x.behind,
                    staged: x.staged,
                    conflicts: x.conflicts,
                    changed: x.changed,
                    untracked: x.untracked,
                },
            ),
            None => None,
        },
{
    let line = "# branch.head "@ + name;
    assert(s + line + seq!['\n'] =~= s + "# branch.head "@ + name + seq!['\n']);
    lemma_append_line(s, line);
    assert(line.take("# branch.head "@.len() as int) =~= "# branch.head "@);
    assert(line.skip("# branch.head "@.len() as int) =~= name);
}


/// When the last `# branch.head ` line names anything but `(detached)`, a
/// usable status is reported as on a branch, never as a detached head,
/// whatever the `# branch.oid ` line holds, and its label is that name.
pub proof fn lemma_named_head_reports_ready(
    s: Seq<char>,
    name: Seq<char>,
    rest: Seq<char>,
    r: StatusReport,
)
    requires
        ends_line(s),
        is_line_body("# branch.head "@ + name),
        name != "(detached)"@,
        count_lines(
            s + "# branch.head "@ + name + seq!['\n'] + rest,
            (s.len() + "# branch.head "@.len() + name.len() + 1) as int,
            "# branch.head "@,
        ) == 0,
        report_fits(r, s + "# branch.head "@ + name + seq!['\n'] + rest),
    ensures
        status_of(s + "# branch.head "@ + name + seq!['\n'] + rest) is Some ==> (r matches StatusReport::Ready(
            st,
        ) && st.branch@ == name),
{
    let line = "# branch.head "@ + name;
    let s1 = s + line + seq!['\n'];
    let t = s1 + rest;
    assert(s1 =~= s + "# branch.head "@ + name + seq!['\n']);
    assert(t =~= s + "# branch.head "@ + name + seq!['\n'] + rest);
    lemma_append_line(s, line);
    assert(line.take("# branch.head "@.len() as int) =~= "# branch.head "@);
    assert(line.skip("# branch.head "@.len() as int) =~= name);
    lemma_scan_extends(s1, rest, 0, empty_scan());
    match scan_from(s1, 0, empty_scan()) {
        Some(x) => {
            assert(x.head == Some(name));
            assert(s1.len() == s.len() + "# branch.head "@.len() + name.len() + 1);
            lemma_scan_counts(t, s1.len() as int, x);
            assert(!head_is_detached(t));
        },
        None => {},
    }
}

/// A detached head is reported with a label that starts with `:`.
pub proof fn lemma_detached_report_label(r: StatusReport, text: Seq<char>)
    requires
        report_fits(r, text),
    ensures
        r matches StatusReport::Detached(st) ==> st.branch@.len() > 0 && st.branch@[0] == ':',
{
}


proof fn lemma_next_space_run(t: Seq<char>, i: int, j: int)
    requires
        0 <= i <= j <= t.len(),
        forall|k: int| i <= k < j ==> !is_space(#[trigger] t[k]),
        j == t.len() || is_space(t[j]),
    ensures
        next_space(t, i) == j,
    decreases j - i,
{
    if i < j {
        lemma_next_space_run(t, i + 1, j);
    }
}

proof fn lemma_digit_not_space(c: char)
    requires
        is_digit(c),
    ensures
        !is_space(c),
{
}

/// A `# branch.ab +A -B` line sets the ahead count to A and the behind
/// count to B (written in decimal) and changes nothing else.
#[verifier::spinoff_prover]
#[verifier::rlimit(50)]
pub proof fn lemma_ab_line_sets_tracking(s: Seq<char>, a: nat, b: nat)
    requires
        ends_line(s),
        a <= usize::MAX,
        b <= usize::MAX,
    ensures
        status_of(s + "# branch.ab "@ + seq!['+'] + decimal(a) + seq![' ', '-'] + decimal(b) + seq!['\n'])
            == match status_of(s) {
            Some(v) => Some(StatusView { ahead: a, behind: b, ..v }),
            None => None,
        },
{
    let da = decimal(a);
    let db = decimal(b);
    let w = seq!['+'] + da + seq![' ', '-'] + db;
    let line = "# branch.ab "@ + w;
    assert(s + line + seq!['\n'] =~= s + "# branch.ab "@ + seq!['+'] + decimal(a) + seq![' ', '-'] + decimal(b)
        + seq!['\n']);
    lemma_decimal_digits(a);
    lemma_decimal_digits(b);
    lemma_decimal_parses_back(a);
    lemma_decimal_parses_back(b);
    reveal_strlit("# branch.ab ");
    reveal_strlit("# branch.head ");
    reveal_strlit("# branch.oid ");
    assert forall|k: int| 0 <= k < line.len() implies line[k] != '\n' by {
        if k >= 12 {
            assert(line[k] == w[k - 12]);
            if 1 <= k - 12 < 1 + da.len() {
                assert(w[k - 12] == da[k - 13]);
                assert(is_digit(da[k - 13]));
            } else if k - 12 >= 3 + da.len() {
                assert(w[k - 12] == db[k - 15 - da.len()]);
                assert(is_digit(db[k - 15 - da.len()]));
            }
        }
    }
    assert(line.last() == db.last());
    assert(is_digit(db[db.len() - 1]));
    lemma_append_line(s, line);
    assert(line.take(12) =~= "# branch.ab "@);
    assert(line[9] == 'a');
    assert(line.take(14)[9] != "# branch.head "@[9]);
    assert(line.take(13)[9] != "# branch.oid "@[9]);
    assert(line.skip(12) =~= w);
    let p = (1 + da.len()) as int;
    let n = w.len() as int;
    assert forall|k: int| 0 <= k < p implies !is_space(#[trigger] w[k]) by {
        if k >= 1 {
            assert(w[k] == da[k - 1]);
            assert(is_digit(da[k - 1]));
        }
    }
    lemma_next_space_run(w, 0, p);
    assert(next_non_space(w, 0) == 0);
    assert(w.subrange(0, p).drop_first() =~= da);
    assert(w.subrange(0, p)[0] == '+');
    assert(w[p] == ' ');
    assert(w[p + 1] == '-');
    assert(next_non_space(w, p + 1) == p + 1);
    assert(next_non_space(w, p) == p + 1);
    assert forall|k: int| p + 1 <= k < n implies !is_space(#[trigger] w[k]) by {
        if k >= p + 2 {
            assert(w[k] == db[k - p - 2]);
            assert(is_digit(db[k - p - 2]));
        }
    }
    lemma_next_space_run(w, p + 1, n);
    assert(w.subrange(p + 1, n).drop_first() =~= db);
    assert(w.subrange(p + 1, n)[0] == '-');
    assert(next_non_space(w, n) == n);
    match scan_from(s, 0, empty_scan()) {
        Some(x) => {
            assert(ab_scan(w, n, a, b) == Some((a, b)));
            assert(ab_scan(w, p, a, x.behind) == Some((a, b)));
            assert(ab_scan(w, 0, x.ahead, x.behind) == Some((a, b)));
        },
        None => {},
    }
}


proof fn lemma_ascii_width(s: Seq<char>, k: int)
    requires
        0 <= k <= s.len(),
        forall|i: int| 0 <= i < s.len() ==> (#[trigger] s[i] as u32) < 0x80,
    ensures
        utf8_width(s.take(k)) == k,
    decreases k,
{
    if k > 0 {
        assert(s.take(k).drop_last() =~= s.take(k - 1));
        lemma_ascii_width(s, k - 1);
    }
}

/// A detached head whose object id is ASCII is labelled `:` and the first
/// seven characters of the id; an id shorter than that, or `(initial)`,
/// gives no status.
pub proof fn lemma_detached_head_label(s: Seq<char>, oid: Seq<char>)
    requires
        ends_line(s),
        forall|i: int| 0 <= i < oid.len() ==> (#[trigger] oid[i] as u32) < 0x80 && oid[i] != '\n',
        oid.len() == 0 || oid.last() != '\r',
    ensures
        status_of(s + "# branch.oid "@ + oid + seq!['\n'] + "# branch.head "@ + "(detached)"@ + seq!['\n'])
            == match scan_from(s, 0, empty_scan()) {
            Some(x) => if oid.len() >= 7 && oid != "(initial)"@ {
                Some(
                    StatusView {
                        branch: seq![':'] + oid.take(7),
                        ahead: x.ahead,
                        behind: x.behind,
                        staged: x.staged,
                        conflicts: x.conflicts,
                        changed: x.changed,
                        untracked: x.untracked,
                    },
                )
            } else {
                None
            },
            None => None,
        },
{
    reveal_strlit("# branch.oid ");
    reveal_strlit("# branch.head ");
    reveal_strlit("(detached)");
    let l1 = "# branch.oid "@ + oid;
    let l2 = "# branch.head "@ + "(detached)"@;
    let s1 = s + l1 + seq!['\n'];
    assert forall|k: int| 0 <= k < l1.len() implies l1[k] != '\n' by {
        if k >= 13 {
            assert(l1[k] == oid[k - 13]);
        }
    }
    if oid.len() > 0 {
        assert(l1.last() == oid.last());
    }
    lemma_append_line(s, l1);
    assert(l1.take(13) =~= "# branch.oid "@);
    assert(l1.take(14)[9] != "# branch.head "@[9] || l1.len() < 14);
    assert(l1.skip(13) =~= oid);
    lemma_append_line(s1, l2);
    assert(l2.take(14) =~= "# branch.head "@);
    assert(l2.skip(14) =~= "(detached)"@);
    assert(s1 + l2 + seq!['\n'] =~= s + "# branch.oid "@ + oid + seq!['\n'] + "# branch.head "@ + "(detached)"@
        + seq!['\n']);
    lemma_ascii_width(oid, oid.len() as int);
    assert(oid.take(oid.len() as int) =~= oid);
    if oid.len() >= 7 {
        lemma_ascii_width(oid, 7);
        let c = choose|k: int| 0 <= k <= oid.len() && #[trigger] utf8_width(oid.take(k)) == 7;
        assert(0 <= c <= oid.len() && utf8_width(oid.take(c)) == 7);
        if c < 7 {
            lemma_width_grows(oid, c, 7);
        } else if c > 7 {
            lemma_width_grows(oid, 7, c);
        }
    }
}


/// The short id printed by `git rev-parse --short HEAD` becomes the label
/// `:` and the id, with the whitespace around it (the newline) dropped; a
/// failed run, or one that printed only whitespace, gives no label.
pub proof fn lemma_short_head_label(pre: Seq<char>, id: Seq<char>, post: Seq<char>)
    requires
        forall|k: int| 0 <= k < pre.len() ==> is_space(#[trigger] pre[k]),
        forall|k: int| 0 <= k < post.len() ==> is_space(#[trigger] post[k]),
    ensures
        id.len() > 0 && !is_space(id[0]) && !is_space(id.last()) ==> short_head_label(true, pre + id + post)
            == Some(seq![':'] + id),
        short_head_label(true, pre + post) is None,
        short_head_label(false, pre + id + post) is None,
{
    let text = pre + id + post;
    lemma_trim_removes_end_whitespace(text);
    let (a, b) = choose|a: int, b: int|
        {
            &&& 0 <= a <= b <= text.len()
            &&& trim(text) == text.subrange(a, b)
            &&& forall|k: int| 0 <= k < a ==> is_space(#[trigger] text[k])
            &&& forall|k: int| b <= k < text.len() ==> is_space(#[trigger] text[k])
            &&& a < b ==> !is_space(text[a]) && !is_space(text[b - 1])
        };
    let p = pre.len() as int;
    let q = p + id.len();
    if id.len() > 0 && !is_space(id[0]) && !is_space(id.last()) {
        assert(text[p] == id[0]);
        assert(text[q - 1] == id[id.len() - 1]);
        assert(a <= p) by {
            if a > p {
                assert(is_space(text[p]));
            }
        }
        assert(b >= q) by {
            if b < q {
                assert(is_space(text[q - 1]));
            }
        }
        assert(a < b);
        assert(a == p) by {
            if a < p {
                assert(text[a] == pre[a]);
            }
        }
        assert(b == q) by {
            if b > q {
                assert(text[b - 1] == post[b - 1 - q]);
            }
        }
        assert(text.subrange(a, b) =~= id);
    }
    let t2 = pre + post;
    lemma_trim_removes_end_whitespace(t2);
    let (a2, b2) = choose|a: int, b: int|
        {
            &&& 0 <= a <= b <= t2.len()
            &&& trim(t2) == t2.subrange(a, b)
            &&& forall|k: int| 0 <= k < a ==> is_space(#[trigger] t2[k])
            &&& forall|k: int| b <= k < t2.len() ==> is_space(#[trigger] t2[k])
            &&& a < b ==> !is_space(t2[a]) && !is_space(t2[b - 1])
        };
    if a2 < b2 {
        if a2 < p {
            assert(t2[a2] == pre[a2]);
        } else {
            assert(t2[a2] == post[a2 - p]);
        }
    }
}

/// A line ended by `\r\n` reads the same as one ended by `\n`.
pub proof fn lemma_crlf_same_as_lf(s: Seq<char>, line: Seq<char>)
    requires
        ends_line(s),
        is_line_body(line),
    ensures
        status_of(s + line + seq!['\r', '\n']) == status_of(s + line + seq!['\n']),
{
    let r = line + seq!['\r', '\n'];
    let t = s + r;
    assert(t =~= s + line + seq!['\r', '\n']);
    lemma_scan_extends(s, r, 0, empty_scan());
    lemma_append_line(s, line);
    let n = s.len() as int;
    let e = n + line.len() + 1;
    match scan_from(s, 0, empty_scan()) {
        Some(x) => {
            lemma_line_end(t, n);
            assert(t[e] == '\n');
            assert(t[e - 1] == '\r');
            assert forall|k: int| n <= k < e implies t[k] != '\n' by {
                if k < e - 1 {
                    assert(t[k] == line[k - n]);
                }
            }
            assert(line_end(t, n) == e);
            assert(t.subrange(n, e).drop_last() =~= line);
            assert(line_at(t, n) == line);
            match step(x, line) {
                Some(y) => {
                    assert(scan_from(t, e + 1, y) == Some(y));
                },
                None => {},
            }
        },
        None => {},
    }
}

} // verus!
