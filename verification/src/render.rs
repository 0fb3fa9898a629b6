//! The prompt theme and the rendering of a status as a prompt segment.

use vstd::prelude::*;
use vstd::string::StringExecFns;

use crate::git::{GitStatus, StatusView};
use crate::text::{decimal, lemma_decimal_digits, push_decimal, str_eq};

verus! {

broadcast use vstd::string::group_string_axioms;

/// The strings a prompt segment is assembled from.
#[derive(Debug, Clone, PartialEq, Eq)]
pub struct PromptTheme {
    pub prefix: String,
    pub suffix: String,
    pub separator: String,
    pub branch: String,
    pub staged: String,
    pub conflicts: String,
    pub changed: String,
    pub behind: String,
    pub ahead: String,
    pub untracked: String,
    pub clean: String,
    pub reset: String,
}

/// The mathematical value of a [`PromptTheme`].
pub struct ThemeView {
    pub prefix: Seq<char>,
    pub suffix: Seq<char>,
    pub separator: Seq<char>,
    pub branch: Seq<char>,
    pub staged: Seq<char>,
    pub conflicts: Seq<char>,
    pub changed: Seq<char>,
    pub behind: Seq<char>,
    pub ahead: Seq<char>,
    pub untracked: Seq<char>,
    pub clean: Seq<char>,
    pub reset: Seq<char>,
}

impl View for PromptTheme {
    type V = ThemeView;

    open spec fn view(&self) -> ThemeView {
        ThemeView {
            prefix: self.prefix@,
            suffix: self.suffix@,
            separator: self.separator@,
            branch: self.branch@,
            staged: self.staged@,
            conflicts: self.conflicts@,
            changed: self.changed@,
            behind: self.behind@,
            ahead: self.ahead@,
            untracked: self.untracked@,
            clean: self.clean@,
            reset: self.reset@,
        }
    }
}

/// The theme of `zsh-git-prompt`'s `git_super_status`.
pub open spec fn default_theme() -> ThemeView {
    ThemeView {
        prefix: "("@,
        suffix: ")"@,
        separator: "|"@,
        branch: "%{$fg_bold[magenta]%}"@,
        staged: "%{$fg[red]%}%{●%G%}"@,
        conflicts: "%{$fg[red]%}%{✖%G%}"@,
        changed: "%{$fg[blue]%}%{✚%G%}"@,
        behind: "%{↓%G%}"@,
        ahead: "%{↑%G%}"@,
        untracked: "%{…%G%}"@,
        clean: "%{$fg_bold[green]%}%{✔%G%}"@,
        reset: "%{${reset_color}%}"@,
    }
}

impl Default for PromptTheme {
    fn default() -> (theme: Self)
        ensures
            theme@ == default_theme(),
            theme.prefix@ == "("@,
            theme.suffix@ == ")"@,
            theme.separator@ == "|"@,
            theme.branch@ == "%{$fg_bold[magenta]%}"@,
            theme.staged@ == "%{$fg[red]%}%{●%G%}"@,
            theme.conflicts@ == "%{$fg[red]%}%{✖%G%}"@,
            theme.changed@ == "%{$fg[blue]%}%{✚%G%}"@,
            theme.behind@ == "%{↓%G%}"@,
            theme.ahead@ == "%{↑%G%}"@,
            theme.untracked@ == "%{…%G%}"@,
            theme.clean@ == "%{$fg_bold[green]%}%{✔%G%}"@,
            theme.reset@ == "%{${reset_color}%}"@,
    {
        PromptTheme {
            prefix: "(".to_owned(),
            suffix: ")".to_owned(),
            separator: "|".to_owned(),
            branch: "%{$fg_bold[magenta]%}".to_owned(),
            staged: "%{$fg[red]%}%{●%G%}".to_owned(),
            conflicts: "%{$fg[red]%}%{✖%G%}".to_owned(),
            changed: "%{$fg[blue]%}%{✚%G%}".to_owned(),
            behind: "%{↓%G%}".to_owned(),
            ahead: "%{↑%G%}".to_owned(),
            untracked: "%{…%G%}".to_owned(),
            clean: "%{$fg_bold[green]%}%{✔%G%}".to_owned(),
            reset: "%{${reset_color}%}".to_owned(),
        }
    }
}

/// The value of the last entry of `vars` whose name is `key`.
pub open spec fn env_lookup(vars: Seq<(String, String)>, key: Seq<char>) -> Option<Seq<char>>
    decreases vars.len(),
{
    if vars.len() == 0 {
        None
    } else if vars.last().0@ == key {
        Some(vars.last().1@)
    } else {
        env_lookup(vars.drop_last(), key)
    }
}

/// `value`, unless `vars` sets `key`.
pub open spec fn overridden(value: Seq<char>, vars: Seq<(String, String)>, key: Seq<char>) -> Seq<char> {
    match env_lookup(vars, key) {
        Some(v) => v,
        None => value,
    }
}

/// The default theme with the `ZSH_THEME_GIT_PROMPT_*` settings of `vars`
/// applied; the reset string is not configurable.
pub open spec fn themed(vars: Seq<(String, String)>) -> ThemeView {
    let d = default_theme();
    ThemeView {
        prefix: overridden(d.prefix, vars, "ZSH_THEME_GIT_PROMPT_PREFIX"@),
        suffix: overridden(d.suffix, vars, "ZSH_THEME_GIT_PROMPT_SUFFIX"@),
        separator: overridden(d.separator, vars, "ZSH_THEME_GIT_PROMPT_SEPARATOR"@),
        branch: overridden(d.branch, vars, "ZSH_THEME_GIT_PROMPT_BRANCH"@),
        staged: overridden(d.staged, vars, "ZSH_THEME_GIT_PROMPT_STAGED"@),
        conflicts: overridden(d.conflicts, vars, "ZSH_THEME_GIT_PROMPT_CONFLICTS"@),
        changed: overridden(d.changed, vars, "ZSH_THEME_GIT_PROMPT_CHANGED"@),
        behind: overridden(d.behind, vars, "ZSH_THEME_GIT_PROMPT_BEHIND"@),
        ahead: overridden(d.ahead, vars, "ZSH_THEME_GIT_PROMPT_AHEAD"@),
        untracked: overridden(d.untracked, vars, "ZSH_THEME_GIT_PROMPT_UNTRACKED"@),
        clean: overridden(d.clean, vars, "ZSH_THEME_GIT_PROMPT_CLEAN"@),
        reset: d.reset,
    }
}

/// Replaces `field` with the value that `vars` gives `key`, if any.
pub fn apply_override(field: &mut String, vars: &Vec<(String, String)>, key: &str)
    ensures
        final(field)@ == overridden(old(field)@, vars@, key@),
        env_lookup(vars@, key@) matches Some(v) ==> final(field)@ == v,
        env_lookup(vars@, key@) is None ==> final(field)@ == old(field)@,
{
    let mut i = vars.len();
    assert(vars@.take(i as int) =~= vars@);
    while i > 0
        invariant
            i <= vars@.len(),
            env_lookup(vars@, key@) == env_lookup(vars@.take(i as int), key@),
            *field == *old(field),
        decreases i,
    {
        assert(vars@.take(i as int).drop_last() =~= vars@.take(i - 1));
        assert(vars@.take(i as int).last() == vars@[i - 1]);
        if str_eq(vars[i - 1].0.as_str(), key) {
            *field = vars[i - 1].1.clone();
            return;
        }
        i = i - 1;
    }
}

impl PromptTheme {
    /// The theme that the environment `vars` selects: each
    /// `ZSH_THEME_GIT_PROMPT_*` variable replaces the matching default, the
    /// last entry winning when a name repeats.
    pub fn from_env(vars: &Vec<(String, String)>) -> (theme: PromptTheme)
        ensures
            theme@ == themed(vars@),
    {
        let mut theme = Self::default();
        apply_override(&mut theme.prefix, vars, "ZSH_THEME_GIT_PROMPT_PREFIX");
        apply_override(&mut theme.suffix, vars, "ZSH_THEME_GIT_PROMPT_SUFFIX");
        apply_override(&mut theme.separator, vars, "ZSH_THEME_GIT_PROMPT_SEPARATOR");
        apply_override(&mut theme.branch, vars, "ZSH_THEME_GIT_PROMPT_BRANCH");
        apply_override(&mut theme.staged, vars, "ZSH_THEME_GIT_PROMPT_STAGED");
        apply_override(&mut theme.conflicts, vars, "ZSH_THEME_GIT_PROMPT_CONFLICTS");
        apply_override(&mut theme.changed, vars, "ZSH_THEME_GIT_PROMPT_CHANGED");
        apply_override(&mut theme.behind, vars, "ZSH_THEME_GIT_PROMPT_BEHIND");
        apply_override(&mut theme.ahead, vars, "ZSH_THEME_GIT_PROMPT_AHEAD");
        apply_override(&mut theme.untracked, vars, "ZSH_THEME_GIT_PROMPT_UNTRACKED");
        apply_override(&mut theme.clean, vars, "ZSH_THEME_GIT_PROMPT_CLEAN");
        theme
    }
}


/// `marker`, the count and `reset` when the count is not zero; nothing
/// otherwise.
pub open spec fn count_part(marker: Seq<char>, n: nat, reset: Seq<char>) -> Seq<char> {
    if n > 0 {
        marker + decimal(n) + reset
    } else {
        seq![]
    }
}

/// No staged, conflicted, changed or untracked files.
pub open spec fn is_clean(s: StatusView) -> bool {
    s.staged == 0 && s.conflicts == 0 && s.changed == 0 && s.untracked == 0
}

/// The branch part: prefix, branch marker, branch label and reset.
pub open spec fn branch_part(s: StatusView, t: ThemeView) -> Seq<char> {
    t.prefix + t.branch + s.branch + t.reset
}

/// The tracking part: behind count, then ahead count, each when not zero.
pub open spec fn tracking_part(s: StatusView, t: ThemeView) -> Seq<char> {
    count_part(t.behind, s.behind, t.reset) + count_part(t.ahead, s.ahead, t.reset)
}

/// The local part: staged, conflict and changed counts when not zero, the
/// untracked marker when there are untracked files, and the clean marker
/// when there is nothing else to show.
pub open spec fn local_part(s: StatusView, t: ThemeView) -> Seq<char> {
    count_part(t.staged, s.staged, t.reset) + count_part(t.conflicts, s.conflicts, t.reset)
        + count_part(t.changed, s.changed, t.reset) + (if s.untracked > 0 {
        t.untracked + t.reset
    } else {
        seq![]
    }) + (if is_clean(s) {
        t.clean
    } else {
        seq![]
    })
}

/// The prompt segment for `s` in the theme `t`:
/// `(<branch><tracking>|<local status>)`, closed by a reset.
pub open spec fn segment(s: StatusView, t: ThemeView) -> Seq<char> {
    branch_part(s, t) + tracking_part(s, t) + t.separator + local_part(s, t) + t.reset + t.suffix
}

/// Appends [`count_part`] to `out`.
fn push_count(out: &mut String, marker: &String, n: usize, reset: &String)
    ensures
        final(out)@ == old(out)@ + count_part(marker@, n as nat, reset@),
{
    if n > 0 {
        out.append(marker.as_str());
        push_decimal(out, n);
        out.append(reset.as_str());
        assert(final(out)@ =~= old(out)@ + count_part(marker@, n as nat, reset@));
    } else {
        assert(old(out)@ + count_part(marker@, n as nat, reset@) =~= old(out)@);
    }
}

/// Renders `status` as a prompt segment in `theme` (see [`segment`]).
pub fn render(status: &GitStatus, theme: &PromptTheme) -> (out: String)
    ensures
        out@ == segment(status@, theme@),
{
    let mut out = String::new();
    out.append(theme.prefix.as_str());
    out.append(theme.branch.as_str());
    out.append(status.branch.as_str());
    out.append(theme.reset.as_str());
    assert(out@ =~= branch_part(status@, theme@));
    push_count(&mut out, &theme.behind, status.behind, &theme.reset);
    push_count(&mut out, &theme.ahead, status.ahead, &theme.reset);
    assert(out@ =~= branch_part(status@, theme@) + tracking_part(status@, theme@));
    out.append(theme.separator.as_str());
    let ghost local_start = out@;
    push_count(&mut out, &theme.staged, status.staged, &theme.reset);
    push_count(&mut out, &theme.conflicts, status.conflicts, &theme.reset);
    push_count(&mut out, &theme.changed, status.changed, &theme.reset);
    if status.untracked > 0 {
        out.append(theme.untracked.as_str());
        out.append(theme.reset.as_str());
    }
    if status.staged == 0 && status.conflicts == 0 && status.changed == 0 && status.untracked == 0 {
        out.append(theme.clean.as_str());
    }
    assert(out@ =~= local_start + local_part(status@, theme@));
    out.append(theme.reset.as_str());
    out.append(theme.suffix.as_str());
    assert(out@ =~= segment(status@, theme@));
    out
}

/// The prompt text: the segment for the status when there is one, and
/// nothing at all when there is none.
pub fn render_prompt(status: Option<&GitStatus>, theme: &PromptTheme) -> (out: String)
    ensures
        match status {
            Some(s) => out@ == segment(s@, theme@),
            None => out@ == Seq::<char>::empty(),
        },
{
    match status {
        Some(s) => render(s, theme),
        None => String::new(),
    }
}


/// The clean marker is shown exactly when the repository is otherwise
/// clean: then the local part is the clean marker alone, and otherwise it
/// holds the counts and the untracked marker without the clean marker.
pub proof fn lemma_clean_marker_only_when_clean(s: StatusView, t: ThemeView)
    ensures
        is_clean(s) ==> local_part(s, t) == t.clean,
        !is_clean(s) ==> local_part(s, t) == count_part(t.staged, s.staged, t.reset) + count_part(
            t.conflicts,
            s.conflicts,
            t.reset,
        ) + count_part(t.changed, s.changed, t.reset) + (if s.untracked > 0 {
            t.untracked + t.reset
        } else {
            seq![]
        }),
{
    if is_clean(s) {
        assert(local_part(s, t) =~= t.clean);
    } else {
        let counts = count_part(t.staged, s.staged, t.reset) + count_part(t.conflicts, s.conflicts, t.reset)
            + count_part(t.changed, s.changed, t.reset) + (if s.untracked > 0 {
            t.untracked + t.reset
        } else {
            seq![]
        });
        assert(local_part(s, t) =~= counts);
    }
}

/// A count is shown exactly when it is not zero: its part is empty for a
/// zero count and holds the marker and the digits otherwise.
pub proof fn lemma_count_shown_iff_nonzero(marker: Seq<char>, n: nat, reset: Seq<char>)
    ensures
        (count_part(marker, n, reset).len() == 0) <==> (n == 0),
        n > 0 ==> count_part(marker, n, reset) == marker + decimal(n) + reset,
{
    lemma_decimal_digits(n);
}

/// Every segment has the shape `(<branch><tracking>|<local status>)`: it
/// starts with the prefix and the branch marker, ends with a reset and the
/// suffix, and the separator stands between the tracking part and the
/// local part.
pub proof fn lemma_segment_shape(s: StatusView, t: ThemeView)
    ensures
        segment(s, t).take(t.prefix.len() as int) == t.prefix,
        segment(s, t).skip(segment(s, t).len() - t.suffix.len()) == t.suffix,
        segment(s, t) == branch_part(s, t) + tracking_part(s, t) + t.separator + local_part(s, t) + t.reset
            + t.suffix,
{
    let seg = segment(s, t);
    let rest = t.branch + s.branch + t.reset + tracking_part(s, t) + t.separator + local_part(s, t) + t.reset;
    assert(seg =~= t.prefix + rest + t.suffix);
    assert(seg.take(t.prefix.len() as int) =~= t.prefix);
    assert(seg.skip(seg.len() - t.suffix.len()) =~= t.suffix);
}

/// Without any environment settings the theme is the default one.
pub proof fn lemma_empty_env_gives_default()
    ensures
        themed(Seq::<(String, String)>::empty()) == default_theme(),
{
}

/// The last setting of a variable is the one that counts, and a setting of
/// another variable leaves a variable's value as it was.
pub proof fn lemma_last_setting_wins(vars: Seq<(String, String)>, entry: (String, String), key: Seq<char>)
    ensures
        entry.0@ == key ==> env_lookup(vars.push(entry), key) == Some(entry.1@),
        entry.0@ != key ==> env_lookup(vars.push(entry), key) == env_lookup(vars, key),
{
    assert(vars.push(entry).drop_last() =~= vars);
}


/// The segment laid out field by field: prefix, branch marker, label and
/// reset; behind and ahead counts, each with its marker and a reset, when
/// not zero; the separator; staged, conflict and changed counts the same
/// way; the untracked marker when there are untracked files; the clean
/// marker exactly when staged, conflicts, changed and untracked are all
/// zero; and a closing reset and the suffix.
pub proof fn lemma_segment_layout(s: StatusView, t: ThemeView)
    ensures
        segment(s, t) == t.prefix + t.branch + s.branch + t.reset + (if s.behind > 0 {
            t.behind + decimal(s.behind) + t.reset
        } else {
            Seq::<char>::empty()
        }) + (if s.ahead > 0 {
            t.ahead + decimal(s.ahead) + t.reset
        } else {
            Seq::<char>::empty()
        }) + t.separator + (if s.staged > 0 {
            t.staged + decimal(s.staged) + t.reset
        } else {
            Seq::<char>::empty()
        }) + (if s.conflicts > 0 {
            t.conflicts + decimal(s.conflicts) + t.reset
        } else {
            Seq::<char>::empty()
        }) + (if s.changed > 0 {
            t.changed + decimal(s.changed) + t.reset
        } else {
            Seq::<char>::empty()
        }) + (if s.untracked > 0 {
            t.untracked + t.reset
        } else {
            Seq::<char>::empty()
        }) + (if s.staged == 0 && s.conflicts == 0 && s.changed == 0 && s.untracked == 0 {
            t.clean
        } else {
            Seq::<char>::empty()
        }) + t.reset + t.suffix,
{
    assert(count_part(t.behind, s.behind, t.reset) =~= (if s.behind > 0 {
        t.behind + decimal(s.behind) + t.reset
    } else {
        Seq::<char>::empty()
    }));
    assert(count_part(t.ahead, s.ahead, t.reset) =~= (if s.ahead > 0 {
        t.ahead + decimal(s.ahead) + t.reset
    } else {
        Seq::<char>::empty()
    }));
    assert(count_part(t.staged, s.staged, t.reset) =~= (if s.staged > 0 {
        t.staged + decimal(s.staged) + t.reset
    } else {
        Seq::<char>::empty()
    }));
    assert(count_part(t.conflicts, s.conflicts, t.reset) =~= (if s.conflicts > 0 {
        t.conflicts + decimal(s.conflicts) + t.reset
    } else {
        Seq::<char>::empty()
    }));
    assert(count_part(t.changed, s.changed, t.reset) =~= (if s.changed > 0 {
        t.changed + decimal(s.changed) + t.reset
    } else {
        Seq::<char>::empty()
    }));
    assert(segment(s, t) =~= t.prefix + t.branch + s.branch + t.reset + count_part(t.behind, s.behind, t.reset)
        + count_part(t.ahead, s.ahead, t.reset) + t.separator + count_part(t.staged, s.staged, t.reset)
        + count_part(t.conflicts, s.conflicts, t.reset) + count_part(t.changed, s.changed, t.reset) + (
    if s.untracked > 0 {
        t.untracked + t.reset
    } else {
        Seq::<char>::empty()
    }) + (if s.staged == 0 && s.conflicts == 0 && s.changed == 0 && s.untracked == 0 {
        t.clean
    } else {
        Seq::<char>::empty()
    }) + t.reset + t.suffix);
}

/// A non-zero changed count always shows: the segment holds the changed
/// marker, the count's digits and a reset, right after the separator and
/// the staged and conflict parts.
pub proof fn lemma_changed_count_shown(s: StatusView, t: ThemeView)
    requires
        s.changed > 0,
    ensures
        ({
            let i = (t.prefix + t.branch + s.branch + t.reset + tracking_part(s, t) + t.separator
                + count_part(t.staged, s.staged, t.reset) + count_part(t.conflicts, s.conflicts, t.reset)).len();
            let shown = t.changed + decimal(s.changed) + t.reset;
            segment(s, t).subrange(i as int, (i + shown.len()) as int) == shown
        }),
{
    let head = t.prefix + t.branch + s.branch + t.reset + tracking_part(s, t) + t.separator + count_part(
        t.staged,
        s.staged,
        t.reset,
    ) + count_part(t.conflicts, s.conflicts, t.reset);
    let shown = t.changed + decimal(s.changed) + t.reset;
    let tail = (if s.untracked > 0 {
        t.untracked + t.reset
    } else {
        Seq::<char>::empty()
    }) + (if is_clean(s) {
        t.clean
    } else {
        Seq::<char>::empty()
    }) + t.reset + t.suffix;
    assert(segment(s, t) =~= head + shown + tail);
    assert((head + shown + tail).subrange(head.len() as int, (head.len() + shown.len()) as int) =~= shown);
}

/// Each `ZSH_THEME_GIT_PROMPT_*` variable, whatever its value (the empty
/// string included), replaces the matching part of the theme; an unset one
/// leaves the zsh-git-prompt default; the reset string is always
/// `%{${reset_color}%}`.
pub proof fn lemma_theme_fields(vars: Seq<(String, String)>)
    ensures
        themed(vars).prefix == match env_lookup(vars, "ZSH_THEME_GIT_PROMPT_PREFIX"@) {
            Some(v) => v,
            None => "("@,
        },
        themed(vars).suffix == match env_lookup(vars, "ZSH_THEME_GIT_PROMPT_SUFFIX"@) {
            Some(v) => v,
            None => ")"@,
        },
        themed(vars).separator == match env_lookup(vars, "ZSH_THEME_GIT_PROMPT_SEPARATOR"@) {
            Some(v) => v,
            None => "|"@,
        },
        themed(vars).branch == match env_lookup(vars, "ZSH_THEME_GIT_PROMPT_BRANCH"@) {
            Some(v) => v,
            None => "%{$fg_bold[magenta]%}"@,
        },
        themed(vars).staged == match env_lookup(vars, "ZSH_THEME_GIT_PROMPT_STAGED"@) {
            Some(v) => v,
            None => "%{$fg[red]%}%{●%G%}"@,
        },
        themed(vars).conflicts == match env_lookup(vars, "ZSH_THEME_GIT_PROMPT_CONFLICTS"@) {
            Some(v) => v,
            None => "%{$fg[red]%}%{✖%G%}"@,
        },
        themed(vars).changed == match env_lookup(vars, "ZSH_THEME_GIT_PROMPT_CHANGED"@) {
            Some(v) => v,
            None => "%{$fg[blue]%}%{✚%G%}"@,
        },
        themed(vars).behind == match env_lookup(vars, "ZSH_THEME_GIT_PROMPT_BEHIND"@) {
            Some(v) => v,
            None => "%{↓%G%}"@,
        },
        themed(vars).ahead == match env_lookup(vars, "ZSH_THEME_GIT_PROMPT_AHEAD"@) {
            Some(v) => v,
            None => "%{↑%G%}"@,
        },
        themed(vars).untracked == match env_lookup(vars, "ZSH_THEME_GIT_PROMPT_UNTRACKED"@) {
            Some(v) => v,
            None => "%{…%G%}"@,
        },
        themed(vars).clean == match env_lookup(vars, "ZSH_THEME_GIT_PROMPT_CLEAN"@) {
            Some(v) => v,
            None => "%{$fg_bold[green]%}%{✔%G%}"@,
        },
        themed(vars).reset == "%{${reset_color}%}"@,
{
}

/// A variable set to any value, the empty string included, is what the
/// lookup finds when it is the last entry with that name.
pub proof fn lemma_setting_is_found(vars: Seq<(String, String)>, entry: (String, String))
    ensures
        env_lookup(vars.push(entry), entry.0@) == Some(entry.1@),
        themed(vars.push(entry)).branch == (if entry.0@ == "ZSH_THEME_GIT_PROMPT_BRANCH"@ {
            entry.1@
        } else {
            themed(vars).branch
        }),
{
    assert(vars.push(entry).drop_last() =~= vars);
}

} // verus!
