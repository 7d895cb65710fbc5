//! What holds of configurations: which of them can be used.
use crate::config::{self, ConfigModel};
use crate::error::IssueModel;
use crate::paths;
use crate::text;
use vstd::prelude::*;

verus! {

/// Whether a text is names with slashes between them, none of them `.` or `..`.
pub open spec fn spells(value: Seq<char>, names: Seq<Seq<char>>) -> bool {
    &&& names.len() > 0
    &&& value == text::joined(names, seq!['/'])
    &&& forall|i: int|
        0 <= i < names.len() ==> (#[trigger] names[i]).len() > 0 && !names[i].contains('/')
            && names[i] != seq!['.'] && names[i] != seq!['.', '.']
}

/// Whether a text can name a directory of a store: names with slashes between them, the first
/// not `.todo`, and nowhere a backslash.
pub open spec fn plain_directory(value: Seq<char>) -> bool {
    &&& !value.contains('\\')
    &&& exists|names: Seq<Seq<char>>| #[trigger] spells(value, names) && names[0] != ".todo"@
}

/// Whether one directory is another or lies in it.
pub open spec fn lies_in(inner: Seq<char>, outer: Seq<char>) -> bool {
    inner == outer || exists|rest: Seq<char>| inner == #[trigger] (outer + seq!['/'] + rest)
}

/// Whether a text can stand in a link: it has none of the characters that end or split one.
pub open spec fn linkable(value: Seq<char>) -> bool {
    forall|i: int|
        0 <= i < value.len() ==> (#[trigger] value[i]) != '[' && value[i] != ']' && value[i] != '|'
            && value[i] != '#' && value[i] != '^' && !text::is_control(value[i])
}

/// Whether a text can be the ID of a state.
pub open spec fn names_state(id: Seq<char>) -> bool {
    &&& id.len() > 0
    &&& id[0] != '_' && id[0] != '-'
    &&& forall|i: int|
        0 <= i < id.len() ==> 'a' <= (#[trigger] id[i]) <= 'z' || '0' <= id[i] <= '9' || id[i]
            == '_' || id[i] == '-'
}

/// Whether the two directories of a configuration are plain, and neither lies in the other; and
/// what links begin with can stand in them.
pub open spec fn usable_paths(config: ConfigModel) -> bool {
    &&& plain_directory(config.tasks_directory)
    &&& plain_directory(config.projects_directory) && linkable(config.projects_directory)
    &&& !lies_in(config.tasks_directory, config.projects_directory)
    &&& !lies_in(config.projects_directory, config.tasks_directory)
    &&& config.obsidian_link_prefix.len() > 0 ==> linkable(config.obsidian_link_prefix)
        && !config.obsidian_link_prefix.contains('\\') && exists|names: Seq<Seq<char>>| #[trigger]
        spells(config.obsidian_link_prefix, names)
}

/// Whether the states of a configuration have IDs that all differ, and names; and the default
/// state is one of them that is not terminal.
pub open spec fn usable_states(config: ConfigModel) -> bool {
    &&& forall|i: int|
        0 <= i < config.states.len() ==> names_state((#[trigger] config.states[i]).id)
            && text::trim(config.states[i].name).len() > 0
    &&& forall|i: int, j: int|
        #![trigger config.states[i], config.states[j]]
        0 <= i < j < config.states.len() ==> config.states[i].id != config.states[j].id
    &&& exists|i: int|
        0 <= i < config.states.len() && (#[trigger] config.states[i]).id == config.default_state
            && !config.states[i].terminal
}

/// Nothing is wrong with a configuration just where it can be used: its version is one of the
/// two that are known, and its paths and its states can be used.
pub proof fn configurations_have_no_issue_where_they_are_usable(config: ConfigModel)
    ensures
        config.issues().len() == 0 <==> 1 <= config.schema_version <= 2 && usable_paths(config)
            && usable_states(config),
{
    lemma_usable_paths(config);
    lemma_usable_states(config);
    lemma_no_issues(config);
}

proof fn lemma_no_issues(config: ConfigModel)
    ensures
        config.issues().len() == 0 <==> {
            &&& config.schema_issue() is None
            &&& config.tasks_issue() is None
            &&& config.projects_issue() is None
            &&& config.overlap_issue() is None
            &&& config.prefix_issue() is None
            &&& config.state_issues(config.states.len() as int).len() == 0
            &&& config.nonterminal_issue() is None
            &&& config.default_issue() is None
        },
        config.schema_issue() is None <==> 1 <= config.schema_version <= 2,
{
    let a = config.schema_issue();
    let b = config.tasks_issue();
    let c = config.projects_issue();
    let d = config.overlap_issue();
    let e = config.prefix_issue();
    let f = config.state_issues(config.states.len() as int);
    let g = config.nonterminal_issue();
    let h = config.default_issue();
    lemma_one_or_none(a);
    lemma_one_or_none(b);
    lemma_one_or_none(c);
    lemma_one_or_none(d);
    lemma_one_or_none(e);
    lemma_one_or_none(g);
    lemma_one_or_none(h);
}

proof fn lemma_one_or_none(issue: Option<IssueModel>)
    ensures
        config::issue_if(issue).len() == 0 <==> issue is None,
{
}

proof fn lemma_usable_paths(config: ConfigModel)
    ensures
        usable_paths(config) <==> config.tasks_issue() is None && config.projects_issue() is None
            && config.overlap_issue() is None && config.prefix_issue() is None,
{
    lemma_directory(config.tasks_directory);
    lemma_directory(config.projects_directory);
    if config.obsidian_link_prefix.len() > 0 {
        lemma_prefix(config.obsidian_link_prefix);
    }
    if plain_directory(config.projects_directory) {
        let names = choose|names: Seq<Seq<char>>| #[trigger]
            spells(config.projects_directory, names) && names[0] != ".todo"@;
        lemma_spelled_ends(config.projects_directory, names);
        lemma_prefix(config.projects_directory);
    }
    if plain_directory(config.tasks_directory) && plain_directory(config.projects_directory) {
        lemma_within(config.tasks_directory, config.projects_directory);
        lemma_within(config.projects_directory, config.tasks_directory);
    }
}

proof fn lemma_usable_states(config: ConfigModel)
    ensures
        usable_states(config) <==> config.state_issues(config.states.len() as int).len() == 0
            && config.nonterminal_issue() is None && config.default_issue() is None,
{
    lemma_states(config, config.states.len() as int);
    lemma_names(config);
    lemma_differ(config);
    lemma_default(config);
    if usable_states(config) {
        assert forall|i: int| 0 <= i < config.states.len() implies #[trigger] config.id_issue(
            i,
        ) is None && config.duplicate_issue(i) is None && config.name_issue(i) is None by {
            assert(names_state(config.states[i].id));
        }
    }
    if config.state_issues(config.states.len() as int).len() == 0 {
        assert forall|i: int| 0 <= i < config.states.len() implies names_state(
            (#[trigger] config.states[i]).id,
        ) && text::trim(config.states[i].name).len() > 0 by {
            assert(config.id_issue(i) is None);
        }
        assert forall|i: int| 0 <= i < config.states.len() implies #[trigger] config.duplicate_issue(
            i,
        ) is None by {
            assert(config.id_issue(i) is None);
        }
    }
}

proof fn lemma_states(config: ConfigModel, n: int)
    requires
        0 <= n <= config.states.len(),
    ensures
        config.state_issues(n).len() == 0 <==> forall|i: int|
            0 <= i < n ==> #[trigger] config.id_issue(i) is None && config.duplicate_issue(i) is None
                && config.name_issue(i) is None,
    decreases n,
{
    if n > 0 {
        lemma_states(config, n - 1);
        assert(config.state_issues(n).len() == 0 <==> {
            &&& config.state_issues(n - 1).len() == 0
            &&& config.id_issue(n - 1) is None
            &&& config.duplicate_issue(n - 1) is None
            &&& config.name_issue(n - 1) is None
        });
    }
}

proof fn lemma_names(config: ConfigModel)
    ensures
        forall|i: int|
            0 <= i < config.states.len() ==> (config.id_issue(i) is None <==> names_state(
                (#[trigger] config.states[i]).id,
            )),
        forall|i: int|
            0 <= i < config.states.len() ==> (config.name_issue(i) is None <==> text::trim(
                (#[trigger] config.states[i]).name,
            ).len() > 0),
{
    assert forall|i: int| 0 <= i < config.states.len() implies (config.id_issue(i) is None
        <==> names_state((#[trigger] config.states[i]).id)) by {
        let id = config.states[i].id;
        if names_state(id) {
            assert forall|k: int| 0 <= k < id.len() implies text::is_lower(#[trigger] id[k])
                || text::is_digit(id[k]) || id[k] == '_' || id[k] == '-' by {}
            assert(config::state_id(id));
        }
        if config::state_id(id) {
            assert forall|k: int| 0 <= k < id.len() implies 'a' <= (#[trigger] id[k]) <= 'z' || '0'
                <= id[k] <= '9' || id[k] == '_' || id[k] == '-' by {}
            assert(names_state(id));
        }
    }
    assert forall|i: int| 0 <= i < config.states.len() implies (config.name_issue(i) is None
        <==> text::trim((#[trigger] config.states[i]).name).len() > 0) by {
        lemma_blank(config.states[i].name);
    }
}

proof fn lemma_blank(s: Seq<char>)
    ensures
        text::blank(s) <==> text::trim(s).len() == 0,
{
    text::lemma_skip_space(s, 0);
    let rest = text::trim_start(s);
    text::lemma_drop_space(rest, rest.len() as int);
    let at = text::skip_space(s, 0);
    if at < s.len() {
        assert(rest[0] == s[at]);
        if text::trim(s).len() == 0 {
            assert(text::is_whitespace(rest[0]));
        }
    }
}

proof fn lemma_differ(config: ConfigModel)
    ensures
        (forall|i: int| 0 <= i < config.states.len() ==> #[trigger] config.duplicate_issue(i) is None)
            <==> forall|i: int, j: int|
            #![trigger config.states[i], config.states[j]]
            0 <= i < j < config.states.len() ==> config.states[i].id != config.states[j].id,
{
    if forall|i: int| 0 <= i < config.states.len() ==> #[trigger] config.duplicate_issue(
        i,
    ) is None {
        assert forall|i: int, j: int|
            #![trigger config.states[i], config.states[j]]
            0 <= i < j < config.states.len() implies config.states[i].id != config.states[j].id by {
            assert(config.duplicate_issue(j) is None);
        }
    }
}

proof fn lemma_default(config: ConfigModel)
    ensures
        (config.default_issue() is None && forall|i: int, j: int|
            #![trigger config.states[i], config.states[j]]
            0 <= i < j < config.states.len() ==> config.states[i].id != config.states[j].id) <==> ((
        exists|i: int|
            0 <= i < config.states.len() && (#[trigger] config.states[i]).id == config.default_state
                && !config.states[i].terminal) && forall|i: int, j: int|
            #![trigger config.states[i], config.states[j]]
            0 <= i < j < config.states.len() ==> config.states[i].id != config.states[j].id),
        config.default_issue() is None ==> config.nonterminal_issue() is None,
{
    config::lemma_place(config, config.default_state, 0);
    if let Some(k) = config.place(config.default_state) {
        assert(config.states[k].id == config.default_state);
        if exists|i: int|
            0 <= i < config.states.len() && (#[trigger] config.states[i]).id == config.default_state
                && !config.states[i].terminal {
            let i = choose|i: int|
                0 <= i < config.states.len() && (#[trigger] config.states[i]).id
                    == config.default_state && !config.states[i].terminal;
            if i != k {
                assert(config.states[i].id == config.states[k].id);
            }
        }
    }
}

/// The pieces of a text, joined, are the text; none holds the separator, and each other
/// character of the text is in one of them.
pub(crate) proof fn lemma_pieces(s: Seq<char>, sep: char, from: int)
    requires
        0 <= from <= s.len(),
    ensures
        text::split_from(s, sep, from).len() > 0,
        text::joined(text::split_from(s, sep, from), seq![sep]) == s.subrange(from, s.len() as int),
        forall|i: int|
            0 <= i < text::split_from(s, sep, from).len() ==> !(#[trigger] text::split_from(
                s,
                sep,
                from,
            )[i]).contains(sep),
    decreases s.len() - from,
{
    let pieces = text::split_from(s, sep, from);
    text::lemma_find_from(s, sep, from);
    let at = text::find_from(s, sep, from);
    if at >= s.len() {
        let piece = s.subrange(from, s.len() as int);
        assert(pieces =~= seq![piece]);
        assert(pieces[0] == piece);
        assert(!piece.contains(sep));
    } else {
        let piece = s.subrange(from, at);
        let rest = text::split_from(s, sep, at + 1);
        lemma_pieces(s, sep, at + 1);
        assert(pieces =~= seq![piece] + rest);
        assert(pieces.drop_first() =~= rest);
        text::lemma_joined_first(pieces, seq![sep]);
        assert(piece + seq![sep] + s.subrange(at + 1, s.len() as int) =~= s.subrange(
            from,
            s.len() as int,
        ));
        assert forall|i: int| 0 <= i < pieces.len() implies !(#[trigger] pieces[i]).contains(
            sep,
        ) by {
            if i == 0 {
                assert(pieces[0] == piece);
            } else {
                assert(pieces[i] == rest[i - 1]);
            }
        }
    }
}

/// The characters of joined texts are those of the texts and the separator.
proof fn lemma_joined_chars(items: Seq<Seq<char>>, sep: char, c: char)
    requires
        c != sep,
    ensures
        text::joined(items, seq![sep]).contains(c) <==> exists|i: int|
            0 <= i < items.len() && (#[trigger] items[i]).contains(c),
    decreases items.len(),
{
    let whole = text::joined(items, seq![sep]);
    if items.len() == 1 {
        if whole.contains(c) {
            assert(items[0].contains(c));
        }
    } else if items.len() > 1 {
        let rest = items.drop_last();
        lemma_joined_chars(rest, sep, c);
        let head = text::joined(rest, seq![sep]);
        assert(whole == head + seq![sep] + items.last());
        if whole.contains(c) {
            let k = choose|k: int| 0 <= k < whole.len() && whole[k] == c;
            if k < head.len() {
                assert(head[k] == c);
                let i = choose|i: int| 0 <= i < rest.len() && (#[trigger] rest[i]).contains(c);
                assert(items[i] == rest[i]);
            } else {
                assert(k != head.len());
                assert(items.last()[k - head.len() - 1] == c);
                assert(items[items.len() - 1].contains(c));
            }
        }
        if exists|i: int| 0 <= i < items.len() && (#[trigger] items[i]).contains(c) {
            let i = choose|i: int| 0 <= i < items.len() && (#[trigger] items[i]).contains(c);
            if i < rest.len() {
                assert(rest[i] == items[i]);
                let k = choose|k: int| 0 <= k < head.len() && head[k] == c;
                assert(whole[k] == c);
            } else {
                let last = items.last();
                let k = choose|k: int| 0 <= k < last.len() && last[k] == c;
                assert(whole[head.len() + 1 + k] == c);
            }
        }
    }
}

/// A text that names spell begins and ends as the first and the last of them do.
pub(crate) proof fn lemma_spelled_ends(value: Seq<char>, names: Seq<Seq<char>>)
    requires
        spells(value, names),
    ensures
        value.len() > 0,
        value[0] == names[0][0],
        value.last() == names.last().last(),
        text::split(value, '/') == names,
{
    text::lemma_split_joined(names, '/');
    assert(names[0].len() > 0);
    assert(names[names.len() - 1].len() > 0);
    if names.len() > 1 {
        text::lemma_joined_first(names, seq!['/']);
    }
}

proof fn lemma_directory(value: Seq<char>)
    ensures
        config::directory_fault(value) is None <==> plain_directory(value),
{
    let pieces = text::split(value, '/');
    lemma_pieces(value, '/', 0);
    assert(value.subrange(0, value.len() as int) =~= value);
    if config::directory_fault(value) is None {
        assert forall|i: int| 0 <= i < pieces.len() implies (#[trigger] pieces[i]).len() > 0
            && !pieces[i].contains('/') && pieces[i] != seq!['.'] && pieces[i] != seq!['.', '.'] by {
            assert(!config::odd_component(text::split(value, '/')[i]));
        }
        assert(spells(value, pieces));
    }
    if plain_directory(value) {
        let names = choose|names: Seq<Seq<char>>| #[trigger]
            spells(value, names) && names[0] != ".todo"@;
        lemma_spelled_ends(value, names);
        assert(names[0].contains(names[0][0]));
        let last = names[names.len() - 1];
        assert(last.contains(last[last.len() - 1]));
        assert forall|i: int| 0 <= i < pieces.len() implies !config::odd_component(
            #[trigger] pieces[i],
        ) by {
            assert(pieces[i] == names[i]);
        }
    }
}

proof fn lemma_prefix(value: Seq<char>)
    requires
        value.len() > 0,
    ensures
        config::link_prefix_fault(value) is None <==> linkable(value) && !value.contains('\\') && (
        exists|names: Seq<Seq<char>>| #[trigger] spells(value, names)),
{
    let pieces = text::split(value, '/');
    lemma_pieces(value, '/', 0);
    assert(value.subrange(0, value.len() as int) =~= value);
    if config::link_prefix_fault(value) is None {
        assert forall|i: int| 0 <= i < pieces.len() implies (#[trigger] pieces[i]).len() > 0
            && !pieces[i].contains('/') && pieces[i] != seq!['.'] && pieces[i] != seq!['.', '.'] by {
            assert(!config::bad_link_part(text::split(value, '/')[i]));
        }
        assert(spells(value, pieces));
        assert forall|k: int| 0 <= k < value.len() implies (#[trigger] value[k]) != '[' && value[k]
            != ']' && value[k] != '|' && value[k] != '#' && value[k] != '^' && !text::is_control(
            value[k],
        ) by {
            let c = value[k];
            assert(value.contains(c));
            if c != '/' {
                lemma_joined_chars(pieces, '/', c);
                let i = choose|i: int| 0 <= i < pieces.len() && (#[trigger] pieces[i]).contains(c);
                assert(!config::bad_link_part(text::split(value, '/')[i]));
                let piece = pieces[i];
                let m = choose|m: int| 0 <= m < piece.len() && piece[m] == c;
                assert(!config::is_link_control(piece[m]));
            }
        }
    }
    if linkable(value) && !value.contains('\\') && exists|names: Seq<Seq<char>>| #[trigger]
        spells(value, names) {
        let names = choose|names: Seq<Seq<char>>| #[trigger] spells(value, names);
        lemma_spelled_ends(value, names);
        assert(names[0].contains(names[0][0]));
        let last = names[names.len() - 1];
        assert(last.contains(last[last.len() - 1]));
        assert forall|i: int| 0 <= i < pieces.len() implies !config::bad_link_part(
            #[trigger] pieces[i],
        ) by {
            let piece = pieces[i];
            assert(piece == names[i]);
            assert forall|m: int| 0 <= m < piece.len() implies !config::is_link_control(
                #[trigger] piece[m],
            ) by {
                let c = piece[m];
                assert(piece.contains(c));
                if c != '/' {
                    lemma_joined_chars(names, '/', c);
                    let k = choose|k: int| 0 <= k < value.len() && value[k] == c;
                    assert(value[k] == c);
                }
            }
        }
    }
}

/// The components of a text that names spell are the names.
pub(crate) proof fn lemma_parts(value: Seq<char>, names: Seq<Seq<char>>)
    requires
        spells(value, names),
    ensures
        paths::parts(value).len() == names.len(),
        forall|i: int|
            0 <= i < names.len() ==> #[trigger] paths::parts(value)[i] == (3int, names[i]),
{
    lemma_spelled_ends(value, names);
    assert(names[0].contains(names[0][0]));
    lemma_kept(names, 0);
}

proof fn lemma_kept(names: Seq<Seq<char>>, i: int)
    requires
        0 <= i <= names.len(),
        forall|k: int|
            0 <= k < names.len() ==> (#[trigger] names[k]).len() > 0 && names[k] != seq!['.']
                && names[k] != seq!['.', '.'],
    ensures
        paths::kept(names, i).len() == names.len() - i,
        forall|k: int|
            0 <= k < names.len() - i ==> #[trigger] paths::kept(names, i)[k] == (
                3int,
                names[i + k],
            ),
    decreases names.len() - i,
{
    if i < names.len() {
        lemma_kept(names, i + 1);
        assert(names[i].len() > 0);
        let rest = paths::kept(names, i + 1);
        assert(paths::kept(names, i) == seq![paths::part(names[i])] + rest);
        assert forall|k: int| 0 <= k < names.len() - i implies #[trigger] paths::kept(names, i)[k]
            == (3int, names[i + k]) by {
            if k > 0 {
                assert(rest[k - 1] == (3int, names[i + 1 + (k - 1)]));
            }
        }
    }
}

/// Joined texts are the first of them joined, the separator, and the others joined.
proof fn lemma_joined_parts(a: Seq<Seq<char>>, b: Seq<Seq<char>>, sep: char)
    requires
        a.len() > 0,
        b.len() > 0,
    ensures
        text::joined(a + b, seq![sep]) == text::joined(a, seq![sep]) + seq![sep] + text::joined(
            b,
            seq![sep],
        ),
    decreases a.len(),
{
    text::lemma_joined_first(a + b, seq![sep]);
    assert((a + b)[0] == a[0]);
    if a.len() == 1 {
        assert((a + b).drop_first() =~= b);
    } else {
        let rest = a.drop_first();
        assert((a + b).drop_first() =~= rest + b);
        lemma_joined_parts(rest, b, sep);
        text::lemma_joined_first(a, seq![sep]);
        assert(text::joined(a + b, seq![sep]) =~= text::joined(a, seq![sep]) + seq![sep]
            + text::joined(b, seq![sep]));
    }
}

/// The pieces of joined texts with more behind them are the texts and the pieces of what is
/// behind.
proof fn lemma_split_more(items: Seq<Seq<char>>, sep: char, rest: Seq<char>)
    requires
        items.len() > 0,
        forall|i: int| 0 <= i < items.len() ==> !(#[trigger] items[i]).contains(sep),
    ensures
        text::split(text::joined(items, seq![sep]) + seq![sep] + rest, sep) == items + text::split(
            rest,
            sep,
        ),
    decreases items.len(),
{
    assert(!items[0].contains(sep));
    if items.len() == 1 {
        text::lemma_split_first(items[0], sep, rest);
        assert(seq![items[0]] =~= items);
    } else {
        let others = items.drop_first();
        lemma_split_more(others, sep, rest);
        text::lemma_joined_first(items, seq![sep]);
        let tail = text::joined(others, seq![sep]) + seq![sep] + rest;
        text::lemma_split_first(items[0], sep, tail);
        assert(text::joined(items, seq![sep]) + seq![sep] + rest =~= items[0] + seq![sep] + tail);
        assert(seq![items[0]] + (others + text::split(rest, sep)) =~= items + text::split(
            rest,
            sep,
        ));
    }
}

proof fn lemma_within(inner: Seq<char>, outer: Seq<char>)
    requires
        plain_directory(inner),
        plain_directory(outer),
    ensures
        paths::path_begins(inner, outer) <==> lies_in(inner, outer),
{
    let a = choose|names: Seq<Seq<char>>| #[trigger] spells(inner, names) && names[0] != ".todo"@;
    let b = choose|names: Seq<Seq<char>>| #[trigger] spells(outer, names) && names[0] != ".todo"@;
    lemma_parts(inner, a);
    lemma_parts(outer, b);
    lemma_spelled_ends(inner, a);
    lemma_spelled_ends(outer, b);
    let (p, q) = (paths::parts(inner), paths::parts(outer));
    if paths::path_begins(inner, outer) {
        let n = b.len() as int;
        assert forall|i: int| 0 <= i < n implies a[i] == b[i] by {
            assert(p.take(n)[i] == q[i]);
            assert(p[i] == (3int, a[i]));
        }
        if a.len() == n {
            assert(a =~= b);
        } else {
            let rest = a.skip(n);
            assert(a =~= b + rest);
            lemma_joined_parts(b, rest, '/');
            assert(inner == outer + seq!['/'] + text::joined(rest, seq!['/']));
        }
    }
    if lies_in(inner, outer) {
        if inner == outer {
            assert(p.take(q.len() as int) =~= q);
        } else {
            let rest = choose|rest: Seq<char>| inner == #[trigger] (outer + seq!['/'] + rest);
            lemma_split_more(b, '/', rest);
            let more = text::split(rest, '/');
            assert(a == b + more);
            assert forall|i: int| 0 <= i < q.len() implies p.take(q.len() as int)[i] == q[i] by {
                assert(p[i] == (3int, a[i]));
                assert(q[i] == (3int, b[i]));
            }
            assert(p.take(q.len() as int) =~= q);
        }
    }
}

/// Nothing has no components.
pub(crate) proof fn lemma_no_parts(s: Seq<char>)
    requires
        s.len() == 0,
    ensures
        paths::parts(s).len() == 0,
{
    text::lemma_split_whole(s, '/');
    let pieces = text::split(s, '/');
    assert(pieces[0].len() == 0);
    reveal_with_fuel(paths::kept, 3);
}

/// The names among the components of a path are names.
pub(crate) proof fn lemma_parts_plain(path: Seq<char>)
    ensures
        forall|i: int|
            0 <= i < paths::parts(path).len() && (#[trigger] paths::parts(path)[i]).0 == 3 ==> {
                let name = paths::parts(path)[i].1;
                name.len() > 0 && !name.contains('/') && name != seq!['.'] && name != seq!['.', '.']
            },
{
    let pieces = text::split(path, '/');
    lemma_pieces(path, '/', 0);
    lemma_kept_plain(pieces, 0);
    let rest = paths::kept(pieces, 0);
    if path.len() > 0 && path[0] == '/' {
        assert forall|i: int|
            0 <= i < paths::parts(path).len() && (#[trigger] paths::parts(path)[i]).0 == 3 implies {
            let name = paths::parts(path)[i].1;
            name.len() > 0 && !name.contains('/') && name != seq!['.'] && name != seq!['.', '.']
        } by {
            assert(paths::parts(path)[i] == rest[i - 1]);
        }
    }
}

proof fn lemma_kept_plain(pieces: Seq<Seq<char>>, i: int)
    requires
        0 <= i,
        forall|k: int| 0 <= k < pieces.len() ==> !(#[trigger] pieces[k]).contains('/'),
    ensures
        forall|k: int|
            0 <= k < paths::kept(pieces, i).len() && (#[trigger] paths::kept(pieces, i)[k]).0 == 3
                ==> {
                let name = paths::kept(pieces, i)[k].1;
                name.len() > 0 && !name.contains('/') && name != seq!['.'] && name != seq!['.', '.']
            },
    decreases pieces.len() - i,
{
    if i < pieces.len() {
        lemma_kept_plain(pieces, i + 1);
        let rest = paths::kept(pieces, i + 1);
        if !(pieces[i].len() == 0 || (pieces[i] == seq!['.'] && i > 0)) {
            let all = paths::kept(pieces, i);
            assert(all == seq![paths::part(pieces[i])] + rest);
            assert forall|k: int| 0 <= k < all.len() && (#[trigger] all[k]).0 == 3 implies {
                let name = all[k].1;
                name.len() > 0 && !name.contains('/') && name != seq!['.'] && name != seq!['.', '.']
            } by {
                if k > 0 {
                    assert(all[k] == rest[k - 1]);
                } else {
                    assert(all[0] == paths::part(pieces[i]));
                    assert(!pieces[i].contains('/'));
                }
            }
        }
    }
}

} // verus!
