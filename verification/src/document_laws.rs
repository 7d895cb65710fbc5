//! What holds of records as documents: how they are divided, and what their front matter may
//! hold.
use crate::error::ErrorModel;
use crate::frontmatter;
use crate::scan::{self, Cursor};
use crate::text;
use crate::yaml::YamlTree;
use vstd::prelude::*;

verus! {

/// Whether a text is a line that divides a record.
pub open spec fn divides(line: Seq<char>) -> bool {
    line == seq!['-', '-', '-', '\n'] || line == seq!['-', '-', '-', '\r', '\n']
}

/// Whether a line of a text begins at one place and ends, with its line feed, before another.
pub open spec fn whole_line(s: Seq<char>, from: int, to: int) -> bool {
    &&& 0 <= from < to <= s.len()
    &&& from == 0 || s[from - 1] == '\n'
    &&& s[to - 1] == '\n'
    &&& forall|i: int| from <= i < to - 1 ==> s[i] != '\n'
}

/// A record that is taken apart is put together again from a dividing line, its front matter,
/// another dividing line and its body. No line of the front matter divides a record.
pub proof fn records_are_divided_by_two_lines(
    source: Seq<char>,
    yaml: Seq<char>,
    body: Seq<char>,
)
    requires
        frontmatter::parts(source) == Ok::<(Seq<char>, Seq<char>), ErrorModel>((yaml, body)),
    ensures
        exists|first: Seq<char>, second: Seq<char>|
            divides(first) && divides(second) && source == #[trigger] (first + yaml + second + body),
        yaml.len() > 0 ==> yaml.last() == '\n',
        forall|from: int, to: int| #[trigger]
            whole_line(yaml, from, to) ==> !divides(yaml.subrange(from, to)),
{
    let opening = text::find_from(source, '\n', 0);
    text::lemma_find_from(source, '\n', 0);
    let (start, end) = frontmatter::closing(source, opening + 1)->0;
    lemma_closing(source, opening + 1);
    let first = source.subrange(0, opening + 1);
    let second = source.subrange(start, end);
    lemma_divides(source, 0, opening);
    lemma_divides(source, start, end - 1);
    assert(first + yaml + second + body =~= source);
    if yaml.len() > 0 {
        assert(yaml.last() == source[start - 1]);
    }
    assert forall|from: int, to: int| #[trigger] whole_line(yaml, from, to) implies !divides(
        yaml.subrange(from, to),
    ) by {
        let (a, b) = (opening + 1 + from, opening + 1 + to);
        assert(yaml[to - 1] == source[b - 1]);
        assert(from > 0 ==> yaml[from - 1] == source[a - 1]);
        assert forall|i: int| a <= i < b - 1 implies source[i] != '\n' by {
            assert(yaml[i - opening - 1] == source[i]);
        }
        assert(whole_line(source, a, b));
        assert(!frontmatter::delimiter(source, a, b - 1));
        lemma_divides(source, a, b - 1);
        assert(yaml.subrange(from, to) =~= source.subrange(a, b));
    }
}

/// A text that is a dividing line, lines none of which divides, another dividing line and
/// anything is a record with those lines for its front matter, unless it holds a conflict.
pub proof fn divided_records_are_taken_apart(
    first: Seq<char>,
    yaml: Seq<char>,
    second: Seq<char>,
    body: Seq<char>,
)
    requires
        divides(first),
        divides(second),
        yaml.len() > 0 ==> yaml.last() == '\n',
        forall|from: int, to: int| #[trigger]
            whole_line(yaml, from, to) ==> !divides(yaml.subrange(from, to)),
        frontmatter::check_conflicts(text::lines(first + yaml + second + body), 0) is Ok,
    ensures
        frontmatter::parts(first + yaml + second + body) == Ok::<
            (Seq<char>, Seq<char>),
            ErrorModel,
        >((yaml, body)),
{
    let source = first + yaml + second + body;
    text::lemma_find_from(source, '\n', 0);
    let opening = text::find_from(source, '\n', 0);
    let n = first.len() as int;
    assert forall|i: int| 0 <= i < n - 1 implies source[i] != '\n' by {
        assert(source[i] == first[i]);
    }
    assert(source[n - 1] == first[n - 1]);
    assert(opening == n - 1);
    assert(source.subrange(0, n) =~= first);
    lemma_divides(source, 0, opening);
    let m = n + yaml.len();
    assert(source.subrange(n, m) =~= yaml);
    assert(source.subrange(m, m + second.len()) =~= second);
    lemma_found(source, n, n, yaml, second);
    assert(source.subrange(m + second.len(), source.len() as int) =~= body);
}

proof fn lemma_found(
    source: Seq<char>,
    n: int,
    from: int,
    yaml: Seq<char>,
    second: Seq<char>,
)
    requires
        0 < n <= from <= n + yaml.len(),
        n + yaml.len() + second.len() <= source.len(),
        divides(second),
        source.subrange(n, n + yaml.len()) == yaml,
        source.subrange(n + yaml.len(), n + yaml.len() + second.len()) == second,
        source[n - 1] == '\n',
        source[from - 1] == '\n',
        yaml.len() > 0 ==> yaml.last() == '\n',
        forall|a: int, b: int| #[trigger]
            whole_line(yaml, a, b) ==> !divides(yaml.subrange(a, b)),
    ensures
        frontmatter::closing(source, from) == Some(
            (n + yaml.len(), n + yaml.len() + second.len()),
        ),
    decreases n + yaml.len() - from,
{
    let m = n + yaml.len();
    text::lemma_find_from(source, '\n', from);
    let at = text::find_from(source, '\n', from);
    assert(second[second.len() - 1] == source[m + second.len() - 1]);
    assert(second[second.len() - 1] == '\n');
    if from == m {
        assert forall|i: int| m <= i < m + second.len() - 1 implies source[i] != '\n' by {
            assert(source[i] == second[i - m]);
        }
        assert(at == m + second.len() - 1);
        assert(source.subrange(m, at + 1) =~= second);
        lemma_divides(source, from, at);
    } else {
        assert(yaml.last() == source[m - 1]);
        assert(at <= m - 1);
        let (a, b) = (from - n, at + 1 - n);
        assert(yaml[b - 1] == source[at]);
        assert(a > 0 ==> yaml[a - 1] == source[from - 1]);
        assert forall|i: int| a <= i < b - 1 implies yaml[i] != '\n' by {
            assert(yaml[i] == source[n + i]);
        }
        assert(whole_line(yaml, a, b));
        assert(yaml.subrange(a, b) =~= source.subrange(from, at + 1));
        lemma_divides(source, from, at);
        lemma_found(source, n, at + 1, yaml, second);
    }
}

proof fn lemma_divides(s: Seq<char>, from: int, at: int)
    requires
        0 <= from <= at < s.len(),
        s[at] == '\n',
    ensures
        frontmatter::delimiter(s, from, at) <==> divides(s.subrange(from, at + 1)),
{
    let line = s.subrange(from, at);
    let whole = s.subrange(from, at + 1);
    assert(whole =~= line.push('\n'));
    assert(whole.drop_last() =~= line);
    if line == seq!['-', '-', '-'] {
        assert(whole =~= seq!['-', '-', '-', '\n']);
    }
    if line == seq!['-', '-', '-', '\r'] {
        assert(whole =~= seq!['-', '-', '-', '\r', '\n']);
    }
    if whole == seq!['-', '-', '-', '\n'] {
        assert(line =~= seq!['-', '-', '-']);
    }
    if whole == seq!['-', '-', '-', '\r', '\n'] {
        assert(line =~= seq!['-', '-', '-', '\r']);
    }
}

proof fn lemma_closing(s: Seq<char>, from: int)
    requires
        0 < from <= s.len(),
        s[from - 1] == '\n',
    ensures
        frontmatter::closing(s, from) matches Some((start, end)) ==> {
            &&& from <= start < end <= s.len()
            &&& s[start - 1] == '\n'
            &&& s[end - 1] == '\n'
            &&& frontmatter::delimiter(s, start, end - 1)
            &&& forall|a: int, b: int|
                from <= a && b <= start && #[trigger] whole_line(s, a, b)
                    ==> !frontmatter::delimiter(s, a, b - 1)
        },
    decreases s.len() - from,
{
    text::lemma_find_from(s, '\n', from);
    let at = text::find_from(s, '\n', from);
    if from < s.len() && at < s.len() {
        if frontmatter::delimiter(s, from, at) {
        } else {
            lemma_closing(s, at + 1);
            if let Some((start, end)) = frontmatter::closing(s, from) {
                assert forall|a: int, b: int|
                    from <= a && b <= start && #[trigger] whole_line(
                        s,
                        a,
                        b,
                    ) implies !frontmatter::delimiter(s, a, b - 1) by {
                    if a < at + 1 {
                        if a > from {
                            assert(s[a - 1] == '\n');
                            assert(false);
                        }
                        if b - 1 < at {
                            assert(false);
                        }
                        assert(b - 1 == at);
                    }
                }
            }
        }
    }
}

/// Whether a line begins with seven times one of the characters that mark a conflict.
pub open spec fn marks_conflict(line: Seq<char>) -> bool {
    &&& line.len() >= 7
    &&& line[0] == '<' || line[0] == '|' || line[0] == '=' || line[0] == '>'
    &&& forall|i: int| 0 <= i < 7 ==> #[trigger] line[i] == line[0]
}

/// A record with a line that marks a conflict is refused, and one without is not for that.
pub proof fn conflicts_are_refused(lines: Seq<Seq<char>>)
    ensures
        frontmatter::check_conflicts(lines, 0) is Ok <==> forall|i: int|
            0 <= i < lines.len() ==> !marks_conflict(#[trigger] lines[i]),
{
    lemma_conflicts(lines, 0);
}

proof fn lemma_conflicts(lines: Seq<Seq<char>>, i: int)
    requires
        0 <= i,
    ensures
        frontmatter::check_conflicts(lines, i) is Ok <==> forall|k: int|
            i <= k < lines.len() ==> !marks_conflict(#[trigger] lines[k]),
    decreases lines.len() - i,
{
    if i < lines.len() {
        lemma_conflicts(lines, i + 1);
        lemma_marker(lines[i]);
    }
}

proof fn lemma_marker(line: Seq<char>)
    ensures
        frontmatter::conflict_marker(line) <==> marks_conflict(line),
{
    reveal_strlit("<<<<<<<");
    reveal_strlit("|||||||");
    reveal_strlit("=======");
    reveal_strlit(">>>>>>>");
    if line.len() >= 7 {
        let head = line.subrange(0, 7);
        if marks_conflict(line) {
            if line[0] == '<' {
                assert(head =~= "<<<<<<<"@);
            } else if line[0] == '|' {
                assert(head =~= "|||||||"@);
            } else if line[0] == '=' {
                assert(head =~= "======="@);
            } else {
                assert(head =~= ">>>>>>>"@);
            }
        }
        if frontmatter::conflict_marker(line) {
            assert forall|i: int| 0 <= i < 7 implies #[trigger] line[i] == line[0] by {
                assert(head[i] == line[i]);
                assert(head[0] == line[0]);
            }
            assert(head[0] == line[0]);
        }
    }
}

/// How many values a value is and holds.
pub open spec fn size(tree: YamlTree) -> nat
    decreases tree, 0int,
{
    match tree {
        YamlTree::List(items) => 1 + sizes(items, 0),
        YamlTree::Table(entries) => 1 + entry_sizes(entries, 0),
        _ => 1,
    }
}

/// How many values the items from the `i`-th on are and hold.
pub open spec fn sizes(items: Seq<YamlTree>, i: int) -> nat
    decreases items, items.len() - i,
    when 0 <= i
{
    if i >= items.len() {
        0
    } else {
        size(items[i]) + sizes(items, i + 1)
    }
}

/// How many values the entries from the `i`-th on are and hold, but for their keys.
pub open spec fn entry_sizes(entries: Seq<(YamlTree, YamlTree)>, i: int) -> nat
    decreases entries, entries.len() - i,
    when 0 <= i
{
    if i >= entries.len() {
        0
    } else {
        size(entries[i].1) + entry_sizes(entries, i + 1)
    }
}

/// Whether a value can be kept at a depth: it does not lie too deep; it is not tagged; it is no
/// infinite number; and all that it holds can be kept one deeper, by keys that are texts other
/// than `<<`.
pub open spec fn keepable(tree: YamlTree, depth: int) -> bool
    decreases tree,
{
    &&& depth <= 64
    &&& match tree {
        YamlTree::Tagged(_, _) => false,
        YamlTree::Number(_, finite) => finite,
        YamlTree::List(items) => forall|i: int|
            0 <= i < items.len() ==> keepable(#[trigger] items[i], depth + 1),
        YamlTree::Table(entries) => forall|i: int|
            0 <= i < entries.len() ==> plain_key((#[trigger] entries[i]).0) && keepable(
                entries[i].1,
                depth + 1,
            ),
        _ => true,
    }
}

/// Whether a key is a text other than `<<`.
pub open spec fn plain_key(key: YamlTree) -> bool {
    key matches YamlTree::Text(name) && name != "<<"@
}

/// The properties of a record are kept where each of them can be, by a key that is a text, and
/// there are not too many values in all, which are counted.
pub proof fn properties_are_kept_where_they_can_be(entries: Seq<(YamlTree, YamlTree)>)
    ensures
        frontmatter::check_mapping(entries) is Ok <==> {
            &&& forall|i: int|
                0 <= i < entries.len() ==> plain_key((#[trigger] entries[i]).0) && keepable(
                    entries[i].1,
                    1,
                )
            &&& 1 + entry_sizes(entries, 0) <= 100_000
        },
        frontmatter::check_mapping(entries) matches Ok(n) ==> n == 1 + entry_sizes(entries, 0),
{
    lemma_entries(entries, 0, 0, 1);
}

proof fn lemma_value(tree: YamlTree, depth: int, nodes: nat)
    requires
        nodes <= frontmatter::MAX_YAML_NODES,
    ensures
        frontmatter::check_value(tree, depth, nodes) is Ok <==> keepable(tree, depth) && nodes
            + size(tree) <= frontmatter::MAX_YAML_NODES,
        frontmatter::check_value(tree, depth, nodes) matches Ok(n) ==> n == nodes + size(tree),
    decreases tree, 0int,
{
    if frontmatter::count_node(depth, nodes) is Ok {
        match tree {
            YamlTree::List(items) => {
                lemma_items(items, 0, depth, nodes + 1);
            },
            YamlTree::Table(entries) => {
                lemma_entries(entries, 0, depth, nodes + 1);
            },
            _ => {},
        }
    }
}

proof fn lemma_items(items: Seq<YamlTree>, i: int, depth: int, nodes: nat)
    requires
        0 <= i,
        nodes <= frontmatter::MAX_YAML_NODES,
    ensures
        frontmatter::check_items(items, i, depth, nodes) is Ok <==> (forall|k: int|
            i <= k < items.len() ==> keepable(#[trigger] items[k], depth + 1)) && nodes + sizes(
            items,
            i,
        ) <= frontmatter::MAX_YAML_NODES,
        frontmatter::check_items(items, i, depth, nodes) matches Ok(n) ==> n == nodes + sizes(
            items,
            i,
        ),
    decreases items, items.len() - i,
{
    if i < items.len() {
        lemma_value(items[i], depth + 1, nodes);
        if let Ok(n) = frontmatter::check_value(items[i], depth + 1, nodes) {
            lemma_items(items, i + 1, depth, n);
        }
    }
}

proof fn lemma_entries(entries: Seq<(YamlTree, YamlTree)>, i: int, depth: int, nodes: nat)
    requires
        0 <= i,
        nodes <= frontmatter::MAX_YAML_NODES,
    ensures
        frontmatter::check_entries(entries, i, depth, nodes) is Ok <==> (forall|k: int|
            i <= k < entries.len() ==> plain_key((#[trigger] entries[k]).0) && keepable(
                entries[k].1,
                depth + 1,
            )) && nodes + entry_sizes(entries, i) <= frontmatter::MAX_YAML_NODES,
        frontmatter::check_entries(entries, i, depth, nodes) matches Ok(n) ==> n == nodes
            + entry_sizes(entries, i),
    decreases entries, entries.len() - i,
{
    if i < entries.len() {
        if plain_key(entries[i].0) {
            lemma_value(entries[i].1, depth + 1, nodes);
            if let Ok(n) = frontmatter::check_value(entries[i].1, depth + 1, nodes) {
                lemma_entries(entries, i + 1, depth, n);
            }
        }
    }
}

/// Whether a scan stands where no text that was opened goes on.
pub open spec fn stands_free(c: Cursor) -> bool {
    !c.single && !c.double && !c.escaped && c.block_scalar is None && c.plain_scalar is None
        && c.flow == 0
}

/// A tag, an anchor or an alias is refused where a value begins: at the beginning of a line,
/// behind the hyphen of a list, and behind a key.
pub proof fn anchors_aliases_and_tags_are_refused(
    c: Cursor,
    indents: Seq<usize>,
    line: Seq<char>,
    index: int,
    key: Seq<char>,
    mark: char,
    rest: Seq<char>,
)
    requires
        stands_free(c),
        mark == '&' || mark == '*' || mark == '!',
        key.len() > 0,
        forall|i: int| 0 <= i < key.len() ==> 'a' <= #[trigger] key[i] <= 'z',
        line == seq![mark] + rest || line == seq!['-', ' ', mark] + rest || line == key
            + seq![':', ' ', mark] + rest,
    ensures
        scan::scan_line(c, indents, line, index) is Err,
{
    let indent = scan::indentation(line);
    let start = Cursor {
        plain_scalar: None,
        token_start: true,
        value_position: false,
        compact: 0,
        plain: false,
        structural: false,
        ..c
    };
    if line == seq![mark] + rest {
        assert(line[0] == mark);
        assert(scan::scan_chars(start, line, 0, index, indent) is Err);
    } else if line == seq!['-', ' ', mark] + rest {
        assert(line[0] == '-' && line[1] == ' ' && line[2] == mark);
        reveal_with_fuel(scan::scan_chars, 4);
        assert(scan::scan_chars(start, line, 0, index, indent) is Err);
    } else {
        let n = key.len() as int;
        assert forall|i: int| 0 <= i < n implies 'a' <= #[trigger] line[i] <= 'z' by {
            assert(line[i] == key[i]);
        }
        assert(line[n] == ':' && line[n + 1] == ' ' && line[n + 2] == mark);
        lemma_key(start, line, 0, n, index, indent);
    }
}

proof fn lemma_key(c: Cursor, line: Seq<char>, k: int, n: int, index: int, indent: int)
    requires
        0 <= k <= n,
        n + 2 < line.len(),
        !c.single && !c.double && c.flow == 0,
        k == 0 ==> !c.plain,
        forall|i: int| 0 <= i < n ==> 'a' <= #[trigger] line[i] <= 'z',
        line[n] == ':' && line[n + 1] == ' ' && (line[n + 2] == '&' || line[n + 2] == '*' || line[n
            + 2] == '!'),
    ensures
        scan::scan_chars(c, line, k, index, indent) is Err,
    decreases n - k,
{
    if k < n {
        let ch = line[k];
        assert('a' <= ch <= 'z');
        assert(!text::is_whitespace(ch));
        let next = Cursor { plain: true, value_position: false, token_start: false, ..c };
        assert(scan::char_step(c, line, k, index, indent) == scan::Step::Next(next));
        lemma_key(next, line, k + 1, n, index, indent);
    } else {
        assert(text::is_whitespace(' '));
        reveal_with_fuel(scan::scan_chars, 4);
    }
}

} // verus!
