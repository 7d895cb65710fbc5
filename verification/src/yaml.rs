//! YAML values, read and written by the `serde_yaml_ng` crate.
use vstd::prelude::*;

use crate::text;

verus! {

/// A value of the `serde_yaml_ng` crate: a tree, which [`yaml_tree`] describes.
#[verifier::external_type_specification]
#[verifier::external_body]
pub struct ExYamlValue(serde_yaml_ng::Value);

/// A mapping of the `serde_yaml_ng` crate, which keeps the order of its entries;
/// [`mapping_entries`] describes them.
#[verifier::external_type_specification]
#[verifier::external_body]
pub struct ExYamlMapping(serde_yaml_ng::Mapping);

/// What a YAML value holds. A number is given by its text, and so is a tag.
#[verifier::ext_equal]
pub enum YamlTree {
    Null,
    Bool(bool),
    Number(Seq<char>, bool),
    Text(Seq<char>),
    List(Seq<YamlTree>),
    Table(Seq<(YamlTree, YamlTree)>),
    Tagged(Seq<char>, Box<YamlTree>),
}

/// The contents of a YAML value. The second part of a number tells whether it is finite.
pub uninterp spec fn yaml_tree(value: serde_yaml_ng::Value) -> YamlTree;

/// The entries of a YAML mapping, in order.
pub uninterp spec fn mapping_entries(mapping: serde_yaml_ng::Mapping) -> Seq<
    (YamlTree, YamlTree),
>;

/// One level of a YAML value.
pub enum YamlNode<'a> {
    Null,
    Bool(bool),
    Number(String, bool),
    Text(&'a str),
    List(Vec<&'a serde_yaml_ng::Value>),
    Table(&'a serde_yaml_ng::Mapping),
    Tagged(String, &'a serde_yaml_ng::Value),
}

impl<'a> YamlNode<'a> {
    /// What the level and all below it hold.
    pub open spec fn tree(self) -> YamlTree {
        match self {
            YamlNode::Null => YamlTree::Null,
            YamlNode::Bool(b) => YamlTree::Bool(b),
            YamlNode::Number(s, finite) => YamlTree::Number(s@, finite),
            YamlNode::Text(s) => YamlTree::Text(s@),
            YamlNode::List(items) => YamlTree::List(value_trees(items@)),
            YamlNode::Table(mapping) => YamlTree::Table(mapping_entries(*mapping)),
            YamlNode::Tagged(tag, value) => YamlTree::Tagged(tag@, Box::new(yaml_tree(*value))),
        }
    }
}

/// What a list of values holds.
pub open spec fn value_trees(items: Seq<&serde_yaml_ng::Value>) -> Seq<YamlTree> {
    items.map_values(|item: &serde_yaml_ng::Value| yaml_tree(*item))
}

/// What a list of pairs of values holds.
pub open spec fn pair_trees(
    items: Seq<(&serde_yaml_ng::Value, &serde_yaml_ng::Value)>,
) -> Seq<(YamlTree, YamlTree)> {
    items.map_values(
        |item: (&serde_yaml_ng::Value, &serde_yaml_ng::Value)|
            (yaml_tree(*item.0), yaml_tree(*item.1)),
    )
}

/// The variants of `serde_yaml_ng::Value`, told apart; `Number::is_finite` tells whether a
/// number is finite.
#[verifier::external_body]
pub(crate) fn open(value: &serde_yaml_ng::Value) -> (r: YamlNode<'_>)
    ensures
        r.tree() == yaml_tree(*value),
{
    match value {
        serde_yaml_ng::Value::Null => YamlNode::Null,
        serde_yaml_ng::Value::Bool(b) => YamlNode::Bool(*b),
        serde_yaml_ng::Value::Number(n) => YamlNode::Number(n.to_string(), n.is_finite()),
        serde_yaml_ng::Value::String(s) => YamlNode::Text(s),
        serde_yaml_ng::Value::Sequence(items) => YamlNode::List(items.iter().collect()),
        serde_yaml_ng::Value::Mapping(mapping) => YamlNode::Table(mapping),
        serde_yaml_ng::Value::Tagged(tagged) => YamlNode::Tagged(
            tagged.tag.to_string(),
            &tagged.value,
        ),
    }
}

/// `Mapping::iter`: the entries of a mapping, in order.
#[verifier::external_body]
pub(crate) fn entries(mapping: &serde_yaml_ng::Mapping) -> (r: Vec<
    (&serde_yaml_ng::Value, &serde_yaml_ng::Value),
>)
    ensures
        pair_trees(r@) == mapping_entries(*mapping),
{
    mapping.iter().collect()
}

/// The mapping that a value is, where it is one.
#[verifier::external_body]
pub(crate) fn into_mapping(value: serde_yaml_ng::Value) -> (r: Option<serde_yaml_ng::Mapping>)
    ensures
        r is Some <==> yaml_tree(value) is Table,
        r matches Some(mapping) ==> yaml_tree(value) == YamlTree::Table(mapping_entries(mapping)),
{
    match value {
        serde_yaml_ng::Value::Mapping(mapping) => Some(mapping),
        _ => None,
    }
}

/// `Mapping::new`: a mapping without entries.
#[verifier::external_body]
pub(crate) fn new_mapping() -> (r: serde_yaml_ng::Mapping)
    ensures
        mapping_entries(r) == Seq::<(YamlTree, YamlTree)>::empty(),
{
    serde_yaml_ng::Mapping::new()
}

/// `Mapping::clone`: a mapping with the same entries.
#[verifier::external_body]
pub(crate) fn clone_mapping(mapping: &serde_yaml_ng::Mapping) -> (r: serde_yaml_ng::Mapping)
    ensures
        mapping_entries(r) == mapping_entries(*mapping),
{
    mapping.clone()
}

/// The place of the first entry, from the `i`-th on, whose key is the text.
pub open spec fn place_from(
    entries: Seq<(YamlTree, YamlTree)>,
    key: Seq<char>,
    i: int,
) -> Option<int>
    decreases entries.len() - i,
{
    if i >= entries.len() {
        None
    } else if entries[i].0 == YamlTree::Text(key) {
        Some(i)
    } else {
        place_from(entries, key, i + 1)
    }
}

/// The value whose key is the text.
pub open spec fn value_at(entries: Seq<(YamlTree, YamlTree)>, key: Seq<char>) -> Option<
    YamlTree,
> {
    match place_from(entries, key, 0) {
        Some(i) => Some(entries[i].1),
        None => None,
    }
}

/// The entries without the one whose key is the text.
pub open spec fn without(entries: Seq<(YamlTree, YamlTree)>, key: Seq<char>) -> Seq<
    (YamlTree, YamlTree),
> {
    match place_from(entries, key, 0) {
        Some(i) => entries.remove(i),
        None => entries,
    }
}

/// What an optional value holds.
pub open spec fn opt_tree(value: Option<serde_yaml_ng::Value>) -> Option<YamlTree> {
    match value {
        Some(value) => Some(yaml_tree(value)),
        None => None,
    }
}

/// What a reference to an optional value holds.
pub open spec fn opt_ref_tree(value: Option<&serde_yaml_ng::Value>) -> Option<YamlTree> {
    match value {
        Some(value) => Some(yaml_tree(*value)),
        None => None,
    }
}

/// `Mapping::get` with a text: the value whose key it is. No two keys of a mapping are equal.
#[verifier::external_body]
pub(crate) fn get<'a>(mapping: &'a serde_yaml_ng::Mapping, key: &str) -> (r: Option<
    &'a serde_yaml_ng::Value,
>)
    ensures
        opt_ref_tree(r) == value_at(mapping_entries(*mapping), key@),
{
    mapping.get(key)
}

/// `Mapping::shift_remove` with a text: take out the entry whose key it is; the others keep
/// their order.
#[verifier::external_body]
pub(crate) fn shift_remove(mapping: &mut serde_yaml_ng::Mapping, key: &str) -> (r: Option<
    serde_yaml_ng::Value,
>)
    ensures
        opt_tree(r) == value_at(mapping_entries(*old(mapping)), key@),
        mapping_entries(*final(mapping)) == without(mapping_entries(*old(mapping)), key@),
{
    mapping.shift_remove(key)
}

/// The entries with a text under a key: in the place of what was there, or at the end.
pub open spec fn with_text(
    entries: Seq<(YamlTree, YamlTree)>,
    key: Seq<char>,
    value: Seq<char>,
) -> Seq<(YamlTree, YamlTree)> {
    match place_from(entries, key, 0) {
        Some(i) => entries.update(i, (entries[i].0, YamlTree::Text(value))),
        None => entries.push((YamlTree::Text(key), YamlTree::Text(value))),
    }
}

/// `Mapping::insert` with two texts: a value in the place of the one that the key had, or a new
/// entry at the end.
#[verifier::external_body]
pub(crate) fn insert_text(mapping: &mut serde_yaml_ng::Mapping, key: &str, value: &str)
    ensures
        mapping_entries(*final(mapping)) == with_text(
            mapping_entries(*old(mapping)),
            key@,
            value@,
        ),
{
    mapping.insert(
        serde_yaml_ng::Value::String(key.to_owned()),
        serde_yaml_ng::Value::String(value.to_owned()),
    );
}

/// A hexadecimal digit.
pub open spec fn hex_digit(n: int) -> char {
    if n < 10 {
        ('0' as int + n) as char
    } else {
        ('a' as int + n - 10) as char
    }
}

/// A character as JSON writes it in a string: `"`, `\` and what comes before the space are
/// escaped, all others stand for themselves.
pub open spec fn json_char(c: char) -> Seq<char> {
    if c == '"' {
        seq!['\\', '"']
    } else if c == '\\' {
        seq!['\\', '\\']
    } else if c == '\u{8}' {
        seq!['\\', 'b']
    } else if c == '\u{c}' {
        seq!['\\', 'f']
    } else if c == '\n' {
        seq!['\\', 'n']
    } else if c == '\r' {
        seq!['\\', 'r']
    } else if c == '\t' {
        seq!['\\', 't']
    } else if ' ' > c {
        seq!['\\', 'u', '0', '0', hex_digit(c as int / 16), hex_digit(c as int % 16)]
    } else {
        seq![c]
    }
}

/// The characters of a text as JSON writes them in a string.
pub open spec fn json_chars(s: Seq<char>) -> Seq<char>
    decreases s.len(),
{
    if s.len() == 0 {
        seq![]
    } else {
        json_chars(s.drop_last()) + json_char(s.last())
    }
}

/// A text as a JSON string.
pub open spec fn json_string(s: Seq<char>) -> Seq<char> {
    seq!['"'] + json_chars(s) + seq!['"']
}

/// Whether YAML's reader takes every character of a text, once JSON has escaped it, for itself:
/// none is a control character that JSON leaves as it is, a separator of lines or paragraphs, or
/// one of the two that close the basic plane.
pub open spec fn legible(s: Seq<char>) -> bool {
    forall|i: int| 0 <= i < s.len() ==> legible_char(#[trigger] s[i])
}

/// See [`legible`].
pub open spec fn legible_char(c: char) -> bool {
    ||| c <= '~'
    ||| '\u{a0}' <= c && c != '\u{2028}' && c != '\u{2029}' && c != '\u{fffe}' && c != '\u{ffff}'
}

/// Whether a text is made of small letters and underscores, and no longer than a key of one line
/// may be.
pub open spec fn key_word(s: Seq<char>) -> bool {
    &&& 0 < s.len() <= 1000
    &&& forall|i: int| 0 <= i < s.len() ==> 'a' <= #[trigger] s[i] <= 'z' || s[i] == '_'
    &&& s != "null"@ && s != "true"@ && s != "false"@
}

/// Whether a character is a digit.
pub open spec fn word_digit(c: char) -> bool {
    '0' <= c <= '9'
}

/// Whether YAML reads the bare word as a text: it begins with a small letter, goes on with such
/// letters, digits, underscores and hyphens, and is none of the words for other values; or it has
/// the shape of a date, `YYYY-MM-DD`.
pub open spec fn bare_word(s: Seq<char>) -> bool {
    &&& s.len() > 0
    &&& forall|i: int|
        0 <= i < s.len() ==> 'a' <= #[trigger] s[i] <= 'z' || word_digit(s[i]) || s[i] == '_' || s[i]
            == '-'
    &&& if 'a' <= s[0] <= 'z' {
        s != "null"@ && s != "true"@ && s != "false"@
    } else {
        &&& s.len() == 10
        &&& word_digit(s[0]) && word_digit(s[1]) && word_digit(s[2]) && word_digit(s[3])
        &&& s[4] == '-' && word_digit(s[5]) && word_digit(s[6])
        &&& s[7] == '-' && word_digit(s[8]) && word_digit(s[9])
    }
}

/// A property as it is written in lines of its own: a text in quotes, a bare word, or a list of
/// texts.
pub enum Property {
    Text(Seq<char>, Seq<char>),
    Word(Seq<char>, Seq<char>),
    List(Seq<char>, Seq<Seq<char>>),
}

impl Property {
    /// The key.
    pub open spec fn key(self) -> Seq<char> {
        match self {
            Property::Text(key, _) => key,
            Property::Word(key, _) => key,
            Property::List(key, _) => key,
        }
    }

    /// The value.
    pub open spec fn tree(self) -> YamlTree {
        match self {
            Property::Text(_, value) => YamlTree::Text(value),
            Property::Word(_, value) => YamlTree::Text(value),
            Property::List(_, items) => YamlTree::List(
                items.map_values(|item: Seq<char>| YamlTree::Text(item)),
            ),
        }
    }

    /// The lines.
    pub open spec fn lines(self) -> Seq<Seq<char>> {
        match self {
            Property::Text(key, value) => seq![key + ": "@ + json_string(value)],
            Property::Word(key, value) => seq![key + ": "@ + value],
            Property::List(key, items) => if items.len() == 0 {
                seq![key + ": []"@]
            } else {
                seq![key + ":"@] + items.map_values(|item: Seq<char>| "  - "@ + json_string(item))
            },
        }
    }

    /// Whether the lines say what the property holds.
    pub open spec fn plain(self) -> bool {
        &&& key_word(self.key())
        &&& match self {
            Property::Text(_, value) => legible(value),
            Property::Word(_, value) => bare_word(value),
            Property::List(_, items) => forall|i: int|
                0 <= i < items.len() ==> legible(#[trigger] items[i]),
        }
    }
}

/// The lines of properties.
pub open spec fn property_lines(properties: Seq<Property>) -> Seq<Seq<char>>
    decreases properties.len(),
{
    if properties.len() == 0 {
        seq![]
    } else {
        property_lines(properties.drop_last()) + properties.last().lines()
    }
}

/// Lines as a text, each with its end.
pub open spec fn lines_text(lines: Seq<Seq<char>>) -> Seq<char>
    decreases lines.len(),
{
    if lines.len() == 0 {
        seq![]
    } else {
        lines_text(lines.drop_last()) + lines.last() + seq!['\n']
    }
}

/// Properties as a text.
pub open spec fn properties_text(properties: Seq<Property>) -> Seq<char> {
    lines_text(property_lines(properties))
}

/// What properties hold.
pub open spec fn property_entries(properties: Seq<Property>) -> Seq<(YamlTree, YamlTree)> {
    properties.map_values(|p: Property| (YamlTree::Text(p.key()), p.tree()))
}

/// Whether there are properties, each is plain, and no two have the same key.
pub open spec fn plain_properties(properties: Seq<Property>) -> bool {
    &&& properties.len() > 0
    &&& forall|i: int| 0 <= i < properties.len() ==> (#[trigger] properties[i]).plain()
    &&& forall|i: int, j: int|
        0 <= i < j < properties.len() ==> (#[trigger] properties[i]).key() != (
        #[trigger] properties[j]).key()
}

/// Whether the outcome of reading the text is what properties hold, where it is theirs.
pub open spec fn reads_properties(
    outcome: Result<YamlTree, (Seq<char>, Option<(usize, usize)>)>,
    source: Seq<char>,
) -> bool {
    forall|properties: Seq<Property>|
        plain_properties(properties) && source == #[trigger] properties_text(properties)
            ==> outcome == Ok::<YamlTree, (Seq<char>, Option<(usize, usize)>)>(
            YamlTree::Table(property_entries(properties)),
        )
}

/// Why a text is no YAML document: the parser's words, and the line and column at which it
/// stopped.
#[derive(Debug)]
pub struct YamlFault {
    pub message: String,
    pub place: Option<(usize, usize)>,
}

/// What `serde_yaml_ng::from_str` makes of a text: what the document holds, or the words and
/// the place of the error.
pub uninterp spec fn yaml_outcome(source: Seq<char>) -> Result<
    YamlTree,
    (Seq<char>, Option<(usize, usize)>),
>;

/// The outcome of reading a document, as values.
pub open spec fn document_outcome(document: Result<serde_yaml_ng::Value, YamlFault>) -> Result<
    YamlTree,
    (Seq<char>, Option<(usize, usize)>),
> {
    match document {
        Ok(value) => Ok(yaml_tree(value)),
        Err(fault) => Err((fault.message@, fault.place)),
    }
}

/// `serde_yaml_ng::from_str` on the given text. The grammar of YAML is not stated, but for this:
/// lines that each give a key and a text in quotes, a bare word, or a list of quoted texts make
/// a mapping with those entries.
#[verifier::external_body]
pub(crate) fn read(source: &str) -> (r: Result<serde_yaml_ng::Value, YamlFault>)
    ensures
        document_outcome(r) == yaml_outcome(source@),
        reads_properties(document_outcome(r), source@),
{
    serde_yaml_ng::from_str::<serde_yaml_ng::Value>(source).map_err(
        |error| YamlFault {
            message: error.to_string(),
            place: error.location().map(|place| (place.line(), place.column())),
        },
    )
}

/// What `serde_yaml_ng::to_string` makes of the entries of a mapping: the document, or the
/// words of the error.
pub uninterp spec fn yaml_text(entries: Seq<(YamlTree, YamlTree)>) -> Result<
    Seq<char>,
    Seq<char>,
>;

/// Whether a text is one line of characters that YAML's writer does not escape, and no longer than
/// the writer can count.
pub open spec fn one_line(s: Seq<char>) -> bool {
    &&& s.len() <= 0x1000000
    &&& legible(s)
    &&& forall|i: int| 0 <= i < s.len() ==> ' ' <= #[trigger] s[i] && s[i] != '\u{feff}'
}

/// Whether a tree is made of lines: each text is one line, numbers are finite, keys are texts, all
/// different and short enough to stand on a line with what they name, nothing is tagged, and it
/// is at most so deep.
pub open spec fn lined(tree: YamlTree, depth: nat) -> bool
    decreases depth, 0int,
{
    match tree {
        YamlTree::Null => true,
        YamlTree::Bool(_) => true,
        YamlTree::Number(_, finite) => finite,
        YamlTree::Text(s) => one_line(s),
        YamlTree::List(items) => depth > 0 && forall|i: int|
            0 <= i < items.len() ==> lined(#[trigger] items[i], (depth - 1) as nat),
        YamlTree::Table(entries) => depth > 0 && lined_entries(entries, (depth - 1) as nat),
        YamlTree::Tagged(_, _) => false,
    }
}

/// Whether entries are made of lines, and what they name is at most so deep. See [`lined`].
pub open spec fn lined_entries(entries: Seq<(YamlTree, YamlTree)>, depth: nat) -> bool
    decreases depth, 1int,
{
    &&& forall|i: int|
        0 <= i < entries.len() ==> line_key((#[trigger] entries[i]).0) && lined(
            entries[i].1,
            depth,
        )
    &&& forall|i: int, j: int|
        0 <= i < j < entries.len() ==> (#[trigger] entries[i]).0 != (#[trigger] entries[j]).0
}

/// Whether a key is a text of one line, of at most 128 bytes.
pub open spec fn line_key(key: YamlTree) -> bool {
    key matches YamlTree::Text(s) && one_line(s) && text::byte_len(s) <= 128
}

/// Whether no property has the key of an entry.
pub open spec fn apart(own: Seq<Property>, entries: Seq<(YamlTree, YamlTree)>) -> bool {
    forall|i: int, j: int|
        0 <= i < own.len() && 0 <= j < entries.len() ==> YamlTree::Text(
            (#[trigger] own[i]).key(),
        ) != (#[trigger] entries[j]).0
}

/// Whether entries that are made of lines are written, and what is written, behind the lines of
/// properties with other keys, is read back as those properties and entries.
pub open spec fn gives_back(
    outcome: Result<Seq<char>, Seq<char>>,
    entries: Seq<(YamlTree, YamlTree)>,
) -> bool {
    entries.len() > 0 && lined_entries(entries, 64) ==> outcome is Ok && forall|own: Seq<Property>|
        plain_properties(own) && apart(own, entries) ==> yaml_outcome(
            #[trigger] properties_text(own) + outcome->Ok_0,
        ) == Ok::<YamlTree, (Seq<char>, Option<(usize, usize)>)>(
            YamlTree::Table(property_entries(own) + entries),
        )
}

/// A text with each `'` doubled, as it stands in single quotes.
pub open spec fn doubled(s: Seq<char>) -> Seq<char>
    decreases s.len(),
{
    if s.len() == 0 {
        seq![]
    } else if s.last() == '\'' {
        doubled(s.drop_last()) + seq!['\'', '\'']
    } else {
        doubled(s.drop_last()) + seq![s.last()]
    }
}

/// Whether a character would make YAML take what it begins for something else than a bare text.
pub open spec fn indicator(c: char) -> bool {
    c == '#' || c == ',' || c == '[' || c == ']' || c == '{' || c == '}' || c == '&' || c == '*' || c
        == '!' || c == '|' || c == '>' || c == '\'' || c == '"' || c == '%' || c == '@' || c == '`'
}

/// Whether a text may be written bare: it is not empty, no space begins or ends it, no indicator
/// begins it, no `:` stands before a space or the end, and no `#` behind a space.
pub open spec fn bare_text(s: Seq<char>) -> bool {
    &&& s.len() > 0
    &&& s[0] != ' ' && s.last() != ' '
    &&& !indicator(s[0])
    &&& (s[0] == '-' || s[0] == '?') ==> s.len() > 1 && s[1] != ' '
    &&& forall|i: int|
        0 <= i < s.len() && #[trigger] s[i] == ':' ==> i + 1 < s.len() && s[i + 1] != ' '
    &&& forall|i: int| 0 < i < s.len() && #[trigger] s[i] == '#' ==> s[i - 1] != ' '
}

/// Whether a text is that of a finite number: digits, perhaps with a sign, a point and an
/// exponent.
pub open spec fn numeral(s: Seq<char>) -> bool {
    &&& s.len() > 0
    &&& word_digit(s[0]) || (s[0] == '-' && s.len() > 1 && word_digit(s[1]))
    &&& forall|i: int|
        0 <= i < s.len() ==> word_digit(#[trigger] s[i]) || s[i] == '-' || s[i] == '.' || s[i] == 'e'
}

/// Whether a scalar is written so: a text bare, where it may be, or in single quotes; a number by
/// its text.
pub open spec fn spelled(w: Seq<char>, tree: YamlTree) -> bool {
    match tree {
        YamlTree::Null => w == "null"@,
        YamlTree::Bool(b) => w == (if b {
            "true"@
        } else {
            "false"@
        }),
        YamlTree::Number(s, _) => w == s && numeral(s),
        YamlTree::Text(s) => w == seq!['\''] + doubled(s) + seq!['\''] || (w == s && bare_text(s)),
        _ => false,
    }
}

/// Whether a tree is neither a list nor a table, and not tagged.
pub open spec fn scalar(tree: YamlTree) -> bool {
    !(tree is List) && !(tree is Table) && !(tree is Tagged)
}

/// Whether a tree is a scalar or a list of scalars.
pub open spec fn flat(tree: YamlTree) -> bool {
    match tree {
        YamlTree::List(items) => forall|i: int| 0 <= i < items.len() ==> scalar(#[trigger] items[i]),
        _ => scalar(tree),
    }
}

/// Whether an item of a list is written as the line.
pub open spec fn item_line(line: Seq<char>, item: YamlTree) -> bool {
    exists|w: Seq<char>| #[trigger] spelled(w, item) && line == "- "@ + w
}

/// Whether an entry with a flat value, whose key is written so, is written as the lines.
pub open spec fn value_lines(lines: Seq<Seq<char>>, key: Seq<char>, value: YamlTree) -> bool {
    match value {
        YamlTree::List(items) => if items.len() == 0 {
            lines == seq![key + ": []"@]
        } else {
            &&& lines.len() == items.len() + 1
            &&& lines[0] == key + ":"@
            &&& forall|i: int|
                0 <= i < items.len() ==> item_line(lines[i + 1], #[trigger] items[i])
        },
        _ => exists|w: Seq<char>| #[trigger] spelled(w, value) && lines == seq![key + ": "@ + w],
    }
}

/// Whether an entry with a flat value is written as the lines.
pub open spec fn entry_lines(lines: Seq<Seq<char>>, entry: (YamlTree, YamlTree)) -> bool {
    exists|key: Seq<char>| #[trigger] spelled(key, entry.0) && value_lines(lines, key, entry.1)
}

/// The lines of blocks, one block after the other.
pub open spec fn gathered(blocks: Seq<Seq<Seq<char>>>) -> Seq<Seq<char>>
    decreases blocks.len(),
{
    if blocks.len() == 0 {
        seq![]
    } else {
        gathered(blocks.drop_last()) + blocks.last()
    }
}

/// Whether there is a block of lines for each entry, which it is written as.
pub open spec fn blocks_of(
    blocks: Seq<Seq<Seq<char>>>,
    entries: Seq<(YamlTree, YamlTree)>,
) -> bool {
    blocks.len() == entries.len() && forall|i: int|
        0 <= i < entries.len() ==> entry_lines(#[trigger] blocks[i], entries[i])
}

/// Whether a text is made of the lines of entries, one after the other.
pub open spec fn laid_out(s: Seq<char>, entries: Seq<(YamlTree, YamlTree)>) -> bool {
    exists|blocks: Seq<Seq<Seq<char>>>| #[trigger]
        blocks_of(blocks, entries) && s == lines_text(gathered(blocks))
}

/// Whether entries that are made of lines, and whose values are flat, are written as their lines.
pub open spec fn lays_out(
    outcome: Result<Seq<char>, Seq<char>>,
    entries: Seq<(YamlTree, YamlTree)>,
) -> bool {
    entries.len() > 0 && lined_entries(entries, 64) && (forall|i: int|
        0 <= i < entries.len() ==> flat((#[trigger] entries[i]).1)) ==> outcome is Ok && laid_out(
        outcome->Ok_0,
        entries,
    )
}

/// `serde_yaml_ng::to_string` on the given mapping. Where its texts are single lines and nothing
/// is tagged, [`serde_yaml_ng::from_str`] reads back what is written, also behind the lines of
/// properties with other keys; and scalars and lists of scalars have a line each, in which a text
/// is bare or in single quotes. Which of the two it is, and how other values are laid out, is not
/// stated.
#[verifier::external_body]
pub(crate) fn write(mapping: &serde_yaml_ng::Mapping) -> (r: Result<String, String>)
    ensures
        crate::documents::text_outcome(r) == yaml_text(mapping_entries(*mapping)),
        gives_back(crate::documents::text_outcome(r), mapping_entries(*mapping)),
        lays_out(crate::documents::text_outcome(r), mapping_entries(*mapping)),
{
    serde_yaml_ng::to_string(mapping).map_err(|error| error.to_string())
}

/// A value of the `serde_json` crate: what [`json_text`] writes.
#[verifier::external_type_specification]
#[verifier::external_body]
pub struct ExJsonValue(serde_json::Value);

/// A JSON value, written without whitespace.
pub uninterp spec fn json_text(value: serde_json::Value) -> Seq<char>;

/// `Value::to_string`: a value, written without whitespace.
#[verifier::external_body]
pub(crate) fn write_json(value: &serde_json::Value) -> (r: String)
    ensures
        r@ == json_text(*value),
{
    value.to_string()
}

/// What `serde_json::to_value` makes of the entries of a mapping: the JSON object, written
/// without whitespace, or the words of the error.
pub uninterp spec fn json_object(entries: Seq<(YamlTree, YamlTree)>) -> Result<
    Seq<char>,
    Seq<char>,
>;

/// `serde_json::to_value` on the given mapping. How a value is written is not stated.
#[verifier::external_body]
pub(crate) fn to_json(mapping: &serde_yaml_ng::Mapping) -> (r: Result<serde_json::Value, String>)
    ensures
        r is Ok <==> json_object(mapping_entries(*mapping)) is Ok,
        r matches Ok(value) ==> json_text(value) == json_object(mapping_entries(*mapping))->Ok_0,
        r matches Err(words) ==> words@ == json_object(mapping_entries(*mapping))->Err_0,
{
    serde_json::to_value(mapping).map_err(|error| error.to_string())
}

/// Whether the result is the text as a JSON string.
pub open spec fn quotes(r: Result<String, String>, s: Seq<char>) -> bool {
    r matches Ok(quoted) && quoted@ == json_string(s)
}

/// `serde_json::to_string` on a text: the JSON string for it. Writing a text into memory does
/// not fail.
#[verifier::external_body]
pub(crate) fn quote(s: &str) -> (r: Result<String, String>)
    ensures
        quotes(r, s@),
{
    serde_json::to_string(s).map_err(|error| error.to_string())
}

/// An entry that is found has the key, and is the first that has.
pub proof fn lemma_place(entries: Seq<(YamlTree, YamlTree)>, key: Seq<char>, i: int)
    requires
        0 <= i,
    ensures
        place_from(entries, key, i) matches Some(k) ==> i <= k < entries.len() && entries[k].0
            == YamlTree::Text(key),
        forall|k: int|
            i <= k < entries.len() && (#[trigger] entries[k]).0 == YamlTree::Text(key)
                ==> place_from(entries, key, i) is Some && place_from(entries, key, i)->0 <= k,
    decreases entries.len() - i,
{
    if i < entries.len() && entries[i].0 != YamlTree::Text(key) {
        lemma_place(entries, key, i + 1);
    }
}

} // verus!
