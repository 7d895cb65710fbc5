//! TOML documents, read and written by the `toml` crate.
use vstd::prelude::*;

use crate::text;

verus! {

/// A value of the `toml` crate: a tree, which [`toml_tree`] describes.
#[verifier::external_type_specification]
#[verifier::external_body]
pub struct ExTomlValue(toml::Value);

/// What a TOML value holds. A float or a moment, which is a date, a time or both, is given by its
/// text.
#[verifier::ext_equal]
pub enum TomlTree {
    Text(Seq<char>),
    Integer(int),
    Boolean(bool),
    Float(Seq<char>),
    Moment(Seq<char>),
    List(Seq<TomlTree>),
    Table(Seq<(Seq<char>, TomlTree)>),
}

/// The contents of a TOML value; tables list their entries in document order.
pub uninterp spec fn toml_tree(value: toml::Value) -> TomlTree;

/// One level of a TOML value.
pub enum TomlNode<'a> {
    Text(&'a str),
    Integer(i64),
    Boolean(bool),
    Float(String),
    Moment(String),
    List(Vec<&'a toml::Value>),
    Table(Vec<(&'a str, &'a toml::Value)>),
}

impl<'a> TomlNode<'a> {
    /// What the level and all below it hold.
    pub open spec fn tree(self) -> TomlTree {
        match self {
            TomlNode::Text(s) => TomlTree::Text(s@),
            TomlNode::Integer(n) => TomlTree::Integer(n as int),
            TomlNode::Boolean(b) => TomlTree::Boolean(b),
            TomlNode::Float(s) => TomlTree::Float(s@),
            TomlNode::Moment(s) => TomlTree::Moment(s@),
            TomlNode::List(items) => TomlTree::List(
                items@.map_values(|item: &'a toml::Value| toml_tree(*item)),
            ),
            TomlNode::Table(entries) => TomlTree::Table(
                entries@.map_values(
                    |entry: (&'a str, &'a toml::Value)| (entry.0@, toml_tree(*entry.1)),
                ),
            ),
        }
    }
}

/// The variants of `toml::Value`, told apart; floats and date-times are given by their text.
#[verifier::external_body]
pub(crate) fn open(value: &toml::Value) -> (r: TomlNode<'_>)
    ensures
        r.tree() == toml_tree(*value),
{
    match value {
        toml::Value::String(s) => TomlNode::Text(s),
        toml::Value::Integer(n) => TomlNode::Integer(*n),
        toml::Value::Boolean(b) => TomlNode::Boolean(*b),
        toml::Value::Float(_) => TomlNode::Float(value.to_string()),
        toml::Value::Datetime(moment) => TomlNode::Moment(moment.to_string()),
        toml::Value::Array(items) => TomlNode::List(items.iter().collect()),
        toml::Value::Table(entries) => TomlNode::Table(
            entries.iter().map(|(key, value)| (key.as_str(), value)).collect(),
        ),
    }
}

/// A value to be made into one of the `toml` crate.
pub enum TomlPart {
    Text(String),
    Integer(i64),
    Boolean(bool),
    List(Vec<toml::Value>),
    Table(Vec<(String, toml::Value)>),
}

impl TomlPart {
    /// What the value holds.
    pub open spec fn tree(self) -> TomlTree {
        match self {
            TomlPart::Text(s) => TomlTree::Text(s@),
            TomlPart::Integer(n) => TomlTree::Integer(n as int),
            TomlPart::Boolean(b) => TomlTree::Boolean(b),
            TomlPart::List(items) => TomlTree::List(
                items@.map_values(|item: toml::Value| toml_tree(item)),
            ),
            TomlPart::Table(entries) => TomlTree::Table(
                entries@.map_values(|entry: (String, toml::Value)| (entry.0@, toml_tree(entry.1))),
            ),
        }
    }

    /// Whether no key of a table comes twice.
    pub open spec fn distinct_keys(self) -> bool {
        self matches TomlPart::Table(entries) ==> forall|i: int, j: int|
            0 <= i < j < entries@.len() ==> (#[trigger] entries@[i]).0@ != (
            #[trigger] entries@[j]).0@
    }
}

/// The variants of `toml::Value`, built from their parts. A table keeps the order in which its
/// entries are inserted, as the `preserve_order` feature promises.
#[verifier::external_body]
pub(crate) fn build(part: TomlPart) -> (r: toml::Value)
    requires
        part.distinct_keys(),
    ensures
        toml_tree(r) == part.tree(),
{
    match part {
        TomlPart::Text(s) => toml::Value::String(s),
        TomlPart::Integer(n) => toml::Value::Integer(n),
        TomlPart::Boolean(b) => toml::Value::Boolean(b),
        TomlPart::List(items) => toml::Value::Array(items),
        TomlPart::Table(entries) => toml::Value::Table(entries.into_iter().collect()),
    }
}

/// Why a text is no TOML document: the parser's words, and the byte at which it stopped.
#[derive(Debug)]
pub struct TomlFault {
    pub message: String,
    pub start: Option<usize>,
}

/// What `toml::from_str` makes of a text: what the document holds, or the words and the place
/// of the error.
pub uninterp spec fn toml_outcome(source: Seq<char>) -> Result<
    TomlTree,
    (Seq<char>, Option<usize>),
>;

/// The outcome of reading a document, as values.
pub open spec fn document_outcome(document: Result<toml::Value, TomlFault>) -> Result<
    TomlTree,
    (Seq<char>, Option<usize>),
> {
    match document {
        Ok(value) => Ok(toml_tree(value)),
        Err(fault) => Err((fault.message@, fault.start)),
    }
}

/// `toml::from_str` on the given text. The grammar of TOML is not stated.
#[verifier::external_body]
pub(crate) fn read_toml(source: &str) -> (r: Result<toml::Value, TomlFault>)
    ensures
        document_outcome(r) == toml_outcome(source@),
{
    toml::from_str::<toml::Value>(source).map_err(
        |error| TomlFault {
            message: error.to_string(),
            start: error.span().map(|span| span.start),
        },
    )
}

/// Whether a text has no control characters.
pub open spec fn printable(s: Seq<char>) -> bool {
    forall|i: int| 0 <= i < s.len() ==> !text::is_control(#[trigger] s[i])
}

/// Whether a tree is text without control characters, an integer or a boolean.
pub open spec fn scalar(tree: TomlTree) -> bool {
    match tree {
        TomlTree::Text(s) => printable(s),
        TomlTree::Integer(n) => i64::MIN <= n <= i64::MAX,
        TomlTree::Boolean(_) => true,
        _ => false,
    }
}

/// Whether a text is a key of its own: it is printable and not empty, and not the one by which the
/// reader tells a date-time.
pub open spec fn plain_key(s: Seq<char>) -> bool {
    printable(s) && s.len() > 0 && s != "$__toml_private_datetime"@
}

/// Whether a tree is a table of scalars with different keys.
pub open spec fn record(tree: TomlTree) -> bool {
    tree matches TomlTree::Table(entries) && (forall|i: int|
        0 <= i < entries.len() ==> scalar((#[trigger] entries[i]).1) && plain_key(entries[i].0))
        && (forall|i: int, j: int|
        0 <= i < j < entries.len() ==> (#[trigger] entries[i]).0 != (#[trigger] entries[j]).0)
        && entries.len() > 0
}

/// Whether a tree is a table of scalars and, last, a list of records, with different keys.
pub open spec fn record_document(tree: TomlTree) -> bool {
    tree matches TomlTree::Table(entries) && entries.len() > 0 && (forall|i: int|
        0 <= i < entries.len() - 1 ==> scalar((#[trigger] entries[i]).1)) && (forall|i: int|
        0 <= i < entries.len() ==> plain_key((#[trigger] entries[i]).0)) && (forall|i: int, j: int|
        0 <= i < j < entries.len() ==> (#[trigger] entries[i]).0 != (#[trigger] entries[j]).0) && (
    entries.last().1 matches TomlTree::List(items) && items.len() > 0 && forall|i: int|
        0 <= i < items.len() ==> record(#[trigger] items[i]))
}

/// How many of a quote stand in a row before the `i`-th character.
pub open spec fn quote_run(s: Seq<char>, quote: char, i: int) -> nat
    decreases i,
{
    if i > 0 && s[i - 1] == quote {
        quote_run(s, quote, i - 1) + 1
    } else {
        0
    }
}

/// Whether fewer than 256 of each quote stand in a row before the `i`-th character.
pub open spec fn short_runs(s: Seq<char>, i: int) -> bool {
    quote_run(s, '\'', i) < 256 && quote_run(s, '"', i) < 256
}

/// Whether a text never has 256 of a quote in a row: the writer counts them in one byte.
pub open spec fn few_quotes(s: Seq<char>) -> bool {
    forall|i: int| 0 <= i <= s.len() ==> #[trigger] short_runs(s, i)
}

/// Whether no text or key of a tree has 256 of a quote in a row.
pub open spec fn few_quotes_in(tree: TomlTree) -> bool
    decreases tree,
{
    match tree {
        TomlTree::Text(s) => few_quotes(s),
        TomlTree::List(items) => forall|i: int|
            0 <= i < items.len() ==> few_quotes_in(#[trigger] items[i]),
        TomlTree::Table(entries) => forall|i: int|
            0 <= i < entries.len() ==> few_quotes((#[trigger] entries[i]).0) && few_quotes_in(
                entries[i].1,
            ),
        _ => true,
    }
}

/// See [`few_quotes`].
pub(crate) fn has_few_quotes(s: &str) -> (r: bool)
    ensures
        r == few_quotes(s@),
{
    let chars = text::chars(s);
    let mut single: usize = 0;
    let mut double: usize = 0;
    let mut i: usize = 0;
    while i < chars.len()
        invariant
            i <= chars@.len(),
            chars@ == s@,
            single == quote_run(s@, '\'', i as int),
            double == quote_run(s@, '"', i as int),
            single < 256,
            double < 256,
            forall|k: int| 0 <= k <= i ==> #[trigger] short_runs(s@, k),
        decreases chars.len() - i,
    {
        if chars[i] == '\'' {
            single += 1;
        } else {
            single = 0;
        }
        if chars[i] == '"' {
            double += 1;
        } else {
            double = 0;
        }
        i += 1;
        if single >= 256 || double >= 256 {
            assert(!short_runs(s@, i as int));
            return false;
        }
    }
    true
}

/// A short text has few quotes.
pub proof fn lemma_few_quotes(s: Seq<char>)
    requires
        s.len() < 256,
    ensures
        few_quotes(s),
{
    assert forall|i: int| 0 <= i <= s.len() implies #[trigger] short_runs(s, i) by {
        lemma_quote_run(s, '\'', i);
        lemma_quote_run(s, '"', i);
    }
}

proof fn lemma_quote_run(s: Seq<char>, quote: char, i: int)
    requires
        0 <= i,
    ensures
        quote_run(s, quote, i) <= i,
    decreases i,
{
    if i > 0 {
        lemma_quote_run(s, quote, i - 1);
    }
}

/// What `toml::to_string_pretty` makes of what a value holds: the document, or the words of
/// the error.
pub uninterp spec fn toml_pretty(tree: TomlTree) -> Result<Seq<char>, Seq<char>>;

/// The outcome of writing a document, as values.
pub open spec fn text_outcome(r: Result<String, String>) -> Result<Seq<char>, Seq<char>> {
    match r {
        Ok(s) => Ok(s@),
        Err(s) => Err(s@),
    }
}

/// Whether a document made of scalars and a last list of records, where it could be written,
/// is read back as it was.
pub open spec fn reads_back(written: Result<String, String>, tree: TomlTree) -> bool {
    written matches Ok(s) ==> record_document(tree) ==> toml_outcome(s@) == Ok::<
        TomlTree,
        (Seq<char>, Option<usize>),
    >(tree)
}

/// `toml::to_string_pretty` on a value whose texts have no 256 quotes in a row, which the writer
/// could not count. The layout is not stated; a document made of scalars and a last list of
/// records is read back as it was.
#[verifier::external_body]
pub(crate) fn write_toml(value: &toml::Value) -> (r: Result<String, String>)
    requires
        few_quotes_in(toml_tree(*value)),
    ensures
        text_outcome(r) == toml_pretty(toml_tree(*value)),
        reads_back(r, toml_tree(*value)),
{
    toml::to_string_pretty(value).map_err(|error| error.to_string())
}

} // verus!
