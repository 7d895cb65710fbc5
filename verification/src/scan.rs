//! A scan of YAML text that refuses tags, anchors and aliases, and nesting beyond a bound,
//! before the text is parsed.
use vstd::prelude::*;

use crate::error::{self, Error, ErrorModel};
use crate::text;

verus! {

/// How deep YAML values may nest.
pub const MAX_YAML_DEPTH: usize = 64;

/// Where the scan stands. The first group of fields lasts from line to line; the second is
/// that of the line being scanned.
#[derive(Clone, Copy)]
pub struct Cursor {
    /// Inside a single-quoted scalar.
    pub single: bool,
    /// Inside a double-quoted scalar.
    pub double: bool,
    /// After a backslash in a double-quoted scalar.
    pub escaped: bool,
    /// Inside a block scalar whose parent has this indentation.
    pub block_scalar: Option<usize>,
    /// After a plain scalar that began at this indentation.
    pub plain_scalar: Option<usize>,
    /// How many flow collections are open.
    pub flow: usize,
    /// At a place where a token may begin.
    pub token_start: bool,
    /// At a place where a value is expected.
    pub value_position: bool,
    /// How many compact collections the line has opened.
    pub compact: usize,
    /// Inside a plain scalar.
    pub plain: bool,
    /// After a `:` that separates a key from its value.
    pub structural: bool,
}

/// What one character does to the scan.
pub enum Step {
    Next(Cursor),
    Stop(Cursor),
    Fault(ErrorModel),
}

/// The error for a tag, anchor or alias.
pub open spec fn unsafe_construct(line: int, column: int) -> ErrorModel {
    ErrorModel::validation(
        "unsafe_yaml_construct"@,
        "YAML tags, anchors, and aliases are not supported"@,
    ).with_location(line as usize, column as usize)
}

/// The error for values that nest too deep.
pub open spec fn too_deep() -> ErrorModel {
    ErrorModel::validation(
        "yaml_too_deep"@,
        "YAML front matter exceeds the supported nesting depth"@,
    )
}

/// Whether a character opens, closes or separates a flow collection.
#[verifier::allow_in_spec]
pub fn is_flow(c: char) -> bool
    returns
        c == ',' || c == '[' || c == ']' || c == '{' || c == '}',
{
    c == ',' || c == '[' || c == ']' || c == '{' || c == '}'
}

/// Whether whitespace follows the `k`-th character of the line.
pub open spec fn space_follows(line: Seq<char>, k: int) -> bool {
    k + 1 < line.len() && text::is_whitespace(line[k + 1])
}

/// Whether the characters from the `i`-th on are the modifiers of a block scalar: at most one
/// digit from 1 to 9, and at most one `+` or `-`.
pub open spec fn modifiers(s: Seq<char>, i: int, indentation: bool, chomping: bool) -> bool
    decreases s.len() - i,
{
    if i >= s.len() {
        true
    } else if '1' <= s[i] && s[i] <= '9' && !indentation {
        modifiers(s, i + 1, true, chomping)
    } else if (s[i] == '+' || s[i] == '-') && !chomping {
        modifiers(s, i + 1, indentation, true)
    } else {
        false
    }
}

/// Whether what follows `|` or `>` makes it the header of a block scalar: modifiers, and
/// perhaps a comment.
pub open spec fn block_header(suffix: Seq<char>) -> bool {
    let rest = text::trim(suffix);
    let comment = text::find_from(rest, '#', 0);
    if comment >= rest.len() {
        modifiers(rest, 0, false, false)
    } else if comment > 0 && !text::is_whitespace(rest[comment - 1]) {
        false
    } else {
        modifiers(text::trim(rest.take(comment)), 0, false, false)
    }
}

/// The cursor after a `?` or `-` that may open a compact collection.
pub open spec fn indicator_step(c: Cursor, line: Seq<char>, k: int, index: int) -> Step {
    if space_follows(line, k) {
        if c.compact + 1 > MAX_YAML_DEPTH {
            Step::Fault(too_deep().with_location((index + 2) as usize, (k + 1) as usize))
        } else {
            Step::Next(Cursor { value_position: true, compact: (c.compact + 1) as usize, ..c })
        }
    } else {
        Step::Next(Cursor { value_position: false, plain: true, ..c })
    }
}

/// What the `k`-th character of the line does outside quotes, but for where tokens begin.
pub open spec fn bare_step(
    c: Cursor,
    line: Seq<char>,
    k: int,
    index: int,
    indentation: int,
) -> Step {
    let ch = line[k];
    if ch == '#' && c.token_start {
        Step::Stop(c)
    } else if ch == '"' && !c.plain {
        Step::Next(Cursor { double: true, value_position: false, ..c })
    } else if ch == '\'' && !c.plain {
        Step::Next(Cursor { single: true, value_position: false, ..c })
    } else if (ch == '&' || ch == '*' || ch == '!') && c.token_start && !c.plain {
        Step::Fault(unsafe_construct(index + 2, k + 1))
    } else if ch == ':' {
        if k + 1 >= line.len() || text::is_whitespace(line[k + 1]) || (c.flow > 0 && is_flow(
            line[k + 1],
        )) {
            Step::Next(Cursor { structural: true, plain: false, value_position: true, ..c })
        } else {
            Step::Next(c)
        }
    } else if (ch == '?' || ch == '-') && c.token_start && !c.plain {
        indicator_step(c, line, k, index)
    } else if (ch == '|' || ch == '>') && c.value_position && block_header(
        line.subrange(k + 1, line.len() as int),
    ) {
        Step::Stop(Cursor { block_scalar: Some(indentation as usize), ..c })
    } else if (ch == '[' || ch == '{') && !c.plain {
        if c.flow + 1 > MAX_YAML_DEPTH {
            Step::Fault(too_deep().with_location((index + 2) as usize, (k + 1) as usize))
        } else {
            Step::Next(
                Cursor { flow: (c.flow + 1) as usize, plain: false, value_position: true, ..c },
            )
        }
    } else if ch == ',' && c.flow > 0 {
        Step::Next(Cursor { plain: false, value_position: true, ..c })
    } else if (ch == ']' || ch == '}') && c.flow > 0 {
        Step::Next(
            Cursor { flow: (c.flow - 1) as usize, plain: false, value_position: false, ..c },
        )
    } else if !text::is_whitespace(ch) {
        Step::Next(Cursor { plain: true, value_position: false, ..c })
    } else {
        Step::Next(c)
    }
}

/// Whether a token may begin after the character.
pub open spec fn starts_token(ch: char) -> bool {
    text::is_whitespace(ch) || ch == ':' || is_flow(ch) || ch == '-' || ch == '?'
}

/// What the `k`-th character of the line does.
pub open spec fn char_step(
    c: Cursor,
    line: Seq<char>,
    k: int,
    index: int,
    indentation: int,
) -> Step {
    let ch = line[k];
    if c.double {
        if c.escaped {
            Step::Next(Cursor { escaped: false, ..c })
        } else if ch == '\\' {
            Step::Next(Cursor { escaped: true, ..c })
        } else if ch == '"' {
            Step::Next(Cursor { double: false, ..c })
        } else {
            Step::Next(c)
        }
    } else if c.single {
        if ch == '\'' {
            Step::Next(Cursor { single: false, ..c })
        } else {
            Step::Next(c)
        }
    } else {
        match bare_step(c, line, k, index, indentation) {
            Step::Next(next) => Step::Next(Cursor { token_start: starts_token(ch), ..next }),
            other => other,
        }
    }
}

/// Where the scan stands after the characters of the line from the `k`-th on.
pub open spec fn scan_chars(
    c: Cursor,
    line: Seq<char>,
    k: int,
    index: int,
    indentation: int,
) -> Result<Cursor, ErrorModel>
    decreases line.len() - k,
{
    if k >= line.len() {
        Ok(c)
    } else {
        match char_step(c, line, k, index, indentation) {
            Step::Next(next) => scan_chars(next, line, k + 1, index, indentation),
            Step::Stop(last) => Ok(last),
            Step::Fault(error) => Err(error),
        }
    }
}

/// How many spaces a line begins with, from the `i`-th character on.
pub open spec fn indentation_from(line: Seq<char>, i: int) -> int
    decreases line.len() - i,
{
    if i < line.len() && line[i] == ' ' {
        indentation_from(line, i + 1)
    } else {
        i
    }
}

/// How many spaces a line begins with.
pub open spec fn indentation(line: Seq<char>) -> int {
    indentation_from(line, 0)
}

/// The indentations that are less than the given one, up to the last of them.
pub open spec fn outer(indents: Seq<usize>, indentation: int) -> Seq<usize>
    decreases indents.len(),
{
    if indents.len() > 0 && indentation <= indents.last() {
        outer(indents.drop_last(), indentation)
    } else {
        indents
    }
}

/// The open indentations with that of a line.
pub open spec fn with_indent(indents: Seq<usize>, indentation: int, index: int) -> Result<
    Seq<usize>,
    ErrorModel,
> {
    let next = outer(indents, indentation).push(indentation as usize);
    if next.len() > MAX_YAML_DEPTH {
        Err(too_deep().with_location((index + 2) as usize, (indentation + 1) as usize))
    } else {
        Ok(next)
    }
}

/// Whether a line begins with an indicator that opens an entry of a collection.
pub open spec fn opens_entry(line: Seq<char>) -> bool {
    let rest = text::trim_start(line);
    rest.len() > 0 && (rest[0] == '-' || rest[0] == '?') && (rest.len() == 1 || rest[1] == ' ')
}

/// Whether a line, after its leading whitespace, is a comment.
pub open spec fn is_comment(line: Seq<char>) -> bool {
    let rest = text::trim_start(line);
    rest.len() > 0 && rest[0] == '#'
}

/// Where the scan stands, with the open indentations, after a line that is not inside a block
/// scalar.
pub open spec fn scan_open_line(
    c: Cursor,
    indents: Seq<usize>,
    line: Seq<char>,
    index: int,
) -> Result<(Cursor, Seq<usize>), ErrorModel> {
    let indent = indentation(line);
    let continues = match c.plain_scalar {
        Some(parent) => !opens_entry(line) && (text::blank(line) || indent > parent),
        None => false,
    };
    let in_flow = c.flow > 0;
    let first = if !c.single && !c.double && !continues && !in_flow && !text::blank(line)
        && !is_comment(line) {
        with_indent(indents, indent, index)
    } else {
        Ok(indents)
    };
    match first {
        Err(error) => Err(error),
        Ok(indents) => {
            let start = Cursor {
                plain_scalar: if continues {
                    c.plain_scalar
                } else {
                    None
                },
                token_start: true,
                value_position: false,
                compact: 0,
                plain: continues,
                structural: false,
                ..c
            };
            match scan_chars(start, line, 0, index, indent) {
                Err(error) => Err(error),
                Ok(end) => {
                    let second = if continues && end.structural && !in_flow {
                        with_indent(indents, indent, index)
                    } else {
                        Ok(indents)
                    };
                    match second {
                        Err(error) => Err(error),
                        Ok(indents) => Ok(
                            (
                                Cursor {
                                    plain_scalar: if end.plain && (!continues || end.structural) {
                                        Some(indent as usize)
                                    } else if end.structural {
                                        None
                                    } else {
                                        end.plain_scalar
                                    },
                                    escaped: false,
                                    ..end
                                },
                                indents,
                            ),
                        ),
                    }
                },
            }
        },
    }
}

/// Where the scan stands, with the open indentations, after a line.
pub open spec fn scan_line(
    c: Cursor,
    indents: Seq<usize>,
    line: Seq<char>,
    index: int,
) -> Result<(Cursor, Seq<usize>), ErrorModel> {
    match c.block_scalar {
        Some(parent) => if text::blank(line) || indentation(line) > parent {
            Ok((c, indents))
        } else {
            scan_open_line(Cursor { block_scalar: None, ..c }, indents, line, index)
        },
        None => scan_open_line(c, indents, line, index),
    }
}

/// Whether the lines from the `i`-th on can be parsed, or why not.
pub open spec fn scan_lines(
    c: Cursor,
    indents: Seq<usize>,
    lines: Seq<Seq<char>>,
    i: int,
) -> Result<(), ErrorModel>
    decreases lines.len() - i,
{
    if i >= lines.len() {
        Ok(())
    } else {
        match scan_line(c, indents, lines[i], i) {
            Err(error) => Err(error),
            Ok((next, indents)) => scan_lines(next, indents, lines, i + 1),
        }
    }
}

/// Where the scan stands at first.
pub open spec fn start_cursor() -> Cursor {
    Cursor {
        single: false,
        double: false,
        escaped: false,
        block_scalar: None,
        plain_scalar: None,
        flow: 0,
        token_start: true,
        value_position: false,
        compact: 0,
        plain: false,
        structural: false,
    }
}

/// Whether YAML text can be parsed, or why not: it uses a tag, an anchor or an alias, or
/// nests too deep.
pub open spec fn scan(source: Seq<char>) -> Result<(), ErrorModel> {
    scan_lines(start_cursor(), seq![], text::lines(source), 0)
}

/// What one character does to the scan, in code.
enum Move {
    Next(Cursor),
    Stop(Cursor),
    Fault(Error),
}

impl Move {
    spec fn model(self) -> Step {
        match self {
            Move::Next(c) => Step::Next(c),
            Move::Stop(c) => Step::Stop(c),
            Move::Fault(error) => Step::Fault(error@),
        }
    }
}

fn deep() -> (r: Error)
    ensures
        r@ == too_deep(),
{
    Error::validation("yaml_too_deep", "YAML front matter exceeds the supported nesting depth")
}

fn are_modifiers(s: &Vec<char>) -> (r: bool)
    ensures
        r == modifiers(s@, 0, false, false),
{
    let mut indentation = false;
    let mut chomping = false;
    let mut i: usize = 0;
    while i < s.len()
        invariant
            i <= s.len(),
            modifiers(s@, 0, false, false) == modifiers(s@, i as int, indentation, chomping),
        decreases s.len() - i,
    {
        let c = s[i];
        if '1' <= c && c <= '9' && !indentation {
            indentation = true;
        } else if (c == '+' || c == '-') && !chomping {
            chomping = true;
        } else {
            return false;
        }
        i += 1;
    }
    true
}

fn is_block_scalar_suffix(suffix: &Vec<char>) -> (r: bool)
    ensures
        r == block_header(suffix@),
{
    let rest = text::trimmed(suffix);
    let comment: usize = text::find_char(&rest, '#', 0);
    if comment >= rest.len() {
        return are_modifiers(&rest);
    }
    if comment > 0 && !text::is_whitespace(rest[comment - 1]) {
        return false;
    }
    let before = text::cut(&rest, 0, comment);
    assert(before@ == rest@.take(comment as int));
    are_modifiers(&text::trimmed(&before))
}

fn take_bare(c: Cursor, line: &Vec<char>, k: usize, index: usize, indentation: usize) -> (r: Move)
    requires
        k < line@.len(),
        c.compact <= MAX_YAML_DEPTH,
        c.flow <= MAX_YAML_DEPTH,
        index + 2 <= usize::MAX,
        line@.len() < usize::MAX,
    ensures
        r.model() == bare_step(c, line@, k as int, index as int, indentation as int),
        r matches Move::Next(n) ==> n.compact <= MAX_YAML_DEPTH && n.flow <= MAX_YAML_DEPTH,
        r matches Move::Stop(n) ==> n.compact <= MAX_YAML_DEPTH && n.flow <= MAX_YAML_DEPTH,
{
    let ch = line[k];
    if ch == '#' && c.token_start {
        Move::Stop(c)
    } else if ch == '"' && !c.plain {
        Move::Next(Cursor { double: true, value_position: false, ..c })
    } else if ch == '\'' && !c.plain {
        Move::Next(Cursor { single: true, value_position: false, ..c })
    } else if (ch == '&' || ch == '*' || ch == '!') && c.token_start && !c.plain {
        Move::Fault(
            Error::validation(
                "unsafe_yaml_construct",
                "YAML tags, anchors, and aliases are not supported",
            ).with_location(index + 2, k + 1),
        )
    } else if ch == ':' {
        if k + 1 >= line.len() || text::is_whitespace(line[k + 1]) || (c.flow > 0 && is_flow(
            line[k + 1],
        )) {
            Move::Next(Cursor { structural: true, plain: false, value_position: true, ..c })
        } else {
            Move::Next(c)
        }
    } else if (ch == '?' || ch == '-') && c.token_start && !c.plain {
        if k + 1 < line.len() && text::is_whitespace(line[k + 1]) {
            if c.compact + 1 > MAX_YAML_DEPTH {
                Move::Fault(deep().with_location(index + 2, k + 1))
            } else {
                Move::Next(Cursor { value_position: true, compact: c.compact + 1, ..c })
            }
        } else {
            Move::Next(Cursor { value_position: false, plain: true, ..c })
        }
    } else if (ch == '|' || ch == '>') && c.value_position && is_block_scalar_suffix(
        &text::cut(line, k + 1, line.len()),
    ) {
        Move::Stop(Cursor { block_scalar: Some(indentation), ..c })
    } else if (ch == '[' || ch == '{') && !c.plain {
        if c.flow + 1 > MAX_YAML_DEPTH {
            Move::Fault(deep().with_location(index + 2, k + 1))
        } else {
            Move::Next(Cursor { flow: c.flow + 1, plain: false, value_position: true, ..c })
        }
    } else if ch == ',' && c.flow > 0 {
        Move::Next(Cursor { plain: false, value_position: true, ..c })
    } else if (ch == ']' || ch == '}') && c.flow > 0 {
        Move::Next(Cursor { flow: c.flow - 1, plain: false, value_position: false, ..c })
    } else if !text::is_whitespace(ch) {
        Move::Next(Cursor { plain: true, value_position: false, ..c })
    } else {
        Move::Next(c)
    }
}

fn take_char(c: Cursor, line: &Vec<char>, k: usize, index: usize, indentation: usize) -> (r: Move)
    requires
        k < line@.len(),
        c.compact <= MAX_YAML_DEPTH,
        c.flow <= MAX_YAML_DEPTH,
        index + 2 <= usize::MAX,
        line@.len() < usize::MAX,
    ensures
        r.model() == char_step(c, line@, k as int, index as int, indentation as int),
        r matches Move::Next(n) ==> n.compact <= MAX_YAML_DEPTH && n.flow <= MAX_YAML_DEPTH,
        r matches Move::Stop(n) ==> n.compact <= MAX_YAML_DEPTH && n.flow <= MAX_YAML_DEPTH,
{
    let ch = line[k];
    if c.double {
        if c.escaped {
            Move::Next(Cursor { escaped: false, ..c })
        } else if ch == '\\' {
            Move::Next(Cursor { escaped: true, ..c })
        } else if ch == '"' {
            Move::Next(Cursor { double: false, ..c })
        } else {
            Move::Next(c)
        }
    } else if c.single {
        if ch == '\'' {
            Move::Next(Cursor { single: false, ..c })
        } else {
            Move::Next(c)
        }
    } else {
        match take_bare(c, line, k, index, indentation) {
            Move::Next(next) => {
                let token_start = text::is_whitespace(ch) || ch == ':' || is_flow(ch) || ch == '-'
                    || ch == '?';
                Move::Next(Cursor { token_start, ..next })
            },
            other => other,
        }
    }
}

fn take_chars(c: Cursor, line: &Vec<char>, index: usize, indentation: usize) -> (r: Result<
    Cursor,
    Error,
>)
    requires
        c.compact <= MAX_YAML_DEPTH,
        c.flow <= MAX_YAML_DEPTH,
        index + 2 <= usize::MAX,
        line@.len() < usize::MAX,
    ensures
        error::outcome(r) == scan_chars(c, line@, 0, index as int, indentation as int),
        r matches Ok(n) ==> n.flow <= MAX_YAML_DEPTH,
{
    let mut at = c;
    let mut k: usize = 0;
    while k < line.len()
        invariant
            k <= line@.len(),
            at.compact <= MAX_YAML_DEPTH,
            at.flow <= MAX_YAML_DEPTH,
            index + 2 <= usize::MAX,
            line@.len() < usize::MAX,
            scan_chars(c, line@, 0, index as int, indentation as int) == scan_chars(
                at,
                line@,
                k as int,
                index as int,
                indentation as int,
            ),
        decreases line.len() - k,
    {
        match take_char(at, line, k, index, indentation) {
            Move::Next(next) => {
                at = next;
            },
            Move::Stop(last) => {
                return Ok(last);
            },
            Move::Fault(error) => {
                return Err(error);
            },
        }
        k += 1;
    }
    Ok(at)
}

fn measure(line: &Vec<char>) -> (r: usize)
    ensures
        r == indentation(line@),
        r <= line@.len(),
{
    let mut i: usize = 0;
    while i < line.len() && line[i] == ' '
        invariant
            i <= line@.len(),
            indentation(line@) == indentation_from(line@, i as int),
        decreases line.len() - i,
    {
        i += 1;
    }
    i
}

/// The result of recording an indentation, as values.
spec fn indents_outcome(r: Result<Vec<usize>, Error>) -> Result<Seq<usize>, ErrorModel> {
    match r {
        Ok(v) => Ok(v@),
        Err(error) => Err(error@),
    }
}

fn record_yaml_indent(indents: Vec<usize>, indentation: usize, index: usize) -> (r: Result<
    Vec<usize>,
    Error,
>)
    requires
        index + 2 <= usize::MAX,
        indentation < usize::MAX,
    ensures
        indents_outcome(r) == with_indent(indents@, indentation as int, index as int),
{
    let mut open = indents;
    while open.len() > 0 && indentation <= open[open.len() - 1]
        invariant
            outer(indents@, indentation as int) == outer(open@, indentation as int),
        decreases open@.len(),
    {
        let ghost before = open@;
        let _ = open.pop();
        assert(open@ == before.drop_last());
    }
    open.push(indentation);
    if open.len() > MAX_YAML_DEPTH {
        return Err(deep().with_location(index + 2, indentation + 1));
    }
    Ok(open)
}

fn is_entry(line: &Vec<char>) -> (r: bool)
    ensures
        r == opens_entry(line@),
{
    let rest = text::trimmed_start(line);
    rest.len() > 0 && (rest[0] == '-' || rest[0] == '?') && (rest.len() == 1 || rest[1] == ' ')
}

fn starts_comment(line: &Vec<char>) -> (r: bool)
    ensures
        r == is_comment(line@),
{
    let rest = text::trimmed_start(line);
    rest.len() > 0 && rest[0] == '#'
}

/// The result of scanning a line, as values.
spec fn line_outcome(r: Result<(Cursor, Vec<usize>), Error>) -> Result<
    (Cursor, Seq<usize>),
    ErrorModel,
> {
    match r {
        Ok((c, v)) => Ok((c, v@)),
        Err(error) => Err(error@),
    }
}

fn take_open_line(c: Cursor, indents: Vec<usize>, line: &Vec<char>, index: usize) -> (r: Result<
    (Cursor, Vec<usize>),
    Error,
>)
    requires
        c.flow <= MAX_YAML_DEPTH,
        index + 2 <= usize::MAX,
        line@.len() < usize::MAX,
    ensures
        line_outcome(r) == scan_open_line(c, indents@, line@, index as int),
        r matches Ok(next) ==> next.0.flow <= MAX_YAML_DEPTH,
{
    let indent: usize = measure(line);
    let blank = text::is_blank(line);
    let continues = match c.plain_scalar {
        Some(parent) => !is_entry(line) && (blank || indent > parent),
        None => false,
    };
    let in_flow = c.flow > 0;
    let mut open = indents;
    if !c.single && !c.double && !continues && !in_flow && !blank && !starts_comment(line) {
        match record_yaml_indent(open, indent, index) {
            Ok(next) => {
                open = next;
            },
            Err(error) => {
                return Err(error);
            },
        }
    }
    let start = Cursor {
        plain_scalar: if continues {
            c.plain_scalar
        } else {
            None
        },
        token_start: true,
        value_position: false,
        compact: 0,
        plain: continues,
        structural: false,
        ..c
    };
    let end = match take_chars(start, line, index, indent) {
        Ok(end) => end,
        Err(error) => {
            return Err(error);
        },
    };
    if continues && end.structural && !in_flow {
        match record_yaml_indent(open, indent, index) {
            Ok(next) => {
                open = next;
            },
            Err(error) => {
                return Err(error);
            },
        }
    }
    let plain_scalar = if end.plain && (!continues || end.structural) {
        Some(indent)
    } else if end.structural {
        None
    } else {
        end.plain_scalar
    };
    Ok((Cursor { plain_scalar, escaped: false, ..end }, open))
}

/// Refuse YAML text that uses a tag, an anchor or an alias, or nests too deep.
pub fn reject_unsafe_yaml_tokens(source: &str) -> (r: Result<(), Error>)
    requires
        source@.len() + 2 < usize::MAX,
    ensures
        error::outcome(r) == scan(source@),
{
    let chars = text::chars(source);
    let lines = text::split_lines(&chars);
    let ghost all = text::lines(source@);
    let mut c = Cursor {
        single: false,
        double: false,
        escaped: false,
        block_scalar: None,
        plain_scalar: None,
        flow: 0,
        token_start: true,
        value_position: false,
        compact: 0,
        plain: false,
        structural: false,
    };
    let mut indents: Vec<usize> = Vec::new();
    assert(indents@ =~= Seq::<usize>::empty());
    let mut i: usize = 0;
    while i < lines.len()
        invariant
            i <= lines@.len(),
            lines@.len() <= source@.len(),
            source@.len() + 2 < usize::MAX,
            text::texts(lines@) == all,
            all == text::lines(source@),
            forall|k: int|
                0 <= k < lines@.len() ==> (#[trigger] lines@[k])@.len() <= source@.len(),
            c.flow <= MAX_YAML_DEPTH,
            scan_lines(start_cursor(), seq![], all, 0) == scan_lines(c, indents@, all, i as int),
        decreases lines.len() - i,
    {
        assert(all[i as int] == lines@[i as int]@);
        let line = &lines[i];
        let inside = match c.block_scalar {
            Some(parent) => text::is_blank(line) || measure(line) > parent,
            None => false,
        };
        if !inside {
            match take_open_line(Cursor { block_scalar: None, ..c }, indents, line, i) {
                Ok((next, open)) => {
                    c = next;
                    indents = open;
                },
                Err(error) => {
                    return Err(error);
                },
            }
        }
        i += 1;
    }
    Ok(())
}

} // verus!
