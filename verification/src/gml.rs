//! Loader for GML, the Graph Modelling Language.
//!
//! A document is a sequence of keys with values. A value is an integer, a
//! floating-point number, a quoted string, or a list of keys with values in square
//! brackets. Comments run from `#` to the end of the line. The loader reads the
//! first `graph` list: each `node` in it needs an integer `id`, and each `edge`
//! needs a `source` and a `target` that earlier nodes declared. Everything else is
//! read and discarded.
use crate::distinct::{lemma_orderly, orderly};
use crate::id::Uuid7;
use crate::node::{Edge, EdgeKind, Node, NodeKind};
use crate::source::{copy_edges, copy_nodes, edges_between, mint, nodes_with, GraphSource};
use crate::text::{
    char_debug, decimal, push_decimal, debug_char, debug_str, digit_of, is_digit, is_text,
    parse_signed, push_signed, signed_decimal, signed_value, str_debug, text, to_chars, to_text,
};
use std::collections::BTreeMap;
use vstd::prelude::*;
use vstd::slice::slice_subrange;
use vstd::string::StringExecFns;

verus! {

/// An error in a GML document.
#[derive(Debug)]
pub enum GmlError {
    /// The document is not valid. `line` is where reading it stopped.
    Parse { line: usize, message: String },
    /// An edge that starts on `line` refers to the node `id`, which no earlier node
    /// declared.
    DanglingEdge { line: usize, id: i64 },
}

impl GmlError {
    /// The text of the error.
    pub open spec fn message(&self) -> Seq<char> {
        match self {
            GmlError::Parse { line, message } => "gml parse error at line "@ + decimal(
                *line as nat,
            ) + ": "@ + message@,
            GmlError::DanglingEdge { line, id } => "gml dangling edge at line "@ + decimal(
                *line as nat,
            ) + ": references unknown node id "@ + signed_decimal(*id as int),
        }
    }

    /// The text of the error.
    pub fn to_string(&self) -> (t: String)
        ensures
            t@ == self.message(),
    {
        match self {
            GmlError::Parse { line, message } => {
                let mut t = text("gml parse error at line ");
                push_decimal(&mut t, *line as u64);
                t.append(": ");
                t.append(message.as_str());
                t
            },
            GmlError::DanglingEdge { line, id } => {
                let mut t = text("gml dangling edge at line ");
                push_decimal(&mut t, *line as u64);
                t.append(": references unknown node id ");
                push_signed(&mut t, *id);
                t
            },
        }
    }
}

/// A token. Words, strings and floating-point numbers are given by the places of
/// their characters.
#[derive(Debug, Clone, Copy, PartialEq, Eq, Structural)]
pub enum Tok {
    /// A bare word.
    Ident(usize, usize),
    /// A signed 64-bit integer.
    Int(i64),
    /// A number that is no such integer.
    Float(usize, usize),
    /// The inside of a quoted string.
    Str(usize, usize),
    LBracket,
    RBracket,
}

/// What reading a token gives: a token with the place and line behind it, the end of
/// the document with its line, or a line and a message.
pub enum Lexed {
    Token(Tok, nat, nat),
    End(nat),
    Fail(nat, Seq<char>),
}

/// What reading a construct gives: its value with the place and line behind it, or a
/// line and a message.
pub enum Parsed<T> {
    Done(T, nat, nat),
    Fail(nat, Seq<char>),
}

/// The place and line behind white space and comments.
pub open spec fn skip_blank(s: Seq<char>, pos: nat, line: nat, comment: bool) -> (nat, nat)
    decreases s.len() - pos,
{
    if pos >= s.len() {
        (pos, line)
    } else if s[pos as int] == '\n' {
        skip_blank(s, pos + 1, line + 1, false)
    } else if comment {
        skip_blank(s, pos + 1, line, true)
    } else if s[pos as int] == ' ' || s[pos as int] == '\t' || s[pos as int] == '\r' {
        skip_blank(s, pos + 1, line, false)
    } else if s[pos as int] == '#' {
        skip_blank(s, pos + 1, line, true)
    } else {
        (pos, line)
    }
}

/// The place of the next quotation mark, or the end, and the line there.
pub open spec fn string_end(s: Seq<char>, pos: nat, line: nat) -> (nat, nat)
    decreases s.len() - pos,
{
    if pos >= s.len() || s[pos as int] == '"' {
        (pos, line)
    } else if s[pos as int] == '\n' {
        string_end(s, pos + 1, line + 1)
    } else {
        string_end(s, pos + 1, line)
    }
}

/// The character is a sign.
pub open spec fn is_sign(c: char) -> bool {
    c == '+' || c == '-'
}

/// The place behind the characters of a number: digits, one dot before any exponent,
/// and one exponent mark with a sign or without.
pub open spec fn number_end(s: Seq<char>, pos: nat, dot: bool, exp: bool) -> nat
    decreases s.len() - pos,
{
    if pos >= s.len() {
        pos
    } else {
        let c = s[pos as int];
        if is_digit(c) {
            number_end(s, pos + 1, dot, exp)
        } else if c == '.' && !dot && !exp {
            number_end(s, pos + 1, true, exp)
        } else if (c == 'e' || c == 'E') && !exp {
            if pos + 1 < s.len() && is_sign(s[pos as int + 1]) {
                number_end(s, pos + 2, dot, true)
            } else {
                number_end(s, pos + 1, dot, true)
            }
        } else {
            pos
        }
    }
}

/// The place behind the digits that start at `pos`.
pub open spec fn digits_end(s: Seq<char>, pos: nat) -> nat
    decreases s.len() - pos,
{
    if pos < s.len() && is_digit(s[pos as int]) {
        digits_end(s, pos + 1)
    } else {
        pos
    }
}

/// The place behind a sign, if there is one at `pos`.
pub open spec fn sign_end(s: Seq<char>, pos: nat) -> nat {
    if pos < s.len() && is_sign(s[pos as int]) {
        pos + 1
    } else {
        pos
    }
}

/// `s` is a floating-point literal: a sign or none, digits with or without a dot, at
/// least one digit in all, and an exponent of at least one digit or none.
pub open spec fn is_float(s: Seq<char>) -> bool {
    let start = sign_end(s, 0);
    let whole = digits_end(s, start);
    let has_dot = whole < s.len() && s[whole as int] == '.';
    let after = if has_dot {
        digits_end(s, whole + 1)
    } else {
        whole
    };
    let count = if has_dot {
        (whole - start) + (after - whole - 1)
    } else {
        whole - start
    };
    &&& count > 0
    &&& if after >= s.len() {
        true
    } else if s[after as int] == 'e' || s[after as int] == 'E' {
        let power = sign_end(s, after + 1);
        digits_end(s, power) == s.len() && power < s.len()
    } else {
        false
    }
}

/// A character that may start a word.
pub open spec fn starts_word(c: char) -> bool {
    ('a' <= c <= 'z') || ('A' <= c <= 'Z') || c == '_'
}

/// The place behind the word that runs on at `pos`.
pub open spec fn ident_end(s: Seq<char>, pos: nat) -> nat
    decreases s.len() - pos,
{
    if pos < s.len() && (starts_word(s[pos as int]) || is_digit(s[pos as int])) {
        ident_end(s, pos + 1)
    } else {
        pos
    }
}

/// The first byte of a character in UTF-8, as a character.
pub open spec fn lead_byte(c: char) -> char {
    let x = c as u32;
    if x < 0x80 {
        c
    } else if x < 0x800 {
        (0xc0 + x / 0x40) as char
    } else if x < 0x10000 {
        (0xe0 + x / 0x1000) as char
    } else {
        (0xf0 + x / 0x40000) as char
    }
}

/// The token at `pos`, which is behind white space and comments.
pub open spec fn token_at(s: Seq<char>, pos: nat, line: nat) -> Lexed {
    let c = s[pos as int];
    if c == '[' {
        Lexed::Token(Tok::LBracket, pos + 1, line)
    } else if c == ']' {
        Lexed::Token(Tok::RBracket, pos + 1, line)
    } else if c == '"' {
        let (end, end_line) = string_end(s, pos + 1, line);
        if end >= s.len() {
            Lexed::Fail(end_line, "unterminated string literal"@)
        } else {
            Lexed::Token(Tok::Str((pos + 1) as usize, end as usize), end + 1, end_line)
        }
    } else if is_sign(c) || is_digit(c) {
        let end = number_end(s, pos + 1, false, false);
        let raw = s.subrange(pos as int, end as int);
        match signed_value(raw) {
            Some(n) => Lexed::Token(Tok::Int(n as i64), end, line),
            None => if is_float(raw) {
                Lexed::Token(Tok::Float(pos as usize, end as usize), end, line)
            } else {
                Lexed::Fail(line, "invalid number literal "@ + str_debug(raw))
            },
        }
    } else if starts_word(c) {
        let end = ident_end(s, pos);
        Lexed::Token(Tok::Ident(pos as usize, end as usize), end, line)
    } else {
        Lexed::Fail(line, "unexpected character "@ + char_debug(lead_byte(c)))
    }
}

/// The next token from `pos` on.
pub open spec fn next_token(s: Seq<char>, pos: nat, line: nat) -> Lexed {
    let (start, start_line) = skip_blank(s, pos, line, false);
    if start >= s.len() {
        Lexed::End(start_line)
    } else {
        token_at(s, start, start_line)
    }
}

/// How a token is shown in a message.
pub open spec fn show(s: Seq<char>, tok: Tok) -> Seq<char> {
    match tok {
        Tok::Ident(a, b) => "Ident("@ + str_debug(s.subrange(a as int, b as int)) + ")"@,
        Tok::Int(n) => "Int("@ + signed_decimal(n as int) + ")"@,
        Tok::Float(a, b) => "Float("@ + s.subrange(a as int, b as int) + ")"@,
        Tok::Str(a, b) => "Str("@ + str_debug(s.subrange(a as int, b as int)) + ")"@,
        Tok::LBracket => "LBracket"@,
        Tok::RBracket => "RBracket"@,
    }
}

/// A key of an inner list, by the places of its characters, and its value if that is
/// an integer.
#[derive(Debug, Clone, Copy, PartialEq, Eq, Structural)]
pub struct Field {
    pub start: usize,
    pub end: usize,
    pub value: Option<i64>,
}

/// A value, as far as it matters: of a list, only its keys and integers.
pub enum ValueModel {
    Int(i64),
    Scalar,
    List(Seq<Field>),
}

/// A key of a list, by the places of its characters, with its line and value.
pub struct EntryModel {
    pub start: usize,
    pub end: usize,
    pub line: nat,
    pub value: ValueModel,
}

/// An entry without the inside of its value.
pub open spec fn flattened(e: EntryModel) -> Field {
    Field {
        start: e.start,
        end: e.end,
        value: match e.value {
            ValueModel::Int(n) => Some(n),
            _ => None,
        },
    }
}

/// The value from `pos` on.
pub open spec fn value_at(s: Seq<char>, pos: nat, line: nat) -> Parsed<ValueModel>
    decreases s.len() - pos,
{
    match next_token(s, pos, line) {
        Lexed::Token(Tok::Int(n), p, l) => Parsed::Done(ValueModel::Int(n), p, l),
        Lexed::Token(Tok::Float(a, b), p, l) => Parsed::Done(ValueModel::Scalar, p, l),
        Lexed::Token(Tok::Str(a, b), p, l) => Parsed::Done(ValueModel::Scalar, p, l),
        Lexed::Token(Tok::LBracket, p, l) => if pos < p <= s.len() {
            match entries_at(s, p, l) {
                Parsed::Done(entries, p2, l2) => Parsed::Done(
                    ValueModel::List(entries.map_values(|e: EntryModel| flattened(e))),
                    p2,
                    l2,
                ),
                Parsed::Fail(l2, m) => Parsed::Fail(l2, m),
            }
        } else {
            Parsed::Fail(l, Seq::empty())
        },
        Lexed::Token(Tok::RBracket, p, l) => Parsed::Fail(
            l,
            "unexpected `]` while expecting a value"@,
        ),
        Lexed::Token(Tok::Ident(a, b), p, l) => Parsed::Fail(
            l,
            "expected a value, found identifier `"@ + s.subrange(a as int, b as int) + "`"@,
        ),
        Lexed::End(l) => Parsed::Fail(l, "unexpected end of input while parsing a value"@),
        Lexed::Fail(l, m) => Parsed::Fail(l, m),
    }
}

/// The entries of a list from `pos` on, to its closing bracket.
pub open spec fn entries_at(s: Seq<char>, pos: nat, line: nat) -> Parsed<Seq<EntryModel>>
    decreases s.len() - pos,
{
    match next_token(s, pos, line) {
        Lexed::Token(Tok::RBracket, p, l) => Parsed::Done(Seq::empty(), p, l),
        Lexed::Token(Tok::Ident(a, b), p, l) => if pos < p <= s.len() {
            match value_at(s, p, l) {
                Parsed::Done(v, p2, l2) => if p < p2 <= s.len() {
                    let entry = EntryModel { start: a, end: b, line: l, value: v };
                    prepended(seq![entry], entries_at(s, p2, l2))
                } else {
                    Parsed::Fail(l2, Seq::empty())
                },
                Parsed::Fail(l2, m) => Parsed::Fail(l2, m),
            }
        } else {
            Parsed::Fail(l, Seq::empty())
        },
        Lexed::Token(tok, p, l) => Parsed::Fail(
            l,
            "expected key or `]` inside list, got "@ + show(s, tok),
        ),
        Lexed::End(l) => Parsed::Fail(l, "unexpected end of input inside list"@),
        Lexed::Fail(l, m) => Parsed::Fail(l, m),
    }
}

/// `r` with `front` before its entries.
pub open spec fn prepended(front: Seq<EntryModel>, r: Parsed<Seq<EntryModel>>) -> Parsed<
    Seq<EntryModel>,
> {
    match r {
        Parsed::Done(entries, p, l) => Parsed::Done(front + entries, p, l),
        Parsed::Fail(l, m) => Parsed::Fail(l, m),
    }
}

/// The entries of the first `graph` list from `pos` on. Other keys and their values
/// are passed over.
pub open spec fn graph_at(s: Seq<char>, pos: nat, line: nat) -> Parsed<Seq<EntryModel>>
    decreases s.len() - pos,
{
    match next_token(s, pos, line) {
        Lexed::Token(Tok::Ident(a, b), p, l) => if s.subrange(a as int, b as int) == "graph"@ {
            match next_token(s, p, l) {
                Lexed::Token(Tok::LBracket, p2, l2) => entries_at(s, p2, l2),
                _ => match value_at(s, p, l) {
                    Parsed::Done(v, p2, l2) => Parsed::Fail(line, "`graph` must be a list"@),
                    Parsed::Fail(l2, m) => Parsed::Fail(l2, m),
                },
            }
        } else {
            match value_at(s, p, l) {
                Parsed::Done(v, p2, l2) => if pos < p2 <= s.len() {
                    graph_at(s, p2, l2)
                } else {
                    Parsed::Fail(l2, Seq::empty())
                },
                Parsed::Fail(l2, m) => Parsed::Fail(l2, m),
            }
        },
        Lexed::Token(tok, p, l) => Parsed::Fail(
            line,
            "expected top-level key, got "@ + show(s, tok),
        ),
        Lexed::End(l) => Parsed::Fail(line, "expected `graph` block, reached end of file"@),
        Lexed::Fail(l, m) => Parsed::Fail(l, m),
    }
}

/// The first integer under `key` among the fields from `from` on.
pub open spec fn int_under(s: Seq<char>, fields: Seq<Field>, key: Seq<char>, from: nat) -> Option<
    i64,
>
    decreases fields.len() - from,
{
    if from >= fields.len() {
        None
    } else {
        let f = fields[from as int];
        if s.subrange(f.start as int, f.end as int) == key && f.value is Some {
            f.value
        } else {
            int_under(s, fields, key, from + 1)
        }
    }
}

/// The place of the last node with the number `id`.
pub open spec fn last_node(ids: Seq<i64>, id: i64) -> Option<nat>
    decreases ids.len(),
{
    if ids.len() == 0 {
        None
    } else if ids.last() == id {
        Some((ids.len() - 1) as nat)
    } else {
        last_node(ids.drop_last(), id)
    }
}

/// What the entries of a graph declare: the numbers of the nodes, in order, and the
/// places of the nodes that each edge joins; or what is wrong with them.
pub enum Declared {
    Graph(Seq<i64>, Seq<(nat, nat)>),
    Invalid(nat, Seq<char>),
    Dangling(nat, i64),
}

/// One more entry.
pub open spec fn declare(
    s: Seq<char>,
    ids: Seq<i64>,
    ends: Seq<(nat, nat)>,
    e: EntryModel,
    line: nat,
) -> Declared {
    let key = s.subrange(e.start as int, e.end as int);
    if key == "node"@ {
        match e.value {
            ValueModel::List(fields) => match int_under(s, fields, "id"@, 0) {
                Some(id) => Declared::Graph(ids.push(id), ends),
                None => Declared::Invalid(line, "`node` block missing required `id` field"@),
            },
            _ => Declared::Invalid(line, "`node` value must be a list"@),
        }
    } else if key == "edge"@ {
        match e.value {
            ValueModel::List(fields) => match (
                int_under(s, fields, "source"@, 0),
                int_under(s, fields, "target"@, 0),
            ) {
                (None, _) => Declared::Invalid(
                    line,
                    "`edge` block missing required `source` field"@,
                ),
                (_, None) => Declared::Invalid(
                    line,
                    "`edge` block missing required `target` field"@,
                ),
                (Some(a), Some(b)) => match (last_node(ids, a), last_node(ids, b)) {
                    (None, _) => Declared::Dangling(e.line, a),
                    (_, None) => Declared::Dangling(e.line, b),
                    (Some(x), Some(y)) => Declared::Graph(ids, ends.push((x, y))),
                },
            },
            _ => Declared::Invalid(line, "`edge` value must be a list"@),
        }
    } else {
        Declared::Graph(ids, ends)
    }
}

/// What the first `k` entries declare. `line` is the line behind the graph list.
pub open spec fn declared(s: Seq<char>, entries: Seq<EntryModel>, k: nat, line: nat) -> Declared
    decreases k,
{
    if k == 0 {
        Declared::Graph(Seq::empty(), Seq::empty())
    } else {
        match declared(s, entries, (k - 1) as nat, line) {
            Declared::Graph(ids, ends) => declare(s, ids, ends, entries[k - 1], line),
            other => other,
        }
    }
}

/// What a document declares.
pub open spec fn document(s: Seq<char>) -> Declared {
    match graph_at(s, 0, 1) {
        Parsed::Done(entries, p, l) => declared(s, entries, entries.len(), l),
        Parsed::Fail(l, m) => Declared::Invalid(l, m),
    }
}

/// A place in the document and the line there.
#[derive(Debug, Clone, Copy)]
struct Cursor {
    pos: usize,
    line: usize,
}

impl Cursor {
    /// The place is in the document, and every line before it took a character.
    spec fn fits(self, s: Seq<char>) -> bool {
        self.pos <= s.len() < usize::MAX && self.line <= self.pos + 1
    }
}

proof fn lemma_skip_blank(s: Seq<char>, pos: nat, line: nat, comment: bool)
    requires
        pos <= s.len(),
    ensures
        pos <= skip_blank(s, pos, line, comment).0 <= s.len(),
        line <= skip_blank(s, pos, line, comment).1 <= line + (skip_blank(
            s,
            pos,
            line,
            comment,
        ).0 - pos),
    decreases s.len() - pos,
{
    if pos < s.len() {
        let c = s[pos as int];
        if c == '\n' {
            lemma_skip_blank(s, pos + 1, line + 1, false);
        } else if comment || c == '#' {
            lemma_skip_blank(s, pos + 1, line, true);
        } else if c == ' ' || c == '\t' || c == '\r' {
            lemma_skip_blank(s, pos + 1, line, false);
        }
    }
}

proof fn lemma_string_end(s: Seq<char>, pos: nat, line: nat)
    requires
        pos <= s.len(),
    ensures
        pos <= string_end(s, pos, line).0 <= s.len(),
        line <= string_end(s, pos, line).1 <= line + (string_end(s, pos, line).0 - pos),
    decreases s.len() - pos,
{
    if pos < s.len() && s[pos as int] != '"' {
        if s[pos as int] == '\n' {
            lemma_string_end(s, pos + 1, line + 1);
        } else {
            lemma_string_end(s, pos + 1, line);
        }
    }
}

proof fn lemma_number_end(s: Seq<char>, pos: nat, dot: bool, exp: bool)
    requires
        pos <= s.len(),
    ensures
        pos <= number_end(s, pos, dot, exp) <= s.len(),
    decreases s.len() - pos,
{
    if pos < s.len() {
        let c = s[pos as int];
        if is_digit(c) {
            lemma_number_end(s, pos + 1, dot, exp);
        } else if c == '.' && !dot && !exp {
            lemma_number_end(s, pos + 1, true, exp);
        } else if (c == 'e' || c == 'E') && !exp {
            if pos + 1 < s.len() && is_sign(s[pos as int + 1]) {
                lemma_number_end(s, pos + 2, dot, true);
            } else {
                lemma_number_end(s, pos + 1, dot, true);
            }
        }
    }
}

proof fn lemma_ident_end(s: Seq<char>, pos: nat)
    requires
        pos <= s.len(),
    ensures
        pos <= ident_end(s, pos) <= s.len(),
    decreases s.len() - pos,
{
    if pos < s.len() && (starts_word(s[pos as int]) || is_digit(s[pos as int])) {
        lemma_ident_end(s, pos + 1);
    }
}

/// A token lies inside the document and moves the cursor on.
proof fn lemma_next_token(s: Seq<char>, pos: nat, line: nat)
    requires
        pos <= s.len() < usize::MAX,
        line <= pos + 1,
    ensures
        match next_token(s, pos, line) {
            Lexed::Token(tok, p, l) => {
                &&& pos < p <= s.len()
                &&& line <= l <= p + 1
                &&& match tok {
                    Tok::Ident(a, b) => a <= b <= s.len(),
                    Tok::Float(a, b) => a <= b <= s.len(),
                    Tok::Str(a, b) => a <= b <= s.len(),
                    _ => true,
                }
            },
            Lexed::End(l) => line <= l <= s.len() + 1,
            Lexed::Fail(l, m) => line <= l <= s.len() + 1,
        },
{
    lemma_skip_blank(s, pos, line, false);
    let (p, l) = skip_blank(s, pos, line, false);
    if p < s.len() {
        lemma_string_end(s, p + 1, l);
        lemma_number_end(s, p + 1, false, false);
        lemma_ident_end(s, p);
        if starts_word(s[p as int]) {
            lemma_ident_end(s, p + 1);
        }
    }
}

/// Moves past white space and comments.
fn skip(s: &[char], cur: Cursor) -> (r: Cursor)
    requires
        cur.fits(s@),
    ensures
        r.fits(s@),
        (r.pos as nat, r.line as nat) == skip_blank(s@, cur.pos as nat, cur.line as nat, false),
{
    let ghost goal = skip_blank(s@, cur.pos as nat, cur.line as nat, false);
    let mut pos: usize = cur.pos;
    let mut line: usize = cur.line;
    let mut comment = false;
    let n: usize = s.len();
    while pos < n
        invariant
            n == s@.len() < usize::MAX,
            pos <= n,
            line <= pos + 1,
            goal == skip_blank(s@, pos as nat, line as nat, comment),
            goal == skip_blank(s@, cur.pos as nat, cur.line as nat, false),
        decreases n - pos,
    {
        let c: char = s[pos];
        if c == '\n' {
            line += 1;
            comment = false;
        } else if comment {
        } else if c == ' ' || c == '\t' || c == '\r' {
        } else if c == '#' {
            comment = true;
        } else {
            return Cursor { pos, line };
        }
        pos += 1;
    }
    Cursor { pos, line }
}

/// Whether a character may start a word.
fn word_start(c: char) -> (r: bool)
    ensures
        r == starts_word(c),
{
    let x: u32 = c as u32;
    (x >= 97 && x <= 122) || (x >= 65 && x <= 90) || x == 95
}

/// The place behind the digits that start at `pos`.
fn past_digits(s: &[char], pos: usize) -> (end: usize)
    requires
        pos <= s@.len(),
    ensures
        end == digits_end(s@, pos as nat),
        pos <= end <= s@.len(),
{
    let mut end: usize = pos;
    while end < s.len() && digit_of(s[end]).is_some()
        invariant
            pos <= end <= s@.len(),
            digits_end(s@, pos as nat) == digits_end(s@, end as nat),
        decreases s.len() - end,
    {
        end += 1;
    }
    end
}

/// The place behind a sign, if there is one at `pos`.
fn past_sign(s: &[char], pos: usize) -> (end: usize)
    requires
        pos <= s@.len(),
    ensures
        end == sign_end(s@, pos as nat),
        pos <= end <= s@.len(),
{
    if pos < s.len() && (s[pos] == '+' || s[pos] == '-') {
        pos + 1
    } else {
        pos
    }
}

/// Whether a text is a floating-point literal.
fn float_literal(s: &[char]) -> (r: bool)
    ensures
        r == is_float(s@),
{
    let n: usize = s.len();
    let start: usize = past_sign(s, 0);
    let whole: usize = past_digits(s, start);
    let has_dot = whole < n && s[whole] == '.';
    let after: usize = if has_dot {
        past_digits(s, whole + 1)
    } else {
        whole
    };
    let some = whole > start || (has_dot && after > whole + 1);
    if !some {
        return false;
    }
    if after >= n {
        return true;
    }
    if s[after] == 'e' || s[after] == 'E' {
        let power: usize = past_sign(s, after + 1);
        past_digits(s, power) == n && power < n
    } else {
        false
    }
}

/// The place behind the characters of a number.
fn past_number(s: &[char], pos: usize) -> (end: usize)
    requires
        pos <= s@.len() < usize::MAX,
    ensures
        end == number_end(s@, pos as nat, false, false),
        pos <= end <= s@.len(),
{
    let ghost goal = number_end(s@, pos as nat, false, false);
    let n: usize = s.len();
    let mut end: usize = pos;
    let mut dot = false;
    let mut exp = false;
    while end < n
        invariant
            n == s@.len() < usize::MAX,
            pos <= end <= n,
            goal == number_end(s@, end as nat, dot, exp),
            goal == number_end(s@, pos as nat, false, false),
        decreases n - end,
    {
        let c: char = s[end];
        if digit_of(c).is_some() {
            end += 1;
        } else if c == '.' && !dot && !exp {
            dot = true;
            end += 1;
        } else if (c == 'e' || c == 'E') && !exp {
            exp = true;
            end += 1;
            if end < n && (s[end] == '+' || s[end] == '-') {
                end += 1;
            }
        } else {
            return end;
        }
    }
    end
}

/// The place behind the word that runs on at `pos`.
fn past_ident(s: &[char], pos: usize) -> (end: usize)
    requires
        pos <= s@.len(),
    ensures
        end == ident_end(s@, pos as nat),
        pos <= end <= s@.len(),
{
    let mut end: usize = pos;
    while end < s.len() && (word_start(s[end]) || digit_of(s[end]).is_some())
        invariant
            pos <= end <= s@.len(),
            ident_end(s@, pos as nat) == ident_end(s@, end as nat),
        decreases s.len() - end,
    {
        end += 1;
    }
    end
}

/// The first byte of a character in UTF-8, as a character.
fn first_byte(c: char) -> (r: char)
    ensures
        r == lead_byte(c),
{
    let x: u32 = c as u32;
    if x < 0x80 {
        c
    } else if x < 0x800 {
        (0xc0 + x / 0x40) as u8 as char
    } else if x < 0x10000 {
        (0xe0 + x / 0x1000) as u8 as char
    } else {
        (0xf0 + x / 0x40000) as u8 as char
    }
}

/// A parse error with a fixed message.
fn fail(line: usize, message: &str) -> (e: GmlError)
    ensures
        e matches GmlError::Parse { line: l, message: m } && l == line && m@ == message@,
{
    GmlError::Parse { line, message: text(message) }
}

/// What reading a token gave: `r`, with the cursor behind it.
spec fn lexed_as(r: Result<Option<Tok>, GmlError>, cur: Cursor, want: Lexed) -> bool {
    match want {
        Lexed::Token(tok, p, l) => r == Ok::<Option<Tok>, GmlError>(Some(tok)) && cur.pos == p
            && cur.line == l,
        Lexed::End(l) => r == Ok::<Option<Tok>, GmlError>(None) && cur.line == l,
        Lexed::Fail(l, m) => r matches Err(GmlError::Parse { line, message }) && line == l
            && message@ == m,
    }
}

/// Reads the next token and moves the cursor behind it.
fn read_token(s: &[char], cur: &mut Cursor) -> (r: Result<Option<Tok>, GmlError>)
    requires
        old(cur).fits(s@),
    ensures
        final(cur).fits(s@),
        lexed_as(r, *final(cur), next_token(s@, old(cur).pos as nat, old(cur).line as nat)),
{
    proof {
        lemma_next_token(s@, cur.pos as nat, cur.line as nat);
    }
    *cur = skip(s, *cur);
    let n: usize = s.len();
    if cur.pos >= n {
        return Ok(None);
    }
    let pos: usize = cur.pos;
    let line: usize = cur.line;
    let c: char = s[pos];
    if c == '[' {
        *cur = Cursor { pos: pos + 1, line };
        Ok(Some(Tok::LBracket))
    } else if c == ']' {
        *cur = Cursor { pos: pos + 1, line };
        Ok(Some(Tok::RBracket))
    } else if c == '"' {
        let ghost goal = string_end(s@, (pos + 1) as nat, line as nat);
        let mut end: usize = pos + 1;
        let mut end_line: usize = line;
        while end < n && s[end] != '"'
            invariant
                n == s@.len() < usize::MAX,
                pos < end <= n,
                line <= pos + 1,
                end_line <= end,
                goal == string_end(s@, end as nat, end_line as nat),
            decreases n - end,
        {
            if s[end] == '\n' {
                end_line += 1;
            }
            end += 1;
        }
        if end >= n {
            return Err(fail(end_line, "unterminated string literal"));
        }
        *cur = Cursor { pos: end + 1, line: end_line };
        Ok(Some(Tok::Str(pos + 1, end)))
    } else if c == '-' || c == '+' || digit_of(c).is_some() {
        let end: usize = past_number(s, pos + 1);
        let raw = slice_subrange(s, pos, end);
        match parse_signed(raw) {
            Some(v) => {
                *cur = Cursor { pos: end, line };
                Ok(Some(Tok::Int(v)))
            },
            None => {
                if float_literal(raw) {
                    *cur = Cursor { pos: end, line };
                    Ok(Some(Tok::Float(pos, end)))
                } else {
                    let mut message = text("invalid number literal ");
                    let shown = debug_str(to_text(raw).as_str());
                    message.append(shown.as_str());
                    Err(GmlError::Parse { line, message })
                }
            },
        }
    } else if word_start(c) {
        let end: usize = past_ident(s, pos);
        *cur = Cursor { pos: end, line };
        Ok(Some(Tok::Ident(pos, end)))
    } else {
        let mut message = text("unexpected character ");
        let shown = debug_char(first_byte(c));
        message.append(shown.as_str());
        Err(GmlError::Parse { line, message })
    }
}

/// A value, as far as it matters.
enum Value {
    Int(i64),
    Scalar,
    List(Vec<Field>),
}

impl View for Value {
    type V = ValueModel;

    closed spec fn view(&self) -> ValueModel {
        match *self {
            Value::Int(n) => ValueModel::Int(n),
            Value::Scalar => ValueModel::Scalar,
            Value::List(fields) => ValueModel::List(fields@),
        }
    }
}

/// A key of a list with its line and value.
struct Entry {
    start: usize,
    end: usize,
    line: usize,
    value: Value,
}

impl View for Entry {
    type V = EntryModel;

    closed spec fn view(&self) -> EntryModel {
        EntryModel {
            start: self.start,
            end: self.end,
            line: self.line as nat,
            value: self.value@,
        }
    }
}

/// The contents of a list of entries.
spec fn models(entries: Seq<Entry>) -> Seq<EntryModel> {
    Seq::new(entries.len(), |i: int| entries[i]@)
}

/// Every key lies inside the document.
spec fn keys_inside(entries: Seq<Entry>, n: nat) -> bool {
    forall|i: int| 0 <= i < entries.len() ==> entry_inside(#[trigger] entries[i], n)
}

/// The key of an entry, and those of its value, lie inside the document.
spec fn entry_inside(e: Entry, n: nat) -> bool {
    &&& e.start <= e.end <= n
    &&& value_inside(e.value, n)
}

/// The keys of a value lie inside the document.
spec fn value_inside(v: Value, n: nat) -> bool {
    match v {
        Value::List(fields) => forall|i: int|
            0 <= i < fields@.len() ==> (#[trigger] fields@[i]).start <= fields@[i].end <= n,
        _ => true,
    }
}

/// What reading a value gave: `r`, with the cursor behind it.
spec fn value_as(r: Result<Value, GmlError>, cur: Cursor, want: Parsed<ValueModel>) -> bool {
    match want {
        Parsed::Done(v, p, l) => r matches Ok(x) && x@ == v && cur.pos == p && cur.line == l,
        Parsed::Fail(l, m) => r matches Err(GmlError::Parse { line, message }) && line == l
            && message@ == m,
    }
}

/// What reading a list gave: `r`, with the cursor behind it.
spec fn entries_as(
    r: Result<Vec<Entry>, GmlError>,
    cur: Cursor,
    want: Parsed<Seq<EntryModel>>,
) -> bool {
    match want {
        Parsed::Done(v, p, l) => r matches Ok(x) && models(x@) == v && cur.pos == p && cur.line
            == l,
        Parsed::Fail(l, m) => r matches Err(GmlError::Parse { line, message }) && line == l
            && message@ == m,
    }
}

/// How a token is shown in a message.
fn shown(s: &[char], tok: Tok) -> (t: String)
    requires
        match tok {
            Tok::Ident(a, b) => a <= b <= s@.len(),
            Tok::Float(a, b) => a <= b <= s@.len(),
            Tok::Str(a, b) => a <= b <= s@.len(),
            _ => true,
        },
    ensures
        t@ == show(s@, tok),
{
    match tok {
        Tok::Ident(a, b) => {
            let mut t = text("Ident(");
            t.append(debug_str(to_text(slice_subrange(s, a, b)).as_str()).as_str());
            t.append(")");
            t
        },
        Tok::Int(n) => {
            let mut t = text("Int(");
            push_signed(&mut t, n);
            t.append(")");
            t
        },
        Tok::Float(a, b) => {
            let mut t = text("Float(");
            t.append(to_text(slice_subrange(s, a, b)).as_str());
            t.append(")");
            t
        },
        Tok::Str(a, b) => {
            let mut t = text("Str(");
            t.append(debug_str(to_text(slice_subrange(s, a, b)).as_str()).as_str());
            t.append(")");
            t
        },
        Tok::LBracket => text("LBracket"),
        Tok::RBracket => text("RBracket"),
    }
}

/// The entries of a list without the insides of their values.
fn flatten(entries: &Vec<Entry>) -> (fields: Vec<Field>)
    ensures
        fields@ == models(entries@).map_values(|e: EntryModel| flattened(e)),
{
    let mut fields: Vec<Field> = Vec::new();
    let mut i: usize = 0;
    let ghost want = models(entries@).map_values(|e: EntryModel| flattened(e));
    while i < entries.len()
        invariant
            i <= entries.len(),
            want == models(entries@).map_values(|e: EntryModel| flattened(e)),
            fields@ =~= want.take(i as int),
        decreases entries.len() - i,
    {
        let e = &entries[i];
        let value = match e.value {
            Value::Int(n) => Some(n),
            _ => None,
        };
        let field = Field { start: e.start, end: e.end, value };
        assert(want[i as int] == flattened(entries@[i as int]@));
        fields.push(field);
        i += 1;
    }
    fields
}

/// Reads a value and moves the cursor behind it.
fn read_value(s: &[char], cur: &mut Cursor) -> (r: Result<Value, GmlError>)
    requires
        old(cur).fits(s@),
    ensures
        value_as(r, *final(cur), value_at(s@, old(cur).pos as nat, old(cur).line as nat)),
        r is Ok ==> final(cur).fits(s@) && final(cur).pos > old(cur).pos && value_inside(
            r->Ok_0,
            s@.len(),
        ),
    decreases s@.len() - old(cur).pos,
{
    proof {
        lemma_next_token(s@, cur.pos as nat, cur.line as nat);
    }
    match read_token(s, cur) {
        Err(e) => Err(e),
        Ok(None) => Err(fail(cur.line, "unexpected end of input while parsing a value")),
        Ok(Some(tok)) => match tok {
            Tok::Int(n) => Ok(Value::Int(n)),
            Tok::Float(_, _) => Ok(Value::Scalar),
            Tok::Str(_, _) => Ok(Value::Scalar),
            Tok::LBracket => {
                match read_entries(s, cur) {
                    Err(e) => Err(e),
                    Ok(entries) => {
                        let fields = flatten(&entries);
                        proof {
                            assert forall|i: int| 0 <= i < fields@.len() implies (
                            #[trigger] fields@[i]).start <= fields@[i].end <= s@.len() by {
                                assert(entry_inside(entries@[i], s@.len()));
                                assert(models(entries@)[i] == entries@[i]@);
                            }
                        }
                        Ok(Value::List(fields))
                    },
                }
            },
            Tok::RBracket => Err(fail(cur.line, "unexpected `]` while expecting a value")),
            Tok::Ident(a, b) => {
                let mut message = text("expected a value, found identifier `");
                message.append(to_text(slice_subrange(s, a, b)).as_str());
                message.append("`");
                Err(GmlError::Parse { line: cur.line, message })
            },
        },
    }
}

/// Reads the entries of a list and moves the cursor behind its closing bracket.
fn read_entries(s: &[char], cur: &mut Cursor) -> (r: Result<Vec<Entry>, GmlError>)
    requires
        old(cur).fits(s@),
    ensures
        entries_as(r, *final(cur), entries_at(s@, old(cur).pos as nat, old(cur).line as nat)),
        r is Ok ==> final(cur).fits(s@) && final(cur).pos > old(cur).pos && keys_inside(
            r->Ok_0@,
            s@.len(),
        ),
    decreases s@.len() - old(cur).pos,
{
    let ghost goal = entries_at(s@, cur.pos as nat, cur.line as nat);
    let ghost start = cur.pos;
    let mut entries: Vec<Entry> = Vec::new();
    proof {
        let rest = entries_at(s@, cur.pos as nat, cur.line as nat);
        assert(models(entries@) =~= Seq::<EntryModel>::empty());
        if let Parsed::Done(v, p, l) = rest {
            assert(models(entries@) + v =~= v);
        }
    }
    loop
        invariant
            cur.fits(s@),
            start <= cur.pos,
            start == old(cur).pos,
            goal == entries_at(s@, old(cur).pos as nat, old(cur).line as nat),
            goal == prepended(
                models(entries@),
                entries_at(s@, cur.pos as nat, cur.line as nat),
            ),
            keys_inside(entries@, s@.len()),
        decreases s@.len() - cur.pos,
    {
        let ghost before = *cur;
        proof {
            lemma_next_token(s@, cur.pos as nat, cur.line as nat);
        }
        match read_token(s, cur) {
            Err(e) => {
                return Err(e);
            },
            Ok(None) => {
                return Err(fail(cur.line, "unexpected end of input inside list"));
            },
            Ok(Some(tok)) => match tok {
                Tok::RBracket => {
                    assert(models(entries@) + Seq::<EntryModel>::empty() =~= models(entries@));
                    return Ok(entries);
                },
                Tok::Ident(a, b) => {
                    let line: usize = cur.line;
                    let ghost mid = *cur;
                    match read_value(s, cur) {
                        Err(e) => {
                            return Err(e);
                        },
                        Ok(value) => {
                            let ghost earlier = entries@;
                            let entry = Entry { start: a, end: b, line, value };
                            entries.push(entry);
                            proof {
                                let rest = entries_at(s@, cur.pos as nat, cur.line as nat);
                                assert(models(entries@) =~= models(earlier).push(entry@));
                                if let Parsed::Done(v, p, l) = rest {
                                    assert(models(earlier) + (seq![entry@] + v) =~= models(entries@)
                                        + v);
                                }
                                assert forall|i: int| 0 <= i < entries@.len() implies entry_inside(
                                    #[trigger] entries@[i],
                                    s@.len(),
                                ) by {
                                    if i < earlier.len() {
                                        assert(entry_inside(earlier[i], s@.len()));
                                    }
                                }
                            }
                        },
                    }
                },
                other => {
                    let mut message = text("expected key or `]` inside list, got ");
                    message.append(shown(s, other).as_str());
                    return Err(GmlError::Parse { line: cur.line, message });
                },
            },
        }
    }
}

/// Reads the entries of the first `graph` list.
fn read_graph(s: &[char], cur: &mut Cursor) -> (r: Result<Vec<Entry>, GmlError>)
    requires
        old(cur).fits(s@),
    ensures
        entries_as(r, *final(cur), graph_at(s@, old(cur).pos as nat, old(cur).line as nat)),
        r is Ok ==> final(cur).fits(s@) && keys_inside(r->Ok_0@, s@.len()),
{
    let ghost goal = graph_at(s@, cur.pos as nat, cur.line as nat);
    loop
        invariant
            cur.fits(s@),
            goal == graph_at(s@, old(cur).pos as nat, old(cur).line as nat),
            goal == graph_at(s@, cur.pos as nat, cur.line as nat),
        decreases s@.len() - cur.pos,
    {
        let key_line: usize = cur.line;
        proof {
            lemma_next_token(s@, cur.pos as nat, cur.line as nat);
        }
        match read_token(s, cur) {
            Err(e) => {
                return Err(e);
            },
            Ok(None) => {
                return Err(fail(key_line, "expected `graph` block, reached end of file"));
            },
            Ok(Some(tok)) => match tok {
                Tok::Ident(a, b) => {
                    if is_text(slice_subrange(s, a, b), "graph") {
                        let mut ahead = *cur;
                        proof {
                            lemma_next_token(s@, cur.pos as nat, cur.line as nat);
                        }
                        let bracket = match read_token(s, &mut ahead) {
                            Ok(Some(Tok::LBracket)) => true,
                            _ => false,
                        };
                        if bracket {
                            *cur = ahead;
                            return read_entries(s, cur);
                        }
                        match read_value(s, cur) {
                            Err(e) => {
                                return Err(e);
                            },
                            Ok(_) => {
                                return Err(fail(key_line, "`graph` must be a list"));
                            },
                        }
                    } else {
                        match read_value(s, cur) {
                            Err(e) => {
                                return Err(e);
                            },
                            Ok(_) => {},
                        }
                    }
                },
                other => {
                    let mut message = text("expected top-level key, got ");
                    message.append(shown(s, other).as_str());
                    return Err(GmlError::Parse { line: key_line, message });
                },
            },
        }
    }
}

/// The first integer under `key`.
fn find_int(s: &[char], fields: &Vec<Field>, key: &str) -> (r: Option<i64>)
    requires
        forall|i: int|
            0 <= i < fields@.len() ==> (#[trigger] fields@[i]).start <= fields@[i].end <= s@.len(),
    ensures
        r == int_under(s@, fields@, key@, 0),
{
    let mut i: usize = 0;
    while i < fields.len()
        invariant
            i <= fields.len(),
            forall|i: int|
                0 <= i < fields@.len() ==> (#[trigger] fields@[i]).start <= fields@[i].end
                    <= s@.len(),
            int_under(s@, fields@, key@, 0) == int_under(s@, fields@, key@, i as nat),
        decreases fields.len() - i,
    {
        let f = fields[i];
        assert(fields@[i as int].start <= fields@[i as int].end);
        if is_text(slice_subrange(s, f.start, f.end), key) {
            if f.value.is_some() {
                return f.value;
            }
        }
        i += 1;
    }
    None
}

/// The index of the last node with each number.
spec fn index_fits(index: Map<i64, usize>, ids: Seq<i64>) -> bool {
    forall|id: i64|
        match last_node(ids, id) {
            Some(p) => #[trigger] index.contains_key(id) && index[id] == p,
            None => !index.contains_key(id),
        }
}

proof fn lemma_last_node(ids: Seq<i64>, id: i64)
    ensures
        last_node(ids, id) is Some ==> last_node(ids, id)->0 < ids.len(),
    decreases ids.len(),
{
    if ids.len() > 0 && ids.last() != id {
        lemma_last_node(ids.drop_last(), id);
    }
}

/// A graph read from a GML document.
#[derive(Debug)]
pub struct GmlSource {
    nodes: Vec<Node>,
    edges: Vec<Edge>,
}

/// The nodes and edges stand for the declared ones: there are as many of each, they
/// have the given kinds, and each edge joins the nodes at the declared places.
pub open spec fn realizes(
    nodes: Seq<Node>,
    edges: Seq<Edge>,
    ids: Seq<i64>,
    ends: Seq<(nat, nat)>,
    node_kind: NodeKind,
    edge_kind: EdgeKind,
) -> bool {
    &&& nodes.len() == ids.len()
    &&& edges.len() == ends.len()
    &&& forall|i: int| 0 <= i < nodes.len() ==> (#[trigger] nodes[i]).kind == node_kind
    &&& forall|k: int|
        0 <= k < edges.len() ==> {
            &&& (#[trigger] edges[k]).kind == edge_kind
            &&& ends[k].0 < nodes.len()
            &&& ends[k].1 < nodes.len()
            &&& edges[k].source == nodes[ends[k].0 as int].id
            &&& edges[k].target == nodes[ends[k].1 as int].id
        }
}

/// Once something is wrong, the remaining entries do not matter.
proof fn lemma_declared_stops(s: Seq<char>, entries: Seq<EntryModel>, k: nat, n: nat, line: nat)
    requires
        k <= n,
        !(declared(s, entries, k, line) is Graph),
    ensures
        declared(s, entries, n, line) == declared(s, entries, k, line),
    decreases n,
{
    if k < n {
        lemma_declared_stops(s, entries, k, (n - 1) as nat, line);
    }
}

/// What building a graph from a document gave.
pub open spec fn built_as(
    r: Result<GmlSource, GmlError>,
    want: Declared,
    node_kind: NodeKind,
    edge_kind: EdgeKind,
) -> bool {
    match want {
        Declared::Graph(ids, ends) => r is Ok && realizes(
            r->Ok_0.node_seq(),
            r->Ok_0.edge_seq(),
            ids,
            ends,
            node_kind,
            edge_kind,
        ),
        Declared::Invalid(l, m) => r matches Err(GmlError::Parse { line, message }) && line == l
            && message@ == m,
        Declared::Dangling(l, x) => r matches Err(GmlError::DanglingEdge { line, id }) && line == l
            && id == x,
    }
}

/// A graph as a GML document declares it.
pub struct GmlDocument {
    /// The numbers of the nodes.
    ids: Vec<i64>,
    /// The places of the nodes that each edge joins.
    ends: Vec<(usize, usize)>,
}

/// Pairs of places, as values.
spec fn places(ends: Seq<(usize, usize)>) -> Seq<(nat, nat)> {
    ends.map_values(|e: (usize, usize)| (e.0 as nat, e.1 as nat))
}

impl GmlDocument {
    /// The numbers of the nodes, in the order in which they are declared.
    pub closed spec fn node_numbers(&self) -> Seq<i64> {
        self.ids@
    }

    /// The places of the nodes that each edge joins, in the order in which the edges are
    /// declared.
    pub closed spec fn edge_ends(&self) -> Seq<(nat, nat)> {
        places(self.ends@)
    }

    /// The edges join nodes.
    #[verifier::type_invariant]
    spec fn wf(&self) -> bool {
        forall|k: int|
            0 <= k < self.ends@.len() ==> (#[trigger] self.ends@[k]).0 < self.ids@.len()
                && self.ends@[k].1 < self.ids@.len()
    }

    /// Reads a GML document.
    pub fn from_str(text: &str) -> (r: Result<Self, GmlError>)
        requires
            text@.len() < usize::MAX,
        ensures
            match document(text@) {
                Declared::Graph(ids, ends) => r is Ok && r->Ok_0.node_numbers() == ids
                    && r->Ok_0.edge_ends() == ends,
                Declared::Invalid(l, m) => r matches Err(GmlError::Parse { line, message })
                    && line == l && message@ == m,
                Declared::Dangling(l, x) => r matches Err(GmlError::DanglingEdge { line, id })
                    && line == l && id == x,
            },
    {
        broadcast use vstd::std_specs::btree::group_btree_axioms;

        let chars = to_chars(text);
        let s = chars.as_slice();
        let mut cur = Cursor { pos: 0, line: 1 };
        let entries = match read_graph(s, &mut cur) {
            Ok(entries) => entries,
            Err(e) => {
                return Err(e);
            },
        };
        let line: usize = cur.line;
        let ghost all = models(entries@);
        proof {
            lemma_orderly();
        }
        let mut index: BTreeMap<i64, usize> = BTreeMap::new();
        let mut ids: Vec<i64> = Vec::new();
        let mut ends: Vec<(usize, usize)> = Vec::new();
        assert(places(ends@) =~= Seq::empty());
        let mut k: usize = 0;
        while k < entries.len()
            invariant
                k <= entries.len(),
                orderly::<i64>(),
                all == models(entries@),
                document(text@) == declared(s@, all, all.len(), line as nat),
                keys_inside(entries@, s@.len()),
                declared(s@, all, k as nat, line as nat) == Declared::Graph(
                    ids@,
                    places(ends@),
                ),
                index_fits(index@, ids@),
                forall|j: int|
                    0 <= j < ends@.len() ==> (#[trigger] ends@[j]).0 < ids@.len() && ends@[j].1
                        < ids@.len(),
            decreases entries.len() - k,
        {
            let e = &entries[k];
            let ghost prior = ids@;
            proof {
                assert(all[k as int] == entries@[k as int]@);
                assert(entry_inside(entries@[k as int], s@.len()));
                if !(declared(s@, all, (k + 1) as nat, line as nat) is Graph) {
                    lemma_declared_stops(s@, all, (k + 1) as nat, all.len(), line as nat);
                }
            }
            let key = slice_subrange(s, e.start, e.end);
            if is_text(key, "node") {
                let id: i64 = match &e.value {
                    Value::List(fields) => match find_int(s, fields, "id") {
                        Some(id) => id,
                        None => {
                            return Err(fail(line, "`node` block missing required `id` field"));
                        },
                    },
                    _ => {
                        return Err(fail(line, "`node` value must be a list"));
                    },
                };
                index.insert(id, ids.len());
                ids.push(id);
                assert(ids@.drop_last() =~= prior);
            } else if is_text(key, "edge") {
                let ends_found: (i64, i64) = match &e.value {
                    Value::List(fields) => {
                        let source: i64 = match find_int(s, fields, "source") {
                            Some(x) => x,
                            None => {
                                return Err(
                                    fail(line, "`edge` block missing required `source` field"),
                                );
                            },
                        };
                        let target: i64 = match find_int(s, fields, "target") {
                            Some(x) => x,
                            None => {
                                return Err(
                                    fail(line, "`edge` block missing required `target` field"),
                                );
                            },
                        };
                        (source, target)
                    },
                    _ => {
                        return Err(fail(line, "`edge` value must be a list"));
                    },
                };
                let source: i64 = ends_found.0;
                let target: i64 = ends_found.1;
                proof {
                    lemma_last_node(ids@, source);
                    lemma_last_node(ids@, target);
                    assert(index@.contains_key(source) || !index@.contains_key(source));
                    assert(index@.contains_key(target) || !index@.contains_key(target));
                }
                let a: usize = match index.get(&source) {
                    Some(p) => *p,
                    None => {
                        return Err(GmlError::DanglingEdge { line: e.line, id: source });
                    },
                };
                let b: usize = match index.get(&target) {
                    Some(p) => *p,
                    None => {
                        return Err(GmlError::DanglingEdge { line: e.line, id: target });
                    },
                };
                let ghost earlier = places(ends@);
                ends.push((a, b));
                assert(places(ends@) =~= earlier.push((a as nat, b as nat)));
            }
            k += 1;
        }
        Ok(GmlDocument { ids, ends })
    }

    /// The number of nodes.
    pub fn node_count(&self) -> (n: usize)
        ensures
            n == self.node_numbers().len(),
    {
        self.ids.len()
    }
}

impl GmlSource {
    /// The nodes of the source.
    pub closed spec fn node_list(&self) -> Seq<Node> {
        self.nodes@
    }

    /// The edges of the source.
    pub closed spec fn edge_list(&self) -> Seq<Edge> {
        self.edges@
    }

    /// Reads a GML document. Nodes and edges are minted in the order in which they are
    /// declared and receive the given kinds.
    pub fn from_str(text: &str, node_kind: &NodeKind, edge_kind: &EdgeKind) -> (r: Result<
        Self,
        GmlError,
    >)
        requires
            text@.len() < usize::MAX,
        ensures
            built_as(r, document(text@), *node_kind, *edge_kind),
    {
        match GmlDocument::from_str(text) {
            Ok(doc) => {
                let ids = mint(doc.node_count());
                Ok(Self::with_ids(&doc, &ids, node_kind, edge_kind))
            },
            Err(e) => Err(e),
        }
    }

    /// The graph of a document whose nodes have the given identifiers, in the order in
    /// which they are declared.
    pub fn with_ids(
        doc: &GmlDocument,
        ids: &Vec<Uuid7>,
        node_kind: &NodeKind,
        edge_kind: &EdgeKind,
    ) -> (source: Self)
        requires
            ids@.len() == doc.node_numbers().len(),
        ensures
            realizes(
                source.node_seq(),
                source.edge_seq(),
                doc.node_numbers(),
                doc.edge_ends(),
                *node_kind,
                *edge_kind,
            ),
            forall|i: int|
                0 <= i < source.node_seq().len() ==> (#[trigger] source.node_seq()[i]).id
                    == ids@[i],
    {
        proof {
            use_type_invariant(doc);
        }
        let nodes = nodes_with(ids, node_kind);
        let edges = edges_between(&nodes, &doc.ends, edge_kind);
        proof {
            assert forall|k: int| 0 <= k < edges@.len() implies ({
                &&& (#[trigger] edges@[k]).kind == *edge_kind
                &&& doc.edge_ends()[k].0 < nodes@.len()
                &&& doc.edge_ends()[k].1 < nodes@.len()
                &&& edges@[k].source == nodes@[doc.edge_ends()[k].0 as int].id
                &&& edges@[k].target == nodes@[doc.edge_ends()[k].1 as int].id
            }) by {
                assert(doc.ends@[k].0 < nodes@.len());
            }
        }
        GmlSource { nodes, edges }
    }

    /// The number of nodes.
    pub fn node_len(&self) -> (n: usize)
        ensures
            n == self.node_seq().len(),
    {
        self.nodes.len()
    }

    /// The number of edges.
    pub fn edge_len(&self) -> (n: usize)
        ensures
            n == self.edge_seq().len(),
    {
        self.edges.len()
    }
}

impl GraphSource for GmlSource {
    open spec fn node_seq(&self) -> Seq<Node> {
        self.node_list()
    }

    open spec fn edge_seq(&self) -> Seq<Edge> {
        self.edge_list()
    }

    fn nodes(&self) -> (nodes: Vec<Node>) {
        copy_nodes(self.nodes.as_slice())
    }

    fn edges(&self) -> (edges: Vec<Edge>) {
        copy_edges(self.edges.as_slice())
    }

    fn node_count_hint(&self) -> (hint: Option<usize>)
        ensures
            hint is Some,
            hint->0 == self.node_seq().len(),
    {
        Some(self.nodes.len())
    }

    fn edge_count_hint(&self) -> (hint: Option<usize>)
        ensures
            hint is Some,
            hint->0 == self.edge_seq().len(),
    {
        Some(self.edges.len())
    }
}

} // verus!
