//! Loader for schema dumps in the form that `mysqldump --no-data` writes.
//!
//! Each table becomes a node and each foreign key an edge. The dump is read line by
//! line: `CREATE TABLE` opens a table, whose body may hold foreign keys, and a
//! standalone `ALTER TABLE` may add one. `USE` sets the database that qualifies table
//! names, and what stands between `DELIMITER` lines belongs to routines and is passed
//! over. Foreign keys to tables that the dump does not declare are dropped. A text that
//! is neither blank nor has any line in the form of a dump is refused.
use crate::distinct::{lemma_distinct, lemma_index_of};
use crate::graph::{first_dangling, ids_of};
use crate::id::Uuid7;
use crate::node::{Edge, EdgeKind, Node, NodeKind};
use crate::source::{copy_edges, copy_nodes, edges_between, mint, nodes_with, GraphSource};
use crate::text::{
    after_prefix, alike_text, alike_texts, begins, comes_before, contains_ci, copied, digit_of,
    find, find_char, find_from, holds_alike, is_digit, is_text, lines, lines_from, pieces, position,
    same, lemma_text_before_total, lemma_text_before_transitive, strip_prefix, text, text_before,
    to_chars, to_text, trim, trim_end, trim_end_of, trim_start, trimmed, trimmed_end,
    trimmed_end_of, trimmed_start,
};
use vstd::prelude::*;
use vstd::slice::slice_subrange;
use vstd::string::StringExecFns;

verus! {

/// An error in a schema dump.
#[derive(Debug)]
pub enum SqlDumpError {
    /// The text is not recognizable as a schema dump.
    Parse(String),
}

impl SqlDumpError {
    /// What is wrong with the text.
    pub open spec fn reason(&self) -> Seq<char> {
        match self {
            SqlDumpError::Parse(reason) => reason@,
        }
    }

    /// The text of the error.
    pub open spec fn message(&self) -> Seq<char> {
        match self {
            SqlDumpError::Parse(reason) => "sql dump parse error: "@ + reason@,
        }
    }

    /// The text of the error.
    pub fn to_string(&self) -> (t: String)
        ensures
            t@ == self.message(),
    {
        match self {
            SqlDumpError::Parse(reason) => {
                let mut t = text("sql dump parse error: ");
                t.append(reason.as_str());
                t
            },
        }
    }
}

/// A line without its comment: without what follows ` -- `, and empty if the whole
/// line is a comment.
pub open spec fn strip_comment(line: Seq<char>) -> Seq<char> {
    match find_from(line, " -- "@, 0) {
        Some(i) => line.take(i as int),
        None => if begins(line, "--"@) {
            Seq::empty()
        } else {
            match after_prefix(trim_start(line), "/*"@) {
                Some(rest) => if find_from(rest, "*/"@, 0) is Some {
                    Seq::empty()
                } else {
                    line
                },
                None => line,
            }
        },
    }
}

/// A name in backticks at the start of a text, and what follows it.
pub open spec fn backtick(s: Seq<char>) -> Option<(Seq<char>, Seq<char>)> {
    let rest = trim_start(s);
    if rest.len() > 0 && rest[0] == '`' {
        let inner = rest.skip(1);
        match find_char(inner, '`', 0) {
            Some(end) => Some((inner.take(end as int), inner.skip(end as int + 1))),
            None => None,
        }
    } else {
        None
    }
}

/// The database that a `USE` statement names, given what follows the keyword.
pub open spec fn used_database(part: Seq<char>) -> Seq<char> {
    let name = trim(trim_end_of(part, ';'));
    match backtick(name) {
        Some((quoted, tail)) => quoted,
        None => name,
    }
}

/// What follows `CREATE` and a definer, in a statement that creates something.
pub open spec fn created(line: Seq<char>) -> Option<Seq<char>> {
    let start = trim_start(line);
    match after_prefix(start, "CREATE DEFINER="@) {
        Some(rest) => {
            let user = trim_start(rest);
            match backtick(user) {
                None => Some(user),
                Some((name, tail)) => match after_prefix(trim_start(tail), "@"@) {
                    None => Some(trim_start(tail)),
                    Some(host) => match backtick(host) {
                        Some((h, end)) => Some(trim_start(end)),
                        None => Some(trim_start(host)),
                    },
                },
            }
        },
        None => after_prefix(start, "CREATE "@),
    }
}

/// The line creates something other than a table.
pub open spec fn creates_other(line: Seq<char>) -> bool {
    match created(line) {
        None => false,
        Some(rest) => {
            ||| begins(rest, "PROCEDURE "@)
            ||| begins(rest, "FUNCTION "@)
            ||| begins(rest, "TRIGGER "@)
            ||| begins(rest, "EVENT "@)
            ||| begins(rest, "VIEW "@)
            ||| begins(rest, "DATABASE "@)
            ||| begins(rest, "procedure "@)
            ||| begins(rest, "function "@)
            ||| begins(rest, "trigger "@)
            ||| begins(rest, "event "@)
            ||| begins(rest, "view "@)
            ||| begins(rest, "database "@)
        },
    }
}

/// What follows the keyword `upper` or `lower` at the start of a line.
pub open spec fn after_keyword(line: Seq<char>, upper: Seq<char>, lower: Seq<char>) -> Option<
    Seq<char>,
> {
    match after_prefix(trim_start(line), upper) {
        Some(rest) => Some(rest),
        None => after_prefix(trim_start(line), lower),
    }
}

/// The name of the table that a line begins to create.
pub open spec fn table_started(line: Seq<char>) -> Option<Seq<char>> {
    match after_keyword(line, "CREATE TABLE "@, "create table "@) {
        None => None,
        Some(rest) => {
            let name = match after_prefix(rest, "IF NOT EXISTS "@) {
                Some(r) => r,
                None => rest,
            };
            match backtick(name) {
                Some((quoted, tail)) => Some(quoted),
                None => None,
            }
        },
    }
}

/// ASCII white space.
pub open spec fn ascii_white(c: char) -> bool {
    c == ' ' || c == '\t' || c == '\n' || c == '\r' || c == '\x0c'
}

/// An ASCII letter or digit.
pub open spec fn ascii_alnum(c: char) -> bool {
    is_digit(c) || ('a' <= c <= 'z') || ('A' <= c <= 'Z')
}

/// The place behind the ASCII white space that starts at `pos`.
pub open spec fn white_end(s: Seq<char>, pos: nat) -> nat
    decreases s.len() - pos,
{
    if pos < s.len() && ascii_white(s[pos as int]) {
        white_end(s, pos + 1)
    } else {
        pos
    }
}

/// The word `REFERENCES`, in any case, stands at `i`.
pub open spec fn references_at(s: Seq<char>, i: int) -> bool {
    &&& 0 <= i
    &&& i + 10 < s.len()
    &&& alike_text(s.subrange(i, i + 10), "REFERENCES"@)
    &&& i > 0 ==> !ascii_alnum(s[i - 1])
    &&& ascii_white(s[i + 10])
}

/// The place behind the first word `REFERENCES` at or after `from`, and the white
/// space behind it.
pub open spec fn references_end(s: Seq<char>, from: nat) -> Option<nat>
    decreases s.len() - from,
{
    if from + 10 >= s.len() {
        None
    } else if references_at(s, from as int) {
        Some(white_end(s, from + 10))
    } else {
        references_end(s, from + 1)
    }
}

/// The table that a foreign key in `s` refers to.
pub open spec fn key_target(s: Seq<char>) -> Option<Seq<char>> {
    if !holds_alike(s, "FOREIGN KEY"@) {
        None
    } else {
        match references_end(s, 0) {
            None => None,
            Some(pos) => match backtick(s.skip(pos as int)) {
                Some((name, tail)) => Some(name),
                None => None,
            },
        }
    }
}

/// The tables of the foreign key that an `ALTER TABLE` line adds.
pub open spec fn key_added(line: Seq<char>) -> Option<(Seq<char>, Seq<char>)> {
    match after_keyword(line, "ALTER TABLE "@, "alter table "@) {
        None => None,
        Some(rest) => match backtick(rest) {
            None => None,
            Some((source, tail)) => match key_target(tail) {
                Some(target) => Some((source, target)),
                None => None,
            },
        },
    }
}

/// The line closes the body of a table.
pub open spec fn closes_table(line: Seq<char>) -> bool {
    ||| begins(trim_start(line), ")"@)
    ||| holds_alike(line, ") ENGINE="@)
    ||| holds_alike(line, ")ENGINE="@)
}

/// A table name with its database: as it is if it names one or none is set.
pub open spec fn qualified(db: Seq<char>, name: Seq<char>) -> Seq<char> {
    if name.contains('.') || db.len() == 0 {
        name
    } else {
        db + "."@ + name
    }
}

/// Where in a dump a line stands.
pub enum ModeModel {
    Outside,
    Table(Seq<char>),
    Routine,
}

/// What the lines so far have said.
pub struct ScanModel {
    pub mode: ModeModel,
    pub db: Seq<char>,
    pub tables: Seq<Seq<char>>,
    pub keys: Seq<(Seq<char>, Seq<char>)>,
}

/// A line in the body of the table `table`.
pub open spec fn scan_body(st: ScanModel, table: Seq<char>, line: Seq<char>) -> ScanModel {
    ScanModel {
        mode: if closes_table(line) {
            ModeModel::Outside
        } else {
            ModeModel::Table(table)
        },
        keys: match key_target(trim_start(line)) {
            Some(target) => st.keys.push((table, qualified(st.db, target))),
            None => st.keys,
        },
        ..st
    }
}

/// A line outside of any table and routine.
pub open spec fn scan_outside(st: ScanModel, line: Seq<char>) -> ScanModel {
    if creates_other(line) {
        st
    } else {
        match table_started(line) {
            Some(name) => {
                let table = qualified(st.db, name);
                let tables = if st.tables.contains(table) {
                    st.tables
                } else {
                    st.tables.push(table)
                };
                scan_body(ScanModel { tables, ..st }, table, line)
            },
            None => match key_added(line) {
                Some((source, target)) => ScanModel {
                    keys: st.keys.push((qualified(st.db, source), qualified(st.db, target))),
                    ..st
                },
                None => st,
            },
        }
    }
}

/// One more line.
pub open spec fn scan_line(st: ScanModel, raw: Seq<char>) -> ScanModel {
    let line = trim_end(strip_comment(raw));
    let start = trim_start(line);
    if line.len() == 0 {
        st
    } else {
        match (after_prefix(start, "USE "@), after_prefix(start, "DELIMITER "@)) {
            (Some(part), _) => ScanModel { db: used_database(part), ..st },
            (None, Some(part)) => ScanModel {
                mode: if trim(part) == ";"@ {
                    ModeModel::Outside
                } else {
                    ModeModel::Routine
                },
                ..st
            },
            (None, None) => match st.mode {
                ModeModel::Routine => st,
                ModeModel::Outside => scan_outside(st, line),
                ModeModel::Table(table) => scan_body(st, table, line),
            },
        }
    }
}

/// What the first `k` lines say.
pub open spec fn scan(lines: Seq<Seq<char>>, k: nat) -> ScanModel
    decreases k,
{
    if k == 0 {
        ScanModel {
            mode: ModeModel::Outside,
            db: Seq::empty(),
            tables: Seq::empty(),
            keys: Seq::empty(),
        }
    } else {
        scan_line(scan(lines, (k - 1) as nat), lines[k - 1])
    }
}

/// The line is a comment.
pub open spec fn is_comment(raw: Seq<char>) -> bool {
    begins(trim_start(raw), "--"@) || begins(trim_start(raw), "/*"@)
}

/// A text begins with `p`, whatever the ASCII case.
pub open spec fn begins_alike(s: Seq<char>, p: Seq<char>) -> bool {
    p.len() <= s.len() && alike_text(s.take(p.len() as int), p)
}

/// The line starts a statement of a dump, whatever the case.
pub open spec fn is_statement(raw: Seq<char>) -> bool {
    let start = trim_start(raw);
    ||| begins_alike(start, "USE "@)
    ||| begins_alike(start, "DELIMITER "@)
    ||| begins_alike(start, "CREATE "@)
    ||| begins_alike(start, "ALTER "@)
    ||| begins_alike(start, "DROP "@)
    ||| begins_alike(start, "SET "@)
    ||| begins_alike(start, "LOCK TABLES "@)
    ||| begins_alike(start, "UNLOCK TABLES"@)
}

/// The line has the form of a line of a dump.
pub open spec fn is_dump_line(raw: Seq<char>) -> bool {
    is_comment(raw) || is_statement(raw)
}

/// The line holds nothing but white space.
pub open spec fn is_blank(raw: Seq<char>) -> bool {
    trim(raw).len() == 0
}

/// The text is recognizable as a schema dump: all of its lines are blank, or some line
/// is a comment or starts a statement of a dump.
pub open spec fn recognizable(sql: Seq<char>) -> bool {
    let all = lines_from(sql, 0);
    ||| forall|i: int| 0 <= i < all.len() ==> is_blank(#[trigger] all[i])
    ||| exists|i: int| 0 <= i < all.len() && is_dump_line(#[trigger] all[i])
}

/// What is wrong with a text that is not recognizable.
pub open spec fn unrecognized() -> Seq<char> {
    "not recognizable as `mysqldump --no-data` output"@
}

/// What a dump says.
pub open spec fn schema(sql: Seq<char>) -> ScanModel {
    scan(lines_from(sql, 0), lines_from(sql, 0).len())
}

/// The places of the tables that the first `k` foreign keys join, those with a table
/// that is not declared left out.
pub open spec fn joined(
    tables: Seq<Seq<char>>,
    keys: Seq<(Seq<char>, Seq<char>)>,
    k: nat,
) -> Seq<(int, int)>
    decreases k,
{
    if k == 0 {
        Seq::empty()
    } else {
        let front = joined(tables, keys, (k - 1) as nat);
        let (a, b) = keys[k - 1];
        if tables.contains(a) && tables.contains(b) {
            front.push((tables.index_of(a), tables.index_of(b)))
        } else {
            front
        }
    }
}

/// A line without its comment.
fn strip_inline_comment<'a>(line: &'a [char]) -> (r: &'a [char])
    ensures
        r@ == strip_comment(line@),
{
    proof {
        reveal_strlit(" -- ");
        reveal_strlit("*/");
        assert(line@.subrange(0, 0) =~= Seq::empty());
    }
    match find(line, " -- ") {
        Some(i) => {
            assert(line@.subrange(0, i as int) =~= line@.take(i as int));
            slice_subrange(line, 0, i)
        },
        None => {
            if strip_prefix(line, "--").is_some() {
                return slice_subrange(line, 0, 0);
            }
            match strip_prefix(trimmed_start(line), "/*") {
                Some(rest) => {
                    if find(rest, "*/").is_some() {
                        slice_subrange(line, 0, 0)
                    } else {
                        line
                    }
                },
                None => line,
            }
        },
    }
}

/// A name in backticks at the start of a text, and what follows it.
fn parse_backtick_identifier<'a>(s: &'a [char]) -> (r: Option<(&'a [char], &'a [char])>)
    ensures
        match r {
            Some((name, tail)) => backtick(s@) == Some((name@, tail@)),
            None => backtick(s@) is None,
        },
{
    let rest = trimmed_start(s);
    if rest.len() == 0 || rest[0] != '`' {
        return None;
    }
    let inner = slice_subrange(rest, 1, rest.len());
    assert(inner@ =~= rest@.skip(1));
    match position(inner, '`') {
        Some(end) => {
            assert(inner@.subrange(0, end as int) =~= inner@.take(end as int));
            assert(inner@.subrange(end + 1, inner@.len() as int) =~= inner@.skip(end + 1));
            Some((slice_subrange(inner, 0, end), slice_subrange(inner, end + 1, inner.len())))
        },
        None => None,
    }
}

/// The database that a `USE` statement names, given what follows the keyword.
fn parse_used_database<'a>(part: &'a [char]) -> (r: &'a [char])
    ensures
        r@ == used_database(part@),
{
    let name = trimmed(trimmed_end_of(part, ';'));
    match parse_backtick_identifier(name) {
        Some((quoted, _)) => quoted,
        None => name,
    }
}

/// What follows `CREATE` and a definer, in a statement that creates something.
fn parse_created<'a>(line: &'a [char]) -> (r: Option<&'a [char]>)
    ensures
        match r {
            Some(rest) => created(line@) == Some(rest@),
            None => created(line@) is None,
        },
{
    let start = trimmed_start(line);
    match strip_prefix(start, "CREATE DEFINER=") {
        Some(rest) => {
            let user = trimmed_start(rest);
            match parse_backtick_identifier(user) {
                None => Some(user),
                Some((_, tail)) => {
                    let after = trimmed_start(tail);
                    match strip_prefix(after, "@") {
                        None => Some(after),
                        Some(host) => match parse_backtick_identifier(host) {
                            Some((_, end)) => Some(trimmed_start(end)),
                            None => Some(trimmed_start(host)),
                        },
                    }
                },
            }
        },
        None => strip_prefix(start, "CREATE "),
    }
}

/// Whether the line creates something other than a table.
fn is_non_table_create(line: &[char]) -> (r: bool)
    ensures
        r == creates_other(line@),
{
    match parse_created(line) {
        None => false,
        Some(rest) => strip_prefix(rest, "PROCEDURE ").is_some() || strip_prefix(
            rest,
            "FUNCTION ",
        ).is_some() || strip_prefix(rest, "TRIGGER ").is_some() || strip_prefix(
            rest,
            "EVENT ",
        ).is_some() || strip_prefix(rest, "VIEW ").is_some() || strip_prefix(
            rest,
            "DATABASE ",
        ).is_some() || strip_prefix(rest, "procedure ").is_some() || strip_prefix(
            rest,
            "function ",
        ).is_some() || strip_prefix(rest, "trigger ").is_some() || strip_prefix(
            rest,
            "event ",
        ).is_some() || strip_prefix(rest, "view ").is_some() || strip_prefix(
            rest,
            "database ",
        ).is_some(),
    }
}

/// What follows the keyword `upper` or `lower` at the start of a line.
fn parse_keyword<'a>(line: &'a [char], upper: &str, lower: &str) -> (r: Option<&'a [char]>)
    ensures
        match r {
            Some(rest) => after_keyword(line@, upper@, lower@) == Some(rest@),
            None => after_keyword(line@, upper@, lower@) is None,
        },
{
    let start = trimmed_start(line);
    match strip_prefix(start, upper) {
        Some(rest) => Some(rest),
        None => strip_prefix(start, lower),
    }
}

/// The name of the table that a line begins to create.
fn parse_create_table_start<'a>(line: &'a [char]) -> (r: Option<&'a [char]>)
    ensures
        match r {
            Some(name) => table_started(line@) == Some(name@),
            None => table_started(line@) is None,
        },
{
    match parse_keyword(line, "CREATE TABLE ", "create table ") {
        None => None,
        Some(rest) => {
            let name = match strip_prefix(rest, "IF NOT EXISTS ") {
                Some(r) => r,
                None => rest,
            };
            match parse_backtick_identifier(name) {
                Some((quoted, _)) => Some(quoted),
                None => None,
            }
        },
    }
}

/// Whether a character is ASCII white space.
fn is_ascii_white(c: char) -> (r: bool)
    ensures
        r == ascii_white(c),
{
    c == ' ' || c == '\t' || c == '\n' || c == '\r' || c == '\x0c'
}

/// Whether a character is an ASCII letter or digit.
fn is_ascii_alnum(c: char) -> (r: bool)
    ensures
        r == ascii_alnum(c),
{
    let x: u32 = c as u32;
    digit_of(c).is_some() || (x >= 97 && x <= 122) || (x >= 65 && x <= 90)
}

/// The place behind the first word `REFERENCES` and the white space behind it.
fn find_references(s: &[char]) -> (r: Option<usize>)
    ensures
        match r {
            Some(i) => references_end(s@, 0) == Some(i as nat) && i <= s@.len(),
            None => references_end(s@, 0) is None,
        },
{
    let word = to_chars("REFERENCES");
    proof {
        reveal_strlit("REFERENCES");
    }
    let n: usize = s.len();
    let mut i: usize = 0;
    while i < n && n - i > 10
        invariant
            n == s@.len(),
            i <= n,
            word@ == "REFERENCES"@,
            references_end(s@, 0) == references_end(s@, i as nat),
        decreases n - i,
    {
        let part = slice_subrange(s, i, i + 10);
        if alike_texts(part, word.as_slice()) && (i == 0 || !is_ascii_alnum(s[i - 1]))
            && is_ascii_white(s[i + 10]) {
            assert(references_at(s@, i as int));
            let mut j: usize = i + 10;
            while j < n && is_ascii_white(s[j])
                invariant
                    n == s@.len(),
                    j <= n,
                    white_end(s@, (i + 10) as nat) == white_end(s@, j as nat),
                decreases n - j,
            {
                j += 1;
            }
            return Some(j);
        }
        assert(!references_at(s@, i as int));
        i += 1;
    }
    None
}

/// The table that a foreign key in `s` refers to.
fn parse_key_target<'a>(s: &'a [char]) -> (r: Option<&'a [char]>)
    ensures
        match r {
            Some(name) => key_target(s@) == Some(name@),
            None => key_target(s@) is None,
        },
{
    if !contains_ci(s, "FOREIGN KEY") {
        return None;
    }
    match find_references(s) {
        None => None,
        Some(pos) => {
            assert(s@.subrange(pos as int, s@.len() as int) =~= s@.skip(pos as int));
            match parse_backtick_identifier(slice_subrange(s, pos, s.len())) {
                Some((name, _)) => Some(name),
                None => None,
            }
        },
    }
}

/// The tables of the foreign key that an `ALTER TABLE` line adds.
fn parse_alter_table_add_fk<'a>(line: &'a [char]) -> (r: Option<(&'a [char], &'a [char])>)
    ensures
        match r {
            Some((a, b)) => key_added(line@) == Some((a@, b@)),
            None => key_added(line@) is None,
        },
{
    match parse_keyword(line, "ALTER TABLE ", "alter table ") {
        None => None,
        Some(rest) => match parse_backtick_identifier(rest) {
            None => None,
            Some((source, tail)) => match parse_key_target(tail) {
                Some(target) => Some((source, target)),
                None => None,
            },
        },
    }
}

/// The table that a line in the body of a table refers to by a foreign key.
fn parse_inline_foreign_key<'a>(line: &'a [char]) -> (r: Option<&'a [char]>)
    ensures
        match r {
            Some(name) => key_target(trim_start(line@)) == Some(name@),
            None => key_target(trim_start(line@)) is None,
        },
{
    parse_key_target(trimmed_start(line))
}

/// Whether the line closes the body of a table.
fn line_closes_create_table(line: &[char]) -> (r: bool)
    ensures
        r == closes_table(line@),
{
    strip_prefix(trimmed_start(line), ")").is_some() || contains_ci(line, ") ENGINE=")
        || contains_ci(line, ")ENGINE=")
}

/// A table name with its database.
fn qualify_table_name(db: &[char], name: &[char]) -> (r: Vec<char>)
    ensures
        r@ == qualified(db@, name@),
{
    match position(name, '.') {
        Some(i) => {
            proof {
                assert(name@.contains('.')) by {
                    assert(name@[i as int] == '.');
                }
            }
            return copied(name);
        },
        None => {},
    }
    if db.len() == 0 {
        return copied(name);
    }
    let mut full = copied(db);
    full.push('.');
    let mut i: usize = 0;
    let ghost head = full@;
    while i < name.len()
        invariant
            i <= name.len(),
            full@ == head + name@.take(i as int),
        decreases name.len() - i,
    {
        full.push(name[i]);
        assert(name@.take(i + 1) =~= name@.take(i as int).push(name@[i as int]));
        i += 1;
    }
    proof {
        reveal_strlit(".");
        assert(name@.take(i as int) =~= name@);
        assert(head =~= db@ + "."@);
    }
    full
}

/// The texts behind some names.
pub open spec fn texts(names: Seq<Vec<char>>) -> Seq<Seq<char>> {
    Seq::new(names.len(), |i: int| names[i]@)
}

/// The texts behind some pairs of names.
spec fn text_pairs(keys: Seq<(Vec<char>, Vec<char>)>) -> Seq<(Seq<char>, Seq<char>)> {
    Seq::new(keys.len(), |i: int| (keys[i].0@, keys[i].1@))
}

/// `order` holds the places of the names in the order of their characters, each once,
/// and no name occurs twice.
pub open spec fn is_name_order(order: Seq<usize>, names: Seq<Seq<char>>) -> bool {
    &&& order.len() == names.len()
    &&& forall|i: int| 0 <= i < order.len() ==> (#[trigger] order[i]) < names.len()
    &&& forall|i: int, j: int|
        0 <= i < j < order.len() ==> text_before(
            names[#[trigger] order[i] as int],
            names[#[trigger] order[j] as int],
        )
    &&& forall|p: int| 0 <= p < names.len() ==> #[trigger] order.contains(p as usize)
}

proof fn lemma_name_order_distinct(order: Seq<usize>, names: Seq<Seq<char>>)
    requires
        is_name_order(order, names),
        names.len() <= usize::MAX,
    ensures
        names.no_duplicates(),
{
    assert forall|p: int, q: int| 0 <= p < names.len() && 0 <= q < names.len() && p != q implies
        names[p] != names[q] by {
        assert(order.contains(p as usize) && order.contains(q as usize));
        let i = choose|i: int| 0 <= i < order.len() && order[i] == p as usize;
        let j = choose|j: int| 0 <= j < order.len() && order[j] == q as usize;
        if i < j {
            assert(text_before(names[order[i] as int], names[order[j] as int]));
        } else {
            assert(text_before(names[order[j] as int], names[order[i] as int]));
        }
        lemma_text_before_total(names[p], names[q]);
    }
}

/// The place in `order` where `name` stands, or where it belongs.
fn name_place(order: &Vec<usize>, names: &Vec<Vec<char>>, name: &[char]) -> (r: (bool, usize))
    requires
        is_name_order(order@, texts(names@)),
    ensures
        r.1 <= order@.len(),
        r.0 ==> r.1 < order@.len() && names@[order@[r.1 as int] as int]@ == name@,
        !r.0 ==> forall|i: int|
            0 <= i < r.1 ==> text_before(names@[#[trigger] order@[i] as int]@, name@),
        !r.0 ==> forall|i: int|
            r.1 <= i < order@.len() ==> text_before(name@, names@[#[trigger] order@[i] as int]@),
        r.0 == texts(names@).contains(name@),
{
    let ghost all = texts(names@);
    let mut low: usize = 0;
    let mut high: usize = order.len();
    while low < high
        invariant
            all == texts(names@),
            is_name_order(order@, all),
            low <= high <= order@.len(),
            forall|i: int| 0 <= i < low ==> text_before(all[#[trigger] order@[i] as int], name@),
            forall|i: int|
                high <= i < order@.len() ==> text_before(name@, all[#[trigger] order@[i] as int]),
        decreases high - low,
    {
        let mid: usize = low + (high - low) / 2;
        let here = names[order[mid]].as_slice();
        assert(here@ == all[order@[mid as int] as int]);
        if same(here, name) {
            assert(all.contains(name@));
            return (true, mid);
        }
        proof {
            lemma_text_before_total(here@, name@);
        }
        if comes_before(here, name) {
            assert forall|i: int| 0 <= i < mid + 1 implies text_before(
                all[#[trigger] order@[i] as int],
                name@,
            ) by {
                if i < mid {
                    lemma_text_before_transitive(all[order@[i] as int], here@, name@);
                }
            }
            low = mid + 1;
        } else {
            assert forall|i: int| mid <= i < order@.len() implies text_before(
                name@,
                all[#[trigger] order@[i] as int],
            ) by {
                if mid < i {
                    lemma_text_before_transitive(name@, here@, all[order@[i] as int]);
                }
            }
            high = mid;
        }
    }
    proof {
        if all.contains(name@) {
            let p = choose|p: int| 0 <= p < all.len() && all[p] == name@;
            assert(order@.contains(p as usize));
            let i = choose|i: int| 0 <= i < order@.len() && order@[i] == p as usize;
            assert(text_before(all[order@[i] as int], name@) || text_before(
                name@,
                all[order@[i] as int],
            ));
            lemma_text_before_total(name@, name@);
        }
    }
    (false, low)
}

/// The place of a name among the names.
fn find_name(order: &Vec<usize>, names: &Vec<Vec<char>>, name: &[char]) -> (r: Option<usize>)
    requires
        is_name_order(order@, texts(names@)),
    ensures
        match r {
            Some(p) => texts(names@).contains(name@) && p == texts(names@).index_of(name@) && p
                < names@.len() && names@[p as int]@ == name@,
            None => !texts(names@).contains(name@),
        },
{
    let (found, at) = name_place(order, names, name);
    if found {
        let p: usize = order[at];
        proof {
            let all = texts(names@);
            assert(names@.len() == names.len());
            lemma_name_order_distinct(order@, all);
            lemma_index_of(all, p as int);
        }
        Some(p)
    } else {
        None
    }
}

/// Where in a dump a line stands.
enum Mode {
    Outside,
    Table(Vec<char>),
    Routine,
}

/// What the lines so far have said.
struct Scanner {
    mode: Mode,
    db: Vec<char>,
    tables: Vec<Vec<char>>,
    order: Vec<usize>,
    keys: Vec<(Vec<char>, Vec<char>)>,
}

impl Scanner {
    spec fn mode_model(&self) -> ModeModel {
        match self.mode {
            Mode::Outside => ModeModel::Outside,
            Mode::Table(name) => ModeModel::Table(name@),
            Mode::Routine => ModeModel::Routine,
        }
    }

    spec fn model(&self) -> ScanModel {
        ScanModel {
            mode: self.mode_model(),
            db: self.db@,
            tables: texts(self.tables@),
            keys: text_pairs(self.keys@),
        }
    }

    spec fn wf(&self) -> bool {
        is_name_order(self.order@, texts(self.tables@))
    }

    /// Notes a table, unless it is known.
    fn note_table(&mut self, name: Vec<char>)
        requires
            old(self).wf(),
        ensures
            final(self).wf(),
            final(self).model() == (ScanModel {
                tables: if old(self).model().tables.contains(name@) {
                    old(self).model().tables
                } else {
                    old(self).model().tables.push(name@)
                },
                ..old(self).model()
            }),
    {
        let (found, at) = name_place(&self.order, &self.tables, name.as_slice());
        let ghost before = texts(self.tables@);
        let ghost order = self.order@;
        let ghost given = name@;
        if !found {
            let p: usize = self.tables.len();
            self.order.insert(at, p);
            self.tables.push(name);
            proof {
                assert(self.tables@.len() == self.tables.len());
                let after = texts(self.tables@);
                assert(after =~= before.push(given));
                let new = self.order@;
                assert(new =~= order.insert(at as int, p));
                assert forall|i: int, j: int| 0 <= i < j < new.len() implies text_before(
                    after[#[trigger] new[i] as int],
                    after[#[trigger] new[j] as int],
                ) by {
                    if i < at {
                        assert(new[i] == order[i]);
                    } else if i > at {
                        assert(new[i] == order[i - 1]);
                    }
                    if j < at {
                        assert(new[j] == order[j]);
                    } else if j > at {
                        assert(new[j] == order[j - 1]);
                    }
                }
                assert forall|q: int| 0 <= q < after.len() implies #[trigger] new.contains(
                    q as usize,
                ) by {
                    if q == p {
                        assert(new[at as int] == p);
                    } else {
                        assert(order.contains(q as usize));
                        let i = choose|i: int| 0 <= i < order.len() && order[i] == q as usize;
                        if i < at {
                            assert(new[i] == q as usize);
                        } else {
                            assert(new[i + 1] == q as usize);
                        }
                    }
                }
            }
        }
    }

    /// Notes a foreign key.
    fn note_key(&mut self, source: Vec<char>, target: Vec<char>)
        requires
            old(self).wf(),
        ensures
            final(self).wf(),
            final(self).model() == (ScanModel {
                keys: old(self).model().keys.push((source@, target@)),
                ..old(self).model()
            }),
    {
        let ghost before = text_pairs(self.keys@);
        let ghost given = (source@, target@);
        self.keys.push((source, target));
        assert(text_pairs(self.keys@) =~= before.push(given));
    }

    /// Reads a line in the body of a table.
    fn read_body(&mut self, table: Vec<char>, line: &[char])
        requires
            old(self).wf(),
        ensures
            final(self).wf(),
            final(self).model() == scan_body(old(self).model(), table@, line@),
    {
        match parse_inline_foreign_key(line) {
            Some(target) => {
                let full = qualify_table_name(self.db.as_slice(), target);
                self.note_key(copied(table.as_slice()), full);
            },
            None => {},
        }
        if line_closes_create_table(line) {
            self.mode = Mode::Outside;
        } else {
            self.mode = Mode::Table(table);
        }
    }

    /// Reads a line outside of any table and routine.
    fn read_outside(&mut self, line: &[char])
        requires
            old(self).wf(),
            old(self).model().mode is Outside,
        ensures
            final(self).wf(),
            final(self).model() == scan_outside(old(self).model(), line@),
    {
        if is_non_table_create(line) {
            return;
        }
        match parse_create_table_start(line) {
            Some(name) => {
                let table = qualify_table_name(self.db.as_slice(), name);
                self.note_table(copied(table.as_slice()));
                self.read_body(table, line);
            },
            None => match parse_alter_table_add_fk(line) {
                Some((source, target)) => {
                    let a = qualify_table_name(self.db.as_slice(), source);
                    let b = qualify_table_name(self.db.as_slice(), target);
                    self.note_key(a, b);
                },
                None => {},
            },
        }
    }

    /// Reads one more line.
    fn read_line(&mut self, raw: &[char])
        requires
            old(self).wf(),
        ensures
            final(self).wf(),
            final(self).model() == scan_line(old(self).model(), raw@),
    {
        let line = trimmed_end(strip_inline_comment(raw));
        if line.len() == 0 {
            return;
        }
        let start = trimmed_start(line);
        match strip_prefix(start, "USE ") {
            Some(part) => {
                self.db = copied(parse_used_database(part));
                return;
            },
            None => {},
        }
        match strip_prefix(start, "DELIMITER ") {
            Some(part) => {
                if is_text(trimmed(part), ";") {
                    self.mode = Mode::Outside;
                } else {
                    self.mode = Mode::Routine;
                }
                return;
            },
            None => {},
        }
        match &self.mode {
            Mode::Routine => {},
            Mode::Outside => {
                self.read_outside(line);
            },
            Mode::Table(name) => {
                let table = copied(name.as_slice());
                self.read_body(table, line);
            },
        }
    }

    /// Reads all lines.
    fn read_all(chars: &[char]) -> (scanner: Self)
        ensures
            scanner.wf(),
            scanner.model() == schema(chars@),
    {
        let all = lines(chars);
        let ghost given = pieces(all@);
        let mut scanner = Scanner {
            mode: Mode::Outside,
            db: Vec::new(),
            tables: Vec::new(),
            order: Vec::new(),
            keys: Vec::new(),
        };
        proof {
            assert(texts(scanner.tables@) =~= Seq::empty());
            assert(text_pairs(scanner.keys@) =~= Seq::empty());
        }
        let mut k: usize = 0;
        while k < all.len()
            invariant
                k <= all.len(),
                given == pieces(all@),
                given == lines_from(chars@, 0),
                scanner.wf(),
                scanner.model() == scan(given, k as nat),
            decreases all.len() - k,
        {
            assert(given[k as int] == all@[k as int]@);
            scanner.read_line(all[k]);
            k += 1;
        }
        scanner
    }
}

/// Whether a piece of text begins with `p`.
fn starts_with(s: &[char], p: &str) -> (r: bool)
    ensures
        r == begins(s@, p@),
{
    match strip_prefix(s, p) {
        Some(rest) => true,
        None => false,
    }
}

/// Whether a piece of text begins with `p`, whatever the ASCII case.
fn starts_alike(s: &[char], p: &str) -> (r: bool)
    ensures
        r == begins_alike(s@, p@),
{
    let chars = to_chars(p);
    if s.len() < chars.len() {
        return false;
    }
    let head = slice_subrange(s, 0, chars.len());
    assert(head@ =~= s@.take(chars@.len() as int));
    alike_texts(head, chars.as_slice())
}

/// Whether a line has the form of a line of a dump.
fn has_dump_form(raw: &[char]) -> (r: bool)
    ensures
        r == is_dump_line(raw@),
{
    let start = trimmed_start(raw);
    starts_with(start, "--") || starts_with(start, "/*") || starts_alike(start, "USE ")
        || starts_alike(start, "DELIMITER ") || starts_alike(start, "CREATE ") || starts_alike(
        start,
        "ALTER ",
    ) || starts_alike(start, "DROP ") || starts_alike(start, "SET ") || starts_alike(
        start,
        "LOCK TABLES ",
    ) || starts_alike(start, "UNLOCK TABLES")
}

/// Whether a text is recognizable as a schema dump.
fn is_recognizable(chars: &[char]) -> (r: bool)
    ensures
        r == recognizable(chars@),
{
    let all = lines(chars);
    let ghost given = pieces(all@);
    let mut blank: bool = true;
    let mut k: usize = 0;
    while k < all.len()
        invariant
            k <= all.len(),
            given == pieces(all@),
            given == lines_from(chars@, 0),
            blank == forall|i: int| 0 <= i < k ==> is_blank(#[trigger] given[i]),
            forall|i: int| 0 <= i < k ==> !is_dump_line(#[trigger] given[i]),
        decreases all.len() - k,
    {
        assert(given[k as int] == all@[k as int]@);
        if has_dump_form(all[k]) {
            assert(is_dump_line(given[k as int]));
            return true;
        }
        if trimmed(all[k]).len() > 0 {
            assert(!is_blank(given[k as int]));
            blank = false;
        }
        k += 1;
    }
    blank
}

/// The tables and foreign keys of a dump.
pub struct Schema {
    tables: Vec<Vec<char>>,
    order: Vec<usize>,
    keys: Vec<(Vec<char>, Vec<char>)>,
}

impl Schema {
    /// The names of the tables, with their databases.
    pub closed spec fn tables(&self) -> Seq<Seq<char>> {
        texts(self.tables@)
    }

    /// The tables that each foreign key joins.
    pub closed spec fn keys(&self) -> Seq<(Seq<char>, Seq<char>)> {
        text_pairs(self.keys@)
    }

    /// No table name occurs twice.
    #[verifier::type_invariant]
    spec fn wf(&self) -> bool {
        is_name_order(self.order@, texts(self.tables@))
    }

    /// Reads a schema dump.
    pub fn from_sql(sql: &str) -> (r: Result<Self, SqlDumpError>)
        ensures
            r is Ok <==> recognizable(sql@),
            r matches Ok(dump) ==> dump.tables() == schema(sql@).tables && dump.keys() == schema(
                sql@,
            ).keys,
            r matches Err(e) ==> e.reason() == unrecognized(),
    {
        let chars = to_chars(sql);
        if !is_recognizable(chars.as_slice()) {
            return Err(
                SqlDumpError::Parse(text("not recognizable as `mysqldump --no-data` output")),
            );
        }
        let scanner = Scanner::read_all(chars.as_slice());
        let Scanner { mode: _, db: _, tables, order, keys } = scanner;
        Ok(Schema { tables, order, keys })
    }

    /// The number of tables.
    pub fn table_count(&self) -> (n: usize)
        ensures
            n == self.tables().len(),
    {
        self.tables.len()
    }
}

/// A graph read from a schema dump: a node for each table and an edge for each foreign
/// key between two of them.
pub struct SqlDumpSource {
    nodes: Vec<Node>,
    edges: Vec<Edge>,
    names: Vec<Vec<char>>,
    order: Vec<usize>,
    joins: Ghost<Seq<(int, int)>>,
}

/// Each edge joins the nodes at the two places.
pub open spec fn edges_join(edges: Seq<Edge>, nodes: Seq<Node>, joins: Seq<(int, int)>) -> bool {
    &&& edges.len() == joins.len()
    &&& forall|k: int|
        0 <= k < edges.len() ==> 0 <= (#[trigger] joins[k]).0 < nodes.len() && 0 <= joins[k].1
            < nodes.len()
    &&& forall|k: int|
        0 <= k < edges.len() ==> (#[trigger] edges[k]).source == nodes[joins[k].0].id
            && edges[k].target == nodes[joins[k].1].id && edges[k].kind@ == "fk"@
}

impl SqlDumpSource {
    /// The names of the tables, with their databases, in the order of the nodes.
    pub closed spec fn table_names(&self) -> Seq<Seq<char>> {
        texts(self.names@)
    }

    /// The places of the tables that each edge joins.
    pub closed spec fn joins(&self) -> Seq<(int, int)> {
        self.joins@
    }

    /// The nodes of the source.
    pub closed spec fn node_list(&self) -> Seq<Node> {
        self.nodes@
    }

    /// The edges of the source.
    pub closed spec fn edge_list(&self) -> Seq<Edge> {
        self.edges@
    }

    /// There is a node for each table, no table name occurs twice, and each edge joins
    /// the nodes of its tables.
    #[verifier::type_invariant]
    pub closed spec fn wf(&self) -> bool {
        &&& is_name_order(self.order@, texts(self.names@))
        &&& self.nodes@.len() == self.names@.len()
        &&& self.names@.len() <= usize::MAX
        &&& edges_join(self.edges@, self.nodes@, self.joins@)
    }

    /// What a well-formed source guarantees.
    pub proof fn lemma_wf(&self)
        requires
            self.wf(),
        ensures
            self.node_seq().len() == self.table_names().len(),
            self.table_names().no_duplicates(),
            edges_join(self.edge_seq(), self.node_seq(), self.joins()),
    {
        lemma_name_order_distinct(self.order@, texts(self.names@));
    }

    /// The source holds what a dump says: a node for each table, and an edge for each
    /// foreign key between two of them. Both ends of every edge are nodes of the source.
    pub open spec fn tells(
        &self,
        tables: Seq<Seq<char>>,
        keys: Seq<(Seq<char>, Seq<char>)>,
    ) -> bool {
        &&& self.wf()
        &&& self.table_names() == tables
        &&& self.joins() == joined(tables, keys, keys.len())
        &&& self.edge_seq().len() == keys.filter(
            |key: (Seq<char>, Seq<char>)| declared(tables, key),
        ).len()
        &&& first_dangling(ids_of(self.node_seq()), self.edge_seq()) is None
        &&& forall|i: int|
            0 <= i < self.node_seq().len() ==> (#[trigger] self.node_seq()[i]).kind@ == "table"@
    }

    /// The identifier of the table with the given name.
    pub open spec fn id_named(&self, name: Seq<char>) -> Option<Uuid7> {
        if self.table_names().contains(name) {
            Some(self.node_seq()[self.table_names().index_of(name)].id)
        } else {
            None
        }
    }

    /// `label` is the name of the table with the given identifier: the first in the
    /// order of the names, should several tables have it.
    pub open spec fn is_label(&self, id: Uuid7, label: Option<Seq<char>>) -> bool {
        match label {
            Some(name) => {
                &&& exists|i: int|
                    0 <= i < self.node_seq().len() && (#[trigger] self.node_seq()[i]).id == id
                        && self.table_names()[i] == name
                &&& forall|i: int|
                    0 <= i < self.node_seq().len() && (#[trigger] self.node_seq()[i]).id == id
                        ==> self.table_names()[i] == name || text_before(
                        name,
                        self.table_names()[i],
                    )
            },
            None => forall|i: int|
                0 <= i < self.node_seq().len() ==> (#[trigger] self.node_seq()[i]).id != id,
        }
    }

    /// Reads a schema dump.
    pub fn from_sql(sql: &str) -> (r: Result<Self, SqlDumpError>)
        ensures
            r is Ok <==> recognizable(sql@),
            r matches Ok(source) ==> source.tells(schema(sql@).tables, schema(sql@).keys),
            r matches Err(e) ==> e.reason() == unrecognized(),
    {
        match Schema::from_sql(sql) {
            Ok(dump) => {
                let ids = mint(dump.table_count());
                Ok(Self::with_ids(dump, &ids))
            },
            Err(e) => Err(e),
        }
    }

    /// The graph of a schema whose tables have the given identifiers, in the order of the
    /// tables.
    pub fn with_ids(dump: Schema, ids: &Vec<Uuid7>) -> (source: Self)
        requires
            ids@.len() == dump.tables().len(),
        ensures
            source.tells(dump.tables(), dump.keys()),
            forall|i: int|
                0 <= i < source.node_seq().len() ==> (#[trigger] source.node_seq()[i]).id
                    == ids@[i],
    {
        proof {
            use_type_invariant(&dump);
        }
        let Schema { tables: names, order, keys } = dump;
        let ghost tables = texts(names@);
        let ghost pairs = text_pairs(keys@);
        let nodes = nodes_with(ids, &NodeKind::new("table"));
        let mut ends: Vec<(usize, usize)> = Vec::new();
        let mut k: usize = 0;
        while k < keys.len()
            invariant
                k <= keys.len(),
                tables == texts(names@),
                pairs == text_pairs(keys@),
                is_name_order(order@, tables),
                nodes@.len() == names@.len(),
                joined(tables, pairs, k as nat) == ends@.map_values(
                    |e: (usize, usize)| (e.0 as int, e.1 as int),
                ),
                forall|j: int|
                    0 <= j < ends@.len() ==> (#[trigger] ends@[j]).0 < nodes@.len() && ends@[j].1
                        < nodes@.len(),
            decreases keys.len() - k,
        {
            let ghost before = joined(tables, pairs, k as nat);
            let ghost now = joined(tables, pairs, (k + 1) as nat);
            assert(pairs[k as int] == (keys@[k as int].0@, keys@[k as int].1@));
            match (
                find_name(&order, &names, keys[k].0.as_slice()),
                find_name(&order, &names, keys[k].1.as_slice()),
            ) {
                (Some(a), Some(b)) => {
                    ends.push((a, b));
                    assert(now == before.push((a as int, b as int)));
                    assert(now =~= ends@.map_values(
                        |e: (usize, usize)| (e.0 as int, e.1 as int),
                    ));
                },
                _ => {},
            }
            k += 1;
        }
        let edges = edges_between(&nodes, &ends, &EdgeKind::new("fk"));
        proof {
            assert(names@.len() == names.len());
        }
        let ghost joins = joined(tables, pairs, pairs.len());
        assert(edges_join(edges@, nodes@, joins)) by {
            assert forall|k: int| 0 <= k < edges@.len() implies (#[trigger] edges@[k]).source
                == nodes@[joins[k].0].id && edges@[k].target == nodes@[joins[k].1].id
                && edges@[k].kind@ == "fk"@ by {
                assert(joins[k] == (ends@[k].0 as int, ends@[k].1 as int));
            }
            assert forall|k: int| 0 <= k < joins.len() implies 0 <= (#[trigger] joins[k]).0
                < nodes@.len() && 0 <= joins[k].1 < nodes@.len() by {
                assert(ends@[k].0 < nodes@.len());
            }
        }
        let source = SqlDumpSource { nodes, edges, names, order, joins: Ghost(joins) };
        proof {
            law_dump_builds(&source);
            law_keys_give_edges(tables, pairs, pairs.len());
            assert(pairs.take(pairs.len() as int) =~= pairs);
        }
        source
    }

    /// The number of tables.
    pub fn table_count(&self) -> (n: usize)
        ensures
            n == self.table_names().len(),
    {
        proof {
            use_type_invariant(self);
        }
        self.nodes.len()
    }

    /// The number of foreign keys between declared tables.
    pub fn fk_count(&self) -> (n: usize)
        ensures
            n == self.edge_seq().len(),
    {
        self.edges.len()
    }

    /// The identifier of the table with the given name.
    pub fn uuid_of_table(&self, name: &str) -> (r: Option<Uuid7>)
        ensures
            r == self.id_named(name@),
    {
        proof {
            use_type_invariant(self);
        }
        let chars = to_chars(name);
        match find_name(&self.order, &self.names, chars.as_slice()) {
            Some(p) => Some(self.nodes[p].id),
            None => None,
        }
    }

    /// The names and identifiers of the tables, in the order of the names.
    pub fn tables_named(&self) -> (named: Vec<(String, Uuid7)>)
        ensures
            named@.len() == self.table_names().len(),
            forall|i: int, j: int|
                0 <= i < j < named@.len() ==> text_before(
                    (#[trigger] named@[i]).0@,
                    (#[trigger] named@[j]).0@,
                ),
            forall|i: int|
                0 <= i < named@.len() ==> self.table_names().contains((#[trigger] named@[i]).0@)
                    && named@[i].1 == self.node_seq()[self.table_names().index_of(
                    named@[i].0@,
                )].id,
    {
        proof {
            use_type_invariant(self);
            self.lemma_wf();
        }
        let ghost all = texts(self.names@);
        let mut named: Vec<(String, Uuid7)> = Vec::new();
        let mut i: usize = 0;
        while i < self.order.len()
            invariant
                i <= self.order@.len(),
                all == texts(self.names@),
                all.no_duplicates(),
                is_name_order(self.order@, all),
                self.nodes@.len() == all.len(),
                named@.len() == i,
                forall|j: int|
                    0 <= j < i ==> (#[trigger] named@[j]).0@ == all[self.order@[j] as int]
                        && named@[j].1 == self.nodes@[self.order@[j] as int].id,
            decreases self.order@.len() - i,
        {
            let p: usize = self.order[i];
            named.push((to_text(self.names[p].as_slice()), self.nodes[p].id));
            i += 1;
        }
        proof {
            assert forall|i: int| 0 <= i < named@.len() implies self.table_names().contains(
                (#[trigger] named@[i]).0@,
            ) && named@[i].1 == self.node_seq()[self.table_names().index_of(named@[i].0@)].id by {
                lemma_index_of(all, self.order@[i] as int);
            }
        }
        named
    }
}

impl GraphSource for SqlDumpSource {
    open spec fn node_seq(&self) -> Seq<Node> {
        self.node_list()
    }

    open spec fn edge_seq(&self) -> Seq<Edge> {
        self.edge_list()
    }

    fn nodes(&self) -> (nodes: Vec<Node>) {
        copy_nodes(self.nodes.as_slice())
    }

    fn edges(&self) -> (edges: Vec<Edge>) {
        copy_edges(self.edges.as_slice())
    }

    fn node_count_hint(&self) -> (hint: Option<usize>)
        ensures
            hint is Some,
            hint->0 == self.node_seq().len(),
    {
        Some(self.nodes.len())
    }

    fn edge_count_hint(&self) -> (hint: Option<usize>)
        ensures
            hint is Some,
            hint->0 == self.edge_seq().len(),
    {
        Some(self.edges.len())
    }

    /// The name of the table with the given identifier: the first in the order of the
    /// names, should several tables have it.
    fn label_of(&self, node_id: Uuid7) -> (label: Option<String>)
        ensures
            self.is_label(
                node_id,
                match label {
                    Some(name) => Some(name@),
                    None => None,
                },
            ),
    {
        proof {
            use_type_invariant(self);
        }
        let ghost all = texts(self.names@);
        let mut k: usize = 0;
        while k < self.order.len()
            invariant
                k <= self.order@.len(),
                all == texts(self.names@),
                all == self.table_names(),
                self.node_seq() == self.nodes@,
                is_name_order(self.order@, all),
                self.nodes@.len() == all.len() <= usize::MAX,
                forall|j: int|
                    0 <= j < k ==> self.nodes@[#[trigger] self.order@[j] as int].id != node_id,
            decreases self.order@.len() - k,
        {
            let p: usize = self.order[k];
            if self.nodes[p].id.as_uuid() == node_id.as_uuid() {
                proof {
                    Uuid7::lemma_view_injective(self.nodes@[p as int].id, node_id);
                    assert forall|i: int|
                        0 <= i < self.node_seq().len() && (#[trigger] self.node_seq()[i]).id
                            == node_id implies all[i] == all[p as int] || text_before(
                        all[p as int],
                        all[i],
                    ) by {
                        assert(self.order@.contains(i as usize));
                        let j = choose|j: int|
                            0 <= j < self.order@.len() && self.order@[j] == i as usize;
                        assert(j >= k);
                        if j > k {
                            assert(text_before(
                                all[self.order@[k as int] as int],
                                all[self.order@[j] as int],
                            ));
                        }
                    }
                }
                return Some(to_text(self.names[p].as_slice()));
            }
            k += 1;
        }
        proof {
            assert forall|i: int| 0 <= i < self.node_seq().len() implies (
            #[trigger] self.node_seq()[i]).id != node_id by {
                assert(self.order@.contains(i as usize));
                let j = choose|j: int| 0 <= j < self.order@.len() && self.order@[j] == i as usize;
                assert(self.nodes@[self.order@[j] as int].id != node_id);
            }
        }
        None
    }
}

/// Both tables of the foreign key are declared.
pub open spec fn declared(tables: Seq<Seq<char>>, key: (Seq<char>, Seq<char>)) -> bool {
    tables.contains(key.0) && tables.contains(key.1)
}

/// A foreign key from or to a table that is not declared gives no edge, and every other
/// one exactly one, in the order of the dump.
pub proof fn law_keys_give_edges(
    tables: Seq<Seq<char>>,
    keys: Seq<(Seq<char>, Seq<char>)>,
    k: nat,
)
    requires
        k <= keys.len(),
    ensures
        joined(tables, keys, k) == keys.take(k as int).filter(
            |key: (Seq<char>, Seq<char>)| declared(tables, key),
        ).map_values(
            |key: (Seq<char>, Seq<char>)| (tables.index_of(key.0), tables.index_of(key.1)),
        ),
    decreases k,
{
    reveal(Seq::filter);
    let keep = |key: (Seq<char>, Seq<char>)| declared(tables, key);
    let place = |key: (Seq<char>, Seq<char>)| (tables.index_of(key.0), tables.index_of(key.1));
    let now = keys.take(k as int);
    if k == 0 {
        assert(now.filter(keep).map_values(place) =~= Seq::empty());
    } else {
        law_keys_give_edges(tables, keys, (k - 1) as nat);
        let before = keys.take(k - 1);
        assert(now.drop_last() =~= before);
        let front = before.filter(keep);
        if declared(tables, keys[k - 1]) {
            assert(now.filter(keep) == front.push(keys[k - 1]));
            assert(front.push(keys[k - 1]).map_values(place) =~= front.map_values(place).push(
                place(keys[k - 1]),
            ));
        } else {
            assert(now.filter(keep) == front);
        }
    }
}

proof fn lemma_none_dangling(ids: Seq<Uuid7>, edges: Seq<Edge>)
    requires
        forall|k: int|
            0 <= k < edges.len() ==> ids.contains((#[trigger] edges[k]).source) && ids.contains(
                edges[k].target,
            ),
    ensures
        first_dangling(ids, edges) is None,
    decreases edges.len(),
{
    if edges.len() > 0 {
        let front = edges.drop_last();
        assert forall|k: int| 0 <= k < front.len() implies ids.contains(
            (#[trigger] front[k]).source,
        ) && ids.contains(front[k].target) by {
            assert(front[k] == edges[k]);
        }
        lemma_none_dangling(ids, front);
        assert(edges.last() == edges[edges.len() - 1]);
    }
}

/// Both ends of every edge are nodes of the source, so the graph of a dump always
/// builds.
pub proof fn law_dump_builds(source: &SqlDumpSource)
    requires
        source.wf(),
    ensures
        forall|k: int|
            0 <= k < source.edge_seq().len() ==> ids_of(source.node_seq()).contains(
                (#[trigger] source.edge_seq()[k]).source,
            ) && ids_of(source.node_seq()).contains(source.edge_seq()[k].target),
        first_dangling(ids_of(source.node_seq()), source.edge_seq()) is None,
{
    source.lemma_wf();
    let given = source.node_seq().map_values(|n: Node| n.id);
    let ids = ids_of(source.node_seq());
    let edges = source.edge_seq();
    let joins = source.joins();
    lemma_distinct(given);
    assert forall|k: int| 0 <= k < edges.len() implies ids.contains((#[trigger] edges[k]).source)
        && ids.contains(edges[k].target) by {
        assert(given[joins[k].0] == edges[k].source);
        assert(given[joins[k].1] == edges[k].target);
        assert(given.contains(edges[k].source) && given.contains(edges[k].target));
    }
    lemma_none_dangling(ids, edges);
}

/// The name of a table and its identifier stand for each other. The label of an
/// identifier is always a name that leads to it; and a name leads to an identifier only
/// if it is its label, unless two tables have the same identifier.
pub proof fn law_names_and_labels_agree(
    source: &SqlDumpSource,
    name: Seq<char>,
    id: Uuid7,
    label: Option<Seq<char>>,
)
    requires
        source.wf(),
        source.is_label(id, label),
    ensures
        label == Some(name) ==> source.id_named(name) == Some(id),
        source.id_named(name) == Some(id) ==> label is Some,
        source.node_seq().map_values(|n: Node| n.id).no_duplicates() ==> (source.id_named(name)
            == Some(id) <==> label == Some(name)),
{
    source.lemma_wf();
    let names = source.table_names();
    let nodes = source.node_seq();
    let given = nodes.map_values(|n: Node| n.id);
    if source.id_named(name) == Some(id) {
        let p = names.index_of(name);
        assert(names[p] == name && nodes[p].id == id);
        match label {
            None => {},
            Some(other) => {
                let i = choose|i: int|
                    0 <= i < nodes.len() && (#[trigger] nodes[i]).id == id && names[i] == other;
                assert(given[i] == given[p]);
            },
        }
    }
    if label == Some(name) {
        let i = choose|i: int|
            0 <= i < nodes.len() && (#[trigger] nodes[i]).id == id && names[i] == name;
        lemma_index_of(names, i);
        assert(names.contains(name));
    }
}

} // verus!
