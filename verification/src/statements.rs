//! What the statements of a schema dump say.
//!
//! Of lines in the form in which a dump writes them, with whatever names, it is stated
//! what they tell: which database is in use, which table is declared, which tables a
//! foreign key joins.
use crate::sql_dump::{
    after_keyword, ascii_alnum, ascii_white, backtick, closes_table, created, creates_other,
    is_dump_line, key_added, key_target, qualified, recognizable, references_at, references_end,
    scan, scan_line, schema, strip_comment, table_started, white_end, ModeModel, ScanModel,
};
use crate::text::{
    after_prefix, alike, alike_text, begins, find_char, find_from, holds_alike, is_digit, is_white,
    lines_from, lower, trim_end, trim_end_of, trim_start,
};
use vstd::prelude::*;

verus! {

/// A name of letters, digits and underscores.
pub open spec fn is_plain(name: Seq<char>) -> bool {
    &&& name.len() > 0
    &&& forall|i: int| 0 <= i < name.len() ==> ascii_alnum(#[trigger] name[i]) || name[i] == '_'
}

/// The full name of a table: its own if that names a database or none is in use, and
/// otherwise that of the database, a dot, and its own.
pub open spec fn full_name(db: Seq<char>, name: Seq<char>) -> Seq<char> {
    if db.len() == 0 || name.contains('.') {
        name
    } else {
        db + seq!['.'] + name
    }
}

/// A plain name has none of the characters that mean something in a dump.
proof fn lemma_plain(name: Seq<char>, i: int)
    requires
        is_plain(name),
        0 <= i < name.len(),
    ensures
        name[i] != '`',
        name[i] != ' ',
        name[i] != '-',
        name[i] != '\n',
        name[i] != '\r',
        name[i] != ')',
        name[i] != '(',
        name[i] != ';',
        name[i] != '.',
        !is_white(name[i]),
        !ascii_white(name[i]),
{
    let c = name[i];
    assert(ascii_alnum(c) || c == '_');
    if is_digit(c) {
        assert('0' <= c <= '9');
    }
}

proof fn lemma_full_name(db: Seq<char>, name: Seq<char>)
    ensures
        qualified(db, name) == full_name(db, name),
{
    reveal_strlit(".");
    assert("."@ =~= seq!['.']);
}

/// A text that is found nowhere is not found.
proof fn lemma_not_found(s: Seq<char>, p: Seq<char>, from: nat)
    requires
        forall|i: int|
            from <= i && i + p.len() <= s.len() ==> #[trigger] s.subrange(i, i + p.len()) != p,
    ensures
        find_from(s, p, from) is None,
    decreases s.len() - from,
{
    if from < s.len() && from + p.len() <= s.len() {
        assert(s.subrange(from as int, from as int + p.len()) != p);
        lemma_not_found(s, p, from + 1);
    }
}

/// A line without a hyphen that starts with no slash has no comment.
proof fn lemma_no_comment(line: Seq<char>)
    requires
        line.len() > 0,
        forall|i: int| 0 <= i < line.len() ==> (#[trigger] line[i]) != '-',
        trim_start(line).len() > 0,
        trim_start(line)[0] != '/',
    ensures
        strip_comment(line) == line,
{
    reveal_strlit(" -- ");
    reveal_strlit("--");
    reveal_strlit("/*");
    assert forall|i: int| 0 <= i && i + 4 <= line.len() implies #[trigger] line.subrange(i, i + 4)
        != " -- "@ by {
        assert(line.subrange(i, i + 4)[1] == line[i + 1]);
    }
    lemma_not_found(line, " -- "@, 0);
    if begins(line, "--"@) {
        assert(line.take(2)[0] == line[0]);
    }
    if begins(trim_start(line), "/*"@) {
        assert(trim_start(line).take(2)[0] == trim_start(line)[0]);
    }
}

/// A name in backticks is read, with what follows it.
proof fn lemma_backtick(s: Seq<char>, name: Seq<char>, tail: Seq<char>)
    requires
        s == seq!['`'] + name + seq!['`'] + tail,
        forall|i: int| 0 <= i < name.len() ==> (#[trigger] name[i]) != '`',
    ensures
        backtick(s) == Some((name, tail)),
{
    assert(s[0] == '`');
    assert(!is_white('`'));
    assert(trim_start(s) == s);
    let inner = s.skip(1);
    assert(inner =~= name + seq!['`'] + tail);
    lemma_find_tick(inner, name.len(), 0);
    assert(inner.take(name.len() as int) =~= name);
    assert(inner.skip(name.len() as int + 1) =~= tail);
}

proof fn lemma_find_tick(s: Seq<char>, n: nat, from: nat)
    requires
        from <= n < s.len(),
        s[n as int] == '`',
        forall|i: int| 0 <= i < n ==> (#[trigger] s[i]) != '`',
    ensures
        find_char(s, '`', from) == Some(n),
    decreases n - from,
{
    if from < n {
        assert(s[from as int] != '`');
        lemma_find_tick(s, n, from + 1);
    }
}

/// The line that puts a database in use.
pub open spec fn use_line(db: Seq<char>) -> Seq<char> {
    "USE `"@ + db + "`;"@
}

/// The line that starts to declare a table.
pub open spec fn create_line(table: Seq<char>) -> Seq<char> {
    "CREATE TABLE `"@ + table + "` ("@
}

/// The line of a foreign key in the declaration of a table.
pub open spec fn key_line(column: Seq<char>, table: Seq<char>, other: Seq<char>) -> Seq<char> {
    "  FOREIGN KEY (`"@ + column + "`) REFERENCES `"@ + table + "` (`"@ + other + "`)"@
}

/// A `USE` line puts the database that it names in use, and changes nothing else.
pub proof fn law_use_line(st: ScanModel, db: Seq<char>)
    requires
        is_plain(db),
    ensures
        scan_line(st, use_line(db)) == (ScanModel { db, ..st }),
{
    reveal_strlit("USE `");
    reveal_strlit("`;");
    reveal_strlit("USE ");
    let raw = use_line(db);
    assert forall|i: int| 0 <= i < raw.len() implies (#[trigger] raw[i]) != '-' by {
        if 5 <= i < 5 + db.len() {
            lemma_plain(db, i - 5);
            assert(raw[i] == db[i - 5]);
        }
    }
    assert(raw[0] == 'U');
    assert(trim_start(raw) == raw);
    lemma_no_comment(raw);
    assert(raw.last() == ';');
    assert(trim_end(raw) == raw);
    assert(raw.take(4) =~= "USE "@);
    let part = raw.skip(4);
    assert(after_prefix(raw, "USE "@) == Some(part));
    let quoted = seq!['`'] + db + seq!['`'];
    assert(part =~= quoted.push(';'));
    assert(part.drop_last() =~= quoted);
    assert(quoted.last() == '`');
    assert(trim_end_of(quoted, ';') == quoted);
    assert(trim_end_of(part, ';') == quoted);
    assert(quoted[0] == '`');
    assert(trim_start(quoted) == quoted);
    assert(trim_end(quoted) == quoted);
    assert(quoted =~= seq!['`'] + db + seq!['`'] + Seq::<char>::empty());
    assert forall|i: int| 0 <= i < db.len() implies (#[trigger] db[i]) != '`' by {
        lemma_plain(db, i);
    }
    lemma_backtick(quoted, db, Seq::empty());
}

/// A `CREATE TABLE` line outside of any table declares the table, under its full name, and
/// what follows belongs to it.
pub proof fn law_create_line(st: ScanModel, table: Seq<char>)
    requires
        is_plain(table),
        st.mode is Outside,
    ensures
        scan_line(st, create_line(table)) == (ScanModel {
            mode: ModeModel::Table(full_name(st.db, table)),
            tables: if st.tables.contains(full_name(st.db, table)) {
                st.tables
            } else {
                st.tables.push(full_name(st.db, table))
            },
            ..st
        }),
{
    reveal_strlit("CREATE TABLE `");
    reveal_strlit("` (");
    reveal_strlit("USE ");
    reveal_strlit("DELIMITER ");
    reveal_strlit("CREATE TABLE ");
    reveal_strlit("IF NOT EXISTS ");
    let raw = create_line(table);
    let n = table.len() as int;
    assert(raw.len() == n + 17);
    assert forall|i: int| 14 <= i < 14 + n implies #[trigger] raw[i] == table[i - 14] by {}
    assert forall|i: int| 0 <= i < raw.len() implies (#[trigger] raw[i]) != '-' && raw[i]
        != ')' by {
        if 14 <= i < 14 + n {
            lemma_plain(table, i - 14);
        }
    }
    assert(raw[0] == 'C');
    assert(trim_start(raw) == raw);
    lemma_no_comment(raw);
    assert(raw.last() == '(');
    assert(trim_end(raw) == raw);
    if begins(raw, "USE "@) {
        assert(raw.take(4)[0] == 'C');
    }
    if begins(raw, "DELIMITER "@) {
        assert(raw.take(10)[0] == 'C');
    }
    assert(raw.take(14) =~= "CREATE TABLE `"@);
    lemma_creates_table(raw);
    assert(raw.take(13) =~= "CREATE TABLE "@);
    let rest = raw.skip(13);
    assert(after_keyword(raw, "CREATE TABLE "@, "create table "@) == Some(rest));
    if begins(rest, "IF NOT EXISTS "@) {
        assert(rest.take(14)[0] == rest[0]);
        assert(rest[0] == '`');
    }
    let tail = seq![' ', '('];
    assert(rest =~= seq!['`'] + table + seq!['`'] + tail);
    assert forall|i: int| 0 <= i < table.len() implies (#[trigger] table[i]) != '`' by {
        lemma_plain(table, i);
    }
    lemma_backtick(rest, table, tail);
    assert(table_started(raw) == Some(table));
    lemma_full_name(st.db, table);
    lemma_no_close(raw);
    assert(!holds_alike(raw, "FOREIGN KEY"@)) by {
        reveal_strlit("FOREIGN KEY");
        assert forall|i: int| 0 <= i <= raw.len() - 11 implies !alike_text(
            #[trigger] raw.subrange(i, i + 11),
            "FOREIGN KEY"@,
        ) by {
            let sub = raw.subrange(i, i + 11);
            if alike_text(sub, "FOREIGN KEY"@) {
                assert(alike(sub[7], "FOREIGN KEY"@[7]));
                assert(alike(sub[0], "FOREIGN KEY"@[0]));
                lemma_like_space(sub[7]);
                assert(raw[i + 7] == ' ');
                if 14 <= i + 7 < 14 + n {
                    lemma_plain(table, i + 7 - 14);
                }
                assert(i + 7 == 12);
                assert(sub[0] == 'E');
            }
        }
    }
}

/// Only a space is like a space.
proof fn lemma_like_space(c: char)
    requires
        alike(c, ' '),
    ensures
        c == ' ',
{
    if 'A' <= c <= 'Z' {
        assert((c as u32 + 32) as char != ' ');
    }
}

/// Only a closing parenthesis is like one.
proof fn lemma_like_close(c: char)
    requires
        alike(c, ')'),
    ensures
        c == ')',
{
    if 'A' <= c <= 'Z' {
        assert((c as u32 + 32) as char != ')');
    }
}

/// A line without a closing parenthesis closes nothing.
proof fn lemma_no_close(line: Seq<char>)
    requires
        forall|i: int| 0 <= i < line.len() ==> (#[trigger] line[i]) != ')',
        trim_start(line) == line,
    ensures
        !closes_table(line),
{
    reveal_strlit(")");
    reveal_strlit(") ENGINE=");
    reveal_strlit(")ENGINE=");
    if begins(line, ")"@) {
        assert(line.take(1)[0] == line[0]);
    }
    assert forall|i: int| 0 <= i <= line.len() - 9 implies !alike_text(
        #[trigger] line.subrange(i, i + 9),
        ") ENGINE="@,
    ) by {
        let sub = line.subrange(i, i + 9);
        if alike_text(sub, ") ENGINE="@) {
            assert(alike(sub[0], ") ENGINE="@[0]));
            lemma_like_close(sub[0]);
            assert(line[i] == ')');
        }
    }
    assert forall|i: int| 0 <= i <= line.len() - 8 implies !alike_text(
        #[trigger] line.subrange(i, i + 8),
        ")ENGINE="@,
    ) by {
        let sub = line.subrange(i, i + 8);
        if alike_text(sub, ")ENGINE="@) {
            assert(alike(sub[0], ")ENGINE="@[0]));
            lemma_like_close(sub[0]);
            assert(line[i] == ')');
        }
    }
}

/// A line that starts to declare a table declares nothing else.
proof fn lemma_creates_table(raw: Seq<char>)
    requires
        raw.len() >= 14,
        raw.take(14) == "CREATE TABLE `"@,
    ensures
        !creates_other(raw),
        trim_start(raw) == raw,
{
    reveal_strlit("CREATE TABLE `");
    reveal_strlit("CREATE DEFINER=");
    reveal_strlit("CREATE ");
    reveal_strlit("PROCEDURE ");
    reveal_strlit("FUNCTION ");
    reveal_strlit("TRIGGER ");
    reveal_strlit("EVENT ");
    reveal_strlit("VIEW ");
    reveal_strlit("DATABASE ");
    reveal_strlit("procedure ");
    reveal_strlit("function ");
    reveal_strlit("trigger ");
    reveal_strlit("event ");
    reveal_strlit("view ");
    reveal_strlit("database ");
    assert(raw[0] == raw.take(14)[0]);
    assert(raw[7] == raw.take(14)[7]);
    assert(raw[8] == raw.take(14)[8]);
    assert(trim_start(raw) == raw);
    if begins(raw, "CREATE DEFINER="@) {
        assert(raw.take(15)[7] == raw[7]);
    }
    let rest = raw.skip(7);
    assert(raw.take(7) =~= "CREATE "@) by {
        assert(raw.take(7) =~= raw.take(14).take(7));
    }
    assert(created(raw) == Some(rest));
    assert(rest[0] == 'T' && rest[1] == 'A');
    if begins(rest, "PROCEDURE "@) {
        assert(rest.take(10)[0] == 'T');
    }
    if begins(rest, "FUNCTION "@) {
        assert(rest.take(9)[0] == 'T');
    }
    if begins(rest, "TRIGGER "@) {
        assert(rest.take(8)[1] == 'A');
    }
    if begins(rest, "EVENT "@) {
        assert(rest.take(6)[0] == 'T');
    }
    if begins(rest, "VIEW "@) {
        assert(rest.take(5)[0] == 'T');
    }
    if begins(rest, "DATABASE "@) {
        assert(rest.take(9)[0] == 'T');
    }
    if begins(rest, "procedure "@) {
        assert(rest.take(10)[0] == 'T');
    }
    if begins(rest, "function "@) {
        assert(rest.take(9)[0] == 'T');
    }
    if begins(rest, "trigger "@) {
        assert(rest.take(8)[0] == 'T');
    }
    if begins(rest, "event "@) {
        assert(rest.take(6)[0] == 'T');
    }
    if begins(rest, "view "@) {
        assert(rest.take(5)[0] == 'T');
    }
    if begins(rest, "database "@) {
        assert(rest.take(9)[0] == 'T');
    }
}


/// What the target of a foreign key is, read off a line of the usual form: whatever comes
/// before has no closing parenthesis but the last character, and no white space but in
/// `FOREIGN KEY (`.
proof fn lemma_key_target(head: Seq<char>, column: Seq<char>, table: Seq<char>, tail: Seq<char>)
    requires
        is_plain(column),
        is_plain(table),
        head.len() >= 14,
        head.skip(head.len() - 14) == "FOREIGN KEY (`"@,
        forall|i: int|
            0 <= i < head.len() - 14 && ascii_white(#[trigger] head[i]) ==> i < 10 || !alike(
                head[i - 1],
                'S',
            ),
    ensures
        key_target(
            head + column + "`) REFERENCES `"@ + table + seq!['`'] + tail,
        ) == Some(table),
{
    reveal_strlit("FOREIGN KEY");
    reveal_strlit("FOREIGN KEY (`");
    reveal_strlit("`) REFERENCES `");
    reveal_strlit("REFERENCES");
    let s = head + column + "`) REFERENCES `"@ + table + seq!['`'] + tail;
    let h = head.len() as int;
    let n = column.len() as int;
    let p0 = h + n + 3;
    assert forall|j: int| 0 <= j < 14 implies head[h - 14 + j] == #[trigger] "FOREIGN KEY (`"@[
        j
    ] by {
        assert(head.skip(h - 14)[j] == head[h - 14 + j]);
    }
    let at = h - 14;
    assert(s.subrange(at, at + 11) =~= "FOREIGN KEY"@) by {
        assert forall|j: int| 0 <= j < 11 implies s.subrange(at, at + 11)[j]
            == "FOREIGN KEY"@[j] by {
            assert(head[h - 14 + j] == "FOREIGN KEY (`"@[j]);
        }
    }
    assert(alike_text(s.subrange(at, at + 11), "FOREIGN KEY"@));
    assert(holds_alike(s, "FOREIGN KEY"@));
    assert forall|i: int| 0 <= i < p0 implies !references_at(s, i) by {
        if references_at(s, i) {
            let sub = s.subrange(i, i + 10);
            let e = i + 10;
            assert(alike(sub[9], "REFERENCES"@[9]));
            assert(alike(sub[0], "REFERENCES"@[0]));
            assert(ascii_white(s[e]));
            assert(sub[9] == s[e - 1] && sub[0] == s[i]);
            if e < h - 14 {
                assert(s[e] == head[e]);
                assert(s[e - 1] == head[e - 1]);
            } else if e < h {
                let j = e - (h - 14);
                assert(s[e] == "FOREIGN KEY (`"@[j]);
                assert(j == 7 || j == 11);
                assert(s[e - 1] == "FOREIGN KEY (`"@[j - 1]);
            } else if e < h + n {
                lemma_plain(column, e - h);
                assert(s[e] == column[e - h]);
            } else {
                let j = e - h - n;
                assert(s[e] == "`) REFERENCES `"@[j]);
                assert(j < 13);
                assert(j == 2);
                assert(s[e - 1] == ')');
            }
        }
    }
    assert(references_at(s, p0)) by {
        assert(s.subrange(p0, p0 + 10) =~= "REFERENCES"@);
        assert(s[p0 - 1] == ' ');
        assert(s[p0 + 10] == ' ');
    }
    lemma_references(s, 0, p0 as nat);
    assert(s[p0 + 10] == ' ');
    assert(s[p0 + 11] == '`');
    reveal_with_fuel(white_end, 3);
    assert(white_end(s, (p0 + 10) as nat) == p0 + 11);
    let rest = s.skip(p0 + 11);
    assert(rest =~= seq!['`'] + table + seq!['`'] + tail);
    assert forall|i: int| 0 <= i < table.len() implies (#[trigger] table[i]) != '`' by {
        lemma_plain(table, i);
    }
    lemma_backtick(rest, table, tail);
}

proof fn lemma_references(s: Seq<char>, from: nat, at: nat)
    requires
        from <= at,
        references_at(s, at as int),
        forall|i: int| from <= i < at ==> !references_at(s, i),
    ensures
        references_end(s, from) == Some(white_end(s, at + 10)),
    decreases at - from,
{
    if from < at {
        assert(!references_at(s, from as int));
        lemma_references(s, from + 1, at);
    }
}

/// A line with a foreign key in the declaration of a table joins that table to the one
/// that the key names, under its full name, and the declaration goes on.
pub proof fn law_key_line(
    st: ScanModel,
    own: Seq<char>,
    column: Seq<char>,
    table: Seq<char>,
    other: Seq<char>,
)
    requires
        st.mode == ModeModel::Table(own),
        is_plain(column),
        is_plain(table),
        is_plain(other),
    ensures
        scan_line(st, key_line(column, table, other)) == (ScanModel {
            keys: st.keys.push((own, full_name(st.db, table))),
            ..st
        }),
{
    reveal_strlit("  FOREIGN KEY (`");
    reveal_strlit("FOREIGN KEY (`");
    reveal_strlit("`) REFERENCES `");
    reveal_strlit("` (`");
    reveal_strlit("`)");
    reveal_strlit("USE ");
    reveal_strlit("DELIMITER ");
    let raw = key_line(column, table, other);
    let head = "FOREIGN KEY (`"@;
    let tail = seq![' ', '(', '`'] + other + seq!['`', ')'];
    let s = head + column + "`) REFERENCES `"@ + table + seq!['`'] + tail;
    let a = column.len() as int;
    let b = table.len() as int;
    let c = other.len() as int;
    assert(raw =~= seq![' ', ' '] + s);
    assert(s.len() == 14 + a + 15 + b + 4 + c + 2);
    assert forall|i: int| 0 <= i < s.len() implies {
        &&& (#[trigger] s[i]) != '-'
        &&& s[i] == ')' ==> i == 14 + a + 1 || i == s.len() - 1
    } by {
        if 14 <= i < 14 + a {
            lemma_plain(column, i - 14);
            assert(s[i] == column[i - 14]);
        } else if 14 + a + 15 <= i < 14 + a + 15 + b {
            lemma_plain(table, i - (14 + a + 15));
            assert(s[i] == table[i - (14 + a + 15)]);
        } else if 14 + a + 15 + b + 4 <= i < 14 + a + 15 + b + 4 + c {
            lemma_plain(other, i - (14 + a + 15 + b + 4));
            assert(s[i] == other[i - (14 + a + 15 + b + 4)]);
        }
    }
    assert(s[0] == 'F');
    lemma_two_spaces(raw, s);
    assert forall|i: int| 0 <= i < raw.len() implies (#[trigger] raw[i]) != '-' by {
        if i >= 2 {
            assert(raw[i] == s[i - 2]);
        }
    }
    lemma_no_comment(raw);
    assert(raw.last() == ')');
    assert(trim_end(raw) == raw);
    if begins(s, "USE "@) {
        assert(s.take(4)[0] == 'F');
    }
    if begins(s, "DELIMITER "@) {
        assert(s.take(10)[0] == 'F');
    }
    assert(head.skip(0) =~= "FOREIGN KEY (`"@);
    lemma_key_target(head, column, table, tail);
    lemma_full_name(st.db, table);
    lemma_key_does_not_close(raw, s, 14 + a + 1);
}

/// Two spaces at the start of a line are passed over.
proof fn lemma_two_spaces(raw: Seq<char>, s: Seq<char>)
    requires
        raw == seq![' ', ' '] + s,
        s.len() > 0,
        !is_white(s[0]),
    ensures
        trim_start(raw) == s,
{
    reveal_with_fuel(trim_start, 3);
    assert(raw[0] == ' ');
    assert(raw.drop_first() =~= seq![' '] + s);
    assert(raw.drop_first()[0] == ' ');
    assert(raw.drop_first().drop_first() =~= s);
}

/// A line whose closing parentheses are one before ` R` and its last character closes
/// nothing.
proof fn lemma_key_does_not_close(raw: Seq<char>, s: Seq<char>, at: int)
    requires
        raw == seq![' ', ' '] + s,
        trim_start(raw) == s,
        0 < at < s.len() - 2,
        s[0] != ')',
        s[at + 1] == ' ',
        s[at + 2] == 'R',
        forall|i: int| 0 <= i < s.len() && (#[trigger] s[i]) == ')' ==> i == at || i == s.len() - 1,
    ensures
        !closes_table(raw),
{
    reveal_strlit(")");
    reveal_strlit(") ENGINE=");
    reveal_strlit(")ENGINE=");
    if begins(s, ")"@) {
        assert(s.take(1)[0] == s[0]);
    }
    assert forall|i: int| 0 <= i <= raw.len() - 9 implies !alike_text(
        #[trigger] raw.subrange(i, i + 9),
        ") ENGINE="@,
    ) by {
        let sub = raw.subrange(i, i + 9);
        if alike_text(sub, ") ENGINE="@) {
            assert(alike(sub[0], ") ENGINE="@[0]));
            assert(alike(sub[2], ") ENGINE="@[2]));
            lemma_like_close(sub[0]);
            assert(raw[i] == ')');
            assert(i >= 2 && s[i - 2] == ')');
            assert(i - 2 == at);
            assert(sub[2] == s[at + 2]);
        }
    }
    assert forall|i: int| 0 <= i <= raw.len() - 8 implies !alike_text(
        #[trigger] raw.subrange(i, i + 8),
        ")ENGINE="@,
    ) by {
        let sub = raw.subrange(i, i + 8);
        if alike_text(sub, ")ENGINE="@) {
            assert(alike(sub[0], ")ENGINE="@[0]));
            assert(alike(sub[1], ")ENGINE="@[1]));
            lemma_like_close(sub[0]);
            assert(raw[i] == ')');
            assert(i >= 2 && s[i - 2] == ')');
            assert(i - 2 == at);
            assert(sub[1] == s[at + 1]);
            assert(lower('E') == 'e');
        }
    }
}

/// The line that ends the declaration of a table.
pub open spec fn close_line() -> Seq<char> {
    ");"@
}

/// A closing line ends the declaration, and changes nothing else.
pub proof fn law_close_line(st: ScanModel, own: Seq<char>)
    requires
        st.mode == ModeModel::Table(own),
    ensures
        scan_line(st, close_line()) == (ScanModel { mode: ModeModel::Outside, ..st }),
{
    reveal_strlit(");");
    reveal_strlit(")");
    reveal_strlit("USE ");
    reveal_strlit("DELIMITER ");
    reveal_strlit("FOREIGN KEY");
    let raw = close_line();
    assert(raw[0] == ')' && raw[1] == ';');
    assert(trim_start(raw) == raw);
    lemma_no_comment(raw);
    assert(trim_end(raw) == raw);
    assert(raw.take(1) =~= ")"@);
    assert(closes_table(raw));
    assert(!holds_alike(raw, "FOREIGN KEY"@));
}

/// The line that adds a foreign key to a table.
pub open spec fn alter_line(
    own: Seq<char>,
    column: Seq<char>,
    table: Seq<char>,
    other: Seq<char>,
) -> Seq<char> {
    "ALTER TABLE `"@ + own + "` ADD FOREIGN KEY (`"@ + column + "`) REFERENCES `"@ + table
        + "` (`"@ + other + "`);"@
}

/// An `ALTER TABLE` line outside of any table joins the table that it names to the one
/// that its foreign key names, both under their full names.
pub proof fn law_alter_line(
    st: ScanModel,
    own: Seq<char>,
    column: Seq<char>,
    table: Seq<char>,
    other: Seq<char>,
)
    requires
        st.mode is Outside,
        is_plain(own),
        is_plain(column),
        is_plain(table),
        is_plain(other),
    ensures
        scan_line(st, alter_line(own, column, table, other)) == (ScanModel {
            keys: st.keys.push((full_name(st.db, own), full_name(st.db, table))),
            ..st
        }),
{
    reveal_strlit("ALTER TABLE `");
    reveal_strlit("` ADD FOREIGN KEY (`");
    reveal_strlit("`) REFERENCES `");
    reveal_strlit("` (`");
    reveal_strlit("`);");
    reveal_strlit("USE ");
    reveal_strlit("DELIMITER ");
    reveal_strlit("CREATE DEFINER=");
    reveal_strlit("CREATE ");
    reveal_strlit("CREATE TABLE ");
    reveal_strlit("create table ");
    reveal_strlit("ALTER TABLE ");
    reveal_strlit("FOREIGN KEY (`");
    let raw = alter_line(own, column, table, other);
    let n = own.len() as int;
    let a = column.len() as int;
    let b = table.len() as int;
    let c = other.len() as int;
    let last = seq![' ', '(', '`'] + other + seq!['`', ')', ';'];
    let head = " ADD FOREIGN KEY (`"@;
    reveal_strlit(" ADD FOREIGN KEY (`");
    let tail = head + column + "`) REFERENCES `"@ + table + seq!['`'] + last;
    let rest = seq!['`'] + own + seq!['`'] + tail;
    assert(raw =~= "ALTER TABLE "@ + rest);
    assert forall|i: int| 0 <= i < raw.len() implies (#[trigger] raw[i]) != '-' by {
        let x = 13 + n + 20;
        let y = x + a + 15;
        let z = y + b + 4;
        if 13 <= i < 13 + n {
            lemma_plain(own, i - 13);
            assert(raw[i] == own[i - 13]);
        } else if x <= i < x + a {
            lemma_plain(column, i - x);
            assert(raw[i] == column[i - x]);
        } else if y <= i < y + b {
            lemma_plain(table, i - y);
            assert(raw[i] == table[i - y]);
        } else if z <= i < z + c {
            lemma_plain(other, i - z);
            assert(raw[i] == other[i - z]);
        }
    }
    assert(raw[0] == 'A');
    assert(trim_start(raw) == raw);
    lemma_no_comment(raw);
    assert(raw.last() == ';');
    assert(trim_end(raw) == raw);
    if begins(raw, "USE "@) {
        assert(raw.take(4)[0] == 'A');
    }
    if begins(raw, "DELIMITER "@) {
        assert(raw.take(10)[0] == 'A');
    }
    if begins(raw, "CREATE DEFINER="@) {
        assert(raw.take(15)[0] == 'A');
    }
    if begins(raw, "CREATE "@) {
        assert(raw.take(7)[0] == 'A');
    }
    if begins(raw, "CREATE TABLE "@) {
        assert(raw.take(13)[0] == 'A');
    }
    if begins(raw, "create table "@) {
        assert(raw.take(13)[0] == 'A');
    }
    assert(raw.take(12) =~= "ALTER TABLE "@);
    assert(raw.skip(12) =~= rest);
    assert forall|i: int| 0 <= i < own.len() implies (#[trigger] own[i]) != '`' by {
        lemma_plain(own, i);
    }
    lemma_backtick(rest, own, tail);
    assert(head.skip(head.len() - 14) =~= "FOREIGN KEY (`"@);
    lemma_key_target(head, column, table, last);
    assert(key_added(raw) == Some((own, table)));
    lemma_full_name(st.db, own);
    lemma_full_name(st.db, table);
}

/// A foreign key names tables as their declarations do: in whatever line of whatever
/// table it stands, it joins that table to the one that a declaration of the name, read
/// with the same database in use, declares.
pub proof fn law_keys_name_tables_as_declared(
    st: ScanModel,
    own: Seq<char>,
    raw: Seq<char>,
    table: Seq<char>,
)
    requires
        st.mode == ModeModel::Table(own),
        is_plain(table),
        trim_end(strip_comment(raw)).len() > 0,
        !begins(trim_start(trim_end(strip_comment(raw))), "USE "@),
        !begins(trim_start(trim_end(strip_comment(raw))), "DELIMITER "@),
        key_target(trim_start(trim_end(strip_comment(raw)))) == Some(table),
    ensures
        ({
            let before = ScanModel { mode: ModeModel::Outside, tables: Seq::empty(), ..st };
            let declared = scan_line(before, create_line(table)).tables;
            &&& declared.len() == 1
            &&& scan_line(st, raw).keys == st.keys.push((own, declared[0]))
            &&& scan_line(st, raw).tables == st.tables
        }),
{
    let before = ScanModel { mode: ModeModel::Outside, tables: Seq::empty(), ..st };
    law_create_line(before, table);
    lemma_full_name(st.db, table);
}

/// The first line of a text, and the rest.
proof fn lemma_first_line(line: Seq<char>, rest: Seq<char>)
    requires
        line.len() > 0,
        line.last() != '\r',
        forall|i: int| 0 <= i < line.len() ==> (#[trigger] line[i]) != '\n',
    ensures
        lines_from(line + seq!['\n'] + rest, 0) == seq![line] + lines_from(rest, 0),
{
    let s = line + seq!['\n'] + rest;
    let n = line.len();
    lemma_find_newline(s, n, 0);
    assert(s.subrange(0, n as int) =~= line);
    assert(s.skip(n as int + 1) =~= rest);
    lemma_lines_shift(s, rest, n + 1, 0);
}

proof fn lemma_find_newline(s: Seq<char>, n: nat, from: nat)
    requires
        from <= n < s.len(),
        s[n as int] == '\n',
        forall|i: int| 0 <= i < n ==> (#[trigger] s[i]) != '\n',
    ensures
        find_char(s, '\n', from) == Some(n),
    decreases n - from,
{
    if from < n {
        assert(s[from as int] != '\n');
        lemma_find_newline(s, n, from + 1);
    }
}

/// Lines further on are those of the rest.
proof fn lemma_lines_shift(s: Seq<char>, rest: Seq<char>, by: nat, from: nat)
    requires
        s.len() == rest.len() + by,
        s.skip(by as int) == rest,
    ensures
        lines_from(s, by + from) == lines_from(rest, from),
    decreases rest.len() - from,
{
    if from < rest.len() {
        lemma_find_shift(s, rest, by, from);
        match find_char(rest, '\n', from) {
            Some(end) => {
                if from <= end < rest.len() {
                    assert(s.subrange((by + from) as int, (by + end) as int) =~= rest.subrange(
                        from as int,
                        end as int,
                    ));
                    lemma_lines_shift(s, rest, by, end + 1);
                }
            },
            None => {
                assert(s.skip((by + from) as int) =~= rest.skip(from as int));
            },
        }
    }
}

proof fn lemma_find_shift(s: Seq<char>, rest: Seq<char>, by: nat, from: nat)
    requires
        s.len() == rest.len() + by,
        s.skip(by as int) == rest,
    ensures
        find_char(s, '\n', by + from) == match find_char(rest, '\n', from) {
            Some(i) => Some(by + i),
            None => None,
        },
    decreases rest.len() - from,
{
    if from < rest.len() {
        assert(s[(by + from) as int] == s.skip(by as int)[from as int]);
        lemma_find_shift(s, rest, by, from + 1);
    }
}

/// Some lines as a text, each with a newline behind it.
pub open spec fn as_text(lines: Seq<Seq<char>>) -> Seq<char>
    decreases lines.len(),
{
    if lines.len() == 0 {
        Seq::empty()
    } else {
        lines[0] + seq!['\n'] + as_text(lines.drop_first())
    }
}

/// A line that a text can hold.
pub open spec fn is_line(line: Seq<char>) -> bool {
    &&& line.len() > 0
    &&& line.last() != '\r'
    &&& forall|i: int| 0 <= i < line.len() ==> (#[trigger] line[i]) != '\n'
}

/// The lines of a text made of lines are these.
pub proof fn law_lines_read_back(lines: Seq<Seq<char>>)
    requires
        forall|i: int| 0 <= i < lines.len() ==> is_line(#[trigger] lines[i]),
    ensures
        lines_from(as_text(lines), 0) == lines,
    decreases lines.len(),
{
    if lines.len() > 0 {
        let rest = lines.drop_first();
        assert forall|i: int| 0 <= i < rest.len() implies is_line(#[trigger] rest[i]) by {
            assert(rest[i] == lines[i + 1]);
        }
        law_lines_read_back(rest);
        assert(is_line(lines[0]));
        lemma_first_line(lines[0], as_text(rest));
        assert(seq![lines[0]] + rest =~= lines);
    } else {
        assert(lines_from(as_text(lines), 0) =~= lines);
    }
}

proof fn lemma_use_is_line(db: Seq<char>)
    requires
        is_plain(db),
    ensures
        is_line(use_line(db)),
{
    reveal_strlit("USE `");
    reveal_strlit("`;");
    let raw = use_line(db);
    assert(raw.last() == ';');
    assert forall|i: int| 0 <= i < raw.len() implies (#[trigger] raw[i]) != '\n' by {
        if 5 <= i < 5 + db.len() {
            lemma_plain(db, i - 5);
            assert(raw[i] == db[i - 5]);
        }
    }
}

proof fn lemma_create_is_line(table: Seq<char>)
    requires
        is_plain(table),
    ensures
        is_line(create_line(table)),
{
    reveal_strlit("CREATE TABLE `");
    reveal_strlit("` (");
    let raw = create_line(table);
    assert(raw.last() == '(');
    assert forall|i: int| 0 <= i < raw.len() implies (#[trigger] raw[i]) != '\n' by {
        if 14 <= i < 14 + table.len() {
            lemma_plain(table, i - 14);
            assert(raw[i] == table[i - 14]);
        }
    }
}

proof fn lemma_key_is_line(column: Seq<char>, table: Seq<char>, other: Seq<char>)
    requires
        is_plain(column),
        is_plain(table),
        is_plain(other),
    ensures
        is_line(key_line(column, table, other)),
{
    reveal_strlit("  FOREIGN KEY (`");
    reveal_strlit("`) REFERENCES `");
    reveal_strlit("` (`");
    reveal_strlit("`)");
    let raw = key_line(column, table, other);
    let x = 16 + column.len() + 15;
    let y = x + table.len() + 4;
    assert(raw.last() == ')');
    assert forall|i: int| 0 <= i < raw.len() implies (#[trigger] raw[i]) != '\n' by {
        if 16 <= i < 16 + column.len() {
            lemma_plain(column, i - 16);
            assert(raw[i] == column[i - 16]);
        } else if x <= i < x + table.len() {
            lemma_plain(table, i - x);
            assert(raw[i] == table[i - x]);
        } else if y <= i < y + other.len() {
            lemma_plain(other, i - y);
            assert(raw[i] == other[i - y]);
        }
    }
}

/// A dump of two tables of a database, the second with a foreign key to the first.
pub open spec fn two_tables(
    db: Seq<char>,
    table: Seq<char>,
    own: Seq<char>,
    column: Seq<char>,
    other: Seq<char>,
) -> Seq<char> {
    as_text(
        seq![
            use_line(db),
            create_line(table),
            close_line(),
            create_line(own),
            key_line(column, table, other),
            close_line(),
        ],
    )
}

/// A dump of two tables of a database, the second with a foreign key to the first, holds
/// both tables under their full names, and the key joins the second to the first. It is
/// recognized as a dump.
pub proof fn law_two_tables(
    db: Seq<char>,
    table: Seq<char>,
    own: Seq<char>,
    column: Seq<char>,
    other: Seq<char>,
)
    requires
        is_plain(db),
        is_plain(table),
        is_plain(own),
        is_plain(column),
        is_plain(other),
        table != own,
    ensures
        recognizable(two_tables(db, table, own, column, other)),
        schema(two_tables(db, table, own, column, other)).tables == seq![
            db + seq!['.'] + table,
            db + seq!['.'] + own,
        ],
        schema(two_tables(db, table, own, column, other)).keys == seq![
            (db + seq!['.'] + own, db + seq!['.'] + table),
        ],
{
    let lines = seq![
        use_line(db),
        create_line(table),
        close_line(),
        create_line(own),
        key_line(column, table, other),
        close_line(),
    ];
    lemma_use_is_line(db);
    lemma_create_is_line(table);
    lemma_create_is_line(own);
    lemma_key_is_line(column, table, other);
    assert(is_line(close_line())) by {
        reveal_strlit(");");
    }
    law_lines_read_back(lines);
    assert forall|i: int| 0 <= i < table.len() implies (#[trigger] table[i]) != '.' by {
        lemma_plain(table, i);
    }
    assert forall|i: int| 0 <= i < own.len() implies (#[trigger] own[i]) != '.' by {
        lemma_plain(own, i);
    }
    let first = db + seq!['.'] + table;
    let second = db + seq!['.'] + own;
    assert(full_name(db, table) == first);
    assert(full_name(db, own) == second);
    assert(first != second) by {
        if first == second {
            assert(first.skip(db.len() as int + 1) =~= table);
            assert(second.skip(db.len() as int + 1) =~= own);
        }
    }
    let s0 = scan(lines, 0);
    law_use_line(s0, db);
    let s1 = scan_line(s0, lines[0]);
    law_create_line(s1, table);
    let s2 = scan_line(s1, lines[1]);
    law_close_line(s2, first);
    let s3 = scan_line(s2, lines[2]);
    assert(s3.tables =~= seq![first]);
    law_create_line(s3, own);
    let s4 = scan_line(s3, lines[3]);
    law_key_line(s4, second, column, table, other);
    let s5 = scan_line(s4, lines[4]);
    law_close_line(s5, second);
    assert(!s3.tables.contains(second)) by {
        assert(s3.tables[0] == first);
    }
    assert(s4.tables =~= seq![first, second]);
    assert(s5.keys =~= seq![(second, first)]);
    reveal_with_fuel(scan, 7);
    assert(scan(lines, 1) == s1);
    assert(scan(lines, 2) == s2);
    assert(scan(lines, 3) == s3);
    assert(scan(lines, 4) == s4);
    assert(scan(lines, 5) == s5);
    assert(is_dump_line(lines[1])) by {
        reveal_strlit("CREATE TABLE `");
        reveal_strlit("CREATE ");
        let raw = lines[1];
        assert(raw[0] == 'C');
        assert(trim_start(raw) == raw);
        assert(raw.take(7) =~= "CREATE "@);
        assert(alike_text(raw.take(7), "CREATE "@));
    }
}

/// A line that is a comment says nothing: `--` at its start, with no second comment in it.
pub proof fn law_comment_line(st: ScanModel, remark: Seq<char>)
    requires
        find_from("--"@ + remark, " -- "@, 0) is None,
    ensures
        scan_line(st, "--"@ + remark) == st,
{
    reveal_strlit("--");
    let raw = "--"@ + remark;
    assert(raw.take(2) =~= "--"@);
    assert(begins(raw, "--"@));
    assert(strip_comment(raw) =~= Seq::empty());
    assert(trim_end(Seq::<char>::empty()) =~= Seq::empty());
}

/// A comment behind a line changes nothing of what the line says.
pub proof fn law_trailing_comment(st: ScanModel, line: Seq<char>, remark: Seq<char>)
    requires
        forall|i: int| 0 <= i < line.len() ==> (#[trigger] line[i]) != '-',
        trim_start(line).len() > 0,
        trim_start(line)[0] != '/',
    ensures
        scan_line(st, line + " -- "@ + remark) == scan_line(st, line),
{
    reveal_strlit(" -- ");
    let mark = " -- "@;
    let raw = line + mark + remark;
    let n = line.len();
    assert(raw.subrange(n as int, (n + 4) as int) =~= mark);
    assert forall|i: int| 0 <= i < n implies #[trigger] raw.subrange(i, i + 4) != mark by {
        assert(raw.subrange(i, i + 4)[1] == raw[i + 1]);
        assert(raw.subrange(i, i + 4)[2] == raw[i + 2]);
        assert(mark[1] == '-' && mark[2] == '-');
        if i + 1 < n {
            assert(raw[i + 1] == line[i + 1]);
        } else {
            assert(raw[i + 1] == mark[0]);
        }
    }
    lemma_found_at(raw, mark, n, 0);
    assert(raw.take(n as int) =~= line);
    assert(strip_comment(raw) == line);
    lemma_no_comment(line);
}

proof fn lemma_found_at(s: Seq<char>, p: Seq<char>, n: nat, from: nat)
    requires
        p.len() == 4,
        from <= n,
        n + 4 <= s.len(),
        s.subrange(n as int, (n + 4) as int) == p,
        forall|i: int| 0 <= i < n ==> #[trigger] s.subrange(i, i + 4) != p,
    ensures
        find_from(s, p, from) == Some(n),
    decreases n - from,
{
    if from < n {
        assert(s.subrange(from as int, from as int + 4) != p);
        lemma_found_at(s, p, n, from + 1);
    }
}

/// In the body of a routine, a line that neither changes the database nor the delimiter
/// says nothing.
pub proof fn law_routine_line(st: ScanModel, raw: Seq<char>)
    requires
        st.mode is Routine,
        !begins(trim_start(trim_end(strip_comment(raw))), "USE "@),
        !begins(trim_start(trim_end(strip_comment(raw))), "DELIMITER "@),
    ensures
        scan_line(st, raw) == st,
{
}

/// The line that changes the delimiter.
pub open spec fn delimiter_line(mark: Seq<char>) -> Seq<char> {
    "DELIMITER "@ + mark
}

/// Another delimiter than `;` starts routines, and `;` ends them; nothing else changes.
pub proof fn law_delimiter_line(st: ScanModel, mark: Seq<char>)
    requires
        mark.len() > 0,
        forall|i: int| 0 <= i < mark.len() ==> !is_white(#[trigger] mark[i]) && mark[i] != '-',
    ensures
        scan_line(st, delimiter_line(mark)) == (ScanModel {
            mode: if mark == seq![';'] {
                ModeModel::Outside
            } else {
                ModeModel::Routine
            },
            ..st
        }),
{
    reveal_strlit("DELIMITER ");
    reveal_strlit("USE ");
    reveal_strlit(";");
    let raw = delimiter_line(mark);
    assert forall|i: int| 0 <= i < raw.len() implies (#[trigger] raw[i]) != '-' by {
        if i >= 10 {
            assert(raw[i] == mark[i - 10]);
        }
    }
    assert(raw[0] == 'D');
    assert(trim_start(raw) == raw);
    lemma_no_comment(raw);
    assert(raw.last() == mark.last());
    assert(trim_end(raw) == raw);
    if begins(raw, "USE "@) {
        assert(raw.take(4)[0] == 'D');
    }
    assert(raw.take(10) =~= "DELIMITER "@);
    assert(raw.skip(10) =~= mark);
    assert(trim_start(mark) == mark);
    assert(trim_end(mark) == mark);
    assert(";"@ =~= seq![';']);
}

} // verus!
