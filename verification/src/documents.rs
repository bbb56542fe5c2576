//! What is written as a graph document reads back.
//!
//! A document with a block for each node and for each edge declares these nodes, in order,
//! and these edges between them; an edge to a number that no node has is refused.
use crate::gml::{
    declare, declared, document, entries_at, graph_at, ident_end, int_under, is_sign, last_node,
    next_token, number_end, prepended, skip_blank, starts_word, token_at, value_at, Declared,
    EntryModel, Field, Lexed, Parsed, Tok, ValueModel,
};
use crate::text::{is_digit, lemma_decimal, signed_decimal, signed_value};
use vstd::prelude::*;

verus! {

/// A block of a document.
pub enum Block {
    Vertex(i64),
    Link(i64, i64),
}

/// How a block is written, behind a newline.
pub open spec fn block_text(block: Block) -> Seq<char> {
    match block {
        Block::Vertex(id) => "\nnode"@ + (" ["@ + (" id"@ + (seq![' '] + signed_decimal(id as int)
            + " ]"@))),
        Block::Link(a, b) => "\nedge"@ + (" ["@ + (" source"@ + (seq![' '] + signed_decimal(
            a as int,
        ) + (" target"@ + (seq![' '] + signed_decimal(b as int) + " ]"@))))),
    }
}

/// How blocks are written one after the other.
pub open spec fn blocks_text(blocks: Seq<Block>) -> Seq<char>
    decreases blocks.len(),
{
    if blocks.len() == 0 {
        "\n]\n"@
    } else {
        block_text(blocks[0]) + blocks_text(blocks.drop_first())
    }
}

/// A document with a block for each node, and then one for each edge.
pub open spec fn document_text(nodes: Seq<i64>, links: Seq<(i64, i64)>) -> Seq<char> {
    "graph ["@ + blocks_text(blocks_of(nodes, links))
}

/// The blocks of a document.
pub open spec fn blocks_of(nodes: Seq<i64>, links: Seq<(i64, i64)>) -> Seq<Block> {
    nodes.map_values(|id: i64| Block::Vertex(id)) + links.map_values(
        |link: (i64, i64)| Block::Link(link.0, link.1),
    )
}

/// `w` stands in `s` at `pos`.
spec fn holds_at(s: Seq<char>, pos: nat, w: Seq<char>) -> bool {
    pos + w.len() <= s.len() && forall|i: int|
        0 <= i < w.len() ==> s[pos + i] == #[trigger] w[i]
}

proof fn lemma_parts(s: Seq<char>, pos: nat, a: Seq<char>, b: Seq<char>)
    requires
        holds_at(s, pos, a + b),
    ensures
        holds_at(s, pos, a),
        holds_at(s, pos + a.len(), b),
{
    assert forall|i: int| 0 <= i < a.len() implies s[pos + i] == #[trigger] a[i] by {
        assert((a + b)[i] == a[i]);
    }
    assert forall|i: int| 0 <= i < b.len() implies s[pos + a.len() + i] == #[trigger] b[i] by {
        assert((a + b)[a.len() + i] == b[i]);
    }
}

/// The decimal text of a signed number reads back as the number.
pub proof fn law_signed_reads_back(n: i64)
    ensures
        signed_value(signed_decimal(n as int)) == Some(n as int),
{
    let s = signed_decimal(n as int);
    if n < 0 {
        lemma_decimal((-n) as nat);
        assert(s.skip(1) =~= crate::text::decimal((-n) as nat));
    } else {
        lemma_decimal(n as nat);
        assert(is_digit(s[0]));
    }
}

proof fn lemma_number_end(s: Seq<char>, from: nat, end: nat)
    requires
        from <= end < s.len(),
        forall|i: int| from <= i < end ==> is_digit(#[trigger] s[i]),
        s[end as int] == ' ',
    ensures
        number_end(s, from, false, false) == end,
    decreases end - from,
{
    if from < end {
        assert(is_digit(s[from as int]));
        lemma_number_end(s, from + 1, end);
    }
}

proof fn lemma_ident_end(s: Seq<char>, from: nat, end: nat)
    requires
        from <= end < s.len(),
        forall|i: int| from <= i < end ==> starts_word(#[trigger] s[i]),
        s[end as int] == ' ',
    ensures
        ident_end(s, from) == end,
    decreases end - from,
{
    if from < end {
        assert(starts_word(s[from as int]));
        lemma_ident_end(s, from + 1, end);
    }
}

/// A word of letters only.
spec fn is_word(w: Seq<char>) -> bool {
    w.len() > 0 && forall|i: int| 0 <= i < w.len() ==> starts_word(#[trigger] w[i])
}

proof fn lemma_bare_word(s: Seq<char>, pos: nat, line: nat, w: Seq<char>)
    requires
        s.len() <= usize::MAX,
        is_word(w),
        holds_at(s, pos, w),
        pos + w.len() < s.len(),
        s[(pos + w.len()) as int] == ' ',
    ensures
        next_token(s, pos, line) == Lexed::Token(
            Tok::Ident(pos as usize, (pos + w.len()) as usize),
            pos + w.len(),
            line,
        ),
        s.subrange(pos as int, (pos + w.len()) as int) == w,
{
    assert(s[pos as int + 0] == w[0]);
    assert(starts_word(w[0]));
    assert(skip_blank(s, pos, line, false) == (pos, line));
    assert forall|i: int| pos <= i < pos + w.len() implies starts_word(#[trigger] s[i]) by {
        assert(s[pos + (i - pos)] == w[i - pos]);
    }
    lemma_ident_end(s, pos, pos + w.len());
    assert(s.subrange(pos as int, (pos + w.len()) as int) =~= w);
}

proof fn lemma_word(s: Seq<char>, pos: nat, line: nat, gap: char, w: Seq<char>)
    requires
        s.len() <= usize::MAX,
        gap == ' ' || gap == '\n',
        is_word(w),
        holds_at(s, pos, seq![gap] + w),
        pos + 1 + w.len() < s.len(),
        s[(pos + 1 + w.len()) as int] == ' ',
    ensures
        next_token(s, pos, line) == Lexed::Token(
            Tok::Ident((pos + 1) as usize, (pos + 1 + w.len()) as usize),
            pos + 1 + w.len(),
            if gap == '\n' {
                line + 1
            } else {
                line
            },
        ),
        s.subrange(pos as int + 1, (pos + 1 + w.len()) as int) == w,
{
    lemma_parts(s, pos, seq![gap], w);
    assert(s[pos as int + 0] == seq![gap][0]);
    let next = if gap == '\n' {
        line + 1
    } else {
        line
    };
    assert(skip_blank(s, pos, line, false) == skip_blank(s, pos + 1, next, false));
    lemma_bare_word(s, pos + 1, next, w);
}

proof fn lemma_bracket(s: Seq<char>, pos: nat, line: nat, gap: char, open: bool)
    requires
        pos + 1 < s.len(),
        gap == ' ' || gap == '\n',
        s[pos as int] == gap,
        s[pos as int + 1] == (if open {
            '['
        } else {
            ']'
        }),
    ensures
        next_token(s, pos, line) == Lexed::Token(
            if open {
                Tok::LBracket
            } else {
                Tok::RBracket
            },
            pos + 2,
            if gap == '\n' {
                line + 1
            } else {
                line
            },
        ),
{
    let next = if gap == '\n' {
        line + 1
    } else {
        line
    };
    assert(skip_blank(s, pos, line, false) == skip_blank(s, pos + 1, next, false));
    assert(skip_blank(s, pos + 1, next, false) == (pos + 1, next));
}

proof fn lemma_int(s: Seq<char>, pos: nat, line: nat, n: i64)
    requires
        holds_at(s, pos, seq![' '] + signed_decimal(n as int)),
        pos + 1 + signed_decimal(n as int).len() < s.len(),
        s[(pos + 1 + signed_decimal(n as int).len()) as int] == ' ',
    ensures
        value_at(s, pos, line) == Parsed::Done(
            ValueModel::Int(n),
            pos + 1 + signed_decimal(n as int).len(),
            line,
        ),
{
    let w = signed_decimal(n as int);
    lemma_parts(s, pos, seq![' '], w);
    assert(s[pos as int + 0] == seq![' '][0]);
    law_signed_reads_back(n);
    lemma_decimal(if n < 0 {
        (-n) as nat
    } else {
        n as nat
    });
    assert(s[pos as int + 1 + 0] == w[0]);
    assert(is_sign(w[0]) || is_digit(w[0]));
    assert(skip_blank(s, pos, line, false) == skip_blank(s, pos + 1, line, false));
    assert(skip_blank(s, pos + 1, line, false) == (pos + 1, line));
    let end = pos + 1 + w.len();
    assert forall|i: int| pos + 2 <= i < end implies is_digit(#[trigger] s[i]) by {
        assert(s[pos + 1 + (i - pos - 1)] == w[i - pos - 1]);
    }
    lemma_number_end(s, pos + 2, end);
    assert(s.subrange(pos as int + 1, end as int) =~= w);
    assert(token_at(s, pos + 1, line) == Lexed::Token(Tok::Int(n), end, line));
    assert(next_token(s, pos, line) == Lexed::Token(Tok::Int(n), end, line));
}

/// The entry is a field with the integer `n` under the key `w`.
spec fn is_field(s: Seq<char>, f: Field, w: Seq<char>, n: i64) -> bool {
    &&& 0 <= f.start <= f.end <= s.len()
    &&& s.subrange(f.start as int, f.end as int) == w
    &&& f.value == Some(n)
}

/// The entry is the block.
spec fn is_block(s: Seq<char>, e: EntryModel, block: Block) -> bool {
    &&& s.subrange(e.start as int, e.end as int) == match block {
        Block::Vertex(_) => "node"@,
        Block::Link(_, _) => "edge"@,
    }
    &&& e.value is List
    &&& are_fields(s, e.value->List_0, block)
}

proof fn lemma_words()
    ensures
        "\nnode"@ == seq!['\n'] + "node"@,
        "\nedge"@ == seq!['\n'] + "edge"@,
        " id"@ == seq![' '] + "id"@,
        " source"@ == seq![' '] + "source"@,
        " target"@ == seq![' '] + "target"@,
        " ["@ == seq![' ', '['],
        " ]"@ == seq![' ', ']'],
        is_word("node"@),
        is_word("edge"@),
        is_word("id"@),
        is_word("source"@),
        is_word("target"@),
        is_word("graph"@),
        "graph ["@ == "graph"@ + seq![' ', '['],
        "node"@ != "edge"@,
        "source"@ != "target"@,
        "\n]\n"@ == seq!['\n', ']', '\n'],
        "graph"@.len() == 5,
{
    reveal_strlit("\nnode");
    reveal_strlit("node");
    reveal_strlit("\nedge");
    reveal_strlit("edge");
    reveal_strlit(" id");
    reveal_strlit("id");
    reveal_strlit(" source");
    reveal_strlit("source");
    reveal_strlit(" target");
    reveal_strlit("target");
    reveal_strlit(" [");
    reveal_strlit(" ]");
    reveal_strlit("graph");
    reveal_strlit("graph [");
    reveal_strlit("\n]\n");
    assert("\nnode"@ =~= seq!['\n'] + "node"@);
    assert("\nedge"@ =~= seq!['\n'] + "edge"@);
    assert(" id"@ =~= seq![' '] + "id"@);
    assert(" source"@ =~= seq![' '] + "source"@);
    assert(" target"@ =~= seq![' '] + "target"@);
    assert(" ["@ =~= seq![' ', '[']);
    assert(" ]"@ =~= seq![' ', ']']);
    assert("graph ["@ =~= "graph"@ + seq![' ', '[']);
    assert("\n]\n"@ =~= seq!['\n', ']', '\n']);
    assert("node"@[0] == 'n' && "edge"@[0] == 'e');
    assert("source"@[0] == 's' && "target"@[0] == 't');
}

/// The field ` w n` and what follows it, in a list.
proof fn lemma_field(s: Seq<char>, pos: nat, line: nat, w: Seq<char>, n: i64, rest: Seq<char>) -> (e:
    EntryModel)
    requires
        s.len() <= usize::MAX,
        is_word(w),
        holds_at(s, pos, (seq![' '] + w) + (seq![' '] + signed_decimal(n as int) + rest)),
        rest.len() > 0,
        rest[0] == ' ',
    ensures
        ({
            let end = pos + 1 + w.len() + 1 + signed_decimal(n as int).len();
            &&& holds_at(s, end, rest)
            &&& is_field(s, crate::gml::flattened(e), w, n)
            &&& entries_at(s, pos, line) == prepended(seq![e], entries_at(s, end, line))
        }),
{
    let number = seq![' '] + signed_decimal(n as int);
    let key = seq![' '] + w;
    lemma_parts(s, pos, key, number + rest);
    lemma_parts(s, pos + key.len(), number, rest);
    let mid = pos + key.len();
    let end = mid + number.len();
    assert(s[mid as int + 0] == (number + rest)[0]);
    assert((number + rest)[0] == ' ');
    lemma_word(s, pos, line, ' ', w);
    assert(s[end as int + 0] == rest[0]);
    lemma_int(s, mid, line, n);
    let e = EntryModel {
        start: (pos + 1) as usize,
        end: mid as usize,
        line,
        value: ValueModel::Int(n),
    };
    assert(entries_at(s, pos, line) == prepended(seq![e], entries_at(s, end, line)));
    e
}

/// The closing bracket of a list.
proof fn lemma_close(s: Seq<char>, pos: nat, line: nat)
    requires
        holds_at(s, pos, seq![' ', ']']),
    ensures
        entries_at(s, pos, line) == Parsed::Done(Seq::<EntryModel>::empty(), pos + 2, line),
{
    let w = seq![' ', ']'];
    assert(s[pos as int + 0] == w[0] && s[pos as int + 1] == w[1]);
    lemma_bracket(s, pos, line, ' ', false);
}

/// The inside of a block, behind its opening bracket.
spec fn inner_text(block: Block) -> Seq<char> {
    match block {
        Block::Vertex(id) => " id"@ + (seq![' '] + signed_decimal(id as int) + " ]"@),
        Block::Link(a, b) => " source"@ + (seq![' '] + signed_decimal(a as int) + (" target"@ + (
        seq![' '] + signed_decimal(b as int) + " ]"@))),
    }
}

/// The fields are those of the block.
spec fn are_fields(s: Seq<char>, fields: Seq<Field>, block: Block) -> bool {
    match block {
        Block::Vertex(id) => {
            &&& fields.len() == 1
            &&& is_field(s, fields[0], "id"@, id)
        },
        Block::Link(a, b) => {
            &&& fields.len() == 2
            &&& is_field(s, fields[0], "source"@, a)
            &&& is_field(s, fields[1], "target"@, b)
        },
    }
}

/// The inside of the block of a node.
proof fn lemma_inner_vertex(s: Seq<char>, q: nat, l: nat, id: i64) -> (entries: Seq<EntryModel>)
    requires
        s.len() <= usize::MAX,
        holds_at(s, q, inner_text(Block::Vertex(id))),
    ensures
        entries_at(s, q, l) == Parsed::Done(
            entries,
            q + inner_text(Block::Vertex(id)).len(),
            l,
        ),
        are_fields(
            s,
            entries.map_values(|e: EntryModel| crate::gml::flattened(e)),
            Block::Vertex(id),
        ),
{
    lemma_words();
    let f = lemma_field(s, q, l, "id"@, id, " ]"@);
    let after = q + 1 + "id"@.len() + 1 + signed_decimal(id as int).len();
    lemma_close(s, after, l);
    assert(seq![f] + Seq::<EntryModel>::empty() =~= seq![f]);
    seq![f]
}

/// The inside of the block of an edge.
proof fn lemma_inner_link(s: Seq<char>, q: nat, l: nat, a: i64, b: i64) -> (entries: Seq<
    EntryModel,
>)
    requires
        s.len() <= usize::MAX,
        holds_at(s, q, inner_text(Block::Link(a, b))),
    ensures
        entries_at(s, q, l) == Parsed::Done(
            entries,
            q + inner_text(Block::Link(a, b)).len(),
            l,
        ),
        are_fields(
            s,
            entries.map_values(|e: EntryModel| crate::gml::flattened(e)),
            Block::Link(a, b),
        ),
{
    lemma_words();
    let tail = " target"@ + (seq![' '] + signed_decimal(b as int) + " ]"@);
    assert(tail[0] == ' ');
    let f = lemma_field(s, q, l, "source"@, a, tail);
    let mid = q + 1 + "source"@.len() + 1 + signed_decimal(a as int).len();
    let g = lemma_field(s, mid, l, "target"@, b, " ]"@);
    let after = mid + 1 + "target"@.len() + 1 + signed_decimal(b as int).len();
    lemma_close(s, after, l);
    assert(seq![g] + Seq::<EntryModel>::empty() =~= seq![g]);
    assert(seq![f] + seq![g] =~= seq![f, g]);
    seq![f, g]
}

/// A list behind a key, given its entries.
proof fn lemma_listed(
    s: Seq<char>,
    pos: nat,
    line: nat,
    name: Seq<char>,
    inner: Seq<char>,
    entries: Seq<EntryModel>,
) -> (e: EntryModel)
    requires
        s.len() <= usize::MAX,
        is_word(name),
        holds_at(s, pos, (seq!['\n'] + name) + (seq![' ', '['] + inner)),
        inner.len() > 0,
        entries_at(s, pos + 1 + name.len() + 2, line + 1) == Parsed::Done(
            entries,
            pos + 1 + name.len() + 2 + inner.len(),
            line + 1,
        ),
    ensures
        e.line == line + 1,
        e.value == ValueModel::List(
            entries.map_values(|e: EntryModel| crate::gml::flattened(e)),
        ),
        s.subrange(e.start as int, e.end as int) == name,
        entries_at(s, pos, line) == prepended(
            seq![e],
            entries_at(s, pos + 1 + name.len() + 2 + inner.len(), line + 1),
        ),
{
    let key = seq!['\n'] + name;
    let open = seq![' ', '['];
    lemma_parts(s, pos, key, open + inner);
    let p = pos + key.len();
    lemma_parts(s, p, open, inner);
    assert(s[p as int + 0] == open[0] && s[p as int + 1] == open[1]);
    lemma_word(s, pos, line, '\n', name);
    let l = line + 1;
    lemma_bracket(s, p, l, ' ', true);
    let end = p + 2 + inner.len();
    let fields = entries.map_values(|e: EntryModel| crate::gml::flattened(e));
    assert(value_at(s, p, l) == Parsed::Done(ValueModel::List(fields), end, l));
    let e = EntryModel {
        start: (pos + 1) as usize,
        end: p as usize,
        line: l,
        value: ValueModel::List(fields),
    };
    assert(entries_at(s, pos, line) == prepended(seq![e], entries_at(s, end, l)));
    e
}

/// A block is read as one entry, on the next line.
proof fn lemma_block(s: Seq<char>, pos: nat, line: nat, block: Block) -> (e: EntryModel)
    requires
        s.len() <= usize::MAX,
        holds_at(s, pos, block_text(block)),
    ensures
        is_block(s, e, block),
        e.line == line + 1,
        entries_at(s, pos, line) == prepended(
            seq![e],
            entries_at(s, pos + block_text(block).len(), line + 1),
        ),
{
    lemma_words();
    let name = match block {
        Block::Vertex(_) => "node"@,
        Block::Link(_, _) => "edge"@,
    };
    let key = seq!['\n'] + name;
    let open = seq![' ', '['];
    let inner = inner_text(block);
    assert(block_text(block) == key + (open + inner));
    lemma_parts(s, pos, key, open + inner);
    lemma_parts(s, pos + key.len(), open, inner);
    let q = pos + 1 + name.len() + 2;
    assert(q == pos + key.len() + open.len());
    let entries = match block {
        Block::Vertex(id) => lemma_inner_vertex(s, q, line + 1, id),
        Block::Link(a, b) => lemma_inner_link(s, q, line + 1, a, b),
    };
    lemma_listed(s, pos, line, name, inner, entries)
}

/// Blocks are read as entries, one on each line.
proof fn lemma_blocks(s: Seq<char>, pos: nat, line: nat, blocks: Seq<Block>) -> (entries: Seq<
    EntryModel,
>)
    requires
        s.len() <= usize::MAX,
        holds_at(s, pos, blocks_text(blocks)),
    ensures
        entries.len() == blocks.len(),
        forall|i: int| 0 <= i < entries.len() ==> is_block(s, #[trigger] entries[i], blocks[i]),
        forall|i: int| 0 <= i < entries.len() ==> (#[trigger] entries[i]).line == line + 1 + i,
        entries_at(s, pos, line) matches Parsed::Done(found, p, l) && found == entries,
    decreases blocks.len(),
{
    lemma_words();
    if blocks.len() == 0 {
        let w = seq!['\n', ']', '\n'];
        assert(s[pos as int + 0] == w[0] && s[pos as int + 1] == w[1]);
        lemma_bracket(s, pos, line, '\n', false);
        Seq::empty()
    } else {
        let rest = blocks.drop_first();
        lemma_parts(s, pos, block_text(blocks[0]), blocks_text(rest));
        let e = lemma_block(s, pos, line, blocks[0]);
        let others = lemma_blocks(s, pos + block_text(blocks[0]).len(), line + 1, rest);
        let entries = seq![e] + others;
        assert forall|i: int| 0 <= i < entries.len() implies is_block(
            s,
            #[trigger] entries[i],
            blocks[i],
        ) && entries[i].line == line + 1 + i by {
            if i > 0 {
                assert(entries[i] == others[i - 1]);
                assert(rest[i - 1] == blocks[i]);
            }
        }
        entries
    }
}

/// The last place of a number, if it has one.
proof fn lemma_last_node(ids: Seq<i64>, id: i64)
    ensures
        match last_node(ids, id) {
            Some(x) => x < ids.len() && ids[x as int] == id && forall|j: int|
                x < j < ids.len() ==> ids[j] != id,
            None => !ids.contains(id),
        },
    decreases ids.len(),
{
    if ids.len() > 0 && ids.last() != id {
        lemma_last_node(ids.drop_last(), id);
        let front = ids.drop_last();
        assert forall|j: int| 0 <= j < front.len() implies ids[j] == #[trigger] front[j] by {}
        if last_node(front, id) is None && ids.contains(id) {
            let i = choose|i: int| 0 <= i < ids.len() && ids[i] == id;
            assert(front[i] == id);
        }
        if let Some(x) = last_node(front, id) {
            assert forall|j: int| x < j < ids.len() implies ids[j] != id by {
                if j < front.len() {
                    assert(front[j] != id);
                }
            }
        }
    }
}

/// The end of an edge is the last node with its number.
pub open spec fn is_last_place(nodes: Seq<i64>, id: i64, place: nat) -> bool {
    &&& place < nodes.len()
    &&& nodes[place as int] == id
    &&& forall|j: int| place < j < nodes.len() ==> nodes[j] != id
}

/// Both ends of an edge are numbers of nodes.
pub open spec fn has_ends(nodes: Seq<i64>, link: (i64, i64)) -> bool {
    nodes.contains(link.0) && nodes.contains(link.1)
}

/// What the first `k` blocks declare.
spec fn declares(nodes: Seq<i64>, links: Seq<(i64, i64)>, k: nat, d: Declared) -> bool {
    let done = if k < nodes.len() {
        0
    } else {
        k - nodes.len()
    };
    match d {
        Declared::Graph(ids, ends) => {
            &&& ids == (if k < nodes.len() {
                nodes.take(k as int)
            } else {
                nodes
            })
            &&& ends.len() == done
            &&& forall|i: int|
                0 <= i < done ==> has_ends(nodes, #[trigger] links[i]) && is_last_place(
                    nodes,
                    links[i].0,
                    ends[i].0,
                ) && is_last_place(nodes, links[i].1, ends[i].1)
        },
        Declared::Dangling(line, id) => is_dangling(nodes, links, done as nat, line, id),
        Declared::Invalid(_, _) => false,
    }
}

/// Of the first `k` edges, the first one that has an end that is no node's number stands on
/// `line`, and that end is `id`.
pub open spec fn is_dangling(
    nodes: Seq<i64>,
    links: Seq<(i64, i64)>,
    k: nat,
    line: nat,
    id: i64,
) -> bool {
    let i = line - 2 - nodes.len();
    &&& 0 <= i < k
    &&& !nodes.contains(id)
    &&& links[i].0 == id || (links[i].1 == id && nodes.contains(links[i].0))
    &&& forall|j: int| 0 <= j < i ==> has_ends(nodes, #[trigger] links[j])
}

proof fn lemma_declared(
    s: Seq<char>,
    entries: Seq<EntryModel>,
    nodes: Seq<i64>,
    links: Seq<(i64, i64)>,
    k: nat,
    line: nat,
)
    requires
        entries.len() == nodes.len() + links.len(),
        k <= entries.len(),
        forall|i: int|
            0 <= i < entries.len() ==> is_block(
                s,
                #[trigger] entries[i],
                blocks_of(nodes, links)[i],
            ),
        forall|i: int| 0 <= i < entries.len() ==> (#[trigger] entries[i]).line == 2 + i,
    ensures
        declares(nodes, links, k, declared(s, entries, k, line)),
    decreases k,
{
    if k > 0 {
        lemma_words();
        lemma_declared(s, entries, nodes, links, (k - 1) as nat, line);
        let e = entries[k - 1];
        let block = blocks_of(nodes, links)[k - 1];
        assert(is_block(s, e, block));
        match declared(s, entries, (k - 1) as nat, line) {
            Declared::Graph(ids, ends) => {
                let fields = e.value->List_0;
                if k <= nodes.len() {
                    assert(block == Block::Vertex(nodes[k - 1]));
                    assert(int_under(s, fields, "id"@, 0) == Some(nodes[k - 1]));
                    assert(declare(s, ids, ends, e, line) == Declared::Graph(
                        ids.push(nodes[k - 1]),
                        ends,
                    ));
                    if k < nodes.len() {
                        assert(nodes.take(k as int) =~= nodes.take(k - 1).push(nodes[k - 1]));
                    } else {
                        assert(nodes =~= nodes.take(k - 1).push(nodes[k - 1]));
                    }
                } else {
                    let i = k - 1 - nodes.len();
                    let (a, b) = links[i];
                    assert(block == Block::Link(a, b));
                    assert(int_under(s, fields, "source"@, 0) == Some(a));
                    assert(int_under(s, fields, "target"@, 1) == Some(b));
                    assert(int_under(s, fields, "target"@, 0) == Some(b));
                    lemma_last_node(nodes, a);
                    lemma_last_node(nodes, b);
                    if last_node(nodes, a) is Some && last_node(nodes, b) is Some {
                        let x = last_node(nodes, a)->0;
                        let y = last_node(nodes, b)->0;
                        assert(nodes[x as int] == a && nodes[y as int] == b);
                        assert(declare(s, ids, ends, e, line) == Declared::Graph(
                            ids,
                            ends.push((x, y)),
                        ));
                    }
                }
            },
            _ => {},
        }
    } else if nodes.len() > 0 {
        assert(nodes.take(0) =~= Seq::empty());
    } else {
        assert(nodes =~= Seq::empty());
    }
}

/// A document with a block for each node and then one for each edge declares these nodes,
/// in order, and an edge for each of these edges between the last nodes with the numbers of
/// its ends. If some edge has an end that is no node's number, the first such edge is
/// refused, by that end and its line.
pub proof fn law_document_reads_back(nodes: Seq<i64>, links: Seq<(i64, i64)>)
    requires
        document_text(nodes, links).len() <= usize::MAX,
    ensures
        match document(document_text(nodes, links)) {
            Declared::Graph(ids, ends) => {
                &&& ids == nodes
                &&& ends.len() == links.len()
                &&& forall|i: int|
                    0 <= i < links.len() ==> has_ends(nodes, #[trigger] links[i])
                        && is_last_place(nodes, links[i].0, ends[i].0) && is_last_place(
                        nodes,
                        links[i].1,
                        ends[i].1,
                    )
            },
            Declared::Dangling(line, id) => is_dangling(nodes, links, links.len(), line, id),
            Declared::Invalid(_, _) => false,
        },
{
    let s = document_text(nodes, links);
    let blocks = blocks_of(nodes, links);
    lemma_words();
    assert(holds_at(s, 0, s));
    let front = "graph"@ + seq![' ', '['];
    lemma_parts(s, 0, front, blocks_text(blocks));
    lemma_parts(s, 0, "graph"@, seq![' ', '[']);
    let open = seq![' ', '['];
    assert(s[5int + 0] == open[0] && s[5int + 1] == open[1]);
    lemma_bare_word(s, 0, 1, "graph"@);
    lemma_bracket(s, 5, 1, ' ', true);
    let entries = lemma_blocks(s, 7, 1, blocks);
    assert(graph_at(s, 0, 1) == entries_at(s, 7, 1));
    let line = match entries_at(s, 7, 1) {
        Parsed::Done(_, _, l) => l,
        Parsed::Fail(l, _) => l,
    };
    lemma_declared(s, entries, nodes, links, entries.len(), line);
}

} // verus!
