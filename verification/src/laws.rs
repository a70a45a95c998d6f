//! Properties that relate several operations of the library: what reading
//! gives back of what was written, and what lookups give after edits.
use vstd::prelude::*;

use crate::model::{
    is_first_key, is_first_section, key_index, lemma_key_index, lookup, remove_entries,
    section_index, set_entries, DocumentModel,
    EntryModel, SectionModel, ValueModel,
};
use crate::parse::{
    lemma_block_advances, lemma_entries_advance,
    is_skipped, parse_block, parse_doc_from, parse_entries_from, parse_spec, split_entry, strip_bom,
    Block, MAX_DEPTH,
};
use crate::text::{
    byte_len, lemma_byte_len_add,
    first_index, has_char, is_ascii_ws, is_first_index, lemma_first_index_none,
    lemma_first_index_unique,
    lemma_split_lines_nonempty, lemma_trim_end_keeps, lemma_trim_end_shape, lemma_trim_start_keeps,
    lemma_trim_start_shape,
    lemma_trim_start_ws_prefix, lemma_trimmed, split_lines, trim, trim_end, trim_start,
};
use crate::write::{
    starts_with_comment,
    entries_nesting, entry_nesting, lemma_nesting_bound, starts_with_bom, check_document, check_entries, check_sections, document_lines, entries_lines, entries_size,
    entry_lines, entry_size, estimated_size, indent, join_lines, lemma_join_lines_add,
    lemma_join_lines_one, meta_lines, meta_ok, meta_size, render_spec, section_lines,
    sections_lines, sections_size, valid_key, valid_meta_key, valid_meta_value, valid_section_name,
    valid_text,
};

verus! {

broadcast use vstd::seq::group_seq_axioms;

/// An entry key that a written line gives back: non-empty, not starting
/// with `//`, without `:` or newline, without surrounding whitespace.
pub open spec fn readable_key(k: Seq<char>) -> bool {
    &&& k.len() > 0
    &&& !starts_with_comment(k)
    &&& !has_char(k, ':')
    &&& !has_char(k, '\n')
    &&& trim(k) == k
}

/// A text value that a written line gives back.
pub open spec fn readable_text(v: Seq<char>) -> bool {
    &&& !has_char(v, '\n')
    &&& trim(v) == v
    &&& v != "{"@
}

/// Every entry of `es` (and of the maps inside) reads back as itself.
pub open spec fn entries_readable(es: Seq<EntryModel>) -> bool
    decreases es,
{
    es.len() == 0 || (entry_readable(es[0]) && entries_readable(es.drop_first()))
}

/// An entry (and the maps inside it) reads back as itself.
pub open spec fn entry_readable(e: EntryModel) -> bool
    decreases e,
{
    &&& readable_key(e.key)
    &&& match e.value {
        ValueModel::Text(v) => readable_text(v),
        ValueModel::Nested(m) => entries_readable(m),
    }
}

/// A header line that reads back as itself (its key may be empty).
pub open spec fn readable_meta(k: Seq<char>, v: Seq<char>) -> bool {
    &&& k.len() > 0 ==> k[0] != ':'
    &&& !starts_with_comment(k)
    &&& !has_char(k, '=')
    &&& !has_char(k, '\n')
    &&& trim(k) == k
    &&& !has_char(v, '\n')
    &&& trim(v) == v
}

/// A block name that reads back as itself.
pub open spec fn readable_name(n: Seq<char>) -> bool {
    &&& n.len() > 0
    &&& n != "end"@
    &&& !has_char(n, '\n')
    &&& trim(n) == n
}

/// A block that reads back as itself.
pub open spec fn section_readable(s: SectionModel) -> bool {
    &&& readable_name(s.name)
    &&& entries_readable(s.entries)
    &&& entries_nesting(s.entries) <= MAX_DEPTH
}

/// A document that reads back from its text as itself. Every document that
/// `validate` accepts is one, and so is every document read from a text
/// whose first header key does not start with a byte order mark.
pub open spec fn document_readable(d: DocumentModel) -> bool {
    &&& all_meta_readable(d.meta)
    &&& !(d.meta.len() > 0 && starts_with_bom(d.meta[0].0))
    &&& all_sections_readable(d.sections)
}

/// Every header line reads back as itself.
pub open spec fn all_meta_readable(ms: Seq<(Seq<char>, Seq<char>)>) -> bool {
    forall|i: int| 0 <= i < ms.len() ==> readable_meta(#[trigger] ms[i].0, ms[i].1)
}

/// Every block reads back as itself.
pub open spec fn all_sections_readable(ss: Seq<SectionModel>) -> bool {
    forall|i: int| 0 <= i < ss.len() ==> section_readable(#[trigger] ss[i])
}

/// Entries read back exactly when each of them does.
pub proof fn lemma_entries_readable_all(es: Seq<EntryModel>)
    ensures
        entries_readable(es) <==> forall|i: int| 0 <= i < es.len() ==> entry_readable(#[trigger] es[i]),
    decreases es.len(),
{
    if es.len() > 0 {
        let rest = es.drop_first();
        lemma_entries_readable_all(rest);
        if entries_readable(es) {
            assert forall|i: int| 0 <= i < es.len() implies entry_readable(#[trigger] es[i]) by {
                if i > 0 {
                    assert(rest[i - 1] == es[i]);
                }
            }
        }
        if forall|i: int| 0 <= i < es.len() ==> entry_readable(#[trigger] es[i]) {
            assert forall|i: int| 0 <= i < rest.len() implies entry_readable(#[trigger] rest[i]) by {
                assert(rest[i] == es[i + 1]);
            }
        }
    }
}

/// The lines `ls` stand in `all` from position `p` on.
pub open spec fn lines_at(all: Seq<Seq<char>>, p: int, ls: Seq<Seq<char>>) -> bool {
    &&& 0 <= p
    &&& p + ls.len() <= all.len()
    &&& forall|i: int| 0 <= i < ls.len() ==> all[p + i] == #[trigger] ls[i]
}

proof fn lemma_lines_at_split(all: Seq<Seq<char>>, p: int, a: Seq<Seq<char>>, b: Seq<Seq<char>>)
    requires
        lines_at(all, p, a + b),
    ensures
        lines_at(all, p, a),
        lines_at(all, p + a.len(), b),
{
    assert forall|i: int| 0 <= i < a.len() implies all[p + i] == #[trigger] a[i] by {
        assert((a + b)[i] == a[i]);
    }
    assert forall|i: int| 0 <= i < b.len() implies all[p + a.len() + i] == #[trigger] b[i] by {
        assert((a + b)[a.len() + i] == b[i]);
    }
}

/// Appending newline-free text extends the last line.
proof fn lemma_split_extend(s: Seq<char>, t: Seq<char>)
    requires
        !has_char(t, '\n'),
    ensures
        split_lines(s + t).len() == split_lines(s).len(),
        split_lines(s + t) == split_lines(s).update(
            split_lines(s).len() - 1,
            split_lines(s).last() + t,
        ),
    decreases t.len(),
{
    lemma_split_lines_nonempty(s);
    let p = split_lines(s);
    if t.len() == 0 {
        assert(s + t =~= s);
        assert(p.last() + t =~= p.last());
        assert(p.update(p.len() - 1, p.last()) =~= p);
    } else {
        let t0 = t.drop_last();
        assert((s + t).drop_last() =~= s + t0);
        assert((s + t).last() == t.last());
        assert(t[t.len() - 1] == t.last());
        assert(!has_char(t0, '\n')) by {
            if has_char(t0, '\n') {
                let j = choose|j: int| 0 <= j < t0.len() && t0[j] == '\n';
                assert(t[j] == '\n');
            }
        }
        lemma_split_extend(s, t0);
        assert((p.last() + t0).push(t.last()) =~= p.last() + t);
        assert(split_lines(s + t) =~= p.update(p.len() - 1, p.last() + t));
    }
}

/// Cutting joined newline-free lines gives the lines back, plus the empty
/// piece after the final newline.
proof fn lemma_split_join(ls: Seq<Seq<char>>)
    requires
        forall|i: int| 0 <= i < ls.len() ==> !has_char(#[trigger] ls[i], '\n'),
    ensures
        split_lines(join_lines(ls)) == ls.push(Seq::<char>::empty()),
    decreases ls.len(),
{
    if ls.len() == 0 {
        assert(split_lines(Seq::<char>::empty()) =~= ls.push(Seq::<char>::empty()));
    } else {
        let init = ls.drop_last();
        let l = ls.last();
        assert(!has_char(ls[ls.len() - 1], '\n'));
        lemma_split_join(init);
        let j = join_lines(init);
        lemma_split_extend(j, l);
        let s = j + l + seq!['\n'];
        assert(s.drop_last() =~= j + l);
        assert(s.last() == '\n');
        let q = init.push(Seq::<char>::empty());
        assert(q.last() + l =~= l);
        assert(q.update(q.len() - 1, l) =~= ls);
    }
}

/// The characters of the literals that the writer uses.
proof fn lemma_literals()
    ensures
        " :"@ == seq![' ', ':'],
        "{"@ == seq!['{'],
        "}"@ == seq!['}'],
        ":end"@ == seq![':', 'e', 'n', 'd'],
        "end"@ == seq!['e', 'n', 'd'],
        "="@ == seq!['='],
        ":"@ == seq![':'],
        "    "@ == seq![' ', ' ', ' ', ' '],
{
    reveal_strlit(" :");
    reveal_strlit("{");
    reveal_strlit("}");
    reveal_strlit(":end");
    reveal_strlit("end");
    reveal_strlit("=");
    reveal_strlit(":");
    reveal_strlit("    ");
    assert(" :"@ =~= seq![' ', ':']);
    assert("{"@ =~= seq!['{']);
    assert("}"@ =~= seq!['}']);
    assert(":end"@ =~= seq![':', 'e', 'n', 'd']);
    assert("end"@ =~= seq!['e', 'n', 'd']);
    assert("="@ =~= seq!['=']);
    assert(":"@ =~= seq![':']);
    assert("    "@ =~= seq![' ', ' ', ' ', ' ']);
}

/// Indentation is made of spaces only.
proof fn lemma_indent_spaces(depth: nat)
    ensures
        forall|i: int| 0 <= i < indent(depth).len() ==> #[trigger] indent(depth)[i] == ' ',
    decreases depth,
{
    if depth > 0 {
        lemma_literals();
        let prev = indent((depth - 1) as nat);
        lemma_indent_spaces((depth - 1) as nat);
        assert(indent(depth) == prev + "    "@);
        assert forall|i: int| 0 <= i < indent(depth).len() implies #[trigger] indent(depth)[i]
            == ' ' by {
            if i < prev.len() {
                assert(indent(depth)[i] == prev[i]);
            } else {
                assert(indent(depth)[i] == "    "@[i - prev.len()]);
            }
        }
    }
}

/// How the parser sees a written entry line `key :value` (a nested map's
/// first line has the value `{`).
proof fn lemma_entry_line(depth: nat, key: Seq<char>, v: Seq<char>, pos: int)
    requires
        readable_key(key),
        trim(v) == v,
    ensures
        trim(indent(depth) + key + " :"@ + v) == key + " :"@ + v,
        !is_skipped(key + " :"@ + v),
        (key + " :"@ + v)[0] != ':',
        key + " :"@ + v != "}"@,
        key + " :"@ + v != ":end"@,
        split_entry(key + " :"@ + v, pos) == Ok::<(Seq<char>, Seq<char>), crate::error::ParseError>(
            (key, v),
        ),
{
    lemma_literals();
    lemma_indent_spaces(depth);
    lemma_trimmed(key);
    lemma_trimmed(v);
    let t = key + " :"@ + v;
    let n = key.len() as int;
    assert(t.len() == n + 2 + v.len());
    assert(forall|i: int| 0 <= i < n ==> t[i] == key[i]);
    assert(t[n] == ' ');
    assert(t[n + 1] == ':');
    assert(forall|i: int| 0 <= i < v.len() ==> t[n + 2 + i] == v[i]);
    assert(indent(depth) + key + " :"@ + v =~= indent(depth) + t);
    lemma_trim_start_ws_prefix(indent(depth), t);
    assert(t[0] == key[0]);
    lemma_trim_start_keeps(t);
    if v.len() > 0 {
        assert(t.last() == v.last());
    } else {
        assert(t.last() == ':');
    }
    lemma_trim_end_keeps(t);
    assert(!is_skipped(t)) by {
        if n == 1 {
            assert(t[1] == ' ');
        } else {
            assert(t[1] == key[1]);
        }
    }
    assert(key[0] != ':') by {
        if key[0] == ':' {
            assert(has_char(key, ':'));
        }
    }
    assert(t != "}"@) by {
        assert(t.len() != "}"@.len());
    }
    assert(t != ":end"@) by {
        assert(":end"@[0] == ':');
    }
    assert forall|j: int| 0 <= j < n + 1 implies t[j] != ':' by {
        if j < n && t[j] == ':' {
            assert(key[j] == ':');
            assert(has_char(key, ':'));
        }
    }
    assert(is_first_index(t, ':', n + 1));
    lemma_first_index_unique(t, ':', n + 1);
    assert(t.take(n + 1) =~= key.push(' '));
    assert(key.push(' ').drop_last() =~= key);
    assert(trim_end(key.push(' ')) == trim_end(key));
    assert(t.skip(n + 2) =~= v);
}

/// How the parser sees the line `}` that closes a nested map.
proof fn lemma_close_line(depth: nat)
    ensures
        trim(indent(depth) + "}"@) == "}"@,
        !is_skipped("}"@),
        "}"@[0] != ':',
{
    lemma_literals();
    lemma_indent_spaces(depth);
    lemma_trim_start_ws_prefix(indent(depth), "}"@);
    lemma_trim_start_keeps("}"@);
    lemma_trim_end_keeps("}"@);
}

/// How the parser sees the line `:end`.
proof fn lemma_end_line()
    ensures
        trim(":end"@) == ":end"@,
        !is_skipped(":end"@),
        ":end"@[0] == ':',
{
    lemma_literals();
    lemma_trim_start_keeps(":end"@);
    lemma_trim_end_keeps(":end"@);
}

/// How the parser sees a block's first line `:name`.
proof fn lemma_header_line(name: Seq<char>)
    requires
        readable_name(name),
    ensures
        trim(":"@ + name) == ":"@ + name,
        !is_skipped(":"@ + name),
        (":"@ + name)[0] == ':',
        trim_start((":"@ + name).drop_first()) == name,
{
    lemma_literals();
    lemma_trimmed(name);
    let t = ":"@ + name;
    assert(t[0] == ':');
    lemma_trim_start_keeps(t);
    assert(t.last() == name.last());
    lemma_trim_end_keeps(t);
    assert(t.drop_first() =~= name);
}

/// How the parser sees a header line `key=value`.
proof fn lemma_meta_line(k: Seq<char>, v: Seq<char>)
    requires
        readable_meta(k, v),
    ensures
        trim(k + "="@ + v) == k + "="@ + v,
        !is_skipped(k + "="@ + v),
        (k + "="@ + v)[0] != ':',
        first_index(k + "="@ + v, '=') == Some(k.len() as int),
        trim_end((k + "="@ + v).take(k.len() as int)) == k,
        trim_start((k + "="@ + v).skip(k.len() as int + 1)) == v,
{
    lemma_literals();
    lemma_trimmed(k);
    lemma_trimmed(v);
    let t = k + "="@ + v;
    let n = k.len() as int;
    assert(forall|i: int| 0 <= i < n ==> t[i] == k[i]);
    assert(t[n] == '=');
    if n > 0 {
        assert(t[0] == k[0]);
    }
    lemma_trim_start_keeps(t);
    if v.len() > 0 {
        assert(t.last() == v.last());
    } else {
        assert(t.last() == '=');
    }
    lemma_trim_end_keeps(t);
    assert(!is_skipped(t)) by {
        if n == 0 {
        } else if n == 1 {
            assert(t[1] == '=');
        } else {
            assert(t[1] == k[1]);
        }
    }
    assert forall|j: int| 0 <= j < n implies t[j] != '=' by {
        if t[j] == '=' {
            assert(k[j] == '=');
            assert(has_char(k, '='));
        }
    }
    assert(is_first_index(t, '=', n));
    lemma_first_index_unique(t, '=', n);
    assert(t.take(n) =~= k);
    assert(t.skip(n + 1) =~= v);
}

/// Reading the lines that `es` is written as (at the level one deeper
/// than `depth`), followed by the line that closes the block, gives `es`
/// back and stops just after that closing line.
proof fn lemma_parse_written_entries(
    all: Seq<Seq<char>>,
    p: nat,
    open_line: usize,
    depth: nat,
    block: Block,
    acc: Seq<EntryModel>,
    es: Seq<EntryModel>,
)
    requires
        entries_readable(es),
        depth + entries_nesting(es) <= MAX_DEPTH,
        lines_at(all, p as int, entries_lines(es, depth + 1)),
        p + entries_lines(es, depth + 1).len() < all.len(),
        block == Block::Section ==> trim(all[p + entries_lines(es, depth + 1).len() as int]) == ":end"@,
        block == Block::Nested ==> trim(all[p + entries_lines(es, depth + 1).len() as int]) == "}"@,
    ensures
        parse_entries_from(all, p, open_line, depth, block, acc) == Ok::<
            (Seq<EntryModel>, nat),
            crate::error::ParseError,
        >((acc + es, p + entries_lines(es, depth + 1).len() + 1)),
    decreases es,
{
    let rd = depth + 1;
    if es.len() == 0 {
        lemma_end_line();
        lemma_close_line(0);
        lemma_literals();
        assert(entries_lines(es, rd) == Seq::<Seq<char>>::empty());
        assert(acc + es =~= acc);
        let t = trim(all[p as int]);
        if block == Block::Section {
            assert(t == ":end"@);
        } else {
            assert(t == "}"@);
            assert(t[0] == '}');
        }
    } else {
        let e = es[0];
        let rest = es.drop_first();
        let el = entry_lines(e, rd);
        let rl = entries_lines(rest, rd);
        assert(entries_lines(es, rd) == el + rl);
        lemma_lines_at_split(all, p as int, el, rl);
        assert(entry_readable(e) && entries_readable(rest));
        assert(readable_key(e.key));
        assert(entry_nesting(e) <= entries_nesting(es));
        assert(entries_nesting(rest) <= entries_nesting(es));
        assert(acc.push(e) + rest =~= acc + es);
        match e.value {
            ValueModel::Text(v) => {
                assert(readable_text(v));
                assert(el == seq![indent(rd) + e.key + " :"@ + v]);
                assert(all[p as int] == el[0]);
                lemma_entry_line(rd, e.key, v, p as int);
                let t = e.key + " :"@ + v;
                assert(trim(all[p as int]) == t);
                assert(v != "{"@);
                assert(e == EntryModel { key: e.key, value: ValueModel::Text(v) });
                assert(parse_entries_from(all, p, open_line, depth, block, acc)
                    == parse_entries_from(all, p + 1, open_line, depth, block, acc.push(e)));
                lemma_parse_written_entries(all, p + 1, open_line, depth, block, acc.push(e), rest);
            },
            ValueModel::Nested(m) => {
                lemma_literals();
                assert(entries_readable(m));
                let l1 = indent(rd) + e.key + " :"@ + "{"@;
                let ml = entries_lines(m, rd + 1);
                let l2 = indent(rd) + "}"@;
                assert(el == seq![l1] + ml + seq![l2]);
                lemma_lines_at_split(all, p as int, seq![l1] + ml, seq![l2]);
                lemma_lines_at_split(all, p as int, seq![l1], ml);
                assert(seq![l1][0] == l1);
                assert(all[p as int] == l1);
                assert(trim("{"@) == "{"@) by {
                    lemma_trim_start_keeps("{"@);
                    lemma_trim_end_keeps("{"@);
                }
                lemma_entry_line(rd, e.key, "{"@, p as int);
                assert(trim(all[p as int]) == e.key + " :"@ + "{"@);
                let q = p + 1 + ml.len();
                assert((seq![l1] + ml).len() == 1 + ml.len());
                assert(seq![l2][0] == l2);
                assert(all[q as int] == l2);
                lemma_close_line(rd);
                assert(depth + 1 <= MAX_DEPTH);
                lemma_parse_written_entries(
                    all,
                    p + 1,
                    (p + 1) as usize,
                    depth + 1,
                    Block::Nested,
                    Seq::empty(),
                    m,
                );
                assert(Seq::<EntryModel>::empty() + m =~= m);
                assert(parse_block(all, p + 1, (p + 1) as usize, depth + 1, Block::Nested)
                    == Ok::<(Seq<EntryModel>, nat), crate::error::ParseError>((m, q + 1)));
                assert(e == EntryModel { key: e.key, value: ValueModel::Nested(m) });
                assert(parse_entries_from(all, p, open_line, depth, block, acc)
                    == parse_entries_from(all, q + 1, open_line, depth, block, acc.push(e)));
                lemma_parse_written_entries(all, q + 1, open_line, depth, block, acc.push(e), rest);
            },
        }
    }
}

/// Reading the lines that the blocks `ss` are written as, followed only by
/// the empty piece after the final newline, gives the blocks back.
proof fn lemma_parse_written_sections(
    all: Seq<Seq<char>>,
    p: nat,
    meta: Seq<(Seq<char>, Seq<char>)>,
    acc: Seq<SectionModel>,
    ss: Seq<SectionModel>,
    sep: bool,
)
    requires
        forall|i: int| 0 <= i < ss.len() ==> section_readable(#[trigger] ss[i]),
        lines_at(all, p as int, sections_lines(ss, sep)),
        all.len() == p + sections_lines(ss, sep).len() + 1,
        all.last() == Seq::<char>::empty(),
    ensures
        parse_doc_from(all, p, meta, acc) == Ok::<DocumentModel, crate::error::ParseError>(
            DocumentModel { meta, sections: acc + ss },
        ),
    decreases ss.len(),
{
    lemma_literals();
    if ss.len() == 0 {
        assert(sections_lines(ss, sep) == Seq::<Seq<char>>::empty());
        assert(all[p as int] == Seq::<char>::empty());
        assert(trim(Seq::<char>::empty()) == Seq::<char>::empty());
        assert(acc + ss =~= acc);
    } else {
        let s = ss[0];
        let rest = ss.drop_first();
        let head: Seq<Seq<char>> = if sep {
            seq![Seq::<char>::empty()]
        } else {
            Seq::empty()
        };
        let l1 = ":"@ + s.name;
        let el = entries_lines(s.entries, 1);
        let l2 = ":end"@;
        let sl = section_lines(s, sep);
        let rl = sections_lines(rest, true);
        assert(sections_lines(ss, sep) == sl + rl);
        assert(sl == head + seq![l1] + el + seq![l2]);
        lemma_lines_at_split(all, p as int, sl, rl);
        lemma_lines_at_split(all, p as int, head + seq![l1] + el, seq![l2]);
        lemma_lines_at_split(all, p as int, head + seq![l1], el);
        lemma_lines_at_split(all, p as int, head, seq![l1]);
        let p1: nat = p + head.len();
        assert(section_readable(ss[0]));
        if sep {
            assert(head[0] == Seq::<char>::empty());
            assert(all[p as int] == Seq::<char>::empty());
            assert(trim(Seq::<char>::empty()) == Seq::<char>::empty());
            assert(parse_doc_from(all, p, meta, acc) == parse_doc_from(all, p + 1, meta, acc));
        }
        assert(seq![l1][0] == l1);
        assert(all[p1 as int] == l1);
        lemma_header_line(s.name);
        assert(s.name != "end"@);
        let q: nat = p1 + 1 + el.len();
        assert((head + seq![l1]).len() == head.len() + 1);
        assert((head + seq![l1] + el).len() == head.len() + 1 + el.len());
        assert(seq![l2][0] == l2);
        assert(all[q as int] == l2);
        lemma_end_line();
        lemma_parse_written_entries(
            all,
            p1 + 1,
            (p1 + 1) as usize,
            0,
            Block::Section,
            Seq::empty(),
            s.entries,
        );
        assert(Seq::<EntryModel>::empty() + s.entries =~= s.entries);
        assert(parse_block(all, p1 + 1, (p1 + 1) as usize, 0, Block::Section) == Ok::<
            (Seq<EntryModel>, nat),
            crate::error::ParseError,
        >((s.entries, q + 1)));
        assert(s == SectionModel { name: s.name, entries: s.entries });
        assert(parse_doc_from(all, p1, meta, acc) == parse_doc_from(all, q + 1, meta, acc.push(s)));
        assert(q + 1 == p + sl.len());
        assert forall|i: int| 0 <= i < rest.len() implies section_readable(#[trigger] rest[i]) by {
            assert(rest[i] == ss[i + 1]);
        }
        lemma_parse_written_sections(all, q + 1, meta, acc.push(s), rest, true);
        assert(acc.push(s) + rest =~= acc + ss);
    }
}

/// Reading the lines that the header lines `ms` are written as adds them,
/// in order, to the header lines read so far.
proof fn lemma_parse_written_meta(
    all: Seq<Seq<char>>,
    p: nat,
    acc: Seq<(Seq<char>, Seq<char>)>,
    ms: Seq<(Seq<char>, Seq<char>)>,
    sections: Seq<SectionModel>,
)
    requires
        forall|i: int| 0 <= i < ms.len() ==> readable_meta(#[trigger] ms[i].0, ms[i].1),
        lines_at(all, p as int, meta_lines(ms)),
    ensures
        parse_doc_from(all, p, acc, sections) == parse_doc_from(
            all,
            p + ms.len(),
            acc + ms,
            sections,
        ),
    decreases ms.len(),
{
    if ms.len() == 0 {
        assert(acc + ms =~= acc);
    } else {
        let k = ms[0].0;
        let v = ms[0].1;
        assert(readable_meta(ms[0].0, ms[0].1));
        assert(meta_lines(ms)[0] == k + "="@ + v);
        assert(all[p as int] == k + "="@ + v);
        lemma_meta_line(k, v);
        assert(ms[0] == (k, v));
        assert(parse_doc_from(all, p, acc, sections) == parse_doc_from(
            all,
            p + 1,
            acc.push((k, v)),
            sections,
        ));
        let rest = ms.drop_first();
        assert forall|i: int| 0 <= i < meta_lines(rest).len() implies all[p + 1 + i]
            == #[trigger] meta_lines(rest)[i] by {
            assert(meta_lines(ms)[i + 1] == meta_lines(rest)[i]);
        }
        assert forall|i: int| 0 <= i < rest.len() implies readable_meta(#[trigger] rest[i].0, rest[i].1) by {
            assert(rest[i] == ms[i + 1]);
        }
        lemma_parse_written_meta(all, p + 1, acc.push((k, v)), rest, sections);
        assert(acc.push((k, v)) + rest =~= acc + ms);
    }
}

proof fn lemma_has_char_add(a: Seq<char>, b: Seq<char>, c: char)
    ensures
        has_char(a + b, c) == (has_char(a, c) || has_char(b, c)),
{
    if has_char(a + b, c) {
        let i = choose|i: int| 0 <= i < (a + b).len() && (a + b)[i] == c;
        if i < a.len() {
            assert(a[i] == c);
        } else {
            assert(b[i - a.len()] == c);
        }
    }
    if has_char(a, c) {
        let i = choose|i: int| 0 <= i < a.len() && a[i] == c;
        assert((a + b)[i] == c);
    }
    if has_char(b, c) {
        let i = choose|i: int| 0 <= i < b.len() && b[i] == c;
        assert((a + b)[a.len() + i] == c);
    }
}

/// The lines of valid entries hold no newline.
proof fn lemma_entries_lines_one_line_each(es: Seq<EntryModel>, depth: nat)
    requires
        entries_readable(es),
    ensures
        forall|i: int|
            0 <= i < entries_lines(es, depth).len() ==> !has_char(
                #[trigger] entries_lines(es, depth)[i],
                '\n',
            ),
    decreases es,
{
    lemma_literals();
    lemma_indent_spaces(depth);
    assert(!has_char(indent(depth), '\n'));
    assert(!has_char(" :"@, '\n'));
    assert(!has_char("{"@, '\n'));
    assert(!has_char("}"@, '\n'));
    if es.len() > 0 {
        let e = es[0];
        let rest = es.drop_first();
        let el = entry_lines(e, depth);
        let rl = entries_lines(rest, depth);
        assert(entries_lines(es, depth) == el + rl);
        assert(entry_readable(e) && entries_readable(rest));
        lemma_has_char_add(indent(depth), e.key, '\n');
        lemma_has_char_add(indent(depth) + e.key, " :"@, '\n');
        match e.value {
            ValueModel::Text(v) => {
                lemma_has_char_add(indent(depth) + e.key + " :"@, v, '\n');
                lemma_entries_lines_one_line_each(rest, depth);
                assert forall|i: int| 0 <= i < (el + rl).len() implies !has_char(
                    #[trigger] (el + rl)[i],
                    '\n',
                ) by {
                    if i >= el.len() {
                        assert((el + rl)[i] == rl[i - el.len()]);
                    }
                }
            },
            ValueModel::Nested(m) => {
                lemma_has_char_add(indent(depth) + e.key + " :"@, "{"@, '\n');
                lemma_has_char_add(indent(depth), "}"@, '\n');
                lemma_entries_lines_one_line_each(m, depth + 1);
                lemma_entries_lines_one_line_each(rest, depth);
                let l1 = indent(depth) + e.key + " :"@ + "{"@;
                let ml = entries_lines(m, depth + 1);
                let l2 = indent(depth) + "}"@;
                assert(el == seq![l1] + ml + seq![l2]);
                assert forall|i: int| 0 <= i < (el + rl).len() implies !has_char(
                    #[trigger] (el + rl)[i],
                    '\n',
                ) by {
                    if i >= el.len() {
                        assert((el + rl)[i] == rl[i - el.len()]);
                    } else if i == 0 {
                        assert(el[0] == l1);
                    } else if i < el.len() - 1 {
                        assert(el[i] == ml[i - 1]);
                    } else {
                        assert(el[i] == l2);
                    }
                }
            },
        }
    }
}

/// The lines of readable blocks hold no newline.
proof fn lemma_sections_lines_one_line_each(ss: Seq<SectionModel>, sep: bool)
    requires
        forall|i: int| 0 <= i < ss.len() ==> section_readable(#[trigger] ss[i]),
    ensures
        forall|i: int|
            0 <= i < sections_lines(ss, sep).len() ==> !has_char(
                #[trigger] sections_lines(ss, sep)[i],
                '\n',
            ),
    decreases ss.len(),
{
    lemma_literals();
    if ss.len() > 0 {
        let s = ss[0];
        let rest = ss.drop_first();
        assert(section_readable(ss[0]));
        assert forall|i: int| 0 <= i < rest.len() implies section_readable(#[trigger] rest[i]) by {
            assert(rest[i] == ss[i + 1]);
        }
        let head: Seq<Seq<char>> = if sep {
            seq![Seq::<char>::empty()]
        } else {
            Seq::empty()
        };
        let l1 = ":"@ + s.name;
        let el = entries_lines(s.entries, 1);
        let l2 = ":end"@;
        let sl = section_lines(s, sep);
        let rl = sections_lines(rest, true);
        assert(sections_lines(ss, sep) == sl + rl);
        assert(sl == head + seq![l1] + el + seq![l2]);
        assert(!has_char(":"@, '\n'));
        assert(!has_char(l2, '\n'));
        assert(!has_char(Seq::<char>::empty(), '\n'));
        lemma_has_char_add(":"@, s.name, '\n');
        lemma_entries_lines_one_line_each(s.entries, 1);
        lemma_sections_lines_one_line_each(rest, true);
        assert forall|i: int| 0 <= i < (sl + rl).len() implies !has_char(
            #[trigger] (sl + rl)[i],
            '\n',
        ) by {
            if i >= sl.len() {
                assert((sl + rl)[i] == rl[i - sl.len()]);
            } else if i < head.len() {
                assert(sl[i] == head[i]);
            } else if i == head.len() {
                assert(sl[i] == l1);
            } else if i < head.len() + 1 + el.len() {
                assert(sl[i] == el[i - head.len() - 1]);
            } else {
                assert(sl[i] == l2);
            }
        }
    }
}

/// The first character of the text of `lines`, when the first line is not empty.
proof fn lemma_join_lines_first(lines: Seq<Seq<char>>)
    requires
        lines.len() > 0,
        lines[0].len() > 0,
    ensures
        join_lines(lines).len() > 0,
        join_lines(lines)[0] == lines[0][0],
{
    lemma_join_lines_add(seq![lines[0]], lines.drop_first());
    assert(seq![lines[0]] + lines.drop_first() =~= lines);
    lemma_join_lines_one(lines[0]);
}

/// Writing a readable document and reading the text back gives the same
/// document; writing that again gives the same text.
pub proof fn law_render_reads_back(d: DocumentModel)
    requires
        document_readable(d),
    ensures
        parse_spec(render_spec(d)) == Ok::<DocumentModel, crate::error::ParseError>(d),
        render_spec(d) == (match parse_spec(render_spec(d)) {
            Ok(d2) => render_spec(d2),
            Err(_) => render_spec(d),
        }),
{
    lemma_literals();
    let sep = d.meta.len() > 0;
    let ml = meta_lines(d.meta);
    let sl = sections_lines(d.sections, sep);
    let dl = document_lines(d);
    assert(dl == ml + sl);
    lemma_sections_lines_one_line_each(d.sections, sep);
    assert forall|i: int| 0 <= i < ml.len() implies !has_char(#[trigger] ml[i], '\n') by {
        let k = d.meta[i].0;
        let v = d.meta[i].1;
        assert(readable_meta(k, v));
        assert(!has_char("="@, '\n'));
        lemma_has_char_add(k, "="@, '\n');
        lemma_has_char_add(k + "="@, v, '\n');
    }
    assert forall|i: int| 0 <= i < dl.len() implies !has_char(#[trigger] dl[i], '\n') by {
        if i < ml.len() {
            assert(dl[i] == ml[i]);
        } else {
            assert(dl[i] == sl[i - ml.len()]);
        }
    }
    lemma_split_join(dl);
    let text = render_spec(d);
    assert(strip_bom(text) == text) by {
        if text.len() > 0 {
            if d.meta.len() > 0 {
                let k = d.meta[0].0;
                let line = k + "="@ + d.meta[0].1;
                assert(dl[0] == line);
                if k.len() > 0 {
                    assert(line[0] == k[0]);
                } else {
                    assert(line[0] == '=');
                }
                lemma_join_lines_first(dl);
            } else if d.sections.len() > 0 {
                let s = d.sections[0];
                assert(sl == section_lines(s, false) + sections_lines(d.sections.drop_first(), true));
                assert(section_lines(s, false) == seq![":"@ + s.name] + entries_lines(s.entries, 1)
                    + seq![":end"@]);
                assert(dl =~= sl);
                assert(dl[0] == ":"@ + s.name);
                lemma_join_lines_first(dl);
            } else {
                assert(dl =~= Seq::<Seq<char>>::empty());
            }
        }
    }
    let all = dl.push(Seq::<char>::empty());
    assert(lines_at(all, 0, ml + sl));
    lemma_lines_at_split(all, 0, ml, sl);
    lemma_parse_written_meta(all, 0, Seq::empty(), d.meta, Seq::empty());
    lemma_parse_written_sections(all, ml.len(), Seq::empty() + d.meta, Seq::empty(), d.sections, sep);
    assert(Seq::<(Seq<char>, Seq<char>)>::empty() + d.meta =~= d.meta);
    assert(Seq::<SectionModel>::empty() + d.sections =~= d.sections);
}

/// Entries that pass the check read back as themselves.
proof fn lemma_checked_entries_readable(es: Seq<EntryModel>)
    requires
        check_entries(es) is Ok,
    ensures
        entries_readable(es),
    decreases es,
{
    if es.len() > 0 {
        let e = es[0];
        assert(valid_key(e.key));
        match e.value {
            ValueModel::Text(v) => {
                assert(valid_text(v));
            },
            ValueModel::Nested(m) => {
                lemma_checked_entries_readable(m);
            },
        }
        lemma_checked_entries_readable(es.drop_first());
        assert(readable_key(e.key));
        assert(entry_readable(e));
    }
}

/// A block name that passes the check reads back as itself.
proof fn lemma_checked_name_readable(n: Seq<char>)
    requires
        valid_section_name(n),
    ensures
        readable_name(n),
{
    if has_char(n, '\n') {
        let i = choose|i: int| 0 <= i < n.len() && n[i] == '\n';
        assert(!is_ascii_ws(n[i]));
    }
    assert(!is_ascii_ws(n[0]));
    lemma_trim_start_keeps(n);
    assert(!is_ascii_ws(n[n.len() - 1]));
    lemma_trim_end_keeps(n);
}

/// Blocks that pass the check read back as themselves.
proof fn lemma_checked_sections_readable(ss: Seq<SectionModel>)
    requires
        check_sections(ss) is Ok,
    ensures
        forall|i: int| 0 <= i < ss.len() ==> section_readable(#[trigger] ss[i]),
    decreases ss.len(),
{
    if ss.len() > 0 {
        let rest = ss.drop_first();
        lemma_checked_name_readable(ss[0].name);
        lemma_checked_entries_readable(ss[0].entries);
        lemma_checked_sections_readable(rest);
        assert forall|i: int| 0 <= i < ss.len() implies section_readable(#[trigger] ss[i]) by {
            if i > 0 {
                assert(ss[i] == rest[i - 1]);
            }
        }
    }
}

/// Writing a document that `validate` accepts and reading the text back
/// gives the same document; writing that again gives the same text.
pub proof fn law_parse_render(d: DocumentModel)
    requires
        check_document(d) is Ok,
    ensures
        parse_spec(render_spec(d)) == Ok::<DocumentModel, crate::error::ParseError>(d),
        render_spec(d) == (match parse_spec(render_spec(d)) {
            Ok(d2) => render_spec(d2),
            Err(_) => render_spec(d),
        }),
{
    assert(meta_ok(d.meta));
    assert(check_sections(d.sections) is Ok);
    lemma_checked_sections_readable(d.sections);
    assert forall|i: int| 0 <= i < d.meta.len() implies readable_meta(
        #[trigger] d.meta[i].0,
        d.meta[i].1,
    ) by {
        assert(valid_meta_key(d.meta[i].0));
        assert(valid_meta_value(d.meta[i].1));
    }
    law_render_reads_back(d);
}

proof fn lemma_key_index_found(es: Seq<EntryModel>, key: Seq<char>, j: int)
    requires
        0 <= j < es.len(),
        es[j].key == key,
    ensures
        key_index(es, key) is Some,
    decreases j,
{
    if forall|k: int| 0 <= k < j ==> es[k].key != key {
        lemma_key_index(es, key, j);
    } else {
        let k = choose|k: int| 0 <= k < j && es[k].key == key;
        lemma_key_index_found(es, key, k);
    }
}

proof fn lemma_key_index_facts(es: Seq<EntryModel>, key: Seq<char>)
    ensures
        match key_index(es, key) {
            Some(i) => is_first_key(es, key, i),
            None => forall|j: int| 0 <= j < es.len() ==> es[j].key != key,
        },
{
    if key_index(es, key) is None {
        assert forall|j: int| 0 <= j < es.len() implies es[j].key != key by {
            if es[j].key == key {
                lemma_key_index_found(es, key, j);
            }
        }
    }
}

/// Two lists whose keys agree at every position below `n`, and neither
/// of which has `key` from `n` on, find `key` at the same place.
proof fn lemma_key_index_same(a: Seq<EntryModel>, b: Seq<EntryModel>, key: Seq<char>)
    requires
        forall|j: int| 0 <= j < a.len() && 0 <= j < b.len() ==> (a[j].key == key) == (b[j].key
            == key),
        forall|j: int| b.len() <= j < a.len() ==> a[j].key != key,
        forall|j: int| a.len() <= j < b.len() ==> b[j].key != key,
    ensures
        key_index(a, key) == key_index(b, key),
{
    lemma_key_index_facts(a, key);
    lemma_key_index_facts(b, key);
    match key_index(a, key) {
        Some(i) => {
            assert(is_first_key(b, key, i));
            lemma_key_index(b, key, i);
        },
        None => {
            match key_index(b, key) {
                Some(i) => {
                    assert(a[i].key == key);
                },
                None => {},
            }
        },
    }
}

/// Setting `key` and then looking it up gives the value set; every other
/// key reads as it did before.
pub proof fn law_lookup_after_set(
    es: Seq<EntryModel>,
    key: Seq<char>,
    value: ValueModel,
    other: Seq<char>,
)
    ensures
        lookup(set_entries(es, key, value), key) == Some(value),
        other != key ==> lookup(set_entries(es, key, value), other) == lookup(es, other),
{
    lemma_key_index_facts(es, key);
    let es2 = set_entries(es, key, value);
    match key_index(es, key) {
        Some(i) => {
            assert(is_first_key(es2, key, i));
            lemma_key_index(es2, key, i);
        },
        None => {
            assert(is_first_key(es2, key, es.len() as int));
            lemma_key_index(es2, key, es.len() as int);
        },
    }
    if other != key {
        lemma_key_index_same(es2, es, other);
        lemma_key_index_facts(es, other);
    }
}

/// Removing `key` takes out what a lookup of it gave; every other key reads
/// as it did before.
pub proof fn law_lookup_after_remove(es: Seq<EntryModel>, key: Seq<char>, other: Seq<char>)
    ensures
        other != key ==> lookup(remove_entries(es, key), other) == lookup(es, other),
        remove_entries(es, key).len() == if lookup(es, key) is Some {
            es.len() - 1
        } else {
            es.len() as int
        },
{
    lemma_key_index_facts(es, key);
    lemma_key_index_facts(es, other);
    if other != key {
        match key_index(es, key) {
            Some(i) => {
                let es2 = es.remove(i);
                lemma_key_index_facts(es2, other);
                match key_index(es, other) {
                    Some(j) => {
                        assert(j != i);
                        if j < i {
                            assert(is_first_key(es2, other, j));
                            lemma_key_index(es2, other, j);
                            assert(es2[j] == es[j]);
                        } else {
                            assert(is_first_key(es2, other, j - 1)) by {
                                assert forall|k: int| 0 <= k < j - 1 implies es2[k].key != other by {
                                    if k < i {
                                        assert(es2[k] == es[k]);
                                    } else {
                                        assert(es2[k] == es[k + 1]);
                                    }
                                }
                            }
                            lemma_key_index(es2, other, j - 1);
                        }
                    },
                    None => {
                        match key_index(es2, other) {
                            Some(j) => {
                                if j < i {
                                    assert(es[j] == es2[j]);
                                } else {
                                    assert(es[j + 1] == es2[j]);
                                }
                            },
                            None => {},
                        }
                    },
                }
            },
            None => {},
        }
    }
}

/// Appending an entry leaves every lookup that already found something
/// unchanged: lookups give the first match.
pub proof fn law_lookup_after_push(es: Seq<EntryModel>, e: EntryModel, key: Seq<char>)
    ensures
        lookup(es.push(e), key) == if lookup(es, key) is Some {
            lookup(es, key)
        } else if e.key == key {
            Some(e.value)
        } else {
            None
        },
{
    lemma_key_index_facts(es, key);
    let es2 = es.push(e);
    match key_index(es, key) {
        Some(i) => {
            assert(is_first_key(es2, key, i));
            lemma_key_index(es2, key, i);
        },
        None => {
            if e.key == key {
                assert(is_first_key(es2, key, es.len() as int));
                lemma_key_index(es2, key, es.len() as int);
            } else {
                lemma_key_index_facts(es2, key);
                match key_index(es2, key) {
                    Some(j) => {
                        assert(j < es.len());
                    },
                    None => {},
                }
            }
        },
    }
}

/// The number of bytes of `lines`, each followed by a newline.
pub open spec fn lines_bytes(lines: Seq<Seq<char>>) -> nat
    decreases lines.len(),
{
    if lines.len() == 0 {
        0
    } else {
        lines_bytes(lines.drop_last()) + byte_len(lines.last()) + 1
    }
}

/// An entry that passes the check on its own: a valid key, and a valid
/// text or a map whose entries pass.
pub open spec fn entry_ok(e: EntryModel) -> bool {
    &&& valid_key(e.key)
    &&& match e.value {
        ValueModel::Text(v) => valid_text(v),
        ValueModel::Nested(m) => check_entries(m) is Ok,
    }
}

/// A block that passes the check on its own.
pub open spec fn section_ok(s: SectionModel) -> bool {
    &&& valid_section_name(s.name)
    &&& check_entries(s.entries) is Ok
    &&& entries_nesting(s.entries) <= MAX_DEPTH
}

/// Entries pass the check exactly when each of them passes.
pub proof fn lemma_check_entries_all(es: Seq<EntryModel>)
    ensures
        (check_entries(es) is Ok) <==> forall|i: int| 0 <= i < es.len() ==> entry_ok(#[trigger] es[i]),
    decreases es.len(),
{
    if es.len() > 0 {
        let rest = es.drop_first();
        lemma_check_entries_all(rest);
        assert((check_entries(es) is Ok) == (entry_ok(es[0]) && check_entries(rest) is Ok));
        assert forall|i: int| 0 <= i < rest.len() implies #[trigger] rest[i] == es[i + 1] by {}
        if check_entries(es) is Ok {
            assert forall|i: int| 0 <= i < es.len() implies entry_ok(#[trigger] es[i]) by {
                if i > 0 {
                    assert(rest[i - 1] == es[i]);
                }
            }
        }
    }
}

/// Blocks pass the check exactly when each of them passes.
pub proof fn lemma_check_sections_all(ss: Seq<SectionModel>)
    ensures
        (check_sections(ss) is Ok) <==> forall|i: int|
            0 <= i < ss.len() ==> section_ok(#[trigger] ss[i]),
    decreases ss.len(),
{
    if ss.len() > 0 {
        let rest = ss.drop_first();
        lemma_check_sections_all(rest);
        assert((check_sections(ss) is Ok) == (section_ok(ss[0]) && check_sections(rest) is Ok));
        assert forall|i: int| 0 <= i < rest.len() implies #[trigger] rest[i] == ss[i + 1] by {}
        if check_sections(ss) is Ok {
            assert forall|i: int| 0 <= i < ss.len() implies section_ok(#[trigger] ss[i]) by {
                if i > 0 {
                    assert(rest[i - 1] == ss[i]);
                }
            }
        }
    }
}

/// Setting an entry that passes the check keeps a list of entries that
/// passes, and nesting within the limit.
proof fn lemma_set_entries_ok(es: Seq<EntryModel>, key: Seq<char>, value: ValueModel)
    requires
        check_entries(es) is Ok,
        entries_nesting(es) <= MAX_DEPTH,
        entry_ok(EntryModel { key, value }),
        entry_nesting(EntryModel { key, value }) <= MAX_DEPTH,
    ensures
        check_entries(set_entries(es, key, value)) is Ok,
        entries_nesting(set_entries(es, key, value)) <= MAX_DEPTH,
{
    let e = EntryModel { key, value };
    let es2 = set_entries(es, key, value);
    lemma_check_entries_all(es);
    lemma_nesting_bound(es, MAX_DEPTH as nat);
    match key_index(es, key) {
        Some(j) => {
            assert(is_first_key(es, key, j));
            assert(es2 == es.update(j, e));
        },
        None => {
            assert(es2 == es.push(e));
        },
    }
    assert forall|i: int| 0 <= i < es2.len() implies entry_ok(#[trigger] es2[i]) && entry_nesting(
        es2[i],
    ) <= MAX_DEPTH by {
        if i < es.len() && es2[i] != e {
            assert(es2[i] == es[i]);
        }
    }
    lemma_check_entries_all(es2);
    lemma_nesting_bound(es2, MAX_DEPTH as nat);
}

/// The document after `section_or_insert(name)` and then `set(key, value)`
/// on the block it hands out: the first block called `name` (appended empty
/// when there is none) has `key` set to `value`.
pub open spec fn set_in_document(
    d: DocumentModel,
    name: Seq<char>,
    key: Seq<char>,
    value: ValueModel,
) -> DocumentModel {
    match section_index(d.sections, name) {
        Some(i) => DocumentModel {
            meta: d.meta,
            sections: d.sections.update(
                i,
                SectionModel {
                    name: d.sections[i].name,
                    entries: set_entries(d.sections[i].entries, key, value),
                },
            ),
        },
        None => DocumentModel {
            meta: d.meta,
            sections: d.sections.push(
                SectionModel { name, entries: set_entries(Seq::empty(), key, value) },
            ),
        },
    }
}

/// Editing a document that `validate` accepts, by setting a key that passes
/// the check to a value that passes it (and whose maps nest no deeper than
/// the reader allows) in a block with a valid name, gives a document that
/// `validate` accepts.
pub proof fn law_edit_keeps_valid(
    d: DocumentModel,
    name: Seq<char>,
    key: Seq<char>,
    value: ValueModel,
)
    requires
        check_document(d) is Ok,
        valid_section_name(name),
        check_entries(seq![EntryModel { key, value }]) is Ok,
        entry_nesting(EntryModel { key, value }) <= MAX_DEPTH,
    ensures
        check_document(set_in_document(d, name, key, value)) is Ok,
{
    let e = EntryModel { key, value };
    lemma_check_entries_all(seq![e]);
    assert(seq![e][0] == e);
    assert(entry_ok(e));
    assert(check_sections(d.sections) is Ok);
    lemma_check_sections_all(d.sections);
    let d2 = set_in_document(d, name, key, value);
    match section_index(d.sections, name) {
        Some(i) => {
            assert(is_first_section(d.sections, name, i));
            let s = d.sections[i];
            assert(section_ok(s));
            lemma_set_entries_ok(s.entries, key, value);
            assert forall|j: int| 0 <= j < d2.sections.len() implies section_ok(
                #[trigger] d2.sections[j],
            ) by {
                if j != i {
                    assert(d2.sections[j] == d.sections[j]);
                }
            }
        },
        None => {
            assert(key_index(Seq::<EntryModel>::empty(), key) is None);
            assert(set_entries(Seq::empty(), key, value) == seq![e]);
            lemma_nesting_bound(seq![e], MAX_DEPTH as nat);
            assert forall|j: int| 0 <= j < d2.sections.len() implies section_ok(
                #[trigger] d2.sections[j],
            ) by {
                if j < d.sections.len() {
                    assert(d2.sections[j] == d.sections[j]);
                }
            }
        },
    }
    lemma_check_sections_all(d2.sections);
    assert(d2.meta == d.meta);
}

proof fn lemma_ascii_byte_len(s: Seq<char>)
    requires
        vstd::utf8::is_ascii_chars(s),
    ensures
        byte_len(s) == s.len(),
{
    vstd::utf8::is_ascii_chars_encode_utf8(s);
}

proof fn lemma_literal_sizes(depth: nat)
    ensures
        byte_len(" :"@) == 2,
        byte_len("{"@) == 1,
        byte_len("}"@) == 1,
        byte_len(":end"@) == 4,
        byte_len("="@) == 1,
        byte_len(":"@) == 1,
        byte_len(seq!['\n']) == 1,
        byte_len(Seq::<char>::empty()) == 0,
        byte_len(indent(depth)) == 4 * depth,
{
    lemma_literals();
    lemma_ascii_byte_len(" :"@);
    lemma_ascii_byte_len("{"@);
    lemma_ascii_byte_len("}"@);
    lemma_ascii_byte_len(":end"@);
    lemma_ascii_byte_len("="@);
    lemma_ascii_byte_len(":"@);
    lemma_ascii_byte_len(seq!['\n']);
    lemma_ascii_byte_len(Seq::<char>::empty());
    lemma_indent_spaces(depth);
    lemma_indent_len(depth);
    lemma_ascii_byte_len(indent(depth));
}

proof fn lemma_indent_len(depth: nat)
    ensures
        indent(depth).len() == 4 * depth,
    decreases depth,
{
    lemma_literals();
    if depth > 0 {
        lemma_indent_len((depth - 1) as nat);
    }
}

proof fn lemma_join_lines_bytes(lines: Seq<Seq<char>>)
    ensures
        byte_len(join_lines(lines)) == lines_bytes(lines),
    decreases lines.len(),
{
    lemma_literal_sizes(0);
    if lines.len() > 0 {
        lemma_join_lines_bytes(lines.drop_last());
        lemma_byte_len_add(join_lines(lines.drop_last()), lines.last());
        lemma_byte_len_add(join_lines(lines.drop_last()) + lines.last(), seq!['\n']);
    }
}

proof fn lemma_lines_bytes_add(a: Seq<Seq<char>>, b: Seq<Seq<char>>)
    ensures
        lines_bytes(a + b) == lines_bytes(a) + lines_bytes(b),
    decreases b.len(),
{
    if b.len() == 0 {
        assert(a + b =~= a);
    } else {
        assert((a + b).drop_last() =~= a + b.drop_last());
        assert((a + b).last() == b.last());
        lemma_lines_bytes_add(a, b.drop_last());
    }
}

proof fn lemma_lines_bytes_one(l: Seq<char>)
    ensures
        lines_bytes(seq![l]) == byte_len(l) + 1,
{
    assert(seq![l].drop_last() =~= Seq::<Seq<char>>::empty());
    assert(lines_bytes(Seq::<Seq<char>>::empty()) == 0);
}

proof fn lemma_entries_bytes(es: Seq<EntryModel>, depth: nat)
    ensures
        lines_bytes(entries_lines(es, depth)) == entries_size(es, depth),
    decreases es,
{
    lemma_literal_sizes(depth);
    if es.len() == 0 {
        assert(entries_lines(es, depth) == Seq::<Seq<char>>::empty());
        assert(lines_bytes(Seq::<Seq<char>>::empty()) == 0);
    } else {
        let e = es[0];
        let rest = es.drop_first();
        let el = entry_lines(e, depth);
        assert(entries_lines(es, depth) == el + entries_lines(rest, depth));
        assert(entries_size(es, depth) == entry_size(e, depth) + entries_size(rest, depth));
        lemma_lines_bytes_add(el, entries_lines(rest, depth));
        lemma_entries_bytes(rest, depth);
        lemma_byte_len_add(indent(depth), e.key);
        lemma_byte_len_add(indent(depth) + e.key, " :"@);
        match e.value {
            ValueModel::Text(v) => {
                lemma_byte_len_add(indent(depth) + e.key + " :"@, v);
                lemma_lines_bytes_one(indent(depth) + e.key + " :"@ + v);
            },
            ValueModel::Nested(m) => {
                let l1 = indent(depth) + e.key + " :"@ + "{"@;
                let ml = entries_lines(m, depth + 1);
                let l2 = indent(depth) + "}"@;
                assert(el == seq![l1] + ml + seq![l2]);
                lemma_byte_len_add(indent(depth) + e.key + " :"@, "{"@);
                lemma_byte_len_add(indent(depth), "}"@);
                lemma_lines_bytes_one(l1);
                lemma_lines_bytes_one(l2);
                lemma_lines_bytes_add(seq![l1] + ml, seq![l2]);
                lemma_lines_bytes_add(seq![l1], ml);
                lemma_entries_bytes(m, depth + 1);
            },
        }
    }
}

proof fn lemma_meta_bytes(ms: Seq<(Seq<char>, Seq<char>)>)
    ensures
        lines_bytes(meta_lines(ms)) == meta_size(ms),
    decreases ms.len(),
{
    lemma_literal_sizes(0);
    if ms.len() > 0 {
        let init = ms.drop_last();
        let k = ms.last().0;
        let v = ms.last().1;
        assert(meta_lines(ms) =~= meta_lines(init).push(k + "="@ + v));
        assert(meta_lines(ms).drop_last() =~= meta_lines(init));
        lemma_meta_bytes(init);
        lemma_byte_len_add(k, "="@);
        lemma_byte_len_add(k + "="@, v);
    }
}

proof fn lemma_sections_size_add(a: Seq<SectionModel>, b: Seq<SectionModel>)
    ensures
        sections_size(a + b) == sections_size(a) + sections_size(b),
    decreases b.len(),
{
    if b.len() == 0 {
        assert(a + b =~= a);
    } else {
        assert((a + b).drop_last() =~= a + b.drop_last());
        assert((a + b).last() == b.last());
        lemma_sections_size_add(a, b.drop_last());
    }
}

proof fn lemma_sections_bytes(ss: Seq<SectionModel>, sep: bool)
    ensures
        lines_bytes(sections_lines(ss, sep)) + (if !sep && ss.len() > 0 {
            1nat
        } else {
            0nat
        }) == sections_size(ss),
    decreases ss.len(),
{
    lemma_literal_sizes(1);
    if ss.len() == 0 {
        assert(sections_lines(ss, sep) == Seq::<Seq<char>>::empty());
    } else {
        let s = ss[0];
        let rest = ss.drop_first();
        let head: Seq<Seq<char>> = if sep {
            seq![Seq::<char>::empty()]
        } else {
            Seq::empty()
        };
        let l1 = ":"@ + s.name;
        let el = entries_lines(s.entries, 1);
        let l2 = ":end"@;
        let sl = section_lines(s, sep);
        assert(sections_lines(ss, sep) == sl + sections_lines(rest, true));
        assert(sl == head + seq![l1] + el + seq![l2]);
        lemma_lines_bytes_add(sl, sections_lines(rest, true));
        lemma_lines_bytes_add(head + seq![l1] + el, seq![l2]);
        lemma_lines_bytes_add(head + seq![l1], el);
        lemma_lines_bytes_add(head, seq![l1]);
        lemma_lines_bytes_one(l1);
        lemma_lines_bytes_one(l2);
        lemma_byte_len_add(":"@, s.name);
        if sep {
            lemma_lines_bytes_one(Seq::<char>::empty());
        } else {
            assert(lines_bytes(head) == 0);
        }
        lemma_entries_bytes(s.entries, 1);
        lemma_sections_bytes(rest, true);
        assert(ss =~= seq![s] + rest);
        lemma_sections_size_add(seq![s], rest);
        assert(seq![s].drop_last() =~= Seq::<SectionModel>::empty());
        assert(sections_size(Seq::<SectionModel>::empty()) == 0);
        assert(sections_size(seq![s]) == byte_len(s.name) + 2 + 5 + 1 + entries_size(
            s.entries,
            1,
        ));
    }
}

/// The size of a list of entries at level `depth` is the exact number of
/// bytes of the text they are written as, for every list, however large.
pub proof fn law_entries_size(es: Seq<EntryModel>, depth: nat)
    ensures
        entries_size(es, depth) == byte_len(join_lines(entries_lines(es, depth))),
{
    lemma_entries_bytes(es, depth);
    lemma_join_lines_bytes(entries_lines(es, depth));
}

/// The size estimate is the exact number of bytes of the written text, plus
/// one when there are blocks but no header lines; so it is never too small.
/// This holds of every document, whatever the size; `estimated_len` needs
/// only that the number fits in a `usize`.
pub proof fn law_estimated_size(d: DocumentModel)
    ensures
        estimated_size(d) == byte_len(render_spec(d)) + if d.meta.len() == 0 && d.sections.len()
            > 0 {
            1nat
        } else {
            0nat
        },
{
    let sep = d.meta.len() > 0;
    lemma_join_lines_bytes(document_lines(d));
    lemma_lines_bytes_add(meta_lines(d.meta), sections_lines(d.sections, sep));
    lemma_meta_bytes(d.meta);
    lemma_sections_bytes(d.sections, sep);
}

proof fn lemma_trim_end_keeps_first(s: Seq<char>)
    requires
        s.len() > 0,
        !is_ascii_ws(s[0]),
    ensures
        trim_end(s).len() > 0,
        trim_end(s)[0] == s[0],
    decreases s.len(),
{
    if s.len() > 1 && is_ascii_ws(s.last()) {
        assert(s.drop_last()[0] == s[0]);
        lemma_trim_end_keeps_first(s.drop_last());
    }
}

/// A non-empty trimmed line starts with a non-whitespace character.
proof fn lemma_trim_first(line: Seq<char>)
    ensures
        trim(line).len() > 0 ==> !is_ascii_ws(trim(line)[0]),
{
    lemma_trim_start_shape(line);
    let ts = trim_start(line);
    if ts.len() > 0 {
        lemma_trim_end_keeps_first(ts);
    } else {
        assert(trim_end(ts) == ts);
    }
}

/// An entry line that does not start with `:` never has an empty key.
proof fn lemma_split_entry_key(t: Seq<char>, pos: int)
    requires
        t.len() > 0,
        t[0] != ':',
        !is_ascii_ws(t[0]),
    ensures
        split_entry(t, pos) matches Err(e) ==> e.kind == crate::error::ParseErrorKind::MissingColon,
{
    if first_index(t, ':') is Some {
        let i = choose|i: int| is_first_index(t, ':', i);
        assert(is_first_index(t, ':', i));
        assert(i >= 1);
        assert(t.take(i)[0] == t[0]);
        lemma_trim_end_keeps_first(t.take(i));
    }
}

proof fn lemma_block_no_empty_key(
    lines: Seq<Seq<char>>,
    pos: nat,
    open_line: usize,
    depth: nat,
    block: Block,
)
    ensures
        parse_block(lines, pos, open_line, depth, block) matches Err(e) ==> e.kind
            != crate::error::ParseErrorKind::EmptyKey,
    decreases lines.len() - pos, 1int,
{
    if depth <= MAX_DEPTH {
        lemma_entries_no_empty_key(lines, pos, open_line, depth, block, Seq::empty());
    }
}

proof fn lemma_entries_no_empty_key(
    lines: Seq<Seq<char>>,
    pos: nat,
    open_line: usize,
    depth: nat,
    block: Block,
    acc: Seq<EntryModel>,
)
    ensures
        parse_entries_from(lines, pos, open_line, depth, block, acc) matches Err(e) ==> e.kind
            != crate::error::ParseErrorKind::EmptyKey,
    decreases lines.len() - pos, 0int,
{
    if pos < lines.len() {
        let t = trim(lines[pos as int]);
        lemma_trim_first(lines[pos as int]);
        if is_skipped(t) {
            lemma_entries_no_empty_key(lines, pos + 1, open_line, depth, block, acc);
        } else if t[0] == ':' {
        } else if t == "}"@ {
        } else {
            lemma_split_entry_key(t, pos as int);
            match split_entry(t, pos as int) {
                Err(e) => {},
                Ok((k, v)) => if v == "{"@ {
                    crate::parse::lemma_block_advances(
                        lines,
                        pos + 1,
                        (pos + 1) as usize,
                        depth + 1,
                        Block::Nested,
                    );
                    lemma_block_no_empty_key(lines, pos + 1, (pos + 1) as usize, depth + 1, Block::Nested);
                    match parse_block(lines, pos + 1, (pos + 1) as usize, depth + 1, Block::Nested) {
                        Err(e) => {},
                        Ok((m, np)) => {
                            lemma_entries_no_empty_key(
                                lines,
                                np,
                                open_line,
                                depth,
                                block,
                                acc.push(EntryModel { key: k, value: ValueModel::Nested(m) }),
                            );
                        },
                    }
                } else {
                    lemma_entries_no_empty_key(
                        lines,
                        pos + 1,
                        open_line,
                        depth,
                        block,
                        acc.push(EntryModel { key: k, value: ValueModel::Text(v) }),
                    );
                },
            }
        }
    }
}

proof fn lemma_doc_no_empty_key(
    lines: Seq<Seq<char>>,
    pos: nat,
    meta: Seq<(Seq<char>, Seq<char>)>,
    sections: Seq<SectionModel>,
)
    ensures
        parse_doc_from(lines, pos, meta, sections) matches Err(e) ==> e.kind
            != crate::error::ParseErrorKind::EmptyKey,
    decreases lines.len() - pos,
{
    if pos < lines.len() {
        let t = trim(lines[pos as int]);
        if is_skipped(t) {
            lemma_doc_no_empty_key(lines, pos + 1, meta, sections);
        } else if t[0] == ':' {
            let name = trim_start(t.drop_first());
            if !(name.len() == 0 || name == "end"@) {
                crate::parse::lemma_block_advances(lines, pos + 1, (pos + 1) as usize, 0, Block::Section);
                lemma_block_no_empty_key(lines, pos + 1, (pos + 1) as usize, 0, Block::Section);
                match parse_block(lines, pos + 1, (pos + 1) as usize, 0, Block::Section) {
                    Err(e) => {},
                    Ok((es, np)) => {
                        lemma_doc_no_empty_key(
                            lines,
                            np,
                            meta,
                            sections.push(SectionModel { name, entries: es }),
                        );
                    },
                }
            }
        } else {
            match first_index(t, '=') {
                Some(i) => {
                    lemma_doc_no_empty_key(
                        lines,
                        pos + 1,
                        meta.push((trim_end(t.take(i)), trim_start(t.skip(i + 1)))),
                        sections,
                    );
                },
                None => {},
            }
        }
    }
}

/// Reading never reports an empty key: once a line is trimmed, whatever
/// stands before its first `:` holds a character that is not whitespace,
/// and a line that starts with `:` ends the block instead.
pub proof fn law_no_empty_key(input: Seq<char>)
    ensures
        parse_spec(input) matches Err(e) ==> e.kind != crate::error::ParseErrorKind::EmptyKey,
{
    lemma_doc_no_empty_key(split_lines(strip_bom(input)), 0, Seq::empty(), Seq::empty());
}

/// Two lists of lines that are the same once each line is trimmed.
pub open spec fn same_trimmed(a: Seq<Seq<char>>, b: Seq<Seq<char>>) -> bool {
    &&& a.len() == b.len()
    &&& forall|i: int| 0 <= i < a.len() ==> trim(#[trigger] a[i]) == trim(b[i])
}

proof fn lemma_block_trimmed(
    a: Seq<Seq<char>>,
    b: Seq<Seq<char>>,
    pos: nat,
    open_line: usize,
    depth: nat,
    block: Block,
)
    requires
        same_trimmed(a, b),
    ensures
        parse_block(a, pos, open_line, depth, block) == parse_block(b, pos, open_line, depth, block),
    decreases a.len() - pos, 1int,
{
    if depth <= MAX_DEPTH {
        lemma_entries_trimmed(a, b, pos, open_line, depth, block, Seq::empty());
    }
}

proof fn lemma_entries_trimmed(
    a: Seq<Seq<char>>,
    b: Seq<Seq<char>>,
    pos: nat,
    open_line: usize,
    depth: nat,
    block: Block,
    acc: Seq<EntryModel>,
)
    requires
        same_trimmed(a, b),
    ensures
        parse_entries_from(a, pos, open_line, depth, block, acc) == parse_entries_from(
            b,
            pos,
            open_line,
            depth,
            block,
            acc,
        ),
    decreases a.len() - pos, 0int,
{
    if pos < a.len() {
        let t = trim(a[pos as int]);
        assert(t == trim(b[pos as int]));
        if is_skipped(t) {
            lemma_entries_trimmed(a, b, pos + 1, open_line, depth, block, acc);
        } else if t[0] == ':' {
        } else if t == "}"@ {
        } else {
            match split_entry(t, pos as int) {
                Err(e) => {},
                Ok((k, v)) => if v == "{"@ {
                    crate::parse::lemma_block_advances(
                        a,
                        pos + 1,
                        (pos + 1) as usize,
                        depth + 1,
                        Block::Nested,
                    );
                    lemma_block_trimmed(a, b, pos + 1, (pos + 1) as usize, depth + 1, Block::Nested);
                    match parse_block(a, pos + 1, (pos + 1) as usize, depth + 1, Block::Nested) {
                        Err(e) => {},
                        Ok((m, np)) => {
                            lemma_entries_trimmed(
                                a,
                                b,
                                np,
                                open_line,
                                depth,
                                block,
                                acc.push(EntryModel { key: k, value: ValueModel::Nested(m) }),
                            );
                        },
                    }
                } else {
                    lemma_entries_trimmed(
                        a,
                        b,
                        pos + 1,
                        open_line,
                        depth,
                        block,
                        acc.push(EntryModel { key: k, value: ValueModel::Text(v) }),
                    );
                },
            }
        }
    }
}

proof fn lemma_doc_trimmed(
    a: Seq<Seq<char>>,
    b: Seq<Seq<char>>,
    pos: nat,
    meta: Seq<(Seq<char>, Seq<char>)>,
    sections: Seq<SectionModel>,
)
    requires
        same_trimmed(a, b),
    ensures
        parse_doc_from(a, pos, meta, sections) == parse_doc_from(b, pos, meta, sections),
    decreases a.len() - pos,
{
    if pos < a.len() {
        let t = trim(a[pos as int]);
        assert(t == trim(b[pos as int]));
        if is_skipped(t) {
            lemma_doc_trimmed(a, b, pos + 1, meta, sections);
        } else if t[0] == ':' {
            let name = trim_start(t.drop_first());
            if !(name.len() == 0 || name == "end"@) {
                crate::parse::lemma_block_advances(a, pos + 1, (pos + 1) as usize, 0, Block::Section);
                lemma_block_trimmed(a, b, pos + 1, (pos + 1) as usize, 0, Block::Section);
                match parse_block(a, pos + 1, (pos + 1) as usize, 0, Block::Section) {
                    Err(e) => {},
                    Ok((es, np)) => {
                        lemma_doc_trimmed(
                            a,
                            b,
                            np,
                            meta,
                            sections.push(SectionModel { name, entries: es }),
                        );
                    },
                }
            }
        } else {
            match first_index(t, '=') {
                Some(i) => {
                    lemma_doc_trimmed(
                        a,
                        b,
                        pos + 1,
                        meta.push((trim_end(t.take(i)), trim_start(t.skip(i + 1)))),
                        sections,
                    );
                },
                None => {},
            }
        }
    }
}

/// Indentation, whitespace at the end of a line, and the `\r` of CRLF line
/// ends do not matter: two inputs whose lines are the same once trimmed
/// read the same, errors and their line numbers included.
pub proof fn law_whitespace_ignored(s1: Seq<char>, s2: Seq<char>)
    requires
        same_trimmed(split_lines(strip_bom(s1)), split_lines(strip_bom(s2))),
    ensures
        parse_spec(s1) == parse_spec(s2),
{
    lemma_doc_trimmed(
        split_lines(strip_bom(s1)),
        split_lines(strip_bom(s2)),
        0,
        Seq::empty(),
        Seq::empty(),
    );
}

/// `l2` is `l1` with one blank or comment line inserted at position `j`.
pub open spec fn with_skipped_line(l1: Seq<Seq<char>>, l2: Seq<Seq<char>>, j: int) -> bool {
    &&& 0 <= j <= l1.len()
    &&& l2.len() == l1.len() + 1
    &&& is_skipped(trim(l2[j]))
    &&& forall|i: int| 0 <= i < j ==> #[trigger] l2[i] == l1[i]
    &&& forall|i: int| j <= i < l1.len() ==> #[trigger] l2[i + 1] == l1[i]
}

/// Two outcomes of reading entries agree up to where they stop: both fail,
/// or both give the same entries and stop at `np` and `np + shift(np)`.
pub open spec fn same_entries(
    r1: Result<(Seq<EntryModel>, nat), crate::error::ParseError>,
    r2: Result<(Seq<EntryModel>, nat), crate::error::ParseError>,
    j: int,
    shifted: bool,
) -> bool {
    &&& (r1 is Ok <==> r2 is Ok)
    &&& r1 is Ok ==> {
        &&& r2->Ok_0.0 == r1->Ok_0.0
        &&& r2->Ok_0.1 == if shifted || r1->Ok_0.1 > j {
            r1->Ok_0.1 + 1
        } else {
            r1->Ok_0.1 + 0
        }
    }
}

/// Two outcomes of reading a document agree: both fail, or both give the
/// same document.
pub open spec fn same_document(
    r1: Result<DocumentModel, crate::error::ParseError>,
    r2: Result<DocumentModel, crate::error::ParseError>,
) -> bool {
    &&& (r1 is Ok <==> r2 is Ok)
    &&& r1 is Ok ==> r2 == r1
}

proof fn lemma_block_after(
    l1: Seq<Seq<char>>,
    l2: Seq<Seq<char>>,
    j: int,
    p: nat,
    o1: usize,
    o2: usize,
    depth: nat,
    block: Block,
)
    requires
        with_skipped_line(l1, l2, j),
        p >= j,
    ensures
        same_entries(
            parse_block(l1, p, o1, depth, block),
            parse_block(l2, p + 1, o2, depth, block),
            j,
            true,
        ),
    decreases l1.len() - p, 1int,
{
    if depth <= MAX_DEPTH {
        lemma_entries_after(l1, l2, j, p, o1, o2, depth, block, Seq::empty());
    }
}

proof fn lemma_entries_after(
    l1: Seq<Seq<char>>,
    l2: Seq<Seq<char>>,
    j: int,
    p: nat,
    o1: usize,
    o2: usize,
    depth: nat,
    block: Block,
    acc: Seq<EntryModel>,
)
    requires
        with_skipped_line(l1, l2, j),
        p >= j,
    ensures
        same_entries(
            parse_entries_from(l1, p, o1, depth, block, acc),
            parse_entries_from(l2, p + 1, o2, depth, block, acc),
            j,
            true,
        ),
    decreases l1.len() - p, 0int,
{
    if p < l1.len() {
        assert(l2[p + 1int] == l1[p as int]);
        let t = trim(l1[p as int]);
        if is_skipped(t) {
            lemma_entries_after(l1, l2, j, p + 1, o1, o2, depth, block, acc);
        } else if t[0] == ':' {
        } else if t == "}"@ {
        } else {
            match split_entry(t, p as int) {
                Err(e) => {},
                Ok((k, v)) => {
                    lemma_split_entry_pos(t, p as int, p + 1int);
                    if v == "{"@ {
                        crate::parse::lemma_block_advances(
                            l1,
                            p + 1,
                            (p + 1) as usize,
                            depth + 1,
                            Block::Nested,
                        );
                        lemma_block_after(
                            l1,
                            l2,
                            j,
                            p + 1,
                            (p + 1) as usize,
                            (p + 2) as usize,
                            depth + 1,
                            Block::Nested,
                        );
                        match parse_block(l1, p + 1, (p + 1) as usize, depth + 1, Block::Nested) {
                            Err(e) => {},
                            Ok((m, np)) => {
                                lemma_entries_after(
                                    l1,
                                    l2,
                                    j,
                                    np,
                                    o1,
                                    o2,
                                    depth,
                                    block,
                                    acc.push(EntryModel { key: k, value: ValueModel::Nested(m) }),
                                );
                            },
                        }
                    } else {
                        lemma_entries_after(
                            l1,
                            l2,
                            j,
                            p + 1,
                            o1,
                            o2,
                            depth,
                            block,
                            acc.push(EntryModel { key: k, value: ValueModel::Text(v) }),
                        );
                    }
                },
            }
        }
    }
}

/// `split_entry` fails or succeeds alike on every line position, with the
/// same key and value.
proof fn lemma_split_entry_pos(t: Seq<char>, p1: int, p2: int)
    ensures
        split_entry(t, p1) is Ok <==> split_entry(t, p2) is Ok,
        split_entry(t, p1) is Ok ==> split_entry(t, p1) == split_entry(t, p2),
{
}

proof fn lemma_block_before(
    l1: Seq<Seq<char>>,
    l2: Seq<Seq<char>>,
    j: int,
    p: nat,
    o: usize,
    depth: nat,
    block: Block,
)
    requires
        with_skipped_line(l1, l2, j),
        p <= j,
    ensures
        same_entries(parse_block(l1, p, o, depth, block), parse_block(l2, p, o, depth, block), j, false),
    decreases l1.len() - p, 1int,
{
    if depth <= MAX_DEPTH {
        lemma_entries_before(l1, l2, j, p, o, depth, block, Seq::empty());
    }
}

proof fn lemma_entries_before(
    l1: Seq<Seq<char>>,
    l2: Seq<Seq<char>>,
    j: int,
    p: nat,
    o: usize,
    depth: nat,
    block: Block,
    acc: Seq<EntryModel>,
)
    requires
        with_skipped_line(l1, l2, j),
        p <= j,
    ensures
        same_entries(
            parse_entries_from(l1, p, o, depth, block, acc),
            parse_entries_from(l2, p, o, depth, block, acc),
            j,
            false,
        ),
    decreases l1.len() - p, 0int,
{
    if p == j {
        assert(is_skipped(trim(l2[p as int])));
        assert(parse_entries_from(l2, p, o, depth, block, acc) == parse_entries_from(
            l2,
            p + 1,
            o,
            depth,
            block,
            acc,
        ));
        lemma_entries_after(l1, l2, j, p, o, o, depth, block, acc);
        lemma_entries_advance(l1, p, o, depth, block, acc);
    } else {
        assert(l2[p as int] == l1[p as int]);
        let t = trim(l1[p as int]);
        if is_skipped(t) {
            lemma_entries_before(l1, l2, j, p + 1, o, depth, block, acc);
        } else if t[0] == ':' {
        } else if t == "}"@ {
        } else {
            match split_entry(t, p as int) {
                Err(e) => {},
                Ok((k, v)) => if v == "{"@ {
                    crate::parse::lemma_block_advances(
                        l1,
                        p + 1,
                        (p + 1) as usize,
                        depth + 1,
                        Block::Nested,
                    );
                    crate::parse::lemma_block_advances(
                        l2,
                        p + 1,
                        (p + 1) as usize,
                        depth + 1,
                        Block::Nested,
                    );
                    lemma_block_before(l1, l2, j, p + 1, (p + 1) as usize, depth + 1, Block::Nested);
                    match parse_block(l1, p + 1, (p + 1) as usize, depth + 1, Block::Nested) {
                        Err(e) => {},
                        Ok((m, np)) => {
                            let acc2 = acc.push(EntryModel { key: k, value: ValueModel::Nested(m) });
                            if np <= j {
                                lemma_entries_before(l1, l2, j, np, o, depth, block, acc2);
                            } else {
                                lemma_entries_after(l1, l2, j, np, o, o, depth, block, acc2);
                                lemma_entries_advance(l1, np, o, depth, block, acc2);
                            }
                        },
                    }
                } else {
                    lemma_entries_before(
                        l1,
                        l2,
                        j,
                        p + 1,
                        o,
                        depth,
                        block,
                        acc.push(EntryModel { key: k, value: ValueModel::Text(v) }),
                    );
                },
            }
        }
    }
}


proof fn lemma_doc_after(
    l1: Seq<Seq<char>>,
    l2: Seq<Seq<char>>,
    j: int,
    p: nat,
    meta: Seq<(Seq<char>, Seq<char>)>,
    sections: Seq<SectionModel>,
)
    requires
        with_skipped_line(l1, l2, j),
        p >= j,
    ensures
        same_document(parse_doc_from(l1, p, meta, sections), parse_doc_from(l2, p + 1, meta, sections)),
    decreases l1.len() - p,
{
    if p < l1.len() {
        assert(l2[p + 1int] == l1[p as int]);
        let t = trim(l1[p as int]);
        if is_skipped(t) {
            lemma_doc_after(l1, l2, j, p + 1, meta, sections);
        } else if t[0] == ':' {
            let name = trim_start(t.drop_first());
            if !(name.len() == 0 || name == "end"@) {
                crate::parse::lemma_block_advances(l1, p + 1, (p + 1) as usize, 0, Block::Section);
                lemma_block_after(
                    l1,
                    l2,
                    j,
                    p + 1,
                    (p + 1) as usize,
                    (p + 2) as usize,
                    0,
                    Block::Section,
                );
                match parse_block(l1, p + 1, (p + 1) as usize, 0, Block::Section) {
                    Err(e) => {},
                    Ok((es, np)) => {
                        lemma_doc_after(
                            l1,
                            l2,
                            j,
                            np,
                            meta,
                            sections.push(SectionModel { name, entries: es }),
                        );
                    },
                }
            }
        } else {
            match first_index(t, '=') {
                Some(i) => {
                    lemma_doc_after(
                        l1,
                        l2,
                        j,
                        p + 1,
                        meta.push((trim_end(t.take(i)), trim_start(t.skip(i + 1)))),
                        sections,
                    );
                },
                None => {},
            }
        }
    }
}

proof fn lemma_doc_before(
    l1: Seq<Seq<char>>,
    l2: Seq<Seq<char>>,
    j: int,
    p: nat,
    meta: Seq<(Seq<char>, Seq<char>)>,
    sections: Seq<SectionModel>,
)
    requires
        with_skipped_line(l1, l2, j),
        p <= j,
    ensures
        same_document(parse_doc_from(l1, p, meta, sections), parse_doc_from(l2, p, meta, sections)),
    decreases l1.len() - p,
{
    if p == j {
        assert(is_skipped(trim(l2[p as int])));
        assert(parse_doc_from(l2, p, meta, sections) == parse_doc_from(l2, p + 1, meta, sections));
        lemma_doc_after(l1, l2, j, p, meta, sections);
    } else {
        assert(l2[p as int] == l1[p as int]);
        let t = trim(l1[p as int]);
        if is_skipped(t) {
            lemma_doc_before(l1, l2, j, p + 1, meta, sections);
        } else if t[0] == ':' {
            let name = trim_start(t.drop_first());
            if !(name.len() == 0 || name == "end"@) {
                crate::parse::lemma_block_advances(l1, p + 1, (p + 1) as usize, 0, Block::Section);
                crate::parse::lemma_block_advances(l2, p + 1, (p + 1) as usize, 0, Block::Section);
                lemma_block_before(l1, l2, j, p + 1, (p + 1) as usize, 0, Block::Section);
                match parse_block(l1, p + 1, (p + 1) as usize, 0, Block::Section) {
                    Err(e) => {},
                    Ok((es, np)) => {
                        let s2 = sections.push(SectionModel { name, entries: es });
                        if np <= j {
                            lemma_doc_before(l1, l2, j, np, meta, s2);
                        } else {
                            lemma_doc_after(l1, l2, j, np, meta, s2);
                        }
                    },
                }
            }
        } else {
            match first_index(t, '=') {
                Some(i) => {
                    lemma_doc_before(
                        l1,
                        l2,
                        j,
                        p + 1,
                        meta.push((trim_end(t.take(i)), trim_start(t.skip(i + 1)))),
                        sections,
                    );
                },
                None => {},
            }
        }
    }
}

/// Blank lines and comment lines are ignored anywhere in the file: an input
/// with one more such line reads without error exactly when the other does,
/// and then as the same document.
pub proof fn law_skipped_line_ignored(s1: Seq<char>, s2: Seq<char>, j: int)
    requires
        with_skipped_line(split_lines(strip_bom(s1)), split_lines(strip_bom(s2)), j),
    ensures
        parse_spec(s1) is Ok <==> parse_spec(s2) is Ok,
        parse_spec(s1) is Ok ==> parse_spec(s2) == parse_spec(s1),
{
    lemma_doc_before(
        split_lines(strip_bom(s1)),
        split_lines(strip_bom(s2)),
        j,
        0,
        Seq::empty(),
        Seq::empty(),
    );
}

/// No piece of a text cut at its newlines holds a newline.
proof fn lemma_split_lines_one_line_each(s: Seq<char>)
    ensures
        forall|i: int|
            0 <= i < split_lines(s).len() ==> !has_char(#[trigger] split_lines(s)[i], '\n'),
    decreases s.len(),
{
    if s.len() > 0 {
        let prev = split_lines(s.drop_last());
        lemma_split_lines_one_line_each(s.drop_last());
        lemma_split_lines_nonempty(s.drop_last());
        let cur = split_lines(s);
        if s.last() == '\n' {
            assert forall|i: int| 0 <= i < cur.len() implies !has_char(#[trigger] cur[i], '\n') by {
                if i < prev.len() {
                    assert(cur[i] == prev[i]);
                } else {
                    assert(cur[i] == Seq::<char>::empty());
                }
            }
        } else {
            let l = prev[prev.len() - 1];
            assert forall|i: int| 0 <= i < cur.len() implies !has_char(#[trigger] cur[i], '\n') by {
                if i < prev.len() - 1 {
                    assert(cur[i] == prev[i]);
                } else {
                    assert(cur[i] == l + seq![s.last()]);
                    lemma_has_char_add(l, seq![s.last()], '\n');
                }
            }
        }
    }
}

/// A part of a text without `c` holds no `c`.
proof fn lemma_no_char_in_part(s: Seq<char>, a: int, b: int, c: char)
    requires
        0 <= a <= b <= s.len(),
        !has_char(s, c),
    ensures
        !has_char(s.subrange(a, b), c),
{
    if has_char(s.subrange(a, b), c) {
        let j = choose|j: int| 0 <= j < b - a && s.subrange(a, b)[j] == c;
        assert(s[a + j] == c);
    }
}

/// A trimmed line holds no newline, and starts and ends with a character
/// that is not whitespace.
proof fn lemma_trim_line(l: Seq<char>)
    requires
        !has_char(l, '\n'),
    ensures
        !has_char(trim(l), '\n'),
        trim(l).len() > 0 ==> !is_ascii_ws(trim(l)[0]) && !is_ascii_ws(trim(l).last()),
{
    let ts = trim_start(l);
    let t = trim(l);
    lemma_trim_start_shape(l);
    lemma_trim_end_shape(ts);
    let a = l.len() - ts.len();
    assert(ts =~= l.subrange(a, l.len() as int));
    lemma_no_char_in_part(l, a, l.len() as int, '\n');
    assert(t =~= ts.subrange(0, t.len() as int));
    lemma_no_char_in_part(ts, 0, t.len() as int, '\n');
    if t.len() > 0 {
        assert(t[0] == ts[0]);
    }
}

/// The two sides of a trimmed line cut at the first `c`, each trimmed:
/// neither holds a newline, both read as themselves when trimmed again,
/// and the left side is the start of the line, without `c`.
proof fn lemma_cut_line(t: Seq<char>, c: char, i: int)
    requires
        is_first_index(t, c, i),
        !has_char(t, '\n'),
        !is_ascii_ws(t[0]),
        !is_ascii_ws(t.last()),
    ensures
        trim_end(t.take(i)).len() <= i,
        forall|j: int|
            0 <= j < trim_end(t.take(i)).len() ==> #[trigger] trim_end(t.take(i))[j] == t[j],
        !has_char(trim_end(t.take(i)), c),
        !has_char(trim_end(t.take(i)), '\n'),
        trim(trim_end(t.take(i))) == trim_end(t.take(i)),
        !has_char(trim_start(t.skip(i + 1)), '\n'),
        trim(trim_start(t.skip(i + 1))) == trim_start(t.skip(i + 1)),
{
    let p = t.take(i);
    let k = trim_end(p);
    lemma_trim_end_shape(p);
    assert(k =~= t.subrange(0, k.len() as int));
    lemma_no_char_in_part(t, 0, k.len() as int, '\n');
    if has_char(k, c) {
        let j = choose|j: int| 0 <= j < k.len() && k[j] == c;
        assert(t[j] == c);
    }
    if k.len() > 0 {
        assert(k[0] == t[0]);
        lemma_trim_start_keeps(k);
        lemma_trim_end_keeps(k);
    } else {
        assert(trim_start(k) == k);
        assert(trim_end(k) == k);
    }
    let r = t.skip(i + 1);
    let v = trim_start(r);
    lemma_trim_start_shape(r);
    let b = r.len() - v.len();
    assert(v =~= t.subrange(i + 1 + b, t.len() as int));
    lemma_no_char_in_part(t, i + 1 + b, t.len() as int, '\n');
    if v.len() > 0 {
        assert(v.last() == t.last());
        lemma_trim_start_keeps(v);
        lemma_trim_end_keeps(v);
    } else {
        assert(trim_start(v) == v);
        assert(trim_end(v) == v);
    }
}

/// Each of the entries reads back as itself and nests no deeper than the
/// reader allows below level `depth`.
spec fn entries_fit(es: Seq<EntryModel>, depth: nat) -> bool {
    forall|i: int|
        0 <= i < es.len() ==> entry_readable(#[trigger] es[i]) && depth + entry_nesting(es[i])
            <= MAX_DEPTH
}

proof fn lemma_fit_readable(es: Seq<EntryModel>, depth: nat)
    requires
        entries_fit(es, depth),
        depth <= MAX_DEPTH,
    ensures
        entries_readable(es),
        depth + entries_nesting(es) <= MAX_DEPTH,
{
    lemma_entries_readable_all(es);
    lemma_nesting_bound(es, (MAX_DEPTH - depth) as nat);
}

/// The entries of a block that is read back fit at its level.
proof fn lemma_read_block_fits(
    lines: Seq<Seq<char>>,
    pos: nat,
    open_line: usize,
    depth: nat,
    block: Block,
)
    requires
        forall|i: int| 0 <= i < lines.len() ==> !has_char(#[trigger] lines[i], '\n'),
    ensures
        parse_block(lines, pos, open_line, depth, block) matches Ok((es, _)) ==> depth
            <= MAX_DEPTH && entries_fit(es, depth),
    decreases lines.len() - pos, 1int,
{
    if depth <= MAX_DEPTH {
        lemma_read_entries_fit(lines, pos, open_line, depth, block, Seq::empty());
    }
}

proof fn lemma_read_entries_fit(
    lines: Seq<Seq<char>>,
    pos: nat,
    open_line: usize,
    depth: nat,
    block: Block,
    acc: Seq<EntryModel>,
)
    requires
        forall|i: int| 0 <= i < lines.len() ==> !has_char(#[trigger] lines[i], '\n'),
        depth <= MAX_DEPTH,
        entries_fit(acc, depth),
    ensures
        parse_entries_from(lines, pos, open_line, depth, block, acc) matches Ok((es, _))
            ==> entries_fit(es, depth),
    decreases lines.len() - pos, 0int,
{
    lemma_literals();
    if pos < lines.len() {
        let t = trim(lines[pos as int]);
        lemma_trim_line(lines[pos as int]);
        if is_skipped(t) {
            lemma_read_entries_fit(lines, pos + 1, open_line, depth, block, acc);
        } else if t[0] == ':' {
        } else if t == "}"@ {
        } else {
            match first_index(t, ':') {
                None => {},
                Some(i) => {
                    assert(is_first_index(t, ':', i));
                    lemma_cut_line(t, ':', i);
                    let k = trim_end(t.take(i));
                    let v = trim_start(t.skip(i + 1));
                    if k.len() > 0 {
                        assert(split_entry(t, pos as int) == Ok::<
                            (Seq<char>, Seq<char>),
                            crate::error::ParseError,
                        >((k, v)));
                        if k.len() >= 2 {
                            assert(k[0] == t[0] && k[1] == t[1]);
                        }
                        assert(readable_key(k));
                        if v == "{"@ {
                            lemma_read_block_fits(
                                lines,
                                pos + 1,
                                (pos + 1) as usize,
                                depth + 1,
                                Block::Nested,
                            );
                            lemma_block_advances(
                                lines,
                                pos + 1,
                                (pos + 1) as usize,
                                depth + 1,
                                Block::Nested,
                            );
                            match parse_block(
                                lines,
                                pos + 1,
                                (pos + 1) as usize,
                                depth + 1,
                                Block::Nested,
                            ) {
                                Err(_) => {},
                                Ok((m, np)) => {
                                    if pos < np <= lines.len() {
                                        lemma_fit_readable(m, depth + 1);
                                        let e = EntryModel { key: k, value: ValueModel::Nested(m) };
                                        assert(entry_readable(e));
                                        let acc2 = acc.push(e);
                                        assert(entries_fit(acc2, depth)) by {
                                            assert forall|j: int| 0 <= j < acc2.len() implies entry_readable(
                                                #[trigger] acc2[j],
                                            ) && depth + entry_nesting(acc2[j]) <= MAX_DEPTH by {
                                                if j < acc.len() {
                                                    assert(acc2[j] == acc[j]);
                                                }
                                            }
                                        }
                                        lemma_read_entries_fit(lines, np, open_line, depth, block, acc2);
                                    }
                                },
                            }
                        } else {
                            let e = EntryModel { key: k, value: ValueModel::Text(v) };
                            assert(readable_text(v));
                            assert(entry_readable(e));
                            let acc2 = acc.push(e);
                            assert(entries_fit(acc2, depth)) by {
                                assert forall|j: int| 0 <= j < acc2.len() implies entry_readable(
                                    #[trigger] acc2[j],
                                ) && depth + entry_nesting(acc2[j]) <= MAX_DEPTH by {
                                    if j < acc.len() {
                                        assert(acc2[j] == acc[j]);
                                    }
                                }
                            }
                            lemma_read_entries_fit(lines, pos + 1, open_line, depth, block, acc2);
                        }
                    }
                },
            }
        }
    }
}

/// What is read at the top level reads back as itself: each header line
/// and each block.
proof fn lemma_read_doc_readable(
    lines: Seq<Seq<char>>,
    pos: nat,
    meta: Seq<(Seq<char>, Seq<char>)>,
    sections: Seq<SectionModel>,
)
    requires
        forall|i: int| 0 <= i < lines.len() ==> !has_char(#[trigger] lines[i], '\n'),
        all_meta_readable(meta),
        all_sections_readable(sections),
    ensures
        match parse_doc_from(lines, pos, meta, sections) {
            Ok(d) => all_meta_readable(d.meta) && all_sections_readable(d.sections),
            Err(_) => true,
        },
    decreases lines.len() - pos,
{
    lemma_literals();
    if pos < lines.len() {
        let t = trim(lines[pos as int]);
        lemma_trim_line(lines[pos as int]);
        if is_skipped(t) {
            lemma_read_doc_readable(lines, pos + 1, meta, sections);
        } else if t[0] == ':' {
            let name = trim_start(t.drop_first());
            if name.len() > 0 && name != "end"@ {
                assert(is_first_index(t, ':', 0));
                lemma_cut_line(t, ':', 0);
                assert(t.skip(0int + 1) =~= t.drop_first());
                assert(readable_name(name));
                lemma_read_block_fits(lines, pos + 1, (pos + 1) as usize, 0, Block::Section);
                lemma_block_advances(lines, pos + 1, (pos + 1) as usize, 0, Block::Section);
                match parse_block(lines, pos + 1, (pos + 1) as usize, 0, Block::Section) {
                    Err(_) => {},
                    Ok((es, np)) => {
                        if pos < np <= lines.len() {
                            lemma_fit_readable(es, 0);
                            let sec = SectionModel { name, entries: es };
                            assert(section_readable(sec));
                            let s2 = sections.push(sec);
                            assert forall|j: int| 0 <= j < s2.len() implies section_readable(
                                #[trigger] s2[j],
                            ) by {
                                if j < sections.len() {
                                    assert(s2[j] == sections[j]);
                                }
                            }
                            lemma_read_doc_readable(lines, np, meta, s2);
                        }
                    },
                }
            }
        } else {
            match first_index(t, '=') {
                None => {},
                Some(i) => {
                    assert(is_first_index(t, '=', i));
                    lemma_cut_line(t, '=', i);
                    let k = trim_end(t.take(i));
                    let v = trim_start(t.skip(i + 1));
                    if k.len() > 0 {
                        assert(k[0] == t[0]);
                    }
                    if k.len() >= 2 {
                        assert(k[0] == t[0] && k[1] == t[1]);
                    }
                    assert(readable_meta(k, v));
                    let m2 = meta.push((k, v));
                    assert forall|j: int| 0 <= j < m2.len() implies readable_meta(
                        #[trigger] m2[j].0,
                        m2[j].1,
                    ) by {
                        if j < meta.len() {
                            assert(m2[j] == meta[j]);
                        }
                    }
                    lemma_read_doc_readable(lines, pos + 1, m2, sections);
                },
            }
        }
    }
}

/// Every document read from a text is written as a text that reads back
/// as the same document, and writing that again gives the same text; the
/// one exception is a first header key that starts with a byte order mark,
/// which reading drops from the start of a text.
pub proof fn law_parsed_reads_back(s: Seq<char>, d: DocumentModel)
    requires
        parse_spec(s) == Ok::<DocumentModel, crate::error::ParseError>(d),
        !(d.meta.len() > 0 && starts_with_bom(d.meta[0].0)),
    ensures
        parse_spec(render_spec(d)) == Ok::<DocumentModel, crate::error::ParseError>(d),
        render_spec(d) == (match parse_spec(render_spec(d)) {
            Ok(d2) => render_spec(d2),
            Err(_) => render_spec(d),
        }),
{
    let lines = split_lines(strip_bom(s));
    lemma_split_lines_one_line_each(strip_bom(s));
    lemma_read_doc_readable(lines, 0, Seq::empty(), Seq::empty());
    assert(parse_doc_from(lines, 0, Seq::empty(), Seq::empty()) == Ok::<
        DocumentModel,
        crate::error::ParseError,
    >(d));
    law_render_reads_back(d);
}

/// The text of a single block called `n` whose body is the one line `l`.
pub open spec fn one_line_block(n: Seq<char>, l: Seq<char>) -> Seq<char> {
    join_lines(seq![":"@ + n, l, ":end"@])
}

/// The lines that reading cuts `one_line_block(n, l)` into.
proof fn lemma_one_line_block_lines(n: Seq<char>, l: Seq<char>)
    requires
        readable_name(n),
        !has_char(l, '\n'),
    ensures
        parse_spec(one_line_block(n, l)) == parse_doc_from(
            seq![":"@ + n, l, ":end"@, Seq::<char>::empty()],
            0,
            Seq::empty(),
            Seq::empty(),
        ),
{
    lemma_literals();
    let ls = seq![":"@ + n, l, ":end"@];
    assert(!has_char(":"@, '\n')) by {
        assert forall|j: int| 0 <= j < 1 implies ":"@[j] != '\n' by {}
    }
    lemma_has_char_add(":"@, n, '\n');
    assert(!has_char(":end"@, '\n')) by {
        assert forall|j: int| 0 <= j < 4 implies ":end"@[j] != '\n' by {
            if j == 0 {
            } else if j == 1 {
            } else if j == 2 {
            } else {
            }
        }
    }
    assert forall|j: int| 0 <= j < ls.len() implies !has_char(#[trigger] ls[j], '\n') by {
        if j == 0 {
        } else if j == 1 {
        } else {
        }
    }
    lemma_split_join(ls);
    assert((":"@ + n)[0] == ':');
    lemma_join_lines_first(ls);
    let text = one_line_block(n, l);
    assert(strip_bom(text) == text);
    assert(ls.push(Seq::<char>::empty()) =~= seq![":"@ + n, l, ":end"@, Seq::<char>::empty()]);
}

/// Reading an entry line: it is cut at its first `:`, the key is what
/// stands before it trimmed at its end, and the value what follows it
/// trimmed at its start. So whatever whitespace stands next to the `:`
/// (spaces, tabs or none at all) makes no difference, as long as the key
/// is not empty.
pub proof fn law_entry_line_reads(n: Seq<char>, l: Seq<char>, i: int)
    requires
        readable_name(n),
        !has_char(l, '\n'),
        is_first_index(trim(l), ':', i),
        trim_end(trim(l).take(i)).len() > 0,
        !starts_with_comment(trim(l)),
        trim_start(trim(l).skip(i + 1)) != "{"@,
    ensures
        parse_spec(one_line_block(n, l)) == Ok::<DocumentModel, crate::error::ParseError>(
            DocumentModel {
                meta: Seq::empty(),
                sections: seq![
                    SectionModel {
                        name: n,
                        entries: seq![
                            EntryModel {
                                key: trim_end(trim(l).take(i)),
                                value: ValueModel::Text(trim_start(trim(l).skip(i + 1))),
                            },
                        ],
                    },
                ],
            },
        ),
{
    lemma_literals();
    lemma_one_line_block_lines(n, l);
    let all = seq![":"@ + n, l, ":end"@, Seq::<char>::empty()];
    let t = trim(l);
    let k = trim_end(t.take(i));
    let v = trim_start(t.skip(i + 1));
    lemma_trim_line(l);
    lemma_cut_line(t, ':', i);
    assert(i >= 1);
    assert(t[0] != ':');
    assert(!is_skipped(t));
    assert(t != "}"@) by {
        assert(t.len() >= 2);
    }
    lemma_first_index_unique(t, ':', i);
    assert(split_entry(t, 1) == Ok::<(Seq<char>, Seq<char>), crate::error::ParseError>((k, v)));
    lemma_header_line(n);
    lemma_end_line();
    let e = EntryModel { key: k, value: ValueModel::Text(v) };
    assert(all[1] == l);
    assert(all[2] == ":end"@);
    assert(parse_entries_from(all, 2, 1, 0, Block::Section, seq![e]) == Ok::<
        (Seq<EntryModel>, nat),
        crate::error::ParseError,
    >((seq![e], 3nat)));
    assert(Seq::<EntryModel>::empty().push(e) =~= seq![e]);
    assert(parse_entries_from(all, 1, 1, 0, Block::Section, Seq::empty()) == Ok::<
        (Seq<EntryModel>, nat),
        crate::error::ParseError,
    >((seq![e], 3nat)));
    let sec = SectionModel { name: n, entries: seq![e] };
    let meta = Seq::<(Seq<char>, Seq<char>)>::empty();
    assert(trim(all[3]) == Seq::<char>::empty());
    assert(parse_doc_from(all, 4, meta, seq![sec]) == Ok::<DocumentModel, crate::error::ParseError>(
        DocumentModel { meta, sections: seq![sec] },
    ));
    assert(parse_doc_from(all, 3, meta, seq![sec]) == Ok::<DocumentModel, crate::error::ParseError>(
        DocumentModel { meta, sections: seq![sec] },
    ));
    assert(all[0] == ":"@ + n);
    assert(Seq::<SectionModel>::empty().push(sec) =~= seq![sec]);
}

/// Reading an entry line that holds no `:` reports a missing colon on that
/// line.
pub proof fn law_entry_line_without_colon(n: Seq<char>, l: Seq<char>)
    requires
        readable_name(n),
        !has_char(l, '\n'),
        trim(l).len() > 0,
        !has_char(trim(l), ':'),
        !starts_with_comment(trim(l)),
        trim(l) != "}"@,
    ensures
        parse_spec(one_line_block(n, l)) == Err::<DocumentModel, crate::error::ParseError>(
            crate::error::ParseError { line: 2, kind: crate::error::ParseErrorKind::MissingColon },
        ),
{
    lemma_literals();
    lemma_one_line_block_lines(n, l);
    let all = seq![":"@ + n, l, ":end"@, Seq::<char>::empty()];
    let t = trim(l);
    assert(t[0] != ':');
    assert(!is_skipped(t));
    lemma_first_index_none(t, ':');
    lemma_header_line(n);
    assert(all[1] == l);
    assert(parse_entries_from(all, 1, 1, 0, Block::Section, Seq::empty()) == Err::<
        (Seq<EntryModel>, nat),
        crate::error::ParseError,
    >(crate::error::ParseError { line: 2, kind: crate::error::ParseErrorKind::MissingColon }));
    assert(all[0] == ":"@ + n);
}

/// No key or text value among the entries (and in the maps inside them)
/// holds `c`.
pub open spec fn entries_free_of(es: Seq<EntryModel>, c: char) -> bool
    decreases es,
{
    es.len() == 0 || (entry_free_of(es[0], c) && entries_free_of(es.drop_first(), c))
}

/// Neither the key nor the text of the entry (nor of the maps inside it)
/// holds `c`.
pub open spec fn entry_free_of(e: EntryModel, c: char) -> bool
    decreases e,
{
    &&& !has_char(e.key, c)
    &&& match e.value {
        ValueModel::Text(v) => !has_char(v, c),
        ValueModel::Nested(m) => entries_free_of(m, c),
    }
}

/// What `validate` asks of a document beyond reading back as itself: no
/// carriage return in a header line, key or text value; no empty header
/// key; no whitespace in a block name.
pub open spec fn document_plain(d: DocumentModel) -> bool {
    &&& forall|i: int|
        0 <= i < d.meta.len() ==> (#[trigger] d.meta[i]).0.len() > 0 && !has_char(d.meta[i].0, '\r')
            && !has_char(d.meta[i].1, '\r')
    &&& forall|i: int|
        0 <= i < d.sections.len() ==> (forall|j: int|
            0 <= j < (#[trigger] d.sections[i]).name.len() ==> !is_ascii_ws(d.sections[i].name[j]))
            && entries_free_of(d.sections[i].entries, '\r')
}

/// Entries pass the check exactly when they read back as themselves and
/// hold no carriage return.
proof fn lemma_entries_check_readable(es: Seq<EntryModel>)
    ensures
        (check_entries(es) is Ok) <==> (entries_readable(es) && entries_free_of(es, '\r')),
    decreases es,
{
    if es.len() > 0 {
        let e = es[0];
        let rest = es.drop_first();
        lemma_entries_check_readable(rest);
        assert(valid_key(e.key) == (readable_key(e.key) && !has_char(e.key, '\r')));
        match e.value {
            ValueModel::Text(v) => {
                assert(valid_text(v) == (readable_text(v) && !has_char(v, '\r')));
            },
            ValueModel::Nested(m) => {
                lemma_entries_check_readable(m);
            },
        }
        assert(entries_readable(es) == (entry_readable(e) && entries_readable(rest)));
        assert(entries_free_of(es, '\r') == (entry_free_of(e, '\r') && entries_free_of(rest, '\r')));
    }
}

/// `validate` accepts exactly the documents that read back as themselves
/// from their text and hold no carriage return, no empty header key and no
/// block name with whitespace in it: it refuses nothing else (spaces inside
/// a key or a header key, braces inside a value are all accepted).
pub proof fn law_validate_accepts_readable(d: DocumentModel)
    ensures
        (check_document(d) is Ok) <==> (document_readable(d) && document_plain(d)),
{
    lemma_check_sections_all(d.sections);
    assert forall|i: int| 0 <= i < d.sections.len() implies (section_ok(#[trigger] d.sections[i])
        <==> (section_readable(d.sections[i]) && (forall|j: int|
        0 <= j < d.sections[i].name.len() ==> !is_ascii_ws(d.sections[i].name[j]))
        && entries_free_of(d.sections[i].entries, '\r'))) by {
        let s = d.sections[i];
        lemma_entries_check_readable(s.entries);
        if valid_section_name(s.name) {
            lemma_checked_name_readable(s.name);
        }
        if readable_name(s.name) && (forall|j: int|
            0 <= j < s.name.len() ==> !is_ascii_ws(s.name[j])) {
            assert(valid_section_name(s.name));
        }
    }
    assert forall|i: int| 0 <= i < d.meta.len() implies ((valid_meta_key(#[trigger] d.meta[i].0)
        && valid_meta_value(d.meta[i].1)) <==> (readable_meta(d.meta[i].0, d.meta[i].1)
        && d.meta[i].0.len() > 0 && !has_char(d.meta[i].0, '\r') && !has_char(d.meta[i].1, '\r'))) by {}
    if check_document(d) is Ok {
        assert(meta_ok(d.meta));
        assert(check_sections(d.sections) is Ok);
        assert(all_meta_readable(d.meta)) by {
            assert forall|i: int| 0 <= i < d.meta.len() implies readable_meta(
                #[trigger] d.meta[i].0,
                d.meta[i].1,
            ) by {
                assert(valid_meta_key(d.meta[i].0));
            }
        }
        assert(document_plain(d)) by {
            assert forall|i: int| 0 <= i < d.meta.len() implies (#[trigger] d.meta[i]).0.len() > 0
                && !has_char(d.meta[i].0, '\r') && !has_char(d.meta[i].1, '\r') by {
                assert(valid_meta_key(d.meta[i].0));
            }
        }
    }
    if document_readable(d) && document_plain(d) {
        assert(meta_ok(d.meta)) by {
            assert forall|i: int| 0 <= i < d.meta.len() implies valid_meta_key(#[trigger] d.meta[i].0)
                && valid_meta_value(d.meta[i].1) by {
                assert(readable_meta(d.meta[i].0, d.meta[i].1));
                assert(d.meta[i].0.len() > 0);
            }
        }
        assert forall|i: int| 0 <= i < d.sections.len() implies section_ok(#[trigger] d.sections[i]) by {
            assert(section_readable(d.sections[i]));
        }
    }
}

} // verus!
