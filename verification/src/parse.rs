//! Reading a document: the grammar as spec functions over lines, and the
//! parser that is proved to follow it.
use vstd::prelude::*;

use crate::error::{ParseError, ParseErrorKind};
use crate::model::{
    entries_model, entry_model, lemma_entries_model, lemma_entries_model_push, lemma_meta_model_push,
    lemma_sections_model_push, Document, DocumentModel, Entry,
    EntryModel, SectionModel, Section, Value, ValueModel,
};
use crate::text::{
    chars_of, find_char, first_index, lines_view, range_eq, skip_ws_backward, skip_ws_forward, trim_bounds,
    split_lines, split_lines_from, string_of_range, trim, trim_end, trim_start,
};

verus! {

broadcast use vstd::seq::group_seq_axioms;

/// How deeply maps may nest inside a block.
pub const MAX_DEPTH: usize = 64;

/// The kind of block whose entries are being read.
#[derive(Clone, Copy, PartialEq, Eq, Structural)]
pub enum Block {
    Section,
    Nested,
}

/// The error reported on the line at position `pos` (lines count from 1).
pub open spec fn error_at(pos: int, kind: ParseErrorKind) -> ParseError {
    ParseError { line: (pos + 1) as usize, kind }
}

/// The error for a block opened on `open_line` that is never closed.
pub open spec fn unterminated(open_line: usize, block: Block) -> ParseError {
    ParseError {
        line: open_line,
        kind: match block {
            Block::Section => ParseErrorKind::UnterminatedSection,
            Block::Nested => ParseErrorKind::UnterminatedMap,
        },
    }
}

/// A trimmed line that is ignored: blank, or a `//` comment.
pub open spec fn is_skipped(t: Seq<char>) -> bool {
    t.len() == 0 || (t.len() >= 2 && t[0] == '/' && t[1] == '/')
}

/// The input without a leading byte order mark.
pub open spec fn strip_bom(s: Seq<char>) -> Seq<char> {
    if s.len() > 0 && s[0] == '\u{feff}' {
        s.drop_first()
    } else {
        s
    }
}

/// An entry line `t` (trimmed, at position `pos`) cut into key and value at
/// its first `:`, both sides trimmed.
pub open spec fn split_entry(t: Seq<char>, pos: int) -> Result<(Seq<char>, Seq<char>), ParseError> {
    match first_index(t, ':') {
        Some(i) => {
            let k = trim_end(t.take(i));
            if k.len() == 0 {
                Err(error_at(pos, ParseErrorKind::EmptyKey))
            } else {
                Ok((k, trim_start(t.skip(i + 1))))
            }
        },
        None => Err(error_at(pos, ParseErrorKind::MissingColon)),
    }
}

/// The entries of a block whose body starts at line `pos`, with the
/// position just after the line that closes it.
pub open spec fn parse_block(
    lines: Seq<Seq<char>>,
    pos: nat,
    open_line: usize,
    depth: nat,
    block: Block,
) -> Result<(Seq<EntryModel>, nat), ParseError>
    decreases lines.len() - pos, 1int,
{
    if depth > MAX_DEPTH {
        Err(ParseError { line: open_line, kind: ParseErrorKind::TooDeep })
    } else {
        parse_entries_from(lines, pos, open_line, depth, block, Seq::empty())
    }
}

/// Reading on from line `pos` with the entries `acc` already read.
pub open spec fn parse_entries_from(
    lines: Seq<Seq<char>>,
    pos: nat,
    open_line: usize,
    depth: nat,
    block: Block,
    acc: Seq<EntryModel>,
) -> Result<(Seq<EntryModel>, nat), ParseError>
    decreases lines.len() - pos, 0int,
{
    if pos >= lines.len() {
        Err(unterminated(open_line, block))
    } else {
        let t = trim(lines[pos as int]);
        if is_skipped(t) {
            parse_entries_from(lines, pos + 1, open_line, depth, block, acc)
        } else if t[0] == ':' {
            if block == Block::Section && t == ":end"@ {
                Ok((acc, pos + 1))
            } else {
                Err(unterminated(open_line, block))
            }
        } else if t == "}"@ {
            if block == Block::Nested {
                Ok((acc, pos + 1))
            } else {
                Err(error_at(pos as int, ParseErrorKind::UnexpectedCloseBrace))
            }
        } else {
            match split_entry(t, pos as int) {
                Err(e) => Err(e),
                Ok((k, v)) => if v == "{"@ {
                    match parse_block(lines, pos + 1, (pos + 1) as usize, depth + 1, Block::Nested) {
                        Err(e) => Err(e),
                        Ok((m, np)) => if pos < np <= lines.len() {
                            parse_entries_from(
                                lines,
                                np,
                                open_line,
                                depth,
                                block,
                                acc.push(EntryModel { key: k, value: ValueModel::Nested(m) }),
                            )
                        } else {
                            arbitrary()
                        },
                    }
                } else {
                    parse_entries_from(
                        lines,
                        pos + 1,
                        open_line,
                        depth,
                        block,
                        acc.push(EntryModel { key: k, value: ValueModel::Text(v) }),
                    )
                },
            }
        }
    }
}

/// Reading the top level on from line `pos`, with the header lines and
/// blocks already read.
pub open spec fn parse_doc_from(
    lines: Seq<Seq<char>>,
    pos: nat,
    meta: Seq<(Seq<char>, Seq<char>)>,
    sections: Seq<SectionModel>,
) -> Result<DocumentModel, ParseError>
    decreases lines.len() - pos,
{
    if pos >= lines.len() {
        Ok(DocumentModel { meta, sections })
    } else {
        let t = trim(lines[pos as int]);
        if is_skipped(t) {
            parse_doc_from(lines, pos + 1, meta, sections)
        } else if t[0] == ':' {
            let name = trim_start(t.drop_first());
            if name.len() == 0 || name == "end"@ {
                Err(error_at(pos as int, ParseErrorKind::UnexpectedLine))
            } else {
                match parse_block(lines, pos + 1, (pos + 1) as usize, 0, Block::Section) {
                    Err(e) => Err(e),
                    Ok((es, np)) => if pos < np <= lines.len() {
                        parse_doc_from(
                            lines,
                            np,
                            meta,
                            sections.push(SectionModel { name, entries: es }),
                        )
                    } else {
                        arbitrary()
                    },
                }
            }
        } else {
            match first_index(t, '=') {
                Some(i) => parse_doc_from(
                    lines,
                    pos + 1,
                    meta.push((trim_end(t.take(i)), trim_start(t.skip(i + 1)))),
                    sections,
                ),
                None => Err(error_at(pos as int, ParseErrorKind::UnexpectedLine)),
            }
        }
    }
}

/// What reading `input` gives: a document, or the first error.
pub open spec fn parse_spec(input: Seq<char>) -> Result<DocumentModel, ParseError> {
    parse_doc_from(split_lines(strip_bom(input)), 0, Seq::empty(), Seq::empty())
}

pub proof fn lemma_block_advances(
    lines: Seq<Seq<char>>,
    pos: nat,
    open_line: usize,
    depth: nat,
    block: Block,
)
    ensures
        parse_block(lines, pos, open_line, depth, block) matches Ok((_, np)) ==> pos < np
            <= lines.len(),
    decreases lines.len() - pos, 1int,
{
    if depth <= MAX_DEPTH {
        lemma_entries_advance(lines, pos, open_line, depth, block, Seq::empty());
    }
}

pub proof fn lemma_entries_advance(
    lines: Seq<Seq<char>>,
    pos: nat,
    open_line: usize,
    depth: nat,
    block: Block,
    acc: Seq<EntryModel>,
)
    ensures
        parse_entries_from(lines, pos, open_line, depth, block, acc) matches Ok((_, np)) ==> pos
            < np <= lines.len(),
    decreases lines.len() - pos, 0int,
{
    if pos < lines.len() {
        let t = trim(lines[pos as int]);
        if is_skipped(t) {
            lemma_entries_advance(lines, pos + 1, open_line, depth, block, acc);
        } else if t[0] == ':' {
        } else if t == "}"@ {
        } else {
            match split_entry(t, pos as int) {
                Err(e) => {},
                Ok((k, v)) => if v == "{"@ {
                    lemma_block_advances(lines, pos + 1, (pos + 1) as usize, depth + 1, Block::Nested);
                    match parse_block(lines, pos + 1, (pos + 1) as usize, depth + 1, Block::Nested) {
                        Err(e) => {},
                        Ok((m, np)) => {
                            lemma_entries_advance(
                                lines,
                                np,
                                open_line,
                                depth,
                                block,
                                acc.push(EntryModel { key: k, value: ValueModel::Nested(m) }),
                            );
                        },
                    }
                } else {
                    lemma_entries_advance(
                        lines,
                        pos + 1,
                        open_line,
                        depth,
                        block,
                        acc.push(EntryModel { key: k, value: ValueModel::Text(v) }),
                    );
                },
            }
        }
    }
}

/// The entry line `line[a..b]` (at position `pos`) cut at its first `:`:
/// the key is `line[a..ke]`, the value `line[vs..b]`.
fn split_entry_at(line: &Vec<char>, a: usize, b: usize, pos: usize) -> (r: Result<
    (usize, usize),
    ParseError,
>)
    requires
        a <= b <= line.len(),
        pos < usize::MAX,
    ensures
        match split_entry(line@.subrange(a as int, b as int), pos as int) {
            Ok((k, v)) => r matches Ok((ke, vs)) && a <= ke <= vs <= b && line@.subrange(
                a as int,
                ke as int,
            ) == k && line@.subrange(vs as int, b as int) == v,
            Err(e) => r == Err::<(usize, usize), ParseError>(e),
        },
{
    let ghost t = line@.subrange(a as int, b as int);
    match find_char(line, a, b, ':') {
        None => Err(ParseError::new(pos + 1, ParseErrorKind::MissingColon)),
        Some(c) => {
            assert(t.take(c - a) =~= line@.subrange(a as int, c as int));
            assert(t.skip(c - a + 1) =~= line@.subrange(c + 1, b as int));
            let ke = skip_ws_backward(line, a, c);
            if ke == a {
                Err(ParseError::new(pos + 1, ParseErrorKind::EmptyKey))
            } else {
                let vs = skip_ws_forward(line, c + 1, b);
                Ok((ke, vs))
            }
        },
    }
}

/// Reads the entries of a block whose body starts at line `*pos`, leaving
/// `*pos` just after the line that closes it.
fn parse_entries(
    lines: &Vec<Vec<char>>,
    pos: &mut usize,
    open_line: usize,
    depth: usize,
    block: Block,
) -> (r: Result<Vec<Entry>, ParseError>)
    requires
        *old(pos) <= lines.len(),
    ensures
        match parse_block(lines_view(lines@), *old(pos) as nat, open_line, depth as nat, block) {
            Ok((es, np)) => r is Ok && entries_model(r->Ok_0@) == es && *final(pos) == np,
            Err(e) => r == Err::<Vec<Entry>, ParseError>(e),
        },
        depth > MAX_DEPTH ==> *final(pos) == *old(pos),
    decreases lines.len() - *old(pos),
{
    broadcast use lemma_entries_model_push;

    let ghost lv = lines_view(lines@);
    let ghost start = *pos as nat;
    if depth > MAX_DEPTH {
        return Err(ParseError::new(open_line, ParseErrorKind::TooDeep));
    }
    let unterminated_kind = match block {
        Block::Section => ParseErrorKind::UnterminatedSection,
        Block::Nested => ParseErrorKind::UnterminatedMap,
    };
    let mut entries: Vec<Entry> = Vec::new();
    proof {
        lemma_entries_model(entries@);
        assert(entries_model(entries@) =~= Seq::<EntryModel>::empty());
    }
    while *pos < lines.len()
        invariant
            lv == lines_view(lines@),
            start == *old(pos),
            start <= *pos <= lines.len(),
            depth <= MAX_DEPTH,
            unterminated_kind == unterminated(open_line, block).kind,
            parse_block(lv, start, open_line, depth as nat, block) == parse_entries_from(
                lv,
                *pos as nat,
                open_line,
                depth as nat,
                block,
                entries_model(entries@),
            ),
        decreases lines.len() - *pos,
    {
        let i = *pos;
        *pos = i + 1;
        let line = &lines[i];
        assert(lv[i as int] == line@);
        let (a, b) = trim_bounds(line);
        let ghost t = line@.subrange(a as int, b as int);
        let ghost acc = entries_model(entries@);
        assert(trim(lv[i as int]) == t);
        assert(a < b ==> t[0] == line@[a as int]);
        assert(b - a >= 2 ==> t[1] == line@[a + 1]);
        if a == b || (b - a >= 2 && line[a] == '/' && line[a + 1] == '/') {
            // blank or comment line: nothing to read
            assert(parse_entries_from(lv, i as nat, open_line, depth as nat, block, acc)
                == parse_entries_from(lv, (i + 1) as nat, open_line, depth as nat, block, acc));
        } else if line[a] == ':' {
            if block == Block::Section && range_eq(line, a, b, ":end") {
                return Ok(entries);
            }
            return Err(ParseError::new(open_line, unterminated_kind));
        } else if range_eq(line, a, b, "}") {
            if block == Block::Nested {
                return Ok(entries);
            }
            return Err(ParseError::new(i + 1, ParseErrorKind::UnexpectedCloseBrace));
        } else {
            match split_entry_at(line, a, b, i) {
                Err(e) => {
                    return Err(e);
                },
                Ok((ke, vs)) => {
                    let key = string_of_range(line, a, ke);
                    if range_eq(line, vs, b, "{") {
                        proof {
                            lemma_block_advances(
                                lv,
                                (i + 1) as nat,
                                (i + 1) as usize,
                                (depth + 1) as nat,
                                Block::Nested,
                            );
                        }
                        match parse_entries(lines, pos, i + 1, depth + 1, Block::Nested) {
                            Err(e) => {
                                return Err(e);
                            },
                            Ok(m) => {
                                proof {
                                    lemma_entries_model(m@);
                                }
                                let ghost mm = entries_model(m@);
                                let e = Entry { key, value: Value::Nested(m) };
                                let ghost ge = e;
                                let ghost before = entries@;
                                entries.push(e);
                                proof {
                                    lemma_entries_model_push(before, ge);
                                }
                                assert(entry_model(ge) == EntryModel {
                                    key: key@,
                                    value: ValueModel::Nested(mm),
                                });
                                assert(parse_entries_from(
                                    lv,
                                    i as nat,
                                    open_line,
                                    depth as nat,
                                    block,
                                    acc,
                                ) == parse_entries_from(
                                    lv,
                                    *pos as nat,
                                    open_line,
                                    depth as nat,
                                    block,
                                    acc.push(entry_model(ge)),
                                ));
                            },
                        }
                    } else {
                        let text = string_of_range(line, vs, b);
                        let e = Entry { key, value: Value::Str(text) };
                        let ghost ge = e;
                        let ghost before = entries@;
                        entries.push(e);
                        proof {
                            lemma_entries_model_push(before, ge);
                        }
                        assert(entry_model(ge) == EntryModel {
                            key: key@,
                            value: ValueModel::Text(text@),
                        });
                        assert(parse_entries_from(lv, i as nat, open_line, depth as nat, block, acc)
                            == parse_entries_from(
                            lv,
                            (i + 1) as nat,
                            open_line,
                            depth as nat,
                            block,
                            acc.push(entry_model(ge)),
                        ));
                    }
                },
            }
        }
    }
    Err(ParseError::new(open_line, unterminated_kind))
}

/// Reads a document from `input`.
///
/// A leading byte order mark is skipped; blank lines and lines starting
/// with `//` are ignored; `key=value` lines at the top level are header
/// lines; `:name` opens a block that `:end` closes. Inside a block, lines
/// are trimmed and `key :value` entries are split at the first `:`; a
/// `key :{` entry opens a map that `}` closes. A line inside a block that,
/// trimmed, starts with `:` and is not the `:end` of a section (a `:name`,
/// a `:end` inside a map, or `:value` with no key) ends it: the error is the
/// unterminated block, on the line where that block was opened. The first
/// error stops the reading.
pub fn parse(input: &str) -> (r: Result<Document, ParseError>)
    ensures
        match parse_spec(input@) {
            Ok(d) => r is Ok && r->Ok_0@ == d,
            Err(e) => r == Err::<Document, ParseError>(e),
        },
{
    broadcast use lemma_meta_model_push, lemma_sections_model_push;

    let chars = chars_of(input);
    let start: usize = if chars.len() > 0 && chars[0] == '\u{feff}' {
        1
    } else {
        0
    };
    assert(chars@.subrange(start as int, chars@.len() as int) =~= strip_bom(input@));
    let lines = split_lines_from(&chars, start);
    let ghost lv = lines_view(lines@);
    let mut doc = Document::new();
    let mut pos: usize = 0;
    while pos < lines.len()
        invariant
            lv == lines_view(lines@),
            pos <= lines.len(),
            parse_spec(input@) == parse_doc_from(lv, pos as nat, doc@.meta, doc@.sections),
        decreases lines.len() - pos,
    {
        let i = pos;
        let line = &lines[i];
        assert(lv[i as int] == line@);
        let (a, b) = trim_bounds(line);
        let ghost t = line@.subrange(a as int, b as int);
        assert(trim(lv[i as int]) == t);
        assert(a < b ==> t[0] == line@[a as int]);
        assert(b - a >= 2 ==> t[1] == line@[a + 1]);
        if a == b || (b - a >= 2 && line[a] == '/' && line[a + 1] == '/') {
            pos = i + 1;
        } else if line[a] == ':' {
            let ns = skip_ws_forward(line, a + 1, b);
            assert(t.drop_first() =~= line@.subrange(a + 1, b as int));
            if ns == b || range_eq(line, ns, b, "end") {
                return Err(ParseError::new(i + 1, ParseErrorKind::UnexpectedLine));
            }
            let name = string_of_range(line, ns, b);
            pos = i + 1;
            proof {
                lemma_block_advances(lv, (i + 1) as nat, (i + 1) as usize, 0, Block::Section);
            }
            match parse_entries(&lines, &mut pos, i + 1, 0, Block::Section) {
                Err(e) => {
                    return Err(e);
                },
                Ok(es) => {
                    let sec = Section { name, entries: es };
                    let ghost gs = sec;
                    let ghost before = doc.sections@;
                    doc.sections.push(sec);
                    proof {
                        crate::model::lemma_sections_model_push(before, gs);
                    }
                },
            }
        } else {
            match find_char(line, a, b, '=') {
                None => {
                    return Err(ParseError::new(i + 1, ParseErrorKind::UnexpectedLine));
                },
                Some(c) => {
                    assert(t.take(c - a) =~= line@.subrange(a as int, c as int));
                    assert(t.skip(c - a + 1) =~= line@.subrange(c + 1, b as int));
                    let ke = skip_ws_backward(line, a, c);
                    let vs = skip_ws_forward(line, c + 1, b);
                    let k = string_of_range(line, a, ke);
                    let v = string_of_range(line, vs, b);
                    let ghost gm = (k, v);
                    let ghost before = doc.meta@;
                    doc.meta.push((k, v));
                    proof {
                        lemma_meta_model_push(before, gm);
                    }
                    pos = i + 1;
                },
            }
        }
    }
    Ok(doc)
}

} // verus!
