//! Writing a document: the text it renders to, the size estimate, and the
//! check that a document can be written and read back unchanged.
use vstd::prelude::*;

use crate::error::InvalidData;
use crate::laws::{law_entries_size, law_estimated_size};
use crate::parse::MAX_DEPTH;
use crate::model::{
    entries_model, entry_model, lemma_entries_model, Document, DocumentModel, Entry, EntryModel,
    SectionModel, Value, ValueModel,
};
use crate::text::{
    byte_len, lemma_byte_len_add, chars_of, contains_ascii_ws, contains_char, has_char, is_ascii_ws, is_trimmed, push_char,
    range_eq, trim,
};

verus! {

broadcast use vstd::seq::group_seq_axioms;

/// The indentation of an entry line at nesting level `depth`: four spaces a level.
pub open spec fn indent(depth: nat) -> Seq<char>
    decreases depth,
{
    if depth == 0 {
        Seq::empty()
    } else {
        indent((depth - 1) as nat) + "    "@
    }
}

/// The text of `lines`, each followed by a newline.
pub open spec fn join_lines(lines: Seq<Seq<char>>) -> Seq<char>
    decreases lines.len(),
{
    if lines.len() == 0 {
        Seq::empty()
    } else {
        join_lines(lines.drop_last()) + lines.last() + seq!['\n']
    }
}

/// The lines (without newlines) that an entry is written as at level `depth`.
pub open spec fn entry_lines(e: EntryModel, depth: nat) -> Seq<Seq<char>>
    decreases e,
{
    match e.value {
        ValueModel::Text(s) => seq![indent(depth) + e.key + " :"@ + s],
        ValueModel::Nested(m) => seq![indent(depth) + e.key + " :"@ + "{"@] + entries_lines(
            m,
            depth + 1,
        ) + seq![indent(depth) + "}"@],
    }
}

/// The lines that a list of entries is written as at level `depth`.
pub open spec fn entries_lines(es: Seq<EntryModel>, depth: nat) -> Seq<Seq<char>>
    decreases es,
{
    if es.len() == 0 {
        Seq::empty()
    } else {
        entry_lines(es[0], depth) + entries_lines(es.drop_first(), depth)
    }
}

/// The lines of a block; `separated` adds a blank line before it.
pub open spec fn section_lines(s: SectionModel, separated: bool) -> Seq<Seq<char>> {
    (if separated {
        seq![Seq::<char>::empty()]
    } else {
        Seq::empty()
    }) + seq![":"@ + s.name] + entries_lines(s.entries, 1) + seq![":end"@]
}

/// The lines of a list of blocks; every block but possibly the first is
/// preceded by a blank line.
pub open spec fn sections_lines(ss: Seq<SectionModel>, separate_first: bool) -> Seq<Seq<char>>
    decreases ss.len(),
{
    if ss.len() == 0 {
        Seq::empty()
    } else {
        section_lines(ss[0], separate_first) + sections_lines(ss.drop_first(), true)
    }
}

/// The header lines `key=value`.
pub open spec fn meta_lines(meta: Seq<(Seq<char>, Seq<char>)>) -> Seq<Seq<char>> {
    Seq::new(meta.len(), |i: int| meta[i].0 + "="@ + meta[i].1)
}

/// All lines of a document: header lines, then the blocks, each block after
/// the first (or after header lines) preceded by a blank line.
pub open spec fn document_lines(d: DocumentModel) -> Seq<Seq<char>> {
    meta_lines(d.meta) + sections_lines(d.sections, d.meta.len() > 0)
}

/// The text a document is written as.
pub open spec fn render_spec(d: DocumentModel) -> Seq<char> {
    join_lines(document_lines(d))
}

/// `s` begins with `//`.
pub open spec fn starts_with_comment(s: Seq<char>) -> bool {
    s.len() >= 2 && s[0] == '/' && s[1] == '/'
}

/// A header key that reads back as itself.
pub open spec fn valid_meta_key(k: Seq<char>) -> bool {
    &&& k.len() > 0
    &&& k[0] != ':'
    &&& !starts_with_comment(k)
    &&& !has_char(k, '=')
    &&& !has_char(k, '\n')
    &&& !has_char(k, '\r')
    &&& trim(k) == k
}

/// A header value that reads back as itself.
pub open spec fn valid_meta_value(v: Seq<char>) -> bool {
    &&& !has_char(v, '\n')
    &&& !has_char(v, '\r')
    &&& trim(v) == v
}

/// A block name that reads back as itself.
pub open spec fn valid_section_name(n: Seq<char>) -> bool {
    &&& n.len() > 0
    &&& n != "end"@
    &&& forall|i: int| 0 <= i < n.len() ==> !is_ascii_ws(#[trigger] n[i])
}

/// An entry key that reads back as itself.
pub open spec fn valid_key(k: Seq<char>) -> bool {
    &&& k.len() > 0
    &&& !starts_with_comment(k)
    &&& !has_char(k, ':')
    &&& !has_char(k, '\n')
    &&& !has_char(k, '\r')
    &&& trim(k) == k
}

/// A text value that reads back as itself.
pub open spec fn valid_text(v: Seq<char>) -> bool {
    &&& !has_char(v, '\n')
    &&& !has_char(v, '\r')
    &&& trim(v) == v
    &&& v != "{"@
}

/// The verdict on a list of entries: the complaint about the first bad key
/// or text, in the order they are written, if any.
pub open spec fn check_entries(es: Seq<EntryModel>) -> Result<(), Seq<char>>
    decreases es,
{
    if es.len() == 0 {
        Ok(())
    } else if !valid_key(es[0].key) {
        Err("bad key"@)
    } else {
        match es[0].value {
            ValueModel::Text(v) => if !valid_text(v) {
                Err("bad value"@)
            } else {
                check_entries(es.drop_first())
            },
            ValueModel::Nested(m) => match check_entries(m) {
                Err(msg) => Err(msg),
                Ok(()) => check_entries(es.drop_first()),
            },
        }
    }
}

/// How deeply maps nest inside a list of entries (0 when none is a map).
pub open spec fn entries_nesting(es: Seq<EntryModel>) -> nat
    decreases es,
{
    if es.len() == 0 {
        0
    } else {
        let a = entry_nesting(es[0]);
        let b = entries_nesting(es.drop_first());
        if a >= b {
            a
        } else {
            b
        }
    }
}

/// How deeply maps nest inside an entry (0 for text).
pub open spec fn entry_nesting(e: EntryModel) -> nat
    decreases e,
{
    match e.value {
        ValueModel::Text(_) => 0,
        ValueModel::Nested(m) => 1 + entries_nesting(m),
    }
}

pub proof fn lemma_nesting_bound(es: Seq<EntryModel>, n: nat)
    ensures
        entries_nesting(es) <= n <==> forall|i: int|
            0 <= i < es.len() ==> entry_nesting(#[trigger] es[i]) <= n,
    decreases es.len(),
{
    if es.len() > 0 {
        let rest = es.drop_first();
        lemma_nesting_bound(rest, n);
        assert forall|i: int| 0 <= i < rest.len() implies #[trigger] rest[i] == es[i + 1] by {}
        if entries_nesting(es) <= n {
            assert forall|i: int| 0 <= i < es.len() implies entry_nesting(#[trigger] es[i]) <= n by {
                if i > 0 {
                    assert(rest[i - 1] == es[i]);
                }
            }
        } else {
            if entry_nesting(es[0]) > n {
            } else {
                let k = choose|k: int| 0 <= k < rest.len() && entry_nesting(#[trigger] rest[k]) > n;
                assert(es[k + 1] == rest[k]);
            }
        }
    }
}

/// The verdict on a list of blocks, in order.
pub open spec fn check_sections(ss: Seq<SectionModel>) -> Result<(), Seq<char>>
    decreases ss.len(),
{
    if ss.len() == 0 {
        Ok(())
    } else if !valid_section_name(ss[0].name) {
        Err("bad section name"@)
    } else {
        match check_entries(ss[0].entries) {
            Err(msg) => Err(msg),
            Ok(()) => if entries_nesting(ss[0].entries) > MAX_DEPTH {
                Err("maps nested too deeply"@)
            } else {
                check_sections(ss.drop_first())
            },
        }
    }
}

/// Every header line reads back as itself.
pub open spec fn meta_ok(meta: Seq<(Seq<char>, Seq<char>)>) -> bool {
    forall|i: int|
        0 <= i < meta.len() ==> valid_meta_key(#[trigger] meta[i].0) && valid_meta_value(meta[i].1)
}

/// `k` starts with a byte order mark, which reading drops from the start
/// of a text.
pub open spec fn starts_with_bom(k: Seq<char>) -> bool {
    k.len() > 0 && k[0] == '\u{feff}'
}

/// The verdict on a document: header lines first, then the blocks.
pub open spec fn check_document(d: DocumentModel) -> Result<(), Seq<char>> {
    if !meta_ok(d.meta) || (d.meta.len() > 0 && starts_with_bom(d.meta[0].0)) {
        Err("bad header line"@)
    } else {
        check_sections(d.sections)
    }
}

/// The number of bytes that a list of entries at level `depth` is written as.
pub open spec fn entries_size(es: Seq<EntryModel>, depth: nat) -> nat
    decreases es,
{
    if es.len() == 0 {
        0
    } else {
        entry_size(es[0], depth) + entries_size(es.drop_first(), depth)
    }
}

/// The number of bytes that an entry at level `depth` is written as.
pub open spec fn entry_size(e: EntryModel, depth: nat) -> nat
    decreases e,
{
    4 * depth + byte_len(e.key) + 2 + match e.value {
        ValueModel::Text(s) => byte_len(s) + 1,
        ValueModel::Nested(m) => 2 + entries_size(m, depth + 1) + 4 * depth + 2,
    }
}

/// The bytes of the header lines.
pub open spec fn meta_size(meta: Seq<(Seq<char>, Seq<char>)>) -> nat
    decreases meta.len(),
{
    if meta.len() == 0 {
        0
    } else {
        meta_size(meta.drop_last()) + byte_len(meta.last().0) + byte_len(meta.last().1) + 2
    }
}

/// The bytes of the blocks, counting a separating blank line for each.
pub open spec fn sections_size(ss: Seq<SectionModel>) -> nat
    decreases ss.len(),
{
    if ss.len() == 0 {
        0
    } else {
        sections_size(ss.drop_last()) + byte_len(ss.last().name) + 2 + 5 + 1 + entries_size(
            ss.last().entries,
            1,
        )
    }
}

/// The size estimate of a document in bytes.
pub open spec fn estimated_size(d: DocumentModel) -> nat {
    meta_size(d.meta) + sections_size(d.sections)
}

pub proof fn lemma_meta_size_prefix(meta: Seq<(Seq<char>, Seq<char>)>, k: int)
    requires
        0 <= k <= meta.len(),
    ensures
        meta_size(meta.take(k)) <= meta_size(meta),
    decreases meta.len(),
{
    if k < meta.len() {
        assert(meta.drop_last().take(k) =~= meta.take(k));
        lemma_meta_size_prefix(meta.drop_last(), k);
    } else {
        assert(meta.take(k) =~= meta);
    }
}

pub proof fn lemma_sections_size_prefix(ss: Seq<SectionModel>, k: int)
    requires
        0 <= k <= ss.len(),
    ensures
        sections_size(ss.take(k)) <= sections_size(ss),
    decreases ss.len(),
{
    if k < ss.len() {
        assert(ss.drop_last().take(k) =~= ss.take(k));
        lemma_sections_size_prefix(ss.drop_last(), k);
    } else {
        assert(ss.take(k) =~= ss);
    }
}

pub proof fn lemma_join_lines_add(a: Seq<Seq<char>>, b: Seq<Seq<char>>)
    ensures
        join_lines(a + b) == join_lines(a) + join_lines(b),
    decreases b.len(),
{
    if b.len() == 0 {
        assert(a + b =~= a);
        assert(join_lines(a) + join_lines(b) =~= join_lines(a));
    } else {
        assert((a + b).drop_last() =~= a + b.drop_last());
        assert((a + b).last() == b.last());
        lemma_join_lines_add(a, b.drop_last());
        assert(join_lines(a + b) =~= join_lines(a) + join_lines(b));
    }
}

pub proof fn lemma_join_lines_one(l: Seq<char>)
    ensures
        join_lines(seq![l]) == l + seq!['\n'],
{
    assert(seq![l].drop_last() =~= Seq::<Seq<char>>::empty());
    assert(join_lines(Seq::<Seq<char>>::empty()) == Seq::<char>::empty());
    assert(Seq::<char>::empty() + l + seq!['\n'] =~= l + seq!['\n']);
}

pub proof fn lemma_entries_lines_add(a: Seq<EntryModel>, b: Seq<EntryModel>, depth: nat)
    ensures
        entries_lines(a + b, depth) == entries_lines(a, depth) + entries_lines(b, depth),
    decreases a.len(),
{
    if a.len() == 0 {
        assert(a + b =~= b);
        assert(entries_lines(a, depth) + entries_lines(b, depth) =~= entries_lines(b, depth));
    } else {
        assert((a + b).drop_first() =~= a.drop_first() + b);
        assert((a + b)[0] == a[0]);
        lemma_entries_lines_add(a.drop_first(), b, depth);
        assert(entries_lines(a + b, depth) =~= entries_lines(a, depth) + entries_lines(b, depth));
    }
}

pub proof fn lemma_entries_lines_one(e: EntryModel, depth: nat)
    ensures
        entries_lines(seq![e], depth) == entry_lines(e, depth),
{
    assert(seq![e].drop_first() =~= Seq::<EntryModel>::empty());
    assert(entries_lines(Seq::<EntryModel>::empty(), depth) == Seq::<Seq<char>>::empty());
    assert(entry_lines(e, depth) + Seq::<Seq<char>>::empty() =~= entry_lines(e, depth));
}

pub proof fn lemma_sections_lines_add(a: Seq<SectionModel>, b: Seq<SectionModel>, sep: bool)
    ensures
        sections_lines(a + b, sep) == sections_lines(a, sep) + sections_lines(
            b,
            sep || a.len() > 0,
        ),
    decreases a.len(),
{
    if a.len() == 0 {
        assert(a + b =~= b);
        assert(sections_lines(a, sep) + sections_lines(b, sep) =~= sections_lines(b, sep));
    } else {
        assert((a + b).drop_first() =~= a.drop_first() + b);
        assert((a + b)[0] == a[0]);
        lemma_sections_lines_add(a.drop_first(), b, true);
        assert(sections_lines(a + b, sep) =~= sections_lines(a, sep) + sections_lines(b, true));
    }
}

pub proof fn lemma_sections_lines_one(s: SectionModel, sep: bool)
    ensures
        sections_lines(seq![s], sep) == section_lines(s, sep),
{
    assert(seq![s].drop_first() =~= Seq::<SectionModel>::empty());
    assert(sections_lines(Seq::<SectionModel>::empty(), true) == Seq::<Seq<char>>::empty());
    assert(section_lines(s, sep) + Seq::<Seq<char>>::empty() =~= section_lines(s, sep));
}

/// Writes `entries` at level `depth`, whose indentation is `pad`.
fn write_entries(out: &mut String, entries: &Vec<Entry>, pad: &String, Ghost(depth): Ghost<nat>)
    requires
        pad@ == indent(depth),
    ensures
        final(out)@ == old(out)@ + join_lines(entries_lines(entries_model(entries@), depth)),
        byte_len(final(out)@) == byte_len(old(out)@) + entries_size(entries_model(entries@), depth),
    decreases entries@,
{
    let ghost es = entries_model(entries@);
    proof {
        lemma_entries_model(entries@);
        assert(es.take(0) =~= Seq::<EntryModel>::empty());
        assert(entries_lines(Seq::<EntryModel>::empty(), depth) == Seq::<Seq<char>>::empty());
        assert(join_lines(Seq::<Seq<char>>::empty()) == Seq::<char>::empty());
        assert(old(out)@ + Seq::<char>::empty() =~= old(out)@);
    }
    let mut i: usize = 0;
    while i < entries.len()
        invariant
            0 <= i <= entries.len(),
            pad@ == indent(depth),
            es == entries_model(entries@),
            es.len() == entries@.len(),
            forall|j: int| 0 <= j < entries@.len() ==> es[j] == entry_model(entries@[j]),
            out@ == old(out)@ + join_lines(entries_lines(es.take(i as int), depth)),
        decreases entries.len() - i,
    {
        let e = &entries[i];
        let ghost before = out@;
        let ghost em = es[i as int];
        assert(em == entry_model(*e));
        out.append(pad.as_str());
        out.append(e.key.as_str());
        out.append(" :");
        match &e.value {
            Value::Str(s) => {
                out.append(s.as_str());
                push_char(out, '\n');
                proof {
                    let l = indent(depth) + em.key + " :"@ + s@;
                    assert(entry_lines(em, depth) == seq![l]);
                    lemma_join_lines_one(l);
                    assert(out@ =~= before + join_lines(entry_lines(em, depth)));
                }
            },
            Value::Nested(m) => {
                out.append("{");
                push_char(out, '\n');
                let mut inner = pad.clone();
                inner.append("    ");
                let ghost mid = out@;
                assert(decreases_to!(entries@ => m@));
                write_entries(out, m, &inner, Ghost(depth + 1));
                let ghost after_inner = out@;
                out.append(pad.as_str());
                out.append("}");
                push_char(out, '\n');
                proof {
                    let mm = entries_model(m@);
                    let l1 = indent(depth) + em.key + " :"@ + "{"@;
                    let l2 = indent(depth) + "}"@;
                    let inner_lines = entries_lines(mm, depth + 1);
                    assert(entry_lines(em, depth) == seq![l1] + inner_lines + seq![l2]);
                    lemma_join_lines_add(seq![l1] + inner_lines, seq![l2]);
                    lemma_join_lines_add(seq![l1], inner_lines);
                    lemma_join_lines_one(l1);
                    lemma_join_lines_one(l2);
                    assert(mid =~= before + (l1 + seq!['\n']));
                    assert(out@ =~= before + join_lines(entry_lines(em, depth)));
                }
            },
        }
        proof {
            assert(es.take(i + 1) =~= es.take(i as int) + seq![em]);
            lemma_entries_lines_add(es.take(i as int), seq![em], depth);
            lemma_entries_lines_one(em, depth);
            lemma_join_lines_add(entries_lines(es.take(i as int), depth), entry_lines(em, depth));
        }
        i = i + 1;
    }
    assert(es.take(entries.len() as int) =~= es);
    proof {
        law_entries_size(es, depth);
        lemma_byte_len_add(old(out)@, join_lines(entries_lines(es, depth)));
    }
}

/// Whether the maps in `entries` nest at most `limit` deep.
fn nesting_within(entries: &Vec<Entry>, limit: usize) -> (b: bool)
    ensures
        b == (entries_nesting(entries_model(entries@)) <= limit),
    decreases entries@,
{
    let ghost es = entries_model(entries@);
    proof {
        lemma_entries_model(entries@);
        lemma_nesting_bound(es, limit as nat);
    }
    let mut i: usize = 0;
    while i < entries.len()
        invariant
            0 <= i <= entries.len(),
            es == entries_model(entries@),
            es.len() == entries@.len(),
            forall|j: int| 0 <= j < entries@.len() ==> es[j] == entry_model(entries@[j]),
            forall|j: int| 0 <= j < i ==> entry_nesting(#[trigger] es[j]) <= limit,
            entries_nesting(es) <= limit <==> forall|j: int|
                0 <= j < es.len() ==> entry_nesting(#[trigger] es[j]) <= limit,
        decreases entries.len() - i,
    {
        let e = &entries[i];
        assert(es[i as int] == entry_model(*e));
        match &e.value {
            Value::Str(_) => {},
            Value::Nested(m) => {
                if limit == 0 {
                    return false;
                }
                assert(decreases_to!(entries@ => m@));
                if !nesting_within(m, limit - 1) {
                    return false;
                }
            },
        }
        i = i + 1;
    }
    true
}

/// Checks `entries` (and the maps inside them) in the order they are written.
fn validate_entries(entries: &Vec<Entry>) -> (r: Result<(), InvalidData>)
    ensures
        match check_entries(entries_model(entries@)) {
            Ok(()) => r is Ok,
            Err(msg) => r matches Err(e) && e.0@ == msg,
        },
    decreases entries@,
{
    let ghost es = entries_model(entries@);
    proof {
        lemma_entries_model(entries@);
        assert(es.skip(0) =~= es);
    }
    let mut i: usize = 0;
    while i < entries.len()
        invariant
            0 <= i <= entries.len(),
            es == entries_model(entries@),
            es.len() == entries@.len(),
            forall|j: int| 0 <= j < entries@.len() ==> es[j] == entry_model(entries@[j]),
            check_entries(es) == check_entries(es.skip(i as int)),
        decreases entries.len() - i,
    {
        let e = &entries[i];
        let ghost em = es[i as int];
        assert(em == entry_model(*e));
        let ghost rest = es.skip(i as int);
        assert(rest[0] == em);
        assert(rest.drop_first() =~= es.skip(i + 1));
        let k = chars_of(e.key.as_str());
        if k.len() == 0 || (k.len() >= 2 && k[0] == '/' && k[1] == '/') || contains_char(&k, ':')
            || contains_char(&k, '\n') || contains_char(&k, '\r') || !is_trimmed(&k) {
            return Err(InvalidData("bad key"));
        }
        match &e.value {
            Value::Str(s) => {
                let v = chars_of(s.as_str());
                if contains_char(&v, '\n') || contains_char(&v, '\r') || !is_trimmed(&v)
                    || range_eq(&v, 0, v.len(), "{") {
                    assert(v@.subrange(0, v@.len() as int) =~= v@);
                    return Err(InvalidData("bad value"));
                }
                assert(v@.subrange(0, v@.len() as int) =~= v@);
            },
            Value::Nested(m) => {
                assert(decreases_to!(entries@ => m@));
                match validate_entries(m) {
                    Err(err) => {
                        return Err(err);
                    },
                    Ok(()) => {},
                }
            },
        }
        i = i + 1;
    }
    assert(es.skip(entries.len() as int) =~= Seq::<EntryModel>::empty());
    Ok(())
}

/// The number of bytes `entries` are written as at level `depth`.
fn entries_len(entries: &Vec<Entry>, depth: usize) -> (n: usize)
    requires
        4 * depth + entries_size(entries_model(entries@), depth as nat) <= usize::MAX,
    ensures
        n == entries_size(entries_model(entries@), depth as nat),
        n == byte_len(join_lines(entries_lines(entries_model(entries@), depth as nat))),
    decreases entries@,
{
    let ghost es = entries_model(entries@);
    let indent = depth * 4;
    proof {
        lemma_entries_model(entries@);
        assert(es.skip(0) =~= es);
    }
    let mut n: usize = 0;
    let mut i: usize = 0;
    while i < entries.len()
        invariant
            0 <= i <= entries.len(),
            indent == 4 * depth,
            es == entries_model(entries@),
            es.len() == entries@.len(),
            forall|j: int| 0 <= j < entries@.len() ==> es[j] == entry_model(entries@[j]),
            n + entries_size(es.skip(i as int), depth as nat) == entries_size(es, depth as nat),
            4 * depth + entries_size(es, depth as nat) <= usize::MAX,
        decreases entries.len() - i,
    {
        let e = &entries[i];
        let ghost em = es[i as int];
        assert(em == entry_model(*e));
        let ghost rest = es.skip(i as int);
        assert(rest[0] == em);
        assert(rest.drop_first() =~= es.skip(i + 1));
        assert(entries_size(rest, depth as nat) == entry_size(em, depth as nat) + entries_size(
            es.skip(i + 1),
            depth as nat,
        ));
        n = n + indent + e.key.as_str().len() + 2;
        match &e.value {
            Value::Str(s) => {
                n = n + s.as_str().len() + 1;
            },
            Value::Nested(m) => {
                assert(decreases_to!(entries@ => m@));
                let inner = entries_len(m, depth + 1);
                n = n + 2 + inner + indent + 2;
            },
        }
        i = i + 1;
    }
    assert(es.skip(entries.len() as int) =~= Seq::<EntryModel>::empty());
    proof {
        law_entries_size(es, depth as nat);
    }
    n
}

impl Document {
    /// Appends the text of this document to `out`.
    ///
    /// Header lines come first as `key=value`; each block is written as
    /// `:name`, its entries as `key :value` indented four spaces a level
    /// (a nested map as `key :{`, its entries, and `}`), and `:end`; a blank
    /// line precedes every block after the first, and the first too when
    /// there are header lines.
    pub fn render_into(&self, out: &mut String)
        ensures
            final(out)@ == old(out)@ + render_spec(self@),
    {
        let ghost d = self@;
        let mut i: usize = 0;
        proof {
            assert(meta_lines(d.meta.take(0)) =~= Seq::<Seq<char>>::empty());
            assert(join_lines(Seq::<Seq<char>>::empty()) == Seq::<char>::empty());
            assert(old(out)@ + Seq::<char>::empty() =~= old(out)@);
        }
        while i < self.meta.len()
            invariant
                0 <= i <= self.meta.len(),
                d == self@,
                out@ == old(out)@ + join_lines(meta_lines(d.meta.take(i as int))),
            decreases self.meta.len() - i,
        {
            let ghost before = out@;
            let k = &self.meta[i].0;
            let v = &self.meta[i].1;
            out.append(k.as_str());
            out.append("=");
            out.append(v.as_str());
            push_char(out, '\n');
            proof {
                let l = k@ + "="@ + v@;
                assert(d.meta[i as int] == (k@, v@));
                assert(meta_lines(d.meta.take(i + 1)) =~= meta_lines(d.meta.take(i as int)).push(l));
                assert(meta_lines(d.meta.take(i + 1)).drop_last() =~= meta_lines(d.meta.take(i as int)));
                assert(out@ =~= before + l + seq!['\n']);
            }
            i = i + 1;
        }
        assert(d.meta.take(self.meta.len() as int) =~= d.meta);
        let ghost after_meta = out@;
        let pad = "    ".to_owned();
        proof {
            assert(indent(1) == indent(0) + "    "@);
            assert(indent(0) + "    "@ =~= "    "@);
        }
        let mut j: usize = 0;
        let ghost sep = d.meta.len() > 0;
        proof {
            assert(d.sections.take(0) =~= Seq::<SectionModel>::empty());
            assert(sections_lines(Seq::<SectionModel>::empty(), sep) == Seq::<Seq<char>>::empty());
            assert(after_meta + Seq::<char>::empty() =~= after_meta);
        }
        while j < self.sections.len()
            invariant
                0 <= j <= self.sections.len(),
                d == self@,
                pad@ == indent(1),
                sep == (d.meta.len() > 0),
                after_meta == old(out)@ + join_lines(meta_lines(d.meta)),
                out@ == after_meta + join_lines(sections_lines(d.sections.take(j as int), sep)),
            decreases self.sections.len() - j,
        {
            let ghost before = out@;
            let section = &self.sections[j];
            let ghost sm = d.sections[j as int];
            assert(sm == section@);
            let separated = j > 0 || self.meta.len() > 0;
            if separated {
                push_char(out, '\n');
            }
            let ghost after_sep = out@;
            out.append(":");
            out.append(section.name.as_str());
            push_char(out, '\n');
            let ghost after_name = out@;
            write_entries(out, &section.entries, &pad, Ghost(1));
            let ghost after_entries = out@;
            out.append(":end");
            push_char(out, '\n');
            proof {
                let head: Seq<Seq<char>> = if separated {
                    seq![Seq::<char>::empty()]
                } else {
                    Seq::empty()
                };
                let l1 = ":"@ + sm.name;
                let body = entries_lines(sm.entries, 1);
                let l2 = ":end"@;
                assert(section_lines(sm, separated) == head + seq![l1] + body + seq![l2]);
                lemma_join_lines_add(head + seq![l1] + body, seq![l2]);
                lemma_join_lines_add(head + seq![l1], body);
                lemma_join_lines_add(head, seq![l1]);
                lemma_join_lines_one(l1);
                lemma_join_lines_one(l2);
                if separated {
                    lemma_join_lines_one(Seq::<char>::empty());
                    assert(Seq::<char>::empty() + seq!['\n'] =~= seq!['\n']);
                    assert(after_sep =~= before + join_lines(head));
                } else {
                    assert(join_lines(head) == Seq::<char>::empty());
                    assert(after_sep =~= before + join_lines(head));
                }
                assert(after_name =~= before + join_lines(head + seq![l1]));
                assert(out@ =~= before + join_lines(section_lines(sm, separated)));
                assert(d.sections.take(j + 1) =~= d.sections.take(j as int) + seq![sm]);
                lemma_sections_lines_add(d.sections.take(j as int), seq![sm], sep);
                lemma_sections_lines_one(sm, sep || j > 0);
                lemma_join_lines_add(
                    sections_lines(d.sections.take(j as int), sep),
                    section_lines(sm, separated),
                );
            }
            j = j + 1;
        }
        proof {
            assert(d.sections.take(self.sections.len() as int) =~= d.sections);
            lemma_join_lines_add(meta_lines(d.meta), sections_lines(d.sections, sep));
        }
    }

    /// Checks that this document can be written and read back unchanged:
    /// header keys non-empty, not starting with `:` or `//`, without `=`,
    /// newlines or surrounding whitespace; header values without newlines
    /// or surrounding whitespace; block names non-empty, not `end`, without
    /// whitespace; entry keys non-empty, not starting with `//`, without `:`,
    /// newlines or surrounding whitespace; text values without newlines or
    /// surrounding whitespace and not exactly `{`; the first header key not
    /// starting with a byte order mark (reading drops one at the start of
    /// the text); maps nested no deeper than `MAX_DEPTH` in each block. The
    /// first offence, in written order, is reported.
    pub fn validate(&self) -> (r: Result<(), InvalidData>)
        ensures
            match check_document(self@) {
                Ok(()) => r is Ok,
                Err(msg) => r matches Err(e) && e.0@ == msg,
            },
    {
        let ghost d = self@;
        let mut i: usize = 0;
        while i < self.meta.len()
            invariant
                0 <= i <= self.meta.len(),
                d == self@,
                meta_ok(d.meta.take(i as int)),
            decreases self.meta.len() - i,
        {
            let k = chars_of(self.meta[i].0.as_str());
            let v = chars_of(self.meta[i].1.as_str());
            assert(d.meta[i as int] == (k@, v@));
            if k.len() == 0 || k[0] == ':' || (k.len() >= 2 && k[0] == '/' && k[1] == '/')
                || contains_char(&k, '=') || contains_char(&k, '\n') || contains_char(&k, '\r')
                || !is_trimmed(&k) || contains_char(&v, '\n') || contains_char(&v, '\r')
                || !is_trimmed(&v) {
                assert(!(valid_meta_key(d.meta[i as int].0) && valid_meta_value(d.meta[i as int].1)));
                assert(!meta_ok(d.meta));
                return Err(InvalidData("bad header line"));
            }
            assert(meta_ok(d.meta.take(i + 1))) by {
                assert forall|j: int| 0 <= j < i + 1 implies valid_meta_key(
                    #[trigger] d.meta.take(i + 1)[j].0,
                ) && valid_meta_value(d.meta.take(i + 1)[j].1) by {
                    if j < i {
                        assert(d.meta.take(i + 1)[j] == d.meta.take(i as int)[j]);
                    }
                }
            }
            i = i + 1;
        }
        assert(d.meta.take(self.meta.len() as int) =~= d.meta);
        if self.meta.len() > 0 {
            let k0 = chars_of(self.meta[0].0.as_str());
            if k0.len() > 0 && k0[0] == '\u{feff}' {
                assert(d.meta[0].0 == k0@);
                return Err(InvalidData("bad header line"));
            }
            assert(d.meta[0].0 == k0@);
        }
        let ghost ss = d.sections;
        assert(ss.skip(0) =~= ss);
        let mut j: usize = 0;
        while j < self.sections.len()
            invariant
                0 <= j <= self.sections.len(),
                d == self@,
                ss == d.sections,
                check_document(d) == check_sections(ss.skip(j as int)),
            decreases self.sections.len() - j,
        {
            let section = &self.sections[j];
            assert(ss[j as int] == section@);
            let ghost rest = ss.skip(j as int);
            assert(rest[0] == section@);
            assert(rest.drop_first() =~= ss.skip(j + 1));
            let n = chars_of(section.name.as_str());
            if n.len() == 0 || range_eq(&n, 0, n.len(), "end") || contains_ascii_ws(&n) {
                assert(n@.subrange(0, n@.len() as int) =~= n@);
                return Err(InvalidData("bad section name"));
            }
            assert(n@.subrange(0, n@.len() as int) =~= n@);
            match validate_entries(&section.entries) {
                Err(err) => {
                    return Err(err);
                },
                Ok(()) => {},
            }
            if !nesting_within(&section.entries, MAX_DEPTH) {
                return Err(InvalidData("maps nested too deeply"));
            }
            j = j + 1;
        }
        assert(ss.skip(self.sections.len() as int) =~= Seq::<SectionModel>::empty());
        Ok(())
    }

    /// The size of the text of this document in bytes, used to pre-size
    /// buffers; it counts a blank line before every block, so it exceeds
    /// the exact size by one when there are blocks but no header lines.
    pub fn estimated_len(&self) -> (n: usize)
        requires
            estimated_size(self@) <= usize::MAX,
        ensures
            n == estimated_size(self@),
            n == byte_len(render_spec(self@)) + if self@.meta.len() == 0 && self@.sections.len()
                > 0 {
                1nat
            } else {
                0nat
            },
    {
        let ghost d = self@;
        proof {
            law_estimated_size(d);
        }
        let mut n: usize = 0;
        let mut i: usize = 0;
        while i < self.meta.len()
            invariant
                0 <= i <= self.meta.len(),
                d == self@,
                n == meta_size(d.meta.take(i as int)),
                estimated_size(d) <= usize::MAX,
            decreases self.meta.len() - i,
        {
            let k = &self.meta[i].0;
            let v = &self.meta[i].1;
            assert(d.meta[i as int] == (k@, v@));
            assert(d.meta.take(i + 1).drop_last() =~= d.meta.take(i as int));
            proof {
                lemma_meta_size_prefix(d.meta, i + 1);
            }
            n = n + k.as_str().len() + v.as_str().len() + 2;
            i = i + 1;
        }
        assert(d.meta.take(self.meta.len() as int) =~= d.meta);
        let mut j: usize = 0;
        while j < self.sections.len()
            invariant
                0 <= j <= self.sections.len(),
                d == self@,
                n == meta_size(d.meta) + sections_size(d.sections.take(j as int)),
                estimated_size(d) <= usize::MAX,
            decreases self.sections.len() - j,
        {
            let section = &self.sections[j];
            assert(d.sections[j as int] == section@);
            assert(d.sections.take(j + 1).drop_last() =~= d.sections.take(j as int));
            proof {
                lemma_sections_size_prefix(d.sections, j + 1);
            }
            n = n + section.name.as_str().len() + 2 + 5 + 1;
            let inner = entries_len(&section.entries, 1);
            n = n + inner;
            j = j + 1;
        }
        assert(d.sections.take(self.sections.len() as int) =~= d.sections);
        n
    }

    /// The text of this document (see [`Document::render_into`]).
    pub fn render(&self) -> (s: String)
        ensures
            s@ == render_spec(self@),
    {
        let mut out = String::new();
        self.render_into(&mut out);
        assert(Seq::<char>::empty() + render_spec(self@) =~= render_spec(self@));
        out
    }
}

} // verus!
