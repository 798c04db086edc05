//! The mathematical model of the format: views of entries and sections, the
//! rendering functions and the line-by-line parser, all over `Seq<char>`.

use crate::conf::{ParseError, ParseErrorKind};
use crate::text::{find_eq, spec_lines, trim};
use vstd::prelude::*;

verus! {

/// View of an `Entry`: its key and value as character sequences.
#[verifier::ext_equal]
pub struct EntryV {
    pub key: Seq<char>,
    pub value: Seq<char>,
}

/// View of a `Section`: its name and its entries, in order.
#[verifier::ext_equal]
pub struct SectionV {
    pub name: Seq<char>,
    pub entries: Seq<EntryV>,
}

/// `"<key> = <value>"`.
pub open spec fn render_entry(e: EntryV) -> Seq<char> {
    e.key + seq![' ', '=', ' '] + e.value
}

/// One `"\n<entry>"` segment per entry, in order.
pub open spec fn render_entry_lines(es: Seq<EntryV>) -> Seq<char>
    decreases es.len(),
{
    if es.len() == 0 {
        Seq::empty()
    } else {
        seq!['\n'] + render_entry(es[0]) + render_entry_lines(es.drop_first())
    }
}

/// `"[<name>]"`, one line per entry, and a final newline.
pub open spec fn render_section(s: SectionV) -> Seq<char> {
    seq!['['] + s.name + seq![']'] + render_entry_lines(s.entries) + seq!['\n']
}

/// One `"\n<section>"` segment per section: the blank joining line, then the
/// section's own text.
pub open spec fn render_tail(ss: Seq<SectionV>) -> Seq<char>
    decreases ss.len(),
{
    if ss.len() == 0 {
        Seq::empty()
    } else {
        seq!['\n'] + render_section(ss[0]) + render_tail(ss.drop_first())
    }
}

/// The whole configuration: sections in order, a blank line between
/// consecutive sections, empty for zero sections.
pub open spec fn render_sections(ss: Seq<SectionV>) -> Seq<char> {
    if ss.len() == 0 {
        Seq::empty()
    } else {
        render_section(ss[0]) + render_tail(ss.drop_first())
    }
}

/// The value of the first entry whose key is `key`, if any.
pub open spec fn get_first(es: Seq<EntryV>, key: Seq<char>) -> Option<Seq<char>>
    decreases es.len(),
{
    if es.len() == 0 {
        None
    } else if es[0].key == key {
        Some(es[0].value)
    } else {
        get_first(es.drop_first(), key)
    }
}

pub proof fn lemma_get_first_found(es: Seq<EntryV>, key: Seq<char>, i: int)
    requires
        0 <= i < es.len(),
        es[i].key == key,
        forall|j: int| 0 <= j < i ==> es[j].key != key,
    ensures
        get_first(es, key) == Some(es[i].value),
    decreases i,
{
    if i == 0 {
    } else {
        assert(es[0].key != key);
        assert forall|j: int| 0 <= j < i - 1 implies es.drop_first()[j].key != key by {
            assert(es[j + 1].key != key);
        }
        lemma_get_first_found(es.drop_first(), key, i - 1);
    }
}

pub proof fn lemma_get_first_none(es: Seq<EntryV>, key: Seq<char>)
    requires
        forall|j: int| 0 <= j < es.len() ==> es[j].key != key,
    ensures
        get_first(es, key) is None,
    decreases es.len(),
{
    if es.len() == 0 {
    } else {
        assert(es[0].key != key);
        assert forall|j: int| 0 <= j < es.len() - 1 implies es.drop_first()[j].key != key by {
            assert(es[j + 1].key != key);
        }
        lemma_get_first_none(es.drop_first(), key);
    }
}

/// Appends an entry to the last section.
pub open spec fn push_entry(acc: Seq<SectionV>, e: EntryV) -> Seq<SectionV> {
    acc.update(
        acc.len() - 1,
        SectionV { name: acc.last().name, entries: acc.last().entries.push(e) },
    )
}

/// Parses the given lines, numbered from `lineno`, into the sections already
/// accumulated in `acc`. Each line is trimmed and then classified: blank
/// lines are skipped; a line starting with `'['` must end with `']'` and
/// opens a section named by everything strictly between them; any other line
/// must contain `'='` and must follow some section header, and adds the entry
/// that splits at the first `'='`, key and value trimmed.
pub open spec fn parse_from(lines: Seq<Seq<char>>, lineno: int, acc: Seq<SectionV>) -> Result<
    Seq<SectionV>,
    ParseError,
>
    decreases lines.len(),
{
    if lines.len() == 0 {
        Ok(acc)
    } else {
        let t = trim(lines[0]);
        if t.len() == 0 {
            parse_from(lines.drop_first(), lineno + 1, acc)
        } else if t[0] == '[' {
            if t[t.len() - 1] == ']' {
                parse_from(
                    lines.drop_first(),
                    lineno + 1,
                    acc.push(SectionV { name: t.subrange(1, t.len() - 1), entries: Seq::empty() }),
                )
            } else {
                Err(ParseError { line: lineno as usize, kind: ParseErrorKind::MissingClosingBracket })
            }
        } else {
            let eq = find_eq(t);
            if eq == t.len() {
                Err(ParseError { line: lineno as usize, kind: ParseErrorKind::MissingEquals })
            } else if acc.len() == 0 {
                Err(ParseError { line: lineno as usize, kind: ParseErrorKind::EntryOutsideOfSection })
            } else {
                parse_from(
                    lines.drop_first(),
                    lineno + 1,
                    push_entry(acc, EntryV { key: trim(t.take(eq)), value: trim(t.skip(eq + 1)) }),
                )
            }
        }
    }
}

/// The meaning of a whole text: its lines parsed from line 1 with no section
/// yet open.
pub open spec fn parse_text(s: Seq<char>) -> Result<Seq<SectionV>, ParseError> {
    parse_from(spec_lines(s), 1, Seq::empty())
}

} // verus!
