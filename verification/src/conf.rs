//! The configuration data types and their operations: construction, lookup,
//! parsing and rendering.

use crate::model::{
    get_first, lemma_get_first_found, lemma_get_first_none, parse_from, parse_text, push_entry,
    render_entry, render_entry_lines, render_section, render_sections, render_tail, EntryV,
    SectionV,
};
use crate::text::{
    find_eq, find_first_eq, lemma_lines_step, line_end, spec_lines, trim, trimmed_of,
};
use vstd::prelude::*;
use vstd::string::{StrSliceExecFns, StringExecFns};

verus! {

/// The specific type of parse error.
#[derive(Clone, Debug, PartialEq, Eq, Structural)]
pub enum ParseErrorKind {
    /// An entry was found prior to any section being declared.
    EntryOutsideOfSection,
    /// A section was declared, but the closing bracket is missing.
    MissingClosingBracket,
    /// An entry is missing an equals (`=`).
    MissingEquals,
}

/// Error produced from `Conf::parse_str`.
#[derive(Clone, Debug, PartialEq, Eq, Structural)]
pub struct ParseError {
    /// Line where the error occurred (starting from 1).
    pub line: usize,
    /// Type of error.
    pub kind: ParseErrorKind,
}

impl ParseError {
    /// Create a new `ParseError`.
    pub fn new(line: usize, kind: ParseErrorKind) -> (e: ParseError)
        ensures
            e.line == line,
            e.kind == kind,
    {
        ParseError { line, kind }
    }
}

/// A single entry within the section.
#[derive(Clone, Debug, Eq)]
pub struct Entry {
    /// Name of the entry.
    pub key: String,
    /// Value of the entry.
    pub value: String,
}

impl View for Entry {
    type V = EntryV;

    open spec fn view(&self) -> EntryV {
        EntryV { key: self.key@, value: self.value@ }
    }
}

impl PartialEq for Entry {
    fn eq(&self, other: &Entry) -> (r: bool) {
        let r = self.key == other.key && self.value == other.value;
        proof {
            if self.key@ == other.key@ && self.value@ == other.value@ {
                assert(self@ =~= other@);
            }
        }
        r
    }
}

impl vstd::std_specs::cmp::PartialEqSpecImpl for Entry {
    open spec fn obeys_eq_spec() -> bool {
        true
    }

    open spec fn eq_spec(&self, other: &Entry) -> bool {
        self@ == other@
    }
}

impl Entry {
    pub fn new(key: &str, value: &str) -> (e: Entry)
        ensures
            e@ == (EntryV { key: key@, value: value@ }),
    {
        let e = Entry { key: key.to_owned(), value: value.to_owned() };
        proof {
            assert(e@ =~= (EntryV { key: key@, value: value@ }));
        }
        e
    }

    /// Renders the entry as `"<key> = <value>"`.
    pub fn to_string(&self) -> (r: String)
        ensures
            r@ == render_entry(self@),
    {
        let mut r = String::new();
        r.append(self.key.as_str());
        r.append(" = ");
        r.append(self.value.as_str());
        proof {
            reveal_strlit(" = ");
            assert(" = "@ =~= seq![' ', '=', ' ']);
            assert(r@ =~= render_entry(self@));
        }
        r
    }
}

/// A named section within the config.
#[derive(Clone, Debug, Eq)]
pub struct Section {
    /// Name of the section.
    pub name: String,
    /// Entries within the section.
    pub entries: Vec<Entry>,
}

impl View for Section {
    type V = SectionV;

    open spec fn view(&self) -> SectionV {
        SectionV { name: self.name@, entries: self.entries@.map_values(|e: Entry| e@) }
    }
}

impl PartialEq for Section {
    #[verifier::loop_isolation(false)]
    fn eq(&self, other: &Section) -> (r: bool) {
        if !(self.name == other.name) {
            proof {
                assert(self@.name != other@.name);
            }
            return false;
        }
        if self.entries.len() != other.entries.len() {
            proof {
                assert(self@.entries.len() != other@.entries.len());
            }
            return false;
        }
        let mut i: usize = 0;
        while i < self.entries.len()
            invariant
                0 <= i <= self.entries.len(),
                forall|j: int| 0 <= j < i ==> self@.entries[j] == other@.entries[j],
            decreases self.entries.len() - i,
        {
            if !(self.entries[i] == other.entries[i]) {
                proof {
                    assert(self@.entries[i as int] == self.entries@[i as int]@);
                    assert(other@.entries[i as int] == other.entries@[i as int]@);
                    assert(self@.entries[i as int] != other@.entries[i as int]);
                }
                return false;
            }
            i += 1;
        }
        proof {
            assert(self@.entries =~= other@.entries);
            assert(self@ =~= other@);
        }
        true
    }
}

impl vstd::std_specs::cmp::PartialEqSpecImpl for Section {
    open spec fn obeys_eq_spec() -> bool {
        true
    }

    open spec fn eq_spec(&self, other: &Section) -> bool {
        self@ == other@
    }
}

impl Section {
    pub fn new(name: &str) -> (s: Section)
        ensures
            s@ == (SectionV { name: name@, entries: Seq::<EntryV>::empty() }),
    {
        let s = Section { name: name.to_owned(), entries: Vec::new() };
        proof {
            assert(s@.entries =~= Seq::<EntryV>::empty());
            assert(s@ =~= (SectionV { name: name@, entries: Seq::<EntryV>::empty() }));
        }
        s
    }

    pub fn new_with_entries(name: &str, entries: Vec<Entry>) -> (s: Section)
        ensures
            s@ == (SectionV {
                name: name@,
                entries: entries@.map_values(|e: Entry| e@),
            }),
    {
        let s = Section { name: name.to_owned(), entries };
        proof {
            assert(s@ =~= (SectionV { name: name@, entries: s.entries@.map_values(|e: Entry| e@) }));
        }
        s
    }

    /// The value of the first entry whose key equals `key`, if any.
    #[verifier::loop_isolation(false)]
    pub fn get(&self, key: &str) -> (r: Option<&str>)
        ensures
            match r {
                Some(v) => get_first(self@.entries, key@) == Some(v@),
                None => get_first(self@.entries, key@) is None,
            },
    {
        let k: String = key.to_owned();
        let mut i: usize = 0;
        while i < self.entries.len()
            invariant
                0 <= i <= self.entries.len(),
                forall|j: int| 0 <= j < i ==> self@.entries[j].key != key@,
            decreases self.entries.len() - i,
        {
            if self.entries[i].key == k {
                proof {
                    lemma_get_first_found(self@.entries, key@, i as int);
                }
                return Some(self.entries[i].value.as_str());
            }
            i += 1;
        }
        proof {
            lemma_get_first_none(self@.entries, key@);
        }
        None
    }

    /// Renders the section: `"[<name>]"`, then each entry on a line of its
    /// own, then a final newline.
    #[verifier::loop_isolation(false)]
    pub fn to_string(&self) -> (r: String)
        ensures
            r@ == render_section(self@),
    {
        let mut r = String::new();
        r.append("[");
        r.append(self.name.as_str());
        r.append("]");
        proof {
            reveal_strlit("[");
            reveal_strlit("]");
            assert(r@ =~= seq!['['] + self@.name + seq![']']);
        }
        let ghost head: Seq<char> = r@;
        proof {
            assert(self@.entries.skip(0) =~= self@.entries);
        }
        let mut i: usize = 0;
        while i < self.entries.len()
            invariant
                0 <= i <= self.entries.len(),
                r@ + render_entry_lines(self@.entries.skip(i as int)) == head + render_entry_lines(
                    self@.entries,
                ),
            decreases self.entries.len() - i,
        {
            let ghost r0: Seq<char> = r@;
            r.append("\n");
            let line = self.entries[i].to_string();
            r.append(line.as_str());
            proof {
                reveal_strlit("\n");
                let es = self@.entries;
                assert(es.skip(i as int).drop_first() =~= es.skip(i as int + 1));
                assert(es.skip(i as int)[0] == es[i as int]);
                assert(render_entry_lines(es.skip(i as int)) == seq!['\n'] + render_entry(
                    es[i as int],
                ) + render_entry_lines(es.skip(i as int + 1)));
                assert(r@ =~= r0 + (seq!['\n'] + render_entry(es[i as int])));
                assert(r@ + render_entry_lines(es.skip(i as int + 1)) =~= r0 + render_entry_lines(
                    es.skip(i as int),
                ));
            }
            i += 1;
        }
        proof {
            assert(self@.entries.skip(self.entries.len() as int) =~= Seq::<EntryV>::empty());
            assert(r@ =~= head + render_entry_lines(self@.entries));
        }
        r.append("\n");
        proof {
            reveal_strlit("\n");
            assert(r@ =~= render_section(self@));
        }
        r
    }
}

/// A collection of config sections.
#[derive(Clone, Debug, Eq)]
pub struct Conf {
    pub sections: Vec<Section>,
}

/// The sections accumulated so far during a parse: the closed sections,
/// then the currently open one, if any.
pub open spec fn parse_acc(secs: Seq<Section>, cur: Section, have: bool) -> Seq<SectionV> {
    let base = secs.map_values(|x: Section| x@);
    if have {
        base.push(cur@)
    } else {
        base
    }
}

impl View for Conf {
    type V = Seq<SectionV>;

    open spec fn view(&self) -> Seq<SectionV> {
        self.sections@.map_values(|s: Section| s@)
    }
}

impl PartialEq for Conf {
    #[verifier::loop_isolation(false)]
    fn eq(&self, other: &Conf) -> (r: bool) {
        if self.sections.len() != other.sections.len() {
            proof {
                assert(self@.len() != other@.len());
            }
            return false;
        }
        let mut i: usize = 0;
        while i < self.sections.len()
            invariant
                0 <= i <= self.sections.len(),
                forall|j: int| 0 <= j < i ==> self@[j] == other@[j],
            decreases self.sections.len() - i,
        {
            if !(self.sections[i] == other.sections[i]) {
                proof {
                    assert(self@[i as int] == self.sections@[i as int]@);
                    assert(other@[i as int] == other.sections@[i as int]@);
                    assert(self@[i as int] != other@[i as int]);
                }
                return false;
            }
            i += 1;
        }
        proof {
            assert(self@ =~= other@);
        }
        true
    }
}

impl vstd::std_specs::cmp::PartialEqSpecImpl for Conf {
    open spec fn obeys_eq_spec() -> bool {
        true
    }

    open spec fn eq_spec(&self, other: &Conf) -> bool {
        self@ == other@
    }
}

impl Conf {
    /// Create an empty config.
    pub fn new() -> (c: Conf)
        ensures
            c@ == Seq::<SectionV>::empty(),
    {
        let c = Conf { sections: Vec::new() };
        proof {
            assert(c@ =~= Seq::<SectionV>::empty());
        }
        c
    }

    /// Create a pre-populated config.
    pub fn from_sections(sections: Vec<Section>) -> (c: Conf)
        ensures
            c@ == sections@.map_values(|s: Section| s@),
    {
        Conf { sections }
    }

    /// Parse a string into a config: the result is exactly what the model's
    /// `parse_text` assigns to the text, whether a configuration or an error.
    #[verifier::loop_isolation(false)]
    pub fn parse_str(s: &str) -> (r: Result<Conf, ParseError>)
        ensures
            match r {
                Ok(c) => parse_text(s@) == Ok::<Seq<SectionV>, ParseError>(c@),
                Err(e) => parse_text(s@) == Err::<Seq<SectionV>, ParseError>(e),
            },
    {
        let n = s.unicode_len();
        let mut secs: Vec<Section> = Vec::new();
        let mut cur = Section { name: String::new(), entries: Vec::new() };
        let mut have: bool = false;
        let mut i: usize = 0;
        let mut line_no: usize = 0;
        proof {
            assert(s@.skip(0) =~= s@);
            assert(parse_acc(secs@, cur, false) =~= Seq::<SectionV>::empty());
        }
        while i < n
            invariant
                i <= n,
                n == s@.len(),
                line_no <= i,
                !have ==> secs@.len() == 0,
                parse_text(s@) == parse_from(
                    spec_lines(s@.skip(i as int)),
                    line_no as int + 1,
                    parse_acc(secs@, cur, have),
                ),
            decreases n - i,
        {
            line_no += 1;
            let e = line_end(s, i, n);
            let ghost line = s@.subrange(i as int, e as int);
            let ghost rest = if e < n {
                spec_lines(s@.skip(e as int + 1))
            } else {
                Seq::<Seq<char>>::empty()
            };
            let ghost acc0 = parse_acc(secs@, cur, have);
            proof {
                lemma_lines_step(s@, i as int, e as int);
                assert(spec_lines(s@.skip(i as int)) == seq![line] + rest);
                assert((seq![line] + rest)[0] == line);
                assert((seq![line] + rest).drop_first() =~= rest);
            }
            let t = trimmed_of(s, i, e);
            let tn = t.unicode_len();
            if tn == 0 {
                proof {
                    assert(parse_from(seq![line] + rest, line_no as int, acc0) == parse_from(
                        rest,
                        line_no as int + 1,
                        acc0,
                    ));
                }
            } else if t.get_char(0) == '[' {
                if t.get_char(tn - 1) == ']' {
                    let name = t.substring_char(1, tn - 1);
                    if have {
                        secs.push(cur);
                    }
                    cur = Section { name: name.to_owned(), entries: Vec::new() };
                    have = true;
                    proof {
                        let nm = trim(line).subrange(1, trim(line).len() - 1);
                        assert(cur@ =~= (SectionV { name: nm, entries: Seq::<EntryV>::empty() }));
                        assert(parse_from(seq![line] + rest, line_no as int, acc0) == parse_from(
                            rest,
                            line_no as int + 1,
                            acc0.push(SectionV { name: nm, entries: Seq::empty() }),
                        ));
                        assert(parse_acc(secs@, cur, true) =~= acc0.push(
                            SectionV { name: nm, entries: Seq::empty() },
                        ));
                    }
                } else {
                    let err = ParseError { line: line_no, kind: ParseErrorKind::MissingClosingBracket };
                    proof {
                        assert(parse_from(seq![line] + rest, line_no as int, acc0)
                            == Err::<Seq<SectionV>, ParseError>(err));
                    }
                    return Err(err);
                }
            } else {
                let k = find_first_eq(t);
                if k == tn {
                    let err = ParseError { line: line_no, kind: ParseErrorKind::MissingEquals };
                    proof {
                        assert(parse_from(seq![line] + rest, line_no as int, acc0)
                            == Err::<Seq<SectionV>, ParseError>(err));
                    }
                    return Err(err);
                } else if !have {
                    let err = ParseError { line: line_no, kind: ParseErrorKind::EntryOutsideOfSection };
                    proof {
                        assert(acc0.len() == 0);
                        assert(parse_from(seq![line] + rest, line_no as int, acc0)
                            == Err::<Seq<SectionV>, ParseError>(err));
                    }
                    return Err(err);
                } else {
                    let key = trimmed_of(t, 0, k);
                    let value = trimmed_of(t, k + 1, tn);
                    let ghost tl = trim(line);
                    let ghost ev = EntryV {
                        key: trim(tl.take(find_eq(tl))),
                        value: trim(tl.skip(find_eq(tl) + 1)),
                    };
                    proof {
                        assert(tl.take(find_eq(tl)) =~= t@.subrange(0, k as int));
                        assert(tl.skip(find_eq(tl) + 1) =~= t@.subrange(k as int + 1, tn as int));
                    }
                    let entry = Entry { key: key.to_owned(), value: value.to_owned() };
                    proof {
                        assert(entry@ =~= ev);
                    }
                    cur.entries.push(entry);
                    proof {
                        assert(cur@ =~= (SectionV {
                            name: acc0.last().name,
                            entries: acc0.last().entries.push(ev),
                        }));
                        assert(parse_from(seq![line] + rest, line_no as int, acc0) == parse_from(
                            rest,
                            line_no as int + 1,
                            push_entry(acc0, ev),
                        ));
                        assert(parse_acc(secs@, cur, true) =~= push_entry(acc0, ev));
                    }
                }
            }
            i = if e < n {
                e + 1
            } else {
                n
            };
            proof {
                if e == n {
                    assert(s@.skip(n as int) =~= Seq::<char>::empty());
                    assert(spec_lines(Seq::<char>::empty()) == Seq::<Seq<char>>::empty());
                }
            }
        }
        let ghost accf = parse_acc(secs@, cur, have);
        proof {
            assert(s@.skip(n as int) =~= Seq::<char>::empty());
            assert(spec_lines(Seq::<char>::empty()) == Seq::<Seq<char>>::empty());
            assert(parse_text(s@) == Ok::<Seq<SectionV>, ParseError>(accf));
        }
        if have {
            secs.push(cur);
        }
        let c = Conf { sections: secs };
        proof {
            assert(c@ =~= accf);
        }
        Ok(c)
    }

    /// Serialize the config as a string: the sections in order, one blank
    /// line between consecutive sections.
    #[verifier::loop_isolation(false)]
    pub fn to_string(&self) -> (r: String)
        ensures
            r@ == render_sections(self@),
    {
        let mut r = String::new();
        if self.sections.len() == 0 {
            return r;
        }
        let first = self.sections[0].to_string();
        r.append(first.as_str());
        proof {
            assert(self@.skip(1) =~= self@.drop_first());
        }
        let mut i: usize = 1;
        while i < self.sections.len()
            invariant
                1 <= i <= self.sections.len(),
                r@ + render_tail(self@.skip(i as int)) == render_sections(self@),
            decreases self.sections.len() - i,
        {
            let ghost r0: Seq<char> = r@;
            r.append("\n");
            let sec = self.sections[i].to_string();
            r.append(sec.as_str());
            proof {
                reveal_strlit("\n");
                assert(self@.skip(i as int).drop_first() =~= self@.skip(i as int + 1));
                assert(self@.skip(i as int)[0] == self@[i as int]);
                assert(render_tail(self@.skip(i as int)) == seq!['\n'] + render_section(
                    self@[i as int],
                ) + render_tail(self@.skip(i as int + 1)));
                assert(r@ =~= r0 + (seq!['\n'] + render_section(self@[i as int])));
                assert(r@ + render_tail(self@.skip(i as int + 1)) =~= r0 + render_tail(
                    self@.skip(i as int),
                ));
            }
            i += 1;
        }
        proof {
            assert(self@.skip(self.sections.len() as int) =~= Seq::<SectionV>::empty());
            assert(r@ =~= render_sections(self@));
        }
        r
    }

    /// Append a section to the config.
    pub fn add_section(&mut self, name: &str, entries: Vec<Entry>)
        ensures
            final(self)@ == old(self)@.push(
                SectionV { name: name@, entries: entries@.map_values(|e: Entry| e@) },
            ),
    {
        self.sections.push(Section { name: name.to_owned(), entries });
        proof {
            assert(self@ =~= old(self)@.push(
                SectionV { name: name@, entries: entries@.map_values(|e: Entry| e@) },
            ));
        }
    }

    /// Get all the sections' names.
    #[verifier::loop_isolation(false)]
    pub fn section_names(&self) -> (r: Vec<&str>)
        ensures
            r@.len() == self@.len(),
            forall|i: int| 0 <= i < r@.len() ==> r@[i]@ == self@[i].name,
    {
        let mut r: Vec<&str> = Vec::new();
        let mut i: usize = 0;
        while i < self.sections.len()
            invariant
                0 <= i <= self.sections.len(),
                r@.len() == i,
                forall|j: int| 0 <= j < i ==> r@[j]@ == self@[j].name,
            decreases self.sections.len() - i,
        {
            r.push(self.sections[i].name.as_str());
            i += 1;
        }
        r
    }
}

} // verus!
