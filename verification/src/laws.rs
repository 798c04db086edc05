//! Laws of the format, proved against the model: well-formed input parses to
//! exactly the sections and entries it spells out; rendering a configuration
//! and parsing the result restores it; and section lookup returns the first
//! match.

use crate::conf::ParseError;
use crate::model::{
    get_first, lemma_get_first_found, lemma_get_first_none, parse_from, parse_text, push_entry,
    render_entry, render_entry_lines, render_section, render_sections, render_tail, EntryV,
    SectionV,
};
use crate::text::{
    find_eq, is_space, lemma_find_eq_unique, lemma_lines_rec_no_nl, lemma_trim_pad_left,
    lemma_trim_pad_right, lemma_trim_props, lemma_trim_skip_prefix, lemma_trim_take_suffix,
    lemma_ws_prefix_props, lemma_ws_prefix_unique, lemma_ws_suffix_props, lemma_ws_suffix_unique,
    spec_lines, trim, ws_prefix_len, ws_suffix_start,
};
use vstd::prelude::*;

verus! {

/// No newline anywhere in `s`.
pub open spec fn no_nl(s: Seq<char>) -> bool {
    forall|j: int| 0 <= j < s.len() ==> s[j] != '\n'
}

/// No equals sign anywhere in `s`.
pub open spec fn no_eq(s: Seq<char>) -> bool {
    forall|j: int| 0 <= j < s.len() ==> s[j] != '='
}

/// One source line of well-formed input: blank, a section header, or a
/// key/value line that splits at its first equals sign.
pub enum LineV {
    Blank,
    Header { name: Seq<char> },
    Pair { left: Seq<char>, right: Seq<char> },
}

/// The text of one line.
pub open spec fn emit_line(l: LineV) -> Seq<char> {
    match l {
        LineV::Blank => Seq::empty(),
        LineV::Header { name } => seq!['['] + name + seq![']'],
        LineV::Pair { left, right } => left + seq!['='] + right,
    }
}

/// The text of a sequence of lines, each terminated by a newline.
pub open spec fn emit_lines(ls: Seq<LineV>) -> Seq<char>
    decreases ls.len(),
{
    if ls.len() == 0 {
        Seq::empty()
    } else {
        emit_line(ls[0]) + seq!['\n'] + emit_lines(ls.drop_first())
    }
}

/// What keeps one line well formed: its text must stay on one line, and the
/// left part of a pair must hold no equals sign and must not look like a
/// section header once trimmed.
pub open spec fn line_wf(l: LineV) -> bool {
    match l {
        LineV::Blank => true,
        LineV::Header { name } => no_nl(name),
        LineV::Pair { left, right } => no_nl(left) && no_nl(right) && no_eq(left) && (trim(
            left,
        ).len() > 0 ==> trim(left)[0] != '['),
    }
}

/// Every pair line comes after some header line; `has_section` says whether
/// a header was already seen before these lines.
pub open spec fn pairs_covered(ls: Seq<LineV>, has_section: bool) -> bool
    decreases ls.len(),
{
    if ls.len() == 0 {
        true
    } else {
        match ls[0] {
            LineV::Blank => pairs_covered(ls.drop_first(), has_section),
            LineV::Header { .. } => pairs_covered(ls.drop_first(), true),
            LineV::Pair { .. } => has_section && pairs_covered(ls.drop_first(), has_section),
        }
    }
}

/// The configuration that well-formed lines spell out, on top of the
/// sections already in `acc`: a header opens a section, a pair appends its
/// trimmed key and value to the last one.
pub open spec fn expected_from(ls: Seq<LineV>, acc: Seq<SectionV>) -> Seq<SectionV>
    decreases ls.len(),
{
    if ls.len() == 0 {
        acc
    } else {
        match ls[0] {
            LineV::Blank => expected_from(ls.drop_first(), acc),
            LineV::Header { name } => expected_from(
                ls.drop_first(),
                acc.push(SectionV { name, entries: Seq::empty() }),
            ),
            LineV::Pair { left, right } => expected_from(
                ls.drop_first(),
                push_entry(acc, EntryV { key: trim(left), value: trim(right) }),
            ),
        }
    }
}

/// Trimming the line `<left>=<right>` and splitting at its first equals sign
/// recovers the trims of `left` and `right`.
proof fn lemma_trim_pair_line(l: Seq<char>, r: Seq<char>)
    requires
        no_eq(l),
    ensures
        trim(l + seq!['='] + r).len() > 0,
        0 <= find_eq(trim(l + seq!['='] + r)) < trim(l + seq!['='] + r).len(),
        trim(trim(l + seq!['='] + r).take(find_eq(trim(l + seq!['='] + r)))) == trim(l),
        trim(trim(l + seq!['='] + r).skip(find_eq(trim(l + seq!['='] + r)) + 1)) == trim(r),
        trim(l + seq!['='] + r)[0] == '=' || (trim(l).len() > 0 && trim(l + seq!['='] + r)[0]
            == trim(l)[0]),
{
    let line = l + seq!['='] + r;
    let n1 = l.len() as int;
    let nn = line.len() as int;
    assert(line[n1] == '=');
    assert(!is_space('='));
    lemma_ws_prefix_props(line);
    lemma_ws_prefix_props(l);
    lemma_ws_suffix_props(line);
    lemma_ws_suffix_props(r);
    lemma_trim_props(line);
    lemma_trim_props(l);
    let a = ws_prefix_len(line);
    if a > n1 {
        assert(is_space(line[n1]));
    }
    assert(a <= n1);
    assert forall|j: int| 0 <= j < a implies is_space(l[j]) by {
        assert(is_space(line[j]));
        assert(line[j] == l[j]);
    }
    if a < n1 {
        assert(l[a] == line[a]);
        lemma_ws_prefix_unique(l, a);
    } else {
        lemma_ws_prefix_unique(l, n1);
    }
    let b = ws_suffix_start(line);
    if b <= n1 {
        assert(is_space(line[n1]));
    }
    assert(n1 + 1 <= b <= nn);
    assert forall|j: int| b - n1 - 1 <= j < r.len() implies is_space(r[j]) by {
        assert(r[j] == line[n1 + 1 + j]);
        assert(is_space(line[n1 + 1 + j]));
    }
    if b - n1 - 1 > 0 {
        assert(r[b - n1 - 2] == line[b - 1]);
    }
    lemma_ws_suffix_unique(r, b - n1 - 1);
    let t = trim(line);
    assert(a < nn);
    assert(t =~= line.subrange(a, b));
    assert forall|j: int| 0 <= j < n1 - a implies t[j] != '=' by {
        assert(t[j] == line[a + j]);
        assert(line[a + j] == l[a + j]);
    }
    assert(t[n1 - a] == line[n1]);
    lemma_find_eq_unique(t, n1 - a);
    assert(t.take(n1 - a) =~= l.skip(a));
    lemma_trim_skip_prefix(l);
    assert(t.skip(n1 - a + 1) =~= r.take(b - n1 - 1));
    lemma_trim_take_suffix(r);
    if a < n1 {
        assert(ws_prefix_len(l) < l.len());
        assert(trim(l).len() > 0);
        assert(trim(l)[0] == l[a]);
        assert(t[0] == line[a]);
        assert(line[a] == l[a]);
    } else {
        assert(t[0] == line[n1]);
    }
}

proof fn lemma_emit_line_no_nl(l: LineV)
    requires
        line_wf(l),
    ensures
        no_nl(emit_line(l)),
{
    match l {
        LineV::Blank => {},
        LineV::Header { name } => {
            assert forall|j: int| 0 <= j < emit_line(l).len() implies emit_line(l)[j] != '\n' by {
                if 1 <= j < 1 + name.len() {
                    assert(emit_line(l)[j] == name[j - 1]);
                }
            }
        },
        LineV::Pair { left, right } => {
            assert forall|j: int| 0 <= j < emit_line(l).len() implies emit_line(l)[j] != '\n' by {
                if j < left.len() {
                    assert(emit_line(l)[j] == left[j]);
                } else if j > left.len() {
                    assert(emit_line(l)[j] == right[j - left.len() - 1]);
                }
            }
        },
    }
}

/// Parsing the text of well-formed lines always succeeds and yields exactly
/// the configuration the lines spell out.
proof fn lemma_parse_wf_from(ls: Seq<LineV>, lineno: int, acc: Seq<SectionV>)
    requires
        forall|i: int| 0 <= i < ls.len() ==> line_wf(#[trigger] ls[i]),
        pairs_covered(ls, acc.len() > 0),
    ensures
        parse_from(spec_lines(emit_lines(ls)), lineno, acc) == Ok::<Seq<SectionV>, ParseError>(
            expected_from(ls, acc),
        ),
    decreases ls.len(),
{
    if ls.len() == 0 {
        assert(spec_lines(Seq::<char>::empty()) == Seq::<Seq<char>>::empty());
    } else {
        let l0 = ls[0];
        let rest = ls.drop_first();
        assert(line_wf(l0));
        assert forall|i: int| 0 <= i < rest.len() implies line_wf(#[trigger] rest[i]) by {
            assert(rest[i] == ls[i + 1]);
        }
        let le = emit_line(l0);
        lemma_emit_line_no_nl(l0);
        assert(emit_lines(ls) =~= le + (seq!['\n'] + emit_lines(rest)));
        lemma_lines_rec_no_nl(le, seq!['\n'] + emit_lines(rest), Seq::empty());
        assert(Seq::<char>::empty() + le =~= le);
        assert((seq!['\n'] + emit_lines(rest))[0] == '\n');
        assert((seq!['\n'] + emit_lines(rest)).drop_first() =~= emit_lines(rest));
        let lns = spec_lines(emit_lines(ls));
        assert(lns == seq![le] + spec_lines(emit_lines(rest)));
        assert(lns[0] == le);
        assert(lns.len() > 0);
        assert(lns.drop_first() =~= spec_lines(emit_lines(rest)));
        match l0 {
            LineV::Blank => {
                assert(le =~= Seq::<char>::empty());
                assert(ws_prefix_len(le) == 0);
                assert(trim(le).len() == 0);
                lemma_parse_wf_from(rest, lineno + 1, acc);
                assert(parse_from(lns, lineno, acc) == parse_from(
                    lns.drop_first(),
                    lineno + 1,
                    acc,
                ));
            },
            LineV::Header { name } => {
                assert(le[0] == '[');
                assert(le[le.len() - 1] == ']');
                assert(!is_space('['));
                assert(!is_space(']'));
                lemma_ws_prefix_unique(le, 0);
                lemma_ws_suffix_unique(le, le.len() as int);
                let t = trim(le);
                assert(t =~= le);
                assert(t.len() > 0);
                assert(t[0] == '[');
                assert(t[t.len() - 1] == ']');
                assert(t.subrange(1, t.len() - 1) =~= name);
                let acc2 = acc.push(SectionV { name, entries: Seq::empty() });
                assert(parse_from(lns, lineno, acc) == parse_from(
                    lns.drop_first(),
                    lineno + 1,
                    acc2,
                ));
                lemma_parse_wf_from(rest, lineno + 1, acc2);
            },
            LineV::Pair { left, right } => {
                lemma_trim_pair_line(left, right);
                let t = trim(le);
                assert(t.len() > 0);
                assert(t[0] != '[');
                assert(acc.len() > 0);
                let ev = EntryV { key: trim(left), value: trim(right) };
                assert(trim(t.take(find_eq(t))) == trim(left));
                assert(trim(t.skip(find_eq(t) + 1)) == trim(right));
                let acc2 = push_entry(acc, ev);
                assert(acc2.len() == acc.len());
                assert(parse_from(lns, lineno, acc) == parse_from(
                    lns.drop_first(),
                    lineno + 1,
                    acc2,
                ));
                lemma_parse_wf_from(rest, lineno + 1, acc2);
            },
        }
    }
}

/// Law: any well-formed input (newline-terminated lines that are blank,
/// `[name]` headers or `key=value` pairs, every pair after some header)
/// parses successfully, and the result's sections, names and trimmed
/// key/value pairs exactly match the input lines.
pub proof fn lemma_well_formed_input_parses(ls: Seq<LineV>)
    requires
        forall|i: int| 0 <= i < ls.len() ==> line_wf(#[trigger] ls[i]),
        pairs_covered(ls, false),
    ensures
        parse_text(emit_lines(ls)) == Ok::<Seq<SectionV>, ParseError>(
            expected_from(ls, Seq::empty()),
        ),
{
    lemma_parse_wf_from(ls, 1, Seq::empty());
}

/// The pair line that renders an entry.
pub open spec fn entry_line(e: EntryV) -> LineV {
    LineV::Pair { left: e.key + seq![' '], right: seq![' '] + e.value }
}

/// The lines that render a section: its header, then one pair per entry.
pub open spec fn section_lines(s: SectionV) -> Seq<LineV> {
    seq![LineV::Header { name: s.name }] + s.entries.map_values(|e: EntryV| entry_line(e))
}

/// The lines that render the sections after the first: a blank joining line
/// before each.
pub open spec fn tail_lines(ss: Seq<SectionV>) -> Seq<LineV>
    decreases ss.len(),
{
    if ss.len() == 0 {
        Seq::empty()
    } else {
        seq![LineV::Blank] + section_lines(ss[0]) + tail_lines(ss.drop_first())
    }
}

/// The lines that render a whole configuration.
pub open spec fn conf_lines(ss: Seq<SectionV>) -> Seq<LineV> {
    if ss.len() == 0 {
        Seq::empty()
    } else {
        section_lines(ss[0]) + tail_lines(ss.drop_first())
    }
}

proof fn lemma_emit_lines_concat(x: Seq<LineV>, y: Seq<LineV>)
    ensures
        emit_lines(x + y) == emit_lines(x) + emit_lines(y),
    decreases x.len(),
{
    if x.len() == 0 {
        assert(x + y =~= y);
        assert(emit_lines(x) + emit_lines(y) =~= emit_lines(y));
    } else {
        assert((x + y)[0] == x[0]);
        assert((x + y).len() > 0);
        assert((x + y).drop_first() =~= x.drop_first() + y);
        lemma_emit_lines_concat(x.drop_first(), y);
        assert(emit_line(x[0]) + seq!['\n'] + (emit_lines(x.drop_first()) + emit_lines(y)) =~= (
        emit_line(x[0]) + seq!['\n'] + emit_lines(x.drop_first())) + emit_lines(y));
    }
}

proof fn lemma_emit_entry_lines(es: Seq<EntryV>)
    ensures
        seq!['\n'] + emit_lines(es.map_values(|e: EntryV| entry_line(e))) == render_entry_lines(es)
            + seq!['\n'],
    decreases es.len(),
{
    let f = |e: EntryV| entry_line(e);
    let nl = seq!['\n'];
    if es.len() == 0 {
        assert(es.map_values(f) =~= Seq::<LineV>::empty());
        assert(nl + emit_lines(Seq::<LineV>::empty()) =~= nl);
        assert(render_entry_lines(es) + nl =~= nl);
    } else {
        let m = es.map_values(f);
        assert(m.len() > 0);
        assert(m[0] == entry_line(es[0]));
        assert(m.drop_first() =~= es.drop_first().map_values(f));
        lemma_emit_entry_lines(es.drop_first());
        let re0 = render_entry(es[0]);
        assert(emit_line(m[0]) =~= re0);
        assert(emit_lines(m) == emit_line(m[0]) + nl + emit_lines(m.drop_first()));
        let erest = emit_lines(es.drop_first().map_values(f));
        assert(emit_lines(m.drop_first()) == erest);
        assert(nl + emit_lines(m) =~= (nl + re0) + (nl + erest));
        assert(nl + erest == render_entry_lines(es.drop_first()) + nl);
        assert((nl + re0) + (render_entry_lines(es.drop_first()) + nl) =~= (nl + re0
            + render_entry_lines(es.drop_first())) + nl);
        assert(render_entry_lines(es) == nl + re0 + render_entry_lines(es.drop_first()));
    }
}

proof fn lemma_emit_section_lines(s: SectionV)
    ensures
        emit_lines(section_lines(s)) == render_section(s),
{
    let hdr = seq![LineV::Header { name: s.name }];
    let m = s.entries.map_values(|e: EntryV| entry_line(e));
    lemma_emit_lines_concat(hdr, m);
    assert(hdr.drop_first() =~= Seq::<LineV>::empty());
    assert(emit_lines(hdr) == emit_line(hdr[0]) + seq!['\n'] + emit_lines(Seq::<LineV>::empty()));
    assert(emit_lines(hdr) =~= (seq!['['] + s.name + seq![']']) + seq!['\n']);
    lemma_emit_entry_lines(s.entries);
    assert(emit_lines(section_lines(s)) == emit_lines(hdr) + emit_lines(m));
    assert(emit_lines(hdr) + emit_lines(m) =~= (seq!['['] + s.name + seq![']']) + (seq!['\n']
        + emit_lines(m)));
    assert((seq!['['] + s.name + seq![']']) + (render_entry_lines(s.entries) + seq!['\n'])
        =~= render_section(s));
}

proof fn lemma_emit_tail_lines(ss: Seq<SectionV>)
    ensures
        emit_lines(tail_lines(ss)) == render_tail(ss),
    decreases ss.len(),
{
    if ss.len() == 0 {
    } else {
        let bl = seq![LineV::Blank];
        let sl = section_lines(ss[0]);
        let tl = tail_lines(ss.drop_first());
        lemma_emit_lines_concat(bl + sl, tl);
        lemma_emit_lines_concat(bl, sl);
        assert(bl.drop_first() =~= Seq::<LineV>::empty());
        assert(emit_lines(bl) == emit_line(bl[0]) + seq!['\n'] + emit_lines(Seq::<LineV>::empty()));
        assert(emit_lines(bl) =~= seq!['\n']);
        lemma_emit_section_lines(ss[0]);
        lemma_emit_tail_lines(ss.drop_first());
        assert(emit_lines(tail_lines(ss)) == (emit_lines(bl) + emit_lines(sl)) + emit_lines(tl));
        assert((seq!['\n'] + render_section(ss[0])) + render_tail(ss.drop_first()) =~= seq!['\n']
            + render_section(ss[0]) + render_tail(ss.drop_first()));
    }
}

proof fn lemma_emit_conf_lines(ss: Seq<SectionV>)
    ensures
        emit_lines(conf_lines(ss)) == render_sections(ss),
{
    if ss.len() == 0 {
    } else {
        lemma_emit_lines_concat(section_lines(ss[0]), tail_lines(ss.drop_first()));
        lemma_emit_section_lines(ss[0]);
        lemma_emit_tail_lines(ss.drop_first());
    }
}

/// An entry that rendering and re-parsing leaves unchanged: key and value
/// hold no newline and no equals sign, carry no outer whitespace, and the
/// key does not begin like a section header.
pub open spec fn entry_rt_ok(e: EntryV) -> bool {
    &&& no_nl(e.key)
    &&& no_nl(e.value)
    &&& no_eq(e.key)
    &&& no_eq(e.value)
    &&& trim(e.key) == e.key
    &&& trim(e.value) == e.value
    &&& (e.key.len() > 0 ==> e.key[0] != '[')
}

/// A section that rendering and re-parsing leaves unchanged: a non-empty
/// name free of brackets and newlines, and entries as in `entry_rt_ok`.
pub open spec fn section_rt_ok(s: SectionV) -> bool {
    &&& s.name.len() > 0
    &&& forall|j: int|
        0 <= j < s.name.len() ==> s.name[j] != '[' && s.name[j] != ']' && s.name[j] != '\n'
    &&& forall|j: int| 0 <= j < s.entries.len() ==> entry_rt_ok(#[trigger] s.entries[j])
}

proof fn lemma_section_lines_wf(s: SectionV)
    requires
        section_rt_ok(s),
    ensures
        forall|i: int|
            0 <= i < section_lines(s).len() ==> line_wf(#[trigger] section_lines(s)[i]),
{
    let sl = section_lines(s);
    assert forall|i: int| 0 <= i < sl.len() implies line_wf(sl[i]) by {
        if i == 0 {
            assert(sl[0] == (LineV::Header { name: s.name }));
        } else {
            let e = s.entries[i - 1];
            assert(sl[i] == entry_line(e));
            assert(entry_rt_ok(e));
            let left = e.key + seq![' '];
            let right = seq![' '] + e.value;
            assert forall|j: int| 0 <= j < left.len() implies left[j] != '\n' && left[j] != '='
            by {
                if j < e.key.len() {
                    assert(left[j] == e.key[j]);
                }
            }
            assert forall|j: int| 0 <= j < right.len() implies right[j] != '\n' by {
                if j > 0 {
                    assert(right[j] == e.value[j - 1]);
                }
            }
            assert(is_space(' '));
            lemma_trim_pad_right(e.key, ' ');
            assert(trim(left) == e.key);
        }
    }
}

proof fn lemma_tail_lines_wf(ss: Seq<SectionV>)
    requires
        forall|i: int| 0 <= i < ss.len() ==> section_rt_ok(#[trigger] ss[i]),
    ensures
        forall|i: int| 0 <= i < tail_lines(ss).len() ==> line_wf(#[trigger] tail_lines(ss)[i]),
    decreases ss.len(),
{
    if ss.len() == 0 {
    } else {
        assert forall|i: int| 0 <= i < ss.drop_first().len() implies section_rt_ok(
            #[trigger] ss.drop_first()[i],
        ) by {
            assert(ss.drop_first()[i] == ss[i + 1]);
        }
        lemma_section_lines_wf(ss[0]);
        lemma_tail_lines_wf(ss.drop_first());
        let sl = section_lines(ss[0]);
        let tl = tail_lines(ss.drop_first());
        let full = tail_lines(ss);
        assert forall|i: int| 0 <= i < full.len() implies line_wf(#[trigger] full[i]) by {
            if i == 0 {
                assert(full[0] == LineV::Blank);
            } else if i < 1 + sl.len() {
                assert(full[i] == sl[i - 1]);
                assert(line_wf(sl[i - 1]));
            } else {
                assert(full[i] == tl[i - 1 - sl.len()]);
                assert(line_wf(tl[i - 1 - sl.len()]));
            }
        }
    }
}

proof fn lemma_conf_lines_wf(ss: Seq<SectionV>)
    requires
        forall|i: int| 0 <= i < ss.len() ==> section_rt_ok(#[trigger] ss[i]),
    ensures
        forall|i: int| 0 <= i < conf_lines(ss).len() ==> line_wf(#[trigger] conf_lines(ss)[i]),
{
    if ss.len() == 0 {
    } else {
        assert forall|i: int| 0 <= i < ss.drop_first().len() implies section_rt_ok(
            #[trigger] ss.drop_first()[i],
        ) by {
            assert(ss.drop_first()[i] == ss[i + 1]);
        }
        lemma_section_lines_wf(ss[0]);
        lemma_tail_lines_wf(ss.drop_first());
        let sl = section_lines(ss[0]);
        let tl = tail_lines(ss.drop_first());
        let full = conf_lines(ss);
        assert forall|i: int| 0 <= i < full.len() implies line_wf(#[trigger] full[i]) by {
            if i < sl.len() {
                assert(full[i] == sl[i]);
                assert(line_wf(sl[i]));
            } else {
                assert(full[i] == tl[i - sl.len()]);
                assert(line_wf(tl[i - sl.len()]));
            }
        }
    }
}

proof fn lemma_pairs_covered_pairs(es: Seq<EntryV>, rest: Seq<LineV>)
    requires
        pairs_covered(rest, true),
    ensures
        pairs_covered(es.map_values(|e: EntryV| entry_line(e)) + rest, true),
    decreases es.len(),
{
    let f = |e: EntryV| entry_line(e);
    if es.len() == 0 {
        assert(es.map_values(f) + rest =~= rest);
    } else {
        let full = es.map_values(f) + rest;
        assert(full[0] == entry_line(es[0]));
        assert(full.drop_first() =~= es.drop_first().map_values(f) + rest);
        lemma_pairs_covered_pairs(es.drop_first(), rest);
    }
}

proof fn lemma_pairs_covered_section(s: SectionV, rest: Seq<LineV>, has: bool)
    requires
        pairs_covered(rest, true),
    ensures
        pairs_covered(section_lines(s) + rest, has),
{
    let full = section_lines(s) + rest;
    assert(full[0] == (LineV::Header { name: s.name }));
    assert(full.drop_first() =~= s.entries.map_values(|e: EntryV| entry_line(e)) + rest);
    lemma_pairs_covered_pairs(s.entries, rest);
}

proof fn lemma_pairs_covered_tail(ss: Seq<SectionV>)
    ensures
        pairs_covered(tail_lines(ss), true),
    decreases ss.len(),
{
    if ss.len() == 0 {
    } else {
        lemma_pairs_covered_tail(ss.drop_first());
        lemma_pairs_covered_section(ss[0], tail_lines(ss.drop_first()), true);
        let full = tail_lines(ss);
        assert(full[0] == LineV::Blank);
        assert(full.drop_first() =~= section_lines(ss[0]) + tail_lines(ss.drop_first()));
    }
}

proof fn lemma_pairs_covered_conf(ss: Seq<SectionV>)
    ensures
        pairs_covered(conf_lines(ss), false),
{
    if ss.len() == 0 {
    } else {
        lemma_pairs_covered_tail(ss.drop_first());
        lemma_pairs_covered_section(ss[0], tail_lines(ss.drop_first()), false);
    }
}

proof fn lemma_expected_pairs(es: Seq<EntryV>, rest: Seq<LineV>, acc: Seq<SectionV>)
    requires
        acc.len() > 0,
        forall|j: int| 0 <= j < es.len() ==> entry_rt_ok(#[trigger] es[j]),
    ensures
        expected_from(es.map_values(|e: EntryV| entry_line(e)) + rest, acc) == expected_from(
            rest,
            acc.update(
                acc.len() - 1,
                (SectionV { name: acc.last().name, entries: acc.last().entries + es }),
            ),
        ),
    decreases es.len(),
{
    let f = |e: EntryV| entry_line(e);
    if es.len() == 0 {
        assert(es.map_values(f) + rest =~= rest);
        assert(acc.last().entries + es =~= acc.last().entries);
        assert((SectionV { name: acc.last().name, entries: acc.last().entries + es })
            =~= acc.last());
        assert(acc.update(acc.len() - 1, acc.last()) =~= acc);
    } else {
        let full = es.map_values(f) + rest;
        assert(full[0] == entry_line(es[0]));
        assert(full.drop_first() =~= es.drop_first().map_values(f) + rest);
        assert(entry_rt_ok(es[0]));
        assert(is_space(' '));
        lemma_trim_pad_right(es[0].key, ' ');
        lemma_trim_pad_left(es[0].value, ' ');
        assert((EntryV { key: trim(es[0].key + seq![' ']), value: trim(seq![' '] + es[0].value) })
            =~= es[0]);
        let acc2 = push_entry(acc, es[0]);
        assert(acc2.len() == acc.len());
        assert(acc2.last() == (SectionV {
            name: acc.last().name,
            entries: acc.last().entries.push(es[0]),
        }));
        assert forall|j: int| 0 <= j < es.drop_first().len() implies entry_rt_ok(
            #[trigger] es.drop_first()[j],
        ) by {
            assert(es.drop_first()[j] == es[j + 1]);
        }
        lemma_expected_pairs(es.drop_first(), rest, acc2);
        assert(acc.last().entries.push(es[0]) + es.drop_first() =~= acc.last().entries + es);
        assert(acc2.update(
            acc2.len() - 1,
            (SectionV { name: acc2.last().name, entries: acc2.last().entries + es.drop_first() }),
        ) =~= acc.update(
            acc.len() - 1,
            (SectionV { name: acc.last().name, entries: acc.last().entries + es }),
        ));
    }
}

proof fn lemma_expected_section(s: SectionV, rest: Seq<LineV>, acc: Seq<SectionV>)
    requires
        forall|j: int| 0 <= j < s.entries.len() ==> entry_rt_ok(#[trigger] s.entries[j]),
    ensures
        expected_from(section_lines(s) + rest, acc) == expected_from(rest, acc.push(s)),
{
    let full = section_lines(s) + rest;
    assert(full[0] == (LineV::Header { name: s.name }));
    assert(full.drop_first() =~= s.entries.map_values(|e: EntryV| entry_line(e)) + rest);
    let acc1 = acc.push(SectionV { name: s.name, entries: Seq::empty() });
    lemma_expected_pairs(s.entries, rest, acc1);
    assert(acc1.last() == (SectionV { name: s.name, entries: Seq::<EntryV>::empty() }));
    assert(Seq::<EntryV>::empty() + s.entries =~= s.entries);
    assert((SectionV { name: s.name, entries: Seq::<EntryV>::empty() + s.entries }) =~= s);
    assert(acc1.update(
        acc1.len() - 1,
        (SectionV { name: acc1.last().name, entries: acc1.last().entries + s.entries }),
    ) =~= acc.push(s));
}

proof fn lemma_expected_tail(ss: Seq<SectionV>, acc: Seq<SectionV>)
    requires
        forall|i: int| 0 <= i < ss.len() ==> section_rt_ok(#[trigger] ss[i]),
    ensures
        expected_from(tail_lines(ss), acc) == acc + ss,
    decreases ss.len(),
{
    if ss.len() == 0 {
        assert(acc + ss =~= acc);
    } else {
        let full = tail_lines(ss);
        assert(full[0] == LineV::Blank);
        assert(full.drop_first() =~= section_lines(ss[0]) + tail_lines(ss.drop_first()));
        lemma_expected_section(ss[0], tail_lines(ss.drop_first()), acc);
        assert forall|i: int| 0 <= i < ss.drop_first().len() implies section_rt_ok(
            #[trigger] ss.drop_first()[i],
        ) by {
            assert(ss.drop_first()[i] == ss[i + 1]);
        }
        lemma_expected_tail(ss.drop_first(), acc.push(ss[0]));
        assert(acc.push(ss[0]) + ss.drop_first() =~= acc + ss);
    }
}

proof fn lemma_expected_conf(ss: Seq<SectionV>)
    requires
        forall|i: int| 0 <= i < ss.len() ==> section_rt_ok(#[trigger] ss[i]),
    ensures
        expected_from(conf_lines(ss), Seq::empty()) == ss,
{
    if ss.len() == 0 {
    } else {
        lemma_expected_section(ss[0], tail_lines(ss.drop_first()), Seq::empty());
        assert forall|i: int| 0 <= i < ss.drop_first().len() implies section_rt_ok(
            #[trigger] ss.drop_first()[i],
        ) by {
            assert(ss.drop_first()[i] == ss[i + 1]);
        }
        lemma_expected_tail(ss.drop_first(), Seq::<SectionV>::empty().push(ss[0]));
        assert(Seq::<SectionV>::empty().push(ss[0]) + ss.drop_first() =~= ss);
    }
}

/// Law: rendering a configuration and parsing the result restores it
/// exactly, for any configuration whose names and entries can survive the
/// textual form (see `section_rt_ok`).
pub proof fn lemma_round_trip(c: Seq<SectionV>)
    requires
        forall|i: int| 0 <= i < c.len() ==> section_rt_ok(#[trigger] c[i]),
    ensures
        parse_text(render_sections(c)) == Ok::<Seq<SectionV>, ParseError>(c),
{
    lemma_emit_conf_lines(c);
    lemma_conf_lines_wf(c);
    lemma_pairs_covered_conf(c);
    lemma_parse_wf_from(conf_lines(c), 1, Seq::empty());
    lemma_expected_conf(c);
}

/// Law: `get_first` is lookup by first match. It is absent exactly when no
/// entry has the key; and whenever some position holds the first entry with
/// the key, the result is that entry's value.
pub proof fn lemma_get_first_is_first_match(es: Seq<EntryV>, key: Seq<char>)
    ensures
        (get_first(es, key) is None) <==> (forall|i: int|
            0 <= i < es.len() ==> (#[trigger] es[i]).key != key),
        forall|i: int|
            (0 <= i < es.len() && (#[trigger] es[i]).key == key && (forall|j: int|
                0 <= j < i ==> (#[trigger] es[j]).key != key)) ==> get_first(es, key) == Some(
                es[i].value,
            ),
    decreases es.len(),
{
    if forall|i: int| 0 <= i < es.len() ==> (#[trigger] es[i]).key != key {
        lemma_get_first_none(es, key);
    }
    if es.len() > 0 && es[0].key != key {
        lemma_get_first_is_first_match(es.drop_first(), key);
        if get_first(es, key) is None {
            assert forall|i: int| 0 <= i < es.len() implies (#[trigger] es[i]).key != key by {
                if i > 0 {
                    assert(es.drop_first()[i - 1].key != key);
                }
            }
        }
    }
    assert forall|i: int|
        (0 <= i < es.len() && (#[trigger] es[i]).key == key && (forall|j: int|
            0 <= j < i ==> (#[trigger] es[j]).key != key)) implies get_first(es, key) == Some(
        es[i].value,
    ) by {
        lemma_get_first_found(es, key, i);
    }
}

} // verus!
