//! Character-sequence groundwork for the configuration format: whitespace,
//! trimming, line splitting and first-occurrence searches, as spec functions
//! over `Seq<char>`, together with executable scanners proved against them.

use vstd::prelude::*;
use vstd::string::StrSliceExecFns;

verus! {

/// The Unicode `White_Space` characters: the set that trimming removes from
/// either end of a line, a key or a value.
pub open spec fn is_space(c: char) -> bool {
    let u = c as u32;
    u == 0x09 || u == 0x0A || u == 0x0B || u == 0x0C || u == 0x0D || u == 0x20 || u == 0x85
        || u == 0xA0 || u == 0x1680 || (0x2000 <= u && u <= 0x200A) || u == 0x2028 || u == 0x2029
        || u == 0x202F || u == 0x205F || u == 0x3000
}

pub fn is_space_char(c: char) -> (r: bool)
    ensures
        r == is_space(c),
{
    let u = c as u32;
    u == 0x09 || u == 0x0A || u == 0x0B || u == 0x0C || u == 0x0D || u == 0x20 || u == 0x85
        || u == 0xA0 || u == 0x1680 || (0x2000 <= u && u <= 0x200A) || u == 0x2028 || u == 0x2029
        || u == 0x202F || u == 0x205F || u == 0x3000
}

/// Number of leading whitespace characters of `s`.
pub open spec fn ws_prefix_len(s: Seq<char>) -> int
    decreases s.len(),
{
    if s.len() == 0 || !is_space(s[0]) {
        0
    } else {
        1 + ws_prefix_len(s.drop_first())
    }
}

/// Index after the last non-whitespace character of `s` (0 if all whitespace).
pub open spec fn ws_suffix_start(s: Seq<char>) -> int
    decreases s.len(),
{
    if s.len() == 0 || !is_space(s.last()) {
        s.len() as int
    } else {
        ws_suffix_start(s.drop_last())
    }
}

/// `s` with leading and trailing whitespace removed.
pub open spec fn trim(s: Seq<char>) -> Seq<char> {
    if ws_prefix_len(s) == s.len() {
        Seq::empty()
    } else {
        s.subrange(ws_prefix_len(s), ws_suffix_start(s))
    }
}

/// Index of the first `'='` in `s`, or `s.len()` if there is none.
pub open spec fn find_eq(s: Seq<char>) -> int
    decreases s.len(),
{
    if s.len() == 0 {
        0
    } else if s[0] == '=' {
        0
    } else {
        1 + find_eq(s.drop_first())
    }
}

/// Splits on `'\n'`, accumulating the current line in `cur`; a final empty
/// line (text ending in a newline, or empty text) yields no extra element.
pub open spec fn lines_rec(s: Seq<char>, cur: Seq<char>) -> Seq<Seq<char>>
    decreases s.len(),
{
    if s.len() == 0 {
        if cur.len() == 0 {
            Seq::empty()
        } else {
            seq![cur]
        }
    } else if s[0] == '\n' {
        seq![cur] + lines_rec(s.drop_first(), Seq::empty())
    } else {
        lines_rec(s.drop_first(), cur.push(s[0]))
    }
}

/// The lines of `s`.
pub open spec fn spec_lines(s: Seq<char>) -> Seq<Seq<char>> {
    lines_rec(s, Seq::empty())
}

pub proof fn lemma_ws_prefix_props(s: Seq<char>)
    ensures
        0 <= ws_prefix_len(s) <= s.len(),
        forall|j: int| 0 <= j < ws_prefix_len(s) ==> is_space(s[j]),
        ws_prefix_len(s) < s.len() ==> !is_space(s[ws_prefix_len(s)]),
    decreases s.len(),
{
    if s.len() == 0 || !is_space(s[0]) {
    } else {
        lemma_ws_prefix_props(s.drop_first());
        assert forall|j: int| 0 <= j < ws_prefix_len(s) implies is_space(s[j]) by {
            if j > 0 {
                assert(is_space(s.drop_first()[j - 1]));
            }
        }
    }
}

pub proof fn lemma_ws_prefix_unique(s: Seq<char>, c: int)
    requires
        0 <= c <= s.len(),
        forall|j: int| 0 <= j < c ==> is_space(s[j]),
        c < s.len() ==> !is_space(s[c]),
    ensures
        ws_prefix_len(s) == c,
    decreases s.len(),
{
    if c == 0 {
    } else {
        assert(is_space(s[0]));
        assert forall|j: int| 0 <= j < c - 1 implies is_space(s.drop_first()[j]) by {
            assert(is_space(s[j + 1]));
        }
        lemma_ws_prefix_unique(s.drop_first(), c - 1);
    }
}

pub proof fn lemma_ws_suffix_props(s: Seq<char>)
    ensures
        0 <= ws_suffix_start(s) <= s.len(),
        forall|j: int| ws_suffix_start(s) <= j < s.len() ==> is_space(s[j]),
        ws_suffix_start(s) > 0 ==> !is_space(s[ws_suffix_start(s) - 1]),
    decreases s.len(),
{
    if s.len() == 0 || !is_space(s.last()) {
    } else {
        lemma_ws_suffix_props(s.drop_last());
        assert forall|j: int| ws_suffix_start(s) <= j < s.len() implies is_space(s[j]) by {
            if j < s.len() - 1 {
                assert(is_space(s.drop_last()[j]));
            }
        }
    }
}

pub proof fn lemma_ws_suffix_unique(s: Seq<char>, c: int)
    requires
        0 <= c <= s.len(),
        forall|j: int| c <= j < s.len() ==> is_space(s[j]),
        c > 0 ==> !is_space(s[c - 1]),
    ensures
        ws_suffix_start(s) == c,
    decreases s.len(),
{
    if c == s.len() {
        if s.len() > 0 {
            assert(!is_space(s.last()));
        }
    } else {
        assert(is_space(s.last()));
        assert forall|j: int| c <= j < s.len() - 1 implies is_space(s.drop_last()[j]) by {
            assert(is_space(s[j]));
        }
        lemma_ws_suffix_unique(s.drop_last(), c);
    }
}

pub proof fn lemma_find_eq_unique(s: Seq<char>, c: int)
    requires
        0 <= c <= s.len(),
        forall|j: int| 0 <= j < c ==> s[j] != '=',
        c < s.len() ==> s[c] == '=',
    ensures
        find_eq(s) == c,
    decreases s.len(),
{
    if c == 0 {
    } else {
        assert(s[0] != '=');
        assert forall|j: int| 0 <= j < c - 1 implies s.drop_first()[j] != '=' by {
            assert(s[j + 1] != '=');
        }
        lemma_find_eq_unique(s.drop_first(), c - 1);
    }
}

pub proof fn lemma_trim_props(s: Seq<char>)
    ensures
        ws_prefix_len(s) < s.len() ==> ws_prefix_len(s) < ws_suffix_start(s) <= s.len(),
        trim(s).len() == 0 <==> ws_prefix_len(s) == s.len(),
        trim(s).len() > 0 ==> !is_space(trim(s)[0]),
        trim(s).len() > 0 ==> !is_space(trim(s)[trim(s).len() - 1]),
{
    lemma_ws_prefix_props(s);
    lemma_ws_suffix_props(s);
    if ws_prefix_len(s) < s.len() {
        if ws_suffix_start(s) <= ws_prefix_len(s) {
            assert(is_space(s[ws_prefix_len(s)]));
        }
    }
}

/// Dropping the whitespace prefix does not change the trim.
pub proof fn lemma_trim_skip_prefix(s: Seq<char>)
    ensures
        trim(s.skip(ws_prefix_len(s))) == trim(s),
{
    lemma_ws_prefix_props(s);
    lemma_ws_suffix_props(s);
    lemma_trim_props(s);
    let a = ws_prefix_len(s);
    if a == s.len() {
        assert(s.skip(a) =~= Seq::<char>::empty());
        assert(trim(Seq::<char>::empty()) =~= Seq::<char>::empty());
    } else {
        let t = s.skip(a);
        lemma_ws_prefix_unique(t, 0);
        let b = ws_suffix_start(s);
        assert forall|j: int| b - a <= j < t.len() implies is_space(t[j]) by {
            assert(is_space(s[j + a]));
        }
        lemma_ws_suffix_unique(t, b - a);
        assert(t.subrange(0, b - a) =~= s.subrange(a, b));
    }
}

/// Dropping the whitespace suffix does not change the trim.
pub proof fn lemma_trim_take_suffix(s: Seq<char>)
    ensures
        trim(s.take(ws_suffix_start(s))) == trim(s),
{
    lemma_ws_prefix_props(s);
    lemma_ws_suffix_props(s);
    lemma_trim_props(s);
    let a = ws_prefix_len(s);
    let b = ws_suffix_start(s);
    let t = s.take(b);
    if a == s.len() {
        // all whitespace: b == 0
        if b > 0 {
            assert(!is_space(s[b - 1]));
            assert(is_space(s[b - 1]));
        }
        assert(t =~= Seq::<char>::empty());
        assert(trim(Seq::<char>::empty()) =~= Seq::<char>::empty());
        assert(trim(s) =~= Seq::<char>::empty());
    } else {
        assert(a < b);
        assert forall|j: int| 0 <= j < a implies is_space(t[j]) by {
            assert(is_space(s[j]));
        }
        lemma_ws_prefix_unique(t, a);
        lemma_ws_suffix_unique(t, b);
        assert(t.subrange(a, b) =~= s.subrange(a, b));
    }
}

/// Appending one whitespace character does not change the trim.
pub proof fn lemma_trim_pad_right(s: Seq<char>, c: char)
    requires
        is_space(c),
    ensures
        trim(s + seq![c]) == trim(s),
{
    let p = s + seq![c];
    lemma_ws_prefix_props(s);
    lemma_ws_suffix_props(s);
    lemma_trim_props(s);
    let a = ws_prefix_len(s);
    let b = ws_suffix_start(s);
    if a == s.len() {
        assert forall|j: int| 0 <= j < p.len() implies is_space(p[j]) by {
            if j < s.len() {
                assert(is_space(s[j]));
            }
        }
        lemma_ws_prefix_unique(p, p.len() as int);
        assert(trim(p) =~= Seq::<char>::empty());
        assert(trim(s) =~= Seq::<char>::empty());
    } else {
        assert forall|j: int| 0 <= j < a implies is_space(p[j]) by {
            assert(is_space(s[j]));
        }
        assert(p[a] == s[a]);
        lemma_ws_prefix_unique(p, a);
        assert forall|j: int| b <= j < p.len() implies is_space(p[j]) by {
            if j < s.len() {
                assert(is_space(s[j]));
            }
        }
        assert(b > 0 && p[b - 1] == s[b - 1]);
        lemma_ws_suffix_unique(p, b);
        assert(p.subrange(a, b) =~= s.subrange(a, b));
    }
}

/// Prepending one whitespace character does not change the trim.
pub proof fn lemma_trim_pad_left(s: Seq<char>, c: char)
    requires
        is_space(c),
    ensures
        trim(seq![c] + s) == trim(s),
{
    let p = seq![c] + s;
    lemma_ws_prefix_props(s);
    lemma_ws_suffix_props(s);
    lemma_trim_props(s);
    let a = ws_prefix_len(s);
    let b = ws_suffix_start(s);
    if a == s.len() {
        assert forall|j: int| 0 <= j < p.len() implies is_space(p[j]) by {
            if j > 0 {
                assert(is_space(s[j - 1]));
            }
        }
        lemma_ws_prefix_unique(p, p.len() as int);
        assert(trim(p) =~= Seq::<char>::empty());
        assert(trim(s) =~= Seq::<char>::empty());
    } else {
        assert forall|j: int| 0 <= j < a + 1 implies is_space(p[j]) by {
            if j > 0 {
                assert(is_space(s[j - 1]));
            }
        }
        assert(p[a + 1] == s[a]);
        lemma_ws_prefix_unique(p, a + 1);
        assert forall|j: int| b + 1 <= j < p.len() implies is_space(p[j]) by {
            assert(is_space(s[j - 1]));
        }
        assert(p[b] == s[b - 1]);
        lemma_ws_suffix_unique(p, b + 1);
        assert(p.subrange(a + 1, b + 1) =~= s.subrange(a, b));
    }
}

/// Prepending newline-free text onto the input moves it into the current line.
pub proof fn lemma_lines_rec_no_nl(x: Seq<char>, y: Seq<char>, cur: Seq<char>)
    requires
        forall|j: int| 0 <= j < x.len() ==> x[j] != '\n',
    ensures
        lines_rec(x + y, cur) == lines_rec(y, cur + x),
    decreases x.len(),
{
    if x.len() == 0 {
        assert(x + y =~= y);
        assert(cur + x =~= cur);
    } else {
        assert((x + y)[0] == x[0]);
        assert((x + y).drop_first() =~= x.drop_first() + y);
        assert(cur.push(x[0]) + x.drop_first() =~= cur + x);
        assert forall|j: int| 0 <= j < x.drop_first().len() implies x.drop_first()[j] != '\n' by {
            assert(x[j + 1] != '\n');
        }
        lemma_lines_rec_no_nl(x.drop_first(), y, cur.push(x[0]));
    }
}

/// One step of line splitting: the segment `[i, e)` holds no newline and
/// either ends at a newline or at the end of the text.
pub proof fn lemma_lines_step(s: Seq<char>, i: int, e: int)
    requires
        0 <= i <= e <= s.len(),
        i < s.len(),
        forall|j: int| i <= j < e ==> s[j] != '\n',
        e < s.len() ==> s[e] == '\n',
    ensures
        spec_lines(s.skip(i)) == seq![s.subrange(i, e)] + (if e < s.len() {
            spec_lines(s.skip(e + 1))
        } else {
            Seq::<Seq<char>>::empty()
        }),
{
    let line = s.subrange(i, e);
    assert forall|j: int| 0 <= j < line.len() implies line[j] != '\n' by {
        assert(s[i + j] != '\n');
    }
    if e < s.len() {
        let rest = s.skip(e + 1);
        assert(s.skip(i) =~= line + (seq!['\n'] + rest));
        lemma_lines_rec_no_nl(line, seq!['\n'] + rest, Seq::empty());
        assert(Seq::<char>::empty() + line =~= line);
        assert((seq!['\n'] + rest)[0] == '\n');
        assert((seq!['\n'] + rest).drop_first() =~= rest);
        assert(lines_rec(seq!['\n'] + rest, line) == seq![line] + lines_rec(rest, Seq::empty()));
    } else {
        assert(s.skip(i) =~= line + Seq::<char>::empty());
        lemma_lines_rec_no_nl(line, Seq::empty(), Seq::empty());
        assert(Seq::<char>::empty() + line =~= line);
        assert(line.len() > 0);
        assert(lines_rec(Seq::<char>::empty(), line) == seq![line]);
        assert(seq![line] =~= seq![line] + Seq::<Seq<char>>::empty());
    }
}

/// The trimmed text of the character range `[from, to)` of `s`.
#[verifier::loop_isolation(false)]
pub fn trimmed_of<'a>(s: &'a str, from: usize, to: usize) -> (t: &'a str)
    requires
        from <= to <= s@.len(),
    ensures
        t@ == trim(s@.subrange(from as int, to as int)),
{
    let ghost sub = s@.subrange(from as int, to as int);
    let mut a = from;
    while a < to && is_space_char(s.get_char(a))
        invariant
            from <= a <= to,
            forall|j: int| from <= j < a ==> is_space(s@[j]),
        decreases to - a,
    {
        a += 1;
    }
    proof {
        assert forall|j: int| 0 <= j < a - from implies is_space(sub[j]) by {
            assert(is_space(s@[from + j]));
        }
    }
    if a == to {
        proof {
            lemma_ws_prefix_unique(sub, to - from);
            assert(s@.subrange(to as int, to as int) =~= Seq::<char>::empty());
            assert(trim(sub) =~= Seq::<char>::empty());
        }
        s.substring_char(to, to)
    } else {
        let mut b = to;
        while b > a + 1 && is_space_char(s.get_char(b - 1))
            invariant
                a < b <= to,
                forall|j: int| b <= j < to ==> is_space(s@[j]),
            decreases b,
        {
            b -= 1;
        }
        // at exit, either b == a + 1 or s@[b - 1] is not whitespace; in the
        // former case s@[a] is not whitespace either, so both give the bound
        proof {
            lemma_ws_prefix_unique(sub, a - from);
            assert(!is_space(sub[(b - 1 - from) as int]));
            assert forall|j: int| b - from <= j < sub.len() implies is_space(sub[j]) by {
                assert(is_space(s@[from + j]));
            }
            lemma_ws_suffix_unique(sub, b - from);
            assert(sub.subrange(a - from, b - from) =~= s@.subrange(a as int, b as int));
        }
        s.substring_char(a, b)
    }
}

/// The position of the first `'='` of `t`, or its length if there is none.
#[verifier::loop_isolation(false)]
pub fn find_first_eq(t: &str) -> (k: usize)
    ensures
        k <= t@.len(),
        k as int == find_eq(t@),
{
    let n = t.unicode_len();
    let mut k: usize = 0;
    while k < n && t.get_char(k) != '='
        invariant
            0 <= k <= n,
            n == t@.len(),
            forall|j: int| 0 <= j < k ==> t@[j] != '=',
        decreases n - k,
    {
        k += 1;
    }
    proof {
        lemma_find_eq_unique(t@, k as int);
    }
    k
}

/// The end of the line that starts at `from`: the index of the next newline,
/// or the length of the text.
#[verifier::loop_isolation(false)]
pub fn line_end(s: &str, from: usize, n: usize) -> (e: usize)
    requires
        from <= n,
        n == s@.len(),
    ensures
        from <= e <= n,
        forall|j: int| from <= j < e ==> s@[j] != '\n',
        e < n ==> s@[e as int] == '\n',
{
    let mut e = from;
    while e < n && s.get_char(e) != '\n'
        invariant
            from <= e <= n,
            n == s@.len(),
            forall|j: int| from <= j < e ==> s@[j] != '\n',
        decreases n - e,
    {
        e += 1;
    }
    e
}

} // verus!
