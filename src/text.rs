use vstd::prelude::*;

verus! {

/// How the fields of a line are delimited; fixed for a whole document.
#[derive(Debug, Clone, Copy, PartialEq, Eq)]
pub enum Dialect {
    /// Fields are separated by exactly one tab.
    Tab,
    /// Fields are separated by runs of whitespace.
    Whitespace,
}

/// What separates the pieces when a sequence of characters is split.
#[derive(Clone, Copy)]
pub enum Separator {
    Newline,
    Tab,
    Space,
}

/// Whitespace inside a line: every Unicode `White_Space` character but `\n`,
/// which separates lines.
pub open spec fn is_space(c: char) -> bool {
    c == '\t' || c == '\u{b}' || c == '\u{c}' || c == '\r' || c == ' ' || c == '\u{85}'
        || c == '\u{a0}' || c == '\u{1680}' || ('\u{2000}' <= c && c <= '\u{200a}')
        || c == '\u{2028}' || c == '\u{2029}' || c == '\u{202f}' || c == '\u{205f}'
        || c == '\u{3000}'
}

pub open spec fn is_separator(c: char, sep: Separator) -> bool {
    match sep {
        Separator::Newline => c == '\n',
        Separator::Tab => c == '\t',
        Separator::Space => is_space(c),
    }
}

/// The pieces of `s` between separators, in order: one more than the number
/// of separators, some of them possibly empty.
pub open spec fn split_spec(s: Seq<char>, sep: Separator) -> Seq<Seq<char>>
    decreases s.len(),
{
    if s.len() == 0 {
        seq![Seq::<char>::empty()]
    } else {
        let before = split_spec(s.drop_last(), sep);
        if is_separator(s.last(), sep) {
            before.push(Seq::<char>::empty())
        } else {
            before.update(before.len() - 1, before.last().push(s.last()))
        }
    }
}

pub proof fn lemma_split_nonempty(s: Seq<char>, sep: Separator)
    ensures
        split_spec(s, sep).len() >= 1,
    decreases s.len(),
{
    if s.len() > 0 {
        lemma_split_nonempty(s.drop_last(), sep);
    }
}

pub open spec fn has_space(t: Seq<char>) -> bool {
    exists|i: int| 0 <= i < t.len() && is_space(#[trigger] t[i])
}

/// A field: non-empty, without whitespace.
pub open spec fn is_field(t: Seq<char>) -> bool {
    t.len() > 0 && !has_space(t)
}

/// The fields of a line under a dialect, or `None` where the line breaks the
/// dialect's delimiter discipline (an empty field, or whitespace inside a field
/// of a tab-separated line).
pub open spec fn tokens_spec(line: Seq<char>, d: Dialect) -> Option<Seq<Seq<char>>> {
    match d {
        Dialect::Tab => {
            let f = split_spec(line, Separator::Tab);
            if forall|i: int| 0 <= i < f.len() ==> is_field(#[trigger] f[i]) {
                Some(f)
            } else {
                None
            }
        },
        Dialect::Whitespace => Some(drop_empty(split_spec(line, Separator::Space))),
    }
}

/// The non-empty pieces of `ts`, in order.
pub open spec fn drop_empty(ts: Seq<Seq<char>>) -> Seq<Seq<char>>
    decreases ts.len(),
{
    if ts.len() == 0 {
        ts
    } else if ts.last().len() == 0 {
        drop_empty(ts.drop_last())
    } else {
        drop_empty(ts.drop_last()).push(ts.last())
    }
}

pub open spec fn trim_start(s: Seq<char>) -> Seq<char>
    decreases s.len(),
{
    if s.len() > 0 && is_space(s[0]) {
        trim_start(s.drop_first())
    } else {
        s
    }
}

pub open spec fn trim_end(s: Seq<char>) -> Seq<char>
    decreases s.len(),
{
    if s.len() > 0 && is_space(s.last()) {
        trim_end(s.drop_last())
    } else {
        s
    }
}

/// `s` without leading and trailing whitespace.
pub open spec fn trim(s: Seq<char>) -> Seq<char> {
    trim_end(trim_start(s))
}

pub fn is_space_char(c: char) -> (r: bool)
    ensures
        r == is_space(c),
{
    c == '\t' || c == '\u{b}' || c == '\u{c}' || c == '\r' || c == ' ' || c == '\u{85}'
        || c == '\u{a0}' || c == '\u{1680}' || ('\u{2000}' <= c && c <= '\u{200a}')
        || c == '\u{2028}' || c == '\u{2029}' || c == '\u{202f}' || c == '\u{205f}'
        || c == '\u{3000}'
}

fn is_separator_char(c: char, sep: Separator) -> (r: bool)
    ensures
        r == is_separator(c, sep),
{
    match sep {
        Separator::Newline => c == '\n',
        Separator::Tab => c == '\t',
        Separator::Space => is_space_char(c),
    }
}

pub open spec fn views_of(v: Seq<Vec<char>>) -> Seq<Seq<char>> {
    v.map_values(|x: Vec<char>| x@)
}

/// Splits `s` at every separator.
pub fn split_by(s: &Vec<char>, sep: Separator) -> (r: Vec<Vec<char>>)
    ensures
        views_of(r@) == split_spec(s@, sep),
{
    let mut done: Vec<Vec<char>> = Vec::new();
    let mut cur: Vec<char> = Vec::new();
    let mut i: usize = 0;
    while i < s.len()
        invariant
            i <= s.len(),
            views_of(done@).push(cur@) == split_spec(s@.subrange(0, i as int), sep),
        decreases s.len() - i,
    {
        let c = s[i];
        proof {
            let p = s@.subrange(0, i as int + 1);
            assert(p.drop_last() == s@.subrange(0, i as int));
            assert(p.last() == c);
        }
        if is_separator_char(c, sep) {
            let ghost before = views_of(done@);
            let piece = cur;
            cur = Vec::new();
            done.push(piece);
            assert(views_of(done@) =~= before.push(piece@));
            assert(views_of(done@).push(cur@) =~= split_spec(s@.subrange(0, i as int + 1), sep));
        } else {
            let ghost before = views_of(done@).push(cur@);
            cur.push(c);
            assert(views_of(done@).push(cur@) =~= before.update(before.len() - 1, before.last().push(c)));
        }
        i = i + 1;
    }
    assert(s@.subrange(0, s.len() as int) == s@);
    done.push(cur);
    assert(views_of(done@) =~= split_spec(s@, sep));
    done
}

fn contains_space(t: &Vec<char>) -> (r: bool)
    ensures
        r == has_space(t@),
{
    let mut i: usize = 0;
    while i < t.len()
        invariant
            i <= t.len(),
            forall|j: int| 0 <= j < i ==> !is_space(#[trigger] t@[j]),
        decreases t.len() - i,
    {
        if is_space_char(t[i]) {
            return true;
        }
        i = i + 1;
    }
    false
}

/// Splits a line into its fields under a dialect; `None` where the line breaks
/// the dialect's delimiter discipline.
pub fn tokenize(line: &Vec<char>, d: Dialect) -> (r: Option<Vec<Vec<char>>>)
    ensures
        match r {
            Some(ts) => tokens_spec(line@, d) == Some(views_of(ts@)),
            None => tokens_spec(line@, d) is None,
        },
{
    match d {
        Dialect::Tab => {
            let f = split_by(line, Separator::Tab);
            let ghost fv = views_of(f@);
            let mut i: usize = 0;
            while i < f.len()
                invariant
                    i <= f.len(),
                    fv == views_of(f@),
                    fv == split_spec(line@, Separator::Tab),
                    d is Tab,
                    forall|j: int| 0 <= j < i ==> is_field(#[trigger] fv[j]),
                decreases f.len() - i,
            {
                assert(fv[i as int] == f@[i as int]@);
                if f[i].len() == 0 || contains_space(&f[i]) {
                    assert(!is_field(fv[i as int]));
                    return None;
                }
                i = i + 1;
            }
            Some(f)
        },
        Dialect::Whitespace => {
            let f = split_by(line, Separator::Space);
            let ghost fv = views_of(f@);
            let mut out: Vec<Vec<char>> = Vec::new();
            let mut i: usize = 0;
            while i < f.len()
                invariant
                    i <= f.len(),
                    fv == views_of(f@),
                    fv == split_spec(line@, Separator::Space),
                    d is Whitespace,
                    views_of(out@) == drop_empty(fv.subrange(0, i as int)),
                decreases f.len() - i,
            {
                let ghost before = views_of(out@);
                assert(fv.subrange(0, i as int + 1).drop_last() == fv.subrange(0, i as int));
                assert(fv.subrange(0, i as int + 1).last() == f@[i as int]@);
                if f[i].len() > 0 {
                    out.push(f[i].clone());
                    assert(views_of(out@) =~= before.push(fv[i as int]));
                }
                i = i + 1;
            }
            assert(fv.subrange(0, f.len() as int) == fv);
            Some(out)
        },
    }
}

/// Removes leading and trailing whitespace.
pub fn trim_chars(s: &Vec<char>, from: usize) -> (r: Vec<char>)
    requires
        from <= s.len(),
    ensures
        r@ == trim(s@.subrange(from as int, s.len() as int)),
{
    let mut i = from;
    while i < s.len() && is_space_char(s[i])
        invariant
            from <= i <= s.len(),
            trim_start(s@.subrange(from as int, s.len() as int)) == trim_start(s@.subrange(i as int, s.len() as int)),
        decreases s.len() - i,
    {
        assert(s@.subrange(i as int, s.len() as int).drop_first() == s@.subrange(i as int + 1, s.len() as int));
        i = i + 1;
    }
    let ghost t = s@.subrange(i as int, s.len() as int);
    assert(trim_start(t) == t);
    let mut j = s.len();
    while j > i && is_space_char(s[j - 1])
        invariant
            i <= j <= s.len(),
            t == s@.subrange(i as int, s.len() as int),
            trim_end(t) == trim_end(s@.subrange(i as int, j as int)),
        decreases j,
    {
        assert(s@.subrange(i as int, j as int).drop_last() == s@.subrange(i as int, j as int - 1));
        j = j - 1;
    }
    let mut r: Vec<char> = Vec::new();
    let mut k = i;
    while k < j
        invariant
            i <= k <= j <= s.len(),
            r@ == s@.subrange(i as int, k as int),
        decreases j - k,
    {
        r.push(s[k]);
        k = k + 1;
    }
    r
}

/// The first index at or after `from` that holds whitespace, or `s.len()`.
pub open spec fn first_space(s: Seq<char>, from: int) -> int
    decreases s.len() - from,
{
    if from >= s.len() {
        s.len() as int
    } else if is_space(s[from]) {
        from
    } else {
        first_space(s, from + 1)
    }
}

pub proof fn lemma_first_space_bounds(s: Seq<char>, from: int)
    requires
        0 <= from <= s.len(),
    ensures
        from <= first_space(s, from) <= s.len(),
    decreases s.len() - from,
{
    if from < s.len() && !is_space(s[from]) {
        lemma_first_space_bounds(s, from + 1);
    }
}

/// The first word of a line: its leading run of non-whitespace characters
/// (after leading whitespace, in the whitespace dialect).
pub open spec fn leading_word(line: Seq<char>, d: Dialect) -> Seq<char> {
    let start = match d {
        Dialect::Tab => line,
        Dialect::Whitespace => trim_start(line),
    };
    start.subrange(0, first_space(start, 0))
}

/// Finds the first word of a line.
pub fn leading_word_of(line: &Vec<char>, d: Dialect) -> (r: Vec<char>)
    ensures
        r@ == leading_word(line@, d),
{
    let mut i: usize = 0;
    assert(line@.subrange(0, line.len() as int) == line@);
    if let Dialect::Whitespace = d {
        while i < line.len() && is_space_char(line[i])
            invariant
                i <= line.len(),
                trim_start(line@) == trim_start(line@.subrange(i as int, line.len() as int)),
            decreases line.len() - i,
        {
            assert(line@.subrange(i as int, line.len() as int).drop_first() == line@.subrange(i as int + 1, line.len() as int));
            i = i + 1;
        }
    }
    let ghost start = line@.subrange(i as int, line.len() as int);
    proof {
        assert(line@.subrange(0, line.len() as int) == line@);
        if d is Whitespace {
            assert(trim_start(start) == start);
        }
        assert(start == match d {
            Dialect::Tab => line@,
            Dialect::Whitespace => trim_start(line@),
        });
    }
    let mut r: Vec<char> = Vec::new();
    let mut k = i;
    while k < line.len() && !is_space_char(line[k])
        invariant
            i <= k <= line.len(),
            start == line@.subrange(i as int, line.len() as int),
            first_space(start, 0) == first_space(start, k - i),
            r@ == line@.subrange(i as int, k as int),
        decreases line.len() - k,
    {
        r.push(line[k]);
        k = k + 1;
    }
    assert(r@ == start.subrange(0, k - i));
    r
}

/// A line without the `\r` of a `\r\n` terminator.
pub open spec fn strip_cr(l: Seq<char>) -> Seq<char> {
    if l.len() > 0 && l.last() == '\r' {
        l.drop_last()
    } else {
        l
    }
}

/// The lines of a document: split at `\n`, without a final empty piece (the
/// last line may or may not end with `\n`) and without `\r` before `\n`.
pub open spec fn doc_lines(s: Seq<char>) -> Seq<Seq<char>> {
    let raw = split_spec(s, Separator::Newline);
    let kept = if raw.last().len() == 0 {
        raw.drop_last()
    } else {
        raw
    };
    kept.map_values(|l: Seq<char>| strip_cr(l))
}

/// Splits a document into its lines.
pub fn lines_of(s: &Vec<char>) -> (r: Vec<Vec<char>>)
    ensures
        views_of(r@) == doc_lines(s@),
{
    let raw = split_by(s, Separator::Newline);
    let ghost rv = views_of(raw@);
    proof {
        lemma_split_nonempty(s@, Separator::Newline);
    }
    let n = raw.len();
    let kept = if raw[n - 1].len() == 0 {
        n - 1
    } else {
        n
    };
    let ghost kv = if rv.last().len() == 0 {
        rv.drop_last()
    } else {
        rv
    };
    assert(kv.len() == kept);
    let mut out: Vec<Vec<char>> = Vec::new();
    let mut i: usize = 0;
    while i < kept
        invariant
            kept <= raw.len(),
            rv == views_of(raw@),
            kv.len() == kept,
            forall|j: int| 0 <= j < kept ==> kv[j] == #[trigger] rv[j],
            i <= kept,
            views_of(out@) == kv.subrange(0, i as int).map_values(|l: Seq<char>| strip_cr(l)),
        decreases kept - i,
    {
        let line = &raw[i];
        let mut l: Vec<char> = Vec::new();
        let end = if line.len() > 0 && line[line.len() - 1] == '\r' {
            line.len() - 1
        } else {
            line.len()
        };
        let mut k: usize = 0;
        while k < end
            invariant
                end <= line.len(),
                k <= end,
                l@ == line@.subrange(0, k as int),
            decreases end - k,
        {
            l.push(line[k]);
            k = k + 1;
        }
        assert(l@ == strip_cr(kv[i as int])) by {
            assert(rv[i as int] == raw@[i as int]@);
            assert(kv[i as int] == line@);
            if line@.len() > 0 && line@.last() == '\r' {
                assert(line@.drop_last() =~= line@.subrange(0, end as int));
            } else {
                assert(line@ =~= line@.subrange(0, end as int));
            }
        };
        let ghost before = views_of(out@);
        out.push(l);
        assert(views_of(out@) =~= before.push(strip_cr(kv[i as int])));
        assert(kv.subrange(0, i as int + 1).map_values(|l: Seq<char>| strip_cr(l)) =~= kv.subrange(0, i as int).map_values(|l: Seq<char>| strip_cr(l)).push(strip_cr(kv[i as int])));
        i = i + 1;
    }
    assert(kv.subrange(0, kept as int) =~= kv);
    out
}

} // verus!
