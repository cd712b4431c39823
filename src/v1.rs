use vstd::prelude::*;

use crate::error::{ErrorKind, ErrorKindView, TinyError};
use crate::java::{
    lemma_parse_bounds, parse_java_type_at, parse_type_spec, string_of_range, JavaType, TypeView,
};
use crate::text::{
    doc_lines, leading_word, leading_word_of, lines_of, tokenize, tokens_spec, trim, trim_chars,
    views_of, Dialect,
};

verus! {

/// One record of a version 1 mapping.
#[derive(Debug, Clone, PartialEq, Eq)]
pub enum Entry {
    /// Free text after a `#` marker, without surrounding whitespace.
    Comment(String),
    /// A class: its name in each namespace.
    Class { names: Vec<String> },
    /// A field of `owner`, of type `class`: its name in each namespace.
    Field { names: Vec<String>, owner: String, class: JavaType },
    /// A method of `owner`: its parameter and return types, and its name in each
    /// namespace.
    Method { names: Vec<String>, owner: String, arguments: Vec<JavaType>, return_type: JavaType },
}

/// The mathematical model of an `Entry`.
pub enum EntryView {
    Comment(Seq<char>),
    Class { names: Seq<Seq<char>> },
    Field { names: Seq<Seq<char>>, owner: Seq<char>, class: TypeView },
    Method {
        names: Seq<Seq<char>>,
        owner: Seq<char>,
        arguments: Seq<TypeView>,
        return_type: TypeView,
    },
}

pub open spec fn strings_view(v: Seq<String>) -> Seq<Seq<char>> {
    v.map_values(|s: String| s@)
}

pub open spec fn types_view(v: Seq<JavaType>) -> Seq<TypeView> {
    v.map_values(|t: JavaType| t@)
}

impl View for Entry {
    type V = EntryView;

    open spec fn view(&self) -> EntryView {
        match self {
            Entry::Comment(text) => EntryView::Comment(text@),
            Entry::Class { names } => EntryView::Class { names: strings_view(names@) },
            Entry::Field { names, owner, class } => EntryView::Field {
                names: strings_view(names@),
                owner: owner@,
                class: class@,
            },
            Entry::Method { names, owner, arguments, return_type } => EntryView::Method {
                names: strings_view(names@),
                owner: owner@,
                arguments: types_view(arguments@),
                return_type: return_type@,
            },
        }
    }
}

pub open spec fn class_keyword() -> Seq<char> {
    seq!['C', 'L', 'A', 'S', 'S']
}

pub open spec fn field_keyword() -> Seq<char> {
    seq!['F', 'I', 'E', 'L', 'D']
}

pub open spec fn method_keyword() -> Seq<char> {
    seq!['M', 'E', 'T', 'H', 'O', 'D']
}

/// A field that must hold exactly one type descriptor.
pub open spec fn whole_type_spec(t: Seq<char>) -> Result<TypeView, ErrorKindView> {
    match parse_type_spec(t, 0) {
        Ok((ty, end)) => if end == t.len() {
            Ok(ty)
        } else {
            Err(ErrorKindView::MalformedRecord)
        },
        Err((kind, _)) => Err(kind),
    }
}

/// The parameter descriptors of `t` from `pos` up to the closing `)`, written
/// back to back; on success, also the index of the `)`.
pub open spec fn params_spec(t: Seq<char>, pos: int) -> Result<(Seq<TypeView>, int), ErrorKindView>
    decreases t.len() - pos,
{
    if pos >= t.len() {
        Err(ErrorKindView::UnexpectedEof)
    } else if t[pos] == ')' {
        Ok((Seq::<TypeView>::empty(), pos))
    } else {
        match parse_type_spec(t, pos) {
            Ok((ty, end)) => if pos < end {
                match params_spec(t, end) {
                    Ok((rest, close)) => Ok((seq![ty] + rest, close)),
                    Err(kind) => Err(kind),
                }
            } else {
                Err(ErrorKindView::MalformedRecord)
            },
            Err((kind, _)) => Err(kind),
        }
    }
}

/// A method signature field: `(` parameters `)` return type, nothing after.
pub open spec fn signature_spec(t: Seq<char>) -> Result<(Seq<TypeView>, TypeView), ErrorKindView> {
    if t.len() == 0 {
        Err(ErrorKindView::UnexpectedEof)
    } else if t[0] != '(' {
        Err(ErrorKindView::MalformedRecord)
    } else {
        match params_spec(t, 1) {
            Ok((params, close)) => match parse_type_spec(t, close + 1) {
                Ok((ret, end)) => if end == t.len() {
                    Ok((params, ret))
                } else {
                    Err(ErrorKindView::MalformedRecord)
                },
                Err((kind, _)) => Err(kind),
            },
            Err(kind) => Err(kind),
        }
    }
}

/// A record from the fields of its line, with `ns` namespaces declared. Fewer
/// fields than the kind needs is `UnexpectedEof`; more is `MalformedRecord`.
pub open spec fn record_spec(ts: Seq<Seq<char>>, ns: nat) -> Result<EntryView, ErrorKindView> {
    if ts.len() == 0 {
        Err(ErrorKindView::MalformedRecord)
    } else if ts[0] == class_keyword() {
        if ts.len() < 1 + ns {
            Err(ErrorKindView::UnexpectedEof)
        } else if ts.len() > 1 + ns {
            Err(ErrorKindView::MalformedRecord)
        } else {
            Ok(EntryView::Class { names: ts.subrange(1, ts.len() as int) })
        }
    } else if ts[0] == field_keyword() {
        if ts.len() < 3 + ns {
            Err(ErrorKindView::UnexpectedEof)
        } else if ts.len() > 3 + ns {
            Err(ErrorKindView::MalformedRecord)
        } else {
            match whole_type_spec(ts[2]) {
                Ok(ty) => Ok(EntryView::Field { names: ts.subrange(3, ts.len() as int), owner: ts[1], class: ty }),
                Err(kind) => Err(kind),
            }
        }
    } else if ts[0] == method_keyword() {
        if ts.len() < 3 + ns {
            Err(ErrorKindView::UnexpectedEof)
        } else if ts.len() > 3 + ns {
            Err(ErrorKindView::MalformedRecord)
        } else {
            match signature_spec(ts[2]) {
                Ok((params, ret)) => Ok(
                    EntryView::Method {
                        names: ts.subrange(3, ts.len() as int),
                        owner: ts[1],
                        arguments: params,
                        return_type: ret,
                    },
                ),
                Err(kind) => Err(kind),
            }
        }
    } else {
        Err(ErrorKindView::UnknownEntryType(ts[0]))
    }
}

pub open spec fn is_keyword(w: Seq<char>) -> bool {
    w == class_keyword() || w == field_keyword() || w == method_keyword()
}

/// One record line (without its line terminator), with `ns` namespaces declared.
/// The line is classified by its first word before the rest is split.
pub open spec fn entry_spec(line: Seq<char>, ns: nat, d: Dialect) -> Result<EntryView, ErrorKindView> {
    if line.len() > 0 && line[0] == '#' {
        Ok(EntryView::Comment(trim(line.drop_first())))
    } else if leading_word(line, d).len() == 0 {
        Err(ErrorKindView::MalformedRecord)
    } else if !is_keyword(leading_word(line, d)) {
        Err(ErrorKindView::UnknownEntryType(leading_word(line, d)))
    } else {
        match tokens_spec(line, d) {
            Some(ts) => record_spec(ts, ns),
            None => Err(ErrorKindView::MalformedRecord),
        }
    }
}

fn string_of(t: &Vec<char>) -> (r: String)
    ensures
        r@ == t@,
{
    let r = string_of_range(t, 0, t.len());
    assert(t@.subrange(0, t.len() as int) == t@);
    r
}

pub(crate) fn chars_equal(t: &Vec<char>, w: &Vec<char>) -> (r: bool)
    ensures
        r == (t@ == w@),
{
    if t.len() != w.len() {
        return false;
    }
    let mut i: usize = 0;
    while i < t.len()
        invariant
            i <= t.len() == w.len(),
            forall|j: int| 0 <= j < i ==> t@[j] == w@[j],
        decreases t.len() - i,
    {
        if t[i] != w[i] {
            return false;
        }
        i = i + 1;
    }
    assert(t@ =~= w@);
    true
}

pub(crate) fn names_from(ts: &Vec<Vec<char>>, from: usize) -> (r: Vec<String>)
    requires
        from <= ts.len(),
    ensures
        strings_view(r@) == views_of(ts@).subrange(from as int, ts.len() as int),
{
    let mut r: Vec<String> = Vec::new();
    let mut i = from;
    while i < ts.len()
        invariant
            from <= i <= ts.len(),
            strings_view(r@) == views_of(ts@).subrange(from as int, i as int),
        decreases ts.len() - i,
    {
        let s = string_of(&ts[i]);
        let ghost before = strings_view(r@);
        r.push(s);
        assert(strings_view(r@) =~= before.push(s@));
        assert(views_of(ts@).subrange(from as int, i as int + 1) =~= views_of(ts@).subrange(from as int, i as int).push(ts@[i as int]@));
        i = i + 1;
    }
    r
}

fn parse_whole_type(t: &Vec<char>) -> (r: Result<JavaType, ErrorKind>)
    ensures
        match r {
            Ok(ty) => whole_type_spec(t@) == Ok::<TypeView, ErrorKindView>(ty@),
            Err(kind) => whole_type_spec(t@) == Err::<TypeView, ErrorKindView>(kind@),
        },
{
    match parse_java_type_at(t, 0) {
        Ok((ty, end)) => if end == t.len() {
            Ok(ty)
        } else {
            Err(ErrorKind::MalformedRecord)
        },
        Err(e) => Err(e.kind),
    }
}

fn parse_signature(t: &Vec<char>) -> (r: Result<(Vec<JavaType>, JavaType), ErrorKind>)
    ensures
        match r {
            Ok((params, ret)) => signature_spec(t@) == Ok::<(Seq<TypeView>, TypeView), ErrorKindView>((types_view(params@), ret@)),
            Err(kind) => signature_spec(t@) == Err::<(Seq<TypeView>, TypeView), ErrorKindView>(kind@),
        },
{
    if t.len() == 0 {
        return Err(ErrorKind::UnexpectedEof);
    }
    if t[0] != '(' {
        return Err(ErrorKind::MalformedRecord);
    }
    let mut params: Vec<JavaType> = Vec::new();
    let mut pos: usize = 1;
    loop
        invariant
            1 <= pos <= t.len(),
            t@[0] == '(',
            params_spec(t@, 1) == match params_spec(t@, pos as int) {
                Ok((rest, close)) => Ok::<(Seq<TypeView>, int), ErrorKindView>((types_view(params@) + rest, close)),
                Err(kind) => Err(kind),
            },
        ensures
            pos < t.len(),
            t@[0] == '(',
            params_spec(t@, 1) == Ok::<(Seq<TypeView>, int), ErrorKindView>((types_view(params@), pos as int)),
        decreases t.len() - pos,
    {
        if pos >= t.len() {
            return Err(ErrorKind::UnexpectedEof);
        }
        if t[pos] == ')' {
            assert(types_view(params@) + Seq::<TypeView>::empty() == types_view(params@));
            break;
        }
        match parse_java_type_at(t, pos) {
            Ok((ty, end)) => {
                proof {
                    lemma_parse_bounds(t@, pos as int);
                }
                let ghost before = types_view(params@);
                params.push(ty);
                assert(types_view(params@) =~= before.push(ty@));
                proof {
                    match params_spec(t@, end as int) {
                        Ok((rest, close)) => {
                            assert(before + (seq![ty@] + rest) =~= before.push(ty@) + rest);
                        },
                        Err(_) => {},
                    }
                }
                pos = end;
            },
            Err(e) => {
                return Err(e.kind);
            },
        }
    }
    match parse_java_type_at(t, pos + 1) {
        Ok((ret, end)) => if end == t.len() {
            Ok((params, ret))
        } else {
            Err(ErrorKind::MalformedRecord)
        },
        Err(e) => Err(e.kind),
    }
}

/// The record kind that a first field names.
enum Keyword {
    Class,
    Field,
    Method,
}

fn keyword_of(t: &Vec<char>) -> (r: Option<Keyword>)
    ensures
        r matches Some(Keyword::Class) <==> t@ == class_keyword(),
        r matches Some(Keyword::Field) <==> t@ == field_keyword(),
        r matches Some(Keyword::Method) <==> t@ == method_keyword(),
{
    if t.len() == 5 && t[0] == 'C' && t[1] == 'L' && t[2] == 'A' && t[3] == 'S' && t[4] == 'S' {
        assert(t@ =~= class_keyword());
        Some(Keyword::Class)
    } else if t.len() == 5 && t[0] == 'F' && t[1] == 'I' && t[2] == 'E' && t[3] == 'L' && t[4] == 'D' {
        assert(t@ =~= field_keyword());
        Some(Keyword::Field)
    } else if t.len() == 6 && t[0] == 'M' && t[1] == 'E' && t[2] == 'T' && t[3] == 'H' && t[4] == 'O' && t[5] == 'D' {
        assert(t@ =~= method_keyword());
        Some(Keyword::Method)
    } else {
        proof {
            if t@ == class_keyword() {
                assert(t@[0] == 'C' && t@[1] == 'L' && t@[2] == 'A' && t@[3] == 'S' && t@[4] == 'S');
            }
            if t@ == field_keyword() {
                assert(t@[0] == 'F' && t@[1] == 'I' && t@[2] == 'E' && t@[3] == 'L' && t@[4] == 'D');
            }
            if t@ == method_keyword() {
                assert(t@[0] == 'M' && t@[1] == 'E' && t@[2] == 'T' && t@[3] == 'H' && t@[4] == 'O' && t@[5] == 'D');
            }
        }
        None
    }
}

fn parse_record(ts: &Vec<Vec<char>>, ns: usize) -> (r: Result<Entry, ErrorKind>)
    ensures
        match r {
            Ok(e) => record_spec(views_of(ts@), ns as nat) == Ok::<EntryView, ErrorKindView>(e@),
            Err(kind) => record_spec(views_of(ts@), ns as nat) == Err::<EntryView, ErrorKindView>(kind@),
        },
{
    let ghost tv = views_of(ts@);
    if ts.len() == 0 {
        return Err(ErrorKind::MalformedRecord);
    }
    assert(tv[0] == ts@[0]@);
    match keyword_of(&ts[0]) {
        Some(Keyword::Class) => {
            if ts.len() - 1 < ns {
                Err(ErrorKind::UnexpectedEof)
            } else if ts.len() - 1 > ns {
                Err(ErrorKind::MalformedRecord)
            } else {
                Ok(Entry::Class { names: names_from(ts, 1) })
            }
        },
        Some(kw) => {
            if ts.len() < 3 || ts.len() - 3 < ns {
                return Err(ErrorKind::UnexpectedEof);
            }
            if ts.len() - 3 > ns {
                return Err(ErrorKind::MalformedRecord);
            }
            assert(tv[1] == ts@[1]@);
            assert(tv[2] == ts@[2]@);
            let owner = string_of(&ts[1]);
            let names = names_from(ts, 3);
            match kw {
                Keyword::Field => match parse_whole_type(&ts[2]) {
                    Ok(class) => Ok(Entry::Field { names, owner, class }),
                    Err(kind) => Err(kind),
                },
                _ => match parse_signature(&ts[2]) {
                    Ok((arguments, return_type)) => Ok(Entry::Method { names, owner, arguments, return_type }),
                    Err(kind) => Err(kind),
                },
            }
        },
        None => Err(ErrorKind::UnknownEntryType(string_of(&ts[0]))),
    }
}

/// Parses one record line (without its line terminator), with `namespaces`
/// namespaces declared.
pub fn parse_entry(line: &Vec<char>, namespaces: usize, dialect: Dialect) -> (r: Result<Entry, ErrorKind>)
    ensures
        match r {
            Ok(e) => entry_spec(line@, namespaces as nat, dialect) == Ok::<EntryView, ErrorKindView>(e@),
            Err(kind) => entry_spec(line@, namespaces as nat, dialect) == Err::<EntryView, ErrorKindView>(kind@),
        },
{
    if line.len() > 0 && line[0] == '#' {
        let text = trim_chars(line, 1);
        assert(line@.subrange(1, line@.len() as int) == line@.drop_first());
        return Ok(Entry::Comment(string_of(&text)));
    }
    let head = leading_word_of(line, dialect);
    if head.len() == 0 {
        return Err(ErrorKind::MalformedRecord);
    }
    if keyword_of(&head).is_none() {
        return Err(ErrorKind::UnknownEntryType(string_of(&head)));
    }
    match tokenize(line, dialect) {
        Some(ts) => parse_record(&ts, namespaces),
        None => Err(ErrorKind::MalformedRecord),
    }
}

pub open spec fn entries_view(v: Seq<Entry>) -> Seq<EntryView> {
    v.map_values(|e: Entry| e@)
}

/// The records of `lines` from index `i` on, or the first failure and the index
/// of its line.
pub open spec fn entries_spec(lines: Seq<Seq<char>>, i: int, ns: nat, d: Dialect) -> Result<Seq<EntryView>, (ErrorKindView, int)>
    decreases lines.len() - i,
{
    if i >= lines.len() {
        Ok(Seq::<EntryView>::empty())
    } else {
        match entry_spec(lines[i], ns, d) {
            Ok(e) => match entries_spec(lines, i + 1, ns, d) {
                Ok(rest) => Ok(seq![e] + rest),
                Err(x) => Err(x),
            },
            Err(kind) => Err((kind, i)),
        }
    }
}

/// A list of records against its model; a failure reports the 1-based line
/// number of the line index that the model gives.
pub open spec fn entries_result_matches(
    r: Result<Vec<Entry>, TinyError>,
    m: Result<Seq<EntryView>, (ErrorKindView, int)>,
) -> bool {
    match r {
        Ok(es) => m == Ok::<Seq<EntryView>, (ErrorKindView, int)>(entries_view(es@)),
        Err(e) => m == Err::<Seq<EntryView>, (ErrorKindView, int)>((e.kind@, e.line - 1)),
    }
}

/// Parses `lines[start..]` as records.
pub fn parse_lines(lines: &Vec<Vec<char>>, start: usize, namespaces: usize, dialect: Dialect) -> (r: Result<Vec<Entry>, TinyError>)
    requires
        start <= lines.len(),
    ensures
        entries_result_matches(r, entries_spec(views_of(lines@), start as int, namespaces as nat, dialect)),
{
    let ghost lv = views_of(lines@);
    let mut out: Vec<Entry> = Vec::new();
    let mut i = start;
    while i < lines.len()
        invariant
            start <= i <= lines.len(),
            lv == views_of(lines@),
            entries_spec(lv, start as int, namespaces as nat, dialect) == match entries_spec(lv, i as int, namespaces as nat, dialect) {
                Ok(rest) => Ok::<Seq<EntryView>, (ErrorKindView, int)>(entries_view(out@) + rest),
                Err(x) => Err(x),
            },
        decreases lines.len() - i,
    {
        assert(lv[i as int] == lines@[i as int]@);
        match parse_entry(&lines[i], namespaces, dialect) {
            Ok(e) => {
                let ghost before = entries_view(out@);
                out.push(e);
                assert(entries_view(out@) =~= before.push(e@));
                proof {
                    match entries_spec(lv, i as int + 1, namespaces as nat, dialect) {
                        Ok(rest) => {
                            assert(before + (seq![e@] + rest) =~= before.push(e@) + rest);
                        },
                        Err(_) => {},
                    }
                }
            },
            Err(kind) => {
                return Err(TinyError { kind, line: i + 1 });
            },
        }
        i = i + 1;
    }
    assert(entries_view(out@) + Seq::<EntryView>::empty() =~= entries_view(out@));
    Ok(out)
}

/// Parses the record lines of a version 1 document (the lines after the header),
/// with `namespaces` namespaces declared.
pub fn parse_entries(input: &str, namespaces: usize, dialect: Dialect) -> (r: Result<Vec<Entry>, TinyError>)
    ensures
        entries_result_matches(r, entries_spec(doc_lines(input@), 0, namespaces as nat, dialect)),
{
    let s = crate::chars_of(input);
    let lines = lines_of(&s);
    parse_lines(&lines, 0, namespaces, dialect)
}

} // verus!
