//! Parsing of "tiny" symbol-remapping documents (version 1) and of the Java type
//! descriptors embedded in them.
use vstd::prelude::*;

pub mod canonical;
pub mod error;
pub mod java;
pub mod text;
pub mod v1;

pub use error::{DescriptorError, ErrorKind, ErrorKindView, TinyError};
pub use java::{parse_java_type, parse_java_type_at, DimensionSize, JavaType, TypeView};
pub use text::Dialect;
pub use v1::{parse_entries, parse_entry, Entry, EntryView};

use text::{doc_lines, lines_of, tokenize, tokens_spec, views_of};
use v1::{entries_spec, entries_view, parse_lines, strings_view};
use vstd::string::StringSliceAdditionalSpecFns;
use vstd::utf8::{decode_utf8, encode_utf8_decode_utf8, valid_utf8};

verus! {

/// A parsed mapping document.
#[derive(Debug, Clone, PartialEq, Eq)]
pub enum TinyVersion {
    /// A version 1 document: its records in order, and its namespaces in order.
    V1(Vec<Entry>, Vec<String>),
}

/// The mathematical model of a `TinyVersion`.
pub enum TinyView {
    V1(Seq<EntryView>, Seq<Seq<char>>),
}

impl View for TinyVersion {
    type V = TinyView;

    open spec fn view(&self) -> TinyView {
        match self {
            TinyVersion::V1(entries, names) => TinyView::V1(entries_view(entries@), strings_view(names@)),
        }
    }
}

/// Copies the characters of a string slice into a vector, in order.
pub(crate) fn chars_of(s: &str) -> (r: Vec<char>)
    ensures
        r@ == s@,
{
    let mut v: Vec<char> = Vec::new();
    for c in it: s.chars()
        invariant
            v@ == it.seq().subrange(0, it.index() as int),
    {
        v.push(c);
    }
    v
}

pub open spec fn version_literal() -> Seq<char> {
    seq!['v', '1']
}

/// No name occurs twice.
pub open spec fn distinct(names: Seq<Seq<char>>) -> bool {
    forall|i: int, j: int| 0 <= i < j < names.len() ==> names[i] != names[j]
}

/// The header line: `v1`, then one or more distinct namespace names.
pub open spec fn header_spec(line: Seq<char>, d: Dialect) -> Result<Seq<Seq<char>>, ErrorKindView> {
    match tokens_spec(line, d) {
        None => Err(ErrorKindView::InvalidHeader),
        Some(ts) => if ts.len() == 0 {
            Err(ErrorKindView::InvalidHeader)
        } else if ts[0] != version_literal() {
            Err(ErrorKindView::InvalidVersion)
        } else if ts.len() < 2 || !distinct(ts.drop_first()) {
            Err(ErrorKindView::InvalidHeader)
        } else {
            Ok(ts.drop_first())
        },
    }
}

/// A whole document: the header line, then one record per line. A failure
/// carries the 0-based index of its line.
pub open spec fn tiny_spec(s: Seq<char>, d: Dialect) -> Result<TinyView, (ErrorKindView, int)> {
    let lines = doc_lines(s);
    if lines.len() == 0 {
        Err((ErrorKindView::UnexpectedEof, 0))
    } else {
        match header_spec(lines[0], d) {
            Err(kind) => Err((kind, 0)),
            Ok(ns) => match entries_spec(lines, 1, ns.len(), d) {
                Ok(es) => Ok(TinyView::V1(es, ns)),
                Err(x) => Err(x),
            },
        }
    }
}

fn parse_header(line: &Vec<char>, d: Dialect) -> (r: Result<Vec<String>, ErrorKind>)
    ensures
        match r {
            Ok(ns) => header_spec(line@, d) == Ok::<Seq<Seq<char>>, ErrorKindView>(strings_view(ns@)),
            Err(kind) => header_spec(line@, d) == Err::<Seq<Seq<char>>, ErrorKindView>(kind@),
        },
{
    let ts = match tokenize(line, d) {
        Some(ts) => ts,
        None => {
            return Err(ErrorKind::InvalidHeader);
        },
    };
    let ghost tv = views_of(ts@);
    if ts.len() == 0 {
        return Err(ErrorKind::InvalidHeader);
    }
    assert(tv[0] == ts@[0]@);
    let first = &ts[0];
    if !(first.len() == 2 && first[0] == 'v' && first[1] == '1') {
        proof {
            if tv[0] == version_literal() {
                assert(first@[0] == 'v' && first@[1] == '1');
            }
        }
        return Err(ErrorKind::InvalidVersion);
    }
    assert(tv[0] =~= version_literal());
    if ts.len() < 2 {
        return Err(ErrorKind::InvalidHeader);
    }
    let ghost names = tv.drop_first();
    let mut j: usize = 1;
    while j < ts.len()
        invariant
            1 <= j <= ts.len(),
            tv == views_of(ts@),
            names == tv.drop_first(),
            tokens_spec(line@, d) == Some(tv),
            tv[0] == version_literal(),
            forall|a: int, b: int| 0 <= a < b < j - 1 ==> names[a] != names[b],
        decreases ts.len() - j,
    {
        let mut i: usize = 1;
        while i < j
            invariant
                1 <= i <= j < ts.len(),
                tv == views_of(ts@),
                names == tv.drop_first(),
                tokens_spec(line@, d) == Some(tv),
                tv[0] == version_literal(),
                forall|a: int, b: int| 0 <= a < b < j - 1 ==> names[a] != names[b],
                forall|a: int| 0 <= a < i - 1 ==> #[trigger] names[a] != names[j - 1],
            decreases j - i,
        {
            assert(tv[i as int] == ts@[i as int]@ && tv[j as int] == ts@[j as int]@);
            if v1::chars_equal(&ts[i], &ts[j]) {
                assert(!distinct(names)) by {
                    assert(names[i - 1] == names[j - 1]);
                };
                return Err(ErrorKind::InvalidHeader);
            }
            i = i + 1;
        }
        j = j + 1;
    }
    let names_out = v1::names_from(&ts, 1);
    assert(tv.subrange(1, tv.len() as int) =~= names);
    Ok(names_out)
}

/// The number of names a record gives, one per namespace; a comment gives none.
pub open spec fn names_count(e: EntryView) -> Option<nat> {
    match e {
        EntryView::Comment(_) => None,
        EntryView::Class { names } => Some(names.len()),
        EntryView::Field { names, .. } => Some(names.len()),
        EntryView::Method { names, .. } => Some(names.len()),
    }
}

proof fn lemma_entries_names(lines: Seq<Seq<char>>, i: int, ns: nat, d: Dialect)
    requires
        0 <= i,
    ensures
        entries_spec(lines, i, ns, d) matches Ok(es) ==> forall|k: int| 0 <= k < es.len() ==> #[trigger] names_count(es[k]) is None || names_count(es[k]) == Some(ns),
    decreases lines.len() - i,
{
    if i < lines.len() {
        lemma_entries_names(lines, i + 1, ns, d);
        if let Ok(es) = entries_spec(lines, i, ns, d) {
            let rest = entries_spec(lines, i + 1, ns, d)->Ok_0;
            assert forall|k: int| 0 <= k < es.len() implies #[trigger] names_count(es[k]) is None || names_count(es[k]) == Some(ns) by {
                if k > 0 {
                    assert(es[k] == rest[k - 1]);
                }
            };
        }
    }
}

/// A parsed document declares at least one namespace, no namespace twice, and
/// each of its class, field and method records has one name per namespace.
pub proof fn lemma_document_shape(s: Seq<char>, d: Dialect, es: Seq<EntryView>, ns: Seq<Seq<char>>)
    requires
        tiny_spec(s, d) == Ok::<TinyView, (ErrorKindView, int)>(TinyView::V1(es, ns)),
    ensures
        ns.len() >= 1,
        distinct(ns),
        forall|k: int| 0 <= k < es.len() ==> #[trigger] names_count(es[k]) is None || names_count(es[k]) == Some(ns.len()),
{
    lemma_entries_names(doc_lines(s), 1, ns.len(), d);
}

/// A document parse against its model; a failure reports the 1-based line.
pub open spec fn tiny_result_matches(r: Result<TinyVersion, TinyError>, s: Seq<char>, d: Dialect) -> bool {
    match r {
        Ok(t) => tiny_spec(s, d) == Ok::<TinyView, (ErrorKindView, int)>(t@),
        Err(e) => tiny_spec(s, d) == Err::<TinyView, (ErrorKindView, int)>((e.kind@, e.line - 1)),
    }
}

/// Parses a whole document under one dialect.
pub fn parse_tiny(input: &str, dialect: Dialect) -> (r: Result<TinyVersion, TinyError>)
    ensures
        tiny_result_matches(r, input@, dialect),
{
    let s = chars_of(input);
    let lines = lines_of(&s);
    let ghost lv = views_of(lines@);
    if lines.len() == 0 {
        return Err(TinyError { kind: ErrorKind::UnexpectedEof, line: 1 });
    }
    assert(lv[0] == lines@[0]@);
    let names = match parse_header(&lines[0], dialect) {
        Ok(names) => names,
        Err(kind) => {
            return Err(TinyError { kind, line: 1 });
        },
    };
    match parse_lines(&lines, 1, names.len(), dialect) {
        Ok(entries) => Ok(TinyVersion::V1(entries, names)),
        Err(e) => Err(e),
    }
}

/// Relies on `std::str::from_utf8`: it succeeds exactly on valid UTF-8, and then
/// the string slice has the input as its bytes.
#[verifier::external_body]
fn utf8_text(b: &[u8]) -> (r: Option<&str>)
    ensures
        r is Some <==> valid_utf8(b@),
        r matches Some(s) ==> s.spec_bytes() == b@,
{
    std::str::from_utf8(b).ok()
}

/// Parses a whole document given as bytes. Bytes that are not valid UTF-8 are an
/// `EncodingError` on line 1; otherwise the result is that of the decoded text.
pub fn parse_tiny_bytes(input: &[u8], dialect: Dialect) -> (r: Result<TinyVersion, TinyError>)
    ensures
        !valid_utf8(input@) ==> (r matches Err(e) && e.kind is EncodingError && e.line == 1),
        valid_utf8(input@) ==> tiny_result_matches(r, decode_utf8(input@), dialect),
{
    match utf8_text(input) {
        Some(text) => {
            proof {
                encode_utf8_decode_utf8(text@);
            }
            parse_tiny(text, dialect)
        },
        None => Err(TinyError { kind: ErrorKind::EncodingError, line: 1 }),
    }
}

} // verus!
