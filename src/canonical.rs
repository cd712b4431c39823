use vstd::prelude::*;

use crate::error::ErrorKindView;
use crate::text::{doc_lines, strip_cr};
use crate::v1::entries_spec;
use crate::java::{
    find_char, lemma_find_char_bounds, lemma_skip_brackets_bounds, parse_element_spec,
    parse_type_spec, primitive_of, skip_brackets, TypeView,
};
use crate::text::{
    drop_empty, first_space, has_space, leading_word, is_field, is_separator, is_space, split_spec, tokens_spec, trim,
    trim_end, trim_start, Dialect, Separator,
};
use crate::v1::{
    class_keyword, entry_spec, field_keyword, method_keyword, params_spec,
    signature_spec, whole_type_spec, EntryView,
};

verus! {

/// The descriptor text of a type.
pub open spec fn type_text(t: TypeView) -> Seq<char>
    decreases t,
{
    match t {
        TypeView::Void => seq!['V'],
        TypeView::Char => seq!['C'],
        TypeView::Byte => seq!['B'],
        TypeView::Short => seq!['S'],
        TypeView::Int => seq!['I'],
        TypeView::Long => seq!['J'],
        TypeView::Boolean => seq!['Z'],
        TypeView::Float => seq!['F'],
        TypeView::Double => seq!['D'],
        TypeView::Class(name) => seq!['L'] + name + seq![';'],
        TypeView::Array(dims, element) => Seq::new(dims, |i: int| '[') + type_text(*element),
    }
}

/// The descriptor texts of a list of types, back to back.
pub open spec fn types_text(ts: Seq<TypeView>) -> Seq<char>
    decreases ts.len(),
{
    if ts.len() == 0 {
        Seq::<char>::empty()
    } else {
        type_text(ts[0]) + types_text(ts.drop_first())
    }
}

/// The fields `ts` with `c` between each two of them.
pub open spec fn join(ts: Seq<Seq<char>>, c: char) -> Seq<char>
    decreases ts.len(),
{
    if ts.len() == 0 {
        Seq::<char>::empty()
    } else if ts.len() == 1 {
        ts[0]
    } else {
        join(ts.drop_last(), c).push(c) + ts.last()
    }
}

/// The delimiter that a dialect writes between fields.
pub open spec fn delimiter(d: Dialect) -> char {
    match d {
        Dialect::Tab => '\t',
        Dialect::Whitespace => ' ',
    }
}

/// The canonical line of a record under a dialect (without a line terminator).
pub open spec fn entry_text(e: EntryView, d: Dialect) -> Seq<char> {
    match e {
        EntryView::Comment(text) => seq!['#', ' '] + text,
        EntryView::Class { names } => join(seq![class_keyword()] + names, delimiter(d)),
        EntryView::Field { names, owner, class } => join(
            seq![field_keyword(), owner, type_text(class)] + names,
            delimiter(d),
        ),
        EntryView::Method { names, owner, arguments, return_type } => join(
            seq![
                method_keyword(),
                owner,
                seq!['('] + types_text(arguments) + seq![')'] + type_text(return_type),
            ] + names,
            delimiter(d),
        ),
    }
}

/// A successfully parsed descriptor is exactly the text of the type it gives.
pub proof fn lemma_parse_type_text(s: Seq<char>, pos: int)
    requires
        0 <= pos <= s.len(),
    ensures
        parse_type_spec(s, pos) matches Ok((t, end)) ==> s.subrange(pos, end) == type_text(t),
{
    lemma_skip_brackets_bounds(s, pos);
    let first = skip_brackets(s, pos);
    if pos < s.len() && s[pos] == '[' {
        if first < s.len() {
            lemma_find_char_bounds(s, first + 1, ';');
            lemma_element_text(s, first);
            if let Ok((t, end)) = parse_type_spec(s, pos) {
                let dims = (first - pos) as nat;
                assert(s.subrange(pos, first) =~= Seq::new(dims, |i: int| '['));
                assert(s.subrange(pos, end) =~= s.subrange(pos, first) + s.subrange(first, end));
            }
        }
    } else {
        lemma_element_text(s, pos);
    }
}

proof fn lemma_element_text(s: Seq<char>, pos: int)
    requires
        0 <= pos <= s.len(),
    ensures
        parse_element_spec(s, pos) matches Ok((t, end)) ==> s.subrange(pos, end) == type_text(t),
{
    if pos < s.len() {
        lemma_find_char_bounds(s, pos + 1, ';');
        if let Ok((t, end)) = parse_element_spec(s, pos) {
            if primitive_of(s[pos]) is Some {
                assert(s.subrange(pos, end) =~= seq![s[pos]]);
            } else {
                let e = find_char(s, pos + 1, ';');
                assert(s.subrange(pos, end) =~= seq!['L'] + s.subrange(pos + 1, e) + seq![';']);
            }
        }
    }
}

/// The parameter list parsed from `t` is the text between `pos` and the `)`.
proof fn lemma_params_text(t: Seq<char>, pos: int)
    requires
        0 <= pos <= t.len(),
    ensures
        params_spec(t, pos) matches Ok((ps, close)) ==> pos <= close < t.len() && t[close] == ')'
            && t.subrange(pos, close) == types_text(ps),
    decreases t.len() - pos,
{
    if pos < t.len() && t[pos] != ')' {
        crate::java::lemma_parse_bounds(t, pos);
        lemma_parse_type_text(t, pos);
        if let Ok((ty, end)) = parse_type_spec(t, pos) {
            lemma_params_text(t, end);
            if let Ok((rest, close)) = params_spec(t, end) {
                let ps = seq![ty] + rest;
                assert(ps[0] == ty);
                assert(ps.drop_first() =~= rest);
                assert(t.subrange(pos, close) =~= t.subrange(pos, end) + t.subrange(end, close));
            }
        }
    } else if pos < t.len() {
        assert(t.subrange(pos, pos) =~= Seq::<char>::empty());
    }
}

/// A method signature field is the canonical text of what it parses to.
proof fn lemma_signature_text(t: Seq<char>)
    ensures
        signature_spec(t) matches Ok((ps, ret)) ==> t == seq!['('] + types_text(ps) + seq![')'] + type_text(ret),
{
    if t.len() > 0 && t[0] == '(' {
        lemma_params_text(t, 1);
        if let Ok((ps, close)) = params_spec(t, 1) {
            lemma_parse_type_text(t, close + 1);
            if let Ok((ret, end)) = parse_type_spec(t, close + 1) {
                if end == t.len() {
                    assert(t =~= seq!['('] + t.subrange(1, close) + seq![')'] + t.subrange(close + 1, end));
                }
            }
        }
    }
}

/// A field holding one descriptor is the canonical text of its type.
proof fn lemma_whole_type_text(t: Seq<char>)
    ensures
        whole_type_spec(t) matches Ok(ty) ==> t == type_text(ty),
{
    lemma_parse_type_text(t, 0);
    if let Ok((ty, end)) = parse_type_spec(t, 0) {
        if end == t.len() {
            assert(t.subrange(0, end) =~= t);
        }
    }
}

pub open spec fn free_of(t: Seq<char>, sep: Separator) -> bool {
    forall|i: int| 0 <= i < t.len() ==> !is_separator(#[trigger] t[i], sep)
}

proof fn lemma_split_plain(t: Seq<char>, sep: Separator)
    requires
        free_of(t, sep),
    ensures
        split_spec(t, sep) == seq![t],
    decreases t.len(),
{
    if t.len() > 0 {
        lemma_split_plain(t.drop_last(), sep);
        assert(t.drop_last().push(t.last()) =~= t);
        assert(seq![t.drop_last()].update(0, t.drop_last().push(t.last())) =~= seq![t]);
    } else {
        assert(t =~= Seq::<char>::empty());
    }
}

proof fn lemma_split_append(p: Seq<char>, c: char, t: Seq<char>, sep: Separator)
    requires
        is_separator(c, sep),
        free_of(t, sep),
    ensures
        split_spec(p.push(c) + t, sep) == split_spec(p, sep).push(t),
    decreases t.len(),
{
    let s = p.push(c) + t;
    if t.len() == 0 {
        assert(s =~= p.push(c));
        assert(s.drop_last() =~= p);
        assert(t =~= Seq::<char>::empty());
    } else {
        let t0 = t.drop_last();
        lemma_split_append(p, c, t0, sep);
        assert(s.drop_last() =~= p.push(c) + t0);
        assert(s.last() == t.last());
        let before = split_spec(p, sep).push(t0);
        assert(t0.push(t.last()) =~= t);
        assert(before.update(before.len() - 1, t0.push(t.last())) =~= split_spec(p, sep).push(t));
    }
}

/// Splitting joined fields at the joining separator gives the fields back.
proof fn lemma_split_join(ts: Seq<Seq<char>>, c: char, sep: Separator)
    requires
        ts.len() >= 1,
        is_separator(c, sep),
        forall|i: int| 0 <= i < ts.len() ==> free_of(#[trigger] ts[i], sep),
    ensures
        split_spec(join(ts, c), sep) == ts,
    decreases ts.len(),
{
    if ts.len() == 1 {
        lemma_split_plain(ts[0], sep);
        assert(ts =~= seq![ts[0]]);
    } else {
        let init = ts.drop_last();
        assert(forall|i: int| 0 <= i < init.len() ==> #[trigger] init[i] == ts[i]);
        lemma_split_join(init, c, sep);
        lemma_split_append(join(init, c), c, ts.last(), sep);
        assert(init.push(ts.last()) =~= ts);
    }
}

/// The first character of joined fields is that of the first field.
proof fn lemma_join_first(ts: Seq<Seq<char>>, c: char)
    requires
        ts.len() >= 1,
        ts[0].len() > 0,
    ensures
        join(ts, c).len() > 0,
        join(ts, c)[0] == ts[0][0],
    decreases ts.len(),
{
    if ts.len() > 1 {
        lemma_join_first(ts.drop_last(), c);
    }
}

/// Joined fields start with the first field, followed by the joining character
/// when there are more.
proof fn lemma_join_prefix(ts: Seq<Seq<char>>, c: char)
    requires
        ts.len() >= 1,
    ensures
        join(ts, c).len() >= ts[0].len(),
        join(ts, c).subrange(0, ts[0].len() as int) == ts[0],
        ts.len() > 1 ==> join(ts, c).len() > ts[0].len() && join(ts, c)[ts[0].len() as int] == c,
    decreases ts.len(),
{
    if ts.len() > 1 {
        let init = ts.drop_last();
        lemma_join_prefix(init, c);
        let j = join(init, c);
        assert(join(ts, c).subrange(0, ts[0].len() as int) =~= j.subrange(0, ts[0].len() as int));
        if init.len() == 1 {
            assert(join(ts, c)[ts[0].len() as int] == j.push(c)[j.len() as int]);
        } else {
            assert(join(ts, c)[ts[0].len() as int] == j[ts[0].len() as int]);
        }
    }
}

proof fn lemma_first_space_at(s: Seq<char>, from: int, k: int)
    requires
        0 <= from <= k <= s.len(),
        forall|i: int| from <= i < k ==> !is_space(#[trigger] s[i]),
        k == s.len() || is_space(s[k]),
    ensures
        first_space(s, from) == k,
    decreases k - from,
{
    if from < k {
        lemma_first_space_at(s, from + 1, k);
    }
}

/// The first word of joined fields is the first field, when the fields hold no
/// whitespace and are joined by whitespace.
proof fn lemma_leading_word_join(ts: Seq<Seq<char>>, d: Dialect)
    requires
        ts.len() >= 1,
        ts[0].len() > 0,
        !has_space(ts[0]),
    ensures
        leading_word(join(ts, delimiter(d)), d) == ts[0],
{
    let s = join(ts, delimiter(d));
    lemma_join_prefix(ts, delimiter(d));
    let k = ts[0].len() as int;
    assert forall|i: int| 0 <= i < k implies !is_space(#[trigger] s[i]) by {
        assert(s[i] == s.subrange(0, k)[i]);
        if is_space(ts[0][i]) {
            assert(has_space(ts[0]));
        }
    };
    lemma_first_space_at(s, 0, k);
    assert(s[0] == ts[0][0]);
    assert(trim_start(s) == s);
}

/// Every piece of a split is free of the separator.
proof fn lemma_split_pieces_free(s: Seq<char>, sep: Separator)
    ensures
        forall|i: int| 0 <= i < split_spec(s, sep).len() ==> free_of(#[trigger] split_spec(s, sep)[i], sep),
    decreases s.len(),
{
    if s.len() > 0 {
        lemma_split_pieces_free(s.drop_last(), sep);
        crate::text::lemma_split_nonempty(s.drop_last(), sep);
        let before = split_spec(s.drop_last(), sep);
        if !is_separator(s.last(), sep) {
            let last = before.last().push(s.last());
            assert(free_of(before[before.len() - 1], sep));
            assert(free_of(last, sep));
        } else {
            assert(free_of(Seq::<char>::empty(), sep));
        }
    }
}

proof fn lemma_drop_empty_pieces(ts: Seq<Seq<char>>, sep: Separator)
    requires
        forall|i: int| 0 <= i < ts.len() ==> free_of(#[trigger] ts[i], sep),
    ensures
        forall|i: int| 0 <= i < drop_empty(ts).len() ==> free_of(#[trigger] drop_empty(ts)[i], sep) && drop_empty(ts)[i].len() > 0,
    decreases ts.len(),
{
    if ts.len() > 0 {
        let init = ts.drop_last();
        assert(forall|i: int| 0 <= i < init.len() ==> #[trigger] init[i] == ts[i]);
        lemma_drop_empty_pieces(init, sep);
        assert(free_of(ts[ts.len() - 1], sep));
        let r = drop_empty(ts);
        let ri = drop_empty(init);
        if ts.last().len() > 0 {
            assert forall|i: int| 0 <= i < r.len() implies free_of(#[trigger] r[i], sep) && r[i].len() > 0 by {
                if i < ri.len() {
                    assert(r[i] == ri[i]);
                }
            };
        }
    }
}

proof fn lemma_drop_empty_id(ts: Seq<Seq<char>>)
    requires
        forall|i: int| 0 <= i < ts.len() ==> (#[trigger] ts[i]).len() > 0,
    ensures
        drop_empty(ts) == ts,
    decreases ts.len(),
{
    if ts.len() > 0 {
        let init = ts.drop_last();
        assert(forall|i: int| 0 <= i < init.len() ==> #[trigger] init[i] == ts[i]);
        lemma_drop_empty_id(init);
        assert(ts[ts.len() - 1].len() > 0);
        assert(init.push(ts.last()) =~= ts);
    }
}

/// The fields of a line, once joined by the dialect's delimiter, split into the
/// same fields again.
proof fn lemma_tokens_rejoin(line: Seq<char>, d: Dialect)
    requires
        tokens_spec(line, d) is Some,
        tokens_spec(line, d)->0.len() >= 1,
    ensures
        tokens_spec(join(tokens_spec(line, d)->0, delimiter(d)), d) == tokens_spec(line, d),
        forall|i: int| 0 <= i < tokens_spec(line, d)->0.len() ==> (#[trigger] tokens_spec(line, d)->0[i]).len() > 0,
{
    let ts = tokens_spec(line, d)->0;
    match d {
        Dialect::Tab => {
            assert forall|i: int| 0 <= i < ts.len() implies free_of(#[trigger] ts[i], Separator::Tab) by {
                assert(is_field(ts[i]));
                assert forall|k: int| 0 <= k < ts[i].len() implies !is_separator(#[trigger] ts[i][k], Separator::Tab) by {
                    if ts[i][k] == '\t' {
                        assert(is_space(ts[i][k]));
                        assert(has_space(ts[i]));
                    }
                };
            };
            lemma_split_join(ts, '\t', Separator::Tab);
        },
        Dialect::Whitespace => {
            let pieces = split_spec(line, Separator::Space);
            lemma_split_pieces_free(line, Separator::Space);
            lemma_drop_empty_pieces(pieces, Separator::Space);
            lemma_split_join(ts, ' ', Separator::Space);
            lemma_drop_empty_id(ts);
        },
    }
}

proof fn lemma_trim_start_shape(s: Seq<char>)
    ensures
        trim_start(s).len() == 0 || !is_space(trim_start(s)[0]),
        exists|k: int| 0 <= k <= s.len() && trim_start(s) == s.subrange(k, s.len() as int),
    decreases s.len(),
{
    if s.len() > 0 && is_space(s[0]) {
        lemma_trim_start_shape(s.drop_first());
        let k = choose|k: int| 0 <= k <= s.drop_first().len() && trim_start(s.drop_first()) == s.drop_first().subrange(k, s.drop_first().len() as int);
        assert(s.drop_first().subrange(k, s.drop_first().len() as int) =~= s.subrange(k + 1, s.len() as int));
    } else {
        assert(s.subrange(0, s.len() as int) =~= s);
    }
}

proof fn lemma_trim_end_shape(s: Seq<char>)
    ensures
        trim_end(s).len() == 0 || !is_space(trim_end(s).last()),
        exists|k: int| 0 <= k <= s.len() && trim_end(s) == s.subrange(0, k),
    decreases s.len(),
{
    if s.len() > 0 && is_space(s.last()) {
        lemma_trim_end_shape(s.drop_last());
        let k = choose|k: int| 0 <= k <= s.drop_last().len() && trim_end(s.drop_last()) == s.drop_last().subrange(0, k);
        assert(s.drop_last().subrange(0, k) =~= s.subrange(0, k));
    } else {
        assert(s.subrange(0, s.len() as int) =~= s);
    }
}

/// Trimming twice is trimming once.
proof fn lemma_trim_idempotent(s: Seq<char>)
    ensures
        trim(trim(s)) == trim(s),
{
    let a = trim_start(s);
    lemma_trim_start_shape(s);
    lemma_trim_end_shape(a);
    let b = trim_end(a);
    let k = choose|k: int| 0 <= k <= a.len() && b == a.subrange(0, k);
    if b.len() > 0 {
        assert(b[0] == a[0]);
    }
    assert(trim_start(b) == b);
    lemma_trim_end_shape(b);
    assert(trim_end(b) == b);
}

/// Re-emitting a parsed record in its dialect's canonical form and parsing that
/// line again gives the same record.
pub proof fn lemma_entry_round_trip(line: Seq<char>, ns: nat, d: Dialect, e: EntryView)
    requires
        entry_spec(line, ns, d) == Ok::<EntryView, ErrorKindView>(e),
    ensures
        entry_spec(entry_text(e, d), ns, d) == Ok::<EntryView, ErrorKindView>(e),
{
    if line.len() > 0 && line[0] == '#' {
        let text = trim(line.drop_first());
        lemma_trim_idempotent(line.drop_first());
        let out = seq!['#', ' '] + text;
        let rest = out.drop_first();
        assert(rest.drop_first() =~= text);
        assert(trim_start(rest) == trim_start(text));
    } else {
        let ts = tokens_spec(line, d)->0;
        lemma_tokens_rejoin(line, d);
        let out = join(ts, delimiter(d));
        if ts[0] == class_keyword() {
            assert(seq![class_keyword()] + ts.subrange(1, ts.len() as int) =~= ts);
        } else if ts[0] == field_keyword() {
            lemma_whole_type_text(ts[2]);
            assert(seq![field_keyword(), ts[1], ts[2]] + ts.subrange(3, ts.len() as int) =~= ts);
        } else {
            lemma_signature_text(ts[2]);
            assert(seq![method_keyword(), ts[1], ts[2]] + ts.subrange(3, ts.len() as int) =~= ts);
        }
        assert(entry_text(e, d) == out);
        lemma_join_first(ts, delimiter(d));
        assert(ts[0][0] != '#');
        lemma_leading_word_join(ts, d);
    }
}

proof fn lemma_pieces_free_of_newline(s: Seq<char>, sep: Separator)
    requires
        free_of(s, Separator::Newline),
    ensures
        forall|i: int| 0 <= i < split_spec(s, sep).len() ==> free_of(#[trigger] split_spec(s, sep)[i], Separator::Newline),
    decreases s.len(),
{
    if s.len() > 0 {
        let init = s.drop_last();
        assert(free_of(init, Separator::Newline)) by {
            assert forall|i: int| 0 <= i < init.len() implies !is_separator(#[trigger] init[i], Separator::Newline) by {
                assert(init[i] == s[i]);
            };
        };
        lemma_pieces_free_of_newline(init, sep);
        crate::text::lemma_split_nonempty(init, sep);
        let before = split_spec(init, sep);
        assert(s.last() == s[s.len() - 1]);
        assert(free_of(before[before.len() - 1], Separator::Newline));
        assert(free_of(Seq::<char>::empty(), Separator::Newline));
        if !is_separator(s.last(), sep) {
            assert(free_of(before.last().push(s.last()), Separator::Newline));
        }
    }
}

proof fn lemma_join_free_of_newline(ts: Seq<Seq<char>>, c: char)
    requires
        c != '\n',
        forall|i: int| 0 <= i < ts.len() ==> free_of(#[trigger] ts[i], Separator::Newline),
    ensures
        free_of(join(ts, c), Separator::Newline),
        ts.len() >= 1 && ts.last().len() > 0 ==> join(ts, c).len() > 0 && join(ts, c).last() == ts.last().last(),
    decreases ts.len(),
{
    if ts.len() > 1 {
        let init = ts.drop_last();
        assert(forall|i: int| 0 <= i < init.len() ==> #[trigger] init[i] == ts[i]);
        lemma_join_free_of_newline(init, c);
        let j = join(init, c).push(c) + ts.last();
        assert(free_of(ts[ts.len() - 1], Separator::Newline));
        assert forall|i: int| 0 <= i < j.len() implies !is_separator(#[trigger] j[i], Separator::Newline) by {
            if i < join(init, c).len() {
                assert(j[i] == join(init, c)[i]);
            } else if i > join(init, c).len() {
                assert(j[i] == ts.last()[i - join(init, c).len() - 1]);
            }
        };
    } else if ts.len() == 1 {
        assert(free_of(ts[0], Separator::Newline));
    }
}

/// The canonical line of a record parsed from a line without `\n` holds no `\n`
/// and does not end with `\r`.
proof fn lemma_entry_text_one_line(line: Seq<char>, ns: nat, d: Dialect, e: EntryView)
    requires
        free_of(line, Separator::Newline),
        entry_spec(line, ns, d) == Ok::<EntryView, ErrorKindView>(e),
    ensures
        free_of(entry_text(e, d), Separator::Newline),
        strip_cr(entry_text(e, d)) == entry_text(e, d),
{
    let out = entry_text(e, d);
    if line.len() > 0 && line[0] == '#' {
        let body = line.drop_first();
        lemma_trim_start_shape(body);
        let a = trim_start(body);
        let k1 = choose|k: int| 0 <= k <= body.len() && a == body.subrange(k, body.len() as int);
        lemma_trim_end_shape(a);
        let t = trim_end(a);
        let k2 = choose|k: int| 0 <= k <= a.len() && t == a.subrange(0, k);
        assert forall|i: int| 0 <= i < out.len() implies !is_separator(#[trigger] out[i], Separator::Newline) by {
            if i >= 2 {
                assert(out[i] == t[i - 2]);
                assert(t[i - 2] == a[i - 2]);
                assert(a[i - 2] == body[k1 + i - 2]);
                assert(body[k1 + i - 2] == line[k1 + i - 1]);
            }
        };
        if t.len() > 0 {
            assert(out.last() == t.last());
        }
    } else {
        let ts = tokens_spec(line, d)->0;
        lemma_tokens_rejoin(line, d);
        match d {
            Dialect::Tab => lemma_pieces_free_of_newline(line, Separator::Tab),
            Dialect::Whitespace => {
                lemma_pieces_free_of_newline(line, Separator::Space);
                lemma_drop_empty_pieces(split_spec(line, Separator::Space), Separator::Newline);
            },
        }
        lemma_join_free_of_newline(ts, delimiter(d));
        if ts[0] == class_keyword() {
            assert(seq![class_keyword()] + ts.subrange(1, ts.len() as int) =~= ts);
        } else if ts[0] == field_keyword() {
            lemma_whole_type_text(ts[2]);
            assert(seq![field_keyword(), ts[1], ts[2]] + ts.subrange(3, ts.len() as int) =~= ts);
        } else {
            lemma_signature_text(ts[2]);
            assert(seq![method_keyword(), ts[1], ts[2]] + ts.subrange(3, ts.len() as int) =~= ts);
        }
        assert(out == join(ts, delimiter(d)));
        let last = ts[ts.len() - 1];
        assert(last.len() > 0);
        match d {
            Dialect::Tab => {
                assert(is_field(last));
                if last.last() == '\r' {
                    assert(is_space(last[last.len() - 1]));
                    assert(has_space(last));
                }
            },
            Dialect::Whitespace => {
                lemma_split_pieces_free(line, Separator::Space);
                lemma_drop_empty_pieces(split_spec(line, Separator::Space), Separator::Space);
                assert(free_of(last, Separator::Space));
                assert(!is_separator(last[last.len() - 1], Separator::Space));
            },
        }
    }
}

/// Writing a parsed record as a document body of one line, in its dialect's
/// canonical form and ended by `\n`, and parsing that body gives the record
/// back, alone.
pub proof fn lemma_body_round_trip(line: Seq<char>, ns: nat, d: Dialect, e: EntryView)
    requires
        free_of(line, Separator::Newline),
        entry_spec(line, ns, d) == Ok::<EntryView, ErrorKindView>(e),
    ensures
        entries_spec(doc_lines(entry_text(e, d).push('\n')), 0, ns, d) == Ok::<Seq<EntryView>, (ErrorKindView, int)>(seq![e]),
{
    let x = entry_text(e, d);
    lemma_entry_text_one_line(line, ns, d, e);
    lemma_entry_round_trip(line, ns, d, e);
    lemma_split_plain(x, Separator::Newline);
    assert(x.push('\n') =~= x.push('\n') + Seq::<char>::empty());
    lemma_split_append(x, '\n', Seq::<char>::empty(), Separator::Newline);
    assert(split_spec(Seq::<char>::empty(), Separator::Newline) == seq![Seq::<char>::empty()]);
    let raw = split_spec(x.push('\n'), Separator::Newline);
    assert(raw == seq![x, Seq::<char>::empty()]);
    assert(raw.drop_last() =~= seq![x]);
    let lines = doc_lines(x.push('\n'));
    assert(lines =~= seq![x]);
    assert(entries_spec(lines, 1, ns, d) == Ok::<Seq<EntryView>, (ErrorKindView, int)>(Seq::<EntryView>::empty()));
    assert(seq![e] + Seq::<EntryView>::empty() =~= seq![e]);
}

} // verus!
