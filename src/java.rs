use vstd::prelude::*;

use crate::error::{DescriptorError, ErrorKind, ErrorKindView};

verus! {

pub type DimensionSize = usize;

/// A Java Virtual Machine field type.
#[derive(Debug, PartialEq, Eq)]
pub enum JavaType {
    Void,
    Char,
    Byte,
    Short,
    Int,
    Long,
    Boolean,
    Float,
    Double,
    /// A class reference by its binary name (`java/lang/String`).
    Class(String),
    /// An array with the given number of dimensions over a non-array element.
    Array(DimensionSize, Box<JavaType>),
}

impl Clone for JavaType {
    fn clone(&self) -> (r: Self)
        ensures
            r@ == self@,
        decreases self,
    {
        match self {
            JavaType::Void => JavaType::Void,
            JavaType::Char => JavaType::Char,
            JavaType::Byte => JavaType::Byte,
            JavaType::Short => JavaType::Short,
            JavaType::Int => JavaType::Int,
            JavaType::Long => JavaType::Long,
            JavaType::Boolean => JavaType::Boolean,
            JavaType::Float => JavaType::Float,
            JavaType::Double => JavaType::Double,
            JavaType::Class(name) => JavaType::Class(name.clone()),
            JavaType::Array(dims, element) => {
                let inner: &JavaType = element;
                JavaType::Array(*dims, Box::new(inner.clone()))
            },
        }
    }
}

/// The mathematical model of a `JavaType`.
pub enum TypeView {
    Void,
    Char,
    Byte,
    Short,
    Int,
    Long,
    Boolean,
    Float,
    Double,
    Class(Seq<char>),
    Array(nat, Box<TypeView>),
}

pub open spec fn type_view(t: JavaType) -> TypeView
    decreases t,
{
    match t {
        JavaType::Void => TypeView::Void,
        JavaType::Char => TypeView::Char,
        JavaType::Byte => TypeView::Byte,
        JavaType::Short => TypeView::Short,
        JavaType::Int => TypeView::Int,
        JavaType::Long => TypeView::Long,
        JavaType::Boolean => TypeView::Boolean,
        JavaType::Float => TypeView::Float,
        JavaType::Double => TypeView::Double,
        JavaType::Class(name) => TypeView::Class(name@),
        JavaType::Array(dims, element) => TypeView::Array(dims as nat, Box::new(type_view(*element))),
    }
}

impl View for JavaType {
    type V = TypeView;

    open spec fn view(&self) -> TypeView {
        type_view(*self)
    }
}

/// The primitive type that a one-letter code stands for.
pub open spec fn primitive_of(c: char) -> Option<TypeView> {
    if c == 'V' {
        Some(TypeView::Void)
    } else if c == 'C' {
        Some(TypeView::Char)
    } else if c == 'B' {
        Some(TypeView::Byte)
    } else if c == 'S' {
        Some(TypeView::Short)
    } else if c == 'I' {
        Some(TypeView::Int)
    } else if c == 'J' {
        Some(TypeView::Long)
    } else if c == 'Z' {
        Some(TypeView::Boolean)
    } else if c == 'F' {
        Some(TypeView::Float)
    } else if c == 'D' {
        Some(TypeView::Double)
    } else {
        None
    }
}

/// The first index at or after `from` that holds `c`, or `s.len()` if there is none.
pub open spec fn find_char(s: Seq<char>, from: int, c: char) -> int
    decreases s.len() - from,
{
    if from >= s.len() {
        s.len() as int
    } else if s[from] == c {
        from
    } else {
        find_char(s, from + 1, c)
    }
}

/// The first index at or after `from` that does not hold `[`, or `s.len()`.
pub open spec fn skip_brackets(s: Seq<char>, from: int) -> int
    decreases s.len() - from,
{
    if from >= s.len() {
        s.len() as int
    } else if s[from] != '[' {
        from
    } else {
        skip_brackets(s, from + 1)
    }
}

/// A descriptor that is not an array: a primitive code or `L<name>;`.
/// On success: the type and the index just after it; on failure: the kind and where.
pub open spec fn parse_element_spec(s: Seq<char>, pos: int) -> Result<(TypeView, int), (ErrorKindView, int)> {
    if pos >= s.len() {
        Err((ErrorKindView::UnexpectedEof, pos))
    } else if primitive_of(s[pos]) is Some {
        Ok((primitive_of(s[pos])->0, pos + 1))
    } else if s[pos] == 'L' {
        let end = find_char(s, pos + 1, ';');
        if end >= s.len() {
            Err((ErrorKindView::UnexpectedEof, s.len() as int))
        } else if end == pos + 1 {
            Err((ErrorKindView::InvalidType, pos + 1))
        } else {
            Ok((TypeView::Class(s.subrange(pos + 1, end)), end + 1))
        }
    } else {
        Err((ErrorKindView::InvalidType, pos))
    }
}

/// One descriptor starting at `pos`: a run of `[` gives one array whose
/// dimension count is the length of the run.
pub open spec fn parse_type_spec(s: Seq<char>, pos: int) -> Result<(TypeView, int), (ErrorKindView, int)> {
    if pos < s.len() && s[pos] == '[' {
        let first = skip_brackets(s, pos);
        if first < s.len() && s[first] == 'V' {
            Err((ErrorKindView::VoidArray, first))
        } else {
            match parse_element_spec(s, first) {
                Ok((t, end)) => Ok((TypeView::Array((first - pos) as nat, Box::new(t)), end)),
                Err(e) => Err(e),
            }
        }
    } else {
        parse_element_spec(s, pos)
    }
}

/// What a descriptor parse of `s` at `pos` returns, in terms of the model.
pub open spec fn descriptor_result_matches(
    r: Result<(JavaType, usize), DescriptorError>,
    s: Seq<char>,
    pos: int,
) -> bool {
    match r {
        Ok((t, end)) => parse_type_spec(s, pos) == Ok::<(TypeView, int), (ErrorKindView, int)>((t@, end as int)),
        Err(e) => parse_type_spec(s, pos) == Err::<(TypeView, int), (ErrorKindView, int)>((e.kind@, e.position as int)),
    }
}

/// A type is well formed: class names are non-empty, arrays have at least one
/// dimension, and an array's element is neither an array nor `V`.
pub open spec fn type_wf(t: TypeView) -> bool {
    match t {
        TypeView::Class(name) => name.len() > 0,
        TypeView::Array(dims, element) => dims >= 1 && match *element {
            TypeView::Class(name) => name.len() > 0,
            TypeView::Array(_, _) => false,
            TypeView::Void => false,
            _ => true,
        },
        _ => true,
    }
}

pub proof fn lemma_find_char_bounds(s: Seq<char>, from: int, c: char)
    requires
        0 <= from <= s.len(),
    ensures
        from <= find_char(s, from, c) <= s.len(),
        find_char(s, from, c) < s.len() ==> s[find_char(s, from, c)] == c,
        forall|i: int| from <= i < find_char(s, from, c) ==> s[i] != c,
    decreases s.len() - from,
{
    if from < s.len() && s[from] != c {
        lemma_find_char_bounds(s, from + 1, c);
    }
}

pub proof fn lemma_skip_brackets_bounds(s: Seq<char>, from: int)
    requires
        0 <= from <= s.len(),
    ensures
        from <= skip_brackets(s, from) <= s.len(),
        skip_brackets(s, from) < s.len() ==> s[skip_brackets(s, from)] != '[',
        forall|i: int| from <= i < skip_brackets(s, from) ==> s[i] == '[',
    decreases s.len() - from,
{
    if from < s.len() && s[from] == '[' {
        lemma_skip_brackets_bounds(s, from + 1);
    }
}

/// A successful parse consumes at least one character and stays within `s`,
/// and what it returns is well formed.
pub proof fn lemma_parse_bounds(s: Seq<char>, pos: int)
    requires
        0 <= pos <= s.len(),
    ensures
        parse_type_spec(s, pos) matches Ok((t, end)) ==> pos < end <= s.len() && type_wf(t),
{
    lemma_skip_brackets_bounds(s, pos);
    let first = skip_brackets(s, pos);
    if first < s.len() {
        lemma_find_char_bounds(s, first + 1, ';');
    }
    if pos < s.len() {
        lemma_find_char_bounds(s, pos + 1, ';');
    }
}

/// A primitive letter on its own parses to its primitive type and takes exactly
/// one character.
pub proof fn lemma_primitive_letter(c: char)
    requires
        primitive_of(c) is Some,
    ensures
        parse_type_spec(seq![c], 0) == Ok::<(TypeView, int), (ErrorKindView, int)>((primitive_of(c)->Some_0, 1)),
{
}

/// Builds a `String` holding the characters `s[from..to]`.
pub(crate) fn string_of_range(s: &Vec<char>, from: usize, to: usize) -> (r: String)
    requires
        from <= to <= s.len(),
    ensures
        r@ == s@.subrange(from as int, to as int),
{
    let mut r = String::new();
    let mut i = from;
    while i < to
        invariant
            from <= i <= to <= s.len(),
            r@ == s@.subrange(from as int, i as int),
        decreases to - i,
    {
        push_char(&mut r, s[i]);
        i = i + 1;
    }
    r
}

/// Relies on `String::push`: appends one character at the end.
#[verifier::external_body]
pub(crate) fn push_char(s: &mut String, c: char)
    ensures
        final(s)@ == old(s)@.push(c),
{
    s.push(c)
}

fn parse_element_at(s: &Vec<char>, pos: usize) -> (r: Result<(JavaType, usize), DescriptorError>)
    requires
        pos <= s.len(),
    ensures
        match r {
            Ok((t, end)) => parse_element_spec(s@, pos as int) == Ok::<(TypeView, int), (ErrorKindView, int)>((t@, end as int)),
            Err(e) => parse_element_spec(s@, pos as int) == Err::<(TypeView, int), (ErrorKindView, int)>((e.kind@, e.position as int)),
        },
{
    if pos >= s.len() {
        return Err(DescriptorError { kind: ErrorKind::UnexpectedEof, position: pos });
    }
    let c = s[pos];
    let t = if c == 'V' {
        JavaType::Void
    } else if c == 'C' {
        JavaType::Char
    } else if c == 'B' {
        JavaType::Byte
    } else if c == 'S' {
        JavaType::Short
    } else if c == 'I' {
        JavaType::Int
    } else if c == 'J' {
        JavaType::Long
    } else if c == 'Z' {
        JavaType::Boolean
    } else if c == 'F' {
        JavaType::Float
    } else if c == 'D' {
        JavaType::Double
    } else if c == 'L' {
        let mut end = pos + 1;
        while end < s.len() && s[end] != ';'
            invariant
                pos < end <= s.len(),
                find_char(s@, pos + 1, ';') == find_char(s@, end as int, ';'),
            decreases s.len() - end,
        {
            end = end + 1;
        }
        if end >= s.len() {
            return Err(DescriptorError { kind: ErrorKind::UnexpectedEof, position: s.len() });
        }
        if end == pos + 1 {
            return Err(DescriptorError { kind: ErrorKind::InvalidType, position: pos + 1 });
        }
        let name = string_of_range(s, pos + 1, end);
        return Ok((JavaType::Class(name), end + 1));
    } else {
        return Err(DescriptorError { kind: ErrorKind::InvalidType, position: pos });
    };
    Ok((t, pos + 1))
}

/// Parses one type descriptor of `s` starting at `pos`. On success the index
/// returned is just after the descriptor; on failure the error says where.
pub fn parse_java_type_at(s: &Vec<char>, pos: usize) -> (r: Result<(JavaType, usize), DescriptorError>)
    requires
        pos <= s.len(),
    ensures
        descriptor_result_matches(r, s@, pos as int),
        r matches Ok((t, end)) ==> pos < end <= s.len() && type_wf(t@),
{
    proof {
        lemma_parse_bounds(s@, pos as int);
    }
    if pos < s.len() && s[pos] == '[' {
        let mut first = pos;
        while first < s.len() && s[first] == '['
            invariant
                pos <= first <= s.len(),
                skip_brackets(s@, pos as int) == skip_brackets(s@, first as int),
            decreases s.len() - first,
        {
            first = first + 1;
        }
        if first < s.len() && s[first] == 'V' {
            return Err(DescriptorError { kind: ErrorKind::VoidArray, position: first });
        }
        match parse_element_at(s, first) {
            Ok((t, end)) => Ok((JavaType::Array(first - pos, Box::new(t)), end)),
            Err(e) => Err(e),
        }
    } else {
        parse_element_at(s, pos)
    }
}

/// Parses one type descriptor at the start of `input`. On success the count
/// returned is the number of characters the descriptor takes.
pub fn parse_java_type(input: &str) -> (r: Result<(JavaType, usize), DescriptorError>)
    ensures
        descriptor_result_matches(r, input@, 0),
{
    let s = crate::chars_of(input);
    parse_java_type_at(&s, 0)
}

} // verus!
