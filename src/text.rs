use vstd::prelude::*;

verus! {

/// Relies on `str::chars` collected into a `Vec`: the characters in order.
#[verifier::external_body]
pub(crate) fn chars_of(s: &str) -> (r: Vec<char>)
    ensures
        r@ == s@,
{
    s.chars().collect()
}

/// Relies on `String: FromIterator<char>`: the string of exactly these characters.
#[verifier::external_body]
pub(crate) fn string_of(cs: &Vec<char>) -> (r: String)
    ensures
        r@ == cs@,
{
    cs.iter().collect()
}

/// Appends the characters of `s` to `out`.
pub(crate) fn append_str(out: &mut Vec<char>, s: &str)
    ensures
        final(out)@ == old(out)@ + s@,
{
    let cs = chars_of(s);
    append_chars(out, &cs);
}

/// Appends `cs` to `out`.
pub(crate) fn append_chars(out: &mut Vec<char>, cs: &Vec<char>)
    ensures
        final(out)@ == old(out)@ + cs@,
{
    let ghost start = out@;
    let mut i: usize = 0;
    while i < cs.len()
        invariant
            i <= cs@.len(),
            out@ == start + cs@.subrange(0, i as int),
        decreases cs@.len() - i,
    {
        out.push(cs[i]);
        i = i + 1;
        assert(cs@.subrange(0, i as int) == cs@.subrange(0, i - 1) + seq![cs@[i - 1]]);
    }
    assert(cs@.subrange(0, cs@.len() as int) == cs@);
}

pub open spec fn is_ascii_char(c: char) -> bool {
    (c as u32) < 128
}

pub open spec fn all_ascii(s: Seq<char>) -> bool {
    forall|i: int| 0 <= i < s.len() ==> is_ascii_char(#[trigger] s[i])
}

pub open spec fn is_alnum(c: char) -> bool {
    ('0' <= c && c <= '9') || ('a' <= c && c <= 'z') || ('A' <= c && c <= 'Z')
}

/// ASCII upper case; every other character is unchanged.
pub open spec fn upper(c: char) -> char {
    if 'a' <= c && c <= 'z' {
        ((c as u32 - 32) as u8) as char
    } else {
        c
    }
}

pub(crate) fn to_upper(c: char) -> (r: char)
    ensures
        r == upper(c),
{
    if 'a' <= c && c <= 'z' {
        ((c as u32 - 32) as u8) as char
    } else {
        c
    }
}

/// Upper camel case: each run of alphanumerics starts with an upper-case
/// letter and every other character is dropped.  `up` says whether the next
/// alphanumeric starts a run.
pub open spec fn camel(s: Seq<char>, up: bool) -> Seq<char>
    decreases s.len(),
{
    if s.len() == 0 {
        Seq::empty()
    } else if is_alnum(s[0]) {
        seq![if up { upper(s[0]) } else { s[0] }] + camel(s.drop_first(), false)
    } else {
        camel(s.drop_first(), true)
    }
}

/// The identifier derived from a schema display name.
pub open spec fn ident_of(display: Seq<char>) -> Seq<char> {
    camel(display, true)
}

/// `name` with its first character in ASCII upper case.
pub open spec fn capitalized(name: Seq<char>) -> Seq<char> {
    if name.len() == 0 {
        name
    } else {
        seq![upper(name[0])] + name.drop_first()
    }
}

/// Converts a schema display name to an identifier by upper-camel-casing
/// its alphanumeric runs; a name that is not ASCII is refused.
pub fn display_name_to_ident(name: &Vec<char>) -> (r: Option<Vec<char>>)
    ensures
        r is Some <==> all_ascii(name@),
        r matches Some(id) ==> id@ == ident_of(name@),
{
    let mut k: usize = 0;
    while k < name.len()
        invariant
            k <= name@.len(),
            forall|i: int| 0 <= i < k ==> is_ascii_char(#[trigger] name@[i]),
        decreases name@.len() - k,
    {
        if (name[k] as u32) >= 128 {
            return None;
        }
        k = k + 1;
    }
    let mut ident: Vec<char> = Vec::new();
    let mut up = true;
    let mut i: usize = 0;
    assert(name@.skip(0) == name@);
    while i < name.len()
        invariant
            i <= name@.len(),
            ident@ + camel(name@.skip(i as int), up) == ident_of(name@),
        decreases name@.len() - i,
    {
        let c = name[i];
        assert(name@.skip(i as int).drop_first() == name@.skip(i + 1));
        if ('0' <= c && c <= '9') || ('a' <= c && c <= 'z') || ('A' <= c && c <= 'Z') {
            if up {
                ident.push(to_upper(c));
                up = false;
            } else {
                ident.push(c);
            }
        } else {
            up = true;
        }
        i = i + 1;
    }
    assert(name@.skip(name@.len() as int) == Seq::<char>::empty());
    Some(ident)
}

/// `s` as the body of a double-quoted string literal: `"` and `\` are
/// preceded by a backslash, every other character stands as it is.
pub open spec fn escaped(s: Seq<char>) -> Seq<char>
    decreases s.len(),
{
    if s.len() == 0 {
        Seq::empty()
    } else {
        let c = s.last();
        escaped(s.drop_last()) + if c == '"' || c == '\\' {
            seq!['\\', c]
        } else {
            seq![c]
        }
    }
}

/// Appends `s` escaped as the body of a double-quoted string literal.
pub(crate) fn append_escaped(out: &mut Vec<char>, s: &str)
    ensures
        final(out)@ == old(out)@ + escaped(s@),
{
    let cs = chars_of(s);
    let ghost start = out@;
    let mut i: usize = 0;
    while i < cs.len()
        invariant
            i <= cs@.len(),
            out@ == start + escaped(cs@.take(i as int)),
        decreases cs@.len() - i,
    {
        let c = cs[i];
        if c == '"' || c == '\\' {
            out.push('\\');
        }
        out.push(c);
        i = i + 1;
        assert(cs@.take(i as int).drop_last() == cs@.take(i - 1));
    }
    assert(cs@.take(cs@.len() as int) == cs@);
}

/// Appends `name` with its first character in ASCII upper case.
pub(crate) fn append_capitalized(out: &mut Vec<char>, name: &str)
    ensures
        final(out)@ == old(out)@ + capitalized(name@),
{
    let cs = chars_of(name);
    if cs.len() == 0 {
        return;
    }
    out.push(to_upper(cs[0]));
    let ghost start = out@;
    let mut i: usize = 1;
    while i < cs.len()
        invariant
            1 <= i <= cs@.len(),
            out@ == start + cs@.subrange(1, i as int),
        decreases cs@.len() - i,
    {
        out.push(cs[i]);
        i = i + 1;
        assert(cs@.subrange(1, i as int) == cs@.subrange(1, i - 1) + seq![cs@[i - 1]]);
    }
    assert(cs@.subrange(1, cs@.len() as int) == cs@.drop_first());
}

} // verus!
