use vstd::prelude::*;

verus! {

/// The four characters XML counts as whitespace.
pub open spec fn is_xml_space(c: char) -> bool {
    c == ' ' || c == '\t' || c == '\n' || c == '\r'
}

/// Whether the text holds nothing but whitespace; the decoder ignores such
/// text events.
pub open spec fn spec_blank(s: Seq<char>) -> bool {
    forall|i: int| 0 <= i < s.len() ==> is_xml_space(#[trigger] s[i])
}

/// An attribute key as it appears in a decoded map: prefixed with `@`.
pub open spec fn at_key(k: Seq<char>) -> Seq<char> {
    seq!['@'] + k
}

/// Whether a map key denotes an attribute, that is, starts with `@`.
pub open spec fn is_at_key(k: Seq<char>) -> bool {
    k.len() > 0 && k[0] == '@'
}

/// The key under which inline text stands in a decoded map.
pub open spec fn text_key() -> Seq<char> {
    "#text"@
}

/// What XML escaping does to one character: each of the five special
/// characters becomes its entity, every other character stays itself.
pub open spec fn esc_char(c: char) -> Seq<char> {
    if c == '&' {
        "&amp;"@
    } else if c == '<' {
        "&lt;"@
    } else if c == '>' {
        "&gt;"@
    } else if c == '\'' {
        "&apos;"@
    } else if c == '"' {
        "&quot;"@
    } else {
        seq![c]
    }
}

/// XML escaping over a whole text, character by character.
pub open spec fn spec_escape(s: Seq<char>) -> Seq<char>
    decreases s.len(),
{
    if s.len() == 0 {
        Seq::empty()
    } else {
        esc_char(s[0]) + spec_escape(s.drop_first())
    }
}

/// Relies on str::chars and Iterator::collect: the characters of the
/// string, in order.
#[verifier::external_body]
pub fn str_chars(s: &str) -> (r: Vec<char>)
    ensures
        r@ == s@,
{
    s.chars().collect()
}

/// Relies on String::from_iter: the string holding exactly these
/// characters, in order.
#[verifier::external_body]
pub fn string_from_chars(v: &Vec<char>) -> (r: String)
    ensures
        r@ == v@,
{
    v.iter().collect()
}

/// Whether two strings hold the same characters.
pub fn str_eq(a: &String, b: &str) -> (r: bool)
    ensures
        r == (a@ == b@),
{
    *a == b.to_owned()
}

/// Whether the string holds nothing but whitespace.
pub fn is_blank(s: &str) -> (b: bool)
    ensures
        b == spec_blank(s@),
{
    let cs = str_chars(s);
    let mut i: usize = 0;
    while i < cs.len()
        invariant
            0 <= i <= cs.len(),
            cs@ == s@,
            forall|j: int| 0 <= j < i ==> is_xml_space(#[trigger] s@[j]),
        decreases cs.len() - i,
    {
        let c = cs[i];
        if !(c == ' ' || c == '\t' || c == '\n' || c == '\r') {
            return false;
        }
        i = i + 1;
    }
    true
}

/// The key string under which an attribute named `k` is stored: `@` and
/// then `k`.
pub fn prefix_at(k: &str) -> (r: String)
    ensures
        r@ == at_key(k@),
{
    let mut v: Vec<char> = Vec::new();
    v.push('@');
    let mut ks = str_chars(k);
    v.append(&mut ks);
    proof {
        assert(v@ =~= at_key(k@));
    }
    string_from_chars(&v)
}

/// Whether the key denotes an attribute.
pub fn key_is_at(k: &String) -> (b: bool)
    ensures
        b == is_at_key(k@),
{
    let cs = str_chars(k.as_str());
    cs.len() > 0 && cs[0] == '@'
}

/// The attribute name inside an `@`-prefixed key: the key without its
/// first character.
pub fn strip_at(k: &String) -> (r: String)
    requires
        k@.len() > 0,
    ensures
        r@ == k@.drop_first(),
{
    let cs = str_chars(k.as_str());
    let mut out: Vec<char> = Vec::new();
    let mut i: usize = 1;
    while i < cs.len()
        invariant
            1 <= i <= cs.len(),
            cs@ == k@,
            cs@.len() >= 1,
            out@ == k@.subrange(1, i as int),
        decreases cs.len() - i,
    {
        let c = cs[i];
        out.push(c);
        proof {
            assert(out@ =~= k@.subrange(1, i + 1 as int));
        }
        i = i + 1;
    }
    proof {
        assert(out@ =~= k@.drop_first());
    }
    string_from_chars(&out)
}

} // verus!
