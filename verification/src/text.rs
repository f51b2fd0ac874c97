//! White space in the lines of a rule file.

use vstd::prelude::*;

verus! {

/// Whether a character beyond ASCII is white space in the sense of
/// Unicode.
pub uninterp spec fn wide_white_space(c: char) -> bool;

/// Whether a character is white space in the sense of Unicode. Of the
/// ASCII characters, the space and the five from U+0009 to U+000D are; of
/// the others, those that the standard library says.
pub open spec fn white_space(c: char) -> bool {
    if c <= '\u{7f}' {
        c == ' ' || '\t' <= c <= '\r'
    } else {
        wide_white_space(c)
    }
}

/// `char::is_whitespace` of the standard library: whether the character has
/// the Unicode property `White_Space`. Claimed here: among the ASCII
/// characters the property belongs to the space and to U+0009 through
/// U+000D and to no other; beyond ASCII the answer depends on the
/// character alone, and nothing is claimed about which characters have
/// the property.
pub assume_specification[ char::is_whitespace ](c: char) -> (b: bool)
    ensures
        c <= '\u{7f}' ==> b == (c == ' ' || '\t' <= c <= '\r'),
        c > '\u{7f}' ==> b == wide_white_space(c),
;

/// The characters of `s` that are not white space, in their order.
pub open spec fn stripped(s: Seq<char>) -> Seq<char> {
    s.filter(|c: char| !white_space(c))
}

/// The first character of `s` that is not white space, if there is one.
pub open spec fn first_mark(s: Seq<char>) -> Option<char> {
    if stripped(s).len() == 0 {
        None
    } else {
        Some(stripped(s)[0])
    }
}

/// The characters of a declaration line that count: those that are not
/// white space, without the first of them, which is the line's marker.
pub open spec fn declared(line: Seq<char>) -> Seq<char> {
    if stripped(line).len() > 0 {
        stripped(line).drop_first()
    } else {
        stripped(line)
    }
}

/// The characters of a declaration line that count.
pub fn declared_chars(line: &str) -> (chars: Vec<char>)
    ensures
        chars@ == declared(line@),
{
    let all = significant(line);
    let n = all.len();
    let mut chars: Vec<char> = Vec::new();
    let mut i: usize = 1;
    while i < n
        invariant
            n == all@.len(),
            1 <= i,
            n >= 1 ==> i <= n,
            i <= n ==> chars@ =~= all@.subrange(1, i as int),
            i > n ==> chars@.len() == 0,
        decreases n - i,
    {
        chars.push(all[i]);
        assert(chars@ =~= all@.subrange(1, i + 1));
        i += 1;
    }
    proof {
        if n > 0 {
            assert(chars@ =~= all@.drop_first());
        } else {
            assert(chars@ =~= all@);
        }
    }
    chars
}

/// The characters of a line that are not white space, in their order.
pub fn significant(line: &str) -> (chars: Vec<char>)
    ensures
        chars@ == stripped(line@),
{
    let n: usize = line.unicode_len();
    let mut chars: Vec<char> = Vec::new();
    let mut i: usize = 0;
    while i < n
        invariant
            n == line@.len(),
            i <= n,
            chars@ == stripped(line@.take(i as int)),
        decreases n - i,
    {
        let c = line.get_char(i);
        proof {
            reveal(Seq::filter);
            assert(line@.take(i + 1).drop_last() == line@.take(i as int));
        }
        if !c.is_whitespace() {
            chars.push(c);
        }
        i += 1;
    }
    proof {
        reveal(Seq::filter);
        assert(line@.take(n as int) == line@);
    }
    chars
}

} // verus!
