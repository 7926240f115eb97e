//! Character-level string utilities shared by the parser, the matcher and
//! the report builder.

use vstd::prelude::*;

verus! {

/// Relies on std's `String::push`: appends the given character to the end
/// of the string.
#[verifier::external_body]
pub(crate) fn push_char(s: &mut String, c: char)
    ensures
        final(s)@ == old(s)@.push(c),
{
    s.push(c);
}

/// Builds the string holding exactly the given characters.
pub fn string_from_chars(cs: &Vec<char>) -> (r: String)
    ensures
        r@ == cs@,
{
    let mut r = String::new();
    let mut i: usize = 0;
    while i < cs.len()
        invariant
            i <= cs.len(),
            r@ == cs@.take(i as int),
        decreases cs.len() - i,
    {
        push_char(&mut r, cs[i]);
        proof {
            assert(cs@.take(i as int).push(cs@[i as int]) =~= cs@.take(i + 1));
        }
        i = i + 1;
    }
    proof {
        assert(cs@.take(cs.len() as int) =~= cs@);
    }
    r
}

/// Collects the characters of a string slice into a vector.
pub fn chars_of(s: &str) -> (r: Vec<char>)
    ensures
        r@ == s@,
{
    let n = s.unicode_len();
    let mut r: Vec<char> = Vec::new();
    let mut i: usize = 0;
    while i < n
        invariant
            i <= n,
            n == s@.len(),
            r@ == s@.take(i as int),
        decreases n - i,
    {
        r.push(s.get_char(i));
        proof {
            assert(s@.take(i as int).push(s@[i as int]) =~= s@.take(i + 1));
        }
        i = i + 1;
    }
    proof {
        assert(s@.take(s@.len() as int) =~= s@);
    }
    r
}

/// Appends the characters of `src` to `dst`.
pub fn extend_chars(dst: &mut Vec<char>, src: &Vec<char>)
    ensures
        final(dst)@ == old(dst)@ + src@,
{
    let mut i: usize = 0;
    while i < src.len()
        invariant
            i <= src.len(),
            dst@ == old(dst)@ + src@.take(i as int),
        decreases src.len() - i,
    {
        dst.push(src[i]);
        proof {
            let pre = old(dst)@;
            assert((pre + src@.take(i as int)).push(src@[i as int]) =~= pre + src@.take(i + 1));
        }
        i = i + 1;
    }
    proof {
        assert(old(dst)@ + src@.take(src@.len() as int) =~= old(dst)@ + src@);
    }
}

/// Appends a newline and then the characters of `line` to `dst`.
pub fn append_line(dst: &mut Vec<char>, line: &Vec<char>)
    ensures
        final(dst)@ == old(dst)@ + seq!['\n'] + line@,
{
    dst.push('\n');
    proof {
        assert(old(dst)@.push('\n') =~= old(dst)@ + seq!['\n']);
    }
    extend_chars(dst, line);
}

/// True exactly when the characters of `line` spell the string `s`.
pub fn line_is(line: &Vec<char>, s: &str) -> (r: bool)
    ensures
        r == (line@ == s@),
{
    let n = s.unicode_len();
    if line.len() != n {
        proof {
            assert(line@ != s@);
        }
        return false;
    }
    let mut i: usize = 0;
    while i < n
        invariant
            i <= n,
            n == s@.len(),
            n == line@.len(),
            forall|j: int| 0 <= j < i ==> line@[j] == s@[j],
        decreases n - i,
    {
        if line[i] != s.get_char(i) {
            proof {
                assert(line@[i as int] != s@[i as int]);
            }
            return false;
        }
        i = i + 1;
    }
    proof {
        assert(line@ =~= s@);
    }
    true
}

} // verus!
