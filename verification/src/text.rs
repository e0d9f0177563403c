//! Comparing, searching and replacing text.

use vstd::prelude::*;
use vstd::std_specs::iter::IteratorSpec;
use vstd::string::*;
use vstd::utf8::*;

verus! {

/// Whether two string slices hold the same characters.
pub fn str_eq(left: &str, right: &str) -> (same: bool)
    ensures
        same == (left@ == right@),
{
    let a = left.as_bytes();
    let b = right.as_bytes();
    proof {
        encode_utf8_decode_utf8(left@);
        encode_utf8_decode_utf8(right@);
    }
    if a.len() != b.len() {
        return false;
    }
    let mut i: usize = 0;
    while i < a.len()
        invariant
            i <= a.len(),
            a.len() == b.len(),
            a@ == encode_utf8(left@),
            b@ == encode_utf8(right@),
            forall|j: int| 0 <= j < i ==> a@[j] == b@[j],
        decreases a.len() - i,
    {
        if a[i] != b[i] {
            return false;
        }
        i += 1;
    }
    assert(a@ =~= b@);
    true
}

/// The characters of a string slice.
#[verifier::loop_isolation(false)]
pub fn chars_of(text: &str) -> (chars: Vec<char>)
    ensures
        chars@ == text@,
{
    let mut chars: Vec<char> = Vec::new();
    let all = text.chars();
    for c in it: all
        invariant
            it.seq() == text@,
            chars@ == text@.take(it.index() as int),
    {
        chars.push(c);
        assert(text@.take(it.index() + 1) =~= text@.take(it.index() as int).push(c));
    }
    assert(text@.take(text@.len() as int) =~= text@);
    chars
}

/// `String::from_iter` on characters: the string that consists of the given
/// characters, in their order.
#[verifier::external_body]
pub(crate) fn string_of(chars: &Vec<char>) -> (text: String)
    ensures
        text@ == chars@,
{
    String::from_iter(chars)
}

/// Whether `pattern` stands in `text` at the place `at`.
pub open spec fn stands_at(text: Seq<char>, pattern: Seq<char>, at: int) -> bool {
    0 <= at && at + pattern.len() <= text.len() && text.subrange(at, at + pattern.len())
        == pattern
}

/// Whether `pattern` stands somewhere in `text`.
pub open spec fn occurs(text: Seq<char>, pattern: Seq<char>) -> bool {
    exists|at: int| stands_at(text, pattern, at)
}

/// `text` with every match of `pattern` replaced by `with`. Matches are taken
/// from the left and do not overlap. The empty pattern matches in front of
/// every character and at the end.
pub open spec fn replaced(text: Seq<char>, pattern: Seq<char>, with: Seq<char>) -> Seq<char>
    decreases text.len(),
{
    if text.len() == 0 {
        if pattern.len() == 0 {
            with
        } else {
            text
        }
    } else if pattern.len() == 0 {
        with + seq![text[0]] + replaced(text.skip(1), pattern, with)
    } else if stands_at(text, pattern, 0) {
        with + replaced(text.skip(pattern.len() as int), pattern, with)
    } else {
        seq![text[0]] + replaced(text.skip(1), pattern, with)
    }
}

/// Whether `pattern` stands in `text` at the place `at`.
pub fn matches_at(text: &Vec<char>, pattern: &Vec<char>, at: usize) -> (yes: bool)
    ensures
        yes == stands_at(text@, pattern@, at as int),
{
    if at > text.len() || text.len() - at < pattern.len() {
        return false;
    }
    let mut k: usize = 0;
    while k < pattern.len()
        invariant
            k <= pattern.len(),
            at + pattern.len() <= text.len(),
            forall|j: int| 0 <= j < k ==> text@[at + j] == pattern@[j],
        decreases pattern.len() - k,
    {
        if text[at + k] != pattern[k] {
            assert(text@.subrange(at as int, at + pattern.len())[k as int] != pattern@[k as int]);
            return false;
        }
        k += 1;
    }
    assert(text@.subrange(at as int, at + pattern.len()) =~= pattern@);
    true
}

/// Whether `pattern` stands somewhere in `text`.
pub fn contains(text: &Vec<char>, pattern: &Vec<char>) -> (yes: bool)
    ensures
        yes == occurs(text@, pattern@),
{
    if pattern.len() > text.len() {
        assert(!occurs(text@, pattern@));
        return false;
    }
    let last = text.len() - pattern.len();
    let mut at: usize = 0;
    while at < last
        invariant
            at <= last,
            last == text.len() - pattern.len(),
            forall|j: int| 0 <= j < at ==> !stands_at(text@, pattern@, j),
        decreases last - at,
    {
        if matches_at(text, pattern, at) {
            return true;
        }
        at += 1;
    }
    if matches_at(text, pattern, last) {
        return true;
    }
    assert(!occurs(text@, pattern@));
    false
}

/// `text` with every match of `pattern` replaced by `with`.
pub fn replace(text: &Vec<char>, pattern: &Vec<char>, with: &Vec<char>) -> (out: Vec<char>)
    ensures
        out@ == replaced(text@, pattern@, with@),
{
    let mut out: Vec<char> = Vec::new();
    let mut at: usize = 0;
    assert(text@.skip(0) =~= text@);
    assert(out@ + replaced(text@.skip(0), pattern@, with@) =~= replaced(text@, pattern@, with@));
    while at < text.len()
        invariant
            at <= text.len(),
            out@ + replaced(text@.skip(at as int), pattern@, with@) == replaced(
                text@,
                pattern@,
                with@,
            ),
        decreases text.len() - at,
    {
        let ghost rest = text@.skip(at as int);
        let ghost before = out@;
        assert(rest[0] == text@[at as int]);
        if pattern.len() == 0 {
            append_chars(&mut out, with);
            out.push(text[at]);
            assert(rest.skip(1) =~= text@.skip(at + 1));
            assert(out@ + replaced(text@.skip(at + 1), pattern@, with@) =~= before + replaced(
                rest,
                pattern@,
                with@,
            ));
            at += 1;
        } else if matches_at(text, pattern, at) {
            assert(stands_at(rest, pattern@, 0)) by {
                assert(rest.subrange(0, pattern@.len() as int) =~= text@.subrange(
                    at as int,
                    at + pattern@.len(),
                ));
            }
            append_chars(&mut out, with);
            assert(rest.skip(pattern@.len() as int) =~= text@.skip(at + pattern@.len()));
            assert(out@ + replaced(text@.skip(at + pattern@.len()), pattern@, with@) =~= before
                + replaced(rest, pattern@, with@));
            at += pattern.len();
        } else {
            assert(!stands_at(rest, pattern@, 0)) by {
                if stands_at(rest, pattern@, 0) {
                    assert(rest.subrange(0, pattern@.len() as int) =~= text@.subrange(
                        at as int,
                        at + pattern@.len(),
                    ));
                }
            }
            out.push(text[at]);
            assert(rest.skip(1) =~= text@.skip(at + 1));
            assert(out@ + replaced(text@.skip(at + 1), pattern@, with@) =~= before + replaced(
                rest,
                pattern@,
                with@,
            ));
            at += 1;
        }
    }
    let ghost before = out@;
    assert(text@.skip(at as int).len() == 0);
    if pattern.len() == 0 {
        append_chars(&mut out, with);
    }
    assert(out@ =~= before + replaced(text@.skip(at as int), pattern@, with@));
    out
}

/// Puts `more` at the end of `out`.
pub fn append_chars(out: &mut Vec<char>, more: &Vec<char>)
    ensures
        final(out)@ == old(out)@ + more@,
{
    let mut i: usize = 0;
    while i < more.len()
        invariant
            i <= more.len(),
            out@ == old(out)@ + more@.take(i as int),
        decreases more.len() - i,
    {
        out.push(more[i]);
        assert(more@.take(i + 1) =~= more@.take(i as int).push(more@[i as int]));
        i += 1;
    }
    assert(more@.take(i as int) =~= more@);
}

/// Whether `pattern` stands somewhere in `text`.
pub fn str_contains(text: &str, pattern: &str) -> (yes: bool)
    ensures
        yes == occurs(text@, pattern@),
{
    contains(&chars_of(text), &chars_of(pattern))
}

/// `text` with every match of `pattern` replaced by `with`.
pub fn str_replace(text: &str, pattern: &str, with: &str) -> (out: String)
    ensures
        out@ == replaced(text@, pattern@, with@),
{
    string_of(&replace(&chars_of(text), &chars_of(pattern), &chars_of(with)))
}

} // verus!
