//! Conversions between `&str` / `String` and `Vec<char>`.
//!
//! All of the tokenizer's and resolver's logic works on character
//! vectors; these two functions are the only bridge to Rust strings.
use vstd::prelude::*;

verus! {

/// Relies on `str::chars`: yields the characters of the string in order.
#[verifier::external_body]
pub fn chars_of(s: &str) -> (r: Vec<char>)
    ensures
        r@ == s@,
{
    s.chars().collect()
}

/// Relies on `String`'s `FromIterator<char>`: collects the characters
/// into a string holding exactly them, in order.
#[verifier::external_body]
pub fn string_from_chars(v: &Vec<char>) -> (r: String)
    ensures
        r@ == v@,
{
    v.iter().collect()
}

/// Appends all characters of `src` to `dst`.
pub fn push_chars(dst: &mut Vec<char>, src: &Vec<char>)
    ensures
        final(dst)@ == old(dst)@ + src@,
{
    let ghost d0 = dst@;
    let mut i: usize = 0;
    while i < src.len()
        invariant
            0 <= i <= src@.len(),
            dst@ == d0 + src@.take(i as int),
        decreases src@.len() - i,
    {
        dst.push(src[i]);
        i = i + 1;
        proof {
            assert(src@.take(i as int) =~= src@.take(i - 1).push(src@[i - 1]));
            assert(d0 + src@.take(i as int) =~= (d0 + src@.take(i - 1)).push(src@[i - 1]));
        }
    }
    proof {
        assert(src@.take(src@.len() as int) =~= src@);
    }
}

/// The characters of `v` from `from` (inclusive) to `to` (exclusive).
pub fn subchars(v: &Vec<char>, from: usize, to: usize) -> (r: Vec<char>)
    requires
        from <= to <= v@.len(),
    ensures
        r@ == v@.subrange(from as int, to as int),
{
    let mut r: Vec<char> = Vec::new();
    let mut i: usize = from;
    while i < to
        invariant
            from <= i <= to <= v@.len(),
            r@ == v@.subrange(from as int, i as int),
        decreases to - i,
    {
        r.push(v[i]);
        i = i + 1;
        proof {
            assert(v@.subrange(from as int, i as int) =~= v@.subrange(
                from as int,
                i - 1,
            ).push(v@[i - 1]));
        }
    }
    r
}

} // verus!
