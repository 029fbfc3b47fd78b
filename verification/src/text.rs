//! Physical structure of the format: lines and whitespace-separated tokens.

use vstd::prelude::*;

verus! {

/// The bytes that separate tokens within a line.
pub open spec fn is_ws(b: u8) -> bool {
    b == 32 || b == 9 || b == 10 || b == 11 || b == 12 || b == 13
}

/// The input split at every newline byte. A trailing newline does not
/// produce an extra empty line.
pub open spec fn lines_of(input: Seq<u8>) -> Seq<Seq<u8>>
    decreases input.len(),
    via lines_of_decreases
{
    if input.len() == 0 {
        Seq::empty()
    } else {
        let dot = line_end(input);
        if dot == input.len() {
            seq![input]
        } else {
            seq![input.take(dot)] + lines_of(input.skip(dot + 1))
        }
    }
}

#[via_fn]
proof fn lines_of_decreases(input: Seq<u8>) {
    lemma_line_end_bounds(input);
}

/// `line_end` always lies between `0` and `s.len()`.
pub proof fn lemma_line_end_bounds(s: Seq<u8>)
    ensures
        0 <= line_end(s) <= s.len(),
    decreases s.len(),
{
    if s.len() > 0 && s[0] != 10 {
        lemma_line_end_bounds(s.skip(1));
    }
}

/// The index of the first newline in `s`, or `s.len()` if there is none.
pub open spec fn line_end(s: Seq<u8>) -> int
    decreases s.len(),
{
    if s.len() == 0 {
        0
    } else if s[0] == 10 {
        0
    } else {
        1 + line_end(s.skip(1))
    }
}

/// The whitespace-separated tokens of one line, in order.
pub open spec fn tokens_of(line: Seq<u8>) -> Seq<Seq<u8>>
    decreases line.len(),
    via tokens_of_decreases
{
    if line.len() == 0 {
        Seq::empty()
    } else if is_ws(line[0]) {
        tokens_of(line.skip(1))
    } else {
        let end = token_end(line);
        seq![line.take(end)] + tokens_of(line.skip(end))
    }
}

#[via_fn]
proof fn tokens_of_decreases(line: Seq<u8>) {
    lemma_token_end_bounds(line);
}

/// `token_end` always lies between `0` and `s.len()`, and is positive when
/// the head byte is not whitespace.
pub proof fn lemma_token_end_bounds(s: Seq<u8>)
    ensures
        0 <= token_end(s) <= s.len(),
        s.len() > 0 && !is_ws(s[0]) ==> token_end(s) >= 1,
    decreases s.len(),
{
    if s.len() > 0 && !is_ws(s[0]) {
        lemma_token_end_bounds(s.skip(1));
    }
}

/// The index of the first whitespace byte in `s`, or `s.len()` if none.
pub open spec fn token_end(s: Seq<u8>) -> int
    decreases s.len(),
{
    if s.len() == 0 {
        0
    } else if is_ws(s[0]) {
        0
    } else {
        1 + token_end(s.skip(1))
    }
}

/// The views of a sequence of byte vectors.
pub open spec fn views_of(s: Seq<Vec<u8>>) -> Seq<Seq<u8>> {
    s.map_values(|v: Vec<u8>| v@)
}

/// Finds the first newline at or after `start`.
fn find_nl(s: &[u8], start: usize) -> (r: usize)
    requires
        start <= s@.len(),
    ensures
        start <= r <= s@.len(),
        r - start == line_end(s@.skip(start as int)),
{
    let mut i: usize = start;
    while i < s.len()
        invariant
            start <= i <= s@.len(),
            line_end(s@.skip(start as int)) == i - start + line_end(s@.skip(i as int)),
        decreases s@.len() - i,
    {
        proof {
            assert(s@.skip(i as int)[0] == s@[i as int]);
            assert(s@.skip(i as int).skip(1) =~= s@.skip(i + 1));
        }
        if s[i] == 10 {
            return i;
        }
        i += 1;
    }
    assert(s@.skip(i as int).len() == 0);
    i
}

/// Copies `s[start..end]` into a fresh vector.
pub fn copy_range(s: &[u8], start: usize, end: usize) -> (r: Vec<u8>)
    requires
        start <= end <= s@.len(),
    ensures
        r@ == s@.subrange(start as int, end as int),
{
    let mut out: Vec<u8> = Vec::new();
    let mut i: usize = start;
    while i < end
        invariant
            start <= i <= end <= s@.len(),
            out@ =~= s@.subrange(start as int, i as int),
        decreases end - i,
    {
        out.push(s[i]);
        assert(out@ =~= s@.subrange(start as int, i + 1));
        i += 1;
    }
    assert(out@ =~= s@.subrange(start as int, end as int));
    out
}

/// Splits the whole input into its physical lines, as [`lines_of`] states.
pub fn split_lines(input: &[u8]) -> (r: Vec<Vec<u8>>)
    ensures
        views_of(r@) == lines_of(input@),
{
    let mut out: Vec<Vec<u8>> = Vec::new();
    let mut i: usize = 0;
    proof {
        assert(input@.skip(0) =~= input@);
        assert(views_of(out@) =~= Seq::<Seq<u8>>::empty());
    }
    while i < input.len()
        invariant
            i <= input@.len(),
            lines_of(input@) =~= views_of(out@) + lines_of(input@.skip(i as int)),
        decreases input@.len() - i,
    {
        let nl = find_nl(input, i);
        let line = copy_range(input, i, nl);
        proof {
            let rest = input@.skip(i as int);
            assert(rest.take(nl - i) =~= input@.subrange(i as int, nl as int));
            if nl < input@.len() {
                assert(rest.skip(nl - i + 1) =~= input@.skip(nl + 1));
            }
        }
        out.push(line);
        proof {
            assert(views_of(out@) =~= views_of(out@.drop_last()).push(out@.last()@));
        }
        if nl == input.len() {
            i = nl;
            assert(input@.skip(i as int).len() == 0);
            assert(lines_of(input@) =~= views_of(out@) + lines_of(input@.skip(i as int)));
        } else {
            i = nl + 1;
            assert(lines_of(input@) =~= views_of(out@) + lines_of(input@.skip(i as int)));
        }
    }
    assert(lines_of(input@) =~= views_of(out@) + lines_of(input@.skip(i as int)));
    assert(views_of(out@) =~= lines_of(input@));
    out
}

/// Finds the first non-whitespace byte at or after `start`.
fn skip_ws(s: &[u8], start: usize) -> (r: usize)
    requires
        start <= s@.len(),
    ensures
        start <= r <= s@.len(),
        tokens_of(s@.skip(start as int)) == tokens_of(s@.skip(r as int)),
        r < s@.len() ==> !is_ws(s@[r as int]),
    decreases s@.len() - start,
{
    let mut i: usize = start;
    while i < s.len()
        invariant
            start <= i <= s@.len(),
            tokens_of(s@.skip(start as int)) == tokens_of(s@.skip(i as int)),
        decreases s@.len() - i,
    {
        proof {
            assert(s@.skip(i as int)[0] == s@[i as int]);
            assert(s@.skip(i as int).skip(1) =~= s@.skip(i + 1));
        }
        if !byte_is_ws(s[i]) {
            return i;
        }
        i += 1;
    }
    i
}

/// Whether one byte is token whitespace, as [`is_ws`] states.
fn byte_is_ws(b: u8) -> (r: bool)
    ensures
        r == is_ws(b),
{
    b == 32 || b == 9 || b == 10 || b == 11 || b == 12 || b == 13
}

/// Finds the first whitespace byte at or after `start`.
fn find_ws(s: &[u8], start: usize) -> (r: usize)
    requires
        start <= s@.len(),
    ensures
        start <= r <= s@.len(),
        r - start == token_end(s@.skip(start as int)),
{
    let mut i: usize = start;
    while i < s.len()
        invariant
            start <= i <= s@.len(),
            token_end(s@.skip(start as int)) == i - start + token_end(s@.skip(i as int)),
        decreases s@.len() - i,
    {
        proof {
            assert(s@.skip(i as int)[0] == s@[i as int]);
            assert(s@.skip(i as int).skip(1) =~= s@.skip(i + 1));
        }
        if byte_is_ws(s[i]) {
            return i;
        }
        i += 1;
    }
    assert(s@.skip(i as int).len() == 0);
    i
}

/// Splits one line into its whitespace-separated tokens, as [`tokens_of`]
/// states.
pub fn tokenize(line: &[u8]) -> (r: Vec<Vec<u8>>)
    ensures
        views_of(r@) == tokens_of(line@),
{
    let mut out: Vec<Vec<u8>> = Vec::new();
    proof {
        assert(line@.skip(0) =~= line@);
    }
    let mut i: usize = skip_ws(line, 0);
    while i < line.len()
        invariant
            i <= line@.len(),
            tokens_of(line@) =~= views_of(out@) + tokens_of(line@.skip(i as int)),
            i < line@.len() ==> !is_ws(line@[i as int]),
        decreases line@.len() - i,
    {
        let end = find_ws(line, i);
        proof {
            let rest = line@.skip(i as int);
            assert(rest.take(end - i) =~= line@.subrange(i as int, end as int));
            assert(rest.skip(end - i) =~= line@.skip(end as int));
            assert(rest[0] == line@[i as int]);
            assert(end > i) by {
                lemma_token_end_bounds(rest);
            };
        }
        let tok = copy_range(line, i, end);
        out.push(tok);
        proof {
            assert(views_of(out@) =~= views_of(out@.drop_last()).push(out@.last()@));
        }
        i = skip_ws(line, end);
        proof {
            assert(tokens_of(line@) =~= views_of(out@) + tokens_of(line@.skip(i as int)));
        }
    }
    assert(tokens_of(line@.skip(i as int)) =~= Seq::<Seq<u8>>::empty());
    assert(views_of(out@) =~= tokens_of(line@));
    out
}

} // verus!
