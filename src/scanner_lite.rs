//! A cursor over an in-memory string that keeps nothing but the unread part.
use vstd::prelude::*;
use vstd::utf8::*;
use crate::utf8::{
    byte_len, bytes_start_with, lemma_boundary_concat, lemma_bytes_determine_chars, lemma_encode_concat,
    lemma_first_width, lemma_prefix_bytes, leading_byte_width, ascii_space,
    is_white_space, white_space, prefix_before, is_ascii_space_char, lemma_ascii_first,
};

verus! {

broadcast use vstd::string::group_string_axioms;

/// The number of characters of `s` up to and including its first newline,
/// or all of them when it holds none.
pub open spec fn line_end(s: Seq<char>) -> nat
    decreases s.len(),
{
    if s.len() == 0 {
        0
    } else if s[0] == '\n' {
        1
    } else {
        1 + line_end(s.drop_first())
    }
}

/// Whether `tail` is what is left of `whole` after dropping some characters
/// from its front.
pub open spec fn is_suffix_of(tail: Seq<char>, whole: Seq<char>) -> bool {
    tail.len() <= whole.len() && whole.subrange(whole.len() - tail.len(), whole.len() as int) == tail
}

/// Whether `n` is the byte length of some run of whole characters at the
/// front of `s`.
pub open spec fn is_char_prefix_len(s: Seq<char>, n: int) -> bool {
    exists|k: int| 0 <= k <= s.len() && encode_utf8(s.subrange(0, k)).len() == n
}

/// Skips the first `n` bytes of `s`, where they make up whole characters.
pub(crate) fn skip_prefix_bytes<'a>(s: &'a str, n: usize) -> (r: &'a str)
    requires
        is_char_prefix_len(s@, n as int),
    ensures
        is_suffix_of(r@, s@),
        encode_utf8(s@.subrange(0, s@.len() - r@.len())).len() == n,
{
    let ghost k = choose|k: int| 0 <= k <= s@.len() && encode_utf8(s@.subrange(0, k)).len() == n;
    let ghost a = s@.subrange(0, k);
    let ghost b = s@.subrange(k, s@.len() as int);
    proof {
        assert(s@ =~= a + b);
        lemma_boundary_concat(a, b);
    }
    let (_, tail) = s.split_at(n);
    proof {
        lemma_bytes_determine_chars(tail, b);
    }
    tail
}

/// Whether the characters of `s` begin with those of `e`.
pub open spec fn starts_with(s: Seq<char>, e: Seq<char>) -> bool {
    e.len() <= s.len() && s.subrange(0, e.len() as int) == e
}

/// A run of steps that each drop one character and return it yields the
/// characters of the first state, in order, and leaves the rest.
pub proof fn lemma_char_run(states: Seq<Seq<char>>, chars: Seq<char>)
    requires
        states.len() == chars.len() + 1,
        forall|i: int|
            0 <= i < chars.len() ==> #[trigger] states[i].len() > 0 && states[i + 1]
                == states[i].drop_first() && states[i][0] == chars[i],
    ensures
        chars.len() <= states[0].len(),
        chars == states[0].subrange(0, chars.len() as int),
        states[chars.len() as int] == states[0].subrange(chars.len() as int, states[0].len() as int),
        chars.len() == states[0].len() ==> chars == states[0] && states[chars.len() as int].len()
            == 0,
    decreases chars.len(),
{
    assert(states[0].subrange(0, states[0].len() as int) =~= states[0]);
    if chars.len() == 0 {
        assert(states[0].subrange(0, 0) =~= chars);
        assert(states[0].subrange(0, states[0].len() as int) =~= states[0]);
    } else {
        let n = chars.len() - 1;
        let pre = states.subrange(0, n + 1);
        let cs = chars.subrange(0, n);
        assert forall|i: int| 0 <= i < cs.len() implies #[trigger] pre[i].len() > 0 && pre[i + 1]
            == pre[i].drop_first() && pre[i][0] == cs[i] by {
            assert(pre[i] == states[i]);
            assert(pre[i + 1] == states[i + 1]);
            assert(states[i].len() > 0);
        }
        lemma_char_run(pre, cs);
        assert(states[n].len() > 0);
        assert(states[n + 1] == states[n].drop_first());
        assert(chars =~= states[0].subrange(0, n + 1));
        assert(states[n + 1] =~= states[0].subrange(n + 1, states[0].len() as int));
    }
}

/// A lightweight cursor over a string that does not track its position.
///
/// Its view is the sequence of characters not yet scanned.
#[derive(Clone, Copy, Debug)]
pub struct ScannerLite<'src> {
    rest: &'src str,
}

impl<'src> View for ScannerLite<'src> {
    type V = Seq<char>;

    closed spec fn view(&self) -> Seq<char> {
        self.rest@
    }
}

/// Drops the first character of `s`.
pub(crate) fn drop_first_char<'a>(s: &'a str) -> (r: &'a str)
    requires
        s@.len() > 0,
    ensures
        r@ == s@.drop_first(),
        encode_utf8(s@) == encode_utf8(seq![s@[0]]) + encode_utf8(r@),
{
    let bytes = s.as_bytes();
    proof {
        lemma_first_width(s@);
        lemma_boundary_concat(seq![s@[0]], s@.drop_first());
    }
    let w = leading_byte_width(bytes[0]);
    let (_, tail) = s.split_at(w);
    proof {
        lemma_bytes_determine_chars(tail, s@.drop_first());
        lemma_encode_concat(seq![s@[0]], s@.drop_first());
    }
    tail
}

/// Returns the first character of `s`, if any.
pub(crate) fn first_char(s: &str) -> (r: Option<char>)
    ensures
        r == (if s@.len() == 0 {
            None
        } else {
            Some(s@[0])
        }),
{
    let mut it = s.chars();
    it.next()
}

impl<'src> ScannerLite<'src> {
    pub fn new(source_str: &'src str) -> (r: Self)
        ensures
            r@ == source_str@,
    {
        ScannerLite { rest: source_str }
    }

    /// Returns `true` if the remaining string is empty.
    pub fn is_done(&self) -> (r: bool)
        ensures
            r == (self@.len() == 0),
    {
        self.rest.is_empty()
    }

    /// Returns the next code point without advancing.
    pub fn peek_char(&self) -> (r: Option<char>)
        ensures
            r == (if self@.len() == 0 {
                None
            } else {
                Some(self@[0])
            }),
    {
        first_char(self.rest)
    }

    /// Advances past the next code point and returns it.
    pub fn next_char(&mut self) -> (r: Option<char>)
        ensures
            old(self)@.len() == 0 ==> r is None && final(self)@ == old(self)@,
            old(self)@.len() > 0 ==> r == Some(old(self)@[0]) && final(self)@ == old(self)@.drop_first(),
    {
        let c = first_char(self.rest);
        if c.is_some() {
            self.rest = drop_first_char(self.rest);
        }
        c
    }

    /// Skips the next code point; returns `false` if the remaining string is
    /// empty.
    pub fn skip_char(&mut self) -> (r: bool)
        ensures
            r == (old(self)@.len() > 0),
            final(self)@ == (if r {
                old(self)@.drop_first()
            } else {
                old(self)@
            }),
    {
        if self.rest.is_empty() {
            return false;
        }
        self.rest = drop_first_char(self.rest);
        true
    }

    /// Returns the next byte of the remaining string.
    pub fn peek_byte(&self) -> (r: Option<u8>)
        ensures
            r == (if self@.len() == 0 {
                None
            } else {
                Some(encode_utf8(self@)[0])
            }),
    {
        if self.rest.is_empty() {
            return None;
        }
        proof {
            lemma_first_width(self@);
        }
        let bytes = self.rest.as_bytes();
        Some(bytes[0])
    }

    /// Returns the length of the remaining string in bytes.
    pub fn remaining_len(&self) -> (r: usize)
        ensures
            r == encode_utf8(self@).len(),
    {
        byte_len(self.rest)
    }

    /// Skips an expected code point; returns `false`, and stays put, if the
    /// remaining string does not start with it.
    pub fn expect_char(&mut self, expected: char) -> (r: bool)
        ensures
            r == (old(self)@.len() > 0 && old(self)@[0] == expected),
            final(self)@ == (if r {
                old(self)@.drop_first()
            } else {
                old(self)@
            }),
    {
        if first_char(self.rest) != Some(expected) {
            return false;
        }
        self.expect_char_unchecked(expected);
        true
    }

    /// Skips an expected code point that the caller knows to be next.
    pub fn expect_char_unchecked(&mut self, expected: char)
        requires
            old(self)@.len() > 0,
            old(self)@[0] == expected,
        ensures
            final(self)@ == old(self)@.drop_first(),
    {
        self.rest = drop_first_char(self.rest);
    }

    /// Skips an expected prefix; returns `false`, and stays put, if the
    /// remaining string does not start with it.
    pub fn expect_str(&mut self, expected: &str) -> (r: bool)
        ensures
            r == starts_with(old(self)@, expected@),
            final(self)@ == (if r {
                old(self)@.subrange(expected@.len() as int, old(self)@.len() as int)
            } else {
                old(self)@
            }),
    {
        proof {
            lemma_prefix_bytes(self@, expected@);
        }
        if !bytes_start_with(self.rest.as_bytes(), expected.as_bytes()) {
            return false;
        }
        self.expect_str_unchecked(expected);
        true
    }

    /// Skips an expected prefix that the caller knows to be next.
    pub fn expect_str_unchecked(&mut self, expected: &str)
        requires
            starts_with(old(self)@, expected@),
        ensures
            final(self)@ == old(self)@.subrange(expected@.len() as int, old(self)@.len() as int),
    {
        let ghost s = self.rest@;
        proof {
            assert(s.subrange(0, expected@.len() as int) == expected@);
        }
        self.rest = skip_prefix_bytes(self.rest, byte_len(expected));
        proof {
            let k = s.len() - self@.len();
            let ghost t = s.subrange(k, s.len() as int);
            lemma_prefix_bytes(s, s.subrange(0, k));
            assert(s =~= s.subrange(0, k) + t);
            lemma_boundary_concat(s.subrange(0, k), t);
            assert(s =~= expected@ + s.subrange(expected@.len() as int, s.len() as int));
            lemma_boundary_concat(expected@, s.subrange(expected@.len() as int, s.len() as int));
            assert(k == expected@.len()) by {
                if k < expected@.len() {
                    lemma_encode_concat(s.subrange(0, k), s.subrange(k, expected@.len() as int));
                    assert(s.subrange(0, expected@.len() as int) =~= s.subrange(0, k) + s.subrange(k, expected@.len() as int));
                    lemma_first_width(s.subrange(k, expected@.len() as int));
                } else if k > expected@.len() {
                    lemma_encode_concat(s.subrange(0, expected@.len() as int), s.subrange(expected@.len() as int, k));
                    assert(s.subrange(0, k) =~= s.subrange(0, expected@.len() as int) + s.subrange(expected@.len() as int, k));
                    lemma_first_width(s.subrange(expected@.len() as int, k));
                }
            }
        }
    }

    /// Skips the next `n` bytes, which the caller knows to make up whole
    /// characters.
    pub fn skip_bytes_unchecked(&mut self, n: usize)
        requires
            is_char_prefix_len(old(self)@, n as int),
        ensures
            is_suffix_of(final(self)@, old(self)@),
            encode_utf8(old(self)@.subrange(0, old(self)@.len() - final(self)@.len())).len() == n,
    {
        self.rest = skip_prefix_bytes(self.rest, n);
    }

    /// Advances past the next line and returns it, with its newline if it has
    /// one; returns `""` if the remaining string is empty.
    pub fn next_line(&mut self) -> (r: &'src str)
        ensures
            r@ == old(self)@.subrange(0, line_end(old(self)@) as int),
            final(self)@ == old(self)@.subrange(line_end(old(self)@) as int, old(self)@.len() as int),
    {
        let start = self.rest;
        let ghost s0 = self.rest@;
        let ghost mut k: int = 0;
        let mut done = false;
        while !done
            invariant
                0 <= k <= s0.len(),
                self@ == s0.subrange(k, s0.len() as int),
                start@ == s0,
                done ==> line_end(s0) == k,
                !done ==> line_end(s0) == k + line_end(self@),
            decreases self@.len() + if done { 0int } else { 1int },
        {
            let ghost before = self@;
            match self.next_char() {
                None => {
                    done = true;
                },
                Some(c) => {
                    proof {
                        k = k + 1;
                        assert(self@ =~= s0.subrange(k, s0.len() as int));
                    }
                    if c == '\n' {
                        done = true;
                    }
                },
            }
        }
        proof {
            assert(start@.subrange(start@.len() - self@.len(), start@.len() as int) =~= self@);
        }
        prefix_before(start, self.rest)
    }

    /// Skips the ASCII whitespace at the start of the remaining string,
    /// looking at bytes only.
    pub fn skip_ascii_whitespace(&mut self)
        ensures
            is_suffix_of(final(self)@, old(self)@),
            forall|i: int|
                0 <= i < old(self)@.len() - final(self)@.len() ==> is_ascii_space_char(
                    #[trigger] old(self)@[i],
                ),
            final(self)@.len() > 0 ==> !is_ascii_space_char(final(self)@[0]),
    {
        let ghost s0 = self@;
        assert(s0.subrange(0, s0.len() as int) =~= s0);
        loop
            invariant
                is_suffix_of(self@, s0),
                forall|i: int| 0 <= i < s0.len() - self@.len() ==> is_ascii_space_char(#[trigger] s0[i]),
            ensures
                is_suffix_of(self@, s0),
                forall|i: int| 0 <= i < s0.len() - self@.len() ==> is_ascii_space_char(#[trigger] s0[i]),
                self@.len() > 0 ==> !is_ascii_space_char(self@[0]),
            decreases self@.len(),
        {
            match self.peek_byte() {
                None => break,
                Some(b) => {
                    proof {
                        lemma_ascii_first(self@);
                    }
                    if !ascii_space(b) {
                        break;
                    }
                    let ghost before = self@;
                    self.rest = drop_first_char(self.rest);
                    proof {
                        assert(s0[s0.len() - before.len()] == before[0]);
                        assert(s0.subrange(s0.len() - self@.len(), s0.len() as int) =~= self@);
                    }
                },
            }
        }
    }

    /// Skips the code points at the start of the remaining string for which
    /// `condition` holds.
    pub fn skip_chars_while(&mut self, condition: impl Fn(char) -> bool)
        requires
            forall|c: char| call_requires(condition, (c,)),
        ensures
            is_suffix_of(final(self)@, old(self)@),
            forall|i: int|
                0 <= i < old(self)@.len() - final(self)@.len() ==> call_ensures(
                    condition,
                    (#[trigger] old(self)@[i],),
                    true,
                ),
            final(self)@.len() > 0 ==> call_ensures(condition, (final(self)@[0],), false),
    {
        let ghost s0 = self@;
        assert(s0.subrange(0, s0.len() as int) =~= s0);
        loop
            invariant
                forall|c: char| call_requires(condition, (c,)),
                is_suffix_of(self@, s0),
                forall|i: int|
                    0 <= i < s0.len() - self@.len() ==> call_ensures(condition, (#[trigger] s0[i],), true),
            ensures
                is_suffix_of(self@, s0),
                forall|i: int|
                    0 <= i < s0.len() - self@.len() ==> call_ensures(condition, (#[trigger] s0[i],), true),
                self@.len() > 0 ==> call_ensures(condition, (self@[0],), false),
            decreases self@.len(),
        {
            match first_char(self.rest) {
                None => break,
                Some(c) => {
                    if !condition(c) {
                        break;
                    }
                    let ghost before = self@;
                    self.rest = drop_first_char(self.rest);
                    proof {
                        assert(s0[s0.len() - before.len()] == before[0]);
                        assert(s0.subrange(s0.len() - self@.len(), s0.len() as int) =~= self@);
                    }
                },
            }
        }
    }

    /// Skips the whitespace at the start of the remaining string.
    pub fn skip_whitespace(&mut self)
        ensures
            is_suffix_of(final(self)@, old(self)@),
            forall|i: int|
                0 <= i < old(self)@.len() - final(self)@.len() ==> white_space(#[trigger] old(self)@[i]),
            final(self)@.len() > 0 ==> !white_space(final(self)@[0]),
    {
        self.skip_chars_while(|c: char| -> (r: bool)
            ensures
                r == white_space(c),
            { is_white_space(c) });
    }

    /// Returns the remaining string.
    pub fn remaining_str(&self) -> (r: &'src str)
        ensures
            r@ == self@,
    {
        self.rest
    }
}

} // verus!
