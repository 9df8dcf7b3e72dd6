//! A cursor over an in-memory string that tracks byte offset, line and
//! column.
use vstd::prelude::*;
use vstd::utf8::*;
use crate::scanner_lite::{
    drop_first_char, first_char, is_char_prefix_len, is_suffix_of, line_end, skip_prefix_bytes,
    starts_with,
};
use crate::utf8::{
    ascii_space, byte_len, bytes_start_with, lemma_prefix_bytes, is_ascii_space_char, is_white_space, lemma_ascii_first,
    lemma_encode_concat, prefix_before, white_space,
};

verus! {

broadcast use vstd::string::group_string_axioms;

/// The number of newline characters in `s`.
pub open spec fn newline_count(s: Seq<char>) -> nat
    decreases s.len(),
{
    if s.len() == 0 {
        0
    } else {
        newline_count(s.drop_last()) + if s.last() == '\n' {
            1nat
        } else {
            0nat
        }
    }
}

/// The number of characters of `s` after its last newline, or all of them
/// when it holds none.
pub open spec fn chars_since_newline(s: Seq<char>) -> nat
    decreases s.len(),
{
    if s.len() == 0 {
        0
    } else if s.last() == '\n' {
        0
    } else {
        chars_since_newline(s.drop_last()) + 1
    }
}

/// The line reached after scanning `s`, counted from 1.
pub open spec fn line_of(s: Seq<char>) -> nat {
    1 + newline_count(s)
}

/// The column reached after scanning `s`: one more than the number of
/// characters since the last newline.
pub open spec fn column_of(s: Seq<char>) -> nat {
    1 + chars_since_newline(s)
}

/// The test for a newline character.
pub open spec fn is_newline() -> spec_fn(char) -> bool {
    |c: char| c == '\n'
}

/// Position law: after scanning `s`, the line is one more than the number of
/// newlines in `s`, and the column is one more than the number of code
/// points after the last newline, or in all of `s` when it has none.
pub proof fn lemma_position_law(s: Seq<char>)
    ensures
        line_of(s) == 1 + s.filter(is_newline()).len(),
        forall|j: int|
            0 <= j < s.len() && #[trigger] s[j] == '\n' && (forall|i: int|
                j < i < s.len() ==> s[i] != '\n') ==> column_of(s) == 1 + (s.len() - j - 1),
        (forall|i: int| 0 <= i < s.len() ==> s[i] != '\n') ==> column_of(s) == 1 + s.len(),
    decreases s.len(),
{
    reveal(Seq::filter);
    if s.len() > 0 {
        let t = s.drop_last();
        lemma_position_law(t);
        assert forall|i: int| 0 <= i < t.len() implies t[i] == s[i] by {}
        if s.last() != '\n' {
            assert forall|j: int|
                0 <= j < s.len() && #[trigger] s[j] == '\n' && (forall|i: int|
                    j < i < s.len() ==> s[i] != '\n') implies column_of(s) == 1 + (s.len() - j - 1) by {
                assert(j < t.len());
                assert(t[j] == '\n');
                assert forall|i: int| j < i < t.len() implies t[i] != '\n' by {
                    assert(s[i] != '\n');
                }
            }
            if forall|i: int| 0 <= i < s.len() ==> s[i] != '\n' {
                assert forall|i: int| 0 <= i < t.len() implies t[i] != '\n' by {
                    assert(s[i] != '\n');
                }
            }
        } else {
            assert forall|j: int|
                0 <= j < s.len() && #[trigger] s[j] == '\n' && (forall|i: int|
                    j < i < s.len() ==> s[i] != '\n') implies column_of(s) == 1 + (s.len() - j - 1) by {
                if j < s.len() - 1 {
                    assert(s[s.len() - 1] != '\n');
                }
            }
            assert(s[s.len() - 1] == '\n');
        }
    }
}

proof fn lemma_counts_bounded(s: Seq<char>)
    ensures
        newline_count(s) <= s.len(),
        chars_since_newline(s) <= s.len(),
    decreases s.len(),
{
    if s.len() > 0 {
        lemma_counts_bounded(s.drop_last());
    }
}

proof fn lemma_push(s: Seq<char>, c: char)
    ensures
        s.push(c).drop_last() == s,
        s.push(c).last() == c,
        newline_count(s.push(c)) == newline_count(s) + if c == '\n' {
            1nat
        } else {
            0nat
        },
        chars_since_newline(s.push(c)) == if c == '\n' {
            0
        } else {
            chars_since_newline(s) + 1
        },
{
    assert(s.push(c).drop_last() =~= s);
}

/// Whether scanner state `to` follows from `from` by consuming its next `k`
/// characters. A state is the pair of scanned and unscanned characters.
pub open spec fn advanced_by(from: (Seq<char>, Seq<char>), to: (Seq<char>, Seq<char>), k: int) -> bool {
    &&& 0 <= k <= from.1.len()
    &&& to.0 == from.0 + from.1.subrange(0, k)
    &&& to.1 == from.1.subrange(k, from.1.len() as int)
}

proof fn lemma_advanced_trans(
    a: (Seq<char>, Seq<char>),
    b: (Seq<char>, Seq<char>),
    c: (Seq<char>, Seq<char>),
    k: int,
    j: int,
)
    requires
        advanced_by(a, b, k),
        advanced_by(b, c, j),
    ensures
        advanced_by(a, c, k + j),
{
    assert(c.0 =~= a.0 + a.1.subrange(0, k + j));
    assert(c.1 =~= a.1.subrange(k + j, a.1.len() as int));
}

proof fn lemma_advanced_zero(a: (Seq<char>, Seq<char>))
    ensures
        advanced_by(a, a, 0),
{
    assert(a.0 =~= a.0 + a.1.subrange(0, 0));
    assert(a.1 =~= a.1.subrange(0, a.1.len() as int));
}

/// A run of steps that each consume one character and return it yields the
/// characters that were unscanned at the start, in order, and leaves the
/// scanner just past them.
pub proof fn lemma_char_run(states: Seq<(Seq<char>, Seq<char>)>, chars: Seq<char>)
    requires
        states.len() == chars.len() + 1,
        forall|i: int|
            0 <= i < chars.len() ==> advanced_by(#[trigger] states[i], states[i + 1], 1)
                && states[i].1[0] == chars[i],
    ensures
        chars == states[0].1.subrange(0, chars.len() as int),
        advanced_by(states[0], states[chars.len() as int], chars.len() as int),
        chars.len() == states[0].1.len() ==> chars == states[0].1 && states[chars.len() as int].1.len()
            == 0,
    decreases chars.len(),
{
    assert(states[0].1.subrange(0, states[0].1.len() as int) =~= states[0].1);
    if chars.len() == 0 {
        lemma_advanced_zero(states[0]);
        assert(states[0].1.subrange(0, 0) =~= chars);
    } else {
        let n = chars.len() - 1;
        let pre = states.subrange(0, n + 1);
        let cs = chars.subrange(0, n);
        assert forall|i: int| 0 <= i < cs.len() implies advanced_by(#[trigger] pre[i], pre[i + 1], 1)
            && pre[i].1[0] == cs[i] by {
            assert(pre[i] == states[i]);
            assert(pre[i + 1] == states[i + 1]);
        }
        lemma_char_run(pre, cs);
        assert(advanced_by(states[n], states[n + 1], 1) && states[n].1[0] == chars[n]);
        lemma_advanced_trans(states[0], states[n], states[n + 1], n, 1);
        assert(chars =~= states[0].1.subrange(0, n + 1));
    }
}

/// A cursor for scanning and parsing a string, which tracks the line, the
/// column and the byte position reached.
///
/// Its view is the pair of the characters already scanned and those not yet
/// scanned.
pub struct Scanner<'src> {
    source: &'src str,
    rest: &'src str,
    line: usize,
    column: usize,
}

impl<'src> Clone for Scanner<'src> {
    fn clone(&self) -> (r: Self)
        ensures
            r@ == self@,
    {
        proof {
            use_type_invariant(self);
        }
        Scanner { source: self.source, rest: self.rest, line: self.line, column: self.column }
    }
}

impl<'src> View for Scanner<'src> {
    type V = (Seq<char>, Seq<char>);

    closed spec fn view(&self) -> (Seq<char>, Seq<char>) {
        (self.source@.subrange(0, self.source@.len() - self.rest@.len()), self.rest@)
    }
}

impl<'src> Scanner<'src> {
    #[verifier::type_invariant]
    closed spec fn inv(&self) -> bool {
        &&& is_suffix_of(self.rest@, self.source@)
        &&& self.source@.len() < usize::MAX
        &&& self.line == line_of(self@.0)
        &&& self.column == column_of(self@.0)
    }

    /// Creates a scanner at the start of `source_str`, on line 1, column 1.
    pub fn new(source_str: &'src str) -> (r: Self)
        requires
            source_str@.len() < usize::MAX,
        ensures
            r@ == (Seq::<char>::empty(), source_str@),
    {
        proof {
            assert(source_str@.subrange(0, source_str@.len() as int) =~= source_str@);
            assert(source_str@.subrange(0, 0) =~= Seq::<char>::empty());
            assert(newline_count(Seq::<char>::empty()) == 0);
            assert(chars_since_newline(Seq::<char>::empty()) == 0);
        }
        Scanner { source: source_str, rest: source_str, line: 1, column: 1 }
    }

    /// Returns a marker for the current position, to hand back to
    /// `slice_back_unchecked` later: the byte offset from the start.
    pub fn as_ptr(&self) -> (r: usize)
        ensures
            r == encode_utf8(self@.0).len(),
    {
        self.position()
    }

    /// Gets the current column number: the number of code points since the
    /// beginning of the line, starting from 1.
    pub fn column(&self) -> (r: usize)
        ensures
            r == column_of(self@.0),
    {
        proof {
            use_type_invariant(self);
        }
        self.column
    }

    /// Gets the current line number: the number of newlines scanned, starting
    /// from 1.
    pub fn line(&self) -> (r: usize)
        ensures
            r == line_of(self@.0),
    {
        proof {
            use_type_invariant(self);
        }
        self.line
    }

    /// Returns the next code point without consuming it.
    pub fn peek_char(&self) -> (r: Option<char>)
        ensures
            r == (if self@.1.len() == 0 {
                None
            } else {
                Some(self@.1[0])
            }),
    {
        first_char(self.rest)
    }

    /// Gets the current position: the byte offset from the start of the
    /// string.
    pub fn position(&self) -> (r: usize)
        ensures
            r == encode_utf8(self@.0).len(),
    {
        proof {
            use_type_invariant(self);
            assert(self.source@ =~= self@.0 + self@.1);
            lemma_encode_concat(self@.0, self@.1);
        }
        byte_len(self.source) - byte_len(self.rest)
    }

    /// Returns the part of the source string already scanned.
    pub fn preceding_str(&self) -> (r: &'src str)
        ensures
            r@ == self@.0,
    {
        proof {
            use_type_invariant(self);
        }
        prefix_before(self.source, self.rest)
    }

    /// Returns the length of the remaining string in bytes.
    pub fn remaining_len(&self) -> (r: usize)
        ensures
            r == encode_utf8(self@.1).len(),
    {
        byte_len(self.rest)
    }

    /// Returns the part of the source string not yet scanned.
    pub fn remaining_str(&self) -> (r: &'src str)
        ensures
            r@ == self@.1,
    {
        self.rest
    }

    /// Returns the slice of the source string from an earlier marker to the
    /// current position.
    pub fn slice_back_unchecked(&self, from: usize) -> (r: &'src str)
        requires
            is_char_prefix_len(self@.0, from as int),
        ensures
            is_suffix_of(r@, self@.0),
            encode_utf8(self@.0.subrange(0, self@.0.len() - r@.len())).len() == from,
    {
        let before = self.preceding_str();
        skip_prefix_bytes(before, from)
    }

    /// Returns the slice of `from` that lies before the unscanned part.
    fn slice_since(&self, from: &'src str) -> (r: &'src str)
        requires
            is_suffix_of(self@.1, from@),
        ensures
            r@ == from@.subrange(0, from@.len() - self@.1.len()),
    {
        prefix_before(from, self.rest)
    }

    /// Consumes the next code point and returns it; returns `None` if the
    /// remaining string is empty.
    pub fn take_char(&mut self) -> (r: Option<char>)
        ensures
            old(self)@.1.len() == 0 ==> r is None && final(self)@ == old(self)@,
            old(self)@.1.len() > 0 ==> r == Some(old(self)@.1[0]) && advanced_by(
                old(self)@,
                final(self)@,
                1,
            ),
    {
        let c = first_char(self.rest);
        if c.is_some() {
            self.consume_char_unchecked();
        }
        c
    }

    /// Consumes the next code point and returns it if it satisfies
    /// `condition`.
    pub fn take_char_if(&mut self, condition: impl Fn(char) -> bool) -> (r: Option<char>)
        requires
            forall|c: char| call_requires(condition, (c,)),
        ensures
            old(self)@.1.len() == 0 ==> r is None && final(self)@ == old(self)@,
            old(self)@.1.len() > 0 ==> {
                ||| r == Some(old(self)@.1[0]) && call_ensures(condition, (old(self)@.1[0],), true)
                    && advanced_by(old(self)@, final(self)@, 1)
                ||| r is None && call_ensures(condition, (old(self)@.1[0],), false) && final(self)@
                    == old(self)@
            },
    {
        match first_char(self.rest) {
            Some(c) => {
                if condition(c) {
                    self.consume_char_unchecked();
                    Some(c)
                } else {
                    None
                }
            },
            None => None,
        }
    }

    /// Consumes the next code point if it is `expected`; returns whether it
    /// did.
    pub fn take_char_if_eq(&mut self, expected: char) -> (r: bool)
        ensures
            r == (old(self)@.1.len() > 0 && old(self)@.1[0] == expected),
            r ==> advanced_by(old(self)@, final(self)@, 1),
            !r ==> final(self)@ == old(self)@,
    {
        if first_char(self.rest) != Some(expected) {
            return false;
        }
        self.consume_char_unchecked();
        true
    }

    /// Consumes the current line, including its newline.
    fn consume_line(&mut self)
        ensures
            advanced_by(old(self)@, final(self)@, line_end(old(self)@.1) as int),
    {
        let ghost s0 = self@;
        let ghost mut k: int = 0;
        proof {
            lemma_advanced_zero(s0);
        }
        let mut done = false;
        while !done
            invariant
                advanced_by(s0, self@, k),
                done ==> line_end(s0.1) == k,
                !done ==> line_end(s0.1) == k + line_end(self@.1),
            decreases self@.1.len() + if done { 0int } else { 1int },
        {
            let ghost mid = self@;
            match self.take_char() {
                None => {
                    done = true;
                },
                Some(c) => {
                    proof {
                        lemma_advanced_trans(s0, mid, self@, k, 1);
                        k = k + 1;
                    }
                    if c == '\n' {
                        done = true;
                    }
                },
            }
        }
    }

    /// Consumes code points while they satisfy `condition`.
    fn consume_while(&mut self, condition: impl Fn(char) -> bool)
        requires
            forall|c: char| call_requires(condition, (c,)),
        ensures
            advanced_by(old(self)@, final(self)@, old(self)@.1.len() - final(self)@.1.len()),
            forall|i: int|
                0 <= i < old(self)@.1.len() - final(self)@.1.len() ==> call_ensures(
                    condition,
                    (#[trigger] old(self)@.1[i],),
                    true,
                ),
            final(self)@.1.len() > 0 ==> call_ensures(condition, (final(self)@.1[0],), false),
    {
        let ghost s0 = self@;
        proof {
            lemma_advanced_zero(s0);
        }
        loop
            invariant
                forall|c: char| call_requires(condition, (c,)),
                advanced_by(s0, self@, s0.1.len() - self@.1.len()),
                forall|i: int|
                    0 <= i < s0.1.len() - self@.1.len() ==> call_ensures(condition, (#[trigger] s0.1[i],), true),
            ensures
                advanced_by(s0, self@, s0.1.len() - self@.1.len()),
                forall|i: int|
                    0 <= i < s0.1.len() - self@.1.len() ==> call_ensures(condition, (#[trigger] s0.1[i],), true),
                self@.1.len() > 0 ==> call_ensures(condition, (self@.1[0],), false),
            decreases self@.1.len(),
        {
            match first_char(self.rest) {
                None => break,
                Some(c) => {
                    if !condition(c) {
                        break;
                    }
                    let ghost mid = self@;
                    self.consume_char_unchecked();
                    proof {
                        lemma_advanced_trans(s0, mid, self@, s0.1.len() - mid.1.len(), 1);
                        assert(s0.1[s0.1.len() - mid.1.len()] == mid.1[0]);
                    }
                },
            }
        }
    }

    /// Consumes whitespace code points.
    fn consume_whitespace(&mut self)
        ensures
            advanced_by(old(self)@, final(self)@, old(self)@.1.len() - final(self)@.1.len()),
            forall|i: int|
                0 <= i < old(self)@.1.len() - final(self)@.1.len() ==> white_space(
                    #[trigger] old(self)@.1[i],
                ),
            final(self)@.1.len() > 0 ==> !white_space(final(self)@.1[0]),
    {
        self.consume_while(|c: char| -> (r: bool)
            ensures
                r == white_space(c),
            { is_white_space(c) });
    }

    /// Consumes the current line and returns it, with its newline if it has
    /// one; returns `""` if the remaining string is empty.
    pub fn take_line(&mut self) -> (r: &'src str)
        ensures
            advanced_by(old(self)@, final(self)@, line_end(old(self)@.1) as int),
            r@ == old(self)@.1.subrange(0, line_end(old(self)@.1) as int),
    {
        let from = self.rest;
        self.consume_line();
        self.slice_since(from)
    }

    /// Consumes the code points that satisfy `predicate` and returns the
    /// slice that holds them.
    pub fn take_while(&mut self, predicate: impl Fn(char) -> bool) -> (r: &'src str)
        requires
            forall|c: char| call_requires(predicate, (c,)),
        ensures
            advanced_by(old(self)@, final(self)@, r@.len() as int),
            r@ == old(self)@.1.subrange(0, r@.len() as int),
            forall|i: int| 0 <= i < r@.len() ==> call_ensures(predicate, (#[trigger] r@[i],), true),
            final(self)@.1.len() > 0 ==> call_ensures(predicate, (final(self)@.1[0],), false),
    {
        let from = self.rest;
        self.consume_while(predicate);
        let r = self.slice_since(from);
        proof {
            assert forall|i: int| 0 <= i < r@.len() implies call_ensures(predicate, (#[trigger] r@[i],), true) by {
                assert(r@[i] == from@[i]);
            }
        }
        r
    }

    /// Consumes the whitespace code points and returns the slice that holds
    /// them.
    pub fn take_whitespace(&mut self) -> (r: &'src str)
        ensures
            advanced_by(old(self)@, final(self)@, r@.len() as int),
            r@ == old(self)@.1.subrange(0, r@.len() as int),
            forall|i: int| 0 <= i < r@.len() ==> white_space(#[trigger] r@[i]),
            final(self)@.1.len() > 0 ==> !white_space(final(self)@.1[0]),
    {
        let from = self.rest;
        self.consume_whitespace();
        let r = self.slice_since(from);
        proof {
            assert forall|i: int| 0 <= i < r@.len() implies white_space(#[trigger] r@[i]) by {
                assert(r@[i] == from@[i]);
            }
        }
        r
    }

    /// Skips the whitespace code points.
    pub fn skip_whitespace(&mut self)
        ensures
            advanced_by(old(self)@, final(self)@, old(self)@.1.len() - final(self)@.1.len()),
            forall|i: int|
                0 <= i < old(self)@.1.len() - final(self)@.1.len() ==> white_space(
                    #[trigger] old(self)@.1[i],
                ),
            final(self)@.1.len() > 0 ==> !white_space(final(self)@.1[0]),
    {
        self.consume_whitespace();
    }

    /// Consumes an expected prefix; returns `false`, and stays put, if the
    /// remaining string does not start with it. Line and column follow each
    /// code point of the prefix.
    pub fn expect_str(&mut self, expected: &str) -> (r: bool)
        ensures
            r == starts_with(old(self)@.1, expected@),
            r ==> advanced_by(old(self)@, final(self)@, expected@.len() as int),
            !r ==> final(self)@ == old(self)@,
    {
        proof {
            lemma_prefix_bytes(self@.1, expected@);
        }
        if !bytes_start_with(self.rest.as_bytes(), expected.as_bytes()) {
            return false;
        }
        self.expect_str_unchecked(expected);
        true
    }

    /// Consumes an expected prefix that the caller knows to be next.
    pub fn expect_str_unchecked(&mut self, expected: &str)
        requires
            starts_with(old(self)@.1, expected@),
        ensures
            advanced_by(old(self)@, final(self)@, expected@.len() as int),
    {
        let ghost s0 = self@;
        let ghost mut k: int = 0;
        proof {
            lemma_advanced_zero(s0);
            assert(expected@.subrange(0, expected@.len() as int) =~= expected@);
        }
        let mut e = expected;
        while !e.is_empty()
            invariant
                starts_with(s0.1, expected@),
                0 <= k <= expected@.len(),
                advanced_by(s0, self@, k),
                e@ == expected@.subrange(k, expected@.len() as int),
            decreases e@.len(),
        {
            let ghost mid = self@;
            proof {
                assert(self@.1[0] == s0.1[k]);
                assert(e@[0] == expected@[k]);
            }
            self.consume_char_unchecked();
            e = drop_first_char(e);
            proof {
                lemma_advanced_trans(s0, mid, self@, k, 1);
                k = k + 1;
                assert(e@ =~= expected@.subrange(k, expected@.len() as int));
            }
        }
    }

    /// Skips the ASCII whitespace at the start of the remaining string,
    /// looking at bytes only.
    pub fn skip_ascii_whitespace(&mut self)
        ensures
            advanced_by(old(self)@, final(self)@, old(self)@.1.len() - final(self)@.1.len()),
            forall|i: int|
                0 <= i < old(self)@.1.len() - final(self)@.1.len() ==> is_ascii_space_char(
                    #[trigger] old(self)@.1[i],
                ),
            final(self)@.1.len() > 0 ==> !is_ascii_space_char(final(self)@.1[0]),
    {
        let ghost s0 = self@;
        proof {
            lemma_advanced_zero(s0);
        }
        loop
            invariant
                advanced_by(s0, self@, s0.1.len() - self@.1.len()),
                forall|i: int|
                    0 <= i < s0.1.len() - self@.1.len() ==> is_ascii_space_char(#[trigger] s0.1[i]),
            ensures
                advanced_by(s0, self@, s0.1.len() - self@.1.len()),
                forall|i: int|
                    0 <= i < s0.1.len() - self@.1.len() ==> is_ascii_space_char(#[trigger] s0.1[i]),
                self@.1.len() > 0 ==> !is_ascii_space_char(self@.1[0]),
            decreases self@.1.len(),
        {
            if self.rest.is_empty() {
                break;
            }
            proof {
                lemma_ascii_first(self@.1);
            }
            let b = self.rest.as_bytes()[0];
            if !ascii_space(b) {
                break;
            }
            let ghost mid = self@;
            self.consume_char_unchecked();
            proof {
                lemma_advanced_trans(s0, mid, self@, s0.1.len() - mid.1.len(), 1);
                assert(s0.1[s0.1.len() - mid.1.len()] == mid.1[0]);
            }
        }
    }

    /// Consumes the next code point, which the caller knows to exist.
    fn consume_char_unchecked(&mut self)
        requires
            old(self)@.1.len() > 0,
        ensures
            advanced_by(old(self)@, final(self)@, 1),
    {
        proof {
            use_type_invariant(&*self);
            lemma_counts_bounded(self@.0);
        }
        let ghost s0 = self@;
        let c = first_char(self.rest).unwrap();
        let (line, column) = if c == '\n' {
            (self.line + 1, 1)
        } else {
            (self.line, self.column + 1)
        };
        let rest = drop_first_char(self.rest);
        proof {
            lemma_push(s0.0, c);
            assert(s0.0.push(c) =~= s0.0 + s0.1.subrange(0, 1));
            assert(self.source@ =~= s0.0 + s0.1);
            let n = self.source@.len() - rest@.len();
            assert(self.source@.subrange(0, n) =~= s0.0.push(c));
            assert(rest@ =~= s0.1.subrange(1, s0.1.len() as int));
            assert(self.source@.subrange(n, self.source@.len() as int) =~= rest@);
        }
        *self = Scanner { source: self.source, rest, line, column };
    }
}

} // verus!
