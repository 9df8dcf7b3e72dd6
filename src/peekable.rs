//! A peekable sequence of characters over a string.
use vstd::prelude::*;
use crate::scanner_lite::{drop_first_char, first_char};

verus! {

/// A peekable iterator of `char` values.
///
/// Its view is the sequence of characters not yet returned, the peeked one
/// first.
pub struct PeekableChars<'src> {
    peek: Option<char>,
    /// the characters after the peeked one
    rest: &'src str,
}

impl<'src> View for PeekableChars<'src> {
    type V = Seq<char>;

    closed spec fn view(&self) -> Seq<char> {
        match self.peek {
            Some(c) => seq![c] + self.rest@,
            None => Seq::empty(),
        }
    }
}

impl<'src> PeekableChars<'src> {
    #[verifier::type_invariant]
    closed spec fn inv(&self) -> bool {
        self.peek is None ==> self.rest@.len() == 0
    }

    /// Creates an iterator over the characters of `chars`.
    pub fn new(chars: &'src str) -> (r: Self)
        ensures
            r@ == chars@,
    {
        match first_char(chars) {
            Some(c) => {
                let rest = drop_first_char(chars);
                proof {
                    assert(seq![c] + rest@ =~= chars@);
                }
                PeekableChars { peek: Some(c), rest }
            },
            None => {
                proof {
                    assert(chars@ =~= Seq::<char>::empty());
                }
                PeekableChars { peek: None, rest: chars }
            },
        }
    }

    /// Advances the iterator and returns the next character.
    pub fn next(&mut self) -> (r: Option<char>)
        ensures
            old(self)@.len() == 0 ==> r is None && final(self)@ == old(self)@,
            old(self)@.len() > 0 ==> r == Some(old(self)@[0]) && final(self)@ == old(self)@.drop_first(),
    {
        proof {
            use_type_invariant(&*self);
        }
        let r = self.peek;
        *self = PeekableChars::new(self.rest);
        proof {
            if r is Some {
                assert(old(self)@.drop_first() =~= self@);
            }
        }
        r
    }

    /// Advances the iterator and returns the next character if it satisfies
    /// `predicate`.
    pub fn next_if(&mut self, predicate: impl FnOnce(char) -> bool) -> (r: Option<char>)
        requires
            forall|c: char| call_requires(predicate, (c,)),
        ensures
            old(self)@.len() == 0 ==> r is None && final(self)@ == old(self)@,
            old(self)@.len() > 0 ==> {
                ||| r == Some(old(self)@[0]) && call_ensures(predicate, (old(self)@[0],), true)
                    && final(self)@ == old(self)@.drop_first()
                ||| r is None && call_ensures(predicate, (old(self)@[0],), false) && final(self)@
                    == old(self)@
            },
    {
        proof {
            use_type_invariant(&*self);
        }
        match self.peek {
            Some(ch) => {
                if predicate(ch) {
                    self.next()
                } else {
                    None
                }
            },
            None => None,
        }
    }

    /// Advances the iterator and returns the next character if it equals
    /// `expected`.
    pub fn next_if_eq(&mut self, expected: char) -> (r: Option<char>)
        ensures
            r is Some <==> (old(self)@.len() > 0 && old(self)@[0] == expected),
            r is Some ==> r == Some(expected) && final(self)@ == old(self)@.drop_first(),
            r is None ==> final(self)@ == old(self)@,
    {
        proof {
            use_type_invariant(&*self);
        }
        match self.peek {
            Some(ch) => {
                if ch == expected {
                    self.next()
                } else {
                    None
                }
            },
            None => None,
        }
    }

    /// Returns the next character without advancing.
    pub fn peek(&self) -> (r: Option<char>)
        ensures
            r == (if self@.len() == 0 {
                None
            } else {
                Some(self@[0])
            }),
    {
        proof {
            use_type_invariant(self);
        }
        self.peek
    }
}

} // verus!
