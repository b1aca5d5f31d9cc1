//! The two kinds of table entry: a single code point, or a pair of earlier ids.

use vstd::prelude::*;

verus! {

/// What an id of the table stands for.
#[derive(Debug, Clone, Copy, Hash, PartialEq, Eq, Structural)]
pub enum Token {
    /// An atomic symbol: one code point.
    Lonely(Lonely),
    /// A merged symbol: two ids that were folded into one.
    Pair(Pair),
}

impl Token {
    /// A merged token when `right` is given, an atomic one otherwise.
    pub fn new(left: u32, right: Option<u32>) -> (token: Self)
        ensures
            token == match right {
                Some(r) => Token::Pair(Pair { left, right: r }),
                None => Token::Lonely(Lonely(left)),
            },
    {
        match right {
            Some(right) => Self::Pair(Pair { left, right }),
            None => Self::Lonely(Lonely(left)),
        }
    }
}

/// An atomic symbol, holding its code point.
#[derive(Debug, Clone, Copy, Hash, PartialEq, Eq, Structural)]
pub struct Lonely(pub u32);

impl Lonely {
    pub fn new(n: u32) -> (lonely: Self)
        ensures
            lonely == Lonely(n),
    {
        Self(n)
    }

    pub fn as_token(&self) -> (token: Token)
        ensures
            token == Token::Lonely(*self),
    {
        Token::Lonely(*self)
    }
}

/// An ordered pair of ids.
#[derive(Debug, Clone, Copy, Hash, PartialEq, Eq, Structural)]
pub struct Pair {
    pub left: u32,
    pub right: u32,
}

impl Pair {
    pub fn new(left: u32, right: u32) -> (pair: Self)
        ensures
            pair == (Pair { left, right }),
    {
        Self { left, right }
    }

    pub fn as_token(&self) -> (token: Token)
        ensures
            token == Token::Pair(*self),
    {
        Token::Pair(*self)
    }
}

} // verus!
