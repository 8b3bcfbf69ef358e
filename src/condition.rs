use vstd::prelude::*;

verus! {

/// A guard evaluated against one input character.
pub enum Condition {
    /// Matches every character.
    Any,
    /// Matches exactly the given character.
    Literal(char),
    /// Matches a character between the two bounds, both included; nothing when `lo > hi`.
    Range(char, char),
    /// Matches any character of the list.
    OneOf(Vec<char>),
    /// Matches exactly the characters that the inner condition does not match.
    Negate(Box<Condition>),
    /// Consumes no character: never matches one, and is followed without input.
    Epsilon,
}

impl Condition {
    /// Whether the guard accepts `c`.
    pub open spec fn spec_matches(self, c: char) -> bool
        decreases self,
    {
        match self {
            Condition::Any => true,
            Condition::Literal(ch) => ch == c,
            Condition::Range(lo, hi) => lo <= c && c <= hi,
            Condition::OneOf(chars) => chars@.contains(c),
            Condition::Negate(inner) => !inner.spec_matches(c),
            Condition::Epsilon => false,
        }
    }

    /// Whether the guard is `Epsilon`.
    pub open spec fn is_epsilon(self) -> bool {
        self is Epsilon
    }

    /// Evaluates the guard on `c`.
    pub fn matches(&self, c: char) -> (r: bool)
        ensures
            r == self.spec_matches(c),
        decreases self,
    {
        match self {
            Condition::Any => true,
            Condition::Literal(ch) => *ch == c,
            Condition::Range(lo, hi) => *lo <= c && c <= *hi,
            Condition::OneOf(chars) => {
                let mut i: usize = 0;
                while i < chars.len()
                    invariant
                        0 <= i <= chars@.len(),
                        self.spec_matches(c) == chars@.contains(c),
                        forall|k: int| 0 <= k < i ==> chars@[k] != c,
                    decreases chars@.len() - i,
                {
                    if chars[i] == c {
                        assert(chars@[i as int] == c);
                        return true;
                    }
                    i += 1;
                }
                false
            },
            Condition::Negate(inner) => !inner.matches(c),
            Condition::Epsilon => false,
        }
    }

    /// Whether the guard is an `Epsilon` one.
    pub fn epsilon(&self) -> (r: bool)
        ensures
            r == self.is_epsilon(),
    {
        match self {
            Condition::Epsilon => true,
            _ => false,
        }
    }
}

} // verus!
