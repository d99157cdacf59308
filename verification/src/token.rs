use vstd::prelude::*;

verus! {

/// Atomic unit of trained and generated text: either a word-like text
/// fragment or the boundary sentinel that marks a segmentation point.
#[derive(Debug)]
pub enum Token {
    Word(String),
    Boundary,
}

/// Mathematical model of a `Token`: a word is a sequence of characters,
/// the boundary carries no payload.
pub enum TokView {
    Word(Seq<char>),
    Boundary,
}

impl View for Token {
    type V = TokView;

    open spec fn view(&self) -> TokView {
        match self {
            Token::Word(s) => TokView::Word(s@),
            Token::Boundary => TokView::Boundary,
        }
    }
}

impl DeepView for Token {
    type V = TokView;

    open spec fn deep_view(&self) -> TokView {
        self.view()
    }
}

impl Token {
    /// Wraps a text fragment as a word token.
    pub fn from(value: &str) -> (r: Token)
        ensures
            r@ == TokView::Word(value@),
    {
        Token::Word(value.to_owned())
    }

    /// True exactly when this token is the boundary sentinel.
    pub fn is_boundary(&self) -> (r: bool)
        ensures
            r == (self@ is Boundary),
    {
        match self {
            Token::Word(_) => false,
            Token::Boundary => true,
        }
    }
}

impl Clone for Token {
    fn clone(&self) -> (r: Token)
        ensures
            r@ == self@,
    {
        match self {
            Token::Word(s) => Token::Word(s.clone()),
            Token::Boundary => Token::Boundary,
        }
    }
}

impl PartialEq for Token {
    /// Structural equality: two words are equal iff their text is equal;
    /// boundaries are mutually equal; a word never equals a boundary.
    fn eq(&self, other: &Token) -> (r: bool) {
        match (self, other) {
            (Token::Word(s), Token::Word(o)) => s.eq(o),
            (Token::Boundary, Token::Boundary) => true,
            _ => false,
        }
    }
}

impl vstd::std_specs::cmp::PartialEqSpecImpl for Token {
    open spec fn obeys_eq_spec() -> bool {
        true
    }

    open spec fn eq_spec(&self, other: &Token) -> bool {
        self@ == other@
    }
}

impl Eq for Token {

}

} // verus!
