use vstd::prelude::*;

verus! {

/// A structured category mark in X-bar style: `XP`, `X'` or `X`, where `X`
/// names the category.
#[derive(Debug, Clone, Copy, PartialEq, Eq, Structural)]
pub enum Mark {
    Phrase(char),
    Bar(char),
    Bare(char),
}

/// Why raw input is not a structured mark.
#[derive(Debug, Clone, Copy, PartialEq, Eq, Structural)]
pub enum DecodeError {
    /// Nothing was typed.
    Empty,
    /// What follows the category is neither `P`, `'` nor nothing.
    BadSuffix,
}

/// Why the marks of a tree contradict each other.
#[derive(Debug, Clone, Copy, PartialEq, Eq, Structural)]
pub enum ConsistencyError {
    /// A pair is marked as a bare category, which only a word can be.
    BarePair,
    /// A pair's category differs from that of its head.
    CategoryMismatch,
}

/// A mark that can be shown as text.
pub trait Label {
    spec fn label_view(&self) -> Seq<char>;

    fn label(&self) -> (r: String)
        ensures
            r@ == self.label_view(),
    ;
}

/// The text of a structured mark: the category, then `P`, `'` or nothing.
pub open spec fn mark_text(m: Mark) -> Seq<char> {
    match m {
        Mark::Phrase(c) => seq![c, 'P'],
        Mark::Bar(c) => seq![c, '\''],
        Mark::Bare(c) => seq![c],
    }
}

/// The category a mark names.
pub open spec fn category_of(m: Mark) -> char {
    match m {
        Mark::Phrase(c) => c,
        Mark::Bar(c) => c,
        Mark::Bare(c) => c,
    }
}

/// The mark of a word: the bare head of its category.
pub open spec fn leaf_normal(m: Mark) -> Mark {
    Mark::Bare(category_of(m))
}

/// The structured mark that raw input spells.
pub open spec fn decoded(s: Seq<char>) -> Result<Mark, DecodeError> {
    if s.len() == 0 {
        Err(DecodeError::Empty)
    } else if s.len() == 1 {
        Ok(Mark::Bare(s[0]))
    } else if s.len() == 2 && s[1] == 'P' {
        Ok(Mark::Phrase(s[0]))
    } else if s.len() == 2 && s[1] == '\'' {
        Ok(Mark::Bar(s[0]))
    } else {
        Err(DecodeError::BadSuffix)
    }
}

/// Whether a pair marked `parent` may have `head` as its head child.
pub open spec fn projection_check(parent: Mark, head: Mark) -> Result<(), ConsistencyError> {
    if parent is Bare {
        Err(ConsistencyError::BarePair)
    } else if category_of(parent) != category_of(head) {
        Err(ConsistencyError::CategoryMismatch)
    } else {
        Ok(())
    }
}

/// Relies on `String::push`: appends one character.
#[verifier::external_body]
fn push_char(s: &mut String, c: char)
    ensures
        final(s)@ == old(s)@.push(c),
{
    s.push(c)
}

impl Label for String {
    open spec fn label_view(&self) -> Seq<char> {
        self@
    }

    fn label(&self) -> (r: String) {
        self.clone()
    }
}

impl Label for Mark {
    open spec fn label_view(&self) -> Seq<char> {
        mark_text(*self)
    }

    fn label(&self) -> (r: String) {
        let mut s = String::new();
        match *self {
            Mark::Phrase(c) => {
                push_char(&mut s, c);
                push_char(&mut s, 'P');
            },
            Mark::Bar(c) => {
                push_char(&mut s, c);
                push_char(&mut s, '\'');
            },
            Mark::Bare(c) => {
                push_char(&mut s, c);
            },
        }
        assert(s@ =~= mark_text(*self));
        s
    }
}

impl Mark {
    /// The category this mark names.
    pub fn category(&self) -> (r: char)
        ensures
            r == category_of(*self),
    {
        match *self {
            Mark::Phrase(c) => c,
            Mark::Bar(c) => c,
            Mark::Bare(c) => c,
        }
    }

    /// The mark a word carries: whatever level was typed, a word is the bare
    /// head of its category.
    pub fn normalize_leaf(&self) -> (r: Mark)
        ensures
            r == leaf_normal(*self),
            r == Mark::Bare(category_of(*self)),
    {
        Mark::Bare(self.category())
    }

    /// Checks a pair's mark against the mark of its head child: a pair cannot
    /// be bare, and it projects its head's category.
    pub fn check_projection(&self, head: &Mark) -> (r: Result<(), ConsistencyError>)
        ensures
            r == projection_check(*self, *head),
    {
        if let Mark::Bare(_) = *self {
            return Err(ConsistencyError::BarePair);
        }
        if self.category() != head.category() {
            return Err(ConsistencyError::CategoryMismatch);
        }
        Ok(())
    }
}

/// Reads a structured mark from raw input: a category followed by `P` for a
/// phrase, `'` for a bar level, or nothing for a bare category.
pub fn decode_mark(raw: &str) -> (r: Result<Mark, DecodeError>)
    ensures
        r == decoded(raw@),
{
    let n = raw.unicode_len();
    if n == 0 {
        return Err(DecodeError::Empty);
    }
    let c = raw.get_char(0);
    if n == 1 {
        return Ok(Mark::Bare(c));
    }
    if n == 2 {
        let suffix = raw.get_char(1);
        if suffix == 'P' {
            return Ok(Mark::Phrase(c));
        }
        if suffix == '\'' {
            return Ok(Mark::Bar(c));
        }
    }
    Err(DecodeError::BadSuffix)
}

/// Normalizing a word's mark gives the bare head of its category whatever
/// level it had, and normalizing twice is the same as normalizing once.
pub proof fn lemma_leaf_normal(c: char)
    ensures
        leaf_normal(Mark::Phrase(c)) == Mark::Bare(c),
        leaf_normal(Mark::Bar(c)) == Mark::Bare(c),
        leaf_normal(Mark::Bare(c)) == Mark::Bare(c),
        forall|m: Mark| #[trigger] leaf_normal(leaf_normal(m)) == leaf_normal(m),
{
}

} // verus!
