use vstd::prelude::*;
use vstd::std_specs::iter::IteratorSpec;

verus! {

broadcast use vstd::string::group_string_axioms;

/// An ASCII decimal digit.
pub open spec fn is_digit(c: char) -> bool {
    '0' <= c && c <= '9'
}

/// An ASCII hexadecimal digit, in either case.
pub open spec fn is_hex_digit(c: char) -> bool {
    is_digit(c) || ('A' <= c && c <= 'F') || ('a' <= c && c <= 'f')
}

/// An ASCII letter, in either case.
pub open spec fn is_ascii_letter(c: char) -> bool {
    ('a' <= c && c <= 'z') || ('A' <= c && c <= 'Z')
}

/// A character that may begin an identifier.
pub open spec fn is_identifier_start_char(c: char) -> bool {
    is_ascii_letter(c) || c == '_'
}

/// A character that may continue an identifier.
pub open spec fn is_identifier_part_char(c: char) -> bool {
    is_ascii_letter(c) || is_digit(c) || c == '$' || c == '_'
}

/// Whether `ch` may begin an identifier: an ASCII letter or `_`.
pub fn is_identifier_start(ch: char) -> (r: bool)
    ensures
        r == is_identifier_start_char(ch),
{
    ('a' <= ch && ch <= 'z') || ('A' <= ch && ch <= 'Z') || ch == '_'
}

/// Whether `ch` may continue an identifier: an ASCII letter or digit, `$` or `_`.
pub fn is_identifier_part(ch: char) -> (r: bool)
    ensures
        r == is_identifier_part_char(ch),
{
    ('a' <= ch && ch <= 'z') || ('A' <= ch && ch <= 'Z') || ('0' <= ch && ch <= '9') || ch == '$'
        || ch == '_'
}

/// The sets of characters that the tokenizer reads runs of.
pub enum CharClass {
    IdentifierPart,
    Digit,
    HexDigit,
    AsciiAlphanumeric,
    NotNewline,
}

impl CharClass {
    pub open spec fn includes(self, c: char) -> bool {
        match self {
            CharClass::IdentifierPart => is_identifier_part_char(c),
            CharClass::Digit => is_digit(c),
            CharClass::HexDigit => is_hex_digit(c),
            CharClass::AsciiAlphanumeric => is_ascii_letter(c) || is_digit(c),
            CharClass::NotNewline => c != '\n',
        }
    }

    pub fn contains(&self, c: char) -> (r: bool)
        ensures
            r == self.includes(c),
    {
        match self {
            CharClass::IdentifierPart => is_identifier_part(c),
            CharClass::Digit => '0' <= c && c <= '9',
            CharClass::HexDigit => ('0' <= c && c <= '9') || ('A' <= c && c <= 'F') || ('a' <= c
                && c <= 'f'),
            CharClass::AsciiAlphanumeric => ('a' <= c && c <= 'z') || ('A' <= c && c <= 'Z') || (
            '0' <= c && c <= '9'),
            CharClass::NotNewline => c != '\n',
        }
    }
}

/// The length of the longest prefix of `s` whose characters all lie in `class`.
pub open spec fn span(s: Seq<char>, class: CharClass) -> nat
    decreases s.len(),
{
    if s.len() > 0 && class.includes(s[0]) {
        1 + span(s.skip(1), class)
    } else {
        0
    }
}

/// `span` counts exactly the leading characters in the class.
pub proof fn lemma_span(s: Seq<char>, class: CharClass)
    ensures
        span(s, class) <= s.len(),
        forall|i: int| 0 <= i < span(s, class) ==> class.includes(#[trigger] s[i]),
        span(s, class) < s.len() ==> !class.includes(s[span(s, class) as int]),
    decreases s.len(),
{
    if s.len() > 0 && class.includes(s[0]) {
        lemma_span(s.skip(1), class);
        assert forall|i: int| 0 <= i < span(s, class) implies class.includes(#[trigger] s[i]) by {
            if i > 0 {
                assert(s[i] == s.skip(1)[i - 1]);
            }
        }
    }
}

/// The characters of `s`, in order.
pub fn chars_of(s: &str) -> (v: Vec<char>)
    ensures
        v@ == s@,
{
    let mut it = s.chars();
    let mut v: Vec<char> = Vec::new();
    let ghost total = s@;
    loop
        invariant
            v@ + it.remaining() == total,
            total == s@,
            it.obeys_prophetic_iter_laws(),
            it.decrease() is Some,
        decreases it.decrease()->0,
    {
        match it.next() {
            Some(c) => {
                v.push(c);
                assert(v@ + it.remaining() =~= total);
            },
            None => {
                assert(v@ =~= total);
                return v;
            },
        }
    }
}

/// Calls `String::push`, which appends one character.
#[verifier::external_body]
pub fn push_char(s: &mut String, c: char)
    ensures
        final(s)@ == old(s)@.push(c),
{
    s.push(c);
}

/// A cursor over the characters of a text: what it holds is what is left to read.
pub struct CharStream {
    chars: Vec<char>,
    pos: usize,
}

impl View for CharStream {
    type V = Seq<char>;

    closed spec fn view(&self) -> Seq<char> {
        self.chars@.skip(self.pos as int)
    }
}

impl CharStream {
    #[verifier::type_invariant]
    spec fn inv(self) -> bool {
        self.pos <= self.chars@.len()
    }

    /// A stream over all the characters of `s`.
    pub fn new(s: &str) -> (r: CharStream)
        ensures
            r@ == s@,
    {
        let chars = chars_of(s);
        let r = CharStream { chars, pos: 0 };
        assert(r@ =~= s@);
        r
    }

    /// The next character, not consumed.
    pub fn peek(&self) -> (r: Option<char>)
        ensures
            r == (if self@.len() > 0 {
                Some(self@[0])
            } else {
                None
            }),
    {
        proof {
            use_type_invariant(self);
        }
        if self.pos < self.chars.len() {
            Some(self.chars[self.pos])
        } else {
            None
        }
    }

    /// Whether the next character is `c`.
    pub fn peek_is(&self, c: char) -> (r: bool)
        ensures
            r == (self@.len() > 0 && self@[0] == c),
    {
        match self.peek() {
            Some(d) => d == c,
            None => false,
        }
    }

    /// Consumes and returns the next character.
    pub fn next(&mut self) -> (r: Option<char>)
        ensures
            r == (if old(self)@.len() > 0 {
                Some(old(self)@[0])
            } else {
                None
            }),
            final(self)@ == (if old(self)@.len() > 0 {
                old(self)@.skip(1)
            } else {
                old(self)@
            }),
    {
        proof {
            use_type_invariant(&*self);
        }
        if self.pos < self.chars.len() {
            let c = self.chars[self.pos];
            self.pos = self.pos + 1;
            proof {
                assert(self@ =~= old(self)@.skip(1));
            }
            Some(c)
        } else {
            None
        }
    }
}

/// Reads characters from `chars` while they lie in `class`; returns them, and
/// leaves the first character outside the class unread.
pub fn peeking_take_while(chars: &mut CharStream, class: CharClass) -> (s: String)
    ensures
        s@ == old(chars)@.take(span(old(chars)@, class) as int),
        final(chars)@ == old(chars)@.skip(span(old(chars)@, class) as int),
{
    let ghost start = chars@;
    let mut s = String::new();
    loop
        invariant
            start == old(chars)@,
            s@.len() <= start.len(),
            s@ == start.take(s@.len() as int),
            chars@ == start.skip(s@.len() as int),
            span(start, class) == s@.len() + span(chars@, class),
        decreases chars@.len(),
    {
        match chars.peek() {
            Some(ch) => {
                if class.contains(ch) {
                    let ghost before = chars@;
                    chars.next();
                    push_char(&mut s, ch);
                    proof {
                        assert(s@ =~= start.take(s@.len() as int));
                        assert(chars@ =~= start.skip(s@.len() as int));
                    }
                } else {
                    return s;
                }
            },
            None => {
                return s;
            },
        }
    }
}

} // verus!
