//! The substring value type and its canonical order.

use vstd::prelude::*;
use vstd::utf8::*;

verus! {

/// Number of bytes that the UTF-8 encoding of `s` takes.
pub open spec fn byte_len(s: Seq<char>) -> nat {
    encode_utf8(s).len()
}

/// Lexicographic comparison of `a` and `b` by scalar value, from position `i` on.
pub open spec fn lex_le_from(a: Seq<char>, b: Seq<char>, i: int) -> bool
    decreases a.len() - i,
{
    if i < 0 || i >= a.len() {
        true
    } else if i >= b.len() {
        false
    } else if a[i] != b[i] {
        (a[i] as u32) < (b[i] as u32)
    } else {
        lex_le_from(a, b, i + 1)
    }
}

/// Lexicographic order on texts: `a` is at most `b`.
pub open spec fn lex_le(a: Seq<char>, b: Seq<char>) -> bool {
    lex_le_from(a, b, 0)
}

/// The canonical order of substrings: longer encodings first, and among
/// equal byte lengths the lexicographically smaller first.
pub open spec fn precedes(a: Seq<char>, b: Seq<char>) -> bool {
    byte_len(a) > byte_len(b) || (byte_len(a) == byte_len(b) && lex_le(a, b))
}

/// Collects the scalars of `s` into a vector.
pub fn to_chars(s: &str) -> (out: Vec<char>)
    ensures
        out@ == s@,
{
    let mut out: Vec<char> = Vec::new();
    for c in it: s.chars()
        invariant
            it.seq() == s@,
            out@ == it.seq().take(it.index()),
    {
        proof {
            assert(it.seq().take(it.index()).push(c) =~= it.seq().take(it.index() + 1));
        }
        out.push(c);
    }
    proof {
        assert(s@.take(s@.len() as int) =~= s@);
    }
    out
}

/// A non-empty piece of text.
#[derive(PartialEq, Eq, Debug)]
pub struct Substring {
    text: String,
    chars: Vec<char>,
}

impl View for Substring {
    type V = Seq<char>;

    closed spec fn view(&self) -> Seq<char> {
        self.chars@
    }
}

impl Clone for Substring {
    fn clone(&self) -> (out: Self)
        ensures
            out@ == self@,
    {
        proof {
            use_type_invariant(self);
        }
        Substring { text: self.text.clone(), chars: self.chars.clone() }
    }
}

impl Substring {
    /// The text is not empty, and held both as a string and as scalars.
    #[verifier::type_invariant]
    spec fn well_formed(self) -> bool {
        self.text@ == self.chars@ && self.chars@.len() > 0
    }

    /// The substring made of the single scalar `c`.
    pub fn from_char(c: char) -> (out: Self)
        ensures
            out@ == seq![c],
    {
        let mut chars: Vec<char> = Vec::new();
        chars.push(c);
        let text = string_from_chars(&chars);
        Substring { text, chars }
    }

    /// The substring that holds the text `s`, which must not be empty.
    pub fn from_str(s: &str) -> (out: Self)
        requires
            s@.len() > 0,
        ensures
            out@ == s@,
    {
        let chars = to_chars(s);
        Substring { text: s.to_owned(), chars }
    }

    /// The substring that holds the text `s`, or nothing where `s` is empty.
    pub fn try_from_str(s: &str) -> (out: Option<Self>)
        ensures
            s@.len() == 0 ==> out is None,
            s@.len() > 0 ==> out is Some && out->0@ == s@,
    {
        if s.is_empty() {
            None
        } else {
            Some(Substring::from_str(s))
        }
    }

    /// The text as a string slice.
    pub fn as_str(&self) -> (out: &str)
        ensures
            out@ == self@,
    {
        proof {
            use_type_invariant(self);
        }
        self.text.as_str()
    }

    /// The scalars of the text.
    pub fn chars(&self) -> (out: &Vec<char>)
        ensures
            out@ == self@,
    {
        &self.chars
    }

    /// An owned copy of the text.
    pub fn to_string(&self) -> (out: String)
        ensures
            out@ == self@,
    {
        proof {
            use_type_invariant(self);
        }
        self.text.clone()
    }

    /// Length of the text in bytes of its UTF-8 encoding.
    pub fn len(&self) -> (out: usize)
        ensures
            out == byte_len(self@),
    {
        proof {
            use_type_invariant(self);
        }
        let bytes = self.text.as_str().as_bytes();
        bytes.len()
    }

    /// Number of scalars in the text.
    pub fn char_count(&self) -> (out: usize)
        ensures
            out == self@.len(),
            out > 0,
    {
        proof {
            use_type_invariant(self);
        }
        self.chars.len()
    }

    /// The text of `self` followed by the text of `other`.
    pub fn concat(&self, other: &Substring) -> (out: Substring)
        ensures
            out@ == self@ + other@,
    {
        proof {
            use_type_invariant(self);
            use_type_invariant(other);
        }
        let mut chars: Vec<char> = self.chars.clone();
        let mut i: usize = 0;
        while i < other.chars.len()
            invariant
                i <= other.chars@.len(),
                chars@ == self.chars@ + other.chars@.take(i as int),
            decreases other.chars@.len() - i,
        {
            chars.push(other.chars[i]);
            proof {
                assert((self.chars@ + other.chars@.take(i as int)).push(other.chars@[i as int])
                    =~= self.chars@ + other.chars@.take(i as int + 1));
            }
            i = i + 1;
        }
        proof {
            assert(other.chars@.take(other.chars@.len() as int) =~= other.chars@);
        }
        let text = string_from_chars(&chars);
        Substring { text, chars }
    }

    /// Whether `text` begins with this substring.
    pub fn matches_start(&self, text: &str) -> (out: bool)
        ensures
            out == self@.is_prefix_of(text@),
    {
        let other = to_chars(text);
        starts_with_at(&other, 0, &self.chars)
    }

    /// Whether `self` comes no later than `other` in the canonical order.
    pub fn comes_before(&self, other: &Substring) -> (out: bool)
        ensures
            out == precedes(self@, other@),
    {
        let a = self.len();
        let b = other.len();
        if a != b {
            a > b
        } else {
            lex_le_exec(&self.chars, &other.chars)
        }
    }
}

/// A substring together with the number of times it was seen.
#[derive(PartialEq, Eq, Debug)]
pub struct SubstringCount {
    pub value: Substring,
    pub count: usize,
}

impl SubstringCount {
    /// The substring `value` seen `count` times.
    pub fn new(value: Substring, count: usize) -> (out: Self)
        ensures
            out.value == value,
            out.count == count,
    {
        SubstringCount { value, count }
    }
}

impl Clone for SubstringCount {
    fn clone(&self) -> (out: Self)
        ensures
            out.value@ == self.value@,
            out.count == self.count,
    {
        SubstringCount { value: self.value.clone(), count: self.count }
    }
}

/// Builds the string whose scalars are `chars`.
pub fn string_from_chars(chars: &Vec<char>) -> (out: String)
    ensures
        out@ == chars@,
{
    let mut out = String::new();
    let mut i: usize = 0;
    while i < chars.len()
        invariant
            i <= chars@.len(),
            out@ == chars@.take(i as int),
        decreases chars@.len() - i,
    {
        push_char(&mut out, chars[i]);
        proof {
            assert(chars@.take(i as int).push(chars@[i as int]) =~= chars@.take(i as int + 1));
        }
        i = i + 1;
    }
    proof {
        assert(chars@.take(chars@.len() as int) =~= chars@);
    }
    out
}

/// `String::push`: appends the scalar `c` to the end of `s`.
#[verifier::external_body]
pub(crate) fn push_char(s: &mut String, c: char)
    ensures
        final(s)@ == old(s)@.push(c),
{
    s.push(c)
}

/// Whether `piece` occurs in `text` at position `at`.
pub fn starts_with_at(text: &Vec<char>, at: usize, piece: &Vec<char>) -> (out: bool)
    requires
        at <= text@.len(),
    ensures
        out == piece@.is_prefix_of(text@.skip(at as int)),
{
    if piece.len() > text.len() - at {
        return false;
    }
    let mut i: usize = 0;
    while i < piece.len()
        invariant
            at + piece@.len() <= text@.len() <= usize::MAX,
            i <= piece@.len(),
            forall|j: int| 0 <= j < i ==> piece@[j] == text@[at + j],
        decreases piece@.len() - i,
    {
        if piece[i] != text[at + i] {
            proof {
                assert(text@.skip(at as int)[i as int] == text@[at + i]);
            }
            return false;
        }
        i = i + 1;
    }
    proof {
        assert(piece@ =~= text@.skip(at as int).subrange(0, piece@.len() as int));
    }
    true
}

/// Decides the lexicographic order of two texts.
pub fn lex_le_exec(a: &Vec<char>, b: &Vec<char>) -> (out: bool)
    ensures
        out == lex_le(a@, b@),
{
    let mut i: usize = 0;
    while i < a.len()
        invariant
            i <= a@.len(),
            i <= b@.len(),
            lex_le(a@, b@) == lex_le_from(a@, b@, i as int),
        decreases a@.len() - i,
    {
        if i >= b.len() {
            return false;
        }
        let x = a[i];
        let y = b[i];
        if x != y {
            return (x as u32) < (y as u32);
        }
        i = i + 1;
    }
    true
}

} // verus!
