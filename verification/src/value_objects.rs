use vstd::prelude::*;
use vstd::string::StrSliceExecFns;
use crate::errors::ValidationError;

verus! {

/// The characters that leading/trailing trimming removes: the Unicode
/// `White_Space` set.
pub open spec fn is_space_char(c: char) -> bool {
    ||| c == '\u{0009}'
    ||| c == '\u{000A}'
    ||| c == '\u{000B}'
    ||| c == '\u{000C}'
    ||| c == '\u{000D}'
    ||| c == '\u{0020}'
    ||| c == '\u{0085}'
    ||| c == '\u{00A0}'
    ||| c == '\u{1680}'
    ||| ('\u{2000}' <= c && c <= '\u{200A}')
    ||| c == '\u{2028}'
    ||| c == '\u{2029}'
    ||| c == '\u{202F}'
    ||| c == '\u{205F}'
    ||| c == '\u{3000}'
}

/// A string is blank when every character is whitespace, so trimming it
/// leaves nothing.  The empty string is blank.
pub open spec fn is_blank(s: Seq<char>) -> bool {
    forall|i: int| 0 <= i < s.len() ==> is_space_char(#[trigger] s[i])
}

/// Whether `c` belongs to the Unicode `White_Space` set.
pub fn char_is_space(c: char) -> (r: bool)
    ensures
        r == is_space_char(c),
{
    c == '\u{0009}' || c == '\u{000A}' || c == '\u{000B}' || c == '\u{000C}' || c == '\u{000D}'
        || c == '\u{0020}' || c == '\u{0085}' || c == '\u{00A0}' || c == '\u{1680}' || ('\u{2000}'
        <= c && c <= '\u{200A}') || c == '\u{2028}' || c == '\u{2029}' || c == '\u{202F}' || c
        == '\u{205F}' || c == '\u{3000}'
}

/// Whether `s` trims to the empty string.
pub fn str_is_blank(s: &str) -> (r: bool)
    ensures
        r == is_blank(s@),
{
    let n = s.unicode_len();
    let mut i: usize = 0;
    while i < n
        invariant
            0 <= i <= n,
            n == s@.len(),
            forall|j: int| 0 <= j < i ==> is_space_char(#[trigger] s@[j]),
        decreases n - i,
    {
        if !char_is_space(s.get_char(i)) {
            assert(!is_space_char(s@[i as int]));
            return false;
        }
        i += 1;
    }
    true
}

/// An opaque task identifier; any `u32` is accepted, uniqueness is the
/// store's concern.
#[derive(Debug, Clone, Copy, PartialEq, Eq, Structural)]
pub struct TodoId(u32);

impl View for TodoId {
    type V = u32;

    closed spec fn view(&self) -> u32 {
        self.0
    }
}

impl TodoId {
    /// Wraps a raw identifier; total, no validation.
    pub fn new(id: u32) -> (r: Self)
        ensures
            r@ == id,
    {
        TodoId(id)
    }

    /// The underlying integer.
    pub fn value(&self) -> (r: u32)
        ensures
            r == self@,
    {
        self.0
    }
}

/// A string whose trimmed form is non-empty.  The original, untrimmed
/// string is kept.
#[derive(Debug)]
pub struct NonEmptyString(String);

impl View for NonEmptyString {
    type V = Seq<char>;

    closed spec fn view(&self) -> Seq<char> {
        self.0@
    }
}

impl Clone for NonEmptyString {
    fn clone(&self) -> (r: Self)
        ensures
            r@ == self@,
    {
        NonEmptyString(self.0.clone())
    }
}

impl NonEmptyString {
    /// The invariant every constructed value satisfies.
    pub open spec fn wf(&self) -> bool {
        !is_blank(self@)
    }

    /// Accepts `s` exactly when its trimmed form is non-empty, and then
    /// stores `s` unmodified.
    pub fn new(s: String) -> (r: Result<Self, ValidationError>)
        ensures
            r is Ok <==> !is_blank(s@),
            r matches Ok(t) ==> t@ == s@ && t.wf(),
            r matches Err(e) ==> e == ValidationError::EmptyTitle,
    {
        if str_is_blank(s.as_str()) {
            Err(ValidationError::EmptyTitle)
        } else {
            Ok(NonEmptyString(s))
        }
    }

    /// The stored string, exactly as given to [`NonEmptyString::new`].
    pub fn as_str(&self) -> (r: &str)
        ensures
            r@ == self@,
    {
        self.0.as_str()
    }
}

} // verus!
