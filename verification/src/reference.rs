//! Parsed references: `prefix:value`.

use vstd::prelude::*;

use crate::text::{find_char, index_of, lemma_index_of_from, str_chars, string_of};

verus! {

/// Whether `c` is alphanumeric in Unicode's sense (`char::is_alphanumeric`).
pub uninterp spec fn unicode_alphanumeric(c: char) -> bool;

/// `char::is_alphanumeric`: whether `c` is alphabetic or numeric in Unicode's
/// sense. The result is named `unicode_alphanumeric(c)`; of it, this states
/// only that the ASCII letters and digits are alphanumeric, as the standard
/// library documents. The Unicode tables are not restated.
#[verifier::external_body]
fn is_alphanumeric(c: char) -> (r: bool)
    ensures
        r == unicode_alphanumeric(c),
        ('a' <= c <= 'z' || 'A' <= c <= 'Z' || '0' <= c <= '9') ==> r,
{
    c.is_alphanumeric()
}

/// The prefix and value of the text of a reference, given whether the part
/// before its first `:` is alphanumeric: the parts before and after its first
/// `:`, where the part before is non-empty and alphanumeric.
pub open spec fn split_reference(s: Seq<char>, prefix_alphanumeric: bool) -> Option<
    (Seq<char>, Seq<char>),
> {
    match index_of(s, ':') {
        None => None,
        Some(i) => if i > 0 && prefix_alphanumeric {
            Some((s.take(i), s.skip(i + 1)))
        } else {
            None
        },
    }
}

/// Every character before the first `:` of `s` is alphanumeric (and there
/// is a `:`).
pub open spec fn prefix_alphanumeric(s: Seq<char>) -> bool {
    match index_of(s, ':') {
        Some(i) => forall|j: int| 0 <= j < i ==> unicode_alphanumeric(#[trigger] s[j]),
        None => false,
    }
}

/// An ASCII letter or digit.
pub open spec fn is_ascii_alphanumeric(c: char) -> bool {
    ('a' <= c && c <= 'z') || ('A' <= c && c <= 'Z') || ('0' <= c && c <= '9')
}

/// `s` has a `:`, and the part before its first `:` is non-empty and made of
/// ASCII letters and digits.
pub open spec fn ascii_prefix(s: Seq<char>) -> bool {
    match index_of(s, ':') {
        Some(i) => i > 0 && forall|j: int| 0 <= j < i ==> is_ascii_alphanumeric(#[trigger] s[j]),
        None => false,
    }
}

/// The prefix and value of the text of a reference: the parts before and
/// after its first `:`, where the part before is non-empty and alphanumeric.
pub open spec fn spec_parse(s: Seq<char>) -> Option<(Seq<char>, Seq<char>)> {
    split_reference(s, prefix_alphanumeric(s))
}

/// Whether every character of `cs` is alphanumeric.
fn all_alphanumeric(cs: &[char]) -> (r: bool)
    ensures
        r == forall|j: int| 0 <= j < cs@.len() ==> unicode_alphanumeric(#[trigger] cs@[j]),
        (forall|j: int| 0 <= j < cs@.len() ==> is_ascii_alphanumeric(#[trigger] cs@[j])) ==> r,
{
    let mut j: usize = 0;
    while j < cs.len()
        invariant
            j <= cs@.len(),
            forall|k: int| 0 <= k < j ==> unicode_alphanumeric(#[trigger] cs@[k]),
        decreases cs.len() - j,
    {
        if !is_alphanumeric(cs[j]) {
            return false;
        }
        j = j + 1;
    }
    true
}

/// A parsed reference from markdown content.
#[derive(Debug, Clone, PartialEq)]
pub struct Reference {
    /// The original reference string (e.g., "adr:0042")
    pub original: String,
    /// The prefix (e.g., "adr", "docs", "gh")
    pub prefix: String,
    /// The reference value (e.g., "0042", "user/auth", "::issue/123")
    pub value: String,
}

impl Reference {
    /// Parse a reference string into its components.
    ///
    /// A prefix of ASCII letters and digits is alphanumeric.
    pub fn parse(reference: &str) -> (r: Option<Self>)
        ensures
            r is Some == spec_parse(reference@) is Some,
            ascii_prefix(reference@) ==> r is Some,
            r matches Some(x) ==> {
                &&& x.original@ == reference@
                &&& spec_parse(reference@) == Some((x.prefix@, x.value@))
            },
    {
        let chars = str_chars(reference);
        let prefix_ok = match find_char(chars.as_slice(), ':', 0) {
            None => false,
            Some(colon) => {
                proof {
                    lemma_index_of_from(chars@, ':', 0);
                }
                let ok = all_alphanumeric(&chars[0..colon]);
                assert(ok == prefix_alphanumeric(chars@)) by {
                    assert forall|j: int| 0 <= j < colon implies chars@[j] == chars@.subrange(
                        0,
                        colon as int,
                    )[j] by {}
                }
                assert(ascii_prefix(chars@) ==> ok) by {
                    assert forall|j: int| 0 <= j < colon implies chars@[j] == chars@.subrange(
                        0,
                        colon as int,
                    )[j] by {}
                }
                ok
            },
        };
        Self::from_text(reference, prefix_ok)
    }

    /// The reference that `reference` reads as, given whether the part
    /// before its first `:` is alphanumeric.
    pub fn from_text(reference: &str, prefix_alphanumeric: bool) -> (r: Option<Self>)
        ensures
            r is Some == split_reference(reference@, prefix_alphanumeric) is Some,
            r matches Some(x) ==> {
                &&& x.original@ == reference@
                &&& split_reference(reference@, prefix_alphanumeric) == Some((x.prefix@, x.value@))
            },
    {
        let chars = str_chars(reference);
        let n = chars.len();
        let colon = match find_char(chars.as_slice(), ':', 0) {
            Some(i) => i,
            None => return None,
        };
        proof {
            lemma_index_of_from(chars@, ':', 0);
        }
        if colon == 0 || !prefix_alphanumeric {
            return None;
        }
        let prefix = string_of(&chars[0..colon]);
        let value = string_of(&chars[colon + 1..n]);
        assert(chars@.subrange(0, colon as int) =~= chars@.take(colon as int));
        assert(chars@.subrange(colon + 1, n as int) =~= chars@.skip(colon + 1));
        Some(Reference { original: reference.to_owned(), prefix, value })
    }
}

/// A reference's text is its prefix, a `:`, and its value; and every
/// non-empty alphanumeric prefix without `:`, with any value, reads back as
/// itself.
pub proof fn lemma_parse_round_trip(s: Seq<char>, prefix: Seq<char>, value: Seq<char>)
    ensures
        spec_parse(s) == Some((prefix, value)) ==> s == prefix + seq![':'] + value,
        ({
            &&& prefix.len() > 0
            &&& forall|j: int| 0 <= j < prefix.len() ==> unicode_alphanumeric(#[trigger] prefix[j])
            &&& forall|j: int| 0 <= j < prefix.len() ==> #[trigger] prefix[j] != ':'
        }) ==> spec_parse(prefix + seq![':'] + value) == Some((prefix, value)),
{
    lemma_index_of_from(s, ':', 0);
    if spec_parse(s) == Some((prefix, value)) {
        let i = index_of(s, ':')->Some_0;
        assert(s =~= s.take(i) + seq![':'] + s.skip(i + 1));
    }
    let t = prefix + seq![':'] + value;
    lemma_index_of_from(t, ':', 0);
    if prefix.len() > 0 && (forall|j: int| 0 <= j < prefix.len() ==> #[trigger] prefix[j] != ':') {
        assert(t[prefix.len() as int] == ':');
        match index_of(t, ':') {
            Some(i) => {
                assert(i == prefix.len()) by {
                    if i < prefix.len() {
                        assert(t[i] == prefix[i]);
                    }
                }
                assert(t.take(i) =~= prefix);
                assert(t.skip(i + 1) =~= value);
                assert forall|j: int| 0 <= j < i implies #[trigger] t[j] == prefix[j] by {}
            },
            None => {
                assert(t[prefix.len() as int] != ':');
            },
        }
    }
}

} // verus!
