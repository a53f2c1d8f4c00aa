//! Finding reference links, `](prefix:value)`, in markdown text.
//!
//! A link is what the pattern `\]\(([a-zA-Z]+:[^)]+)\)` matches: `](`, one
//! or more ASCII letters, `:`, one or more characters other than `)`, and
//! `)`. Links are found left to right, each search resuming after the
//! previous link, and the reference is the part inside the parentheses.

use vstd::prelude::*;
use vstd::utf8::{encode_scalar, encode_utf8};

use crate::reference::{ascii_prefix, is_ascii_alphanumeric, spec_parse, Reference};
use crate::text::{
    contains, index_of_from, lemma_index_of_from, lemma_index_of_from_at, occurs_in, str_chars,
    string_of,
};

verus! {

/// An ASCII letter.
pub open spec fn is_ascii_letter(c: char) -> bool {
    ('a' <= c && c <= 'z') || ('A' <= c && c <= 'Z')
}

/// The index of the first character at or after `i` that is not an ASCII
/// letter (or the length of `s`).
pub open spec fn letters_end(s: Seq<char>, i: int) -> int
    decreases s.len() - i,
{
    if 0 <= i < s.len() && is_ascii_letter(s[i]) {
        letters_end(s, i + 1)
    } else {
        i
    }
}

/// Where the `)` of a link that begins at `i` stands, if a link begins at `i`.
pub open spec fn link_at(s: Seq<char>, i: int) -> Option<int> {
    if 0 <= i && i + 1 < s.len() && s[i] == ']' && s[i + 1] == '(' {
        let j = letters_end(s, i + 2);
        if j > i + 2 && j < s.len() && s[j] == ':' {
            match index_of_from(s, ')', j + 1) {
                Some(m) => if m > j + 1 {
                    Some(m)
                } else {
                    None
                },
                None => None,
            }
        } else {
            None
        }
    } else {
        None
    }
}

/// The references (start and end index of the text inside the parentheses)
/// of the links that begin at or after `pos`, where a link may begin only at
/// or after `resume`.
pub open spec fn link_spans_from(s: Seq<char>, pos: int, resume: int) -> Seq<(int, int)>
    decreases s.len() - pos,
{
    if pos < 0 || pos >= s.len() {
        Seq::empty()
    } else if pos < resume {
        link_spans_from(s, pos + 1, resume)
    } else {
        match link_at(s, pos) {
            Some(m) => seq![(pos + 2, m)] + link_spans_from(s, pos + 1, m + 1),
            None => link_spans_from(s, pos + 1, resume),
        }
    }
}

/// The references of all links in `s`, left to right.
pub open spec fn link_spans(s: Seq<char>) -> Seq<(int, int)> {
    link_spans_from(s, 0, 0)
}

/// The spans kept as references: those whose text holds no `://` (a URL's
/// `scheme://` is not a reference).
pub open spec fn kept_spans(s: Seq<char>, spans: Seq<(int, int)>) -> Seq<(int, int)>
    decreases spans.len(),
{
    if spans.len() == 0 {
        Seq::empty()
    } else {
        let (a, b) = spans.last();
        let text = s.subrange(a, b);
        if !occurs_in(text, "://"@) {
            kept_spans(s, spans.drop_last()).push((a, b))
        } else {
            kept_spans(s, spans.drop_last())
        }
    }
}

/// The references found in `s`, as character spans.
pub open spec fn reference_spans(s: Seq<char>) -> Seq<(int, int)> {
    kept_spans(s, link_spans(s))
}

/// The number of bytes of the UTF-8 encoding of the first `k` characters of `s`.
pub open spec fn byte_offset(s: Seq<char>, k: int) -> int {
    encode_utf8(s.take(k)).len() as int
}

/// The UTF-8 encoding of a concatenation is the concatenation of encodings.
pub proof fn lemma_encode_utf8_concat(a: Seq<char>, b: Seq<char>)
    ensures
        encode_utf8(a + b) == encode_utf8(a) + encode_utf8(b),
    decreases a.len(),
{
    if a.len() > 0 {
        lemma_encode_utf8_concat(a.drop_first(), b);
        assert((a + b).drop_first() =~= a.drop_first() + b);
        assert(encode_utf8(a + b) =~= encode_scalar(a[0] as u32) + encode_utf8(a.drop_first() + b));
    } else {
        assert(a + b =~= b);
        assert(encode_utf8(a) =~= Seq::<u8>::empty());
    }
}

/// The byte offset grows by the width of each character.
pub proof fn lemma_byte_offset_step(s: Seq<char>, k: int)
    requires
        0 <= k < s.len(),
    ensures
        byte_offset(s, k + 1) == byte_offset(s, k) + encode_scalar(s[k] as u32).len(),
        byte_offset(s, k) <= byte_offset(s, k + 1) <= encode_utf8(s).len(),
{
    assert(s.take(k + 1) =~= s.take(k) + seq![s[k]]);
    lemma_encode_utf8_concat(s.take(k), seq![s[k]]);
    let one = seq![s[k]];
    assert(one.drop_first() =~= Seq::<char>::empty());
    assert(encode_utf8(one.drop_first()) =~= Seq::<u8>::empty());
    assert(one[0] == s[k]);
    assert(encode_utf8(one) == encode_scalar(one[0] as u32) + encode_utf8(one.drop_first()));
    assert(encode_utf8(one) =~= encode_scalar(s[k] as u32));
    assert(s =~= s.take(k + 1) + s.skip(k + 1));
    lemma_encode_utf8_concat(s.take(k + 1), s.skip(k + 1));
}

/// The number of bytes in the UTF-8 encoding of `c`.
fn char_width(c: char) -> (r: usize)
    ensures
        r == encode_scalar(c as u32).len(),
        1 <= r <= 4,
{
    proof {
        vstd::utf8::char_is_scalar(c);
    }
    let v = c as u32;
    if v <= 0x7F {
        1
    } else if v <= 0x7FF {
        2
    } else if v <= 0xFFFF {
        3
    } else {
        4
    }
}

/// Where the letters that start at `i` end.
fn scan_letters(s: &[char], i: usize) -> (r: usize)
    requires
        i <= s.len(),
    ensures
        r == letters_end(s@, i as int),
        i <= r <= s.len(),
{
    let mut j = i;
    while j < s.len() && (('a' <= s[j] && s[j] <= 'z') || ('A' <= s[j] && s[j] <= 'Z'))
        invariant
            i <= j <= s.len(),
            letters_end(s@, i as int) == letters_end(s@, j as int),
        decreases s.len() - j,
    {
        j = j + 1;
    }
    j
}

/// Where the `)` of a link that begins at `i` stands, if a link begins there.
fn match_link(s: &[char], i: usize) -> (r: Option<usize>)
    requires
        i < s.len(),
    ensures
        match r {
            Some(m) => link_at(s@, i as int) == Some(m as int),
            None => link_at(s@, i as int) is None,
        },
{
    let n = s.len();
    if i + 1 >= n || s[i] != ']' || s[i + 1] != '(' {
        return None;
    }
    let j = scan_letters(s, i + 2);
    if j == i + 2 || j >= n || s[j] != ':' {
        return None;
    }
    match crate::text::find_char(s, ')', j + 1) {
        Some(m) => if m > j + 1 {
            Some(m)
        } else {
            None
        },
        None => None,
    }
}

/// The links of `s`, as spans of the text inside their parentheses.
pub fn find_link_spans(s: &[char]) -> (r: Vec<(usize, usize)>)
    ensures
        r@.map_values(|p: (usize, usize)| (p.0 as int, p.1 as int)) == link_spans(s@),
        forall|i: int| #![trigger r@[i]] 0 <= i < r@.len() ==> r@[i].0 <= r@[i].1 <= s@.len(),
{
    let mut out: Vec<(usize, usize)> = Vec::new();
    let mut pos: usize = 0;
    let mut resume: usize = 0;
    while pos < s.len()
        invariant
            pos <= s.len(),
            link_spans(s@) == out@.map_values(|p: (usize, usize)| (p.0 as int, p.1 as int))
                + link_spans_from(s@, pos as int, resume as int),
            forall|i: int| #![trigger out@[i]] 0 <= i < out@.len() ==> out@[i].0 <= out@[i].1 <= s@.len(),
        decreases s.len() - pos,
    {
        let ghost before = out@.map_values(|p: (usize, usize)| (p.0 as int, p.1 as int));
        if pos >= resume {
            match match_link(s, pos) {
                Some(m) => {
                    proof {
                        let j = letters_end(s@, pos + 2);
                        lemma_index_of_from(s@, ')', j + 1);
                        lemma_letters_end(s@, pos + 2);
                    }
                    out.push((pos + 2, m));
                    assert(out@.map_values(|p: (usize, usize)| (p.0 as int, p.1 as int)) =~= before
                        + seq![(pos + 2, m as int)]);
                    resume = m + 1;
                },
                None => {},
            }
        }
        pos = pos + 1;
    }
    assert(link_spans_from(s@, pos as int, resume as int) =~= Seq::<(int, int)>::empty());
    out
}

/// `letters_end` lies at or after its start, within the text.
pub proof fn lemma_letters_end(s: Seq<char>, i: int)
    requires
        0 <= i <= s.len(),
    ensures
        i <= letters_end(s, i) <= s.len(),
    decreases s.len() - i,
{
    if i < s.len() && is_ascii_letter(s[i]) {
        lemma_letters_end(s, i + 1);
    }
}

/// Spans that lie within `[lo, hi]`, each starting no later than it ends,
/// and each ending no later than the next one starts.
pub open spec fn spans_ordered(sp: Seq<(int, int)>, lo: int, hi: int) -> bool {
    &&& forall|i: int| #![trigger sp[i]] 0 <= i < sp.len() ==> lo <= sp[i].0 <= sp[i].1 <= hi
    &&& forall|i: int, j: int| #![trigger sp[i], sp[j]] 0 <= i < j < sp.len() ==> sp[i].1 <= sp[j].0
}

/// Link spans found from `pos` lie after `pos` and `resume`, in order.
pub proof fn lemma_link_spans_from_ordered(s: Seq<char>, pos: int, resume: int)
    requires
        0 <= pos,
    ensures
        spans_ordered(
            link_spans_from(s, pos, resume),
            if pos < resume { resume } else { pos },
            s.len() as int,
        ),
    decreases s.len() - pos,
{
    let r = link_spans_from(s, pos, resume);
    if pos >= s.len() {
    } else if pos < resume {
        lemma_link_spans_from_ordered(s, pos + 1, resume);
    } else {
        match link_at(s, pos) {
            Some(m) => {
                let j = letters_end(s, pos + 2);
                lemma_letters_end(s, pos + 2);
                lemma_index_of_from(s, ')', j + 1);
                lemma_link_spans_from_ordered(s, pos + 1, m + 1);
                let rest = link_spans_from(s, pos + 1, m + 1);
                assert(r == seq![(pos + 2, m)] + rest);
                assert forall|i: int, k: int| #![trigger r[i], r[k]] 0 <= i < k < r.len() implies r[i].1
                    <= r[k].0 by {
                    assert(r[k] == rest[k - 1]);
                    if i > 0 {
                        assert(r[i] == rest[i - 1]);
                    }
                }
                assert forall|i: int| #![trigger r[i]] 0 <= i < r.len() implies pos <= r[i].0 <= r[i].1
                    <= s.len() by {
                    if i > 0 {
                        assert(r[i] == rest[i - 1]);
                    }
                }
            },
            None => {
                lemma_link_spans_from_ordered(s, pos + 1, resume);
            },
        }
    }
}

/// The kept spans are some of the spans, and keep their order.
pub proof fn lemma_kept_spans_ordered(s: Seq<char>, sp: Seq<(int, int)>, lo: int, hi: int)
    requires
        spans_ordered(sp, lo, hi),
    ensures
        spans_ordered(kept_spans(s, sp), lo, hi),
        forall|i: int|
            #![trigger kept_spans(s, sp)[i]]
            0 <= i < kept_spans(s, sp).len() ==> exists|m: int|
                0 <= m < sp.len() && kept_spans(s, sp)[i] == #[trigger] sp[m],
    decreases sp.len(),
{
    if sp.len() > 0 {
        let prev = sp.drop_last();
        assert(spans_ordered(prev, lo, hi)) by {
            assert forall|i: int| #![trigger prev[i]] 0 <= i < prev.len() implies lo <= prev[i].0
                <= prev[i].1 <= hi by {
                assert(prev[i] == sp[i]);
            }
            assert forall|i: int, j: int| #![trigger prev[i], prev[j]] 0 <= i < j < prev.len() implies prev[i].1
                <= prev[j].0 by {
                assert(prev[i] == sp[i] && prev[j] == sp[j]);
            }
        }
        lemma_kept_spans_ordered(s, prev, lo, hi);
        let kp = kept_spans(s, prev);
        let k = kept_spans(s, sp);
        let last = sp.last();
        assert forall|i: int| #![trigger kp[i]] 0 <= i < kp.len() implies kp[i].1 <= last.0 && exists|m: int|
            0 <= m < sp.len() && kp[i] == #[trigger] sp[m] by {
            let m = choose|m: int| 0 <= m < prev.len() && kp[i] == #[trigger] prev[m];
            assert(prev[m] == sp[m]);
            assert(sp[m].1 <= sp[sp.len() - 1].0);
        }
        if k.len() > kp.len() {
            assert(k == kp.push(last));
            assert forall|i: int| #![trigger k[i]] 0 <= i < k.len() implies exists|m: int|
                0 <= m < sp.len() && k[i] == #[trigger] sp[m] by {
                if i < kp.len() {
                    assert(k[i] == kp[i]);
                } else {
                    assert(k[i] == sp[sp.len() - 1]);
                }
            }
            assert forall|i: int| #![trigger k[i]] 0 <= i < k.len() implies lo <= k[i].0 <= k[i].1
                <= hi by {
                if i < kp.len() {
                    assert(k[i] == kp[i]);
                } else {
                    assert(k[i] == sp[sp.len() - 1]);
                }
            }
            assert forall|i: int, j: int| #![trigger k[i], k[j]] 0 <= i < j < k.len() implies k[i].1
                <= k[j].0 by {
                assert(k[i] == kp[i]);
                if j < kp.len() {
                    assert(k[j] == kp[j]);
                } else {
                    assert(k[j] == last);
                }
            }
        } else {
            assert(k == kp);
        }
    }
}

/// Every letter between `i` and `letters_end(s, i)` is an ASCII letter.
pub proof fn lemma_letters_end_letters(s: Seq<char>, i: int)
    requires
        0 <= i <= s.len(),
    ensures
        forall|k: int| i <= k < letters_end(s, i) ==> is_ascii_letter(#[trigger] s[k]),
    decreases s.len() - i,
{
    if i < s.len() && is_ascii_letter(s[i]) {
        lemma_letters_end_letters(s, i + 1);
    }
}

/// A link's text sits between `](` and `)`, and its part before the first
/// `:` is a non-empty run of ASCII letters.
pub proof fn lemma_link_text(s: Seq<char>, i: int, m: int)
    requires
        link_at(s, i) == Some(m),
    ensures
        s[i] == ']' && s[i + 1] == '(',
        i + 2 < m < s.len(),
        s[m] == ')',
        ascii_prefix(s.subrange(i + 2, m)),
{
    let j = letters_end(s, i + 2);
    lemma_letters_end(s, i + 2);
    lemma_letters_end_letters(s, i + 2);
    lemma_index_of_from(s, ')', j + 1);
    let text = s.subrange(i + 2, m);
    assert forall|k: int| 0 <= k < j - (i + 2) implies #[trigger] text[k] != ':'
        && is_ascii_alphanumeric(text[k]) by {
        assert(text[k] == s[i + 2 + k]);
        assert(is_ascii_letter(s[i + 2 + k]));
    }
    assert(text[j - (i + 2)] == ':');
    lemma_index_of_from_at(text, ':', 0, j - (i + 2));
}

/// Each link span found from `pos` is where a link begins, two characters
/// before it.
pub proof fn lemma_link_spans_from_at(s: Seq<char>, pos: int, resume: int)
    requires
        0 <= pos,
    ensures
        forall|k: int|
            #![trigger link_spans_from(s, pos, resume)[k]]
            0 <= k < link_spans_from(s, pos, resume).len() ==> link_at(
                s,
                link_spans_from(s, pos, resume)[k].0 - 2,
            ) == Some(link_spans_from(s, pos, resume)[k].1),
    decreases s.len() - pos,
{
    let r = link_spans_from(s, pos, resume);
    if pos >= s.len() {
    } else if pos < resume {
        lemma_link_spans_from_at(s, pos + 1, resume);
    } else {
        match link_at(s, pos) {
            Some(m) => {
                lemma_link_spans_from_at(s, pos + 1, m + 1);
                let rest = link_spans_from(s, pos + 1, m + 1);
                assert forall|k: int| #![trigger r[k]] 0 <= k < r.len() implies link_at(s, r[k].0 - 2)
                    == Some(r[k].1) by {
                    if k > 0 {
                        assert(r[k] == rest[k - 1]);
                    }
                }
            },
            None => {
                lemma_link_spans_from_at(s, pos + 1, resume);
            },
        }
    }
}

/// The text of every link in `s` begins with a prefix of ASCII letters and
/// a `:`.
pub proof fn lemma_link_spans_ascii(s: Seq<char>)
    ensures
        forall|k: int|
            #![trigger link_spans(s)[k]]
            0 <= k < link_spans(s).len() ==> ascii_prefix(
                s.subrange(link_spans(s)[k].0, link_spans(s)[k].1),
            ),
{
    lemma_link_spans_from_at(s, 0, 0);
    assert forall|k: int| #![trigger link_spans(s)[k]] 0 <= k < link_spans(s).len() implies ascii_prefix(
        s.subrange(link_spans(s)[k].0, link_spans(s)[k].1),
    ) by {
        lemma_link_text(s, link_spans(s)[k].0 - 2, link_spans(s)[k].1);
    }
}

/// The kept spans are those whose text holds no `://`.
pub proof fn lemma_kept_spans_texts(s: Seq<char>, sp: Seq<(int, int)>)
    ensures
        forall|k: int|
            #![trigger kept_spans(s, sp)[k]]
            0 <= k < kept_spans(s, sp).len() ==> {
                let (a, b) = kept_spans(s, sp)[k];
                !occurs_in(s.subrange(a, b), "://"@)
            },
    decreases sp.len(),
{
    if sp.len() > 0 {
        lemma_kept_spans_texts(s, sp.drop_last());
        let kp = kept_spans(s, sp.drop_last());
        let k = kept_spans(s, sp);
        assert forall|i: int| #![trigger k[i]] 0 <= i < k.len() implies {
            let (a, b) = k[i];
            !occurs_in(s.subrange(a, b), "://"@)
        } by {
            if i < kp.len() {
                assert(k[i] == kp[i]);
            }
        }
    }
}

/// Each reference found in `s` is the text inside a link: it follows `](`,
/// is followed by `)`, begins with ASCII letters and a `:`, and, not being
/// a URL, holds no `://`.
pub proof fn lemma_reference_texts(s: Seq<char>)
    ensures
        forall|k: int|
            #![trigger reference_spans(s)[k]]
            0 <= k < reference_spans(s).len() ==> {
                let (a, b) = reference_spans(s)[k];
                &&& 2 <= a < b < s.len()
                &&& s[a - 2] == ']' && s[a - 1] == '('
                &&& s[b] == ')'
                &&& ascii_prefix(s.subrange(a, b))
                &&& !occurs_in(s.subrange(a, b), "://"@)
            },
{
    lemma_kept_spans_texts(s, link_spans(s));
    lemma_link_spans_from_ordered(s, 0, 0);
    lemma_kept_spans_ordered(s, link_spans(s), 0, s.len() as int);
    lemma_link_spans_from_at(s, 0, 0);
    let all = link_spans(s);
    let kept = reference_spans(s);
    assert forall|k: int| #![trigger reference_spans(s)[k]] 0 <= k < kept.len() implies {
        let (a, b) = kept[k];
        &&& 2 <= a < b < s.len()
        &&& s[a - 2] == ']' && s[a - 1] == '('
        &&& s[b] == ')'
        &&& ascii_prefix(s.subrange(a, b))
    } by {
        let m = choose|m: int| 0 <= m < all.len() && kept[k] == #[trigger] all[m];
        lemma_link_text(s, all[m].0 - 2, all[m].1);
    }
}

/// Every link whose text holds no `://` is a reference, whatever the other
/// links say, and no other span is: the references are exactly the links
/// found, in order, with URLs left out.
pub proof fn lemma_references_are_links_without_urls(s: Seq<char>)
    ensures
        reference_spans(s) == link_spans(s).filter(
            |sp: (int, int)| !occurs_in(s.subrange(sp.0, sp.1), "://"@),
        ),
{
    lemma_kept_spans_filter(s, link_spans(s));
}

/// `kept_spans` keeps exactly the spans whose text holds no `://`.
proof fn lemma_kept_spans_filter(s: Seq<char>, sp: Seq<(int, int)>)
    ensures
        kept_spans(s, sp) == sp.filter(|x: (int, int)| !occurs_in(s.subrange(x.0, x.1), "://"@)),
    decreases sp.len(),
{
    reveal(Seq::filter);
    if sp.len() > 0 {
        lemma_kept_spans_filter(s, sp.drop_last());
    }
}

/// The references in `s` lie within it, in order.
pub proof fn lemma_reference_spans_ordered(s: Seq<char>)
    ensures
        spans_ordered(reference_spans(s), 0, s.len() as int),
{
    lemma_link_spans_from_ordered(s, 0, 0);
    lemma_kept_spans_ordered(s, link_spans(s), 0, s.len() as int);
}

/// Spans that are not empty and do not touch: each ends before the next
/// one starts.
pub open spec fn spans_apart(sp: Seq<(int, int)>) -> bool {
    &&& forall|i: int| #![trigger sp[i]] 0 <= i < sp.len() ==> sp[i].0 < sp[i].1
    &&& forall|i: int, j: int| #![trigger sp[i], sp[j]] 0 <= i < j < sp.len() ==> sp[i].1 < sp[j].0
}

/// Link spans found from `pos` are not empty and lie apart.
pub proof fn lemma_link_spans_from_apart(s: Seq<char>, pos: int, resume: int)
    requires
        0 <= pos,
    ensures
        spans_apart(link_spans_from(s, pos, resume)),
    decreases s.len() - pos,
{
    let r = link_spans_from(s, pos, resume);
    if pos >= s.len() {
    } else if pos < resume {
        lemma_link_spans_from_apart(s, pos + 1, resume);
    } else {
        match link_at(s, pos) {
            Some(m) => {
                lemma_letters_end(s, pos + 2);
                lemma_link_spans_from_apart(s, pos + 1, m + 1);
                lemma_link_spans_from_ordered(s, pos + 1, m + 1);
                let rest = link_spans_from(s, pos + 1, m + 1);
                assert(r == seq![(pos + 2, m)] + rest);
                assert forall|i: int| #![trigger r[i]] 0 <= i < r.len() implies r[i].0 < r[i].1 by {
                    if i > 0 {
                        assert(r[i] == rest[i - 1]);
                    }
                }
                assert forall|i: int, k: int| #![trigger r[i], r[k]] 0 <= i < k < r.len() implies r[i].1
                    < r[k].0 by {
                    assert(r[k] == rest[k - 1]);
                    if i > 0 {
                        assert(r[i] == rest[i - 1]);
                    }
                }
            },
            None => {
                lemma_link_spans_from_apart(s, pos + 1, resume);
            },
        }
    }
}

/// The kept spans lie apart where all the spans do.
pub proof fn lemma_kept_spans_apart(s: Seq<char>, sp: Seq<(int, int)>)
    requires
        spans_apart(sp),
    ensures
        spans_apart(kept_spans(s, sp)),
        forall|i: int|
            #![trigger kept_spans(s, sp)[i]]
            0 <= i < kept_spans(s, sp).len() ==> exists|m: int|
                0 <= m < sp.len() && kept_spans(s, sp)[i] == #[trigger] sp[m],
    decreases sp.len(),
{
    if sp.len() > 0 {
        let prev = sp.drop_last();
        assert(spans_apart(prev)) by {
            assert forall|i: int| #![trigger prev[i]] 0 <= i < prev.len() implies prev[i].0
                < prev[i].1 by {
                assert(prev[i] == sp[i]);
            }
            assert forall|i: int, j: int| #![trigger prev[i], prev[j]] 0 <= i < j < prev.len() implies prev[i].1
                < prev[j].0 by {
                assert(prev[i] == sp[i] && prev[j] == sp[j]);
            }
        }
        lemma_kept_spans_apart(s, prev);
        let kp = kept_spans(s, prev);
        let k = kept_spans(s, sp);
        let last = sp.last();
        assert forall|i: int| #![trigger kp[i]] 0 <= i < kp.len() implies kp[i].1 < last.0 && exists|m: int|
            0 <= m < sp.len() && kp[i] == #[trigger] sp[m] by {
            let m = choose|m: int| 0 <= m < prev.len() && kp[i] == #[trigger] prev[m];
            assert(prev[m] == sp[m]);
            assert(sp[m].1 < sp[sp.len() - 1].0);
        }
        if k.len() > kp.len() {
            assert(k == kp.push(last));
            assert forall|i: int| #![trigger k[i]] 0 <= i < k.len() implies k[i].0 < k[i].1 && exists|m: int|
                0 <= m < sp.len() && k[i] == #[trigger] sp[m] by {
                if i < kp.len() {
                    assert(k[i] == kp[i]);
                } else {
                    assert(k[i] == sp[sp.len() - 1]);
                }
            }
            assert forall|i: int, j: int| #![trigger k[i], k[j]] 0 <= i < j < k.len() implies k[i].1
                < k[j].0 by {
                assert(k[i] == kp[i]);
                if j < kp.len() {
                    assert(k[j] == kp[j]);
                } else {
                    assert(k[j] == last);
                }
            }
        } else {
            assert(k == kp);
        }
    }
}

/// The references in `s` are not empty and lie apart.
pub proof fn lemma_reference_spans_apart(s: Seq<char>)
    ensures
        spans_apart(reference_spans(s)),
{
    lemma_link_spans_from_apart(s, 0, 0);
    lemma_kept_spans_apart(s, link_spans(s));
}

/// More characters take more bytes.
pub proof fn lemma_byte_offset_increases(s: Seq<char>, a: int, b: int)
    requires
        0 <= a < b <= s.len(),
    ensures
        byte_offset(s, a) < byte_offset(s, b),
    decreases b - a,
{
    lemma_byte_offset_step(s, a);
    let c = s[a] as u32;
    assert(encode_scalar(c).len() >= 1);
    if a + 1 < b {
        lemma_byte_offset_increases(s, a + 1, b);
    }
}

/// The prefix and value of the reference whose text is `span` of `s`.
pub open spec fn span_reference(s: Seq<char>, span: (int, int)) -> (Seq<char>, Seq<char>) {
    match spec_parse(s.subrange(span.0, span.1)) {
        Some(pv) => pv,
        None => (Seq::empty(), Seq::empty()),
    }
}

/// The references in `s` as character spans, with each reference parsed.
pub open spec fn located(s: Seq<char>, r: Seq<(usize, usize, Reference)>) -> bool {
    &&& r.len() == reference_spans(s).len()
    &&& forall|i: int|
        #![trigger r[i]]
        0 <= i < r.len() ==> {
            let (a, b) = reference_spans(s)[i];
            &&& r[i].0 == a
            &&& r[i].1 == b
            &&& a <= b <= s.len()
            &&& r[i].2.original@ == s.subrange(a, b)
            &&& spec_parse(s.subrange(a, b)) == Some((r[i].2.prefix@, r[i].2.value@))
        }
}

/// The references in `s`, each with the character span of its text.
pub fn locate_references(s: &[char]) -> (r: Vec<(usize, usize, Reference)>)
    ensures
        located(s@, r@),
{
    let spans = find_link_spans(s);
    let ghost all = link_spans(s@);
    proof {
        lemma_link_spans_ascii(s@);
    }
    let scheme = str_chars("://");
    let mut out: Vec<(usize, usize, Reference)> = Vec::new();
    let ghost mut kept: Seq<(int, int)> = Seq::empty();
    let mut i: usize = 0;
    while i < spans.len()
        invariant
            all == link_spans(s@),
            all == spans@.map_values(|p: (usize, usize)| (p.0 as int, p.1 as int)),
            forall|k: int|
                #![trigger spans@[k]]
                0 <= k < spans@.len() ==> spans@[k].0 <= spans@[k].1 <= s@.len(),
            forall|k: int|
                #![trigger all[k]]
                0 <= k < all.len() ==> ascii_prefix(s@.subrange(all[k].0, all[k].1)),
            scheme@ == "://"@,
            i <= spans@.len(),
            kept == kept_spans(s@, all.take(i as int)),
            out@.len() == kept.len(),
            forall|k: int|
                #![trigger out@[k]]
                0 <= k < out@.len() ==> {
                    let (a, b) = kept[k];
                    &&& out@[k].0 == a
                    &&& out@[k].1 == b
                    &&& a <= b <= s@.len()
                    &&& out@[k].2.original@ == s@.subrange(a, b)
                    &&& spec_parse(s@.subrange(a, b)) == Some(
                        (out@[k].2.prefix@, out@[k].2.value@),
                    )
                },
        decreases spans.len() - i,
    {
        let (a, b) = spans[i];
        assert(all.take(i + 1).drop_last() =~= all.take(i as int));
        assert(all[i as int] == (a as int, b as int));
        assert(spans@[i as int].0 <= spans@[i as int].1 <= s@.len());
        let text = &s[a..b];
        assert(text@ == s@.subrange(a as int, b as int));
        if !contains(text, scheme.as_slice()) {
            let text_string = string_of(text);
            match Reference::parse(text_string.as_str()) {
                Some(reference) => {
                    let ghost prev = out@;
                    out.push((a, b, reference));
                    assert(out@[out@.len() - 1] == (a, b, reference));
                    assert forall|k: int| 0 <= k < prev.len() implies #[trigger] out@[k] == prev[k] by {}
                    let ghost old_kept = kept;
                    proof {
                        kept = kept.push((a as int, b as int));
                    }
                    assert forall|k: int| 0 <= k < old_kept.len() implies #[trigger] kept[k]
                        == old_kept[k] by {}
                },
                None => {},
            }
        }
        assert(kept == kept_spans(s@, all.take(i + 1)));
        assert(forall|k: int|
                #![trigger out@[k]]
                0 <= k < out@.len() ==> {
                    let (a, b) = kept[k];
                    &&& out@[k].0 == a
                    &&& out@[k].1 == b
                    &&& a <= b <= s@.len()
                    &&& out@[k].2.original@ == s@.subrange(a, b)
                    &&& spec_parse(s@.subrange(a, b)) == Some(
                        (out@[k].2.prefix@, out@[k].2.value@),
                    )
                });
        i = i + 1;
    }
    assert(all.take(i as int) =~= all);
    out
}

/// Find all references in markdown content.
///
/// Each is given with the byte offsets of its text in `content` (start and
/// end), and is the text of a link that holds no `://`; every such text
/// parses as a reference. They come in the order in which they appear, and
/// none is empty or overlaps or touches the next.
pub fn find_references(content: &str) -> (r: Vec<(usize, usize, Reference)>)
    requires
        encode_utf8(content@).len() <= usize::MAX,
    ensures
        r@.len() == reference_spans(content@).len(),
        forall|i: int|
            #![trigger r@[i]]
            0 <= i < r@.len() ==> {
                let (a, b) = reference_spans(content@)[i];
                &&& r@[i].0 == byte_offset(content@, a)
                &&& r@[i].1 == byte_offset(content@, b)
                &&& r@[i].2.original@ == content@.subrange(a, b)
                &&& spec_parse(content@.subrange(a, b)) == Some((r@[i].2.prefix@, r@[i].2.value@))
            },
        forall|i: int| #![trigger r@[i]] 0 <= i < r@.len() ==> r@[i].0 < r@[i].1,
        forall|i: int, j: int| #![trigger r@[i], r@[j]] 0 <= i < j < r@.len() ==> r@[i].1 < r@[j].0,
{
    let chars = str_chars(content);
    let ghost s = chars@;
    let located_refs = locate_references(chars.as_slice());
    let mut refs = located_refs;
    let n = refs.len();
    let ghost spans = reference_spans(s);
    let mut out: Vec<(usize, usize, Reference)> = Vec::new();
    // A cursor that tracks the byte offset of a character index.
    let mut at: usize = 0;
    let mut bytes: usize = 0;
    let mut i: usize = 0;
    while refs.len() > 0
        invariant
            s == chars@,
            s == content@,
            encode_utf8(s).len() <= usize::MAX,
            spans == reference_spans(s),
            n == spans.len(),
            i + refs@.len() == n,
            out@.len() == i,
            at <= s.len(),
            bytes == byte_offset(s, at as int),
            forall|k: int|
                #![trigger refs@[k]]
                0 <= k < refs@.len() ==> {
                    let (a, b) = spans[i + k];
                    &&& refs@[k].0 == a
                    &&& refs@[k].1 == b
                    &&& a <= b <= s.len()
                    &&& refs@[k].2.original@ == s.subrange(a, b)
                    &&& spec_parse(s.subrange(a, b)) == Some((refs@[k].2.prefix@, refs@[k].2.value@))
                },
            forall|k: int|
                #![trigger out@[k]]
                0 <= k < out@.len() ==> {
                    let (a, b) = spans[k];
                    &&& out@[k].0 == byte_offset(s, a)
                    &&& out@[k].1 == byte_offset(s, b)
                    &&& out@[k].2.original@ == s.subrange(a, b)
                    &&& spec_parse(s.subrange(a, b)) == Some((out@[k].2.prefix@, out@[k].2.value@))
                },
        decreases refs.len(),
    {
        let ghost before = refs@;
        let (a, b, reference) = refs.remove(0);
        assert forall|k: int| 0 <= k < refs@.len() implies #[trigger] refs@[k] == before[k + 1] by {}
        assert(before[0] == (a, b, reference));
        // Move the cursor to the start, then to the end, of the reference.
        if at > a {
            at = 0;
            bytes = 0;
            assert(s.take(0) =~= Seq::<char>::empty());
        }
        while at < a
            invariant
                at <= a <= s.len(),
                s == chars@,
                encode_utf8(s).len() <= usize::MAX,
                bytes == byte_offset(s, at as int),
            decreases a - at,
        {
            proof {
                lemma_byte_offset_step(s, at as int);
            }
            bytes = bytes + char_width(chars[at]);
            at = at + 1;
        }
        let start_bytes = bytes;
        while at < b
            invariant
                at <= b <= s.len(),
                s == chars@,
                encode_utf8(s).len() <= usize::MAX,
                bytes == byte_offset(s, at as int),
            decreases b - at,
        {
            proof {
                lemma_byte_offset_step(s, at as int);
            }
            bytes = bytes + char_width(chars[at]);
            at = at + 1;
        }
        out.push((start_bytes, bytes, reference));
        i = i + 1;
    }
    proof {
        lemma_reference_spans_ordered(s);
        lemma_reference_spans_apart(s);
        assert forall|k: int| #![trigger out@[k]] 0 <= k < out@.len() implies out@[k].0
            < out@[k].1 by {
            lemma_byte_offset_increases(s, spans[k].0, spans[k].1);
        }
        assert forall|k: int, l: int| #![trigger out@[k], out@[l]] 0 <= k < l < out@.len() implies out@[k].1
            < out@[l].0 by {
            lemma_byte_offset_increases(s, spans[k].1, spans[l].0);
        }
    }
    out
}

} // verus!
