//! The UUID index: a text of lines `<uuid> <path>`, each line split at its
//! first space. A `uuid:` reference resolves to the path of the first line
//! whose UUID is the reference's value.

use vstd::prelude::*;

use crate::error::ErrorView;
use crate::forge::reference_text;
use crate::text::{chars_eq, find_char, index_of, index_of_from, lemma_index_of_from, string_of};

verus! {

/// Where the line that starts at `start` ends: at the next newline, or at
/// the end of the text.
pub open spec fn line_end(text: Seq<char>, start: int) -> int {
    match index_of_from(text, '\n', start) {
        Some(e) => e,
        None => text.len() as int,
    }
}

/// The path an index line gives for `key`: what follows its first space,
/// where what precedes it is `key`.
pub open spec fn entry_value(line: Seq<char>, key: Seq<char>) -> Option<Seq<char>> {
    match index_of(line, ' ') {
        Some(k) => if line.take(k) == key {
            Some(line.skip(k + 1))
        } else {
            None
        },
        None => None,
    }
}

/// The path of the first line at or after `start` that gives one for `key`.
pub open spec fn index_lookup_from(text: Seq<char>, key: Seq<char>, start: int) -> Option<
    Seq<char>,
>
    decreases text.len() - start,
{
    if start < 0 || start > text.len() {
        None
    } else {
        let e = line_end(text, start);
        match entry_value(text.subrange(start, e), key) {
            Some(v) => Some(v),
            None => if e >= text.len() {
                None
            } else {
                proof {
                    lemma_index_of_from(text, '\n', start);
                }
                index_lookup_from(text, key, e + 1)
            },
        }
    }
}

/// The path the index `text` gives for `key`, if any line gives one.
pub open spec fn index_lookup(text: Seq<char>, key: Seq<char>) -> Option<Seq<char>> {
    index_lookup_from(text, key, 0)
}

/// What `uuid:value` resolves to with the index `index`, if one was read.
pub open spec fn spec_resolve_uuid(index: Option<Seq<char>>, value: Seq<char>) -> Result<
    Seq<char>,
    ErrorView,
> {
    let reference = reference_text("uuid"@, value);
    match index {
        None => Err(ErrorView::Resolution { reference, reason: "No UUID index configured"@ }),
        Some(text) => match index_lookup(text, value) {
            Some(path) => Ok(path),
            None => Err(ErrorView::Resolution { reference, reason: "UUID not found in index"@ }),
        },
    }
}

/// The path the index `text` gives for `key`, if any line gives one.
pub fn lookup_uuid(text: &[char], key: &[char]) -> (r: Option<Vec<char>>)
    ensures
        match index_lookup(text@, key@) {
            None => r is None,
            Some(p) => r matches Some(v) && v@ == p,
        },
{
    let n = text.len();
    let mut start: usize = 0;
    while start <= n
        invariant
            start <= n,
            n == text@.len(),
            index_lookup(text@, key@) == index_lookup_from(text@, key@, start as int),
        decreases n + 1 - start,
    {
        proof {
            lemma_index_of_from(text@, '\n', start as int);
        }
        let e = match find_char(text, '\n', start) {
            Some(e) => e,
            None => n,
        };
        assert(e == line_end(text@, start as int));
        let line = &text[start..e];
        proof {
            lemma_index_of_from(line@, ' ', 0);
        }
        match find_char(line, ' ', 0) {
            Some(k) => {
                if k == key.len() && chars_eq(&line[0..k], key) {
                    let mut v: Vec<char> = Vec::new();
                    let mut i = k + 1;
                    let m = line.len();
                    while i < m
                        invariant
                            k + 1 <= i <= m,
                            m == line@.len(),
                            v@ == line@.subrange(k + 1, i as int),
                        decreases m - i,
                    {
                        v.push(line[i]);
                        i = i + 1;
                        assert(v@ =~= line@.subrange(k + 1, i as int));
                    }
                    assert(line@.subrange(k + 1, m as int) =~= line@.skip(k + 1));
                    assert(line@.subrange(0, k as int) =~= line@.take(k as int));
                    return Some(v);
                }
                proof {
                    if line@.take(k as int) == key@ {
                        assert(line@.subrange(0, k as int) =~= line@.take(k as int));
                    }
                }
            },
            None => {},
        }
        if e >= n {
            return None;
        }
        start = e + 1;
    }
    None
}

} // verus!
