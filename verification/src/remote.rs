//! The GitHub repository that a book's git remote names.

use vstd::prelude::*;

use crate::forge::configured_pair;
use crate::text::{append_str, chars_eq, has_prefix, lemma_index_of_from, push_char, find_char, starts_with, str_chars, string_of};

verus! {

/// `s` ends with `p`.
pub open spec fn has_suffix(s: Seq<char>, p: Seq<char>) -> bool {
    p.len() <= s.len() && s.skip(s.len() - p.len()) == p
}

/// The prefixes a remote URL on `host` begins with, for HTTPS, HTTP, SSH
/// URLs and the `git@host:` form.
pub open spec fn remote_prefix(host: Seq<char>, form: int) -> Seq<char> {
    if form == 0 {
        "https://"@ + host + seq!['/']
    } else if form == 1 {
        "http://"@ + host + seq!['/']
    } else if form == 2 {
        "ssh://git@"@ + host + seq!['/']
    } else {
        "git@"@ + host + seq![':']
    }
}

/// The part of remote URL `url` after its `host` prefix, if it has one.
pub open spec fn after_remote_prefix(url: Seq<char>, host: Seq<char>) -> Option<Seq<char>> {
    if has_prefix(url, remote_prefix(host, 0)) {
        Some(url.skip(remote_prefix(host, 0).len() as int))
    } else if has_prefix(url, remote_prefix(host, 1)) {
        Some(url.skip(remote_prefix(host, 1).len() as int))
    } else if has_prefix(url, remote_prefix(host, 2)) {
        Some(url.skip(remote_prefix(host, 2).len() as int))
    } else if has_prefix(url, remote_prefix(host, 3)) {
        Some(url.skip(remote_prefix(host, 3).len() as int))
    } else {
        None
    }
}

/// `rest` without a trailing `.git`.
pub open spec fn without_git_suffix(rest: Seq<char>) -> Seq<char> {
    if has_suffix(rest, ".git"@) {
        rest.take(rest.len() - 4)
    } else {
        rest
    }
}

/// The `owner/repo` that git remote URL `url` names on `host`: the part after
/// `https://host/`, `http://host/`, `ssh://git@host/` or `git@host:`,
/// without a trailing `.git`, where it has a non-empty owner and repository
/// around its first `/`.
pub open spec fn remote_repository(url: Seq<char>, host: Seq<char>) -> Option<Seq<char>> {
    match after_remote_prefix(url, host) {
        None => None,
        Some(rest) => {
            let t = without_git_suffix(rest);
            match configured_pair(Some(t)) {
                Some((o, n)) => if o.len() > 0 && n.len() > 0 {
                    Some(t)
                } else {
                    None
                },
                None => None,
            }
        },
    }
}

/// The text `head + host + tail`.
fn prefix_text(head: &str, host: &str, tail: char) -> (r: Vec<char>)
    ensures
        r@ == head@ + host@ + seq![tail],
{
    let mut s = head.to_owned();
    append_str(&mut s, host);
    push_char(&mut s, tail);
    str_chars(s.as_str())
}

/// The part of remote URL `url` (its characters) after its `host` prefix.
fn strip_remote_prefix(url: &[char], host: &str) -> (r: Option<Vec<char>>)
    ensures
        match after_remote_prefix(url@, host@) {
            None => r is None,
            Some(rest) => r matches Some(v) && v@ == rest,
        },
{
    let n = url.len();
    let forms = [
        prefix_text("https://", host, '/'),
        prefix_text("http://", host, '/'),
        prefix_text("ssh://git@", host, '/'),
        prefix_text("git@", host, ':'),
    ];
    let mut k: usize = 0;
    while k < 4
        invariant
            k <= 4,
            n == url@.len(),
            forall|f: int| 0 <= f < 4 ==> #[trigger] forms@[f]@ == remote_prefix(host@, f),
            forall|f: int| 0 <= f < k ==> !has_prefix(url@, #[trigger] remote_prefix(host@, f)),
        decreases 4 - k,
    {
        let p = &forms[k];
        if starts_with(url, p.as_slice()) {
            let mut rest: Vec<char> = Vec::new();
            let mut i = p.len();
            while i < n
                invariant
                    p@.len() <= i <= n,
                    n == url@.len(),
                    rest@ == url@.subrange(p@.len() as int, i as int),
                decreases n - i,
            {
                rest.push(url[i]);
                i = i + 1;
                assert(rest@ =~= url@.subrange(p@.len() as int, i as int));
            }
            assert(url@.subrange(p@.len() as int, n as int) =~= url@.skip(p@.len() as int));
            return Some(rest);
        }
        k = k + 1;
    }
    None
}

/// The `owner/repo` that git remote URL `url` names on `host`, if it names
/// one there.
pub fn remote_repository_of(url: &str, host: &str) -> (r: Option<String>)
    ensures
        match remote_repository(url@, host@) {
            None => r is None,
            Some(t) => r matches Some(s) && s@ == t,
        },
{
    let chars = str_chars(url);
    let rest = match strip_remote_prefix(chars.as_slice(), host) {
        Some(rest) => rest,
        None => return None,
    };
    let suffix = str_chars(".git");
    proof {
        reveal_strlit(".git");
    }
    let len = rest.len();
    let trimmed_len = if len >= 4 && chars_eq(&rest[len - 4..len], suffix.as_slice()) {
        assert(rest@.subrange(len - 4, len as int) =~= rest@.skip(len - 4));
        len - 4
    } else {
        proof {
            if has_suffix(rest@, ".git"@) {
                assert(rest@.subrange(len - 4, len as int) =~= rest@.skip(len - 4));
            }
        }
        len
    };
    let trimmed = &rest[0..trimmed_len];
    assert(trimmed@ =~= without_git_suffix(rest@));
    match find_char(trimmed, '/', 0) {
        None => None,
        Some(k) => {
            proof {
                lemma_index_of_from(trimmed@, '/', 0);
            }
            if k > 0 && k + 1 < trimmed_len {
                Some(string_of(trimmed))
            } else {
                None
            }
        },
    }
}

} // verus!
