//! Configuration for the ref-resolver plugin.

use vstd::prelude::*;

use crate::remote::{remote_repository, remote_repository_of};
use crate::resolver::text_of;
use crate::text::str_eq;

verus! {

/// The map built by entering `entries` in order, a later entry for a key
/// replacing an earlier one.
pub open spec fn entries_map(entries: Seq<(Seq<char>, Seq<char>)>) -> Map<Seq<char>, Seq<char>>
    decreases entries.len(),
{
    if entries.len() == 0 {
        Map::empty()
    } else {
        entries_map(entries.drop_last()).insert(entries.last().0, entries.last().1)
    }
}

/// No key occurs twice among `entries`.
pub open spec fn keys_distinct(entries: Seq<(Seq<char>, Seq<char>)>) -> bool {
    forall|i: int, j: int|
        0 <= i < entries.len() && 0 <= j < entries.len() && i != j ==> #[trigger] entries[i].0
            != #[trigger] entries[j].0
}

/// With distinct keys, the map holds exactly the entries' keys, each with its
/// entry's value.
pub proof fn lemma_entries_map(entries: Seq<(Seq<char>, Seq<char>)>)
    requires
        keys_distinct(entries),
    ensures
        forall|k: Seq<char>|
            #[trigger] entries_map(entries).contains_key(k) <==> exists|i: int|
                0 <= i < entries.len() && entries[i].0 == k,
        forall|i: int|
            0 <= i < entries.len() ==> #[trigger] entries_map(entries)[entries[i].0]
                == entries[i].1,
    decreases entries.len(),
{
    if entries.len() > 0 {
        let prev = entries.drop_last();
        assert(keys_distinct(prev)) by {
            assert forall|i: int, j: int|
                0 <= i < prev.len() && 0 <= j < prev.len() && i != j implies #[trigger] prev[i].0
                != #[trigger] prev[j].0 by {
                assert(prev[i] == entries[i] && prev[j] == entries[j]);
            }
        }
        lemma_entries_map(prev);
        let n = entries.len() - 1;
        assert forall|k: Seq<char>|
            #[trigger] entries_map(entries).contains_key(k) <==> exists|i: int|
                0 <= i < entries.len() && entries[i].0 == k by {
            if entries_map(entries).contains_key(k) && k != entries[n].0 {
                assert(entries_map(prev).contains_key(k));
                let i = choose|i: int| 0 <= i < prev.len() && prev[i].0 == k;
                assert(prev[i] == entries[i]);
                assert(entries[i].0 == k);
            }
            if exists|i: int| 0 <= i < entries.len() && entries[i].0 == k {
                let i = choose|i: int| 0 <= i < entries.len() && entries[i].0 == k;
                if i < n {
                    assert(prev[i] == entries[i]);
                    assert(prev[i].0 == k);
                    assert(entries_map(prev).contains_key(k));
                }
            }
        }
        assert forall|i: int| 0 <= i < entries.len() implies #[trigger] entries_map(entries)[entries[i].0]
            == entries[i].1 by {
            if i < n {
                assert(prev[i] == entries[i]);
                assert(entries[i].0 != entries[n].0);
                assert(entries_map(prev)[prev[i].0] == prev[i].1);
            }
        }
    }
}

/// Replacing the value of an entry updates the map at that entry's key.
pub proof fn lemma_entries_map_update(entries: Seq<(Seq<char>, Seq<char>)>, i: int, v: Seq<char>)
    requires
        keys_distinct(entries),
        0 <= i < entries.len(),
    ensures
        entries_map(entries.update(i, (entries[i].0, v))) =~= entries_map(entries).insert(
            entries[i].0,
            v,
        ),
    decreases entries.len(),
{
    let k = entries[i].0;
    let upd = entries.update(i, (k, v));
    let n = entries.len() - 1;
    if i == n {
        assert(upd.drop_last() =~= entries.drop_last());
        assert forall|key: Seq<char>| #[trigger] entries_map(upd).contains_key(key) <==> entries_map(
            entries,
        ).insert(k, v).contains_key(key) by {}
    } else {
        let prev = entries.drop_last();
        assert(keys_distinct(prev)) by {
            assert forall|a: int, b: int|
                0 <= a < prev.len() && 0 <= b < prev.len() && a != b implies #[trigger] prev[a].0
                != #[trigger] prev[b].0 by {
                assert(prev[a] == entries[a] && prev[b] == entries[b]);
            }
        }
        lemma_entries_map_update(prev, i, v);
        assert(upd.drop_last() =~= prev.update(i, (k, v)));
        assert(entries[n].0 != k);
    }
}

/// A map from reference prefixes to path patterns.
///
/// Its keys are distinct; its view is the map from each key to its pattern.
#[derive(Debug)]
pub struct PatternMap {
    entries: Vec<(String, String)>,
}

impl PatternMap {
    /// The entries, with each string read as its characters.
    pub closed spec fn pairs(self) -> Seq<(Seq<char>, Seq<char>)> {
        self.entries@.map_values(|e: (String, String)| (e.0@, e.1@))
    }

    #[verifier::type_invariant]
    closed spec fn distinct(self) -> bool {
        keys_distinct(self.pairs())
    }

    /// The map from each prefix to its pattern.
    pub closed spec fn map(self) -> Map<Seq<char>, Seq<char>> {
        entries_map(self.pairs())
    }

    /// An empty map.
    pub fn new() -> (r: Self)
        ensures
            r@ == Map::<Seq<char>, Seq<char>>::empty(),
    {
        let r = PatternMap { entries: Vec::new() };
        assert(r.pairs() =~= Seq::<(Seq<char>, Seq<char>)>::empty());
        r
    }

    /// The number of prefixes in the map.
    pub fn len(&self) -> (r: usize)
        ensures
            r == self@.len(),
    {
        proof {
            use_type_invariant(self);
            self.lemma_view_finite_len();
        }
        self.entries.len()
    }

    proof fn lemma_view_finite_len(&self)
        requires
            keys_distinct(self.pairs()),
        ensures
            self@.dom().finite(),
            self@.len() == self.entries@.len(),
    {
        lemma_entries_map_len(self.pairs());
    }

    /// The index of the entry for `key`, if there is one.
    fn position(&self, key: &str) -> (r: Option<usize>)
        ensures
            match r {
                Some(i) => i < self.entries@.len() && self.pairs()[i as int].0 == key@,
                None => !self@.contains_key(key@),
            },
    {
        proof {
            use_type_invariant(self);
            lemma_entries_map(self.pairs());
        }
        let mut i: usize = 0;
        while i < self.entries.len()
            invariant
                i <= self.entries@.len(),
                self.pairs().len() == self.entries@.len(),
                forall|j: int| 0 <= j < i ==> self.pairs()[j].0 != key@,
            decreases self.entries.len() - i,
        {
            if str_eq(self.entries[i].0.as_str(), key) {
                return Some(i);
            }
            i = i + 1;
        }
        None
    }

    /// Every prefix with its pattern, in no stated order.
    pub fn entries(&self) -> (r: Vec<(String, String)>)
        ensures
            r@.map_values(|e: (String, String)| (e.0@, e.1@)) == self.pairs(),
            entries_map(r@.map_values(|e: (String, String)| (e.0@, e.1@))) == self@,
    {
        let mut out: Vec<(String, String)> = Vec::new();
        let mut i: usize = 0;
        while i < self.entries.len()
            invariant
                i <= self.entries@.len(),
                out@.map_values(|e: (String, String)| (e.0@, e.1@)) == self.pairs().take(i as int),
            decreases self.entries.len() - i,
        {
            let ghost before = out@.map_values(|e: (String, String)| (e.0@, e.1@));
            let key = self.entries[i].0.clone();
            let value = self.entries[i].1.clone();
            out.push((key, value));
            assert(self.pairs()[i as int] == (self.entries@[i as int].0@, self.entries@[i as int].1@));
            assert(out@.map_values(|e: (String, String)| (e.0@, e.1@)) =~= before.push(
                (key@, value@),
            ));
            assert(out@.map_values(|e: (String, String)| (e.0@, e.1@)) =~= self.pairs().take(i + 1));
            i = i + 1;
        }
        assert(self.pairs().take(i as int) =~= self.pairs());
        out
    }

    /// Whether `key` has a pattern.
    pub fn contains_key(&self, key: &str) -> (r: bool)
        ensures
            r == self@.contains_key(key@),
    {
        proof {
            use_type_invariant(self);
            lemma_entries_map(self.pairs());
        }
        self.position(key).is_some()
    }

    /// The pattern for `key`, if there is one.
    pub fn get(&self, key: &str) -> (r: Option<&String>)
        ensures
            r is Some == self@.contains_key(key@),
            r matches Some(v) ==> v@ == self@[key@],
    {
        proof {
            use_type_invariant(self);
            lemma_entries_map(self.pairs());
        }
        match self.position(key) {
            Some(i) => Some(&self.entries[i].1),
            None => None,
        }
    }

    /// Sets the pattern for `key`, and returns the pattern it had before.
    pub fn insert(&mut self, key: String, value: String) -> (r: Option<String>)
        ensures
            final(self)@ == old(self)@.insert(key@, value@),
            r is Some == old(self)@.contains_key(key@),
            r matches Some(v) ==> v@ == old(self)@[key@],
    {
        proof {
            use_type_invariant(&*self);
            lemma_entries_map(self.pairs());
        }
        match self.position(key.as_str()) {
            Some(i) => {
                let ghost before = self.pairs();
                let mut entries: Vec<(String, String)> = Vec::new();
                std::mem::swap(&mut entries, &mut self.entries);
                let old_entry = entries.remove(i);
                entries.insert(i, (key, value));
                proof {
                    lemma_entries_map_update(before, i as int, value@);
                    assert(entries@.map_values(|e: (String, String)| (e.0@, e.1@)) =~= before.update(
                        i as int,
                        (before[i as int].0, value@),
                    ));
                }
                self.entries = entries;
                Some(old_entry.1)
            },
            None => {
                let ghost before = self.pairs();
                let mut entries: Vec<(String, String)> = Vec::new();
                std::mem::swap(&mut entries, &mut self.entries);
                entries.push((key, value));
                proof {
                    assert(entries@.map_values(|e: (String, String)| (e.0@, e.1@)) =~= before.push(
                        (key@, value@),
                    ));
                    assert(entries@.map_values(|e: (String, String)| (e.0@, e.1@)).drop_last()
                        =~= before);
                }
                self.entries = entries;
                None
            },
        }
    }
}

/// The number of keys of the map of distinct-keyed entries is the number of entries.
pub proof fn lemma_entries_map_len(entries: Seq<(Seq<char>, Seq<char>)>)
    requires
        keys_distinct(entries),
    ensures
        entries_map(entries).dom().finite(),
        entries_map(entries).len() == entries.len(),
    decreases entries.len(),
{
    if entries.len() > 0 {
        let prev = entries.drop_last();
        assert(keys_distinct(prev)) by {
            assert forall|i: int, j: int|
                0 <= i < prev.len() && 0 <= j < prev.len() && i != j implies #[trigger] prev[i].0
                != #[trigger] prev[j].0 by {
                assert(prev[i] == entries[i] && prev[j] == entries[j]);
            }
        }
        lemma_entries_map_len(prev);
        lemma_entries_map(prev);
        let n = entries.len() - 1;
        if entries_map(prev).contains_key(entries[n].0) {
            let i = choose|i: int| 0 <= i < prev.len() && prev[i].0 == entries[n].0;
            assert(entries[i].0 == entries[n].0);
        }
    }
}

impl Clone for PatternMap {
    /// A map with the same prefixes and patterns.
    fn clone(&self) -> (r: Self)
        ensures
            r@ == self@,
    {
        proof {
            use_type_invariant(self);
        }
        PatternMap { entries: self.entries() }
    }
}

impl View for PatternMap {
    type V = Map<Seq<char>, Seq<char>>;

    open spec fn view(&self) -> Map<Seq<char>, Seq<char>> {
        self.map()
    }
}

/// Plugin configuration from `book.toml`.
///
/// Configured in `book.toml` under `[preprocessor.ref-resolver]`.
#[derive(Debug, Clone)]
pub struct Config {
    /// GitHub repository in "owner/repo" format for gh: references.
    /// If not set, it may be detected from the book's git remote
    /// (`detect_github_repo`).
    pub github_repo: Option<String>,
    /// GitLab repository in "owner/repo" format for gl: references.
    pub gitlab_repo: Option<String>,
    /// Custom prefix patterns. Maps prefix name to path pattern.
    /// Pattern placeholders:
    /// - `{id}` - The reference ID (e.g., "0042" in adr:0042)
    /// - `{path}` - The full reference path (e.g., "user/auth" in docs:user/auth)
    /// - `*` - Glob wildcard for matching files
    pub prefixes: PatternMap,
    /// Path to UUID index file for uuid: references.
    pub uuid_index: Option<String>,
}

/// The prefix patterns a default configuration holds.
pub open spec fn default_prefixes() -> Map<Seq<char>, Seq<char>> {
    map![
        "adr"@ => "docs/adr/{id}-*.md"@,
        "docs"@ => "docs/src/{path}.md"@,
        "blog"@ => "docs/blog/*{path}*.md"@,
        "notes"@ => "docs/notes/{path}.md"@,
    ]
}

impl Default for Config {
    /// No repositories, no UUID index, and the four standard prefixes.
    fn default() -> (r: Self)
        ensures
            r.github_repo is None,
            r.gitlab_repo is None,
            r.uuid_index is None,
            r.prefixes@ == default_prefixes(),
    {
        let mut prefixes = PatternMap::new();
        prefixes.insert("adr".to_owned(), "docs/adr/{id}-*.md".to_owned());
        prefixes.insert("docs".to_owned(), "docs/src/{path}.md".to_owned());
        prefixes.insert("blog".to_owned(), "docs/blog/*{path}*.md".to_owned());
        prefixes.insert("notes".to_owned(), "docs/notes/{path}.md".to_owned());
        Config { github_repo: None, gitlab_repo: None, prefixes, uuid_index: None }
    }
}

impl Config {
    /// Fills an unset GitHub repository from the book's git remote, where
    /// `remote_url` names a repository on `github.com`; a configured
    /// repository stays, and nothing else changes.
    pub fn detect_github_repo(&mut self, remote_url: &str)
        ensures
            text_of(final(self).github_repo) == match old(self).github_repo {
                Some(r) => Some(r@),
                None => remote_repository(remote_url@, "github.com"@),
            },
            final(self).gitlab_repo == old(self).gitlab_repo,
            final(self).prefixes == old(self).prefixes,
            final(self).uuid_index == old(self).uuid_index,
    {
        if self.github_repo.is_none() {
            self.github_repo = remote_repository_of(remote_url, "github.com");
        }
    }

    /// Get the pattern for a given prefix.
    pub fn get_pattern(&self, prefix: &str) -> (r: Option<&String>)
        ensures
            r is Some == self.prefixes@.contains_key(prefix@),
            r matches Some(p) ==> p@ == self.prefixes@[prefix@],
    {
        self.prefixes.get(prefix)
    }
}

} // verus!
