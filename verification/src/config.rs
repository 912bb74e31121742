//! Start-up configuration: the modules to load, with their parameters, and
//! the choice of configuration file from the command line.

use vstd::prelude::*;
use crate::text::str_eq;

verus! {

/// A string-keyed parameter table in which each key occurs at most once.
pub struct ParamMap {
    entries: Vec<(String, String)>,
}

/// The keys of `s` are pairwise distinct.
pub open spec fn distinct_keys(s: Seq<(String, String)>) -> bool {
    forall|i: int, j: int|
        0 <= i < s.len() && 0 <= j < s.len() && i != j ==> #[trigger] s[i].0@ != #[trigger] s[j].0@
}

/// Some entry of `s` has key `k`.
pub open spec fn has_key(s: Seq<(String, String)>, k: Seq<char>) -> bool {
    exists|i: int| 0 <= i < s.len() && #[trigger] s[i].0@ == k
}

/// The position of an entry of `s` with key `k`.
pub open spec fn key_index(s: Seq<(String, String)>, k: Seq<char>) -> int {
    choose|i: int| 0 <= i < s.len() && #[trigger] s[i].0@ == k
}

/// The table that a list of entries with distinct keys describes.
pub open spec fn entries_map(s: Seq<(String, String)>) -> Map<Seq<char>, Seq<char>> {
    Map::new(|k: Seq<char>| has_key(s, k), |k: Seq<char>| s[key_index(s, k)].1@)
}

/// In a list with distinct keys, the entry found for a key is the one at
/// the position that holds it.
proof fn lemma_entry_at(s: Seq<(String, String)>, i: int)
    requires
        distinct_keys(s),
        0 <= i < s.len(),
    ensures
        entries_map(s).contains_key(s[i].0@),
        entries_map(s)[s[i].0@] == s[i].1@,
{
    assert(has_key(s, s[i].0@));
    let j = key_index(s, s[i].0@);
    assert(s[j].0@ == s[i].0@);
}

impl View for ParamMap {
    type V = Map<Seq<char>, Seq<char>>;

    closed spec fn view(&self) -> Map<Seq<char>, Seq<char>> {
        entries_map(self.entries@)
    }
}

impl ParamMap {
    #[verifier::type_invariant]
    closed spec fn keys_distinct(self) -> bool {
        distinct_keys(self.entries@)
    }

    /// An empty table.
    pub fn new() -> (res: ParamMap)
        ensures
            res@ == Map::<Seq<char>, Seq<char>>::empty(),
    {
        let res = ParamMap { entries: Vec::new() };
        assert(res@ =~= Map::<Seq<char>, Seq<char>>::empty());
        res
    }

    /// The position of the entry with key `key`, if there is one.
    fn find(&self, key: &str) -> (res: Option<usize>)
        ensures
            match res {
                Some(i) => i < self.entries@.len() && self.entries@[i as int].0@ == key@,
                None => !has_key(self.entries@, key@),
            },
    {
        let mut i: usize = 0;
        while i < self.entries.len()
            invariant
                i <= self.entries@.len(),
                forall|j: int| 0 <= j < i ==> #[trigger] self.entries@[j].0@ != key@,
            decreases self.entries@.len() - i,
        {
            if str_eq(self.entries[i].0.as_str(), key) {
                return Some(i);
            }
            i = i + 1;
        }
        None
    }

    /// The entries of the table, each key once, in the order they were
    /// first stored.
    pub fn pairs(&self) -> (res: &Vec<(String, String)>)
        ensures
            distinct_keys(res@),
            entries_map(res@) == self@,
    {
        proof {
            use_type_invariant(self);
        }
        &self.entries
    }

    /// Whether the table has an entry for `key`.
    pub fn contains_key(&self, key: &str) -> (res: bool)
        ensures
            res == self@.contains_key(key@),
    {
        self.find(key).is_some()
    }

    /// The value stored under `key`, if any.
    pub fn get(&self, key: &str) -> (res: Option<&String>)
        ensures
            match res {
                Some(v) => self@.contains_key(key@) && self@[key@] == v@,
                None => !self@.contains_key(key@),
            },
    {
        proof {
            use_type_invariant(self);
        }
        match self.find(key) {
            Some(i) => {
                proof {
                    lemma_entry_at(self.entries@, i as int);
                }
                Some(&self.entries[i].1)
            },
            None => None,
        }
    }

    /// Stores `value` under `key`, replacing any earlier value for it.
    pub fn insert(&mut self, key: String, value: String)
        ensures
            final(self)@ == old(self)@.insert(key@, value@),
    {
        proof {
            use_type_invariant(&*self);
        }
        let ghost old_entries = self.entries@;
        let ghost k = key@;
        let ghost v = value@;
        match self.find(key.as_str()) {
            Some(i) => {
                let mut entries = Vec::new();
                std::mem::swap(&mut entries, &mut self.entries);
                entries.set(i, (key, value));
                let ghost s = entries@;
                assert(distinct_keys(s)) by {
                    assert forall|a: int, b: int|
                        0 <= a < s.len() && 0 <= b < s.len() && a != b implies #[trigger] s[a].0@
                        != #[trigger] s[b].0@ by {
                        if a != i && b != i {
                            assert(s[a] == old_entries[a] && s[b] == old_entries[b]);
                        } else if a == i {
                            assert(s[b] == old_entries[b]);
                            assert(old_entries[a].0@ != old_entries[b].0@);
                        } else {
                            assert(s[a] == old_entries[a]);
                            assert(old_entries[a].0@ != old_entries[b].0@);
                        }
                    }
                }
                assert(entries_map(s) =~= entries_map(old_entries).insert(k, v)) by {
                    assert forall|q: Seq<char>| #[trigger]
                        entries_map(s).contains_key(q) == entries_map(old_entries).insert(
                            k,
                            v,
                        ).contains_key(q) by {
                        if has_key(s, q) {
                            let j = key_index(s, q);
                            if j != i {
                                assert(old_entries[j] == s[j]);
                            }
                        }
                        if has_key(old_entries, q) {
                            let j = key_index(old_entries, q);
                            if j != i {
                                assert(old_entries[j] == s[j]);
                            } else {
                                assert(s[i as int].0@ == k);
                            }
                        }
                        if q == k {
                            assert(s[i as int].0@ == k);
                        }
                    }
                    assert forall|q: Seq<char>| #[trigger]
                        entries_map(s).contains_key(q) implies entries_map(s)[q] == entries_map(
                        old_entries,
                    ).insert(k, v)[q] by {
                        let j = key_index(s, q);
                        lemma_entry_at(s, j);
                        if j != i {
                            assert(old_entries[j] == s[j]);
                            lemma_entry_at(old_entries, j);
                        }
                    }
                }
                self.entries = entries;
            },
            None => {
                let mut entries = Vec::new();
                std::mem::swap(&mut entries, &mut self.entries);
                entries.push((key, value));
                let ghost s = entries@;
                let ghost n = old_entries.len() as int;
                assert(distinct_keys(s)) by {
                    assert forall|a: int, b: int|
                        0 <= a < s.len() && 0 <= b < s.len() && a != b implies #[trigger] s[a].0@
                        != #[trigger] s[b].0@ by {
                        if a < n && b < n {
                            assert(s[a] == old_entries[a] && s[b] == old_entries[b]);
                        } else if a == n {
                            assert(s[b] == old_entries[b]);
                            assert(!(old_entries[b].0@ == k));
                        } else {
                            assert(s[a] == old_entries[a]);
                            assert(!(old_entries[a].0@ == k));
                        }
                    }
                }
                assert(entries_map(s) =~= entries_map(old_entries).insert(k, v)) by {
                    assert forall|q: Seq<char>| #[trigger]
                        entries_map(s).contains_key(q) == entries_map(old_entries).insert(
                            k,
                            v,
                        ).contains_key(q) by {
                        if has_key(s, q) {
                            let j = key_index(s, q);
                            if j < n {
                                assert(old_entries[j] == s[j]);
                            }
                        }
                        if has_key(old_entries, q) {
                            let j = key_index(old_entries, q);
                            assert(old_entries[j] == s[j]);
                        }
                        if q == k {
                            assert(s[n].0@ == k);
                        }
                    }
                    assert forall|q: Seq<char>| #[trigger]
                        entries_map(s).contains_key(q) implies entries_map(s)[q] == entries_map(
                        old_entries,
                    ).insert(k, v)[q] by {
                        let j = key_index(s, q);
                        lemma_entry_at(s, j);
                        if j < n {
                            assert(old_entries[j] == s[j]);
                            lemma_entry_at(old_entries, j);
                        }
                    }
                }
                self.entries = entries;
            },
        }
    }
}

/// One module that the configuration asks to load.
pub struct ModuleItem {
    pub m_type: String,
    pub m_name: String,
    pub m_param: ParamMap,
}

/// The whole start-up configuration.
pub struct Config {
    pub server_port: i32,
    pub log_console: bool,
    pub modules: Vec<ModuleItem>,
}

/// The flag that introduces the configuration file on the command line.
pub open spec fn file_flag() -> Seq<char> {
    seq!['-', 'f']
}

/// The configuration file named on the command line: the argument after
/// `-f`, where `-f` is the first argument after the program name.
pub fn config_path(args: &Vec<String>) -> (res: Option<String>)
    ensures
        res is Some <==> (args@.len() > 2 && args@[1]@ == file_flag()),
        res matches Some(p) ==> p@ == args@[2]@,
{
    if args.len() > 1 {
        proof {
            reveal_strlit("-f");
            assert("-f"@ =~= file_flag());
        }
        if str_eq(args[1].as_str(), "-f") && args.len() > 2 {
            return Some(args[2].clone());
        }
    }
    None
}

} // verus!
