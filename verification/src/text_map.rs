//! Small maps keyed by text, held as lists in which no key occurs twice.
use vstd::prelude::*;
use crate::keyed::{
    as_map, contains_key, distinct_keys, lemma_as_map_empty, lemma_as_map_filter, lemma_as_map_index,
    lemma_as_map_push, lemma_as_map_remove, lemma_as_map_update, lemma_filter_distinct, on_key,
};
use crate::text::{chars_of, str_eq};

verus! {

pub open spec fn text_entries<V>(s: Seq<(String, V)>) -> Seq<(Seq<char>, V)> {
    s.map_values(|e: (String, V)| (e.0@, e.1))
}

/// Whether `k` does not start with `prefix`.
pub open spec fn lacks_prefix(prefix: Seq<char>) -> spec_fn(Seq<char>) -> bool {
    |k: Seq<char>| !prefix.is_prefix_of(k)
}

/// A map from text to values.
pub struct TextMap<V> {
    entries: Vec<(String, V)>,
}

impl<V> View for TextMap<V> {
    type V = Map<Seq<char>, V>;

    closed spec fn view(&self) -> Map<Seq<char>, V> {
        as_map(text_entries(self.entries@))
    }
}

/// Whether `s` starts with `prefix`.
fn starts_with_chars(s: &Vec<char>, prefix: &Vec<char>) -> (r: bool)
    ensures
        r == prefix@.is_prefix_of(s@),
{
    if prefix.len() > s.len() {
        return false;
    }
    let mut i: usize = 0;
    while i < prefix.len()
        invariant
            i <= prefix@.len() <= s@.len(),
            forall|j: int| 0 <= j < i ==> prefix@[j] == s@[j],
        decreases prefix@.len() - i,
    {
        if prefix[i] != s[i] {
            assert(prefix@ != s@.subrange(0, prefix@.len() as int)) by {
                assert(s@.subrange(0, prefix@.len() as int)[i as int] == s@[i as int]);
            }
            return false;
        }
        i += 1;
    }
    assert(prefix@ =~= s@.subrange(0, prefix@.len() as int));
    true
}

impl<V> TextMap<V> {
    /// No key twice.
    pub closed spec fn wf(&self) -> bool {
        distinct_keys(text_entries(self.entries@))
    }

    /// An empty map.
    pub fn new() -> (m: Self)
        ensures
            m.wf(),
            m@ == Map::<Seq<char>, V>::empty(),
    {
        let m = TextMap { entries: Vec::new() };
        proof {
            lemma_as_map_empty(text_entries(m.entries@));
        }
        m
    }

    fn position(&self, key: &str) -> (r: Option<usize>)
        requires
            self.wf(),
        ensures
            match r {
                Some(i) => i < self.entries@.len() && self.entries@[i as int].0@ == key@,
                None => !self@.dom().contains(key@),
            },
    {
        let ghost e = text_entries(self.entries@);
        let mut i: usize = 0;
        while i < self.entries.len()
            invariant
                i <= self.entries@.len(),
                e == text_entries(self.entries@),
                forall|j: int| 0 <= j < i ==> (#[trigger] e[j]).0 != key@,
            decreases self.entries@.len() - i,
        {
            if str_eq(self.entries[i].0.as_str(), key) {
                return Some(i);
            }
            assert(e[i as int].0 == self.entries@[i as int].0@);
            i += 1;
        }
        assert(!contains_key(e, key@));
        None
    }

    /// The value of `key`, if any.
    pub fn get(&self, key: &str) -> (r: Option<&V>)
        requires
            self.wf(),
        ensures
            match r {
                Some(v) => self@.dom().contains(key@) && *v == self@[key@],
                None => !self@.dom().contains(key@),
            },
    {
        match self.position(key) {
            Some(i) => {
                proof {
                    lemma_as_map_index(text_entries(self.entries@), i as int);
                }
                Some(&self.entries[i].1)
            },
            None => None,
        }
    }

    /// Sets `key` to `value`.
    pub fn insert(&mut self, key: String, value: V)
        requires
            old(self).wf(),
        ensures
            final(self).wf(),
            final(self)@ == old(self)@.insert(key@, value),
    {
        let ghost e0 = text_entries(self.entries@);
        match self.position(key.as_str()) {
            Some(i) => {
                proof {
                    lemma_as_map_update(e0, i as int, value);
                }
                let ghost kv = key@;
                self.entries.set(i, (key, value));
                assert(text_entries(self.entries@) =~= e0.update(i as int, (e0[i as int].0, value)));
            },
            None => {
                proof {
                    lemma_as_map_push(e0, key@, value);
                }
                let ghost kv = key@;
                self.entries.push((key, value));
                assert(text_entries(self.entries@) =~= e0.push((kv, value)));
            },
        }
    }

    /// Forgets `key`.
    pub fn remove(&mut self, key: &str)
        requires
            old(self).wf(),
        ensures
            final(self).wf(),
            final(self)@ == old(self)@.remove(key@),
    {
        let ghost e0 = text_entries(self.entries@);
        match self.position(key) {
            Some(i) => {
                proof {
                    lemma_as_map_remove(e0, i as int);
                }
                self.entries.remove(i);
                assert(text_entries(self.entries@) =~= e0.remove(i as int));
            },
            None => {
                assert(as_map(e0) =~= as_map(e0).remove(key@));
            },
        }
    }

    /// Forgets every key that starts with `prefix`.
    pub fn retain_without_prefix(&mut self, prefix: &str)
        requires
            old(self).wf(),
        ensures
            final(self).wf(),
            final(self)@ == old(self)@.filter_keys(lacks_prefix(prefix@)),
    {
        let ghost e0 = text_entries(self.entries@);
        let ghost keep = on_key::<Seq<char>, V>(lacks_prefix(prefix@));
        let pv = chars_of(prefix);
        let mut rest: Vec<(String, V)> = Vec::new();
        std::mem::swap(&mut rest, &mut self.entries);
        let ghost raw0 = rest@;
        assert(raw0.len() == rest.len());
        assert(text_entries(self.entries@) =~= e0.take(0).filter(keep)) by {
            reveal(Seq::filter);
        }
        let mut i: usize = 0;
        while rest.len() > 0
            invariant
                i + rest@.len() == raw0.len(),
                raw0.len() <= usize::MAX,
                rest@ == raw0.skip(i as int),
                e0 == text_entries(raw0),
                keep == on_key::<Seq<char>, V>(lacks_prefix(prefix@)),
                pv@ == prefix@,
                text_entries(self.entries@) == e0.take(i as int).filter(keep),
            decreases rest@.len(),
        {
            proof {
                crate::lease_table::lemma_filter_take(e0, keep, i as int);
                assert(rest@[0] == raw0[i as int]);
            }
            let entry = rest.remove(0);
            let ghost before = text_entries(self.entries@);
            if !starts_with_chars(&chars_of(entry.0.as_str()), &pv) {
                self.entries.push(entry);
                assert(text_entries(self.entries@) =~= before.push(e0[i as int]));
            }
            assert(rest@ =~= raw0.skip(i + 1));
            i += 1;
        }
        proof {
            assert(e0.take(e0.len() as int) =~= e0);
            lemma_filter_distinct(e0, keep);
            lemma_as_map_filter(e0, lacks_prefix(prefix@));
        }
    }
}

} // verus!
