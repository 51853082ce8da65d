//! A small table from names to texts.

use crate::text;
use vstd::prelude::*;
use vstd::string::*;

verus! {

/// The map that a list of pairs describes: of two pairs with one name, the later one counts.
pub open spec fn entries_map(es: Seq<(String, String)>) -> Map<Seq<char>, Seq<char>>
    decreases es.len(),
{
    if es.len() == 0 {
        Map::empty()
    } else {
        entries_map(es.drop_last()).insert(es.last().0@, es.last().1@)
    }
}

/// Texts by name; its view is a map.
#[derive(Debug, Clone)]
pub struct Table {
    entries: Vec<(String, String)>,
}

impl View for Table {
    type V = Map<Seq<char>, Seq<char>>;

    closed spec fn view(&self) -> Map<Seq<char>, Seq<char>> {
        entries_map(self.entries@)
    }
}

impl Table {
    pub fn new() -> (r: Table)
        ensures
            r@ == Map::<Seq<char>, Seq<char>>::empty(),
    {
        Table { entries: Vec::new() }
    }

    pub fn get(&self, key: &str) -> (r: Option<&str>)
        ensures
            match r {
                Some(v) => self@.contains_key(key@) && self@[key@] == v@,
                None => !self@.contains_key(key@),
            },
    {
        let k = text::chars_of(key);
        let mut n: usize = self.entries.len();
        assert(self.entries@.take(n as int) == self.entries@);
        while n > 0
            invariant
                k@ == key@,
                n <= self.entries.len(),
                self@ == entries_map(self.entries@),
                self@.contains_key(key@) == entries_map(
                    self.entries@.take(n as int),
                ).contains_key(key@),
                self@.contains_key(key@) ==> self@[key@] == entries_map(
                    self.entries@.take(n as int),
                )[key@],
            decreases n,
        {
            assert(self.entries@.take(n as int).drop_last() == self.entries@.take(n - 1));
            let name = text::chars_of(self.entries[n - 1].0.as_str());
            if text::same(name.as_slice(), k.as_slice()) {
                return Some(self.entries[n - 1].1.as_str());
            }
            n -= 1;
        }
        None
    }

    pub fn remove(&mut self, key: &str)
        ensures
            final(self)@ == old(self)@.remove(key@),
    {
        let k = text::chars_of(key);
        let mut kept: Vec<(String, String)> = Vec::new();
        let mut i: usize = 0;
        while i < self.entries.len()
            invariant
                k@ == key@,
                *self == *old(self),
                i <= self.entries.len(),
                entries_map(kept@) == entries_map(self.entries@.take(i as int)).remove(key@),
            decreases self.entries.len() - i,
        {
            let ghost before = kept@;
            let ghost next = self.entries@.take(i + 1);
            assert(next.drop_last() == self.entries@.take(i as int));
            let name = text::chars_of(self.entries[i].0.as_str());
            if !text::same(name.as_slice(), k.as_slice()) {
                let pair = (self.entries[i].0.clone(), self.entries[i].1.clone());
                kept.push(pair);
                assert(kept@.drop_last() == before);
            }
            assert(entries_map(kept@) == entries_map(next).remove(key@));
            i += 1;
        }
        assert(self.entries@.take(i as int) == self.entries@);
        self.entries = kept;
    }

    /// Set the text for `key`, in place of the one it had.
    pub fn insert(&mut self, key: String, value: String)
        ensures
            final(self)@ == old(self)@.insert(key@, value@),
    {
        self.remove(key.as_str());
        let ghost before = self.entries@;
        let ghost pair = (key, value);
        self.entries.push((key, value));
        assert(self.entries@.drop_last() == before);
        assert(self.entries@.last() == pair);
        assert(old(self)@.remove(pair.0@).insert(pair.0@, pair.1@) == old(self)@.insert(
            pair.0@,
            pair.1@,
        ));
    }
}

} // verus!
