//! The table of manifest string replacements: a finite map from the
//! placeholder strings of the templates to the values of a build.

use vstd::prelude::*;

verus! {

/// The map that a sequence of (key, value) pairs with distinct keys stands for.
pub open spec fn pairs_to_map(s: Seq<(Seq<char>, Seq<char>)>) -> Map<Seq<char>, Seq<char>>
    decreases s.len(),
{
    if s.len() == 0 {
        Map::empty()
    } else {
        pairs_to_map(s.drop_last()).insert(s.last().0, s.last().1)
    }
}

pub open spec fn keys_distinct(s: Seq<(Seq<char>, Seq<char>)>) -> bool {
    forall|i: int, j: int| 0 <= i < s.len() && 0 <= j < s.len() && i != j ==> s[i].0 != s[j].0
}

/// With distinct keys, the map holds exactly the pairs of the sequence.
pub proof fn lemma_pairs_to_map(s: Seq<(Seq<char>, Seq<char>)>)
    requires
        keys_distinct(s),
    ensures
        forall|k: Seq<char>| #[trigger]
            pairs_to_map(s).contains_key(k) <==> exists|i: int| 0 <= i < s.len() && s[i].0 == k,
        forall|i: int|
            0 <= i < s.len() ==> #[trigger] pairs_to_map(s)[s[i].0] == s[i].1
                && pairs_to_map(s).contains_key(s[i].0),
    decreases s.len(),
{
    if s.len() > 0 {
        let p = s.drop_last();
        assert(keys_distinct(p));
        lemma_pairs_to_map(p);
        assert forall|k: Seq<char>| #[trigger]
            pairs_to_map(s).contains_key(k) <==> exists|i: int| 0 <= i < s.len() && s[i].0 == k by {
            if pairs_to_map(s).contains_key(k) {
                if k == s.last().0 {
                    assert(s[s.len() - 1].0 == k);
                } else {
                    assert(pairs_to_map(p).contains_key(k));
                    let i = choose|i: int| 0 <= i < p.len() && p[i].0 == k;
                    assert(p[i] == s[i]);
                    assert(s[i].0 == k);
                }
            }
            if exists|i: int| 0 <= i < s.len() && s[i].0 == k {
                let i = choose|i: int| 0 <= i < s.len() && s[i].0 == k;
                if i < s.len() - 1 {
                    assert(p[i] == s[i]);
                    assert(p[i].0 == k);
                    assert(pairs_to_map(p).contains_key(k));
                }
            }
        }
        assert forall|i: int| 0 <= i < s.len() implies #[trigger] pairs_to_map(s)[s[i].0] == s[i].1
            && pairs_to_map(s).contains_key(s[i].0) by {
            if i < s.len() - 1 {
                assert(p[i] == s[i]);
                assert(s[i].0 != s[s.len() - 1].0);
                assert(pairs_to_map(p)[p[i].0] == p[i].1);
                assert(pairs_to_map(p).contains_key(p[i].0));
            }
        }
    }
}

/// A table of string replacements; no key occurs twice.
pub struct Replacements {
    entries: Vec<(String, String)>,
}

impl Replacements {
    /// The pairs of the table, taken by their views.
    pub closed spec fn pairs(&self) -> Seq<(Seq<char>, Seq<char>)> {
        self.entries@.map_values(|e: (String, String)| (e.0@, e.1@))
    }

    #[verifier::type_invariant]
    closed spec fn wf(&self) -> bool {
        keys_distinct(self.pairs())
    }

    pub closed spec fn view(&self) -> Map<Seq<char>, Seq<char>> {
        pairs_to_map(self.pairs())
    }

    /// An empty table.
    pub fn new() -> (r: Replacements)
        ensures
            r.view() == Map::<Seq<char>, Seq<char>>::empty(),
    {
        let r = Replacements { entries: Vec::new() };
        assert(r.pairs() =~= Seq::<(Seq<char>, Seq<char>)>::empty());
        r
    }

    /// The number of keys.
    pub fn len(&self) -> (n: usize)
        ensures
            n == self.view().dom().len(),
    {
        proof {
            use_type_invariant(self);
            self.lemma_dom_len();
        }
        self.entries.len()
    }

    proof fn lemma_dom_len(&self)
        requires
            keys_distinct(self.pairs()),
        ensures
            self.view().dom().len() == self.entries@.len(),
            self.view().dom().finite(),
    {
        lemma_pairs_dom_len(self.pairs());
    }

    /// The value stored under `key`, if any.
    pub fn get(&self, key: &String) -> (res: Option<&String>)
        ensures
            match res {
                Some(v) => self.view().contains_key(key@) && v@ == self.view()[key@],
                None => !self.view().contains_key(key@),
            },
    {
        proof {
            use_type_invariant(self);
        }
        let mut i: usize = 0;
        while i < self.entries.len()
            invariant
                i <= self.entries@.len(),
                keys_distinct(self.pairs()),
                self.pairs().len() == self.entries@.len(),
                forall|j: int| 0 <= j < i ==> self.pairs()[j].0 != key@,
            decreases self.entries@.len() - i,
        {
            assert(self.pairs()[i as int] == (self.entries@[i as int].0@, self.entries@[i as int].1@));
            if self.entries[i].0 == *key {
                assert(self.pairs()[i as int].0 == key@);
                proof {
                    lemma_pairs_to_map(self.pairs());
                }
                assert(self.view()[self.pairs()[i as int].0] == self.pairs()[i as int].1);
                return Some(&self.entries[i].1);
            }
            assert(self.pairs()[i as int].0 != key@);
            i = i + 1;
        }
        proof {
            lemma_pairs_to_map(self.pairs());
        }
        None
    }

    /// Stores `value` under `key`, replacing what was there.
    pub fn insert(&mut self, key: String, value: String)
        ensures
            final(self).view() == old(self).view().insert(key@, value@),
    {
        proof {
            use_type_invariant(&*self);
        }
        let ghost old_pairs = self.pairs();
        let mut i: usize = 0;
        while i < self.entries.len()
            invariant
                i <= self.entries@.len(),
                self.pairs() == old_pairs,
                old_pairs == old(self).pairs(),
                keys_distinct(old_pairs),
                old_pairs.len() == self.entries@.len(),
                forall|j: int| 0 <= j < i ==> old_pairs[j].0 != key@,
            decreases self.entries@.len() - i,
        {
            if self.entries[i].0 == key {
                let ghost k = key@;
                let ghost v = value@;
                let mut entries = Vec::new();
                std::mem::swap(&mut entries, &mut self.entries);
                entries.set(i, (key, value));
                let ghost new_pairs = entries@.map_values(|e: (String, String)| (e.0@, e.1@));
                proof {
                    assert(new_pairs =~= old_pairs.update(i as int, (k, v)));
                    lemma_update_pair(old_pairs, i as int, k, v);
                }
                self.entries = entries;
                assert(self.pairs() == new_pairs);
                return;
            }
            i = i + 1;
        }
        let ghost k = key@;
        let ghost v = value@;
        let mut entries = Vec::new();
        std::mem::swap(&mut entries, &mut self.entries);
        entries.push((key, value));
        let ghost new_pairs = entries@.map_values(|e: (String, String)| (e.0@, e.1@));
        proof {
            assert(new_pairs =~= old_pairs.push((k, v)));
            assert(new_pairs.drop_last() =~= old_pairs);
            assert(keys_distinct(new_pairs));
        }
        self.entries = entries;
        assert(self.pairs() == new_pairs);
    }
}

proof fn lemma_pairs_dom_len(s: Seq<(Seq<char>, Seq<char>)>)
    requires
        keys_distinct(s),
    ensures
        pairs_to_map(s).dom().len() == s.len(),
        pairs_to_map(s).dom().finite(),
    decreases s.len(),
{
    if s.len() > 0 {
        let p = s.drop_last();
        assert(keys_distinct(p));
        lemma_pairs_dom_len(p);
        lemma_pairs_to_map(p);
        assert(!pairs_to_map(p).contains_key(s.last().0)) by {
            if pairs_to_map(p).contains_key(s.last().0) {
                let i = choose|i: int| 0 <= i < p.len() && p[i].0 == s.last().0;
                assert(s[i].0 == s[s.len() - 1].0);
            }
        }
    }
}

/// Overwriting the value of an existing key is an insert into the map.
proof fn lemma_update_pair(s: Seq<(Seq<char>, Seq<char>)>, i: int, k: Seq<char>, v: Seq<char>)
    requires
        keys_distinct(s),
        0 <= i < s.len(),
        s[i].0 == k,
    ensures
        keys_distinct(s.update(i, (k, v))),
        pairs_to_map(s.update(i, (k, v))) == pairs_to_map(s).insert(k, v),
{
    let t = s.update(i, (k, v));
    assert(keys_distinct(t)) by {
        assert forall|a: int, b: int| 0 <= a < t.len() && 0 <= b < t.len() && a != b implies t[a].0
            != t[b].0 by {
            assert(s[a].0 == t[a].0);
            assert(s[b].0 == t[b].0);
        }
    }
    lemma_pairs_to_map(s);
    lemma_pairs_to_map(t);
    assert(pairs_to_map(t) =~= pairs_to_map(s).insert(k, v)) by {
        assert forall|key: Seq<char>| #[trigger] pairs_to_map(t).contains_key(key)
            <==> pairs_to_map(s).insert(k, v).contains_key(key) by {
            if pairs_to_map(t).contains_key(key) {
                let j = choose|j: int| 0 <= j < t.len() && t[j].0 == key;
                assert(s[j].0 == key);
            }
            if pairs_to_map(s).contains_key(key) {
                let j = choose|j: int| 0 <= j < s.len() && s[j].0 == key;
                assert(t[j].0 == key);
            }
            if key == k {
                assert(t[i].0 == key);
            }
        }
        assert forall|key: Seq<char>| #[trigger] pairs_to_map(t).contains_key(key) implies pairs_to_map(
            t,
        )[key] == pairs_to_map(s).insert(k, v)[key] by {
            let j = choose|j: int| 0 <= j < t.len() && t[j].0 == key;
            assert(pairs_to_map(t)[t[j].0] == t[j].1);
            if j != i {
                assert(pairs_to_map(s)[s[j].0] == s[j].1);
            }
        }
    }
}

} // verus!
