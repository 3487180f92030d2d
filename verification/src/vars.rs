//! The table of makefile variables.
use vstd::prelude::*;
use crate::assoc::{
    lemma_seq_to_map_dom, lemma_seq_to_map_remove, lemma_seq_to_map_update, lemma_seq_to_map_value, lemma_unique_push, seq_to_map,
    unique_keys,
};

verus! {

broadcast use vstd::string::group_string_axioms;

/// Name and value pairs as plain values.
pub open spec fn pair_views(v: Seq<(String, String)>) -> Seq<(Seq<char>, Seq<char>)> {
    v.map_values(|p: (String, String)| (p.0@, p.1@))
}

/// Variables and their values; setting a variable again replaces its value.
pub struct VarTable {
    entries: Vec<(String, String)>,
}

impl VarTable {
    /// The pairs of the table as plain values.
    pub closed spec fn pairs(&self) -> Seq<(Seq<char>, Seq<char>)> {
        self.entries@.map_values(|e: (String, String)| (e.0@, e.1@))
    }

    /// No variable is stored twice.
    pub closed spec fn wf(&self) -> bool {
        unique_keys(self.pairs())
    }

    /// An empty table.
    pub fn new() -> (t: Self)
        ensures
            t.wf(),
            t@ == Map::<Seq<char>, Seq<char>>::empty(),
    {
        let t = VarTable { entries: Vec::new() };
        assert(t.pairs() =~= Seq::<(Seq<char>, Seq<char>)>::empty());
        t
    }

    fn find(&self, name: &String) -> (r: Option<usize>)
        requires
            self.wf(),
        ensures
            match r {
                Some(i) => i < self.entries.len() && self.entries@[i as int].0@ == name@,
                None => !self@.contains_key(name@),
            },
    {
        proof {
            lemma_seq_to_map_dom(self.pairs());
        }
        let mut i: usize = 0;
        while i < self.entries.len()
            invariant
                i <= self.entries.len(),
                forall|j: int| 0 <= j < i ==> self.entries@[j].0@ != name@,
            decreases self.entries.len() - i,
        {
            if self.entries[i].0 == *name {
                return Some(i);
            }
            i = i + 1;
        }
        proof {
            assert forall|j: int| 0 <= j < self.pairs().len() implies self.pairs()[j].0 != name@ by {
                assert(self.pairs()[j].0 == self.entries@[j].0@);
            }
        }
        None
    }

    /// Sets `name` to `value`, replacing an earlier value.
    pub fn insert(&mut self, name: String, value: String)
        requires
            old(self).wf(),
        ensures
            final(self).wf(),
            final(self)@ == old(self)@.insert(name@, value@),
    {
        let ghost p = (name@, value@);
        match self.find(&name) {
            Some(i) => {
                proof {
                    lemma_seq_to_map_update(self.pairs(), i as int, p);
                }
                self.entries.set(i, (name, value));
                assert(self.pairs() =~= old(self).pairs().update(i as int, p));
            },
            None => {
                proof {
                    lemma_seq_to_map_dom(self.pairs());
                    assert forall|j: int| 0 <= j < self.pairs().len() implies self.pairs()[j].0 != p.0 by {
                        if self.pairs()[j].0 == p.0 {
                            assert(self@.contains_key(p.0));
                        }
                    }
                    lemma_unique_push(self.pairs(), p);
                }
                self.entries.push((name, value));
                assert(self.pairs() =~= old(self).pairs().push(p));
            },
        }
    }

    /// A table holds finitely many variables.
    pub proof fn lemma_finite(&self)
        ensures
            self@.dom().finite(),
    {
        lemma_seq_to_map_dom(self.pairs());
    }

    /// Unsets `name`.
    pub fn remove(&mut self, name: &str)
        requires
            old(self).wf(),
        ensures
            final(self).wf(),
            final(self)@ == old(self)@.remove(name@),
    {
        let key = name.to_string();
        match self.find(&key) {
            Some(i) => {
                proof {
                    lemma_seq_to_map_remove(self.pairs(), i as int);
                }
                let ghost before = self.pairs();
                self.entries.remove(i);
                assert(self.pairs() =~= before.remove(i as int));
            },
            None => {
                assert(self@ =~= old(self)@.remove(name@));
            },
        }
    }

    /// A separate table with the same variables.
    pub fn copied(&self) -> (t: Self)
        requires
            self.wf(),
        ensures
            t.wf(),
            t@ == self@,
    {
        let mut entries: Vec<(String, String)> = Vec::new();
        let mut k: usize = 0;
        while k < self.entries.len()
            invariant
                k <= self.entries.len(),
                entries@.map_values(|e: (String, String)| (e.0@, e.1@)) == self.pairs().take(k as int),
            decreases self.entries.len() - k,
        {
            let name = self.entries[k].0.clone();
            let value = self.entries[k].1.clone();
            let ghost before = entries@;
            entries.push((name, value));
            assert(entries@.map_values(|e: (String, String)| (e.0@, e.1@)) =~= before.map_values(
                |e: (String, String)| (e.0@, e.1@),
            ).push(self.pairs()[k as int]));
            assert(self.pairs().take(k + 1) == self.pairs().take(k as int).push(self.pairs()[k as int]));
            k = k + 1;
        }
        let t = VarTable { entries };
        assert(self.pairs().take(self.entries.len() as int) == self.pairs());
        assert(t.pairs() == self.pairs());
        t
    }

    /// The variables and their values, each name once.
    pub fn pairs_list(&self) -> (r: Vec<(String, String)>)
        requires
            self.wf(),
        ensures
            unique_keys(pair_views(r@)),
            seq_to_map(pair_views(r@)) == self@,
    {
        let mut entries: Vec<(String, String)> = Vec::new();
        let mut k: usize = 0;
        while k < self.entries.len()
            invariant
                k <= self.entries.len(),
                pair_views(entries@) == self.pairs().take(k as int),
            decreases self.entries.len() - k,
        {
            let name = self.entries[k].0.clone();
            let value = self.entries[k].1.clone();
            let ghost before = entries@;
            entries.push((name, value));
            assert(pair_views(entries@) =~= pair_views(before).push(self.pairs()[k as int]));
            assert(self.pairs().take(k + 1) == self.pairs().take(k as int).push(self.pairs()[k as int]));
            k = k + 1;
        }
        assert(self.pairs().take(self.entries.len() as int) == self.pairs());
        entries
    }

    /// The value of `name`, if it is set.
    pub fn get(&self, name: &str) -> (r: Option<&String>)
        requires
            self.wf(),
        ensures
            match r {
                Some(v) => self@.contains_key(name@) && v@ == self@[name@],
                None => !self@.contains_key(name@),
            },
    {
        let key = name.to_string();
        match self.find(&key) {
            Some(i) => {
                proof {
                    lemma_seq_to_map_value(self.pairs(), i as int);
                }
                Some(&self.entries[i].1)
            },
            None => None,
        }
    }
}

impl View for VarTable {
    type V = Map<Seq<char>, Seq<char>>;

    closed spec fn view(&self) -> Map<Seq<char>, Seq<char>> {
        seq_to_map(self.pairs())
    }
}

} // verus!
