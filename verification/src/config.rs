//! The configuration: a read-only mapping from source name to repository,
//! resolved once before the caches start and never changed afterwards.

use vstd::prelude::*;

use crate::repo::Repo;

verus! {

/// The configured sources, in configuration order.
pub struct Config {
    pub entries: Vec<(String, Repo)>,
}

/// The repository under the first entry of the given name, if any.
pub open spec fn lookup_spec(entries: Seq<(String, Repo)>, k: Seq<char>) -> Option<Repo>
    decreases entries.len(),
{
    if entries.len() == 0 {
        None
    } else if entries[0].0@ == k {
        Some(entries[0].1)
    } else {
        lookup_spec(entries.drop_first(), k)
    }
}

impl Config {
    /// A source of the given name is configured.
    pub open spec fn contains_name(&self, k: Seq<char>) -> bool {
        exists|i: int| 0 <= i < self.entries@.len() && (#[trigger] self.entries@[i].0)@ == k
    }

    /// The whole mapping, for the renewal cycle to walk.
    pub fn get(&self) -> (r: &Vec<(String, Repo)>)
        ensures
            r == &self.entries,
    {
        &self.entries
    }

    /// The repository configured under the given source name, if any: always
    /// the first entry of that name, so repeated lookups resolve the same
    /// repository.
    pub fn retrieve(&self, key: &str) -> (r: Option<&Repo>)
        ensures
            match r {
                Some(rep) => lookup_spec(self.entries@, key@) == Some(*rep)
                    && self.contains_name(key@),
                None => !self.contains_name(key@),
            },
    {
        let k = key.to_owned();
        let mut i: usize = 0;
        proof {
            assert(self.entries@.skip(0) =~= self.entries@);
        }
        while i < self.entries.len()
            invariant
                i <= self.entries@.len(),
                k@ == key@,
                forall|j: int| 0 <= j < i ==> (#[trigger] self.entries@[j].0)@ != key@,
                lookup_spec(self.entries@, key@) == lookup_spec(
                    self.entries@.skip(i as int),
                    key@,
                ),
            decreases self.entries@.len() - i,
        {
            proof {
                assert(self.entries@.skip(i as int)[0] == self.entries@[i as int]);
                assert(self.entries@.skip(i as int).drop_first() =~= self.entries@.skip(i + 1));
            }
            if self.entries[i].0 == k {
                return Some(&self.entries[i].1);
            }
            i = i + 1;
        }
        proof {
            assert(self.entries@.skip(self.entries@.len() as int) =~= Seq::<(
                String,
                Repo,
            )>::empty());
        }
        None
    }
}

} // verus!
