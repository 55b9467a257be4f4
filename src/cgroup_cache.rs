use vstd::prelude::*;
use std::collections::HashMap;

verus! {

broadcast use vstd::std_specs::hash::group_hash_axioms;

/// Cgroup directory names by inode number, for one cgroup root. Lookups
/// that miss are answered after the caller re-reads the root and hands the
/// listing to `refresh`.
#[derive(Debug)]
pub struct CgroupCache {
    root: String,
    cache: HashMap<u64, String>,
}

/// `m` with every `(inode, name)` of `entries` inserted in order.
pub open spec fn with_entries(m: Map<u64, String>, entries: Seq<(u64, String)>) -> Map<u64, String>
    decreases entries.len(),
{
    if entries.len() == 0 {
        m
    } else {
        with_entries(m, entries.drop_last()).insert(entries.last().0, entries.last().1)
    }
}

impl CgroupCache {
    pub closed spec fn entries(self) -> Map<u64, String> {
        self.cache@
    }

    pub closed spec fn root_view(self) -> Seq<char> {
        self.root@
    }

    pub fn new(root: String) -> (r: Self)
        ensures
            r.entries() == Map::<u64, String>::empty(),
            r.root_view() == root@,
    {
        CgroupCache { root, cache: HashMap::new() }
    }

    /// The directory that is read on a miss.
    pub fn root(&self) -> (r: &String)
        ensures
            r@ == self.root_view(),
    {
        &self.root
    }

    /// The cached name of inode `ino`.
    pub fn get(&self, ino: u64) -> (r: Option<String>)
        ensures
            r is Some <==> self.entries().contains_key(ino),
            r is Some ==> r->Some_0 == self.entries()[ino],
    {
        match self.cache.get(&ino) {
            Some(path) => Some(path.clone()),
            None => None,
        }
    }

    /// Takes in a fresh listing of the root: later entries win, and names
    /// of inodes not listed stay.
    pub fn refresh(&mut self, listing: Vec<(u64, String)>)
        ensures
            final(self).entries() == with_entries(old(self).entries(), listing@),
            final(self).root_view() == old(self).root_view(),
    {
        let mut i: usize = 0;
        while i < listing.len()
            invariant
                i <= listing@.len(),
                self.root@ == old(self).root@,
                self.cache@ == with_entries(old(self).cache@, listing@.subrange(0, i as int)),
            decreases listing@.len() - i,
        {
            let ino = listing[i].0;
            let name = listing[i].1.clone();
            self.cache.insert(ino, name);
            proof {
                let s = listing@.subrange(0, i + 1);
                assert(s.drop_last() =~= listing@.subrange(0, i as int));
            }
            i = i + 1;
        }
        proof {
            assert(listing@.subrange(0, listing@.len() as int) =~= listing@);
        }
    }
}

} // verus!
