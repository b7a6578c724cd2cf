use vstd::prelude::*;

use crate::package::{Package, PackageView};

verus! {

/// The value of each record in a sequence.
pub open spec fn views_of(v: Seq<Package>) -> Seq<PackageView> {
    v.map_values(|p: Package| p@)
}

/// `s` lists the entries of the catalog `m`: one slot per name, each holding the
/// entry stored under its name, and every stored name has a slot.
pub open spec fn lists_catalog(s: Seq<PackageView>, m: Map<Seq<char>, PackageView>) -> bool {
    &&& forall|i: int, j: int|
        0 <= i < s.len() && 0 <= j < s.len() && i != j ==> s[i].name != s[j].name
    &&& forall|i: int|
        0 <= i < s.len() ==> #[trigger] m.contains_key(s[i].name) && m[s[i].name] == s[i]
    &&& forall|k: Seq<char>|
        #[trigger] m.contains_key(k) ==> exists|i: int| 0 <= i < s.len() && s[i].name == k
}

/// The catalog after inserting the records of `s` into `m`, first to last; a
/// later record replaces an earlier one of the same name.
pub open spec fn insert_all(m: Map<Seq<char>, PackageView>, s: Seq<PackageView>) -> Map<
    Seq<char>,
    PackageView,
>
    decreases s.len(),
{
    if s.len() == 0 {
        m
    } else {
        insert_all(m, s.drop_last()).insert(s.last().name, s.last())
    }
}

/// A catalog of packages keyed by name. Inserting a package whose name is
/// already present replaces the earlier entry.
pub struct Registry {
    entries: Vec<Package>,
    model: Ghost<Map<Seq<char>, PackageView>>,
}

impl View for Registry {
    type V = Map<Seq<char>, PackageView>;

    closed spec fn view(&self) -> Map<Seq<char>, PackageView> {
        self.model@
    }
}

impl Registry {
    /// The stored records, one per name, in storage order.
    pub closed spec fn slots(&self) -> Seq<PackageView> {
        views_of(self.entries@)
    }

    pub open spec fn wf(&self) -> bool {
        lists_catalog(self.slots(), self@)
    }

    pub fn new() -> (r: Registry)
        ensures
            r.wf(),
            r@ == Map::<Seq<char>, PackageView>::empty(),
    {
        let r = Registry { entries: Vec::new(), model: Ghost(Map::empty()) };
        assert(r.slots() =~= Seq::<PackageView>::empty());
        r
    }

    /// Number of stored packages.
    pub fn len(&self) -> (r: usize)
        ensures
            r == self.slots().len(),
    {
        self.entries.len()
    }

    /// The record in slot `i`.
    pub fn entry(&self, i: usize) -> (r: &Package)
        requires
            i < self.slots().len(),
        ensures
            r@ == self.slots()[i as int],
    {
        &self.entries[i]
    }

    /// The slot that holds `name`, if any.
    pub fn find(&self, name: &String) -> (r: Option<usize>)
        requires
            self.wf(),
        ensures
            match r {
                Some(i) => i < self.slots().len() && self.slots()[i as int].name == name@,
                None => !self@.contains_key(name@),
            },
    {
        let mut i: usize = 0;
        while i < self.entries.len()
            invariant
                i <= self.entries@.len(),
                forall|j: int| 0 <= j < i ==> self.slots()[j].name != name@,
            decreases self.entries@.len() - i,
        {
            if self.entries[i].name == *name {
                return Some(i);
            }
            i = i + 1;
        }
        None
    }

    /// The entry stored under `name`; absence is not an error here.
    pub fn lookup(&self, name: &String) -> (r: Option<&Package>)
        requires
            self.wf(),
        ensures
            match r {
                Some(p) => self@.contains_key(name@) && p@ == self@[name@],
                None => !self@.contains_key(name@),
            },
    {
        match self.find(name) {
            Some(i) => Some(&self.entries[i]),
            None => None,
        }
    }

    /// Stores `p` under its name, replacing any entry of that name.
    pub fn insert(&mut self, p: Package)
        requires
            old(self).wf(),
        ensures
            final(self).wf(),
            final(self)@ == old(self)@.insert(p@.name, p@),
    {
        let ghost pv = p@;
        let ghost old_slots = self.slots();
        let ghost mut at: int = 0;
        match self.find(&p.name) {
            Some(i) => {
                self.entries[i] = p;
                assert(self.slots() =~= old_slots.update(i as int, pv));
                proof {
                    at = i as int;
                }
            },
            None => {
                self.entries.push(p);
                assert(self.slots() =~= old_slots.push(pv));
                proof {
                    at = old_slots.len() as int;
                }
            },
        }
        assert(0 <= at < self.slots().len() && self.slots()[at] == pv);
        self.model = Ghost(self.model@.insert(pv.name, pv));
        assert forall|k: Seq<char>| #[trigger] self@.contains_key(k) implies exists|i: int|
            0 <= i < self.slots().len() && self.slots()[i].name == k by {
            if k != pv.name {
                let i = choose|i: int| 0 <= i < old_slots.len() && old_slots[i].name == k;
                assert(self.slots()[i].name == k);
            } else {
                assert(self.slots()[at].name == k);
            }
        }
    }

    /// Inserts each record of `records`, first to last. Every record is
    /// accepted, so nothing is left half-applied.
    pub fn load(&mut self, records: &Vec<Package>)
        requires
            old(self).wf(),
        ensures
            final(self).wf(),
            final(self)@ == insert_all(old(self)@, views_of(records@)),
    {
        let ghost start = self@;
        let ghost all = views_of(records@);
        let mut i: usize = 0;
        while i < records.len()
            invariant
                i <= records@.len(),
                all == views_of(records@),
                self.wf(),
                self@ == insert_all(start, all.subrange(0, i as int)),
            decreases records@.len() - i,
        {
            let p = records[i].duplicate();
            self.insert(p);
            assert(all.subrange(0, i + 1).drop_last() =~= all.subrange(0, i as int));
            i = i + 1;
        }
        assert(all.subrange(0, i as int) =~= all);
    }

    /// Copies of all stored records, one per name, in storage order.
    pub fn save(&self) -> (r: Vec<Package>)
        requires
            self.wf(),
        ensures
            lists_catalog(views_of(r@), self@),
    {
        let mut r: Vec<Package> = Vec::new();
        let mut i: usize = 0;
        while i < self.entries.len()
            invariant
                i <= self.entries@.len(),
                r@.len() == i,
                forall|k: int| 0 <= k < i ==> #[trigger] r@[k]@ == self.slots()[k],
            decreases self.entries@.len() - i,
        {
            r.push(self.entries[i].duplicate());
            i = i + 1;
        }
        assert(views_of(r@) =~= self.slots());
        r
    }
}

/// What an insertion sequence with distinct names builds from nothing: exactly
/// those names, each holding its own record.
proof fn lemma_insert_all_distinct(s: Seq<PackageView>)
    requires
        forall|i: int, j: int|
            0 <= i < s.len() && 0 <= j < s.len() && i != j ==> s[i].name != s[j].name,
    ensures
        forall|i: int|
            0 <= i < s.len() ==> #[trigger] insert_all(Map::empty(), s).contains_key(s[i].name)
                && insert_all(Map::empty(), s)[s[i].name] == s[i],
        forall|k: Seq<char>|
            #[trigger] insert_all(Map::empty(), s).contains_key(k) ==> exists|i: int|
                0 <= i < s.len() && s[i].name == k,
    decreases s.len(),
{
    if s.len() > 0 {
        let t = s.drop_last();
        lemma_insert_all_distinct(t);
        let m = insert_all(Map::empty(), s);
        let mt = insert_all(Map::empty(), t);
        assert(m == mt.insert(s.last().name, s.last()));
        assert forall|i: int| 0 <= i < s.len() implies #[trigger] m.contains_key(s[i].name)
            && m[s[i].name] == s[i] by {
            if i < s.len() - 1 {
                assert(t[i] == s[i]);
                assert(mt.contains_key(t[i].name));
            }
        }
        assert forall|k: Seq<char>| #[trigger] m.contains_key(k) implies exists|i: int|
            0 <= i < s.len() && s[i].name == k by {
            if k != s.last().name {
                assert(mt.contains_key(k));
                let i = choose|i: int| 0 <= i < t.len() && t[i].name == k;
                assert(s[i].name == k);
            } else {
                assert(s[s.len() - 1].name == k);
            }
        }
    }
}

/// Saving a catalog and loading the saved records into an empty registry gives
/// back the same catalog: the same names, each with the same version and
/// dependency list.
pub proof fn lemma_save_load_round_trip(m: Map<Seq<char>, PackageView>, saved: Seq<PackageView>)
    requires
        lists_catalog(saved, m),
    ensures
        insert_all(Map::empty(), saved) == m,
{
    lemma_insert_all_distinct(saved);
    let r = insert_all(Map::empty(), saved);
    assert forall|k: Seq<char>| r.contains_key(k) <==> m.contains_key(k) by {
        if r.contains_key(k) {
            let i = choose|i: int| 0 <= i < saved.len() && saved[i].name == k;
            assert(m.contains_key(saved[i].name));
        }
        if m.contains_key(k) {
            let i = choose|i: int| 0 <= i < saved.len() && saved[i].name == k;
            assert(r.contains_key(saved[i].name));
        }
    }
    assert forall|k: Seq<char>| r.contains_key(k) implies r[k] == m[k] by {
        let i = choose|i: int| 0 <= i < saved.len() && saved[i].name == k;
        assert(r.contains_key(saved[i].name));
        assert(m.contains_key(saved[i].name));
    }
    assert(r =~= m);
}

} // verus!
