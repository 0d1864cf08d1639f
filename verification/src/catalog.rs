//! The package catalog: a lookup from package name to package record,
//! built once from the decoded index and read-only afterwards.

use vstd::prelude::*;
use vstd::pervasive::VecAdditionalExecFns;
use crate::eopkg::index::{Package, PackageView};

verus! {

/// The in-memory catalog. Entries are kept in first-insertion order and
/// names are unique; inserting a name again replaces its record, so the
/// record kept for a name is the last one supplied for it.
pub struct Catalog {
    packages: Vec<Package>,
}

/// The catalog an entry sequence folds to: earlier entries in order,
/// a repeated name replaced in place by its later record.
pub open spec fn catalog_of(s: Seq<PackageView>) -> Seq<PackageView>
    decreases s.len(),
{
    if s.len() == 0 {
        Seq::empty()
    } else {
        let rest = catalog_of(s.drop_last());
        let p = s.last();
        if exists|i: int| 0 <= i < rest.len() && rest[i].name == p.name {
            rest.update(choose|i: int| 0 <= i < rest.len() && rest[i].name == p.name, p)
        } else {
            rest.push(p)
        }
    }
}

impl Catalog {
    /// The catalog's entries, in order, as views.
    pub closed spec fn entries(self) -> Seq<PackageView> {
        self.packages.deep_view()
    }

    /// Well-formedness: entry names are pairwise distinct.
    pub open spec fn wf(self) -> bool {
        forall|i: int, j: int|
            0 <= i < j < self.entries().len() ==> self.entries()[i].name != self.entries()[j].name
    }

    /// Whether some entry carries this name.
    pub open spec fn contains_name(self, n: Seq<char>) -> bool {
        exists|i: int| 0 <= i < self.entries().len() && self.entries()[i].name == n
    }

    /// The position of the entry with this name.
    pub open spec fn index_of(self, n: Seq<char>) -> int {
        choose|i: int| 0 <= i < self.entries().len() && self.entries()[i].name == n
    }

    /// The record kept for this name.
    pub open spec fn record(self, n: Seq<char>) -> PackageView {
        self.entries()[self.index_of(n)]
    }

    /// In a well-formed catalog, every entry that carries a name is the
    /// record kept for that name.
    pub proof fn lemma_record_at(self, i: int)
        requires
            self.wf(),
            0 <= i < self.entries().len(),
        ensures
            self.contains_name(self.entries()[i].name),
            self.record(self.entries()[i].name) == self.entries()[i],
            self.index_of(self.entries()[i].name) == i,
    {
        let n = self.entries()[i].name;
        assert(self.contains_name(n));
        let j = self.index_of(n);
        assert(0 <= j < self.entries().len() && self.entries()[j].name == n);
        if i < j {
            assert(self.entries()[i].name != self.entries()[j].name);
        } else if j < i {
            assert(self.entries()[j].name != self.entries()[i].name);
        }
    }

    /// An empty catalog.
    pub fn new() -> (r: Catalog)
        ensures
            r.entries() == Seq::<PackageView>::empty(),
            r.wf(),
    {
        let r = Catalog { packages: Vec::new() };
        proof {
            assert(r.entries() =~= Seq::<PackageView>::empty());
        }
        r
    }

    /// How many entries the catalog holds.
    pub fn len(&self) -> (n: usize)
        ensures
            n == self.entries().len(),
    {
        self.packages.len()
    }

    /// The position of the entry with this name, if any.
    fn find_name(&self, name: &String) -> (r: Option<usize>)
        ensures
            match r {
                Some(i) => i < self.entries().len() && self.entries()[i as int].name == name@,
                None => !self.contains_name(name@),
            },
    {
        let n = self.packages.len();
        for i in 0..n
            invariant
                n == self.entries().len(),
                forall|j: int| 0 <= j < i ==> self.entries()[j].name != name@,
        {
            assert(self.entries()[i as int] == self.packages.deep_view()[i as int]);
            if self.packages[i].name == *name {
                return Some(i);
            }
        }
        None
    }

    /// Insert one record: a new name is appended, a known name has its
    /// record replaced in place.
    pub fn insert(&mut self, p: Package)
        requires
            old(self).wf(),
        ensures
            final(self).wf(),
            old(self).contains_name(p@.name) ==> final(self).entries() == old(
                self,
            ).entries().update(old(self).index_of(p@.name), p@),
            !old(self).contains_name(p@.name) ==> final(self).entries() == old(
                self,
            ).entries().push(p@),
    {
        let ghost pre = old(self).entries();
        match self.find_name(&p.name) {
            Some(i) => {
                proof {
                    old(self).lemma_record_at(i as int);
                }
                self.packages.set(i, p);
                proof {
                    assert(self.entries() =~= pre.update(i as int, p@));
                    assert forall|a: int, b: int|
                        0 <= a < b < self.entries().len() implies self.entries()[a].name
                        != self.entries()[b].name by {
                        assert(pre[a].name != pre[b].name);
                    }
                }
            },
            None => {
                self.packages.push(p);
                proof {
                    assert(self.entries() =~= pre.push(p@));
                    assert forall|a: int, b: int|
                        0 <= a < b < self.entries().len() implies self.entries()[a].name
                        != self.entries()[b].name by {
                        if b < pre.len() {
                            assert(pre[a].name != pre[b].name);
                        } else {
                            assert(self.entries()[b] == p@);
                            assert(pre[a].name != p@.name);
                        }
                    }
                }
            },
        }
    }

    /// Build a catalog from a list of package records, in order; a repeated
    /// name keeps the later record, in the earlier record's place.
    pub fn from_packages(packages: Vec<Package>) -> (r: Catalog)
        ensures
            r.wf(),
            r.entries() == catalog_of(packages.deep_view()),
    {
        let mut r = Catalog::new();
        let mut rest = packages;
        let n = rest.len();
        let ghost all = rest.deep_view();
        let mut it: usize = 0;
        proof {
            assert(all.skip(0) =~= all);
            assert(catalog_of(all.take(0)) =~= Seq::<PackageView>::empty());
        }
        while it < n
            invariant
                it <= n,
                n == all.len(),
                rest@.len() + it == n,
                rest.deep_view() == all.skip(it as int),
                r.wf(),
                r.entries() == catalog_of(all.take(it as int)),
            decreases n - it,
        {
            let ghost rpre = r;
            let ghost rest0 = rest;
            let p = rest.remove(0);
            proof {
                assert(rest@ == rest0@.remove(0));
                assert(p.deep_view() == rest0.deep_view()[0]);
                assert(rest0.deep_view()[0] == all.skip(it as int)[0]);
                assert forall|i: int|
                    0 <= i < rest.deep_view().len() implies rest.deep_view()[i] == all.skip(
                    it as int + 1,
                )[i] by {
                    assert(rest@[i] == rest0@[i + 1]);
                    assert(rest.deep_view()[i] == rest@[i].deep_view());
                    assert(rest0.deep_view()[i + 1] == rest0@[i + 1].deep_view());
                    assert(rest0.deep_view()[i + 1] == all.skip(it as int)[i + 1]);
                }
                assert(rest.deep_view() =~= all.skip(it as int + 1));
                assert(p@ == all[it as int]);
            }
            r.insert(p);
            proof {
                let t = all.take(it as int + 1);
                assert(t.drop_last() =~= all.take(it as int));
                assert(t.last() == all[it as int]);
                let prev = catalog_of(t.drop_last());
                assert(prev == rpre.entries());
                if rpre.contains_name(p@.name) {
                    let c = choose|i: int| 0 <= i < prev.len() && prev[i].name == t.last().name;
                    assert(0 <= c < prev.len() && prev[c].name == p@.name);
                    let k = rpre.index_of(p@.name);
                    assert(0 <= k < prev.len() && prev[k].name == p@.name);
                    if c < k {
                        assert(prev[c].name != prev[k].name);
                    } else if k < c {
                        assert(prev[k].name != prev[c].name);
                    }
                    assert(c == k);
                    assert(catalog_of(t) == prev.update(c, t.last()));
                    assert(r.entries() == catalog_of(t));
                } else {
                    assert(!(exists|i: int| 0 <= i < prev.len() && prev[i].name == t.last().name));
                    assert(catalog_of(t) == prev.push(t.last()));
                    assert(r.entries() == catalog_of(t));
                }
            }
            it = it + 1;
        }
        proof {
            assert(all.take(n as int) =~= all);
        }
        r
    }

    /// Look a name up: the kept record, or nothing when the name is absent.
    pub fn get(&self, name: &String) -> (r: Option<&Package>)
        requires
            self.wf(),
        ensures
            match r {
                Some(p) => self.contains_name(name@) && p@ == self.record(name@),
                None => !self.contains_name(name@),
            },
    {
        match self.find_name(name) {
            Some(i) => {
                proof {
                    self.lemma_record_at(i as int);
                }
                Some(&self.packages[i])
            },
            None => None,
        }
    }
}

/// Whether a package belongs to one of the named components.
pub open spec fn in_parts(p: PackageView, parts: Seq<Seq<char>>) -> bool {
    match p.part_of {
        Some(c) => parts.contains(c),
        None => false,
    }
}

/// The names of the entries that belong to one of the named components,
/// in catalog order.
pub open spec fn selected_names(entries: Seq<PackageView>, parts: Seq<Seq<char>>) -> Seq<
    Seq<char>,
> {
    entries.filter(|p: PackageView| in_parts(p, parts)).map_values(|p: PackageView| p.name)
}

/// Whether a string list contains this string.
fn contains_str(v: &Vec<String>, s: &String) -> (r: bool)
    ensures
        r == v.deep_view().contains(s@),
{
    let n = v.len();
    for i in 0..n
        invariant
            n == v.deep_view().len(),
            forall|j: int| 0 <= j < i ==> v.deep_view()[j] != s@,
    {
        assert(v.deep_view()[i as int] == v@[i as int]@);
        if v[i] == *s {
            return true;
        }
    }
    proof {
        if v.deep_view().contains(s@) {
            let k = choose|k: int| 0 <= k < v.deep_view().len() && v.deep_view()[k] == s@;
            assert(v.deep_view()[k] != s@);
        }
    }
    false
}

/// The bootstrap name list: the names of the catalog entries that belong
/// to one of the named components, in catalog order, followed by the extra
/// names as given.
#[verifier::loop_isolation(false)]
pub fn select_bootstrap(catalog: &Catalog, parts: &Vec<String>, extras: &Vec<String>) -> (r: Vec<
    String,
>)
    ensures
        r.deep_view() == selected_names(catalog.entries(), parts.deep_view())
            + extras.deep_view(),
{
    let mut r: Vec<String> = Vec::new();
    let n = catalog.len();
    let mut i: usize = 0;
    proof {
        assert(catalog.entries().take(0) =~= Seq::<PackageView>::empty());
        crate::grouping::lemma_filter_none(
            catalog.entries().take(0),
            |p: PackageView| in_parts(p, parts.deep_view()),
        );
        assert(r.deep_view() =~= selected_names(
            catalog.entries().take(0),
            parts.deep_view(),
        ));
    }
    while i < n
        invariant
            i <= n,
            r.deep_view() == selected_names(catalog.entries().take(i as int), parts.deep_view()),
        decreases n - i,
    {
        let p = &catalog.packages[i];
        let ghost pre = catalog.entries().take(i as int);
        let ghost post = catalog.entries().take(i as int + 1);
        let ghost r0 = r.deep_view();
        proof {
            assert(p@ == catalog.entries()[i as int]);
            assert(post.drop_last() =~= pre);
            assert(post =~= pre.push(p@));
            crate::grouping::lemma_filter_push(
                pre,
                |pp: PackageView| in_parts(pp, parts.deep_view()),
                p@,
            );
        }
        let keep = match &p.part_of {
            Some(c) => contains_str(parts, c),
            None => false,
        };
        if keep {
            r.push(p.name.clone());
            proof {
                assert(in_parts(p@, parts.deep_view()));
                assert(r.deep_view() =~= r0.push(p@.name));
                assert(r.deep_view() =~= selected_names(post, parts.deep_view()));
            }
        } else {
            proof {
                assert(!in_parts(p@, parts.deep_view()));
                assert(r.deep_view() =~= selected_names(post, parts.deep_view()));
            }
        }
        i = i + 1;
    }
    proof {
        assert(catalog.entries().take(n as int) =~= catalog.entries());
    }
    let ghost base = r.deep_view();
    let m = extras.len();
    let mut k: usize = 0;
    while k < m
        invariant
            k <= m,
            r.deep_view() == base + extras.deep_view().take(k as int),
        decreases m - k,
    {
        let ghost r0 = r.deep_view();
        r.push(extras[k].clone());
        proof {
            assert(extras.deep_view()[k as int] == extras@[k as int]@);
            assert(r.deep_view() =~= r0.push(extras.deep_view()[k as int]));
            assert(base + extras.deep_view().take(k as int + 1) =~= r0.push(
                extras.deep_view()[k as int],
            ));
        }
        k = k + 1;
    }
    proof {
        assert(extras.deep_view().take(m as int) =~= extras.deep_view());
        assert(r.deep_view() =~= selected_names(catalog.entries(), parts.deep_view())
            + extras.deep_view());
    }
    r
}

} // verus!
