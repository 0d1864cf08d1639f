//! Grouping of fetched artifacts by their owning source package: one group
//! per distinct source name, groups in first-appearance order, each group
//! holding exactly its own artifacts in input order. The first member of a
//! group is the representative whose descriptive fields recipe assembly
//! reads.

use vstd::prelude::*;
use crate::converter::HashedPackage;

verus! {

/// One source group: the source-package name and, in input order, the
/// fetched artifacts belonging to it.
pub struct SourceGroup {
    pub name: String,
    pub members: Vec<HashedPackage>,
}

/// The distinct source names of an artifact list, in first-appearance
/// order.
pub open spec fn distinct_sources(s: Seq<HashedPackage>) -> Seq<Seq<char>>
    decreases s.len(),
{
    if s.len() == 0 {
        Seq::empty()
    } else {
        let rest = distinct_sources(s.drop_last());
        if rest.contains(s.last().package@.source.name) {
            rest
        } else {
            rest.push(s.last().package@.source.name)
        }
    }
}

/// Filtering after appending one element keeps the old result and appends
/// the element exactly when it matches.
pub proof fn lemma_filter_push<A>(s: Seq<A>, pred: spec_fn(A) -> bool, x: A)
    ensures
        s.push(x).filter(pred) == if pred(x) {
            s.filter(pred).push(x)
        } else {
            s.filter(pred)
        },
{
    reveal(Seq::filter);
    assert(s.push(x).drop_last() =~= s);
    assert(s.push(x).last() == x);
    assert(s.push(x).len() == s.len() + 1);
}

/// Nothing survives a filter that nothing satisfies.
pub proof fn lemma_filter_none<A>(s: Seq<A>, pred: spec_fn(A) -> bool)
    requires
        forall|i: int| 0 <= i < s.len() ==> !pred(#[trigger] s[i]),
    ensures
        s.filter(pred) == Seq::<A>::empty(),
    decreases s.len(),
{
    reveal(Seq::filter);
    if s.len() > 0 {
        assert forall|i: int| 0 <= i < s.drop_last().len() implies !pred(
            #[trigger] s.drop_last()[i],
        ) by {
            assert(s.drop_last()[i] == s[i]);
        }
        lemma_filter_none(s.drop_last(), pred);
        assert(!pred(s.last()));
    }
}

/// Every artifact's source name appears among the distinct sources.
pub proof fn lemma_distinct_sources_covers(s: Seq<HashedPackage>, i: int)
    requires
        0 <= i < s.len(),
    ensures
        distinct_sources(s).contains(s[i].package@.source.name),
    decreases s.len(),
{
    let rest = distinct_sources(s.drop_last());
    if i == s.len() - 1 {
        if rest.contains(s.last().package@.source.name) {
            assert(distinct_sources(s) == rest);
        } else {
            let ds = distinct_sources(s);
            assert(ds[ds.len() - 1] == s.last().package@.source.name);
        }
    } else {
        lemma_distinct_sources_covers(s.drop_last(), i);
        assert(s.drop_last()[i] == s[i]);
        let k = choose|k: int|
            0 <= k < rest.len() && rest[k] == s[i].package@.source.name;
        if rest.contains(s.last().package@.source.name) {
            assert(distinct_sources(s)[k] == s[i].package@.source.name);
        } else {
            assert(distinct_sources(s)[k] == s[i].package@.source.name);
        }
    }
}

/// The position of the group carrying this name, if any.
fn find_group(groups: &Vec<SourceGroup>, name: &String) -> (r: Option<usize>)
    ensures
        match r {
            Some(gi) => gi < groups@.len() && groups@[gi as int].name@ == name@,
            None => forall|gi: int| 0 <= gi < groups@.len() ==> (#[trigger] groups@[gi]).name@ != name@,
        },
{
    let n = groups.len();
    for gi in 0..n
        invariant
            n == groups@.len(),
            forall|j: int| 0 <= j < gi ==> (#[trigger] groups@[j]).name@ != name@,
    {
        if groups[gi].name == *name {
            return Some(gi);
        }
    }
    None
}

/// Partition fetched artifacts by their owning source package. Exactly one
/// group per distinct source name, in first-appearance order; each group
/// holds exactly the input's artifacts of that source, in input order, and
/// is never empty.
#[verifier::loop_isolation(false)]
#[verifier::rlimit(60)]
pub fn group_by_source(artifacts: Vec<HashedPackage>) -> (groups: Vec<SourceGroup>)
    ensures
        groups@.map_values(|g: SourceGroup| g.name@) == distinct_sources(artifacts@),
        forall|g1: int, g2: int|
            0 <= g1 < g2 < groups@.len() ==> groups@[g1].name@ != groups@[g2].name@,
        forall|gi: int|
            0 <= gi < groups@.len() ==> (#[trigger] groups@[gi]).members@ == artifacts@.filter(
                |a: HashedPackage| a.package@.source.name == groups@[gi].name@,
            ),
        forall|gi: int| 0 <= gi < groups@.len() ==> (#[trigger] groups@[gi]).members@.len() > 0,
{
    let mut rest = artifacts;
    let ghost all = rest@;
    let mut groups: Vec<SourceGroup> = Vec::new();
    let n = rest.len();
    let mut i: usize = 0;
    proof {
        assert(all.take(0) =~= Seq::<HashedPackage>::empty());
        assert(groups@.map_values(|g: SourceGroup| g.name@) =~= distinct_sources(all.take(0)));
    }
    while i < n
        invariant
            i <= n,
            n == all.len(),
            rest@ == all.skip(i as int),
            groups@.map_values(|g: SourceGroup| g.name@) == distinct_sources(all.take(i as int)),
            forall|g1: int, g2: int|
                0 <= g1 < g2 < groups@.len() ==> groups@[g1].name@ != groups@[g2].name@,
            forall|gi: int|
                0 <= gi < groups@.len() ==> (#[trigger] groups@[gi]).members@ == all.take(
                    i as int,
                ).filter(|a: HashedPackage| a.package@.source.name == groups@[gi].name@),
            forall|gi: int|
                0 <= gi < groups@.len() ==> (#[trigger] groups@[gi]).members@.len() > 0,
        decreases n - i,
    {
        let a = rest.remove(0);
        let ghost pre = all.take(i as int);
        let ghost post = all.take(i as int + 1);
        let ghost aname = a.package@.source.name;
        let ghost groups0 = groups@;
        proof {
            assert(rest@ =~= all.skip(i as int + 1));
            assert(a == all[i as int]);
            assert(post.drop_last() =~= pre);
            assert(post.last() == all[i as int]);
            assert(post =~= pre.push(a));
        }
        match find_group(&groups, &a.package.source.name) {
            Some(gi) => {
                let mut g = groups.remove(gi);
                g.members.push(a);
                groups.insert(gi, g);
                proof {
                    assert(groups@ =~= groups0.update(
                        gi as int,
                        SourceGroup { name: groups0[gi as int].name, members: g.members },
                    ));
                    assert(groups@[gi as int].name@ == aname);
                    assert(groups@.map_values(|gg: SourceGroup| gg.name@) =~= groups0.map_values(
                        |gg: SourceGroup| gg.name@,
                    ));
                    assert(distinct_sources(pre).contains(aname)) by {
                        assert(groups0.map_values(|gg: SourceGroup| gg.name@)[gi as int] == aname);
                    }
                    assert(distinct_sources(post) == distinct_sources(pre));
                    assert forall|gj: int|
                        0 <= gj < groups@.len() implies (#[trigger] groups@[gj]).members@
                        == post.filter(
                        |x: HashedPackage| x.package@.source.name == groups@[gj].name@,
                    ) by {
                        let p = |x: HashedPackage| x.package@.source.name == groups@[gj].name@;
                        lemma_filter_push(pre, p, a);
                        assert(groups0[gj].members@ == pre.filter(
                            |x: HashedPackage| x.package@.source.name == groups0[gj].name@,
                        ));
                        assert(groups@[gj].name == groups0[gj].name);
                        if gj == gi {
                            assert(p(a));
                            assert(groups@[gj].members@ =~= groups0[gj].members@.push(a));
                        } else {
                            assert(groups@[gj].name@ != aname);
                            assert(!p(a));
                            assert(groups@[gj].members@ == groups0[gj].members@);
                        }
                    }
                }
            },
            None => {
                let name = a.package.source.name.clone();
                let mut members: Vec<HashedPackage> = Vec::new();
                members.push(a);
                groups.push(SourceGroup { name, members });
                proof {
                    let newgi = groups0.len() as int;
                    assert(groups@ =~= groups0.push(groups@[newgi]));
                    assert(groups@[newgi].name@ == aname);
                    assert(groups@[newgi].members@ =~= Seq::<HashedPackage>::empty().push(a));
                    assert(!distinct_sources(pre).contains(aname)) by {
                        if distinct_sources(pre).contains(aname) {
                            let k = choose|k: int|
                                0 <= k < distinct_sources(pre).len() && distinct_sources(pre)[k]
                                    == aname;
                            assert(groups0.map_values(|gg: SourceGroup| gg.name@)[k] == aname);
                            assert(groups0[k].name@ == aname);
                        }
                    }
                    assert(distinct_sources(post) == distinct_sources(pre).push(aname));
                    assert(groups@.map_values(|gg: SourceGroup| gg.name@) =~= distinct_sources(
                        post,
                    ));
                    assert forall|gj: int|
                        0 <= gj < groups@.len() implies (#[trigger] groups@[gj]).members@
                        == post.filter(
                        |x: HashedPackage| x.package@.source.name == groups@[gj].name@,
                    ) by {
                        let p = |x: HashedPackage| x.package@.source.name == groups@[gj].name@;
                        lemma_filter_push(pre, p, a);
                        if gj < groups0.len() {
                            assert(groups@[gj].name == groups0[gj].name);
                            assert(groups0[gj].members@ == pre.filter(
                                |x: HashedPackage| x.package@.source.name == groups0[gj].name@,
                            ));
                            assert(groups@[gj].name@ != aname);
                            assert(!p(a));
                            assert(groups@[gj].members@ == groups0[gj].members@);
                        } else {
                            assert(p(a));
                            assert forall|k: int| 0 <= k < pre.len() implies !p(
                                #[trigger] pre[k],
                            ) by {
                                lemma_distinct_sources_covers(pre, k);
                            }
                            lemma_filter_none(pre, p);
                            assert(groups@[gj].members@ =~= pre.filter(p).push(a));
                        }
                    }
                }
            },
        }
        i = i + 1;
    }
    proof {
        assert(all.take(n as int) =~= all);
    }
    groups
}

} // verus!
