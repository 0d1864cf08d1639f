//! Records of the legacy package index: each binary package entry, the
//! source package it came from, its update history and its runtime
//! dependency names.
//!
//! Every record has a mathematical view (`View`/`DeepView`) over which the
//! rest of the crate states its contracts, and a `Clone` that provably
//! preserves that view.

use vstd::prelude::*;

verus! {

/// View of one update-history entry.
pub ghost struct UpdateView {
    pub release: u64,
    pub date: Seq<char>,
    pub version: Seq<char>,
}

/// View of a source-package record.
pub ghost struct SourceView {
    pub name: Seq<char>,
    pub homepage: Option<Seq<char>>,
}

/// View of one binary package entry.
pub ghost struct PackageView {
    pub name: Seq<char>,
    pub summary: Seq<char>,
    pub description: Seq<char>,
    pub part_of: Option<Seq<char>>,
    pub package_uri: Seq<char>,
    pub package_size: u64,
    pub package_hash: Seq<char>,
    pub history: Seq<UpdateView>,
    pub source: SourceView,
    pub licenses: Seq<Seq<char>>,
    pub run_deps: Option<Seq<Seq<char>>>,
}

impl PackageView {
    /// The dependency names of a package: the listed runtime dependencies,
    /// or none when the package declares no dependency block.
    pub open spec fn dep_names(self) -> Seq<Seq<char>> {
        match self.run_deps {
            Some(deps) => deps,
            None => Seq::empty(),
        }
    }
}

/// One entry of a package's update history.
pub struct Update {
    pub release: u64,
    pub date: String,
    pub version: String,
}

impl View for Update {
    type V = UpdateView;

    open spec fn view(&self) -> UpdateView {
        UpdateView { release: self.release, date: self.date@, version: self.version@ }
    }
}

impl DeepView for Update {
    type V = UpdateView;

    open spec fn deep_view(&self) -> UpdateView {
        self.view()
    }
}

impl Clone for Update {
    fn clone(&self) -> (res: Self)
        ensures
            res@ == self@,
    {
        Update { release: self.release, date: self.date.clone(), version: self.version.clone() }
    }
}

/// The update history of a package, newest entry first.
pub struct History {
    pub updates: Vec<Update>,
}

impl View for History {
    type V = Seq<UpdateView>;

    open spec fn view(&self) -> Seq<UpdateView> {
        self.updates.deep_view()
    }
}

impl DeepView for History {
    type V = Seq<UpdateView>;

    open spec fn deep_view(&self) -> Seq<UpdateView> {
        self.view()
    }
}

impl Clone for History {
    fn clone(&self) -> (res: Self)
        ensures
            res@ == self@,
    {
        let updates = self.updates.clone();
        proof {
            assert(updates.deep_view() =~= self.updates.deep_view());
        }
        History { updates }
    }
}

/// One runtime dependency: the name of the required package.
pub struct Dependency {
    pub value: String,
}

impl View for Dependency {
    type V = Seq<char>;

    open spec fn view(&self) -> Seq<char> {
        self.value@
    }
}

impl DeepView for Dependency {
    type V = Seq<char>;

    open spec fn deep_view(&self) -> Seq<char> {
        self.view()
    }
}

impl Clone for Dependency {
    fn clone(&self) -> (res: Self)
        ensures
            res@ == self@,
    {
        Dependency { value: self.value.clone() }
    }
}

/// The runtime dependency block of a package.
pub struct RuntimeDependencies {
    pub deps: Vec<Dependency>,
}

impl View for RuntimeDependencies {
    type V = Seq<Seq<char>>;

    open spec fn view(&self) -> Seq<Seq<char>> {
        self.deps.deep_view()
    }
}

impl DeepView for RuntimeDependencies {
    type V = Seq<Seq<char>>;

    open spec fn deep_view(&self) -> Seq<Seq<char>> {
        self.view()
    }
}

impl Clone for RuntimeDependencies {
    fn clone(&self) -> (res: Self)
        ensures
            res@ == self@,
    {
        let deps = self.deps.clone();
        proof {
            assert(deps.deep_view() =~= self.deps.deep_view());
        }
        RuntimeDependencies { deps }
    }
}

/// The source package a binary package belongs to.
pub struct Source {
    pub name: String,
    pub homepage: Option<String>,
}

impl View for Source {
    type V = SourceView;

    open spec fn view(&self) -> SourceView {
        SourceView { name: self.name@, homepage: self.homepage.deep_view() }
    }
}

impl DeepView for Source {
    type V = SourceView;

    open spec fn deep_view(&self) -> SourceView {
        self.view()
    }
}

impl Clone for Source {
    fn clone(&self) -> (res: Self)
        ensures
            res@ == self@,
    {
        let homepage = match &self.homepage {
            Some(h) => Some(h.clone()),
            None => None,
        };
        Source { name: self.name.clone(), homepage }
    }
}

/// One binary package entry of the index.
pub struct Package {
    pub name: String,
    pub summary: String,
    pub description: String,
    pub part_of: Option<String>,
    pub package_uri: String,
    pub package_size: u64,
    pub package_hash: String,
    pub history: History,
    pub source: Source,
    pub licenses: Vec<String>,
    pub run_deps: Option<RuntimeDependencies>,
}

impl View for Package {
    type V = PackageView;

    open spec fn view(&self) -> PackageView {
        PackageView {
            name: self.name@,
            summary: self.summary@,
            description: self.description@,
            part_of: self.part_of.deep_view(),
            package_uri: self.package_uri@,
            package_size: self.package_size,
            package_hash: self.package_hash@,
            history: self.history@,
            source: self.source@,
            licenses: self.licenses.deep_view(),
            run_deps: self.run_deps.deep_view(),
        }
    }
}

impl DeepView for Package {
    type V = PackageView;

    open spec fn deep_view(&self) -> PackageView {
        self.view()
    }
}

impl Clone for Package {
    fn clone(&self) -> (res: Self)
        ensures
            res@ == self@,
    {
        let part_of = match &self.part_of {
            Some(p) => Some(p.clone()),
            None => None,
        };
        let run_deps = match &self.run_deps {
            Some(d) => Some(d.clone()),
            None => None,
        };
        let licenses = self.licenses.clone();
        proof {
            assert(licenses.deep_view() =~= self.licenses.deep_view());
        }
        Package {
            name: self.name.clone(),
            summary: self.summary.clone(),
            description: self.description.clone(),
            part_of,
            package_uri: self.package_uri.clone(),
            package_size: self.package_size,
            package_hash: self.package_hash.clone(),
            history: self.history.clone(),
            source: self.source.clone(),
            licenses,
            run_deps,
        }
    }
}

/// Names of packages that the distribution has declared obsolete.
pub struct Obsoletes {
    pub packages: Vec<String>,
}

impl View for Obsoletes {
    type V = Seq<Seq<char>>;

    open spec fn view(&self) -> Seq<Seq<char>> {
        self.packages.deep_view()
    }
}

impl DeepView for Obsoletes {
    type V = Seq<Seq<char>>;

    open spec fn deep_view(&self) -> Seq<Seq<char>> {
        self.view()
    }
}

/// View of the distribution header of the index.
pub ghost struct DistroView {
    pub source_name: Seq<char>,
    pub version: Seq<char>,
    pub distro_type: Seq<char>,
    pub obsoletes: Seq<Seq<char>>,
}

/// The distribution header of the index.
pub struct Distro {
    pub source_name: String,
    pub version: String,
    pub distro_type: String,
    pub obsoletes: Obsoletes,
}

impl View for Distro {
    type V = DistroView;

    open spec fn view(&self) -> DistroView {
        DistroView {
            source_name: self.source_name@,
            version: self.version@,
            distro_type: self.distro_type@,
            obsoletes: self.obsoletes@,
        }
    }
}

impl DeepView for Distro {
    type V = DistroView;

    open spec fn deep_view(&self) -> DistroView {
        self.view()
    }
}

/// View of a whole decoded index document.
pub ghost struct IndexView {
    pub distribution: DistroView,
    pub packages: Seq<PackageView>,
}

/// A whole decoded index document: the distribution header and every
/// binary package entry it lists.
pub struct Index {
    pub distribution: Distro,
    pub packages: Vec<Package>,
}

impl View for Index {
    type V = IndexView;

    open spec fn view(&self) -> IndexView {
        IndexView { distribution: self.distribution@, packages: self.packages.deep_view() }
    }
}

impl DeepView for Index {
    type V = IndexView;

    open spec fn deep_view(&self) -> IndexView {
        self.view()
    }
}

} // verus!
