//! A registry held in memory, and whole resolutions against it.
//!
//! Against a registry on the network the caller drives a `Resolver` itself
//! and answers its requests. Where everything that the registry would say is
//! at hand, the functions of this file do that.

use vstd::prelude::*;
use crate::dependency::clone_dependencies;
use crate::dependency::keys_of;
use crate::dependency::Dependency;
use crate::dependency::DependencyKey;
use crate::error::Failure;
use crate::error::RegistryProblem;
use crate::error::ResolveError;
use crate::graph::has_cycle;
use crate::matcher::chosen_version;
use crate::matcher::match_version;
use crate::matcher::texts_of;
use crate::resolver::install_order;
use crate::resolver::respects_edges;
use crate::resolver::Progress;
use crate::resolver::Resolver;
use crate::state::FrameView;
use crate::state::ResolverState;

verus! {

/// One published version of a package, and what it declares.
#[derive(Debug)]
pub struct Release {
    pub version: String,
    pub dependencies: Vec<Dependency>,
}

/// A package with its published versions, in the order in which the registry
/// lists them.
#[derive(Debug)]
pub struct Package {
    pub name: String,
    pub releases: Vec<Release>,
}

/// A release as specifications see it.
pub struct ReleaseView {
    pub version: Seq<char>,
    pub dependencies: Seq<DependencyKey>,
}

/// A package as specifications see it.
pub struct PackageView {
    pub name: Seq<char>,
    pub releases: Seq<ReleaseView>,
}

impl View for Release {
    type V = ReleaseView;

    open spec fn view(&self) -> ReleaseView {
        ReleaseView { version: self.version@, dependencies: keys_of(self.dependencies@) }
    }
}

impl View for Package {
    type V = PackageView;

    open spec fn view(&self) -> PackageView {
        PackageView {
            name: self.name@,
            releases: Seq::new(self.releases@.len(), |i: int| self.releases@[i]@),
        }
    }
}

/// A list of packages as specifications see it.
pub open spec fn catalog_view(packages: Seq<Package>) -> Seq<PackageView> {
    Seq::new(packages.len(), |i: int| packages[i]@)
}

/// The versions of a package, in the order of its releases.
pub open spec fn versions_of(package: PackageView) -> Seq<Seq<char>> {
    Seq::new(package.releases.len(), |i: int| package.releases[i].version)
}

/// The place of the first package of this name at or after `from`.
pub open spec fn place_from(catalog: Seq<PackageView>, name: Seq<char>, from: int) -> Option<int>
    decreases catalog.len() - from,
{
    if from < 0 || from >= catalog.len() {
        None
    } else if catalog[from].name == name {
        Some(from)
    } else {
        place_from(catalog, name, from + 1)
    }
}

/// What the package chosen for a dependency declares: the dependencies of
/// the release that is chosen among those of the first package of that name.
/// A package that the catalog lacks is a failure to fetch.
pub open spec fn declared_for(
    catalog: Seq<PackageView>,
    dependency: DependencyKey,
) -> Result<Seq<DependencyKey>, Failure> {
    match place_from(catalog, dependency.0, 0) {
        None => Err(Failure::RegistryFetch { problem: RegistryProblem::Transport }),
        Some(place) => match chosen_version(dependency, versions_of(catalog[place])) {
            Ok(at) => Ok(catalog[place].releases[at].dependencies),
            Err(failure) => Err(failure),
        },
    }
}

/// What is left to do on a stack: for each frame one step for each
/// dependency that waits, and one to take the frame away.
pub open spec fn work(stack: Seq<FrameView>) -> nat
    decreases stack.len(),
{
    if stack.len() == 0 {
        0
    } else {
        work(stack.drop_last()) + stack.last().pending.len() + 1
    }
}

/// A step that asks for nothing leaves less to do.
pub proof fn lemma_step_works(s: ResolverState)
    requires
        !s.awaiting,
        s.stack.len() > 0,
        s.request() is None,
    ensures
        work(s.step().stack) < work(s.stack),
        s.step().ids == s.ids,
        !s.step().awaiting,
{
    let t = s.step();
    if s.stack.last().pending.len() > 0 {
        assert(t.stack.drop_last() =~= s.stack.drop_last());
    }
}

/// The state in which a resolution ends when each request is answered from
/// the catalog, or the failure that ends it before.
pub open spec fn resolved(s: ResolverState, catalog: Seq<PackageView>) -> Result<
    ResolverState,
    Failure,
>
    decreases u64::MAX + 1 - s.ids.len(), work(s.stack),
    when s.ids.len() <= u64::MAX
    via resolved_decreases
{
    if s.awaiting || s.stack.len() == 0 {
        Ok(s)
    } else {
        match s.request() {
            None => resolved(s.step(), catalog),
            Some(dependency) => match declared_for(catalog, dependency) {
                Err(failure) => Err(failure),
                Ok(declared) => resolved(s.step().supply(declared), catalog),
            },
        }
    }
}

#[via_fn]
proof fn resolved_decreases(s: ResolverState, catalog: Seq<PackageView>) {
    if !s.awaiting && s.stack.len() > 0 {
        if s.request() is None {
            lemma_step_works(s);
        }
    }
}

/// The state in which a walk ends when each request is answered from the
/// catalog: the finished state, or the state that waits for the dependency
/// of which the catalog cannot tell.
pub open spec fn walked(s: ResolverState, catalog: Seq<PackageView>) -> ResolverState
    decreases u64::MAX + 1 - s.ids.len(), work(s.stack),
    when s.ids.len() <= u64::MAX
    via walked_decreases
{
    if s.awaiting || s.stack.len() == 0 {
        s
    } else {
        match s.request() {
            None => walked(s.step(), catalog),
            Some(dependency) => match declared_for(catalog, dependency) {
                Err(_) => s.step(),
                Ok(declared) => walked(s.step().supply(declared), catalog),
            },
        }
    }
}

#[via_fn]
proof fn walked_decreases(s: ResolverState, catalog: Seq<PackageView>) {
    if !s.awaiting && s.stack.len() > 0 {
        if s.request() is None {
            lemma_step_works(s);
        }
    }
}

/// The outcome of a whole resolution against a catalog: the install order
/// of the state in which it ends.
pub open spec fn resolution(
    root: DependencyKey,
    declared: Seq<DependencyKey>,
    catalog: Seq<PackageView>,
) -> Result<Seq<DependencyKey>, Failure> {
    match resolved(ResolverState::start(root, declared), catalog) {
        Ok(state) => install_order(state),
        Err(failure) => Err(failure),
    }
}

/// Whether what the state holds as declared by the package of each identity
/// but the root is what the catalog says of it.
pub open spec fn answered_from(s: ResolverState, catalog: Seq<PackageView>) -> bool {
    forall|k: int|
        #![trigger s.declared[k]]
        1 <= k < s.declared.len() ==> declared_for(catalog, s.ids[k]) == Ok::<
            Seq<DependencyKey>,
            Failure,
        >(s.declared[k])
}

/// What the package chosen for a dependency declares, by a catalog.
pub fn lookup_declared(catalog: &Vec<Package>, dependency: &Dependency) -> (result: Result<
    Vec<Dependency>,
    ResolveError,
>)
    ensures
        match result {
            Ok(list) => declared_for(catalog_view(catalog@), dependency@) == Ok::<
                Seq<DependencyKey>,
                Failure,
            >(keys_of(list@)),
            Err(error) => declared_for(catalog_view(catalog@), dependency@) == Err::<
                Seq<DependencyKey>,
                Failure,
            >(error@),
        },
{
    let ghost views = catalog_view(catalog@);
    let mut i: usize = 0;
    while i < catalog.len()
        invariant
            i <= catalog.len(),
            views == catalog_view(catalog@),
            place_from(views, dependency@.0, 0) == place_from(views, dependency@.0, i as int),
        decreases catalog.len() - i,
    {
        let package = &catalog[i];
        assert(views[i as int] == package@);
        if package.name == dependency.name {
            let mut versions: Vec<String> = Vec::new();
            let mut k: usize = 0;
            while k < package.releases.len()
                invariant
                    k <= package.releases.len(),
                    versions.len() == k,
                    forall|j: int|
                        0 <= j < k ==> (#[trigger] versions[j])@ == package.releases[j].version@,
                decreases package.releases.len() - k,
            {
                versions.push(package.releases[k].version.clone());
                k += 1;
            }
            assert(texts_of(versions@) =~= versions_of(package@));
            return match match_version(dependency, &versions) {
                Ok(at) => Ok(clone_dependencies(&package.releases[at].dependencies)),
                Err(error) => Err(error),
            };
        }
        i += 1;
    }
    Err(ResolveError::RegistryFetch { problem: RegistryProblem::Transport })
}

/// Lets a resolver walk to the end, and answers each of its requests from a
/// catalog.
pub fn calculate_depends_rec(resolver: &mut Resolver, catalog: &Vec<Package>) -> (result: Result<
    (),
    ResolveError,
>)
    requires
        old(resolver).wf(),
        !old(resolver)@.awaiting,
    ensures
        final(resolver).wf(),
        final(resolver)@ == walked(old(resolver)@, catalog_view(catalog@)),
        old(resolver)@.ids.is_prefix_of(final(resolver)@.ids),
        old(resolver)@.declared.is_prefix_of(final(resolver)@.declared),
        answered_from(old(resolver)@, catalog_view(catalog@)) ==> answered_from(
            final(resolver)@,
            catalog_view(catalog@),
        ),
        match result {
            Ok(_) => resolved(old(resolver)@, catalog_view(catalog@)) == Ok::<
                ResolverState,
                Failure,
            >(final(resolver)@) && final(resolver)@.is_complete(),
            Err(error) => {
                &&& resolved(old(resolver)@, catalog_view(catalog@)) == Err::<
                    ResolverState,
                    Failure,
                >(error@)
                &&& final(resolver)@.awaiting
                &&& declared_for(catalog_view(catalog@), final(resolver)@.ids.last()) == Err::<
                    Seq<DependencyKey>,
                    Failure,
                >(error@)
            },
        },
{
    let ghost start = resolver@;
    let ghost views = catalog_view(catalog@);
    loop
        invariant
            resolver.wf(),
            !resolver@.awaiting,
            start == old(resolver)@,
            views == catalog_view(catalog@),
            start.ids.is_prefix_of(resolver@.ids),
            start.declared.is_prefix_of(resolver@.declared),
            answered_from(start, views) ==> answered_from(resolver@, views),
            resolved(start, views) == resolved(resolver@, views),
            walked(start, views) == walked(resolver@, views),
        decreases u64::MAX + 1 - resolver@.ids.len(), work(resolver@.stack),
    {
        let ghost before = resolver@;
        proof {
            resolver.lemma_state_wf();
        }
        match resolver.step() {
            Progress::Finished => {
                return Ok(());
            },
            Progress::Linked(_) => {
                proof {
                    lemma_step_works(before);
                }
            },
            Progress::Unwound => {
                proof {
                    lemma_step_works(before);
                }
            },
            Progress::Request(dependency) => {
                proof {
                    resolver.lemma_state_wf();
                    assert(start.ids =~= resolver@.ids.subrange(0, start.ids.len() as int));
                }
                match lookup_declared(catalog, &dependency) {
                    Err(error) => {
                        return Err(error);
                    },
                    Ok(declared) => {
                        resolver.supply(declared);
                        proof {
                            assert(start.declared =~= resolver@.declared.subrange(
                                0,
                                start.declared.len() as int,
                            ));
                            if answered_from(before, views) {
                                assert forall|k: int|
                                    #![trigger resolver@.declared[k]]
                                    1 <= k < resolver@.declared.len() implies declared_for(
                                    views,
                                    resolver@.ids[k],
                                ) == Ok::<Seq<DependencyKey>, Failure>(resolver@.declared[k]) by {
                                    if k < before.declared.len() {
                                        assert(resolver@.declared[k] == before.declared[k]);
                                        assert(resolver@.ids[k] == before.ids[k]);
                                    } else {
                                        assert(resolver@.ids[k] == dependency@);
                                    }
                                }
                            }
                        }
                    },
                }
            },
        }
    }
}

/// Resolves everything that `root_pkg` needs, by a catalog, and puts it in
/// an order for installing: each dependency before the packages that
/// declared it, and the root last.
pub fn calculate_depends(root_pkg: &Dependency, deps: &Vec<Dependency>, catalog: &Vec<Package>) -> (result:
    Result<Vec<Dependency>, ResolveError>)
    ensures
        match result {
            Ok(list) => {
                &&& resolution(root_pkg@, keys_of(deps@), catalog_view(catalog@)) == Ok::<
                    Seq<DependencyKey>,
                    Failure,
                >(keys_of(list@))
                &&& resolved(
                    ResolverState::start(root_pkg@, keys_of(deps@)),
                    catalog_view(catalog@),
                ) matches Ok(state) && respects_edges(state, keys_of(list@)) && !has_cycle(
                    state.edges,
                ) && state.wf() && state.is_complete() && state.ids[0] == root_pkg@
                    && state.declared[0] == keys_of(deps@) && answered_from(
                    state,
                    catalog_view(catalog@),
                )
                &&& keys_of(list@).last() == root_pkg@
            },
            Err(error) => {
                &&& resolution(root_pkg@, keys_of(deps@), catalog_view(catalog@)) == Err::<
                    Seq<DependencyKey>,
                    Failure,
                >(error@)
                &&& resolved(
                    ResolverState::start(root_pkg@, keys_of(deps@)),
                    catalog_view(catalog@),
                ) matches Ok(state) ==> error is CyclicDependency && has_cycle(state.edges)
                    && state.wf() && state.is_complete() && state.ids[0] == root_pkg@
                    && state.declared[0] == keys_of(deps@) && answered_from(
                    state,
                    catalog_view(catalog@),
                )
            },
        },
{
    let mut resolver = Resolver::new(root_pkg, deps);
    match calculate_depends_rec(&mut resolver, catalog) {
        Err(error) => Err(error),
        Ok(_) => {
            proof {
                resolver.lemma_state_wf();
                let start = ResolverState::start(root_pkg@, keys_of(deps@));
                let state = resolver@;
                assert(state.ids.subrange(0, start.ids.len() as int)[0] == state.ids[0]);
                assert(state.declared.subrange(0, start.declared.len() as int)[0]
                    == state.declared[0]);
                assert(start.ids[0] == root_pkg@);
                assert(start.declared[0] == keys_of(deps@));
            }
            resolver.finish()
        },
    }
}

} // verus!
