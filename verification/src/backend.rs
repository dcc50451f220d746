//! The package-manager backends: which query is run for which candidate,
//! and what a captured query outcome means for each backend. The
//! processes themselves are run by the caller; this module decides, from
//! the captured outcome alone, whether a query was a hit.

use vstd::prelude::*;

use crate::order::lemma_strictly_sorted_unique;
use crate::order::strictly_sorted;
use crate::normalize::pkg_names_of;
use crate::text::contains_substr;
use crate::text::is_substring;

verus! {

/// One of the supported package managers.
#[derive(Clone, Copy, Debug, PartialEq, Eq, Structural)]
pub enum PackageManager {
    Vcpkg,
    Conan,
    PkgConfig,
}

/// What running one backend query produced: the process may have failed
/// to spawn at all; a process that ran has an exit status and a captured
/// standard output.
#[derive(Clone, Debug, PartialEq, Eq)]
pub enum QueryOutcome {
    SpawnFailed,
    Ran { exit_success: bool, output: String },
}

/// One query of a plan: ask `manager` for `package`.
#[derive(Clone, Debug, PartialEq, Eq)]
pub struct PackageQuery {
    pub manager: PackageManager,
    pub package: String,
}

/// One hit: `package` was reported by `manager`.
#[derive(Clone, Debug, PartialEq, Eq)]
pub struct FoundPackage {
    pub manager: PackageManager,
    pub package: String,
}

/// The five characters of the failure marker Conan prints.
pub open spec fn error_marker() -> Seq<char> {
    seq!['E', 'R', 'R', 'O', 'R']
}

/// The outcome is a hit: the process ran and exited successfully, and
/// the output meets the backend's own criterion — vcpkg's output must
/// hold the candidate name literally, Conan's output must not hold the
/// failure marker, pkg-config's exit status alone decides. A failed
/// spawn is never a hit.
pub open spec fn query_success(m: PackageManager, pkg: Seq<char>, o: QueryOutcome) -> bool {
    match o {
        QueryOutcome::SpawnFailed => false,
        QueryOutcome::Ran { exit_success, output } => exit_success && match m {
            PackageManager::Vcpkg => is_substring(output@, pkg),
            PackageManager::Conan => !is_substring(output@, error_marker()),
            PackageManager::PkgConfig => true,
        },
    }
}

/// Whether the captured outcome of one backend query reports the
/// package, by the backend's own success criterion.
pub fn check_manager_for_pkg(manager: PackageManager, pkg_name: &String, outcome: &QueryOutcome)
    -> (r: bool)
    ensures
        r == query_success(manager, pkg_name@, *outcome),
{
    match outcome {
        QueryOutcome::SpawnFailed => false,
        QueryOutcome::Ran { exit_success, output } => {
            if !*exit_success {
                return false;
            }
            match manager {
                PackageManager::Vcpkg => contains_substr(output.as_str(), pkg_name.as_str()),
                PackageManager::Conan => {
                    proof {
                        reveal_strlit("ERROR");
                        assert("ERROR"@ =~= error_marker());
                    }
                    !contains_substr(output.as_str(), "ERROR")
                },
                PackageManager::PkgConfig => true,
            }
        },
    }
}

/// `a <= b` keeps the order under multiplication by a nonnegative `p`.
proof fn lemma_mul_le(a: int, b: int, p: int)
    requires
        a <= b,
        0 <= p,
    ensures
        a * p <= b * p,
{
    assert(a * p <= b * p) by (nonlinear_arith)
        requires
            a <= b,
            0 <= p,
    ;
}

/// Multiplication distributes over the successor.
proof fn lemma_mul_succ(a: int, p: int)
    ensures
        (a + 1) * p == a * p + p,
{
    assert((a + 1) * p == a * p + p) by (nonlinear_arith);
}

/// Every manager of the list paired with every package: managers in list
/// order and, within one manager, packages in list order — the exact
/// order in which the queries are to be run. A manager that is not in
/// `managers` stands in no query of the plan.
pub fn plan_queries(managers: &Vec<PackageManager>, packages: &Vec<String>) -> (r: Vec<
    PackageQuery,
>)
    ensures
        r@.len() == managers@.len() * packages@.len(),
        forall|i: int, j: int|
            0 <= i < managers@.len() && 0 <= j < packages@.len() ==> {
                &&& (#[trigger] r@[i * packages@.len() + j]).manager == managers@[i]
                &&& r@[i * packages@.len() + j].package@ == packages@[j]@
            },
        forall|k: int| 0 <= k < r@.len() ==> managers@.contains(#[trigger] r@[k].manager),
{
    let m = managers.len();
    let p = packages.len();
    let mut r: Vec<PackageQuery> = Vec::new();
    let mut i: usize = 0;
    while i < m
        invariant
            0 <= i <= m,
            m == managers@.len(),
            p == packages@.len(),
            r@.len() == i * p,
            forall|i2: int, j2: int|
                0 <= i2 < i && 0 <= j2 < p ==> {
                    &&& (#[trigger] r@[i2 * p + j2]).manager == managers@[i2]
                    &&& r@[i2 * p + j2].package@ == packages@[j2]@
                },
            forall|k: int| 0 <= k < r@.len() ==> managers@.contains(#[trigger] r@[k].manager),
        decreases m - i,
    {
        let mut j: usize = 0;
        while j < p
            invariant
                0 <= i < m,
                0 <= j <= p,
                m == managers@.len(),
                p == packages@.len(),
                r@.len() == i * p + j,
                forall|i2: int, j2: int|
                    0 <= i2 < i && 0 <= j2 < p ==> {
                        &&& (#[trigger] r@[i2 * p + j2]).manager == managers@[i2]
                        &&& r@[i2 * p + j2].package@ == packages@[j2]@
                    },
                forall|j2: int|
                    0 <= j2 < j ==> {
                        &&& (#[trigger] r@[i * p + j2]).manager == managers@[i as int]
                        &&& r@[i * p + j2].package@ == packages@[j2]@
                    },
                forall|k: int| 0 <= k < r@.len() ==> managers@.contains(#[trigger] r@[k].manager),
            decreases p - j,
        {
            let q = PackageQuery { manager: managers[i], package: packages[j].clone() };
            r.push(q);
            proof {
                assert forall|i2: int, j2: int| 0 <= i2 < i && 0 <= j2 < p implies #[trigger] (i2
                    * p + j2) < i * p + j by {
                    lemma_mul_succ(i2, p as int);
                    lemma_mul_le(i2 + 1, i as int, p as int);
                }
                assert(managers@.contains(managers@[i as int]));
            }
            j = j + 1;
        }
        proof {
            lemma_mul_succ(i as int, p as int);
        }
        i = i + 1;
    }
    r
}

/// The hits of a query plan, given the outcome of each query, in plan
/// order: query `k` is a hit exactly when its outcome satisfies
/// `query_success`; a hit is recorded for every backend that reports
/// the package, not only the first.
pub open spec fn spec_found(plan: Seq<PackageQuery>, outs: Seq<QueryOutcome>) -> Seq<FoundPackage>
    decreases plan.len(),
{
    if plan.len() == 0 || outs.len() == 0 {
        Seq::empty()
    } else {
        let rest = spec_found(plan.drop_first(), outs.drop_first());
        if query_success(plan[0].manager, plan[0].package@, outs[0]) {
            seq![FoundPackage { manager: plan[0].manager, package: plan[0].package }] + rest
        } else {
            rest
        }
    }
}

/// Runs a hit decision for every query of the plan against its captured
/// outcome, collecting the hits in plan order.
pub fn find_packages(plan: &Vec<PackageQuery>, outcomes: &Vec<QueryOutcome>) -> (r: Vec<
    FoundPackage,
>)
    requires
        plan@.len() == outcomes@.len(),
    ensures
        r@ == spec_found(plan@, outcomes@),
{
    let n = plan.len();
    let mut r: Vec<FoundPackage> = Vec::new();
    let mut k: usize = 0;
    proof {
        assert(plan@.skip(0) =~= plan@);
        assert(outcomes@.skip(0) =~= outcomes@);
        assert(r@ + spec_found(plan@, outcomes@) =~= spec_found(plan@, outcomes@));
    }
    while k < n
        invariant
            0 <= k <= n,
            n == plan@.len(),
            n == outcomes@.len(),
            spec_found(plan@, outcomes@) == r@ + spec_found(
                plan@.skip(k as int),
                outcomes@.skip(k as int),
            ),
        decreases n - k,
    {
        proof {
            assert(plan@.skip(k as int).drop_first() =~= plan@.skip(k + 1));
            assert(outcomes@.skip(k as int).drop_first() =~= outcomes@.skip(k + 1));
            assert(plan@.skip(k as int)[0] == plan@[k as int]);
            assert(outcomes@.skip(k as int)[0] == outcomes@[k as int]);
        }
        let ghost pre = r@;
        let q = &plan[k];
        if check_manager_for_pkg(q.manager, &q.package, &outcomes[k]) {
            let hit = FoundPackage { manager: q.manager, package: q.package.clone() };
            r.push(hit);
            proof {
                let f = FoundPackage {
                    manager: plan@[k as int].manager,
                    package: plan@[k as int].package,
                };
                assert(r@ =~= pre.push(f));
                assert(pre + (seq![f] + spec_found(plan@.skip(k + 1), outcomes@.skip(k + 1)))
                    =~= pre.push(f) + spec_found(plan@.skip(k + 1), outcomes@.skip(k + 1)));
            }
        }
        k = k + 1;
    }
    proof {
        assert(plan@.skip(n as int) =~= Seq::<PackageQuery>::empty());
        assert(r@ + spec_found(plan@.skip(n as int), outcomes@.skip(n as int)) =~= r@);
    }
    r
}

/// Some hit attributes the package name.
pub open spec fn attributed(found: Seq<FoundPackage>, pkg: Seq<char>) -> bool {
    exists|i: int| 0 <= i < found.len() && found[i].package@ == pkg
}

/// The package names of `packages`, in order, that no hit attributes.
pub open spec fn spec_not_found(found: Seq<FoundPackage>, packages: Seq<Seq<char>>) -> Seq<
    Seq<char>,
>
    decreases packages.len(),
{
    if packages.len() == 0 {
        Seq::empty()
    } else {
        let rest = spec_not_found(found, packages.drop_last());
        if attributed(found, packages.last()) {
            rest
        } else {
            rest.push(packages.last())
        }
    }
}

/// Members of the not-found list: exactly the packages that no hit
/// attributes.
pub proof fn lemma_not_found_members(found: Seq<FoundPackage>, packages: Seq<Seq<char>>)
    ensures
        forall|t: Seq<char>|
            spec_not_found(found, packages).contains(t) <==> (packages.contains(t) && !attributed(
                found,
                t,
            )),
    decreases packages.len(),
{
    if packages.len() > 0 {
        lemma_not_found_members(found, packages.drop_last());
        let rest = spec_not_found(found, packages.drop_last());
        let last = packages.last();
        assert forall|t: Seq<char>| packages.contains(t) implies (packages.drop_last().contains(t)
            || t == last) by {
            let k = choose|k: int| 0 <= k < packages.len() && packages[k] == t;
            if k < packages.len() - 1 {
                assert(packages.drop_last()[k] == t);
            }
        }
        assert forall|t: Seq<char>| packages.drop_last().contains(t) implies packages.contains(
            t,
        ) by {
            let k = choose|k: int|
                0 <= k < packages.drop_last().len() && packages.drop_last()[k] == t;
            assert(packages[k] == t);
        }
        assert(packages.contains(last));
        if !attributed(found, last) {
            assert(rest.push(last) =~= rest.insert(rest.len() as int, last));
            crate::order::lemma_insert_contains(rest, rest.len() as int, last);
        }
    }
}

/// Each candidate stands in exactly one side of the partition: a package
/// of the candidate list is attributed by a hit exactly when it is not
/// among the not-found names.
pub proof fn lemma_partition(found: Seq<FoundPackage>, packages: Seq<Seq<char>>, pkg: Seq<char>)
    requires
        packages.contains(pkg),
    ensures
        attributed(found, pkg) <==> !spec_not_found(found, packages).contains(pkg),
{
    lemma_not_found_members(found, packages);
}

/// A package of `packages` that no hit attributes.
fn is_attributed(found: &Vec<FoundPackage>, pkg: &String) -> (r: bool)
    ensures
        r == attributed(found@, pkg@),
{
    let n = found.len();
    let mut k: usize = 0;
    while k < n
        invariant
            0 <= k <= n,
            n == found@.len(),
            forall|m: int| 0 <= m < k ==> found@[m].package@ != pkg@,
        decreases n - k,
    {
        if found[k].package == *pkg {
            return true;
        }
        k = k + 1;
    }
    false
}

/// The package names of `packages`, in order, that no hit of `found`
/// attributes.
pub fn not_found_packages(found: &Vec<FoundPackage>, packages: &Vec<String>) -> (r: Vec<String>)
    ensures
        r.deep_view() == spec_not_found(found@, packages.deep_view()),
        forall|t: Seq<char>|
            r.deep_view().contains(t) <==> (packages.deep_view().contains(t) && !attributed(
                found@,
                t,
            )),
{
    let ghost pdv = packages.deep_view();
    let mut r: Vec<String> = Vec::new();
    let n = packages.len();
    let mut i: usize = 0;
    proof {
        assert(pdv.take(0) =~= Seq::<Seq<char>>::empty());
        assert(r.deep_view() =~= spec_not_found(found@, pdv.take(0)));
    }
    while i < n
        invariant
            0 <= i <= n,
            n == packages@.len(),
            pdv == packages.deep_view(),
            r.deep_view() =~= spec_not_found(found@, pdv.take(i as int)),
        decreases n - i,
    {
        let ghost pre = r.deep_view();
        proof {
            assert(pdv[i as int] == packages@[i as int]@);
            assert(pdv.take(i + 1).drop_last() =~= pdv.take(i as int));
            assert(pdv.take(i + 1).last() == pdv[i as int]);
        }
        if !is_attributed(found, &packages[i]) {
            r.push(packages[i].clone());
            proof {
                assert(r.deep_view() =~= pre.push(pdv[i as int]));
            }
        }
        i = i + 1;
    }
    proof {
        assert(pdv.take(n as int) =~= pdv);
        lemma_not_found_members(found@, pdv);
    }
    r
}

/// A backend whose process never spawns yields no hit: when every
/// outcome is a failed spawn, the hit list is empty, whatever the plan
/// asked.
pub proof fn lemma_spawn_failures_find_nothing(plan: Seq<PackageQuery>, outs: Seq<QueryOutcome>)
    requires
        forall|k: int| 0 <= k < outs.len() ==> outs[k] is SpawnFailed,
    ensures
        spec_found(plan, outs).len() == 0,
    decreases plan.len(),
{
    if plan.len() > 0 && outs.len() > 0 {
        assert(outs[0] is SpawnFailed);
        assert forall|k: int| 0 <= k < outs.drop_first().len() implies outs.drop_first()[k]
            is SpawnFailed by {
            assert(outs.drop_first()[k] == outs[k + 1]);
        }
        lemma_spawn_failures_find_nothing(plan.drop_first(), outs.drop_first());
    }
}

/// Idempotence of the pipeline: every stage is a function of the scanned
/// texts, the known-header table, the local filenames and the captured
/// query outcomes alone. The candidate stage's contract characterizes
/// its result as the strictly sorted list of the derived names, and that
/// characterization determines the list: two candidate lists computed
/// from the same tokens are equal, and with them the found/not-found
/// partition of any one set of hits.
pub proof fn lemma_resolution_idempotent(
    tokens: Seq<Seq<char>>,
    c1: Seq<Seq<char>>,
    c2: Seq<Seq<char>>,
    found: Seq<FoundPackage>,
)
    requires
        strictly_sorted(c1),
        strictly_sorted(c2),
        forall|t: Seq<char>| c1.contains(t) <==> pkg_names_of(tokens).contains(t),
        forall|t: Seq<char>| c2.contains(t) <==> pkg_names_of(tokens).contains(t),
    ensures
        c1 == c2,
        spec_not_found(found, c1) == spec_not_found(found, c2),
{
    lemma_strictly_sorted_unique(c1, c2);
}

} // verus!
