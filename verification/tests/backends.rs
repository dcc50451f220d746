//! Tests of the backend abstraction: per-backend success criteria, the
//! query plan, hit collection and the found/not-found partition.

use cdeps::backend::{
    check_manager_for_pkg, find_packages, not_found_packages, plan_queries, FoundPackage,
    PackageManager, QueryOutcome,
};
use cdeps::extract::get_includes;
use cdeps::filter::remove_local_files_from_includes;
use cdeps::normalize::extract_names_from_headers;

fn strings(items: &[&str]) -> Vec<String> {
    items.iter().map(|s| s.to_string()).collect()
}

fn ran(exit_success: bool, output: &str) -> QueryOutcome {
    QueryOutcome::Ran { exit_success, output: output.to_string() }
}

#[test]
fn vcpkg_hit_needs_name_in_output() {
    let pkg = "fmt".to_string();
    assert!(check_manager_for_pkg(PackageManager::Vcpkg, &pkg, &ran(true, "fmt 10.1 a library")));
    assert!(!check_manager_for_pkg(PackageManager::Vcpkg, &pkg, &ran(true, "no such package")));
    assert!(!check_manager_for_pkg(PackageManager::Vcpkg, &pkg, &ran(false, "fmt 10.1")));
}

#[test]
fn conan_hit_needs_clean_output() {
    let pkg = "fmt".to_string();
    assert!(check_manager_for_pkg(PackageManager::Conan, &pkg, &ran(true, "fmt/10.1.1")));
    assert!(!check_manager_for_pkg(
        PackageManager::Conan,
        &pkg,
        &ran(true, "ERROR: no remote configured")
    ));
    assert!(!check_manager_for_pkg(PackageManager::Conan, &pkg, &ran(false, "fmt/10.1.1")));
}

#[test]
fn pkg_config_hit_is_exit_status_alone() {
    let pkg = "zlib".to_string();
    assert!(check_manager_for_pkg(PackageManager::PkgConfig, &pkg, &ran(true, "")));
    assert!(!check_manager_for_pkg(PackageManager::PkgConfig, &pkg, &ran(false, "-I/usr")));
}

#[test]
fn failed_spawn_is_never_a_hit() {
    let pkg = "fmt".to_string();
    for manager in [PackageManager::Vcpkg, PackageManager::Conan, PackageManager::PkgConfig] {
        assert!(!check_manager_for_pkg(manager, &pkg, &QueryOutcome::SpawnFailed));
    }
}

#[test]
fn plan_pairs_every_manager_with_every_package_in_order() {
    let managers = vec![PackageManager::Vcpkg, PackageManager::Conan];
    let packages = strings(&["fmt", "zlib"]);
    let plan = plan_queries(&managers, &packages);
    assert_eq!(plan.len(), 4);
    let shape: Vec<(PackageManager, &str)> =
        plan.iter().map(|q| (q.manager, q.package.as_str())).collect();
    assert_eq!(
        shape,
        vec![
            (PackageManager::Vcpkg, "fmt"),
            (PackageManager::Vcpkg, "zlib"),
            (PackageManager::Conan, "fmt"),
            (PackageManager::Conan, "zlib"),
        ]
    );
}

#[test]
fn uninstalled_managers_are_never_planned() {
    // The primary pass plans queries for the installed managers only: an
    // empty installed list yields an empty plan, whatever the candidates.
    let managers: Vec<PackageManager> = vec![];
    let packages = strings(&["fmt", "zlib"]);
    assert!(plan_queries(&managers, &packages).is_empty());
    let plan = plan_queries(&vec![PackageManager::Conan], &packages);
    assert!(plan.iter().all(|q| q.manager == PackageManager::Conan));
}

#[test]
fn always_failing_backend_finds_nothing() {
    let managers = vec![PackageManager::Vcpkg, PackageManager::Conan, PackageManager::PkgConfig];
    let packages = strings(&["fmt", "zlib"]);
    let plan = plan_queries(&managers, &packages);
    let outcomes: Vec<QueryOutcome> = plan.iter().map(|_| QueryOutcome::SpawnFailed).collect();
    let found = find_packages(&plan, &outcomes);
    assert!(found.is_empty());
    let missing = not_found_packages(&found, &packages);
    assert_eq!(missing, packages);
}

#[test]
fn every_reporting_backend_is_attributed() {
    let managers = vec![PackageManager::Vcpkg, PackageManager::PkgConfig];
    let packages = strings(&["fmt", "zlib"]);
    let plan = plan_queries(&managers, &packages);
    // vcpkg reports fmt only; pkg-config reports both.
    let outcomes = vec![
        ran(true, "fmt 10.1"),
        ran(true, "nothing here"),
        ran(true, ""),
        ran(true, ""),
    ];
    let found = find_packages(&plan, &outcomes);
    assert_eq!(
        found,
        vec![
            FoundPackage { manager: PackageManager::Vcpkg, package: "fmt".to_string() },
            FoundPackage { manager: PackageManager::PkgConfig, package: "fmt".to_string() },
            FoundPackage { manager: PackageManager::PkgConfig, package: "zlib".to_string() },
        ]
    );
    let missing = not_found_packages(&found, &packages);
    assert!(missing.is_empty());
}

#[test]
fn partition_separates_found_from_not_found() {
    let packages = strings(&["a", "b", "c"]);
    let found = vec![FoundPackage { manager: PackageManager::Conan, package: "b".to_string() }];
    let missing = not_found_packages(&found, &packages);
    assert_eq!(missing, strings(&["a", "c"]));
}

#[test]
fn unmatched_candidate_reports_not_found_end_to_end() {
    // A tree of one file with one external directive, no matching local
    // file, no backend installed, and bootstrap a no-op: the candidate
    // 'fmt' is queried against backends whose processes never spawn, and
    // is reported as not found.
    let files = strings(&["#include <fmt/core.h>\n"]);
    let table = strings(&["stdio.h"]);
    let locals = strings(&["a.c"]);
    let includes = get_includes(&files, &table).unwrap();
    let external = remove_local_files_from_includes(&includes, &locals);
    let candidates = extract_names_from_headers(&external);
    assert_eq!(candidates, strings(&["fmt"]));

    let installed: Vec<PackageManager> = vec![];
    let primary_plan = plan_queries(&installed, &candidates);
    assert!(primary_plan.is_empty());
    let primary_found = find_packages(&primary_plan, &vec![]);

    let missing_managers =
        vec![PackageManager::Vcpkg, PackageManager::Conan, PackageManager::PkgConfig];
    let second_plan = plan_queries(&missing_managers, &candidates);
    let second_outcomes: Vec<QueryOutcome> =
        second_plan.iter().map(|_| QueryOutcome::SpawnFailed).collect();
    let second_found = find_packages(&second_plan, &second_outcomes);

    let mut all_found = primary_found;
    all_found.extend(second_found);
    assert!(all_found.is_empty());
    let missing = not_found_packages(&all_found, &candidates);
    assert_eq!(missing, strings(&["fmt"]));
}
