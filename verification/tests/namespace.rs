//! Launch paths and dependency requests.

use blueos_loader::application::namespace::{
    resolve_dependency_paths, ApplicationNamespace, DependencyKind, ResolveBase,
};
use blueos_loader::dynamic_linker::artifact::LinkDomainId;
use blueos_loader::identity::{ElfType, LoadProfile};

fn namespace(pwd: &str, input: &str) -> Option<ApplicationNamespace> {
    ApplicationNamespace::from_launch_path(
        input,
        pwd,
        LoadProfile::arm_thumb_soft_float(ElfType::Dyn),
        LinkDomainId::new(1),
    )
}

#[test]
fn absolute_launch_path_is_normalized_as_is() {
    let ns = namespace("/apps", "/apps/multi/app.elf").expect("namespace");
    assert_eq!(ns.root_path(), "/apps/multi/app.elf");
    assert_eq!(ns.application_root(), "/apps/multi");
    assert_eq!(ns.private_lib_dir(), "/apps/multi/lib");
}

#[test]
fn relative_launch_path_resolves_against_pwd() {
    let ns = namespace("/apps/hello", "app.elf").expect("namespace");
    assert_eq!(ns.root_path(), "/apps/hello/app.elf");
    let ns = namespace("/", "apps/hello/app.elf").expect("namespace");
    assert_eq!(ns.root_path(), "/apps/hello/app.elf");
}

#[test]
fn dotdot_components_normalize() {
    let ns = namespace("/apps/multi", "./lib/../app.elf").expect("namespace");
    assert_eq!(ns.root_path(), "/apps/multi/app.elf");
}

#[test]
fn root_launch_has_root_application_dir() {
    let ns = namespace("/", "/app.elf").expect("namespace");
    assert_eq!(ns.application_root(), "/");
    assert_eq!(ns.private_lib_dir(), "/lib");
}

#[test]
fn empty_input_is_rejected() {
    assert!(namespace("/apps", "").is_none());
}

#[test]
fn the_root_directory_is_no_launch_target() {
    assert!(namespace("/apps", "/").is_none());
    assert!(namespace("/apps", "..").is_none());
    assert!(namespace("apps", "app.elf").is_none());
}

#[test]
fn a_namespace_keeps_its_policy() {
    let ns = namespace("/apps", "app.elf").expect("namespace");
    assert_eq!(ns.launch_pwd(), "/apps");
    assert_eq!(ns.system_domain(), LinkDomainId::new(1));
    assert_eq!(ns.profile(), LoadProfile::arm_thumb_soft_float(ElfType::Dyn));
}

#[test]
fn dependency_kind_classification() {
    assert_eq!(
        DependencyKind::classify("/vendor/lib/libfoo.so"),
        DependencyKind::Absolute
    );
    assert_eq!(
        DependencyKind::classify("./lib/libfoo.so"),
        DependencyKind::Relative
    );
    assert_eq!(
        DependencyKind::classify("../shared/libbar.so"),
        DependencyKind::Relative
    );
    assert_eq!(
        DependencyKind::classify("plugins/libcodec.so"),
        DependencyKind::Relative
    );
    assert_eq!(
        DependencyKind::classify("libfoo.so.1"),
        DependencyKind::PlainName
    );
    assert_eq!(DependencyKind::classify(""), DependencyKind::PlainName);
}

#[test]
fn absolute_dependency_resolves_to_exact_path() {
    let ns = namespace("/apps", "/apps/multi/app.elf").expect("namespace");
    let paths = resolve_dependency_paths(
        &ns,
        ResolveBase::RequesterDirectory("/apps/multi"),
        "/system/lib/libc.so.1",
    );
    assert_eq!(paths, vec![String::from("/system/lib/libc.so.1")]);
}

#[test]
fn relative_dependency_resolves_against_requester_directory() {
    let ns = namespace("/apps/foo", "/apps/foo/app.elf").expect("namespace");
    let paths = resolve_dependency_paths(
        &ns,
        ResolveBase::RequesterDirectory("/apps/foo"),
        "./lib/libfoo.so",
    );
    assert_eq!(paths, vec![String::from("/apps/foo/lib/libfoo.so")]);
    let paths = resolve_dependency_paths(
        &ns,
        ResolveBase::RequesterDirectory("/apps/foo/lib"),
        "./libbar.so",
    );
    assert_eq!(paths, vec![String::from("/apps/foo/lib/libbar.so")]);
}

#[test]
fn plain_name_dependency_resolves_to_private_lib_first() {
    let ns = namespace("/apps/foo", "/apps/foo/app.elf").expect("namespace");
    let paths = resolve_dependency_paths(
        &ns,
        ResolveBase::RequesterDirectory("/apps/foo"),
        "libfoo.so.1",
    );
    assert_eq!(paths, vec![String::from("/apps/foo/lib/libfoo.so.1")]);
}

#[test]
fn escaping_relative_dependency_clamps_to_root() {
    let ns = namespace("/apps/foo", "/apps/foo/app.elf").expect("namespace");
    let paths = resolve_dependency_paths(
        &ns,
        ResolveBase::RequesterDirectory("/"),
        "../../../etc/passwd",
    );
    assert_eq!(paths, vec![String::from("/etc/passwd")]);
}

#[test]
fn empty_dependency_request_resolves_to_nothing() {
    let ns = namespace("/apps/foo", "/apps/foo/app.elf").expect("namespace");
    let paths = resolve_dependency_paths(&ns, ResolveBase::RequesterDirectory("/apps/foo"), "");
    assert!(paths.is_empty());
}

#[test]
fn a_working_directory_is_a_base_too() {
    let ns = namespace("/apps/foo", "/apps/foo/app.elf").expect("namespace");
    let paths = resolve_dependency_paths(
        &ns,
        ResolveBase::CurrentWorkingDirectory("/srv"),
        "plug/./a//b.so",
    );
    assert_eq!(paths, vec![String::from("/srv/plug/a/b.so")]);
    let none = resolve_dependency_paths(&ns, ResolveBase::CurrentWorkingDirectory("srv"), "./b.so");
    assert!(none.is_empty());
}

#[test]
fn normalized_paths_stay_as_they_are() {
    let once = blueos_loader::application::path::normalize_path("//a/./b/../c/").expect("path");
    assert_eq!(once, "/a/c");
    let twice = blueos_loader::application::path::normalize_path(&once).expect("path");
    assert_eq!(twice, once);
    assert!(blueos_loader::application::path::normalize_path("a/b").is_none());
    assert!(blueos_loader::application::path::normalize_path("").is_none());
}
