use nix_user_chroot::config::{ExcludePaths, Mapping, PathConfig, PolicyError};
use nix_user_chroot::construct::{
    parent_below, plan_mounts, plan_root, strip_root, warn_missing_profile,
};
use nix_user_chroot::chroot::RunChroot;
use nix_user_chroot::host::{Action, Command, Notice, OnFailure};
use nix_user_chroot::mirror::Job;
use nix_user_chroot::mount::DirEntryOrExplicitMount;
use nix_user_chroot::path::HostPath;

fn p(text: &str) -> HostPath {
    HostPath::from_bytes(text.as_bytes())
}

fn mapping(source: &str, target: &str) -> Mapping {
    Mapping { source: p(source), target: p(target) }
}

fn policy(excludes: &[&str], profile: &[(&str, &str)], absolute: &[(&str, &str)]) -> PathConfig {
    let mut set = ExcludePaths::new();
    for e in excludes {
        set.insert(p(e));
    }
    let mut config = PathConfig::new(set);
    for (src, dst) in profile {
        config.add_profile(p(src), p(dst));
    }
    for (src, dst) in absolute {
        config.add_absolute(p(src), p(dst));
    }
    config
}

#[test]
fn excludes_hold_each_path_once() {
    let mut set = ExcludePaths::new();
    assert_eq!(set.len(), 0);
    assert!(set.insert(p("/etc/hostname")));
    assert!(set.insert(p("/etc/hosts")));
    assert!(!set.insert(p("/etc/hostname")));
    assert!(!set.insert(p("/etc//hostname/")));
    assert_eq!(set.len(), 2);
    assert_eq!(set.get(0), &p("/etc/hostname"));
    assert_eq!(set.get(1), &p("/etc/hosts"));
    assert!(set.contains(&p("/etc/hosts")));
    assert!(!set.contains(&p("/etc")));
}

#[test]
fn a_source_is_mapped_once() {
    let mut config = PathConfig::new(ExcludePaths::new());
    config.add_profile(p("bin"), p("/opt/bin"));
    config.add_profile(p("lib"), p("/opt/lib"));
    config.add_profile(p("bin"), p("/usr/local/bin"));
    assert_eq!(
        config.profile(),
        &vec![mapping("bin", "/usr/local/bin"), mapping("lib", "/opt/lib")]
    );
    assert_eq!(config.absolute(), &vec![]);
    config.add_absolute(p("/a"), p("/x"));
    config.add_absolute(p("/a"), p("/y"));
    config.add_absolute(p("/b"), p("/y"));
    assert_eq!(config.absolute(), &vec![mapping("/a", "/y"), mapping("/b", "/y")]);
    assert_eq!(config.excludes().len(), 0);
    assert_eq!(mapping("/a", "/y").clone(), mapping("/a", "/y"));
}

#[test]
fn a_policy_is_copied_whole() {
    let config = policy(&["/etc/hostname"], &[("bin", "/opt/bin")], &[("/a", "/b")]);
    let copy = config.clone();
    assert_eq!(copy.excludes().len(), 1);
    assert_eq!(copy.excludes().get(0), &p("/etc/hostname"));
    assert_eq!(copy.profile(), config.profile());
    assert_eq!(copy.absolute(), config.absolute());
    assert_eq!(config.excludes().clone().len(), 1);
}

#[test]
fn policies_are_compared_without_order() {
    let a = policy(
        &["/etc/hostname", "/etc/hosts"],
        &[("bin", "/opt/bin"), ("lib", "/opt/lib")],
        &[("/a", "/x"), ("/b", "/y")],
    );
    let b = policy(
        &["/etc/hosts", "/etc/hostname"],
        &[("lib", "/opt/lib"), ("bin", "/opt/bin")],
        &[("/b", "/y"), ("/a", "/x")],
    );
    assert!(a.same(&b) && b.same(&a) && a.same(&a.clone()));
    assert!(a.excludes().same(b.excludes()));
    assert!(a.excludes().within(b.excludes()));
    let fewer = policy(&["/etc/hosts"], &[("lib", "/opt/lib"), ("bin", "/opt/bin")], &[
        ("/b", "/y"),
        ("/a", "/x"),
    ]);
    assert!(!a.same(&fewer) && !fewer.same(&a));
    assert!(fewer.excludes().within(a.excludes()) && !a.excludes().within(fewer.excludes()));
    assert!(!fewer.excludes().same(a.excludes()));
    let other_target = policy(
        &["/etc/hostname", "/etc/hosts"],
        &[("bin", "/opt/bin"), ("lib", "/usr/lib")],
        &[("/a", "/x"), ("/b", "/y")],
    );
    assert!(!a.same(&other_target));
    let other_source = policy(
        &["/etc/hostname", "/etc/hosts"],
        &[("bin", "/opt/bin"), ("lib", "/opt/lib")],
        &[("/a", "/x"), ("/c", "/y")],
    );
    assert!(!a.same(&other_source));
    let empty = policy(&[], &[], &[]);
    assert!(empty.same(&policy(&[], &[], &[])) && !empty.same(&a));
}

#[test]
fn a_policy_with_absolute_paths_passes() {
    assert_eq!(policy(&[], &[], &[]).validate(), Ok(()));
    let config = policy(
        &["/etc/hostname"],
        &[("bin/hello", "/usr/bin/hello"), ("/share", "/usr/share")],
        &[("/tmp/group", "/etc/group")],
    );
    assert_eq!(config.validate(), Ok(()));
}

#[test]
fn a_relative_destination_is_refused() {
    assert_eq!(
        policy(&["etc/hostname"], &[], &[]).validate(),
        Err(PolicyError::RelativeDestination(p("etc/hostname")))
    );
    assert_eq!(
        policy(&[], &[("bin", "opt/bin")], &[]).validate(),
        Err(PolicyError::RelativeDestination(p("opt/bin")))
    );
    assert_eq!(
        policy(&[], &[], &[("/tmp/group", "etc/group")]).validate(),
        Err(PolicyError::RelativeDestination(p("etc/group")))
    );
}

#[test]
fn a_relative_source_is_refused_unless_it_is_in_the_profile() {
    assert_eq!(
        policy(&[], &[], &[("tmp/group", "/etc/group")]).validate(),
        Err(PolicyError::RelativeSource(p("tmp/group")))
    );
    assert_eq!(policy(&[], &[("tmp/group", "/etc/group")], &[]).validate(), Ok(()));
}

#[test]
fn the_first_fault_is_reported() {
    let config = policy(
        &["/fine", "first"],
        &[("a", "second")],
        &[("third", "fourth")],
    );
    assert_eq!(config.validate(), Err(PolicyError::RelativeDestination(p("first"))));
    let config = policy(&["/fine"], &[("a", "second")], &[("third", "fourth")]);
    assert_eq!(config.validate(), Err(PolicyError::RelativeDestination(p("second"))));
    let config = policy(&["/fine"], &[("a", "/fine")], &[("third", "fourth")]);
    assert_eq!(config.validate(), Err(PolicyError::RelativeSource(p("third"))));
    let config = policy(&["/fine"], &[("a", "/fine")], &[("/third", "fourth")]);
    assert_eq!(config.validate(), Err(PolicyError::RelativeDestination(p("fourth"))));
}

#[test]
fn mounts_are_planned_in_order() {
    let config = policy(
        &["/etc/hostname", "/etc/hosts"],
        &[("/bin/hello", "/usr/bin/hello"), ("share", "/usr/share")],
        &[("/tmp/group", "/etc/group")],
    );
    let dir = p("/store/store/abc-profile");
    assert_eq!(
        plan_mounts(&config, Some(&dir)),
        vec![
            mapping("/dev/null", "/etc/hostname"),
            mapping("/dev/null", "/etc/hosts"),
            mapping("/store/store/abc-profile/bin/hello", "/usr/bin/hello"),
            mapping("/store/store/abc-profile/share", "/usr/share"),
            mapping("/tmp/group", "/etc/group"),
        ]
    );
    assert_eq!(
        plan_mounts(&config, None),
        vec![
            mapping("/dev/null", "/etc/hostname"),
            mapping("/dev/null", "/etc/hosts"),
            mapping("/tmp/group", "/etc/group"),
        ]
    );
    assert_eq!(plan_mounts(&policy(&[], &[], &[]), Some(&dir)), vec![]);
}

#[test]
fn missing_profile_warns_for_each_profile_mount() {
    let config = policy(&[], &[("bin", "/opt/bin"), ("lib", "/opt/lib")], &[("/a", "/b")]);
    let warnings = warn_missing_profile(config.profile(), &b"user".to_vec());
    assert_eq!(
        warnings,
        vec![
            Command {
                action: Action::Warn(Notice::MissingProfile {
                    user: b"user".to_vec(),
                    source: p("bin"),
                    target: p("/opt/bin"),
                }),
                on_failure: OnFailure::Ignore,
            },
            Command {
                action: Action::Warn(Notice::MissingProfile {
                    user: b"user".to_vec(),
                    source: p("lib"),
                    target: p("/opt/lib"),
                }),
                on_failure: OnFailure::Ignore,
            },
        ]
    );
}

#[test]
fn destinations_are_taken_below_the_root() {
    assert_eq!(strip_root(&p("/etc/group")), p("etc/group"));
    assert_eq!(strip_root(&p("etc/group")), p("etc/group"));
    assert_eq!(strip_root(&p("/")), p(""));
    assert_eq!(parent_below(&p("/tmp/root"), &p("/etc/group")), p("/tmp/root/etc"));
    assert_eq!(parent_below(&p("/tmp/root"), &p("/group")), p("/tmp/root"));
    assert_eq!(parent_below(&p("/tmp/root"), &p("/")), p("/tmp/root"));
    assert_eq!(parent_below(&p("/tmp/root"), &p("/a/b/c")), p("/tmp/root/a/b"));
}

#[test]
fn the_root_is_planned_without_nix() {
    let ctx = RunChroot::new(p("/tmp/root"), p("/store"));
    let names = vec![b"bin".to_vec(), b"nix".to_vec(), b"etc".to_vec(), b"nixos".to_vec()];
    let jobs = plan_root(&ctx, &names);
    let expected: Vec<Job> = ["bin", "etc", "nixos"]
        .iter()
        .map(|n| Job {
            ctx: ctx.clone(),
            entry: DirEntryOrExplicitMount::from(p("/"), n.as_bytes().to_vec()),
        })
        .collect();
    assert_eq!(jobs, expected);
    assert_eq!(plan_root(&ctx, &vec![b"nix".to_vec()]), vec![]);
    assert_eq!(jobs[0].mount_point(), p("/tmp/root/bin"));
    assert_eq!(jobs[0].mount_point().file_name(), jobs[0].entry.file_name());
}

#[test]
fn the_profile_directory_is_below_the_store() {
    let ctx = RunChroot::new(p("/tmp/root"), p("/store"));
    assert_eq!(
        ctx.profile_dir(&b"alice".to_vec()),
        p("/store/var/nix/profiles/per-user/alice/profile")
    );
}

#[test]
fn the_opengl_drivers_are_mounted_where_found() {
    let ctx = RunChroot::new(p("/tmp/root"), p("/store"));
    assert_eq!(ctx.opengl(false), vec![]);
    let commands = ctx.opengl(true);
    assert_eq!(commands.len(), 2);
    assert_eq!(
        commands[0],
        Command {
            action: Action::CreateDirAll { path: p("/tmp/root/run/opengl-driver/lib") },
            on_failure: OnFailure::Abort,
        }
    );
    assert_eq!(
        commands[1],
        nix_user_chroot::mirror::bind_mount(
            p("/store/var/nix/opengl-driver/lib"),
            p("/tmp/root/run/opengl-driver/lib")
        )
    );
}
