use nix_user_chroot::host::OnFailure;
use nix_user_chroot::identity::{decimal_digits, id_map_line};
use nix_user_chroot::names;
use nix_user_chroot::path::HostPath;
use nix_user_chroot::wait::{
    wait_for_child, ChildSignal, ParentAction, ParentCommand, WaitEvent, WaitNext, WaitStep,
    Waiter, FAILURE,
};

fn p(text: &str) -> HostPath {
    HostPath::from_bytes(text.as_bytes())
}

const ROOT: &str = "/tmp/nix-chroot.abc123";

fn remove(tolerate_missing: bool) -> ParentCommand {
    ParentCommand {
        action: ParentAction::RemoveTree { path: p(ROOT), tolerate_missing },
        on_failure: OnFailure::Abort,
    }
}

fn raise(signal: i32) -> ParentCommand {
    ParentCommand { action: ParentAction::Raise(signal), on_failure: OnFailure::Abort }
}

fn stop_and_resume() -> Vec<ParentCommand> {
    vec![
        ParentCommand { action: ParentAction::StopSelf, on_failure: OnFailure::Ignore },
        ParentCommand { action: ParentAction::ContinueChild, on_failure: OnFailure::Ignore },
    ]
}

fn decide(event: WaitEvent) -> WaitStep {
    wait_for_child(Waiter::new(p(ROOT)), event).1
}

/// A parent in memory: whether it lives, and whether the scratch root is
/// there.
struct Parent {
    root_is_there: bool,
    deadly: Vec<i32>,
    did: Vec<String>,
}

#[derive(Debug, PartialEq)]
enum End {
    Waiting,
    Left(i32),
    Killed(i32),
    Failed(String),
}

impl Parent {
    fn new() -> Parent {
        Parent { root_is_there: true, deadly: vec![9, 15], did: Vec::new() }
    }

    fn perform(&mut self, action: &ParentAction) -> Result<Option<End>, String> {
        match action {
            ParentAction::StopSelf => self.did.push("stop".to_string()),
            ParentAction::ContinueChild => self.did.push("continue child".to_string()),
            ParentAction::Raise(signal) => {
                self.did.push(format!("raise {}", signal));
                if self.deadly.contains(signal) {
                    return Ok(Some(End::Killed(*signal)));
                }
            }
            ParentAction::RemoveTree { path, tolerate_missing } => {
                assert_eq!(path, &p(ROOT));
                self.did.push("remove".to_string());
                if !self.root_is_there && !tolerate_missing {
                    return Err("the scratch root is missing".to_string());
                }
                self.root_is_there = false;
            }
        }
        Ok(None)
    }

    /// Goes through the events as the program does.
    fn run(&mut self, events: &[WaitEvent]) -> End {
        let mut waiter = Waiter::new(p(ROOT));
        for event in events {
            let (next, step) = wait_for_child(waiter, *event);
            waiter = next;
            for command in &step.commands {
                match self.perform(&command.action) {
                    Ok(Some(end)) => return end,
                    Ok(None) => {}
                    Err(e) => match command.on_failure {
                        OnFailure::Abort => return End::Failed(e),
                        OnFailure::Exit => return End::Left(1),
                        OnFailure::Report | OnFailure::Ignore => {}
                    },
                }
            }
            if let WaitNext::Leave(status) = step.next {
                return End::Left(status);
            }
        }
        End::Waiting
    }
}

#[test]
fn the_parent_leaves_with_the_status_of_the_child() {
    for status in [0, 1, 2, 42, 127, 255] {
        assert_eq!(
            decide(WaitEvent::Exited(status)),
            WaitStep { commands: vec![remove(false)], next: WaitNext::Leave(status) }
        );
        let mut parent = Parent::new();
        assert_eq!(parent.run(&[WaitEvent::Exited(status)]), End::Left(status));
        assert!(!parent.root_is_there);
    }
}

#[test]
fn the_parent_takes_the_signal_of_the_child() {
    for signal in [15, 9, 13] {
        assert_eq!(
            decide(WaitEvent::Signaled(ChildSignal::Other(signal))),
            WaitStep { commands: vec![remove(false), raise(signal)], next: WaitNext::WaitAgain }
        );
    }
    let mut parent = Parent::new();
    assert_eq!(parent.run(&[WaitEvent::Signaled(ChildSignal::Other(15))]), End::Killed(15));
    assert_eq!(parent.did, vec!["remove".to_string(), "raise 15".to_string()]);
}

#[test]
fn the_parent_releases_the_scratch_root_before_it_dies() {
    let mut parent = Parent::new();
    let end = parent.run(&[
        WaitEvent::Stopped(ChildSignal::Stop),
        WaitEvent::Signaled(ChildSignal::Other(9)),
    ]);
    assert_eq!(end, End::Killed(9));
    assert!(!parent.root_is_there);
}

#[test]
fn the_parent_that_lives_through_the_signal_leaves_with_failure() {
    let mut parent = Parent::new();
    let end = parent.run(&[WaitEvent::Signaled(ChildSignal::Other(13)), WaitEvent::Failed]);
    assert_eq!(end, End::Left(1));
    assert!(!parent.root_is_there);
    assert_eq!(
        parent.did,
        vec!["remove".to_string(), "raise 13".to_string(), "remove".to_string()]
    );
    let waiter = Waiter::new(p(ROOT));
    assert!(!waiter.released());
    assert_eq!(waiter.rootdir(), &p(ROOT));
    let (waiter, _) = wait_for_child(waiter, WaitEvent::Signaled(ChildSignal::Other(13)));
    assert!(waiter.released());
    let (waiter, step) = wait_for_child(waiter, WaitEvent::Failed);
    assert_eq!(step, WaitStep { commands: vec![remove(true)], next: WaitNext::Leave(1) });
    assert!(waiter.released());
}

#[test]
fn the_parent_stops_and_resumes_with_the_child() {
    assert_eq!(
        decide(WaitEvent::Stopped(ChildSignal::Stop)),
        WaitStep { commands: stop_and_resume(), next: WaitNext::WaitAgain }
    );
    assert_eq!(
        decide(WaitEvent::Signaled(ChildSignal::Stop)),
        WaitStep { commands: stop_and_resume(), next: WaitNext::WaitAgain }
    );
    let (waiter, _) = wait_for_child(Waiter::new(p(ROOT)), WaitEvent::Stopped(ChildSignal::Stop));
    assert!(!waiter.released());
    let mut parent = Parent::new();
    let end = parent.run(&[
        WaitEvent::Stopped(ChildSignal::Stop),
        WaitEvent::Stopped(ChildSignal::Stop),
        WaitEvent::Exited(3),
    ]);
    assert_eq!(end, End::Left(3));
    assert_eq!(
        parent.did,
        vec![
            "stop".to_string(),
            "continue child".to_string(),
            "stop".to_string(),
            "continue child".to_string(),
            "remove".to_string(),
        ]
    );
    let mut parent = Parent::new();
    assert_eq!(parent.run(&[WaitEvent::Stopped(ChildSignal::Stop)]), End::Waiting);
    assert!(parent.root_is_there);
}

#[test]
fn the_parent_leaves_with_failure_on_anything_else() {
    assert_eq!(FAILURE, 1);
    for event in [WaitEvent::Other, WaitEvent::Failed, WaitEvent::Stopped(ChildSignal::Other(20))] {
        assert_eq!(
            decide(event),
            WaitStep { commands: vec![remove(false)], next: WaitNext::Leave(1) }
        );
        let mut parent = Parent::new();
        assert_eq!(parent.run(&[event, WaitEvent::Exited(0)]), End::Left(1));
        assert!(!parent.root_is_there);
    }
}

#[test]
fn a_scratch_root_that_cannot_be_removed_stops_the_parent() {
    let mut parent = Parent::new();
    parent.root_is_there = false;
    assert_eq!(
        parent.run(&[WaitEvent::Exited(0)]),
        End::Failed("the scratch root is missing".to_string())
    );
    let mut parent = Parent::new();
    parent.root_is_there = false;
    assert_eq!(
        parent.run(&[WaitEvent::Signaled(ChildSignal::Other(15))]),
        End::Failed("the scratch root is missing".to_string())
    );
    assert_eq!(parent.did, vec!["remove".to_string()]);
}

#[test]
fn numbers_are_written_in_decimal() {
    for n in [0u32, 1, 9, 10, 11, 99, 100, 1000, 65534, 4294967295] {
        assert_eq!(decimal_digits(n), n.to_string().into_bytes());
    }
}

#[test]
fn the_identity_map_has_one_row() {
    assert_eq!(id_map_line(1000), b"1000 1000 1".to_vec());
    assert_eq!(id_map_line(0), b"0 0 1".to_vec());
    assert_eq!(id_map_line(4294967295), b"4294967295 4294967295 1".to_vec());
}

#[test]
fn the_fixed_paths_are_spelled_right() {
    assert_eq!(names::nix_root_path(), p("/nix"));
    assert_eq!(names::dev_null_path(), p("/dev/null"));
    assert_eq!(names::root_dir_path(), p("/"));
    assert_eq!(names::opengl_source_path(), p("var/nix/opengl-driver/lib"));
    assert_eq!(names::opengl_target_path(), p("run/opengl-driver/lib"));
    assert_eq!(names::profiles_dir_path(), p("var/nix/profiles/per-user"));
    assert_eq!(names::profile_link_path(), p("profile"));
    assert_eq!(names::store_mount_path(), p("nix"));
    assert_eq!(names::policy_file_path(), p("etc/nix-user-chroot/path-config.toml"));
    assert_eq!(names::setgroups_file_path(), p("/proc/self/setgroups"));
    assert_eq!(names::uid_map_file_path(), p("/proc/self/uid_map"));
    assert_eq!(names::gid_map_file_path(), p("/proc/self/gid_map"));
    assert_eq!(names::nix_name_bytes(), b"nix".to_vec());
    assert_eq!(names::deny_text_bytes(), b"deny".to_vec());
    assert_eq!(names::conf_dir_name_bytes(), b"NIX_CONF_DIR".to_vec());
    assert_eq!(names::conf_dir_value_bytes(), b"/nix/etc/nix".to_vec());
}
