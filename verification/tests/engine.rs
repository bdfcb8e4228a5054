use nix_user_chroot::chroot::RunChroot;
use nix_user_chroot::config::{ExcludePaths, PathConfig, PolicyError};
use nix_user_chroot::construct::Construction;
use nix_user_chroot::host::{
    Action, Command, Fatal, MountFlags, Next, NodeKind, Notice, OnFailure, Query, Reply, Step,
};
use nix_user_chroot::mirror::Mirror;
use nix_user_chroot::mount::DirEntryOrExplicitMount;
use nix_user_chroot::path::HostPath;
use nix_user_chroot::resolve::{Resolution, ResolveError, Resolved};
use nix_user_chroot::wait::{wait_for_child, ParentAction, WaitEvent, WaitNext, Waiter};
use std::collections::BTreeMap;

fn p(text: &str) -> HostPath {
    HostPath::from_bytes(text.as_bytes())
}

fn t(path: &HostPath) -> String {
    String::from_utf8(path.to_bytes()).unwrap()
}

fn s(bytes: &[u8]) -> String {
    String::from_utf8(bytes.to_vec()).unwrap()
}

fn join(dir: &str, rest: &str) -> String {
    if rest.is_empty() {
        dir.to_string()
    } else if dir.ends_with('/') {
        format!("{}{}", dir, rest)
    } else {
        format!("{}/{}", dir, rest)
    }
}

/// The path `path` of the view whose root is `root`, as a path of the host.
fn under(root: &str, path: &str) -> String {
    if root.is_empty() {
        path.to_string()
    } else {
        join(root, path.trim_start_matches('/'))
    }
}

fn parent(path: &str) -> String {
    match path.rfind('/') {
        Some(0) | None => "/".to_string(),
        Some(i) => path[..i].to_string(),
    }
}

#[derive(Clone, Debug, PartialEq)]
enum Node {
    Dir,
    File(Vec<u8>),
    Link(String),
    Device,
}

/// A host that lives in memory: a tree of nodes and a table of bind mounts.
struct Host {
    nodes: BTreeMap<String, Node>,
    mounts: Vec<(String, String)>,
    users: BTreeMap<u32, String>,
    refuse_mount_of: Vec<String>,
    refuse_write_to: Vec<String>,
    done: Vec<String>,
    reported: Vec<String>,
    warnings: Vec<String>,
    written: BTreeMap<String, Vec<u8>>,
    root: Option<String>,
    cwd: Option<String>,
    exec: Option<(String, Vec<String>, String, String)>,
}

#[derive(Debug, PartialEq)]
enum End {
    Done,
    Abort(Fatal),
    Failed(String),
    Exit,
}

impl Host {
    fn new() -> Host {
        let mut nodes = BTreeMap::new();
        nodes.insert("/".to_string(), Node::Dir);
        Host {
            nodes,
            mounts: Vec::new(),
            users: BTreeMap::new(),
            refuse_mount_of: Vec::new(),
            refuse_write_to: Vec::new(),
            done: Vec::new(),
            reported: Vec::new(),
            warnings: Vec::new(),
            written: BTreeMap::new(),
            root: None,
            cwd: None,
            exec: None,
        }
    }

    fn dir(&mut self, path: &str) {
        let mut at = String::from("/");
        for c in path.split('/').filter(|c| !c.is_empty()) {
            at = join(&at, c);
            self.nodes.entry(at.clone()).or_insert(Node::Dir);
        }
    }

    fn file(&mut self, path: &str, content: &str) {
        self.dir(&parent(path));
        self.nodes.insert(path.to_string(), Node::File(content.as_bytes().to_vec()));
    }

    fn link(&mut self, path: &str, target: &str) {
        self.dir(&parent(path));
        self.nodes.insert(path.to_string(), Node::Link(target.to_string()));
    }

    fn device(&mut self, path: &str) {
        self.dir(&parent(path));
        self.nodes.insert(path.to_string(), Node::Device);
    }

    /// The path behind the mounts that lie over it.
    fn behind_mounts(&self, path: &str) -> String {
        let mut cur = path.to_string();
        for (target, source) in self.mounts.iter().rev() {
            if cur == *target {
                cur = source.clone();
            } else if let Some(rest) = cur.strip_prefix(&format!("{}/", target)) {
                cur = join(source, rest);
            }
        }
        cur
    }

    /// What the path leads to, seen from the directory `root`.
    fn walk(
        &self,
        root: &str,
        path: &str,
        follow_last: bool,
        depth: u32,
    ) -> Option<(String, Node)> {
        if depth > 20 || !path.starts_with('/') {
            return None;
        }
        let comps: Vec<&str> = path.split('/').filter(|c| !c.is_empty() && *c != ".").collect();
        let mut cur = String::from("/");
        let mut node = Node::Dir;
        for (i, c) in comps.iter().enumerate() {
            if *c == ".." {
                cur = parent(&cur);
                node = Node::Dir;
                continue;
            }
            if node != Node::Dir {
                return None;
            }
            let cand = join(&cur, c);
            let real = self.behind_mounts(&under(root, &cand));
            let found = self.nodes.get(&real)?.clone();
            let last = i + 1 == comps.len();
            if let Node::Link(target) = &found {
                if !last || follow_last {
                    let base =
                        if target.starts_with('/') { target.clone() } else { join(&cur, target) };
                    let next = join(&base, &comps[i + 1..].join("/"));
                    return self.walk(root, &next, follow_last, depth + 1);
                }
            }
            cur = cand;
            node = found;
        }
        Some((self.behind_mounts(&under(root, &cur)), node))
    }

    fn lstat(&self, path: &str) -> Option<Node> {
        self.walk("", path, false, 0).map(|(_, n)| n)
    }

    fn stat(&self, path: &str) -> Option<Node> {
        self.walk("", path, true, 0).map(|(_, n)| n)
    }

    fn names_in(&self, real: &str) -> Vec<String> {
        self.nodes
            .keys()
            .filter(|k| k.as_str() != "/" && parent(k) == real)
            .map(|k| k[k.rfind('/').unwrap() + 1..].to_string())
            .collect()
    }

    fn list(&self, path: &str) -> Option<Vec<String>> {
        match self.walk("", path, true, 0) {
            Some((real, Node::Dir)) => Some(self.names_in(&real)),
            _ => None,
        }
    }

    /// What the path leads to inside the view, links followed.
    fn view(&self, path: &str) -> Option<Node> {
        let root = self.root.clone().expect("the root was not changed");
        self.walk(&root, path, true, 0).map(|(_, n)| n)
    }

    /// What is at the path inside the view, links not followed.
    fn view_entry(&self, path: &str) -> Option<Node> {
        let root = self.root.clone().expect("the root was not changed");
        self.walk(&root, path, false, 0).map(|(_, n)| n)
    }

    fn view_list(&self, path: &str) -> Option<Vec<String>> {
        let root = self.root.clone().expect("the root was not changed");
        match self.walk(&root, path, true, 0) {
            Some((real, Node::Dir)) => Some(self.names_in(&real)),
            _ => None,
        }
    }

    fn answer(&self, question: &Query) -> Reply {
        match question {
            Query::IsSymlink(q) => Reply::Flag(matches!(self.lstat(&t(q)), Some(Node::Link(_)))),
            Query::Exists(q) => Reply::Flag(self.stat(&t(q)).is_some()),
            Query::IsDir(q) => Reply::Flag(self.stat(&t(q)) == Some(Node::Dir)),
            Query::ReadLink(q) => Reply::Link(match self.lstat(&t(q)) {
                Some(Node::Link(target)) => Some(p(&target)),
                _ => None,
            }),
            Query::Kind(q) => Reply::Kind(self.lstat(&t(q)).map(|n| match n {
                Node::Dir => NodeKind::Directory,
                Node::File(_) => NodeKind::File,
                Node::Link(_) => NodeKind::Symlink,
                Node::Device => NodeKind::Other,
            })),
            Query::List(q) => Reply::Names(
                self.list(&t(q)).map(|names| names.into_iter().map(|n| n.into_bytes()).collect()),
            ),
            Query::UserName(uid) => {
                Reply::UserName(self.users.get(uid).map(|n| n.as_bytes().to_vec()))
            }
        }
    }

    fn perform(&mut self, action: &Action) -> Result<(), String> {
        match action {
            Action::Unshare => {
                self.done.push("unshare".to_string());
                Ok(())
            }
            Action::CreateDir { path, tolerate_existing } => {
                let real = self.behind_mounts(&t(path));
                self.done.push(format!("mkdir {}", t(path)));
                if self.nodes.contains_key(&real) {
                    if *tolerate_existing {
                        Ok(())
                    } else {
                        Err(format!("{} exists", t(path)))
                    }
                } else if self.stat(&parent(&t(path))) != Some(Node::Dir) {
                    Err(format!("{} has no directory above it", t(path)))
                } else {
                    self.nodes.insert(real, Node::Dir);
                    Ok(())
                }
            }
            Action::CreateDirAll { path } => {
                self.done.push(format!("mkdir -p {}", t(path)));
                let mut at = String::from("/");
                for c in t(path).split('/').filter(|c| !c.is_empty()) {
                    at = join(&at, c);
                    let real = self.behind_mounts(&at);
                    match self.nodes.get(&real) {
                        None => {
                            self.nodes.insert(real, Node::Dir);
                        }
                        Some(Node::Dir) => {}
                        Some(_) => return Err(format!("{} is no directory", at)),
                    }
                }
                Ok(())
            }
            Action::CreateFile { path } => {
                self.done.push(format!("touch {}", t(path)));
                let real = self.behind_mounts(&t(path));
                self.nodes.insert(real, Node::File(Vec::new()));
                Ok(())
            }
            Action::BindMount { source, target, flags } => {
                self.done.push(format!(
                    "mount{}{}{} {} {}",
                    if flags.bind { " bind" } else { "" },
                    if flags.recursive { " rec" } else { "" },
                    if flags.private { " private" } else { "" },
                    t(source),
                    t(target)
                ));
                if self.refuse_mount_of.contains(&t(source)) {
                    return Err(format!("cannot mount {}", t(source)));
                }
                if self.lstat(&t(target)).is_none() {
                    return Err(format!("{} is missing", t(target)));
                }
                self.mounts.push((t(target), t(source)));
                Ok(())
            }
            Action::Symlink { target, link } => {
                self.done.push(format!("ln -s {} {}", t(target), t(link)));
                let real = self.behind_mounts(&t(link));
                if self.nodes.contains_key(&real) {
                    return Err(format!("{} exists", t(link)));
                }
                self.nodes.insert(real, Node::Link(t(target)));
                Ok(())
            }
            Action::Unmount { path } => {
                self.done.push(format!("umount {}", t(path)));
                match self.mounts.iter().rposition(|(target, _)| *target == t(path)) {
                    Some(i) => {
                        self.mounts.remove(i);
                        Ok(())
                    }
                    None => Err(format!("nothing is mounted at {}", t(path))),
                }
            }
            Action::ChangeRoot { path } => {
                self.done.push(format!("chroot {}", t(path)));
                self.root = Some(t(path));
                Ok(())
            }
            Action::ChangeDir { path } => {
                self.done.push(format!("cd {}", t(path)));
                self.cwd = Some(t(path));
                Ok(())
            }
            Action::WriteFile { path, content } => {
                self.done.push(format!("write {} {}", t(path), s(content)));
                if self.refuse_write_to.contains(&t(path)) {
                    return Err(format!("cannot write {}", t(path)));
                }
                self.written.insert(t(path), content.clone());
                Ok(())
            }
            Action::Exec { program, args, variable, value } => {
                self.done.push(format!("exec {}", s(program)));
                if self.view(&s(program)).is_none() {
                    return Err(format!("{} not found", s(program)));
                }
                self.exec = Some((
                    s(program),
                    args.iter().map(|a| s(a)).collect(),
                    s(variable),
                    s(value),
                ));
                Ok(())
            }
            Action::Warn(notice) => {
                self.warnings.push(match notice {
                    Notice::MissingProfile { user, source, target } => {
                        format!("no profile for {}: {} -> {}", s(user), t(source), t(target))
                    }
                    Notice::MissingSource { source } => format!("no source {}", t(source)),
                });
                Ok(())
            }
        }
    }

    /// Carries the commands out as a driver must.
    fn carry_out(&mut self, commands: &Vec<Command>) -> Option<End> {
        for command in commands {
            if let Err(e) = self.perform(&command.action) {
                match command.on_failure {
                    OnFailure::Abort => return Some(End::Failed(e)),
                    OnFailure::Report => self.reported.push(e),
                    OnFailure::Ignore => {}
                    OnFailure::Exit => return Some(End::Exit),
                }
            }
        }
        None
    }

    fn resolve(&self, start: (Resolution, Resolved)) -> Result<HostPath, ResolveError> {
        let (mut state, mut out) = start;
        for _ in 0..1000 {
            match out {
                Resolved::Done(result) => {
                    assert!(state.is_finished());
                    return result;
                }
                Resolved::Ask(question) => {
                    let next = state.step(self.answer(&question));
                    state = next.0;
                    out = next.1;
                }
            }
        }
        panic!("the resolution does not end");
    }

    fn mirror(&mut self, start: (Mirror, Step)) -> End {
        let (mut state, mut step) = start;
        for _ in 0..10000 {
            if let Some(end) = self.carry_out(&step.commands) {
                return end;
            }
            match step.next {
                Next::Done => {
                    assert!(state.is_finished());
                    return End::Done;
                }
                Next::Abort(reason) => return End::Abort(reason),
                Next::Ask(question) => {
                    let next = state.step(self.answer(&question));
                    state = next.0;
                    step = next.1;
                }
            }
        }
        panic!("the mirroring does not end");
    }

    fn construct(&mut self, start: (Construction, Step)) -> End {
        let (mut state, mut step) = start;
        for _ in 0..100000 {
            if let Some(end) = self.carry_out(&step.commands) {
                return end;
            }
            match step.next {
                Next::Done => {
                    assert!(state.is_finished());
                    return End::Done;
                }
                Next::Abort(reason) => return End::Abort(reason),
                Next::Ask(question) => {
                    let next = state.step(self.answer(&question));
                    state = next.0;
                    step = next.1;
                }
            }
        }
        panic!("the construction does not end");
    }
}

const ROOT: &str = "/tmp/nix-chroot.abc123";
const STORE: &str = "/some/store";

/// A small host: a few directories, files and links, a store, and the
/// scratch root, empty.
fn small_host() -> Host {
    let mut host = Host::new();
    host.file("/bin/true", "true");
    host.file("/bin/sh", "sh");
    host.file("/bin/ls", "ls");
    host.file("/bin/cat", "cat");
    host.file("/etc/hostname", "thehost\n");
    host.file("/etc/group", "root:x:0:\n");
    host.dir("/home/user");
    host.link("/lib", "usr/lib");
    host.file("/usr/lib/libc.so", "libc");
    host.device("/dev/null");
    host.file("/vmlinuz", "kernel");
    host.file(&format!("{}/store/abc-hello/bin/hello", STORE), "hello");
    host.file(&format!("{}/etc/nix/nix.conf", STORE), "conf");
    host.dir(&format!("{}/var/nix", STORE));
    host.dir(ROOT);
    host.users.insert(1000, "user".to_string());
    host
}

fn context() -> RunChroot {
    RunChroot::new(p(ROOT), p(STORE))
}

fn begin(config: Option<PathConfig>, program: &str, args: &[&str]) -> (Construction, Step) {
    context()
        .run_chroot(
            program.as_bytes().to_vec(),
            args.iter().map(|a| a.as_bytes().to_vec()).collect(),
            config,
            1000,
            100,
            p("/home/user"),
        )
        .unwrap()
}

fn policy(excludes: &[&str], profile: &[(&str, &str)], absolute: &[(&str, &str)]) -> PathConfig {
    let mut set = ExcludePaths::new();
    for e in excludes {
        set.insert(p(e));
    }
    let mut config = PathConfig::new(set);
    for (src, dst) in profile {
        config.add_profile(p(src), p(dst));
    }
    for (src, dst) in absolute {
        config.add_absolute(p(src), p(dst));
    }
    config
}

fn strict(action: Action) -> Command {
    Command { action, on_failure: OnFailure::Abort }
}

fn private_mount(source: &str, target: &str) -> Command {
    Command {
        action: Action::BindMount {
            source: p(source),
            target: p(target),
            flags: MountFlags { bind: true, recursive: true, private: true },
        },
        on_failure: OnFailure::Report,
    }
}

// The resolution of paths.

#[test]
fn resolve_keeps_a_path_that_exists() {
    let host = small_host();
    let got = host.resolve(context().resolve_nix_path(p("/etc/hostname"), false));
    assert_eq!(got, Ok(p("/etc/hostname")));
}

#[test]
fn resolve_first_asks_whether_the_path_is_a_link() {
    let (state, first) = context().resolve_nix_path(p("/etc/hostname"), true);
    assert_eq!(first, Resolved::Ask(Query::IsSymlink(p("/etc/hostname"))));
    assert!(!state.is_finished());
    let (_, second) = state.step(Reply::Flag(false));
    assert_eq!(second, Resolved::Ask(Query::Exists(p("/etc/hostname"))));
}

#[test]
fn resolve_stops_at_a_target_outside_nix() {
    let mut host = small_host();
    host.link("/opt/tool", "/usr/lib/libc.so");
    let got = host.resolve(context().resolve_nix_path(p("/opt/tool"), true));
    assert_eq!(got, Ok(p("/usr/lib/libc.so")));
}

#[test]
fn resolve_stops_even_at_a_target_that_is_missing() {
    let mut host = small_host();
    host.link("/opt/tool", "/nowhere/at/all");
    let got = host.resolve(context().resolve_nix_path(p("/opt/tool"), true));
    assert_eq!(got, Ok(p("/nowhere/at/all")));
}

#[test]
fn resolve_takes_a_relative_target_from_the_directory_of_the_link() {
    let host = small_host();
    let got = host.resolve(context().resolve_nix_path(p("/lib"), true));
    assert_eq!(got, Ok(p("/usr/lib")));
}

#[test]
fn resolve_follows_every_link_when_not_told_to_stop() {
    let mut host = small_host();
    host.link("/a", "/b");
    host.link("/b", "c");
    host.file("/c", "c");
    let got = host.resolve(context().resolve_nix_path(p("/a"), false));
    assert_eq!(got, Ok(p("/c")));
    let got = host.resolve(context().resolve_nix_path(p("/a"), true));
    assert_eq!(got, Ok(p("/b")));
}

#[test]
fn resolve_takes_a_nix_target_into_the_store() {
    let mut host = small_host();
    host.link("/opt/hello", "/nix/store/abc-hello/bin/hello");
    for stop in [true, false] {
        let got = host.resolve(context().resolve_nix_path(p("/opt/hello"), stop));
        assert_eq!(got, Ok(p("/some/store/store/abc-hello/bin/hello")));
    }
}

#[test]
fn resolve_goes_on_inside_the_store() {
    let mut host = small_host();
    host.link("/opt/hello", "/nix/var/nix/current");
    host.link(&format!("{}/var/nix/current", STORE), "/nix/store/abc-hello");
    let got = host.resolve(context().resolve_nix_path(p("/opt/hello"), true));
    assert_eq!(got, Ok(p("/some/store/store/abc-hello")));
}

#[test]
fn resolve_looks_for_a_nix_link_above_a_missing_path() {
    let mut host = small_host();
    host.link(&format!("{}/var/nix/profile", STORE), "/nix/store/abc-hello");
    let inside = format!("{}/var/nix/profile/bin/hello", STORE);
    assert_eq!(host.stat(&inside), None);
    let got = host.resolve(context().resolve_nix_path(p(&inside), false));
    assert_eq!(got, Ok(p("/some/store/store/abc-hello/bin/hello")));
}

#[test]
fn resolve_looks_above_more_than_once() {
    let mut host = small_host();
    host.link(&format!("{}/var/nix/profile", STORE), "/nix/store/generation");
    host.link(&format!("{}/store/generation", STORE), "/nix/store/abc-hello");
    let inside = format!("{}/var/nix/profile/bin/hello", STORE);
    let got = host.resolve(context().resolve_nix_path(p(&inside), false));
    assert_eq!(got, Ok(p("/some/store/store/abc-hello/bin/hello")));
}

#[test]
fn resolve_does_not_find_a_missing_path() {
    let host = small_host();
    let got = host.resolve(context().resolve_nix_path(p("/no/such/file"), false));
    assert_eq!(got, Err(ResolveError::NotFound));
    let got = host.resolve(context().resolve_nix_path(p(""), false));
    assert_eq!(got, Err(ResolveError::NotFound));
}

#[test]
fn resolve_does_not_take_a_link_outside_nix_for_a_reason() {
    let mut host = small_host();
    host.link("/opt/elsewhere", "/usr");
    let got = host.resolve(context().resolve_nix_path(p("/opt/elsewhere/missing"), false));
    assert_eq!(got, Err(ResolveError::NotFound));
}

#[test]
fn resolve_reports_a_link_that_cannot_be_read() {
    let (state, _) = context().resolve_nix_path(p("/a"), false);
    let (state, out) = state.step(Reply::Flag(true));
    assert_eq!(out, Resolved::Ask(Query::ReadLink(p("/a"))));
    let (state, out) = state.step(Reply::Link(None));
    assert_eq!(out, Resolved::Done(Err(ResolveError::Unreadable)));
    assert!(state.is_finished());
}

#[test]
fn resolve_refuses_an_answer_that_does_not_fit() {
    let (state, _) = context().resolve_nix_path(p("/a"), false);
    let (state, out) = state.step(Reply::Kind(Some(NodeKind::File)));
    assert_eq!(out, Resolved::Done(Err(ResolveError::Unexpected)));
    let (_, out) = state.step(Reply::Flag(true));
    assert_eq!(out, Resolved::Done(Err(ResolveError::Unexpected)));
}

#[test]
fn resolve_refuses_a_relative_link_without_a_directory() {
    let (state, _) = context().resolve_nix_path(p("/"), false);
    let (state, _) = state.step(Reply::Flag(true));
    let (_, out) = state.step(Reply::Link(Some(p("x"))));
    assert_eq!(out, Resolved::Done(Err(ResolveError::Unexpected)));
}

// The mirroring of entries.

#[test]
fn mirror_binds_a_file_over_an_empty_file() {
    let mut host = small_host();
    let entry = DirEntryOrExplicitMount::from(p("/"), b"vmlinuz".to_vec());
    let end = host.mirror(context().bind_mount_entry(entry));
    assert_eq!(end, End::Done);
    assert_eq!(
        host.done,
        vec![
            format!("touch {}/vmlinuz", ROOT),
            format!("mount bind rec private /vmlinuz {}/vmlinuz", ROOT),
        ]
    );
    assert_eq!(host.stat(&format!("{}/vmlinuz", ROOT)), Some(Node::File(b"kernel".to_vec())));
}

#[test]
fn mirror_binds_a_directory_over_an_empty_directory() {
    let mut host = small_host();
    let entry = DirEntryOrExplicitMount::from(p("/"), b"etc".to_vec());
    let end = host.mirror(context().bind_mount_entry(entry));
    assert_eq!(end, End::Done);
    assert_eq!(
        host.done,
        vec![format!("mkdir {}/etc", ROOT), format!("mount bind rec private /etc {}/etc", ROOT)]
    );
    assert_eq!(
        host.stat(&format!("{}/etc/hostname", ROOT)),
        Some(Node::File(b"thehost\n".to_vec()))
    );
}

#[test]
fn mirror_gives_the_commands_of_each_kind() {
    let ctx = context();
    let entry = DirEntryOrExplicitMount::from(p("/"), b"etc".to_vec());
    let place = format!("{}/etc", ROOT);
    assert_eq!(
        ctx.bind_mount_directory(&entry, false),
        vec![
            strict(Action::CreateDir { path: p(&place), tolerate_existing: true }),
            private_mount("/etc", &place),
        ]
    );
    assert_eq!(ctx.bind_mount_directory(&entry, true), vec![]);
    assert_eq!(
        ctx.bind_mount_file(&entry, false),
        vec![strict(Action::CreateFile { path: p(&place) }), private_mount("/etc", &place)]
    );
    assert_eq!(ctx.bind_mount_file(&entry, true), vec![]);
    assert_eq!(
        ctx.mirror_symlink(&entry, p("/usr/etc")),
        vec![strict(Action::Symlink { target: p("/usr/etc"), link: p(&place) })]
    );
    assert_eq!(
        nix_user_chroot::mirror::bind_mount(p("/etc"), p(&place)),
        private_mount("/etc", &place)
    );
}

#[test]
fn mirror_copies_a_link_with_its_target() {
    let mut host = small_host();
    host.link("/opt", "/usr/lib");
    let entry = DirEntryOrExplicitMount::from(p("/"), b"opt".to_vec());
    let end = host.mirror(context().bind_mount_entry(entry));
    assert_eq!(end, End::Done);
    assert_eq!(host.done, vec![format!("ln -s /usr/lib {}/opt", ROOT)]);
    assert_eq!(host.lstat(&format!("{}/opt", ROOT)), Some(Node::Link("/usr/lib".to_string())));
}

#[test]
fn mirror_rebases_a_relative_link() {
    let mut host = small_host();
    let entry = DirEntryOrExplicitMount::from(p("/"), b"lib".to_vec());
    let end = host.mirror(context().bind_mount_entry(entry));
    assert_eq!(end, End::Done);
    assert_eq!(host.done, vec![format!("ln -s /usr/lib {}/lib", ROOT)]);
}

#[test]
fn mirror_points_a_nix_link_into_the_store() {
    let mut host = small_host();
    host.link("/hello", "/nix/store/abc-hello/bin/hello");
    let entry = DirEntryOrExplicitMount::from(p("/"), b"hello".to_vec());
    let end = host.mirror(context().bind_mount_entry(entry));
    assert_eq!(end, End::Done);
    assert_eq!(
        host.done,
        vec![format!("ln -s /some/store/store/abc-hello/bin/hello {}/hello", ROOT)]
    );
}

#[test]
fn mirror_leaves_a_taken_place_alone() {
    for name in ["vmlinuz", "lib"] {
        let mut host = small_host();
        host.file(&format!("{}/{}", ROOT, name), "mine");
        let entry = DirEntryOrExplicitMount::from(p("/"), name.as_bytes().to_vec());
        let end = host.mirror(context().bind_mount_entry(entry));
        assert_eq!(end, End::Done);
        assert_eq!(host.done, Vec::<String>::new());
        assert_eq!(host.stat(&format!("{}/{}", ROOT, name)), Some(Node::File(b"mine".to_vec())));
    }
}

#[test]
fn mirror_leaves_a_directory_alone_whose_place_a_file_has() {
    let mut host = small_host();
    host.file(&format!("{}/etc", ROOT), "mine");
    let entry = DirEntryOrExplicitMount::from(p("/"), b"etc".to_vec());
    let end = host.mirror(context().bind_mount_entry(entry));
    assert_eq!(end, End::Done);
    assert_eq!(host.done, Vec::<String>::new());
}

#[test]
fn mirror_merges_into_a_directory_that_is_there() {
    let mut host = small_host();
    host.file(&format!("{}/etc/hostname", ROOT), "");
    let entry = DirEntryOrExplicitMount::from(p("/"), b"etc".to_vec());
    let end = host.mirror(context().bind_mount_entry(entry));
    assert_eq!(end, End::Done);
    assert_eq!(
        host.done,
        vec![
            format!("touch {}/etc/group", ROOT),
            format!("mount bind rec private /etc/group {}/etc/group", ROOT),
        ]
    );
    assert_eq!(host.stat(&format!("{}/etc/hostname", ROOT)), Some(Node::File(Vec::new())));
    assert_eq!(
        host.stat(&format!("{}/etc/group", ROOT)),
        Some(Node::File(b"root:x:0:\n".to_vec()))
    );
}

#[test]
fn mirror_merges_children_first_and_in_order() {
    let mut host = small_host();
    host.file("/data/a/one", "1");
    host.file("/data/a/two", "2");
    host.file("/data/b", "b");
    host.dir(&format!("{}/data/a", ROOT));
    let entry = DirEntryOrExplicitMount::from(p("/"), b"data".to_vec());
    let end = host.mirror(context().bind_mount_entry(entry));
    assert_eq!(end, End::Done);
    assert_eq!(
        host.done,
        vec![
            format!("touch {}/data/a/one", ROOT),
            format!("mount bind rec private /data/a/one {}/data/a/one", ROOT),
            format!("touch {}/data/a/two", ROOT),
            format!("mount bind rec private /data/a/two {}/data/a/two", ROOT),
            format!("touch {}/data/b", ROOT),
            format!("mount bind rec private /data/b {}/data/b", ROOT),
        ]
    );
}

#[test]
fn mirror_treats_dev_null_as_a_file() {
    let mut host = small_host();
    host.dir(&format!("{}/etc", ROOT));
    let entry =
        DirEntryOrExplicitMount::explicit_mount_with_dest_file_name(
            p("/dev/null"),
            &p("/etc/hostname"),
        );
    let ctx = context().with_rootdir(p(&format!("{}/etc", ROOT)));
    let end = host.mirror(ctx.bind_mount_entry(entry));
    assert_eq!(end, End::Done);
    assert_eq!(
        host.done,
        vec![
            format!("touch {}/etc/hostname", ROOT),
            format!("mount bind rec private /dev/null {}/etc/hostname", ROOT),
        ]
    );
}

#[test]
fn mirror_does_not_know_other_devices() {
    let mut host = small_host();
    host.device("/dev/zero");
    let entry =
        DirEntryOrExplicitMount::explicit_mount_with_dest_file_name(p("/dev/zero"), &p("/zero"));
    let end = host.mirror(context().bind_mount_entry(entry));
    assert_eq!(end, End::Abort(Fatal::UnknownKind));
    assert_eq!(host.done, Vec::<String>::new());
}

#[test]
fn mirror_needs_to_know_what_the_source_is() {
    let mut host = small_host();
    let entry =
        DirEntryOrExplicitMount::explicit_mount_with_dest_file_name(p("/missing"), &p("/there"));
    let end = host.mirror(context().bind_mount_entry(entry));
    assert_eq!(end, End::Abort(Fatal::NoMetadata));
}

#[test]
fn mirror_resolves_a_source_under_nix_first() {
    let mut host = small_host();
    host.link(&format!("{}/var/nix/profile", STORE), "/nix/store/abc-hello");
    let entry = DirEntryOrExplicitMount::explicit_mount_with_dest_file_name(
        p("/nix/var/nix/profile/bin/hello"),
        &p("/usr/bin/greet"),
    );
    let (state, first) = context().bind_mount_entry(entry);
    assert_eq!(first.next, Next::Ask(Query::IsSymlink(p("/nix/var/nix/profile/bin/hello"))));
    assert_eq!(first.commands, vec![]);
    // Nothing is at `/nix` on this host, so the path is not found.
    let end = host.mirror((state, first));
    assert_eq!(end, End::Abort(Fatal::Unresolvable));

    // With a link at `/nix/var` that points under `/nix`, the source is found in the store.
    host.link("/nix/var", "/nix/var");
    let entry = DirEntryOrExplicitMount::explicit_mount_with_dest_file_name(
        p("/nix/var/nix/profile/bin/hello"),
        &p("/usr/bin/greet"),
    );
    let end = host.mirror(context().bind_mount_entry(entry));
    assert_eq!(end, End::Done);
    assert_eq!(
        host.done,
        vec![
            format!("touch {}/greet", ROOT),
            format!(
                "mount bind rec private /some/store/store/abc-hello/bin/hello {}/greet",
                ROOT
            ),
        ]
    );
}

#[test]
fn mirror_stops_when_a_directory_cannot_be_listed() {
    let entry = DirEntryOrExplicitMount::from(p("/"), b"etc".to_vec());
    let (state, step) = context().bind_mount_entry(entry);
    assert_eq!(step.next, Next::Ask(Query::Kind(p("/etc"))));
    let (state, step) = state.step(Reply::Kind(Some(NodeKind::Directory)));
    assert_eq!(step.next, Next::Ask(Query::Exists(p(&format!("{}/etc", ROOT)))));
    let (state, step) = state.step(Reply::Flag(true));
    assert_eq!(step.next, Next::Ask(Query::IsDir(p(&format!("{}/etc", ROOT)))));
    let (state, step) = state.step(Reply::Flag(true));
    assert_eq!(step.next, Next::Ask(Query::List(p("/etc"))));
    let (state, step) = state.step(Reply::Names(None));
    assert_eq!(step.next, Next::Abort(Fatal::ListFailed));
    assert!(state.is_finished());
    let (_, step) = state.step(Reply::Flag(true));
    assert_eq!(step.next, Next::Abort(Fatal::Unexpected));
}

#[test]
fn mirror_stops_when_a_link_cannot_be_resolved() {
    let entry = DirEntryOrExplicitMount::from(p("/"), b"lib".to_vec());
    let (state, _) = context().bind_mount_entry(entry);
    let (state, _) = state.step(Reply::Kind(Some(NodeKind::Symlink)));
    let (state, step) = state.step(Reply::Flag(false));
    assert_eq!(step.next, Next::Ask(Query::IsSymlink(p("/lib"))));
    let (state, step) = state.step(Reply::Flag(true));
    assert_eq!(step.next, Next::Ask(Query::ReadLink(p("/lib"))));
    let (_, step) = state.step(Reply::Link(None));
    assert_eq!(step.next, Next::Abort(Fatal::BrokenLink));
}

#[test]
fn mirror_refuses_an_answer_that_does_not_fit() {
    let entry = DirEntryOrExplicitMount::from(p("/"), b"etc".to_vec());
    let (state, _) = context().bind_mount_entry(entry);
    let (_, step) = state.step(Reply::Flag(true));
    assert_eq!(step.next, Next::Abort(Fatal::Unexpected));
}

#[test]
fn mirror_goes_on_when_a_mount_fails() {
    let mut host = small_host();
    host.refuse_mount_of.push("/vmlinuz".to_string());
    host.dir(&format!("{}/etc", ROOT));
    let queue = vec![
        nix_user_chroot::mirror::Job {
            ctx: context(),
            entry: DirEntryOrExplicitMount::from(p("/"), b"vmlinuz".to_vec()),
        },
        nix_user_chroot::mirror::Job {
            ctx: context(),
            entry: DirEntryOrExplicitMount::from(p("/"), b"bin".to_vec()),
        },
    ];
    let end = host.mirror(Mirror::begin(queue));
    assert_eq!(end, End::Done);
    assert_eq!(host.reported, vec!["cannot mount /vmlinuz".to_string()]);
    assert_eq!(host.stat(&format!("{}/bin/true", ROOT)), Some(Node::File(b"true".to_vec())));
}

#[test]
fn entries_say_their_name_and_path() {
    let entry = DirEntryOrExplicitMount::from(p("/etc"), b"group".to_vec());
    assert_eq!(entry.file_name(), Some(b"group".to_vec()));
    assert_eq!(entry.path(), p("/etc/group"));
    assert_eq!(entry.metadata(), Query::Kind(p("/etc/group")));
    let entry =
        DirEntryOrExplicitMount::explicit_mount_with_dest_file_name(
            p("/home/foo/groups"),
            &p("/etc/group"),
        );
    assert_eq!(entry.file_name(), Some(b"group".to_vec()));
    assert_eq!(entry.path(), p("/home/foo/groups"));
    assert_eq!(entry.metadata(), Query::Kind(p("/home/foo/groups")));
    let entry =
        DirEntryOrExplicitMount::explicit_mount_with_dest_file_name(p("/home/foo"), &p("/"));
    assert_eq!(entry.file_name(), None);
    assert_eq!(entry.clone(), entry);
}

#[test]
fn context_keeps_the_store() {
    let ctx = RunChroot::new(p("/tmp/r"), p("/s"));
    assert_eq!(ctx.rootdir(), &p("/tmp/r"));
    assert_eq!(ctx.nixdir(), &p("/s"));
    let inner = ctx.with_rootdir(p("/tmp/r/etc"));
    assert_eq!(inner.rootdir(), &p("/tmp/r/etc"));
    assert_eq!(inner.nixdir(), &p("/s"));
    assert_eq!(ctx.clone(), ctx);
}

// The construction as a whole.

#[test]
fn construction_runs_true_and_the_parent_leaves_with_its_status() {
    let mut host = small_host();
    let end = host.construct(begin(None, "/bin/true", &[]));
    assert_eq!(end, End::Done);
    assert_eq!(
        host.exec,
        Some((
            "/bin/true".to_string(),
            vec![],
            "NIX_CONF_DIR".to_string(),
            "/nix/etc/nix".to_string()
        ))
    );
    let (_, step) = wait_for_child(Waiter::new(p(ROOT)), WaitEvent::Exited(0));
    assert_eq!(step.next, WaitNext::Leave(0));
    assert_eq!(
        step.commands[0].action,
        ParentAction::RemoveTree { path: p(ROOT), tolerate_missing: false }
    );
    assert_eq!(step.commands[0].on_failure, OnFailure::Abort);
}

#[test]
fn construction_sets_the_configuration_directory() {
    let mut host = small_host();
    let end = host.construct(begin(None, "/bin/sh", &["-c", "echo $NIX_CONF_DIR"]));
    assert_eq!(end, End::Done);
    let (program, args, variable, value) = host.exec.clone().unwrap();
    assert_eq!(program, "/bin/sh");
    assert_eq!(args, vec!["-c".to_string(), "echo $NIX_CONF_DIR".to_string()]);
    assert_eq!(variable, "NIX_CONF_DIR");
    assert_eq!(value, "/nix/etc/nix");
    assert_eq!(host.view("/nix/etc/nix/nix.conf"), Some(Node::File(b"conf".to_vec())));
}

#[test]
fn construction_shows_the_store_at_nix() {
    let mut host = small_host();
    let end = host.construct(begin(None, "/bin/ls", &["/nix"]));
    assert_eq!(end, End::Done);
    assert_eq!(host.view_list("/nix"), host.list(STORE));
    assert_eq!(
        host.view_list("/nix"),
        Some(vec!["etc".to_string(), "store".to_string(), "var".to_string()])
    );
    assert_eq!(
        host.view("/nix/store/abc-hello/bin/hello"),
        Some(Node::File(b"hello".to_vec()))
    );
    assert!(host.done.contains(&format!("mount bind rec {} {}/nix", STORE, ROOT)));
}

#[test]
fn construction_hides_an_existing_nix() {
    let mut host = small_host();
    host.file("/nix/store/old/file", "old");
    let end = host.construct(begin(None, "/bin/ls", &["/nix"]));
    assert_eq!(end, End::Done);
    assert_eq!(host.view_list("/nix"), host.list(STORE));
    assert_eq!(host.view("/nix/store/old/file"), None);
}

#[test]
fn construction_mirrors_every_entry_of_the_root() {
    let mut host = small_host();
    let before = host.list("/").unwrap();
    let end = host.construct(begin(None, "/bin/true", &[]));
    assert_eq!(end, End::Done);
    let mut expected: Vec<String> = before.iter().filter(|n| *n != "nix").cloned().collect();
    expected.push("nix".to_string());
    expected.sort();
    let mut seen = host.view_list("/").unwrap();
    seen.sort();
    assert_eq!(seen, expected);
    for name in before.iter().filter(|n| *n != "nix") {
        let outside = host.lstat(&format!("/{}", name)).unwrap();
        let inside = host.view_entry(&format!("/{}", name)).unwrap();
        match outside {
            Node::Link(_) => assert!(matches!(inside, Node::Link(_)), "{}", name),
            other => assert_eq!(inside, other, "{}", name),
        }
    }
    assert_eq!(host.view("/etc/hostname"), Some(Node::File(b"thehost\n".to_vec())));
    assert_eq!(host.view("/lib/libc.so"), Some(Node::File(b"libc".to_vec())));
}

#[test]
fn construction_keeps_the_order_of_its_steps() {
    let mut host = small_host();
    let end = host.construct(begin(None, "/bin/true", &[]));
    assert_eq!(end, End::Done);
    assert_eq!(host.done.first(), Some(&"unshare".to_string()));
    let tail: Vec<String> = host.done[host.done.len() - 9..].to_vec();
    assert_eq!(
        tail,
        vec![
            format!("mkdir {}/nix", ROOT),
            format!("mount bind rec {} {}/nix", STORE, ROOT),
            format!("chroot {}", ROOT),
            "cd /".to_string(),
            "write /proc/self/setgroups deny".to_string(),
            "write /proc/self/uid_map 1000 1000 1".to_string(),
            "write /proc/self/gid_map 100 100 1".to_string(),
            "cd /home/user".to_string(),
            "exec /bin/true".to_string(),
        ]
    );
    assert_eq!(host.cwd, Some("/home/user".to_string()));
}

#[test]
fn construction_maps_the_identity() {
    let mut host = small_host();
    host.refuse_write_to.push("/proc/self/setgroups".to_string());
    let end = host.construct(begin(None, "/bin/true", &[]));
    assert_eq!(end, End::Done);
    assert_eq!(host.written.get("/proc/self/uid_map"), Some(&b"1000 1000 1".to_vec()));
    assert_eq!(host.written.get("/proc/self/gid_map"), Some(&b"100 100 1".to_vec()));
    assert_eq!(host.written.get("/proc/self/setgroups"), None);
}

#[test]
fn construction_stops_when_the_identity_cannot_be_mapped() {
    let mut host = small_host();
    host.refuse_write_to.push("/proc/self/uid_map".to_string());
    let end = host.construct(begin(None, "/bin/true", &[]));
    assert_eq!(end, End::Failed("cannot write /proc/self/uid_map".to_string()));
    assert_eq!(host.exec, None);
}

#[test]
fn construction_leaves_with_failure_when_the_program_is_missing() {
    let mut host = small_host();
    let end = host.construct(begin(None, "/bin/missing", &[]));
    assert_eq!(end, End::Exit);
}

#[test]
fn construction_excludes_a_path() {
    let mut host = small_host();
    let config = policy(&["/etc/hostname"], &[], &[]);
    let end = host.construct(begin(Some(config), "/bin/cat", &["/etc/hostname"]));
    assert_eq!(end, End::Done);
    assert_eq!(host.view("/etc/hostname"), Some(Node::File(Vec::new())));
    assert_eq!(host.view("/etc/group"), Some(Node::File(b"root:x:0:\n".to_vec())));
    assert!(!host.mounts.iter().any(|(target, _)| *target == format!("{}/etc/hostname", ROOT)));
    let placed = host
        .done
        .iter()
        .position(|c| *c == format!("mount bind rec private /dev/null {}/etc/hostname", ROOT))
        .unwrap();
    let released =
        host.done.iter().position(|c| *c == format!("umount {}/etc/hostname", ROOT)).unwrap();
    let overlay =
        host.done.iter().position(|c| *c == format!("mount bind rec {} {}/nix", STORE, ROOT));
    let overlay = overlay.unwrap();
    assert!(placed < released && released < overlay);
}

#[test]
fn construction_mounts_an_absolute_source() {
    let mut host = small_host();
    host.file("/tmp/override/group", "wheel:x:10:\n");
    let config = policy(&[], &[], &[("/tmp/override/group", "/etc/group")]);
    let end = host.construct(begin(Some(config), "/bin/cat", &["/etc/group"]));
    assert_eq!(end, End::Done);
    assert_eq!(host.view("/etc/group"), Some(Node::File(b"wheel:x:10:\n".to_vec())));
    assert_eq!(host.view("/etc/hostname"), Some(Node::File(b"thehost\n".to_vec())));
}

#[test]
fn construction_mounts_from_the_profile() {
    let mut host = small_host();
    host.link(&format!("{}/var/nix/profiles/per-user/user/profile", STORE), "/nix/store/abc-hello");
    let config = policy(&[], &[("/bin/hello", "/usr/local/bin/hello"), ("bin", "/opt/bin")], &[]);
    let end = host.construct(begin(Some(config), "/bin/true", &[]));
    assert_eq!(end, End::Done);
    assert_eq!(host.view("/usr/local/bin/hello"), Some(Node::File(b"hello".to_vec())));
    assert_eq!(host.view("/opt/bin/hello"), Some(Node::File(b"hello".to_vec())));
    assert_eq!(host.view("/usr/lib/libc.so"), Some(Node::File(b"libc".to_vec())));
    assert_eq!(host.warnings, Vec::<String>::new());
}

#[test]
fn construction_warns_when_the_profile_is_missing() {
    let mut host = small_host();
    host.file("/tmp/override/group", "wheel:x:10:\n");
    let config = policy(
        &["/etc/hostname"],
        &[("bin/hello", "/usr/local/bin/hello")],
        &[("/tmp/override/group", "/etc/group")],
    );
    let end = host.construct(begin(Some(config), "/bin/true", &[]));
    assert_eq!(end, End::Done);
    assert_eq!(
        host.warnings,
        vec!["no profile for user: bin/hello -> /usr/local/bin/hello".to_string()]
    );
    assert_eq!(host.view("/usr/local/bin/hello"), None);
    assert_eq!(host.view("/etc/group"), Some(Node::File(b"wheel:x:10:\n".to_vec())));
    assert_eq!(host.view("/etc/hostname"), Some(Node::File(Vec::new())));
}

#[test]
fn construction_warns_when_a_source_is_missing() {
    let mut host = small_host();
    let config = policy(&[], &[], &[("/tmp/missing", "/etc/group")]);
    let end = host.construct(begin(Some(config), "/bin/true", &[]));
    assert_eq!(end, End::Done);
    assert_eq!(host.warnings, vec!["no source /tmp/missing".to_string()]);
    assert_eq!(host.view("/etc/group"), Some(Node::File(b"root:x:0:\n".to_vec())));
}

#[test]
fn construction_needs_the_name_of_the_user() {
    let mut host = small_host();
    host.users.clear();
    let config = policy(&[], &[], &[]);
    let end = host.construct(begin(Some(config), "/bin/true", &[]));
    assert_eq!(end, End::Abort(Fatal::UnknownUser));
    assert_eq!(host.done, vec!["unshare".to_string()]);
}

#[test]
fn construction_does_not_ask_for_the_user_without_a_policy() {
    let mut host = small_host();
    host.users.clear();
    let end = host.construct(begin(None, "/bin/true", &[]));
    assert_eq!(end, End::Done);
}

#[test]
fn construction_brings_the_opengl_drivers() {
    let mut host = small_host();
    host.file(&format!("{}/var/nix/opengl-driver/lib/libGL.so", STORE), "gl");
    host.dir("/run/user");
    let end = host.construct(begin(None, "/bin/true", &[]));
    assert_eq!(end, End::Done);
    assert_eq!(
        host.done[..3].to_vec(),
        vec![
            "unshare".to_string(),
            format!("mkdir -p {}/run/opengl-driver/lib", ROOT),
            format!(
                "mount bind rec private {}/var/nix/opengl-driver/lib {}/run/opengl-driver/lib",
                STORE, ROOT
            ),
        ]
    );
    assert_eq!(host.view("/run/opengl-driver/lib/libGL.so"), Some(Node::File(b"gl".to_vec())));
    assert_eq!(host.view("/run/user"), Some(Node::Dir));
}

#[test]
fn construction_first_asks_for_the_opengl_drivers() {
    let (state, step) = begin(None, "/bin/true", &[]);
    assert_eq!(step.commands, vec![strict(Action::Unshare)]);
    assert_eq!(
        step.next,
        Next::Ask(Query::IsDir(p(&format!("{}/var/nix/opengl-driver/lib", STORE))))
    );
    assert!(!state.is_finished());
    let (state, step) = state.step(Reply::Flag(false));
    assert_eq!(step.commands, vec![]);
    assert_eq!(step.next, Next::Ask(Query::List(p("/"))));
    let (state, step) = state.step(Reply::Names(None));
    assert_eq!(step.next, Next::Abort(Fatal::ListFailed));
    assert!(state.is_finished());
    let (_, step) = state.step(Reply::Flag(false));
    assert_eq!(step.next, Next::Abort(Fatal::Unexpected));
}

#[test]
fn construction_asks_for_the_user_under_a_policy() {
    let (state, _) = begin(Some(policy(&[], &[], &[])), "/bin/true", &[]);
    let (state, step) = state.step(Reply::Flag(false));
    assert_eq!(step.next, Next::Ask(Query::UserName(1000)));
    let (state, step) = state.step(Reply::UserName(Some(b"user".to_vec())));
    assert_eq!(
        step.next,
        Next::Ask(Query::IsSymlink(p(&format!(
            "{}/var/nix/profiles/per-user/user/profile",
            STORE
        ))))
    );
    let (_, step) = state.step(Reply::Names(None));
    // The profile directory cannot be resolved, there is nothing to mount:
    // the construction turns to the root.
    assert_eq!(step.commands, vec![]);
    assert_eq!(step.next, Next::Ask(Query::List(p("/"))));
}

#[test]
fn construction_refuses_a_relative_destination() {
    let config = policy(&["etc/hostname"], &[], &[]);
    let start = context().run_chroot(b"/bin/true".to_vec(), vec![], Some(config), 0, 0, p("/"));
    assert_eq!(start.err(), Some(PolicyError::RelativeDestination(p("etc/hostname"))));
    let config = policy(&[], &[("bin", "opt/bin")], &[]);
    let start = context().run_chroot(b"/bin/true".to_vec(), vec![], Some(config), 0, 0, p("/"));
    assert_eq!(start.err(), Some(PolicyError::RelativeDestination(p("opt/bin"))));
}

#[test]
fn construction_refuses_a_relative_source() {
    let config = policy(&[], &[], &[("tmp/group", "/etc/group")]);
    let start = context().run_chroot(b"/bin/true".to_vec(), vec![], Some(config), 0, 0, p("/"));
    assert_eq!(start.err(), Some(PolicyError::RelativeSource(p("tmp/group"))));
}

#[test]
fn construction_makes_a_nix_link_work() {
    let mut host = small_host();
    host.link("/interp", "/nix/store/abc-hello/bin/hello");
    host.file(&format!("{}/bin/foo", STORE), "#!/interp\n");
    let end = host.construct(begin(None, "/nix/bin/foo", &[]));
    assert_eq!(end, End::Done);
    assert_eq!(
        host.view_entry("/interp"),
        Some(Node::Link("/some/store/store/abc-hello/bin/hello".to_string()))
    );
    assert_eq!(host.view("/interp"), Some(Node::File(b"hello".to_vec())));
    assert_eq!(host.view("/nix/store/abc-hello/bin/hello"), Some(Node::File(b"hello".to_vec())));
    assert_eq!(host.exec.clone().unwrap().0, "/nix/bin/foo");
}

#[test]
fn construction_keeps_other_links_as_they_are() {
    let mut host = small_host();
    host.link("/sbin", "/usr/sbin");
    let end = host.construct(begin(None, "/bin/true", &[]));
    assert_eq!(end, End::Done);
    assert_eq!(host.view_entry("/sbin"), Some(Node::Link("/usr/sbin".to_string())));
}
