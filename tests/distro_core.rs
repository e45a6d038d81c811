use distrod_core::bin_path::{
    add_distrod_bin_to_path, path_has_distrod_bin,
    remove_distrod_bin_from_path,
};
use distrod_core::distro::{
    check_run_info_owner, cleanup_distro_rootfs, Credential, cleanup_etc_environment_file,
    initialize_distro_rootfs, join_path, setup_etc_environment_file, Distro, DistroError,
    DistroRunInfo, RootfsActionKind,
};
use distrod_core::envfile::EnvFile;
use distrod_core::process::ProcessHandle;
use distrod_core::waiter::{ExitStatus, Waiter};

fn lines_of(env: &EnvFile) -> Vec<String> {
    env.lines()
}

fn owned(v: &[&str]) -> Vec<String> {
    v.iter().map(|s| s.to_string()).collect()
}

#[test]
fn env_file_put_and_remove_keep_order_and_comments() {
    let mut env = EnvFile::from_lines(owned(&["FOO=1", "# comment", "BAR=2"]));
    env.put("FOO", "9");
    assert_eq!(lines_of(&env), owned(&["FOO=9", "# comment", "BAR=2"]));
    env.remove("BAR");
    assert_eq!(lines_of(&env), owned(&["FOO=9", "# comment"]));
}

#[test]
fn env_file_get_uses_last_entry() {
    let env = EnvFile::from_lines(owned(&["A=1", "", "A=2", "#A=3", "B=x=y"]));
    assert_eq!(env.get("A"), Some("2".to_string()));
    assert_eq!(env.get("B"), Some("x=y".to_string()));
    assert_eq!(env.get("C"), None);
    assert_eq!(env.get("#A"), None);
}

#[test]
fn env_file_put_appends_new_key_and_rewrites_last() {
    let mut env = EnvFile::from_lines(owned(&["A=1", "A=2"]));
    env.put("A", "3");
    env.put("NEW", "v");
    assert_eq!(lines_of(&env), owned(&["A=1", "A=3", "NEW=v"]));
}

#[test]
fn env_file_remove_absent_key_is_noop() {
    let mut env = EnvFile::from_lines(owned(&["A=1", "# c"]));
    env.remove("Z");
    assert_eq!(lines_of(&env), owned(&["A=1", "# c"]));
    let mut empty = EnvFile::new();
    empty.remove("A");
    assert!(lines_of(&empty).is_empty());
}

#[test]
fn add_then_remove_bin_gives_path_back() {
    let s = "/usr/local/bin:/usr/bin";
    let added = add_distrod_bin_to_path(s);
    assert_eq!(added, "/opt/distrod/bin:/usr/local/bin:/usr/bin");
    assert_eq!(remove_distrod_bin_from_path(&added), s);
    assert_eq!(remove_distrod_bin_from_path(&add_distrod_bin_to_path("")), "");
}

#[test]
fn remove_bin_from_end_and_absent() {
    assert_eq!(remove_distrod_bin_from_path("/usr/bin:/opt/distrod/bin"), "/usr/bin");
    assert_eq!(remove_distrod_bin_from_path("/usr/bin:/bin"), "/usr/bin:/bin");
}

#[test]
fn add_bin_is_idempotent() {
    let once = add_distrod_bin_to_path("/usr/bin");
    let twice = add_distrod_bin_to_path(&once);
    assert_eq!(once, "/opt/distrod/bin:/usr/bin");
    assert_eq!(twice, once);
    assert_eq!(twice.matches("/opt/distrod/bin").count(), 1);
    assert!(path_has_distrod_bin(&once));
    assert!(!path_has_distrod_bin("/usr/bin"));
}

#[test]
fn non_directory_is_rejected() {
    assert!(Distro::get_installed_distro("/etc/passwd".to_string(), false).is_none());
    assert_eq!(
        initialize_distro_rootfs("/etc/passwd", false, true).err(),
        Some(DistroError::NotADirectory)
    );
    assert_eq!(
        cleanup_distro_rootfs("/etc/passwd", false).err(),
        Some(DistroError::NotADirectory)
    );
}

#[test]
fn installed_distro_is_unlaunched() {
    let d = Distro::get_installed_distro("/var/lib/rootfs".to_string(), true).unwrap();
    assert_eq!(d.rootfs(), "/var/lib/rootfs");
    assert_eq!(d.init_pid(), None);
    assert_eq!(d.environment_file_path(), "/var/lib/rootfs/etc/environment");
}

#[test]
fn stale_run_info_gives_no_distro() {
    let rec = DistroRunInfo { rootfs: "/r".to_string(), init_pid: 4242 };
    assert!(Distro::get_running_distro(Some(rec), false).is_none());
    assert!(Distro::get_running_distro(None, true).is_none());
    let rec = DistroRunInfo { rootfs: "/r".to_string(), init_pid: 4242 };
    let d = Distro::get_running_distro(Some(rec), true).unwrap();
    assert_eq!(d.init_pid(), Some(4242));
    assert_eq!(d.rootfs(), "/r");
}

#[test]
fn reused_pid_is_not_alive() {
    let h = ProcessHandle::from_pid(77, Some(1000)).unwrap();
    assert!(h.is_alive(Some(1000)));
    assert!(!h.is_alive(Some(2000)));
    assert!(!h.is_alive(None));
    assert!(ProcessHandle::from_pid(77, None).is_none());
    let later = ProcessHandle::from_pid(77, Some(2000)).unwrap();
    assert_ne!(h, later);
}

#[test]
fn export_before_launch_fails() {
    let d = Distro::get_installed_distro("/r".to_string(), true).unwrap();
    assert_eq!(d.export_run_info().err(), Some(DistroError::NotLaunched));
    assert_eq!(
        d.exec_command("ls".to_string(), vec![], None, None, None, None).err(),
        Some(DistroError::NotLaunched)
    );
    assert_eq!(d.stop(false).err(), Some(DistroError::NotLaunched));
}

#[test]
fn launch_then_export_and_exec() {
    let mut d = Distro::get_installed_distro("/r".to_string(), true).unwrap();
    let info = d.launch(321).unwrap();
    assert_eq!(info.rootfs, "/r");
    assert_eq!(info.init_pid, 321);
    assert_eq!(d.export_run_info().unwrap().init_pid, 321);
    let req = d
        .exec_command(
            "ls".to_string(),
            vec!["-l".to_string()],
            Some("/tmp".to_string()),
            None,
            Some(Credential { uid: 1000, gid: 100, groups: vec![27, 44] }),
            Some("/usr/bin".to_string()),
        )
        .unwrap();
    assert_eq!(req.init_pid, 321);
    assert_eq!(req.path, "/opt/distrod/bin:/usr/bin");
    assert_eq!(req.args, vec!["-l".to_string()]);
    assert_eq!(req.working_dir, Some("/tmp".to_string()));
    let cred = req.cred.unwrap();
    assert_eq!((cred.uid, cred.gid, cred.groups), (1000, 100, vec![27, 44]));
    let req = d
        .exec_command(
            "sh".to_string(),
            vec![],
            None,
            Some("-sh".to_string()),
            None,
            Some("/opt/distrod/bin:/usr/bin".to_string()),
        )
        .unwrap();
    assert_eq!(req.path, "/opt/distrod/bin:/usr/bin");
    assert_eq!(req.arg0, Some("-sh".to_string()));
    assert!(req.cred.is_none());
    let stop = d.stop(true).unwrap();
    assert_eq!(stop.init_pid, 321);
    assert!(stop.sigkill);
}

#[test]
fn launch_and_stop_round_trip_environment() {
    let mut env = EnvFile::new();
    let vars = vec![("WSL_DISTRO_NAME".to_string(), "Ubuntu".to_string())];
    setup_etc_environment_file(&mut env, &vars);
    assert_eq!(env.get("PATH"), Some("/opt/distrod/bin:".to_string()));
    assert_eq!(env.get("WSL_DISTRO_NAME"), Some("Ubuntu".to_string()));
    let mut d = Distro::get_installed_distro("/r".to_string(), true).unwrap();
    let info = d.launch(99).unwrap();
    let keys = vec!["WSL_DISTRO_NAME".to_string()];
    cleanup_etc_environment_file(&mut env, &keys);
    assert_eq!(env.get("PATH"), None);
    assert_eq!(env.get("WSL_DISTRO_NAME"), None);
    assert!(env.lines().is_empty());
    assert!(d.stop(false).is_ok());
    assert!(Distro::get_running_distro(Some(info), false).is_none());
}

#[test]
fn setup_keeps_existing_bin_and_other_lines() {
    let mut env = EnvFile::from_lines(owned(&["# keep", "PATH=/opt/distrod/bin:/bin"]));
    setup_etc_environment_file(&mut env, &vec![]);
    assert_eq!(lines_of(&env), owned(&["# keep", "PATH=/opt/distrod/bin:/bin"]));
    let mut env = EnvFile::from_lines(owned(&["PATH=/bin", "X=1"]));
    setup_etc_environment_file(&mut env, &vec![]);
    assert_eq!(lines_of(&env), owned(&["PATH=/opt/distrod/bin:/bin", "X=1"]));
    cleanup_etc_environment_file(&mut env, &vec![]);
    assert_eq!(lines_of(&env), owned(&["PATH=/bin", "X=1"]));
}

#[test]
fn mount_marker_detection() {
    assert!(Distro::is_inside_running_distro(None));
    assert!(Distro::is_inside_running_distro(Some(owned(&["/", "/mnt/distrod_root/proc"]))));
    assert!(Distro::is_inside_running_distro(Some(owned(&["/mnt/distrod_root"]))));
    assert!(!Distro::is_inside_running_distro(Some(owned(&["/", "/mnt/distrod_root2"]))));
    assert!(!Distro::is_inside_running_distro(Some(vec![])));
}

#[test]
fn run_info_owner_must_be_root() {
    assert_eq!(check_run_info_owner(0, 0), Ok(()));
    assert_eq!(check_run_info_owner(1000, 0), Err(DistroError::UnsafeRunInfoOwner));
    assert_eq!(check_run_info_owner(0, 1000), Err(DistroError::UnsafeRunInfoOwner));
}

#[test]
fn rootfs_initialization_steps() {
    let steps = initialize_distro_rootfs("/r/", true, true).unwrap();
    let view: Vec<(RootfsActionKind, String)> =
        steps.into_iter().map(|a| (a.kind, a.target)).collect();
    assert_eq!(view.len(), 8);
    assert_eq!(view[0], (RootfsActionKind::RemoveMatching, "/r/etc/systemd/network/*.network".to_string()));
    assert_eq!(view[1], (RootfsActionKind::WriteHostname, "/r/etc/hostname".to_string()));
    assert_eq!(view[2], (RootfsActionKind::RecreateEmpty, "/r/etc/resolv.conf".to_string()));
    assert_eq!(view[3], (RootfsActionKind::DisableUnit, "dhcpcd.service".to_string()));
    assert_eq!(view[7], (RootfsActionKind::MaskUnit, "systemd-modules-load.service".to_string()));
    let steps = initialize_distro_rootfs("/r", true, false).unwrap();
    assert_eq!(steps.len(), 2);
    assert!(steps.iter().all(|a| a.kind == RootfsActionKind::RemoveMatching
        || a.kind == RootfsActionKind::WriteHostname));
    assert_eq!(cleanup_distro_rootfs("/r", true).unwrap(), "/r/etc/environment");
}

#[test]
fn join_path_cases() {
    assert_eq!(join_path("/a", "b"), "/a/b");
    assert_eq!(join_path("/a/", "b"), "/a/b");
    assert_eq!(join_path("", "b"), "b");
}

#[test]
fn waiter_keeps_first_status() {
    let mut w = Waiter::new(12);
    assert_eq!(w.pid(), 12);
    assert_eq!(w.cached_status(), None);
    assert_eq!(w.complete(ExitStatus::Exited(3)), ExitStatus::Exited(3));
    assert_eq!(w.complete(ExitStatus::Signaled(9)), ExitStatus::Exited(3));
    assert_eq!(w.cached_status(), Some(ExitStatus::Exited(3)));
}

#[test]
fn env_file_text_round_trip() {
    let env = EnvFile::from_text("FOO=1\n# comment\n\nBAR=2\n");
    assert_eq!(lines_of(&env), owned(&["FOO=1", "# comment", "", "BAR=2"]));
    assert_eq!(env.to_text(), "FOO=1\n# comment\n\nBAR=2\n");
    let env = EnvFile::from_text("A=1\nB=2");
    assert_eq!(lines_of(&env), owned(&["A=1", "B=2"]));
    assert_eq!(env.to_text(), "A=1\nB=2\n");
    assert!(lines_of(&EnvFile::from_text("")).is_empty());
    assert_eq!(EnvFile::new().to_text(), "");
}

#[test]
fn env_file_scenario_through_text() {
    let mut env = EnvFile::from_text("FOO=1\n# comment\nBAR=2\n");
    env.put("FOO", "9");
    assert_eq!(env.to_text(), "FOO=9\n# comment\nBAR=2\n");
    env.remove("BAR");
    assert_eq!(env.to_text(), "FOO=9\n# comment\n");
}

#[test]
fn setup_then_cleanup_restores_lines() {
    let original = owned(&["# c", "PATH=/usr/bin:/bin", "LANG=C"]);
    let mut env = EnvFile::from_lines(original.clone());
    let vars = vec![("WSLENV".to_string(), "x".to_string()), ("WSL_INTEROP".to_string(), "y".to_string())];
    setup_etc_environment_file(&mut env, &vars);
    assert_eq!(env.get("PATH"), Some("/opt/distrod/bin:/usr/bin:/bin".to_string()));
    let keys = vec!["WSLENV".to_string(), "WSL_INTEROP".to_string()];
    cleanup_etc_environment_file(&mut env, &keys);
    assert_eq!(env.lines(), original);
}
