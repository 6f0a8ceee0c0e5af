use nis::text::trim;
use nis::nginx::{get_nginx_pid, pid_from_text, reload_nginx, ReloadError};
use nis::settings::{AcmeConfiguration, Configuration, DockerConfiguration, DockerSettings, NginxSettings, Settings};
use nis::worker::{CompletionTracker, Lifecycle, LifecycleAction, LifecycleInput, WorkerPhase};

#[test]
fn pid_file_content_is_trimmed_and_parsed() {
    assert_eq!(get_nginx_pid("1234"), Ok(1234));
    assert_eq!(get_nginx_pid("\t 4321 \n"), Ok(4321));
    assert_eq!(get_nginx_pid("2147483647\n"), Ok(2147483647));
    assert_eq!(get_nginx_pid("\r\n\u{a0}99\u{2003}\u{3000}"), Ok(99));
}

#[test]
fn pid_file_without_a_process_id_is_rejected() {
    assert_eq!(get_nginx_pid(""), Err(ReloadError::InvalidPid));
    assert_eq!(get_nginx_pid("nginx"), Err(ReloadError::InvalidPid));
    assert_eq!(get_nginx_pid("0"), Err(ReloadError::InvalidPid));
    assert_eq!(get_nginx_pid("-1"), Err(ReloadError::InvalidPid));
    assert_eq!(get_nginx_pid("2147483648"), Err(ReloadError::InvalidPid));
    assert_eq!(pid_from_text(" 12"), Err(ReloadError::InvalidPid));
    assert_eq!(get_nginx_pid(" \u{a0}\u{3000}"), Err(ReloadError::InvalidPid));
}

#[test]
fn unreadable_pid_file_is_its_own_error() {
    assert_eq!(reload_nginx(None), Err(ReloadError::PidUnreadable));
    assert_eq!(reload_nginx(Some("77\n")), Ok(77));
    assert_eq!(reload_nginx(Some("x")), Err(ReloadError::InvalidPid));
}

#[test]
fn idle_worker_is_done_on_shutdown() {
    let mut w = Lifecycle::new();
    assert_eq!(w.step(LifecycleInput::ShutdownSignal), LifecycleAction::ReportDone);
    assert_eq!(w.phase, WorkerPhase::Done);
    assert_eq!(w.step(LifecycleInput::ShutdownSignal), LifecycleAction::Wait);
    assert_eq!(w.step(LifecycleInput::PassFinished), LifecycleAction::Wait);
    assert_eq!(w.step(LifecycleInput::ContainerChanged), LifecycleAction::Wait);
}

#[test]
fn busy_worker_drains_before_done() {
    let mut w = Lifecycle::new();
    assert_eq!(w.step(LifecycleInput::ContainerChanged), LifecycleAction::StartPass);
    assert_eq!(w.step(LifecycleInput::ContainerChanged), LifecycleAction::Wait);
    assert_eq!(w.step(LifecycleInput::ShutdownSignal), LifecycleAction::Wait);
    assert_eq!(w.phase, WorkerPhase::Draining);
    assert_eq!(w.step(LifecycleInput::ContainerChanged), LifecycleAction::Wait);
    assert_eq!(w.step(LifecycleInput::PassFinished), LifecycleAction::ReportDone);
    assert_eq!(w.phase, WorkerPhase::Done);
    assert_eq!(w.step(LifecycleInput::PassFinished), LifecycleAction::Wait);
}

#[test]
fn change_during_a_pass_gives_one_more_pass() {
    let mut w = Lifecycle::new();
    assert_eq!(w.step(LifecycleInput::ContainerChanged), LifecycleAction::StartPass);
    assert_eq!(w.step(LifecycleInput::ContainerChanged), LifecycleAction::Wait);
    assert_eq!(w.step(LifecycleInput::ContainerChanged), LifecycleAction::Wait);
    assert_eq!(w.step(LifecycleInput::PassFinished), LifecycleAction::StartPass);
    assert_eq!(w.step(LifecycleInput::PassFinished), LifecycleAction::Wait);
    assert!(!w.in_flight);
    assert_eq!(w.step(LifecycleInput::StreamClosed), LifecycleAction::ReportDone);
}

#[test]
fn process_waits_for_every_worker() {
    let mut t = CompletionTracker::new(3);
    assert!(!t.all_reported());
    assert!(t.report(1));
    assert!(!t.report(1));
    assert!(t.report(0));
    assert!(!t.all_reported());
    assert!(t.report(2));
    assert!(t.all_reported());
    assert!(CompletionTracker::new(0).all_reported());
}

fn configuration(docker: Option<Option<&str>>) -> Configuration {
    Configuration {
        nginx_pid_file: "/run/nginx.pid".to_string(),
        servers_path: "/etc/nginx/conf.d".to_string(),
        docker: docker.map(|p| DockerConfiguration { label_prefix: p.map(|s| s.to_string()) }),
        acme: Some(AcmeConfiguration { email: "ops@example.org".to_string() }),
    }
}

#[test]
fn settings_follow_the_configuration() {
    let c = configuration(Some(Some("nis.")));
    assert_eq!(
        NginxSettings::new(&c),
        NginxSettings { pid_file_path: "/run/nginx.pid".to_string(), servers_path: "/etc/nginx/conf.d".to_string() }
    );
    assert_eq!(DockerSettings::new(&c), Some(DockerSettings { label_prefix: Some("nis.".to_string()) }));
    assert_eq!(DockerSettings::new(&configuration(Some(None))), Some(DockerSettings { label_prefix: None }));
    assert_eq!(DockerSettings::new(&configuration(None)), None);
    let s = Settings::new(&c);
    assert_eq!(s.nginx.servers_path, "/etc/nginx/conf.d");
    assert_eq!(s.docker.as_ref().unwrap().label_prefix.as_deref(), Some("nis."));
    assert!(Settings::new(&configuration(None)).docker.is_none());
}

#[test]
fn trimming_matches_str_trim() {
    for s in ["", "  ", " a b ", "\u{85}x\u{2029}", "x\u{200b}", "\t\n 12\r\n", "\u{feff}1"] {
        assert_eq!(trim(s), s.trim(), "{:?}", s);
    }
}
