use systemd_traefik_configuration_provider::dbus::{
    any_read_has_section, create_unit, get_config_files_for_unit,
    get_traefik_config_from_configuration_files, get_traefik_yaml_config_from_configuration_files,
    has_traefik_config_in_configuration_files, is_active_state, is_service_name,
    job_event_for_state, labels_of_directives, list_units, needs_resolving, on_unit_new,
    read_sources, read_unit_sources, section_directives, ListedUnit, Multiplexer, MuxAction,
    MuxEvent, NewUnit, NewUnitArgs, UnitData, UnitFiles, UnitRegistry,
};
use systemd_traefik_configuration_provider::infra::MemoryFileSystem;

fn setup(files_contents: &[&str]) -> (Vec<String>, MemoryFileSystem) {
    let mut fs = MemoryFileSystem::new();
    let mut files = vec![];
    for (i, content) in files_contents.iter().enumerate() {
        let path = format!("/tmp/test_{i}.service");
        fs.add_file(&path, content);
        files.push(path);
    }
    (files, fs)
}

fn listed(fs: &MemoryFileSystem, name: &str, object_path: &str, files: Option<UnitFiles>) -> ListedUnit {
    ListedUnit {
        name: name.to_string(),
        object_path: object_path.to_string(),
        reads: files.map(|files| read_unit_sources(fs, &files)),
    }
}

fn text(s: &str) -> Option<String> {
    Some(s.to_string())
}

fn unit_files(drop_ins: &[&str], fragment: &str) -> UnitFiles {
    UnitFiles {
        drop_in_paths: drop_ins.iter().map(|p| p.to_string()).collect(),
        fragment_path: fragment.to_string(),
    }
}

#[test]
fn test_is_unit_running() {
    let is_running = is_active_state("active");
    assert!(is_running);
}

#[test]
fn test_list_units() {
    let mut fs = MemoryFileSystem::new();
    fs.add_file("/lib/systemd/system/test.service", "[X-Traefik]\nLabel=test");

    let listed = vec![listed(
        &fs,
        "test.service",
        "/org/freedesktop/systemd1/unit/test_service",
        Some(unit_files(&[], "/lib/systemd/system/test.service")),
    )];

    let units = list_units(listed);
    assert!(units.contains_key("test.service"));
}

#[test]
fn test_get_traefik_yaml_config_from_configuration_files() {
    let mut fs = MemoryFileSystem::new();
    fs.add_file("/etc/systemd/system/test.service.d/traefik.conf", "[X-Traefik]\nLabel=label1");
    fs.add_file("/lib/systemd/system/test.service", "[X-Traefik]\nLabel=label2");

    let files = unit_files(
        &["/etc/systemd/system/test.service.d/traefik.conf"],
        "/lib/systemd/system/test.service",
    );

    let config = get_traefik_yaml_config_from_configuration_files(&fs, &files).unwrap();
    assert_eq!(config, vec!["label1".to_string(), "label2".to_string()]);
}

#[test]
fn test_watch_units() {
    let args = NewUnitArgs { id: "new.service".to_string(), unit: "/obj/path".to_string() };

    let mut fs = MemoryFileSystem::new();
    fs.add_file("/lib/systemd/system/new.service", "[X-Traefik]\nLabel=new");

    let mut units = UnitRegistry::new();
    assert!(needs_resolving(&units, &args));
    let files = unit_files(&[], "/lib/systemd/system/new.service");
    let reads = read_unit_sources(&fs, &files);

    let event = on_unit_new(&mut units, &args, Some(&reads)).expect("no new unit event");
    assert_eq!(event.unit, "new.service");

    assert!(units.contains_key("new.service"));
}

#[test]
fn test_get_messages() {
    let mut mux = Multiplexer::new(0);
    assert!(mux.polls_new_units());
    assert!(!mux.polls_changes());

    let action = mux.step(MuxEvent::NewUnit(NewUnit { unit: "new.service".to_string() }));
    assert!(matches!(&action, MuxAction::Subscribe(name) if name == "new.service"));
    assert!(mux.polls_changes());

    let action = mux.step(MuxEvent::StateChanged {
        unit_name: "new.service".to_string(),
        state: Some("active".to_string()),
    });
    let job = match action {
        MuxAction::Forward(job) => job,
        other => panic!("no job event: {:?}", other),
    };
    assert_eq!(job.unit_name, "new.service");
    assert!(job.started);

    assert!(!mux.finished());
    mux.step(MuxEvent::ChangesExhausted);
    assert!(!mux.finished());
    mux.step(MuxEvent::NewUnitsClosed);
    assert!(mux.finished());
}

#[test]
fn test_get_traefik_config_from_configuration_files_with_traefik_section() {
    let (files, fs) = setup(&[r#"[Unit]
Description=Test Service

[Service]
Type=simple
ExecStart=/usr/bin/test

[X-Traefik]
Label=test.service.label1
Label=test.service.label2
"#]);

    let result = get_traefik_config_from_configuration_files(&fs, &files).unwrap();

    assert_eq!(result.len(), 2);
    assert_eq!(result[0], "test.service.label1");
    assert_eq!(result[1], "test.service.label2");
}

#[test]
fn test_get_traefik_config_from_configuration_files_without_traefik_section() {
    let (files, fs) = setup(&[r#"[Unit]
Description=Test Service

[Service]
Type=simple
ExecStart=/usr/bin/test
"#]);

    let result = get_traefik_config_from_configuration_files(&fs, &files).unwrap();

    assert_eq!(result.len(), 0);
}

#[test]
fn test_get_traefik_config_from_configuration_files_multiple_files() {
    let (files, fs) = setup(&[
        r#"[X-Traefik]
Label=file1.label1
Label=file1.label2
"#,
        r#"[X-Traefik]
Label=file2.label1
"#,
    ]);

    let result = get_traefik_config_from_configuration_files(&fs, &files).unwrap();

    assert_eq!(result.len(), 3);
    assert_eq!(result[0], "file1.label1");
    assert_eq!(result[1], "file1.label2");
    assert_eq!(result[2], "file2.label1");
}

#[test]
fn test_traefik_config_parsing_edge_cases() {
    let (files, fs) = setup(&[r#"[X-Traefik]
"#]);

    let result = get_traefik_config_from_configuration_files(&fs, &files).unwrap();

    assert_eq!(result.len(), 0);
}

#[test]
fn test_traefik_config_with_mixed_directives() {
    let (files, fs) = setup(&[r#"[X-Traefik]
Label=traefik.label1
OtherDirective=should_be_ignored
Label=traefik.label2
AnotherDirective=also_ignored
Label=traefik.label3
"#]);

    let result = get_traefik_config_from_configuration_files(&fs, &files).unwrap();

    assert_eq!(result.len(), 3);
    assert_eq!(result[0], "traefik.label1");
    assert_eq!(result[1], "traefik.label2");
    assert_eq!(result[2], "traefik.label3");
}

#[test]
fn test_traefik_label_extraction_with_multiple_sections() {
    let (files, fs) = setup(&[r#"[Unit]
Description=Multi Section Service

[Service]
Type=simple
ExecStart=/usr/bin/app

[X-Traefik]
Label=traefik.http.routers.app.rule=Host(`app.example.com`)
Label=traefik.http.routers.app.entrypoints=websecure
Label=traefik.http.services.app.loadbalancer.server.port=8080

[Install]
WantedBy=multi-user.target
"#]);

    let result = get_traefik_config_from_configuration_files(&fs, &files).unwrap();

    assert_eq!(result.len(), 3);
    assert!(result[0].contains("routers.app.rule"));
    assert!(result[1].contains("entrypoints"));
    assert!(result[2].contains("loadbalancer.server.port"));
}

#[test]
fn test_config_parsing_with_special_characters_in_labels() {
    let (files, fs) = setup(&[r#"[X-Traefik]
Label=traefik.http.routers.app.rule=Host(`app.example.com`) && PathPrefix(`/api`)
Label=traefik.http.middlewares.app-headers.headers.customrequestheaders.X-Custom-Header=value-with-dash
"#]);
    let result = get_traefik_config_from_configuration_files(&fs, &files).unwrap();

    assert_eq!(result.len(), 2);
    assert!(result[0].contains("&&"));
    assert!(result[1].contains("X-Custom-Header"));
}

#[test]
fn test_multiple_files_with_and_without_traefik() {
    let (files, fs) = setup(&[
        r#"[X-Traefik]
Label=app.traefik
"#,
        r#"[Unit]
Description=No Traefik

[Service]
ExecStart=/bin/true
"#,
    ]);

    let result = get_traefik_config_from_configuration_files(&fs, &files).unwrap();

    assert_eq!(result.len(), 1);
    assert_eq!(result[0], "app.traefik");
}

#[test]
fn labels_of_no_source_are_none() {
    let fs = MemoryFileSystem::new();
    assert_eq!(get_traefik_config_from_configuration_files(&fs, &vec![]).unwrap(), Vec::<String>::new());
    let files = unit_files(&["/missing.conf"], "/missing.service");
    assert_eq!(
        get_traefik_yaml_config_from_configuration_files(&fs, &files).unwrap(),
        Vec::<String>::new()
    );
}

#[test]
fn labels_fail_with_a_source_that_cannot_be_read() {
    let (mut files, mut fs) = setup(&["[X-Traefik]\nLabel=a\n"]);
    files.push("/tmp/missing.service".to_string());
    assert!(get_traefik_config_from_configuration_files(&fs, &files).is_err());

    fs.add_unreadable_file("/tmp/locked.service");
    let unit = unit_files(&["/tmp/test_0.service"], "/tmp/locked.service");
    assert!(get_traefik_yaml_config_from_configuration_files(&fs, &unit).is_err());
}

#[test]
fn service_names_end_in_dot_service() {
    assert!(is_service_name("web.service"));
    assert!(is_service_name(".service"));
    assert!(!is_service_name("web.socket"));
    assert!(!is_service_name("web.service "));
    assert!(!is_service_name("service"));
    assert!(!is_service_name(""));
    assert!(!is_service_name("web.SERVICE"));
}

#[test]
fn only_the_state_active_counts_as_started() {
    assert!(is_active_state("active"));
    assert!(!is_active_state("inactive"));
    assert!(!is_active_state("activating"));
    assert!(!is_active_state("Active"));
    assert!(!is_active_state(""));
    let job = job_event_for_state("web.service", "failed");
    assert_eq!(job.unit_name, "web.service");
    assert!(!job.started);
}

#[test]
fn names_that_are_no_service_are_never_registered() {
    let mut fs = MemoryFileSystem::new();
    fs.add_file("/lib/systemd/system/web.socket", "[X-Traefik]\nLabel=x");
    let files = unit_files(&[], "/lib/systemd/system/web.socket");
    let reads = read_unit_sources(&fs, &files);
    assert!(any_read_has_section(&reads));

    assert!(create_unit("web.socket".to_string(), "/obj".to_string(), Some(&reads)).is_none());

    let units = list_units(vec![listed(&fs, "web.socket", "/obj", Some(files))]);
    assert_eq!(units.len(), 0);

    let mut units = UnitRegistry::new();
    assert!(!units.insert(UnitData { name: "web.socket".to_string(), object_path: "/obj".to_string() }));
    assert!(!units.contains_key("web.socket"));

    let args = NewUnitArgs { id: "web.socket".to_string(), unit: "/obj".to_string() };
    assert!(!needs_resolving(&units, &args));
    assert!(on_unit_new(&mut units, &args, Some(&reads)).is_none());
    assert_eq!(units.len(), 0);
}

#[test]
fn units_without_the_section_are_never_registered() {
    let mut fs = MemoryFileSystem::new();
    fs.add_file("/lib/web.service", "[Unit]\nDescription=x\n[Service]\nLabel=traefik.a=1\n");
    fs.add_file("/etc/web.service.d/a.conf", "# [X-Traefik]\n[X-Traefik2]\nLabel=x\n[x-traefik]\nLabel=y\n");
    let files = unit_files(&["/etc/web.service.d/a.conf"], "/lib/web.service");
    let reads = read_unit_sources(&fs, &files);
    assert_eq!(reads.len(), 2);

    assert!(create_unit("web.service".to_string(), "/obj".to_string(), Some(&reads)).is_none());

    let mut units = UnitRegistry::new();
    let args = NewUnitArgs { id: "web.service".to_string(), unit: "/obj".to_string() };
    assert!(on_unit_new(&mut units, &args, Some(&reads)).is_none());
    assert!(!units.contains_key("web.service"));
    assert_eq!(list_units(vec![listed(&fs, "web.service", "/obj", Some(files))]).len(), 0);
}

#[test]
fn unit_is_tracked_where_one_source_has_the_section() {
    let mut fs = MemoryFileSystem::new();
    fs.add_file("/lib/web.service", "[Service]\nExecStart=/bin/true\n");
    fs.add_file("/etc/web.service.d/a.conf", "[X-Traefik]\nLabel=traefik.a=1\n");
    let files = unit_files(&["/etc/web.service.d/missing.conf", "/etc/web.service.d/a.conf"], "/lib/web.service");
    let reads = read_unit_sources(&fs, &files);

    let unit = create_unit("web.service".to_string(), "/obj".to_string(), Some(&reads)).unwrap();
    assert_eq!(unit.name, "web.service");
    assert_eq!(unit.object_path, "/obj");
}

#[test]
fn unreadable_source_does_not_hide_a_trackable_one() {
    let mut fs = MemoryFileSystem::new();
    fs.add_unreadable_file("/etc/web.service.d/d1.conf");
    fs.add_file("/lib/web.service", "[X-Traefik]\nLabel=a=1");
    let files = unit_files(&["/etc/web.service.d/d1.conf"], "/lib/web.service");
    let reads = read_unit_sources(&fs, &files);
    assert_eq!(reads, vec![None, text("[X-Traefik]\nLabel=a=1")]);

    let unit = create_unit("web.service".to_string(), "/obj".to_string(), Some(&reads)).unwrap();
    assert_eq!(unit.name, "web.service");

    let mut units = UnitRegistry::new();
    let args = NewUnitArgs { id: "web.service".to_string(), unit: "/obj".to_string() };
    assert_eq!(on_unit_new(&mut units, &args, Some(&reads)).unwrap().unit, "web.service");
    assert!(list_units(vec![listed(&fs, "web.service", "/obj", Some(files))]).contains_key("web.service"));
}

#[test]
fn unit_with_unreadable_sources_only_is_not_tracked() {
    let mut fs = MemoryFileSystem::new();
    fs.add_unreadable_file("/lib/web.service");
    let files = unit_files(&[], "/lib/web.service");
    let reads = read_unit_sources(&fs, &files);
    assert_eq!(reads, vec![None]);
    assert!(create_unit("web.service".to_string(), "/obj".to_string(), Some(&reads)).is_none());
}

#[test]
fn unit_that_the_supervisor_cannot_resolve_is_not_tracked() {
    assert!(create_unit("web.service".to_string(), "/obj".to_string(), None).is_none());
    let mut units = UnitRegistry::new();
    let args = NewUnitArgs { id: "web.service".to_string(), unit: "/obj".to_string() };
    assert!(on_unit_new(&mut units, &args, None).is_none());
    assert_eq!(units.len(), 0);
}

#[test]
fn any_read_has_section_goes_by_the_texts_read() {
    assert!(!any_read_has_section(&vec![]));
    assert!(!any_read_has_section(&vec![None]));
    assert!(!any_read_has_section(&vec![None, text("[Unit]\n"), text("")]));
    assert!(any_read_has_section(&vec![text("[X-Traefik]\n")]));
    assert!(any_read_has_section(&vec![None, text("[Unit]\n"), text("[Unit]\nA=b\n[X-Traefik]\nLabel=x\n")]));
    assert!(!any_read_has_section(&vec![text("[X-Traefik ]\n"), text("X-Traefik\n")]));
}

#[test]
fn read_sources_gives_none_for_what_cannot_be_read() {
    let mut fs = MemoryFileSystem::new();
    fs.add_file("/a", "one");
    fs.add_unreadable_file("/b");
    let paths = vec!["/a".to_string(), "/b".to_string(), "/missing".to_string(), "/a".to_string()];
    assert_eq!(read_sources(&fs, &paths), vec![text("one"), None, None, text("one")]);
    assert!(read_sources(&fs, &vec![]).is_empty());

    let files = unit_files(&["/missing", "/b"], "/a");
    assert_eq!(read_unit_sources(&fs, &files), vec![None, text("one")]);
}

#[test]
fn list_units_tracks_exactly_the_trackable_services() {
    let mut fs = MemoryFileSystem::new();
    fs.add_file("/lib/a.service", "[X-Traefik]\n");
    fs.add_file("/lib/b.service", "[Unit]\n");
    fs.add_file("/lib/c.socket", "[X-Traefik]\n");
    fs.add_unreadable_file("/lib/d.service");
    let units = list_units(vec![
        listed(&fs, "a.service", "/first", Some(unit_files(&[], "/lib/a.service"))),
        listed(&fs, "b.service", "/b", Some(unit_files(&[], "/lib/b.service"))),
        listed(&fs, "c.socket", "/c", Some(unit_files(&[], "/lib/c.socket"))),
        listed(&fs, "d.service", "/d", Some(unit_files(&[], "/lib/d.service"))),
        listed(&fs, "e.service", "/e", None),
        listed(&fs, "f.service", "/f", Some(unit_files(&["/lib/b.service"], "/lib/a.service"))),
        listed(&fs, "a.service", "/second", Some(unit_files(&[], "/lib/a.service"))),
        listed(&fs, "a.service", "/third", Some(unit_files(&[], "/lib/b.service"))),
    ]);
    assert_eq!(units.len(), 2);
    assert_eq!(units.unit_at(0).name, "a.service");
    assert_eq!(units.unit_at(0).object_path, "/second");
    assert_eq!(units.unit_at(1).name, "f.service");
    assert_eq!(units.unit_at(1).object_path, "/f");
}

#[test]
fn config_sources_are_the_existing_files_in_order() {
    let mut fs = MemoryFileSystem::new();
    fs.add_file("/b.conf", "");
    fs.add_file("/a.conf", "");
    fs.add_file("/frag", "");
    let files = unit_files(&["/b.conf", "/missing", "/a.conf"], "/frag");
    assert_eq!(get_config_files_for_unit(&fs, &files), vec!["/b.conf", "/a.conf", "/frag"]);

    let files = unit_files(&["/missing"], "/also-missing");
    assert!(get_config_files_for_unit(&fs, &files).is_empty());

    let files = unit_files(&[], "");
    assert!(get_config_files_for_unit(&fs, &files).is_empty());
}

#[test]
fn section_check_goes_by_the_files_read() {
    let (files, fs) = setup(&["[Unit]\n", "[X-Traefik]\n"]);
    assert!(has_traefik_config_in_configuration_files(&fs, &files));
    let (files, fs) = setup(&["[Unit]\n", "[Install]\n"]);
    assert!(!has_traefik_config_in_configuration_files(&fs, &files));
    let fs = MemoryFileSystem::new();
    assert!(!has_traefik_config_in_configuration_files(&fs, &vec!["/missing".to_string()]));
    assert!(!has_traefik_config_in_configuration_files(&fs, &vec![]));
}

#[test]
fn section_directives_come_in_the_order_of_the_file() {
    let directives = section_directives("[A]\nx=1\n[B]\ny = 2\nz=3=4\n", "B").unwrap();
    assert_eq!(directives, vec![("y".to_string(), "2".to_string()), ("z".to_string(), "3=4".to_string())]);
    assert!(section_directives("[A]\nx=1\n", "B").is_none());
    assert!(section_directives("", "A").is_none());
    assert_eq!(section_directives("[A]", "A").unwrap(), vec![]);
}

#[test]
fn labels_are_the_values_keyed_label() {
    let directives = vec![
        ("Label".to_string(), "a".to_string()),
        ("label".to_string(), "b".to_string()),
        ("Labels".to_string(), "c".to_string()),
        ("Label".to_string(), "d".to_string()),
    ];
    assert_eq!(labels_of_directives(&directives), vec!["a", "d"]);
    assert!(labels_of_directives(&vec![]).is_empty());
}

#[test]
fn registry_keeps_each_name_once() {
    let mut units = UnitRegistry::new();
    assert_eq!(units.len(), 0);
    assert!(units.get("a.service").is_none());
    assert!(units.insert(UnitData { name: "a.service".to_string(), object_path: "/1".to_string() }));
    assert!(units.insert(UnitData { name: "b.service".to_string(), object_path: "/2".to_string() }));
    assert!(units.insert(UnitData { name: "a.service".to_string(), object_path: "/3".to_string() }));
    assert_eq!(units.len(), 2);
    assert_eq!(units.position("a.service"), 0);
    assert_eq!(units.position("b.service"), 1);
    assert_eq!(units.position("c.service"), 2);
    assert_eq!(units.get("a.service").unwrap().object_path, "/3");
    assert_eq!(units.unit_at(1).name, "b.service");
}

#[test]
fn a_tracked_unit_is_not_looked_at_again() {
    let reads = vec![text("[X-Traefik]\n")];
    let mut units = UnitRegistry::new();
    let args = NewUnitArgs { id: "web.service".to_string(), unit: "/first".to_string() };
    assert!(on_unit_new(&mut units, &args, Some(&reads)).is_some());

    let again = NewUnitArgs { id: "web.service".to_string(), unit: "/second".to_string() };
    assert!(!needs_resolving(&units, &again));
    assert!(on_unit_new(&mut units, &again, Some(&reads)).is_none());
    assert_eq!(units.len(), 1);
    assert_eq!(units.get("web.service").unwrap().object_path, "/first");
}

#[test]
fn multiplexer_does_not_listen_to_changes_before_a_unit_is_tracked() {
    let mux = Multiplexer::new(0);
    assert!(!mux.polls_changes());
    assert!(mux.polls_new_units());
    assert!(!mux.finished());

    let mux = Multiplexer::new(3);
    assert!(mux.polls_changes());
}

#[test]
fn multiplexer_ends_on_a_request_to_end() {
    let mut mux = Multiplexer::new(2);
    assert!(matches!(mux.step(MuxEvent::Terminate), MuxAction::Nothing));
    assert!(mux.finished());
    assert!(!mux.polls_changes());
    assert!(!mux.polls_new_units());
}

#[test]
fn multiplexer_ends_when_no_source_is_left() {
    let mut mux = Multiplexer::new(0);
    mux.step(MuxEvent::NewUnitsClosed);
    assert!(mux.finished());

    let mut mux = Multiplexer::new(1);
    mux.step(MuxEvent::NewUnitsClosed);
    assert!(!mux.finished());
    assert!(mux.polls_changes());
    assert!(!mux.polls_new_units());
    mux.step(MuxEvent::ChangesExhausted);
    assert!(mux.finished());
}

#[test]
fn multiplexer_drops_a_change_whose_state_could_not_be_read() {
    let mut mux = Multiplexer::new(1);
    let action = mux.step(MuxEvent::StateChanged { unit_name: "web.service".to_string(), state: None });
    assert!(matches!(action, MuxAction::Nothing));
    assert!(!mux.finished());

    let action = mux.step(MuxEvent::StateChanged {
        unit_name: "web.service".to_string(),
        state: Some("inactive".to_string()),
    });
    assert!(matches!(&action, MuxAction::Forward(job) if job.unit_name == "web.service" && !job.started));
}

#[test]
fn multiplexer_listens_again_after_a_new_unit() {
    let mut mux = Multiplexer::new(1);
    mux.step(MuxEvent::ChangesExhausted);
    assert!(!mux.polls_changes());
    assert!(!mux.finished());
    mux.step(MuxEvent::NewUnit(NewUnit { unit: "b.service".to_string() }));
    assert!(mux.polls_changes());
}
