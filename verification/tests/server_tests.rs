use qst_ext_appsearcher_rust::config::{Appattr, Info};
use qst_ext_appsearcher_rust::flag::{FlagError, Flags};
use qst_ext_appsearcher_rust::server::main::{callback_address, App, AppIndex, DisplayItem};

fn attr(exec: &str) -> Appattr {
    Appattr {
        dir: "/usr/bin".to_string(),
        executable: exec.to_string(),
        freq: 0,
        args: String::new(),
        arg_hint: None,
    }
}

fn args(list: &[&str]) -> Vec<String> {
    list.iter().map(|s| s.to_string()).collect()
}

#[test]
fn index_numbers_apps_in_order_and_searches_by_name() {
    let mut info = Info::default();
    info.upsert("Firefox".to_string(), attr("/usr/bin/firefox"));
    info.upsert("Files".to_string(), attr("/usr/bin/nautilus"));
    let index = AppIndex::new(&info);
    assert_eq!(index.get(0).unwrap().name, "Firefox");
    assert_eq!(index.get(1).unwrap().attr.executable, "/usr/bin/nautilus");
    assert!(index.get(2).is_none());
    let found = index.search("fir".to_string());
    assert_eq!(
        found,
        vec![DisplayItem { obj_id: 0, name: "Firefox".to_string(), hint: None }]
    );
    let both: Vec<u32> = index.search("F".to_string()).iter().map(|d| d.obj_id).collect();
    assert_eq!(both, vec![1, 0]);
}

#[test]
fn app_to_display() {
    let app = App { name: "Htop".to_string(), id: 7, attr: attr("htop") };
    assert_eq!(app.to_display(), DisplayItem { obj_id: 7, name: "Htop".to_string(), hint: None });
}

#[test]
fn callback_address_is_http() {
    assert_eq!(callback_address("127.0.0.1:4000"), "http://127.0.0.1:4000");
}

#[test]
fn flags_read_id_and_uri() {
    let f = Flags::new(args(&["qst-e-a", "--id", "apps", "--uri", "http://127.0.0.1:5000"])).ok().unwrap();
    assert_eq!(f.id, "apps");
    assert_eq!(f.endpoint.uri().to_string(), "http://127.0.0.1:5000/");
}

#[test]
fn flags_last_occurrence_wins() {
    let f = Flags::new(args(&["--id", "a", "--id", "b", "--uri", "http://h"])).ok().unwrap();
    assert_eq!(f.id, "b");
}

#[test]
fn flags_errors() {
    assert!(matches!(Flags::new(args(&["x", "--help"])), Err(FlagError::Help)));
    assert!(matches!(Flags::new(args(&["--uri", "http://h"])), Err(FlagError::MissingId)));
    assert!(matches!(Flags::new(args(&["--id", "a", "--uri"])), Err(FlagError::MissingUri)));
    match Flags::new(args(&["--id", "a", "--uri", "not a uri"])) {
        Err(FlagError::InvalidUri(u)) => assert_eq!(u, "not a uri"),
        _ => panic!("expected an invalid URI"),
    }
}

#[test]
fn flag_error_codes() {
    assert_eq!(FlagError::Help.code(), 0);
    assert_eq!(FlagError::MissingId.code(), 1);
    assert_eq!(FlagError::MissingUri.code(), 2);
    assert_eq!(FlagError::InvalidUri(String::new()).code(), 3);
}

#[test]
fn search_for_own_name_finds_every_app() {
    let mut info = Info::default();
    for name in ["Visual Studio Code", "Files", "Firefox Web Browser", "GIMP"] {
        info.upsert(name.to_string(), attr("/usr/bin/x"));
    }
    assert!(info.has_unique_names());
    let index = AppIndex::new(&info);
    for id in 0..4u32 {
        let name = index.get(id).unwrap().name.clone();
        let found: Vec<u32> = index.search(name).iter().map(|d| d.obj_id).collect();
        assert!(found.contains(&id));
    }
}

#[test]
fn unique_names_are_detected() {
    let info = Info {
        apps: vec![("a".to_string(), attr("a")), ("a".to_string(), attr("b"))],
    };
    assert!(!info.has_unique_names());
}
