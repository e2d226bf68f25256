use mc_console::console::{order_versions, version_key, NewServer};
use mc_console::manager::{
    builds_to_fetch, cache_entry, download_uri, latest_commit, McServerManager,
};
use mc_console::paths::{file_name_of, join_path};
use mc_console::server::{ProcessState, Server, Status};
use mc_console::text::{parse_entries, StringMap};

fn owned(v: &[&str]) -> Vec<String> {
    v.iter().map(|s| s.to_string()).collect()
}

#[test]
fn join_paths() {
    assert_eq!(join_path("a", "b"), "a/b");
    assert_eq!(join_path("a/", "b"), "a/b");
    assert_eq!(join_path("", "b"), "b");
    assert_eq!(join_path("a", "/b"), "/b");
    assert_eq!(join_path("./", "mc_server_manager.json"), "./mc_server_manager.json");
    for (a, b) in [("a", "b"), ("a/", "b"), ("", "b"), ("a", "/b"), ("/x/y", "z.txt")] {
        let expected = std::path::Path::new(a).join(b);
        assert_eq!(join_path(a, b), expected.to_str().unwrap());
    }
}

#[test]
fn file_names() {
    for p in ["/x/y/srv", "a/b/", "a/..", "/", ".", "a/.", "", "srv", "a//b//", "./", "../x"] {
        let expected = std::path::Path::new(p)
            .file_name()
            .map(|n| n.to_str().unwrap().to_string());
        assert_eq!(file_name_of(p), expected, "path {:?}", p);
    }
    assert_eq!(file_name_of("/x/y/srv"), Some("srv".to_string()));
    assert_eq!(file_name_of("a/.."), None);
}

#[test]
fn new_server_state() {
    let s = Server::create_new_server("pvp", 25565, "./mc");
    assert_eq!(s.working_directory, "./mc/pvp");
    assert_eq!(s.port, 25565);
    assert_eq!(s.pid, 0);
    assert!(!s.active);
    assert!(s.installed_plugins.is_empty());
    assert_eq!(s.file_path("server_data.json"), "./mc/pvp/server_data.json");
}

#[test]
fn start_command_has_port() {
    let s = Server::create_new_server("pvp", 25565, "/srv");
    assert_eq!(
        s.start_command(),
        "while [ 1 ] ; do cat input_fifo ; done | java -jar paper.jar --nogui --port 25565 > server_output"
    );
}

#[test]
fn running_server_refuses_to_start() {
    let s = Server::create_new_server("pvp", 1, "/srv");
    assert_eq!(
        s.run_self(ProcessState::Alive),
        Err(Status::RunFail("LMAO DYING WTF?".to_string()))
    );
    assert_eq!(s.run_self(ProcessState::Zombie), Ok(s.start_command()));
    assert_eq!(s.run_self(ProcessState::Absent), Ok(s.start_command()));
}

#[test]
fn start_and_stop_records() {
    let mut s = Server::create_new_server("pvp", 1, "/srv");
    assert_eq!(s.record_started(4242), Status::RunOk);
    assert!(s.active);
    assert_eq!(s.pid, 4242);
    assert_eq!(s.stop_self(), Status::StopOk);
    assert!(!s.active);
    assert_eq!(s.pid, 4242);
}

#[test]
fn manager_paths() {
    assert_eq!(McServerManager::json_path(None), "./mc_server_manager.json");
    assert_eq!(McServerManager::json_path(Some("../m.json")), "../m.json");
    let m = McServerManager::new("./m.json".to_string(), "/home/u");
    assert_eq!(m.directory, "/home/u/minecraft_servers");
    assert_eq!(m.cache_file, "/home/u/cache.txt");
    assert_eq!(m.json_location, "./m.json");
    assert!(m.installations.is_empty());
    assert_eq!(m.load_server("pvp"), "/home/u/minecraft_servers/pvp/server_data.json");
    assert_eq!(m.version_file("pvp"), "/home/u/minecraft_servers/pvp/version.txt");
    assert_eq!(m.server_dir("pvp"), "/home/u/minecraft_servers/pvp");
}

#[test]
fn server_status_is_saved_activity() {
    let m = McServerManager::new("./m.json".to_string(), "/home/u");
    let mut s = Server::create_new_server("pvp", 1, &m.directory);
    assert!(!m.get_server_status(&s));
    s.record_started(7);
    assert!(m.get_server_status(&s));
}

#[test]
fn installations_by_name() {
    let mut m = McServerManager::new("./m.json".to_string(), "/h");
    m.update_installations(owned(&["/h/minecraft_servers/a", "/h/minecraft_servers/b/"]));
    assert_eq!(
        m.installation_version_files(),
        owned(&["/h/minecraft_servers/a/version.txt", "/h/minecraft_servers/b/version.txt"])
    );
    let got = m.get_installations(&owned(&["1.20.4", "1.8.8"])).unwrap();
    assert_eq!(
        got,
        vec![
            ("a".to_string(), "1.20.4".to_string()),
            ("b".to_string(), "1.8.8".to_string())
        ]
    );
    m.update_installations(owned(&["/"]));
    assert_eq!(m.installations.len(), 3);
    assert!(m.get_installations(&owned(&["x", "y", "z"])).is_none());
}

#[test]
fn download_uris() {
    assert_eq!(
        download_uri("1.20.2", "318"),
        "https://api.papermc.io/v2/projects/paper/versions/1.20.2/builds/318/downloads/paper-1.20.2-318.jar"
    );
    assert_eq!(cache_entry("1.20.2", "u:x"), "1.20.2:u:x\n");
    assert_eq!(latest_commit(&vec![1, 2, 318]), "318");
    assert_eq!(latest_commit(&vec![-7]), "-7");
}

#[test]
fn cache_entry_reads_back() {
    let text = "1.8.8:old\n".to_string();
    let uri = download_uri("1.20.2", "318");
    let after = format!("{}{}", text, cache_entry("1.20.2", &uri));
    let es = parse_entries(&after).unwrap();
    assert_eq!(es.len(), 2);
    let m = StringMap { entries: es };
    assert_eq!(m.get("1.20.2"), Some(uri));
    assert_eq!(m.get("1.8.8"), Some("old".to_string()));
}

fn cache_of(pairs: &[(&str, &str)]) -> StringMap {
    let mut m = StringMap::new();
    for (k, v) in pairs {
        m.insert(k.to_string(), v.to_string());
    }
    m
}

#[test]
fn fetch_list_skips_cached_and_ends_with_newest() {
    let versions = owned(&["1.8.8", "1.9.4", "1.20.4", "1.21"]);
    let cache = cache_of(&[("1.9.4", "c194"), ("1.21", "c121")]);
    assert_eq!(builds_to_fetch(&versions, &cache), owned(&["1.8.8", "1.20.4", "1.21"]));
}

#[test]
fn refresh_with_all_builds() {
    let versions = owned(&["1.8.8", "1.9.4", "1.21"]);
    let cache = cache_of(&[("1.9.4", "c194")]);
    let mut m = McServerManager::new("./m.json".to_string(), "/h");
    let update = m.apply_builds(&versions, &cache, &owned(&["445", "130"]));
    assert!(update.complete);
    assert_eq!(
        update.cache_lines,
        vec![format!("1.8.8:{}\n", download_uri("1.8.8", "445"))]
    );
    assert_eq!(m.download_url("1.8.8"), Some(download_uri("1.8.8", "445")));
    assert_eq!(m.download_url("1.9.4"), Some("c194".to_string()));
    assert_eq!(m.download_url("1.21"), Some(download_uri("1.21", "130")));
}

#[test]
fn refresh_stops_at_failed_lookup() {
    let versions = owned(&["1.8.8", "1.9.4", "1.20.4", "1.21"]);
    let cache = cache_of(&[("1.9.4", "c194")]);
    let mut m = McServerManager::new("./m.json".to_string(), "/h");
    let update = m.apply_builds(&versions, &cache, &owned(&["445"]));
    assert!(!update.complete);
    assert_eq!(update.cache_lines.len(), 1);
    assert_eq!(m.download_url("1.9.4"), Some("c194".to_string()));
    assert_eq!(m.download_url("1.20.4"), None);
    assert_eq!(m.download_url("1.21"), None);
    let mut m2 = McServerManager::new("./m.json".to_string(), "/h");
    let update2 = m2.apply_builds(&versions, &cache, &owned(&[]));
    assert!(!update2.complete);
    assert_eq!(m2.download_url("1.8.8"), None);
    assert_eq!(m2.download_url("1.9.4"), None);
}

#[test]
fn version_keys() {
    assert_eq!(version_key("1.20.4"), Some(20));
    assert_eq!(version_key("1.8.8"), Some(8));
    assert_eq!(version_key("1.21"), Some(21));
    assert_eq!(version_key("1.9"), None);
    assert_eq!(version_key("1.-5"), Some(-5));
    assert_eq!(version_key("1.+5"), Some(5));
    assert_eq!(version_key("1.ab"), None);
    assert_eq!(version_key("1.é"), None);
    assert_eq!(version_key("é20"), Some(20));
    assert_eq!(version_key("1.."), None);
}

#[test]
fn versions_newest_first() {
    let out = order_versions(owned(&["1.8.8", "1.20.4", "1.9.4", "1.20.2", "1.21"]));
    assert_eq!(out, owned(&["1.21", "1.20.2", "1.20.4", "1.9.4", "1.8.8"]));
    assert_eq!(order_versions(owned(&["bad"])), owned(&["bad"]));
    assert_eq!(order_versions(vec![]), Vec::<String>::new());
}

#[test]
fn new_server_form() {
    let f = NewServer {
        server_name: "pvp".to_string(),
        version: "1.20.4".to_string(),
        user_name: "alice".to_string(),
        token: "t".to_string(),
    };
    assert_eq!(f.server_name, "pvp");
}

#[test]
fn server_directory_is_listed_by_its_name() {
    let m = McServerManager::new("./m.json".to_string(), "/h");
    for name in ["pvp", "creative-1", ".hidden"] {
        assert_eq!(file_name_of(&m.server_dir(name)), Some(name.to_string()));
    }
}
