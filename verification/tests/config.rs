use focal::config::{
    config_path_for_home, default_config_path, join, BackendConfig, OpenMode, ServerConfig,
    TransportConfig,
};
use focal::server::{Error, FocalMcpServer, RuntimeBackend};
use focal::setup::{
    default_database_path, expand_tilde, read_answer, setup_answer, setup_begin, yes_no,
    SetupAction, SetupDefaults, SetupStep,
};

#[test]
fn default_config_path_uses_home_config_focal_yaml() {
    assert_eq!(
        config_path_for_home("/home/example"),
        "/home/example/.config/focal/config.yaml"
    );
}

#[test]
fn expand_tilde_leaves_regular_paths_unchanged() {
    assert_eq!(
        expand_tilde("/tmp/focal", Some("/home/example".to_string())),
        "/tmp/focal"
    );
}

#[test]
fn expand_tilde_uses_home() {
    let home = Some("/home/example".to_string());
    assert_eq!(expand_tilde("~", home.clone()), "/home/example/");
    assert_eq!(expand_tilde("~/ideas", home.clone()), "/home/example/ideas");
    assert_eq!(expand_tilde("~/ideas", None), "~/ideas");
    assert_eq!(expand_tilde("~/ideas", Some(String::new())), "~/ideas");
    assert_eq!(expand_tilde("~x", home), "~x");
}

#[test]
fn joining_paths_follows_pathbuf() {
    assert_eq!(join("/a", "b"), "/a/b");
    assert_eq!(join("/a/", "b"), "/a/b");
    assert_eq!(join("", "b"), "b");
    assert_eq!(join("/a", "/b"), "/b");
    assert_eq!(config_path_for_home("/home/example/"), "/home/example/.config/focal/config.yaml");
}

#[test]
fn default_config_path_needs_a_home() {
    match default_config_path(None) {
        Err(Error::InvalidConfig(m)) => assert!(m.starts_with("HOME is not set")),
        _ => panic!("expected an invalid config error"),
    }
    match default_config_path(Some(String::new())) {
        Err(Error::InvalidConfig(m)) => assert!(m.starts_with("HOME is empty")),
        _ => panic!("expected an invalid config error"),
    }
    match default_config_path(Some("/home/u".to_string())) {
        Ok(p) => assert_eq!(p, "/home/u/.config/focal/config.yaml"),
        _ => panic!("expected a path"),
    }
}

#[test]
fn server_from_config_keeps_the_configured_graph() {
    let config = ServerConfig {
        backend: BackendConfig::Sqlite {
            database_path: "/tmp/focal.db".to_string(),
            graph_name: "main".to_string(),
            mode: OpenMode::Init,
        },
        transport: TransportConfig::Stdio,
    };
    let server = FocalMcpServer::from_config(config, Ok(())).unwrap();
    match server.runtime_backend() {
        RuntimeBackend::Sqlite {
            database_path,
            graph_name,
        } => {
            assert_eq!(database_path, "/tmp/focal.db");
            assert_eq!(graph_name, "main");
        }
        _ => panic!("expected the sqlite graph"),
    }
}

#[test]
fn server_from_config_reports_a_graph_that_would_not_open() {
    let config = ServerConfig {
        backend: BackendConfig::Fs {
            root: "/nowhere".to_string(),
            mode: OpenMode::Open,
        },
        transport: TransportConfig::Stdio,
    };
    let opened = focal::backend::open_fs("/nowhere", false, focal::store::Tables { nodes: Vec::new(), placements: Vec::new(), contexts: Vec::new(), reserved: Vec::new(), answers: Vec::new() }, Vec::new());
    let err = opened.err().unwrap();
    let result = FocalMcpServer::from_config(config, Err(err));
    match result {
        Err(e) => assert!(e.message().contains("does not contain roots/")),
        Ok(_) => panic!("expected an error"),
    }
}

fn defaults() -> SetupDefaults {
    SetupDefaults {
        graph_root: "/work/spec".to_string(),
        database_path: "/home/u/.local/share/focal/focal.db".to_string(),
        home: Some("/home/u".to_string()),
    }
}

fn prompt_of(action: &SetupAction) -> String {
    match action {
        SetupAction::Ask { prompt, .. } => prompt.clone(),
        _ => panic!("expected a question"),
    }
}

#[test]
fn setup_asks_before_overwriting() {
    let d = defaults();
    let (step, action) = setup_begin(true, false, &d);
    assert_eq!(prompt_of(&action), "Config already exists. Overwrite it? [y/N]: ");
    let (_, action) = setup_answer(step.clone(), "n\n", &d);
    assert!(matches!(action, SetupAction::Cancel));
    let (_, action) = setup_answer(step.clone(), "\n", &d);
    assert!(matches!(action, SetupAction::Cancel));
    let (next, action) = setup_answer(step.clone(), "maybe\n", &d);
    assert!(matches!(next, SetupStep::Overwrite));
    match action {
        SetupAction::Ask { notice, .. } => assert_eq!(notice.unwrap(), "Please enter yes or no."),
        _ => panic!("expected the question again"),
    }
    let (next, action) = setup_answer(step, "YES\n", &d);
    assert!(matches!(next, SetupStep::Backend));
    assert_eq!(prompt_of(&action), "Backend (fs/sqlite) [fs]: ");
}

#[test]
fn setup_writes_filesystem_config_from_answers() {
    let d = defaults();
    let (step, _) = setup_begin(false, false, &d);
    let (step, action) = setup_answer(step, "fs\n", &d);
    assert_eq!(prompt_of(&action), "Open mode (init/open) [init]: ");
    let (step, action) = setup_answer(step, "open\n", &d);
    assert_eq!(prompt_of(&action), "Filesystem graph root [/work/spec]: ");
    let (_, action) = setup_answer(step, "~/ideas\n", &d);
    match action {
        SetupAction::Write(config) => assert_eq!(
            config,
            ServerConfig {
                backend: BackendConfig::Fs {
                    root: "/home/u/ideas".to_string(),
                    mode: OpenMode::Open,
                },
                transport: TransportConfig::Stdio,
            }
        ),
        _ => panic!("expected a config"),
    }
}

#[test]
fn setup_defaults_filesystem_root_and_mode() {
    let d = defaults();
    let (step, _) = setup_begin(false, false, &d);
    let (step, _) = setup_answer(step, "\n", &d);
    let (step, _) = setup_answer(step, "\n", &d);
    let (_, action) = setup_answer(step, "   \n", &d);
    match action {
        SetupAction::Write(config) => assert_eq!(
            config.backend,
            BackendConfig::Fs {
                root: "/work/spec".to_string(),
                mode: OpenMode::Init,
            }
        ),
        _ => panic!("expected a config"),
    }
}

#[test]
fn setup_writes_sqlite_config_and_rejects_unknown_choices() {
    let d = defaults();
    let (step, _) = setup_begin(false, true, &d);
    let (step, action) = setup_answer(step, "postgres\n", &d);
    match action {
        SetupAction::Ask { notice, .. } => assert_eq!(notice.unwrap(), "Please enter one of: fs, sqlite"),
        _ => panic!("expected the question again"),
    }
    let (step, _) = setup_answer(step, "SQLite\n", &d);
    let (step, _) = setup_answer(step, "init\n", &d);
    let (step, action) = setup_answer(step, "\n", &d);
    assert_eq!(prompt_of(&action), "SQLite graph name [default]: ");
    let (_, action) = setup_answer(step, "main\n", &d);
    match action {
        SetupAction::Write(config) => assert_eq!(
            config.backend,
            BackendConfig::Sqlite {
                database_path: "/home/u/.local/share/focal/focal.db".to_string(),
                graph_name: "main".to_string(),
                mode: OpenMode::Init,
            }
        ),
        _ => panic!("expected a config"),
    }
}

#[test]
fn answers_trim_and_fall_back_to_defaults() {
    assert_eq!(read_answer("  value \n", "d"), "value");
    assert_eq!(read_answer(" \n", "d"), "d");
    assert_eq!(yes_no("", true), Some(true));
    assert_eq!(yes_no("No", true), Some(false));
    assert_eq!(yes_no("y", false), Some(true));
    assert_eq!(yes_no("sure", false), None);
    assert_eq!(default_database_path(None), "focal.db");
    assert_eq!(
        default_database_path(Some("/home/u".to_string())),
        "/home/u/.local/share/focal/focal.db"
    );
}
