use mcstarter::config::{
    core_url, decode_config, default_includes, default_java_args, default_mc_args,
    default_plugins, default_sources, includes_of, plugin_url, prepare_url, resolve_config,
    Config, Core, Launch, Plugin, Source,
};
use mcstarter::errors::McError;
use mcstarter::yamlio::parse_yaml_docs;

fn no_env() -> Vec<(String, String)> {
    Vec::new()
}

fn strings(v: Vec<&str>) -> Vec<String> {
    v.into_iter().map(|s| s.to_string()).collect()
}

fn base_config() -> Config {
    Config {
        includes: Vec::new(),
        sources: vec![
            (
                "papermc".to_string(),
                Source {
                    url: "https://example.test/$NAME/$VERSION.jar".to_string(),
                },
            ),
        ],
        default_source: Some("papermc".to_string()),
        launch: Launch {
            java_args: Vec::new(),
            mc_args: Vec::new(),
        },
        core: Core {
            name: "paper".to_string(),
            version: "1.19".to_string(),
            source: None,
            url: None,
        },
        plugins: Vec::new(),
    }
}

#[test]
fn url_template_substitution() {
    let url = "https://example.test/$NAME/$VERSION/$NAME.jar".to_string();
    let out = prepare_url(&url, &"paper".to_string(), &"1.19".to_string());
    assert_eq!(out, "https://example.test/paper/1.19/paper.jar");
}

#[test]
fn core_url_prefers_explicit_url() {
    let mut config = base_config();
    config.core.url = Some("https://pin.test/core.jar".to_string());
    assert_eq!(core_url(&config.core, &config).unwrap(), "https://pin.test/core.jar");
}

#[test]
fn core_url_falls_back_to_default_source() {
    let config = base_config();
    assert_eq!(
        core_url(&config.core, &config).unwrap(),
        "https://example.test/paper/1.19.jar"
    );
}

#[test]
fn plugin_url_uses_named_source() {
    let mut config = base_config();
    config.sources.push((
        "other".to_string(),
        Source {
            url: "https://mirror.test/$NAME-$VERSION.zip".to_string(),
        },
    ));
    let plugin = Plugin {
        version: "2.0".to_string(),
        source: Some("other".to_string()),
        url: None,
    };
    assert_eq!(
        plugin_url(&"economy".to_string(), &plugin, &config).unwrap(),
        "https://mirror.test/economy-2.0.zip"
    );
}

#[test]
fn unknown_source_is_a_missing_source_error() {
    let config = base_config();
    let plugin = Plugin {
        version: "2.0".to_string(),
        source: Some("nowhere".to_string()),
        url: None,
    };
    assert_eq!(
        plugin_url(&"economy".to_string(), &plugin, &config).unwrap_err(),
        McError::MissingSource("nowhere".to_string())
    );
}

#[test]
fn absent_default_source_is_a_missing_source_error() {
    let mut config = base_config();
    config.default_source = None;
    assert!(matches!(
        core_url(&config.core, &config).unwrap_err(),
        McError::MissingSource(_)
    ));
    config.default_source = Some("ghost".to_string());
    assert_eq!(
        core_url(&config.core, &config).unwrap_err(),
        McError::MissingSource("ghost".to_string())
    );
}

#[test]
fn includes_are_discovered_without_full_decoding() {
    let root = "include:\n  - ./modpack\n  - ./extra\nstray: [1, 2]\n";
    assert_eq!(includes_of(root).unwrap(), strings(vec!["./modpack", "./extra"]));
    assert_eq!(includes_of("core: {}\n").unwrap(), Vec::<String>::new());
    assert!(matches!(includes_of("include: 5\n").unwrap_err(), McError::Parse(_)));
    assert!(matches!(includes_of("include:\n  - 1\n").unwrap_err(), McError::Parse(_)));
    assert!(matches!(includes_of("a: [1,\n").unwrap_err(), McError::Parse(_)));
}

#[test]
fn decode_requires_launch_and_core() {
    let docs = parse_yaml_docs("core:\n  name: paper\n  version: \"1\"\n").unwrap();
    assert!(matches!(decode_config(&docs[0]).unwrap_err(), McError::Parse(_)));
    let docs = parse_yaml_docs("launch: {}\n").unwrap();
    assert!(matches!(decode_config(&docs[0]).unwrap_err(), McError::Parse(_)));
    let docs = parse_yaml_docs(
        "launch: {}\ncore:\n  name: paper\n  version: \"1\"\nsources: [1]\n",
    )
    .unwrap();
    assert!(matches!(decode_config(&docs[0]).unwrap_err(), McError::Parse(_)));
}

#[test]
fn declared_defaults_are_all_empty() {
    assert!(default_includes().is_empty());
    assert!(default_sources().is_empty());
    assert!(default_plugins().is_empty());
    assert!(default_java_args().is_empty());
    assert!(default_mc_args().is_empty());
}

#[test]
fn decode_fills_defaults() {
    let docs =
        parse_yaml_docs("launch: {}\ncore:\n  name: paper\n  version: \"1.19\"\n").unwrap();
    let config = decode_config(&docs[0]).unwrap();
    assert_eq!(config.includes, Vec::<String>::new());
    assert!(config.sources.is_empty());
    assert_eq!(config.default_source, None);
    assert!(config.launch.java_args.is_empty());
    assert!(config.launch.mc_args.is_empty());
    assert!(config.plugins.is_empty());
    assert_eq!(config.core.name, "paper");
    assert_eq!(config.core.version, "1.19");
    assert_eq!(config.core.source, None);
    assert_eq!(config.core.url, None);
}

#[test]
fn root_version_wins_over_include_regardless_of_order() {
    // root-level core.version "2" must win over an include's "1"
    let root = "launch: {}\ncore:\n  name: paper\n  version: \"2\"\n  url: https://pin.test/core.jar\n";
    let inc_a = "core:\n  name: paper\n  version: \"1\"\n".to_string();
    let inc_b = "core:\n  name: paper\n  version: \"1b\"\n".to_string();

    let one = resolve_config(root, &vec![inc_a.clone(), inc_b.clone()], &no_env(), false).unwrap();
    assert_eq!(one.core.version, "2");
    let other = resolve_config(root, &vec![inc_b, inc_a], &no_env(), false).unwrap();
    assert_eq!(other.core.version, "2");
}

#[test]
fn root_plugin_version_wins_over_include() {
    // root declares economy 2.0, ./modpack declares economy 1.0
    let root = "include:\n  - ./modpack\nlaunch: {}\n\
                sources:\n  papermc:\n    url: https://example.test/$NAME/$VERSION.jar\n\
                default_source: papermc\ncore:\n  name: paper\n  version: \"1.19\"\n\
                plugins:\n  economy:\n    version: \"2.0\"\n";
    let incs = includes_of(root).unwrap();
    assert_eq!(incs, strings(vec!["./modpack"]));
    let modpack = "plugins:\n  economy:\n    version: \"1.0\"\n".to_string();
    let config = resolve_config(root, &vec![modpack], &no_env(), false).unwrap();
    assert_eq!(config.plugins.len(), 1);
    assert_eq!(config.plugins[0].0, "economy");
    assert_eq!(config.plugins[0].1.version, "2.0");
}

#[test]
fn includes_contribute_what_the_root_lacks() {
    let root = "launch: {}\ncore:\n  name: paper\n  version: \"1\"\n";
    let inc = "plugins:\n  maps:\n    version: \"0.3\"\ndefault_source: papermc\n\
               sources:\n  papermc:\n    url: https://example.test/$NAME\n"
        .to_string();
    let config = resolve_config(root, &vec![inc], &no_env(), false).unwrap();
    assert_eq!(config.plugins[0].0, "maps");
    assert_eq!(config.default_source, Some("papermc".to_string()));
    assert_eq!(config.sources[0].0, "papermc");
}

#[test]
fn resolution_substitutes_environment_only_when_asked() {
    let root = "launch: {}\ncore:\n  name: paper\n  version: \"${CORE_VERSION}\"\n  url: https://pin.test/core.jar\n";
    let env = vec![("CORE_VERSION".to_string(), "9.1".to_string())];
    let resolved = resolve_config(root, &Vec::new(), &env, true).unwrap();
    assert_eq!(resolved.core.version, "9.1");
    let raw = resolve_config(root, &Vec::new(), &env, false).unwrap();
    assert_eq!(raw.core.version, "${CORE_VERSION}");
    // with substitution off, the environment makes no difference at all
    let raw_other_env = resolve_config(root, &Vec::new(), &no_env(), false).unwrap();
    assert_eq!(raw, raw_other_env);
}

#[test]
fn resolution_fails_closed_on_a_missing_variable() {
    let root = "launch: {}\ncore:\n  name: paper\n  version: \"${CORE_VERSION}\"\n";
    assert_eq!(
        resolve_config(root, &Vec::new(), &no_env(), true).unwrap_err(),
        McError::MissingEnvVar("CORE_VERSION".to_string())
    );
}

#[test]
fn resolution_refuses_an_unlocatable_artifact() {
    // neither an explicit URL nor a resolvable source: resolution fails
    let root = "launch: {}\ncore:\n  name: paper\n  version: \"1\"\n";
    assert!(matches!(
        resolve_config(root, &Vec::new(), &no_env(), false).unwrap_err(),
        McError::MissingSource(_)
    ));
    let rooted = "launch: {}\ncore:\n  name: paper\n  version: \"1\"\n  url: u\n\
                  plugins:\n  economy:\n    version: \"2\"\n    source: ghost\n";
    assert_eq!(
        resolve_config(rooted, &Vec::new(), &no_env(), false).unwrap_err(),
        McError::MissingSource("ghost".to_string())
    );
}

#[test]
fn resolution_surfaces_merge_type_errors() {
    let root = "launch: {}\ncore:\n  name: paper\n  version: \"1\"\n";
    let inc = "- just\n- a\n- list\n".to_string();
    assert_eq!(
        resolve_config(root, &vec![inc], &no_env(), false).unwrap_err(),
        McError::NotMergeable
    );
    assert_eq!(
        resolve_config("- 1\n- 2\n", &Vec::new(), &no_env(), false).unwrap_err(),
        McError::NotMergeable
    );
}

#[test]
fn resolution_rejects_malformed_text() {
    assert!(matches!(
        resolve_config("a: [1,\n", &Vec::new(), &no_env(), false).unwrap_err(),
        McError::Parse(_)
    ));
    let root = "launch: {}\ncore:\n  name: paper\n  version: \"1\"\n";
    assert!(matches!(
        resolve_config(root, &vec!["b: [2,\n".to_string()], &no_env(), false).unwrap_err(),
        McError::Parse(_)
    ));
}
