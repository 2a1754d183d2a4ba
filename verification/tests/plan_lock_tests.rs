use mcstarter::config::Plugin;
use mcstarter::errors::McError;
use mcstarter::hash::hash_bytes;
use mcstarter::lock::{get_lock_entry, lock_from_text, lock_to_text, Lock};
use mcstarter::node::Node;
use mcstarter::plan::{
    classify, copy_plan, core_filename, join_path, plugin_expected_files, plugin_filename,
    prune_core_plan, prune_plugins_plan, render_structured, Assembly, FileKind,
};
use mcstarter::yamlio::parse_yaml_docs;

fn strings(v: Vec<&str>) -> Vec<String> {
    v.into_iter().map(|s| s.to_string()).collect()
}

#[test]
fn lock_round_trips_through_its_file_text() {
    let text = "core: aa11\neconomy: bb22\n";
    let lock = lock_from_text(text).unwrap();
    assert_eq!(
        lock.entries,
        vec![
            ("core".to_string(), "aa11".to_string()),
            ("economy".to_string(), "bb22".to_string()),
        ]
    );
    let written = lock_to_text(&lock);
    let reread = lock_from_text(&written).unwrap();
    assert_eq!(reread, lock);
}

#[test]
fn lock_rejects_non_string_digests() {
    assert!(matches!(
        lock_from_text("core:\n  - 1\n").unwrap_err(),
        McError::Parse(_)
    ));
}

#[test]
fn missing_lock_entry_is_a_hard_error() {
    let lock = lock_from_text("core: aa11\n").unwrap();
    assert_eq!(get_lock_entry(&"core".to_string(), &lock).unwrap(), "aa11");
    assert_eq!(
        get_lock_entry(&"economy".to_string(), &lock).unwrap_err(),
        McError::MissingLockEntry("economy".to_string())
    );
}

#[test]
fn artifact_file_names() {
    assert_eq!(core_filename(&"ff00".to_string()), "core-ff00.jar");
    assert_eq!(
        plugin_filename(&"economy".to_string(), &"2.0".to_string(), &"ff00".to_string()),
        "economy-2.0-ff00.jar"
    );
    assert_eq!(join_path("./build", "plugins"), "./build/plugins");
}

#[test]
fn classification_by_extension() {
    assert_eq!(classify("config/server.yml"), FileKind::StructuredConfig);
    assert_eq!(classify("a.yaml"), FileKind::StructuredConfig);
    assert_eq!(classify("server.properties"), FileKind::FlatText);
    assert_eq!(classify("x.conf"), FileKind::FlatText);
    assert_eq!(classify("notes.txt"), FileKind::FlatText);
    assert_eq!(classify("data.json"), FileKind::FlatText);
    assert_eq!(classify("cfg.toml"), FileKind::FlatText);
    assert_eq!(classify("plugin.jar"), FileKind::Opaque);
    assert_eq!(classify(".gitignore"), FileKind::Opaque);
    assert_eq!(classify("foo."), FileKind::Opaque);
    assert_eq!(classify("dir.d/file"), FileKind::Opaque);
    assert_eq!(classify("dir/.hidden"), FileKind::Opaque);
}

#[test]
fn dropped_plugins_are_pruned_and_current_ones_kept() {
    // target plugins/ holds old-1.0-deadbeef.jar; configuration no longer lists `old`
    let payload = b"economy".to_vec();
    let digest = hash_bytes(&payload);
    let lock = Lock {
        entries: vec![("economy".to_string(), digest.clone())],
    };
    let plugins = vec![(
        "economy".to_string(),
        Plugin {
            version: "2.0".to_string(),
            source: None,
            url: None,
        },
    )];
    let expected = plugin_expected_files(&plugins, &lock).unwrap();
    let economy_file = format!("economy-2.0-{digest}.jar");
    assert_eq!(expected, vec![economy_file.clone()]);

    let existing = strings(vec!["old-1.0-deadbeef.jar", "notes.txt"]);
    let deletions = prune_plugins_plan(&existing, &expected);
    assert_eq!(deletions, strings(vec!["old-1.0-deadbeef.jar"]));
    let copies = copy_plan(&expected, &existing);
    assert_eq!(copies, vec![economy_file.clone()]);

    // apply the plan: deletions go, copies arrive
    let after: Vec<String> = existing
        .into_iter()
        .filter(|f| !deletions.contains(f))
        .chain(copies.into_iter())
        .collect();
    assert!(after.contains(&economy_file));
    assert!(!after.iter().any(|f| f == "old-1.0-deadbeef.jar"));

    // a second run with unchanged inputs deletes and copies nothing
    assert!(prune_plugins_plan(&after, &expected).is_empty());
    assert!(copy_plan(&expected, &after).is_empty());
}

#[test]
fn missing_lock_entry_stops_plugin_staging() {
    let lock = Lock { entries: Vec::new() };
    let plugins = vec![(
        "economy".to_string(),
        Plugin {
            version: "2.0".to_string(),
            source: None,
            url: None,
        },
    )];
    assert_eq!(
        plugin_expected_files(&plugins, &lock).unwrap_err(),
        McError::MissingLockEntry("economy".to_string())
    );
}

#[test]
fn exactly_one_core_artifact_survives_staging() {
    let core_file = core_filename(&"new".to_string());
    let existing = strings(vec!["core-old.jar", "core-new.jar", "app.jar", "readme.txt"]);
    let deletions = prune_core_plan(&existing, &core_file);
    assert_eq!(deletions, strings(vec!["core-old.jar"]));
    let after: Vec<String> = existing.into_iter().filter(|f| !deletions.contains(f)).collect();
    assert!(prune_core_plan(&after, &core_file).is_empty());
}

#[test]
fn two_roots_merge_the_same_structured_path() {
    // two scanned roots each contribute a server.yml
    let mut assembly = Assembly::new();
    let rel = "server.yml".to_string();
    assembly
        .record_structured(&rel, "settings:\n  pvp: true\n")
        .unwrap();
    assembly
        .record_structured(&rel, "settings:\n  motd: hi\n")
        .unwrap();
    assert_eq!(assembly.yml_configs.len(), 1);
    let rendered = render_structured(&assembly.yml_configs[0].1, &Vec::new()).unwrap();
    let reparsed = parse_yaml_docs(&rendered).unwrap();
    let expected = parse_yaml_docs("settings:\n  pvp: true\n  motd: hi\n").unwrap();
    assert_eq!(reparsed, expected);
}

#[test]
fn building_twice_renders_identical_bytes() {
    let inputs = ["settings:\n  pvp: true\n", "settings:\n  motd: hi\n"];
    let rel = "server.yml".to_string();
    let mut outputs: Vec<String> = Vec::new();
    for _run in 0..2 {
        let mut assembly = Assembly::new();
        for text in inputs {
            assembly.record_structured(&rel, text).unwrap();
        }
        outputs.push(render_structured(&assembly.yml_configs[0].1, &Vec::new()).unwrap());
    }
    assert_eq!(outputs[0], outputs[1]);
}

#[test]
fn empty_structured_file_is_a_placeholder_only_without_content() {
    let rel = "empty.yml".to_string();
    let mut assembly = Assembly::new();
    assembly.record_structured(&rel, "").unwrap();
    assert_eq!(assembly.yml_configs[0].1, Node::Null);
    // a second empty file changes nothing
    assembly.record_structured(&rel, "").unwrap();
    assert_eq!(assembly.yml_configs.len(), 1);
    assert_eq!(assembly.yml_configs[0].1, Node::Null);

    // an empty override does not erase content another root produced
    let rel2 = "full.yml".to_string();
    let mut assembly = Assembly::new();
    assembly.record_structured(&rel2, "a: 1\n").unwrap();
    assembly.record_structured(&rel2, "").unwrap();
    let docs = parse_yaml_docs("a: 1\n").unwrap();
    assert_eq!(assembly.yml_configs[0].1, docs[0]);
}

#[test]
fn multi_document_structured_files_are_refused() {
    let rel = "m.yml".to_string();
    let mut assembly = Assembly::new();
    assert_eq!(
        assembly
            .record_structured(&rel, "a: 1\n---\nb: 2\n")
            .unwrap_err(),
        McError::MultipleDocs("m.yml".to_string())
    );
}

#[test]
fn flat_text_configs_are_last_wins() {
    let mut assembly = Assembly::new();
    let rel = "server.properties".to_string();
    assembly.record_flat(&rel, &"./base/server.properties".to_string());
    assembly.record_flat(&rel, &"./override/server.properties".to_string());
    assembly.record_opaque(&"logo.png".to_string(), &"./base/logo.png".to_string());
    assert_eq!(assembly.etc_configs.len(), 1);
    assert_eq!(assembly.etc_configs[0].1, "./override/server.properties");
    assert_eq!(assembly.etc_files[0].1, "./base/logo.png");
}

#[test]
fn rendered_structured_output_is_substituted() {
    let docs = parse_yaml_docs("motd: \"${GREETING}\"\n").unwrap();
    let env = vec![("GREETING".to_string(), "hello".to_string())];
    let rendered = render_structured(&docs[0], &env).unwrap();
    let reparsed = parse_yaml_docs(&rendered).unwrap();
    let expected = parse_yaml_docs("motd: hello\n").unwrap();
    assert_eq!(reparsed, expected);
    assert_eq!(
        render_structured(&docs[0], &Vec::new()).unwrap_err(),
        McError::MissingEnvVar("GREETING".to_string())
    );
}

#[test]
fn scalar_keys_are_carried_textually_and_must_stay_unique() {
    let docs = parse_yaml_docs("80: open\ntrue: yes\n").unwrap();
    assert_eq!(
        docs[0],
        Node::Dict(vec![
            ("80".to_string(), Node::Str("open".to_string())),
            ("true".to_string(), Node::Str("yes".to_string())),
        ])
    );
    assert!(parse_yaml_docs("1: a\n\"1\": b\n").is_err());
}

#[test]
fn parse_and_emit_translate_faithfully() {
    let docs = parse_yaml_docs("a: 1\nb: true\nc: hi\nd: ~\ne: [1, x]\nf:\n  g: 2.5\n").unwrap();
    assert_eq!(docs.len(), 1);
    let expected = Node::Dict(vec![
        ("a".to_string(), Node::Int(1)),
        ("b".to_string(), Node::Bool(true)),
        ("c".to_string(), Node::Str("hi".to_string())),
        ("d".to_string(), Node::Null),
        (
            "e".to_string(),
            Node::Arr(vec![Node::Int(1), Node::Str("x".to_string())]),
        ),
        (
            "f".to_string(),
            Node::Dict(vec![("g".to_string(), Node::Real("2.5".to_string()))]),
        ),
    ]);
    assert_eq!(docs[0], expected);
    let rendered = render_structured(&docs[0], &Vec::new()).unwrap();
    let reparsed = parse_yaml_docs(&rendered).unwrap();
    assert_eq!(reparsed[0], expected);
}
