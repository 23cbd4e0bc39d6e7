use clashtui::sync::{
    build_sync_report, check_profile_document, pointer_url, scan_network_resources,
    sync_resources, NetResource, SyncError,
};
use clashtui::util::{ClashTuiUtil, ImportAction};
use clashtui::yaml::{parse_document_str, Yaml};

fn s(t: &str) -> String {
    t.to_string()
}

fn test_util() -> ClashTuiUtil {
    ClashTuiUtil {
        clashtui_dir: s("/home/u/.config/clashtui"),
        profile_dir: s("/home/u/.config/clashtui/profiles"),
        clash_core_path: s("/usr/bin/mihomo"),
        clash_cfg_dir: s("/srv/clash"),
        clash_cfg_path: s("/srv/clash/config.yaml"),
        clash_srv_name: s("clash.service"),
        edit_cmd: s("vim %s"),
        open_dir_cmd: s(""),
    }
}

#[test]
fn bare_url_is_a_pointer() {
    let util = test_util();
    assert!(!util.is_profile_yaml("https://example.com/sub"));
}

#[test]
fn mapping_text_is_concrete() {
    let util = test_util();
    assert!(util.is_profile_yaml("proxies: []\nmode: rule\n"));
}

#[test]
fn parse_reads_the_tree() {
    let doc = parse_document_str("a: hello\nb: 1\n").unwrap();
    assert_eq!(
        doc,
        Yaml::Mapping(vec![
            (s("a"), Yaml::Str(s("hello"))),
            (s("b"), Yaml::Num(s("1"))),
        ])
    );
}

#[test]
fn parse_keeps_nesting_and_order() {
    let doc = parse_document_str("outer:\n  z: true\n  a:\n    - x\n    - null\n").unwrap();
    assert_eq!(
        doc,
        Yaml::Mapping(vec![(
            s("outer"),
            Yaml::Mapping(vec![
                (s("z"), Yaml::Bool(true)),
                (s("a"), Yaml::List(vec![Yaml::Str(s("x")), Yaml::Null])),
            ]),
        )])
    );
}

#[test]
fn broken_text_does_not_parse() {
    assert!(parse_document_str("a: [unclosed").is_err());
    // A scalar parses as YAML but is no structured document.
    assert!(parse_document_str("just a sentence").is_err());
}

#[test]
fn pointer_url_is_trimmed() {
    assert_eq!(pointer_url("  https://example.com/sub \n"), "https://example.com/sub");
}

#[test]
fn not_yaml_after_fetch_is_an_error() {
    let r = check_profile_document("https://example.com/sub");
    assert_eq!(r, Err(SyncError::NotYaml));
    assert!(check_profile_document("mode: rule\n").is_ok());
}

fn concrete_profile() -> Yaml {
    parse_document_str(
        "proxy-providers:\n\
         \x20 one:\n\
         \x20   type: http\n\
         \x20   url: https://a.example/p1\n\
         \x20   path: providers/p1.yaml\n\
         \x20 local:\n\
         \x20   type: file\n\
         \x20   path: providers/local.yaml\n\
         \x20 partial:\n\
         \x20   type: http\n\
         \x20   url: https://a.example/p2\n\
         rule-providers:\n\
         \x20 rules:\n\
         \x20   type: http\n\
         \x20   url: https://a.example/r1\n\
         \x20   path: rules/r1.yaml\n",
    )
    .unwrap()
}

#[test]
fn scan_finds_http_providers_only() {
    let doc = concrete_profile();
    let rs = scan_network_resources(&doc, false);
    assert_eq!(
        rs,
        vec![NetResource { url: s("https://a.example/p1"), path: s("providers/p1.yaml") }]
    );
}

#[test]
fn scan_with_all_kinds_adds_rule_providers() {
    let doc = concrete_profile();
    let rs = scan_network_resources(&doc, true);
    assert_eq!(
        rs,
        vec![
            NetResource { url: s("https://a.example/p1"), path: s("providers/p1.yaml") },
            NetResource { url: s("https://a.example/r1"), path: s("rules/r1.yaml") },
        ]
    );
}

#[test]
fn scan_of_scalar_sections_is_empty() {
    let doc = parse_document_str("proxy-providers: nothing\n").unwrap();
    assert_eq!(scan_network_resources(&doc, true), Vec::<NetResource>::new());
}

#[test]
fn primary_resource_comes_first() {
    let doc = concrete_profile();
    let primary = NetResource {
        url: s("https://sub.example/me"),
        path: s("/home/u/.config/clashtui/profile_cache/me.yaml"),
    };
    let rs = sync_resources(Some(primary), &doc, false);
    assert_eq!(rs.len(), 2);
    assert_eq!(rs[0].url, "https://sub.example/me");
    assert_eq!(rs[1].url, "https://a.example/p1");
}

#[test]
fn three_resources_one_failure() {
    let rs = vec![
        NetResource { url: s("u1"), path: s("p1") },
        NetResource { url: s("u2"), path: s("p2") },
        NetResource { url: s("u3"), path: s("p3") },
    ];
    let results = vec![true, false, true];
    let report = build_sync_report(&rs, &results);
    assert_eq!(
        report.succeeded,
        vec![
            NetResource { url: s("u1"), path: s("p1") },
            NetResource { url: s("u3"), path: s("p3") },
        ]
    );
    assert_eq!(report.failed, vec![NetResource { url: s("u2"), path: s("p2") }]);
}

#[test]
fn report_of_no_resources_is_empty() {
    let report = build_sync_report(&vec![], &vec![]);
    assert!(report.succeeded.is_empty());
    assert!(report.failed.is_empty());
}

#[test]
fn profile_yaml_path_of_concrete_profile() {
    let util = test_util();
    assert_eq!(
        util.get_profile_yaml_path(&s("mine.yaml"), true),
        "/home/u/.config/clashtui/profiles/mine.yaml"
    );
}

#[test]
fn profile_yaml_path_of_pointer_profile() {
    let util = test_util();
    assert_eq!(
        util.get_profile_yaml_path(&s("sub.txt"), false),
        "/home/u/.config/clashtui/profile_cache/sub.yaml"
    );
    assert_eq!(
        util.get_profile_yaml_path(&s("plain"), false),
        "/home/u/.config/clashtui/profile_cache/plain.yaml"
    );
    assert_eq!(
        util.get_profile_yaml_path(&s(".hidden"), false),
        "/home/u/.config/clashtui/profile_cache/.hidden.yaml"
    );
}

#[test]
fn resource_destination_is_under_cfg_dir() {
    let util = test_util();
    assert_eq!(
        util.resource_destination("providers/p1.yaml"),
        "/srv/clash/providers/p1.yaml"
    );
}

#[test]
fn import_rejects_empty_input() {
    let util = test_util();
    assert_eq!(util.import_profile_action("", "https://x.example/s", false), ImportAction::EmptyInput);
    assert_eq!(util.import_profile_action("name", "", false), ImportAction::EmptyInput);
}

#[test]
fn import_link_becomes_pointer_profile() {
    let util = test_util();
    assert_eq!(
        util.import_profile_action("mysub", "https://x.example/s", false),
        ImportAction::WritePointer { path: s("/home/u/.config/clashtui/profiles/mysub") }
    );
    assert_eq!(
        util.import_profile_action("plain", "http://x.example/s", false),
        ImportAction::WritePointer { path: s("/home/u/.config/clashtui/profiles/plain") }
    );
}

#[test]
fn import_local_file_is_copied_with_yaml_extension() {
    let util = test_util();
    assert_eq!(
        util.import_profile_action("mine.txt", "/tmp/conf.yaml", true),
        ImportAction::CopyFile { path: s("/home/u/.config/clashtui/profiles/mine.yaml") }
    );
}

#[test]
fn import_of_anything_else_is_invalid() {
    let util = test_util();
    assert_eq!(
        util.import_profile_action("mine", "ftp://elsewhere", false),
        ImportAction::InvalidSource
    );
}
