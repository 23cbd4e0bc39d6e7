use clashtui::expand::{expand_template, format_index, ExpandError};
use clashtui::sources::parse_provider_sources;
use clashtui::yaml::Yaml;

fn s(t: &str) -> String {
    t.to_string()
}

fn ystr(t: &str) -> Yaml {
    Yaml::Str(t.to_string())
}

fn ymap(entries: Vec<(&str, Yaml)>) -> Yaml {
    Yaml::Mapping(entries.into_iter().map(|(k, v)| (k.to_string(), v)).collect())
}

fn yseq(items: Vec<Yaml>) -> Yaml {
    Yaml::List(items)
}

/// The template of the worked scenario: one parameterized provider and one
/// parameterized group that declares it.
fn scenario_template() -> Yaml {
    ymap(vec![
        (
            "proxy-providers",
            ymap(vec![(
                "p",
                ymap(vec![
                    ("tpl_param", ymap(vec![])),
                    ("type", ystr("http")),
                    ("other", ystr("x")),
                ]),
            )]),
        ),
        (
            "proxy-groups",
            yseq(vec![ymap(vec![
                ("name", ystr("G")),
                (
                    "tpl_param",
                    ymap(vec![("providers", yseq(vec![ystr("p")]))]),
                ),
                ("other", ystr("y")),
            ])]),
        ),
    ])
}

#[test]
fn scenario_two_sources() {
    let tpl = scenario_template();
    let urls = vec![s("u0"), s("u1")];
    let out = expand_template(&tpl, &urls).unwrap();
    let expected = ymap(vec![
        (
            "proxy-providers",
            ymap(vec![
                (
                    "p0",
                    ymap(vec![
                        ("type", ystr("http")),
                        ("other", ystr("x")),
                        ("url", ystr("u0")),
                        ("path", ystr("proxy-providers/tpl/p0.yaml")),
                    ]),
                ),
                (
                    "p1",
                    ymap(vec![
                        ("type", ystr("http")),
                        ("other", ystr("x")),
                        ("url", ystr("u1")),
                        ("path", ystr("proxy-providers/tpl/p1.yaml")),
                    ]),
                ),
            ]),
        ),
        (
            "proxy-groups",
            yseq(vec![
                ymap(vec![
                    ("name", ystr("G-p0")),
                    ("other", ystr("y")),
                    ("use", yseq(vec![ystr("p0")])),
                ]),
                ymap(vec![
                    ("name", ystr("G-p1")),
                    ("other", ystr("y")),
                    ("use", yseq(vec![ystr("p1")])),
                ]),
            ]),
        ),
    ]);
    assert_eq!(out, expected);
}

#[test]
fn provider_fan_out_names_urls_paths() {
    let tpl = ymap(vec![
        (
            "proxy-providers",
            ymap(vec![(
                "key",
                ymap(vec![("tpl_param", ymap(vec![])), ("type", ystr("http"))]),
            )]),
        ),
        ("proxy-groups", yseq(vec![])),
    ]);
    let urls = vec![s("a"), s("b"), s("c")];
    let out = expand_template(&tpl, &urls).unwrap();
    let providers = match &out {
        Yaml::Mapping(es) => match &es[0].1 {
            Yaml::Mapping(p) => p,
            _ => panic!("providers are a mapping"),
        },
        _ => panic!("output is a mapping"),
    };
    assert_eq!(providers.len(), 3);
    let urls_in = ["a", "b", "c"];
    for (i, (name, body)) in providers.iter().enumerate() {
        assert_eq!(*name, format!("key{}", i));
        match body {
            Yaml::Mapping(es) => {
                assert!(es.contains(&(s("url"), ystr(urls_in[i]))));
                assert!(es.contains(&(
                    s("path"),
                    ystr(&format!("proxy-providers/tpl/key{}.yaml", i))
                )));
                assert!(!es.iter().any(|(k, _)| k == "tpl_param"));
            }
            _ => panic!("generated provider is a mapping"),
        }
    }
}

#[test]
fn duplicate_sources_expand_independently() {
    let tpl = scenario_template();
    let urls = vec![s("same"), s("same")];
    let out = expand_template(&tpl, &urls).unwrap();
    match &out {
        Yaml::Mapping(es) => match &es[0].1 {
            Yaml::Mapping(p) => {
                assert_eq!(p.len(), 2);
                assert_eq!(p[0].0, "p0");
                assert_eq!(p[1].0, "p1");
            }
            _ => panic!("providers are a mapping"),
        },
        _ => panic!("output is a mapping"),
    }
}

#[test]
fn placeholder_resolves_to_registered_names() {
    let tpl = ymap(vec![
        (
            "proxy-providers",
            ymap(vec![(
                "p",
                ymap(vec![("tpl_param", ymap(vec![])), ("type", ystr("http"))]),
            )]),
        ),
        (
            "proxy-groups",
            yseq(vec![ymap(vec![
                ("name", ystr("Sel")),
                ("use", yseq(vec![ystr("<p>")])),
            ])]),
        ),
    ]);
    let urls = vec![s("u0"), s("u1")];
    let out = expand_template(&tpl, &urls).unwrap();
    match &out {
        Yaml::Mapping(es) => match &es[1].1 {
            Yaml::List(gs) => {
                assert_eq!(
                    gs[0],
                    ymap(vec![
                        ("name", ystr("Sel")),
                        ("use", yseq(vec![ystr("p0"), ystr("p1")])),
                    ])
                );
            }
            _ => panic!("groups are a sequence"),
        },
        _ => panic!("output is a mapping"),
    }
}

#[test]
fn unknown_placeholder_is_fatal() {
    let tpl = ymap(vec![
        ("proxy-providers", ymap(vec![])),
        (
            "proxy-groups",
            yseq(vec![ymap(vec![
                ("name", ystr("Sel")),
                ("use", yseq(vec![ystr("<nobody>")])),
            ])]),
        ),
    ]);
    let r = expand_template(&tpl, &vec![s("u0")]);
    assert_eq!(r, Err(ExpandError::UnknownPlaceholder));
}

#[test]
fn passthrough_is_verbatim() {
    let provider = ymap(vec![
        ("type", ystr("file")),
        ("path", ystr("keep/here.yaml")),
    ]);
    let group = ymap(vec![
        ("name", ystr("Manual")),
        ("proxies", yseq(vec![ystr("DIRECT")])),
    ]);
    let tpl = ymap(vec![
        ("port", Yaml::Num(s("7890"))),
        ("proxy-providers", ymap(vec![("keep", provider.deep_copy())])),
        ("proxy-groups", yseq(vec![group.deep_copy()])),
    ]);
    let out = expand_template(&tpl, &vec![s("u0")]).unwrap();
    match &out {
        Yaml::Mapping(es) => {
            assert_eq!(es[0], (s("port"), Yaml::Num(s("7890"))));
            assert_eq!(es[1].1, ymap(vec![("keep", provider)]));
            assert_eq!(es[2].1, yseq(vec![group]));
        }
        _ => panic!("output is a mapping"),
    }
}

#[test]
fn empty_source_list_generates_nothing() {
    let tpl = scenario_template();
    let out = expand_template(&tpl, &vec![]).unwrap();
    let expected = ymap(vec![
        ("proxy-providers", ymap(vec![])),
        ("proxy-groups", yseq(vec![])),
    ]);
    assert_eq!(out, expected);
}

#[test]
fn empty_source_list_placeholder_becomes_empty() {
    let tpl = ymap(vec![
        (
            "proxy-providers",
            ymap(vec![(
                "p",
                ymap(vec![("tpl_param", ymap(vec![])), ("type", ystr("http"))]),
            )]),
        ),
        (
            "proxy-groups",
            yseq(vec![ymap(vec![
                ("name", ystr("Sel")),
                ("use", yseq(vec![ystr("<p>")])),
            ])]),
        ),
    ]);
    let out = expand_template(&tpl, &vec![]).unwrap();
    match &out {
        Yaml::Mapping(es) => {
            assert_eq!(
                es[1].1,
                yseq(vec![ymap(vec![("name", ystr("Sel")), ("use", yseq(vec![]))])])
            );
        }
        _ => panic!("output is a mapping"),
    }
}

#[test]
fn missing_providers_is_malformed() {
    let tpl = ymap(vec![("proxy-groups", yseq(vec![]))]);
    assert_eq!(
        expand_template(&tpl, &vec![]),
        Err(ExpandError::MalformedProviders)
    );
    let not_a_mapping = ymap(vec![
        ("proxy-providers", yseq(vec![])),
        ("proxy-groups", yseq(vec![])),
    ]);
    assert_eq!(
        expand_template(&not_a_mapping, &vec![]),
        Err(ExpandError::MalformedProviders)
    );
}

#[test]
fn missing_groups_is_malformed() {
    let tpl = ymap(vec![("proxy-providers", ymap(vec![]))]);
    assert_eq!(
        expand_template(&tpl, &vec![]),
        Err(ExpandError::MalformedGroups)
    );
}

#[test]
fn bad_tpl_param_providers_is_malformed() {
    let tpl = ymap(vec![
        ("proxy-providers", ymap(vec![])),
        (
            "proxy-groups",
            yseq(vec![ymap(vec![
                ("name", ystr("G")),
                ("tpl_param", ymap(vec![("providers", ystr("p"))])),
            ])]),
        ),
    ]);
    assert_eq!(
        expand_template(&tpl, &vec![]),
        Err(ExpandError::MalformedGroups)
    );
    let non_string_key = ymap(vec![
        ("proxy-providers", ymap(vec![])),
        (
            "proxy-groups",
            yseq(vec![ymap(vec![
                ("name", ystr("G")),
                (
                    "tpl_param",
                    ymap(vec![("providers", yseq(vec![Yaml::Num(s("3"))]))]),
                ),
            ])]),
        ),
    ]);
    assert_eq!(
        expand_template(&non_string_key, &vec![]),
        Err(ExpandError::MalformedGroups)
    );
}

#[test]
fn parameterized_group_needs_a_name() {
    let tpl = ymap(vec![
        ("proxy-providers", ymap(vec![])),
        (
            "proxy-groups",
            yseq(vec![ymap(vec![(
                "tpl_param",
                ymap(vec![("providers", yseq(vec![ystr("p")]))]),
            )])]),
        ),
    ]);
    assert_eq!(
        expand_template(&tpl, &vec![]),
        Err(ExpandError::MissingGroupName)
    );
}

#[test]
fn unregistered_provider_key_is_skipped() {
    let tpl = ymap(vec![
        ("proxy-providers", ymap(vec![])),
        (
            "proxy-groups",
            yseq(vec![ymap(vec![
                ("name", ystr("G")),
                (
                    "tpl_param",
                    ymap(vec![("providers", yseq(vec![ystr("absent")]))]),
                ),
            ])]),
        ),
    ]);
    let out = expand_template(&tpl, &vec![s("u0")]).unwrap();
    match &out {
        Yaml::Mapping(es) => assert_eq!(es[1].1, yseq(vec![])),
        _ => panic!("output is a mapping"),
    }
}

#[test]
fn index_text_is_decimal() {
    assert_eq!(format_index(0), "0");
    assert_eq!(format_index(9), "9");
    assert_eq!(format_index(10), "10");
    assert_eq!(format_index(205), "205");
}

#[test]
fn eleven_sources_use_two_digit_names() {
    let tpl = scenario_template();
    let urls: Vec<String> = (0..11).map(|i| format!("u{}", i)).collect();
    let out = expand_template(&tpl, &urls).unwrap();
    match &out {
        Yaml::Mapping(es) => match &es[0].1 {
            Yaml::Mapping(p) => {
                assert_eq!(p.len(), 11);
                assert_eq!(p[10].0, "p10");
            }
            _ => panic!("providers are a mapping"),
        },
        _ => panic!("output is a mapping"),
    }
}

#[test]
fn source_list_skips_blanks_and_comments() {
    let text = "# header\n  https://a.example/one  \n\n\t\nhttps://b.example/two\n   # indented comment\nhttps://c.example/three";
    let urls = parse_provider_sources(text);
    assert_eq!(
        urls,
        vec![
            s("https://a.example/one"),
            s("https://b.example/two"),
            s("https://c.example/three"),
        ]
    );
}

#[test]
fn source_list_of_empty_text_is_empty() {
    assert_eq!(parse_provider_sources(""), Vec::<String>::new());
    assert_eq!(parse_provider_sources("\n# only\n  \n"), Vec::<String>::new());
}

#[test]
fn source_list_strips_carriage_returns() {
    assert_eq!(
        parse_provider_sources("https://a.example/x\r\nhttps://b.example/y\r\n"),
        vec![s("https://a.example/x"), s("https://b.example/y")]
    );
}
