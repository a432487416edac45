use braze_sync::cli::exit_code_for;
use braze_sync::config::schema::{
    default_resource, ApplyOrder, ConfigFile, Defaults, Environment, EnvironmentConfig,
    Environments, NamingConfig, ResourcesConfig,
};
use braze_sync::config::ApiKey;
use braze_sync::endpoint::Endpoint;
use braze_sync::error::Error;
use braze_sync::resource::ResourceKind;

fn config(version: u32, usual: &str, environments: &[(&str, &str, &str)]) -> ConfigFile {
    ConfigFile {
        version,
        default_environment: usual.into(),
        defaults: Defaults::default(),
        environments: Environments::from_list(
            environments
                .iter()
                .map(|(name, endpoint, key)| Environment {
                    name: name.to_string(),
                    config: EnvironmentConfig {
                        api_endpoint: Endpoint::parse(endpoint).unwrap(),
                        api_key_env: key.to_string(),
                        values_file: None,
                    },
                })
                .collect(),
        ),
        resources: ResourcesConfig::default(),
        naming: NamingConfig::default(),
    }
}

fn minimal() -> ConfigFile {
    config(
        1,
        "dev",
        &[("dev", "https://rest.fra-02.braze.eu", "BRAZE_DEV_API_KEY")],
    )
}

#[test]
fn loads_minimal_config_with_all_defaults() {
    let cfg = minimal();
    assert!(cfg.validate_static().is_ok());
    assert_eq!(cfg.version, 1);
    assert_eq!(cfg.default_environment, "dev");
    assert_eq!(cfg.environments.len(), 1);
    assert!(cfg.resources.catalog_schema.enabled);
    assert_eq!(cfg.resources.catalog_schema.path, "catalogs/");
    assert_eq!(
        cfg.resources.custom_attribute.path,
        "custom_attributes/registry.yaml"
    );
}

#[test]
fn loads_full_config_from_section_10() {
    let mut cfg = config(
        1,
        "dev",
        &[
            ("dev", "https://rest.fra-02.braze.eu", "BRAZE_DEV_API_KEY"),
            ("prod", "https://rest.fra-02.braze.eu", "BRAZE_PROD_API_KEY"),
        ],
    );
    cfg.resources.email_template.enabled = false;
    cfg.naming.catalog_name_pattern = Some("^[a-z][a-z0-9_]*$".into());
    assert!(cfg.validate_static().is_ok());
    assert_eq!(cfg.environments.len(), 2);
    assert!(!cfg.resources.email_template.enabled);
    assert!(!cfg.resources.is_enabled(ResourceKind::EmailTemplate));
    assert!(cfg.resources.is_enabled(ResourceKind::ContentBlock));
    assert_eq!(
        cfg.naming.catalog_name_pattern.as_deref(),
        Some("^[a-z][a-z0-9_]*$")
    );
    assert_eq!(
        cfg.naming.for_kind(ResourceKind::CatalogSchema).as_deref(),
        Some("^[a-z][a-z0-9_]*$")
    );
    assert_eq!(cfg.naming.for_kind(ResourceKind::EmailTemplate), None);
}

#[test]
fn rejects_wrong_version() {
    let err = config(
        2,
        "dev",
        &[("dev", "https://rest.fra-02.braze.eu", "BRAZE_DEV_API_KEY")],
    )
    .validate_static()
    .unwrap_err();
    assert!(matches!(err, Error::Config(_)));
    assert!(err.to_string().contains("version 2"));
    match err {
        Error::Config(m) => assert_eq!(
            m,
            "unsupported config version 2 (this binary supports version 1; \
             see IMPLEMENTATION.md §2.5 for the forward-compat policy)"
        ),
        other => panic!("{other:?}"),
    }
}

#[test]
fn rejects_non_http_endpoint_scheme() {
    let err = config(
        1,
        "dev",
        &[("dev", "ftp://rest.braze.eu", "BRAZE_DEV_API_KEY")],
    )
    .validate_static()
    .unwrap_err();
    assert!(matches!(err, Error::Config(_)));
    let msg = err.to_string();
    assert!(msg.contains("http"), "expected http scheme hint: {msg}");
    assert!(msg.contains("ftp"), "expected actual scheme: {msg}");
}

#[test]
fn rejects_default_environment_not_in_map() {
    let err = config(
        1,
        "missing",
        &[("dev", "https://rest.fra-02.braze.eu", "BRAZE_DEV_API_KEY")],
    )
    .validate_static()
    .unwrap_err();
    assert!(matches!(err, Error::Config(_)));
    assert!(err.to_string().contains("missing"));
}

#[test]
fn resolve_uses_default_environment_when_no_override() {
    let resolved = minimal()
        .resolve_with(None, |k| {
            assert_eq!(k, "BRAZE_DEV_API_KEY");
            Some("token-abc".into())
        })
        .ok()
        .unwrap();
    assert_eq!(resolved.environment_name, "dev");
    assert_eq!(resolved.api_key.expose_secret(), "token-abc");
}

#[test]
fn resolve_uses_override_when_provided() {
    let cfg = config(
        1,
        "dev",
        &[
            ("dev", "https://rest.fra-02.braze.eu", "BRAZE_DEV_API_KEY"),
            ("prod", "https://rest.fra-02.braze.eu", "BRAZE_PROD_API_KEY"),
        ],
    );
    assert_eq!(
        cfg.api_key_variable(Some("prod")).unwrap(),
        "BRAZE_PROD_API_KEY"
    );
    let resolved = cfg
        .resolve_with(Some("prod"), |k| {
            assert_eq!(k, "BRAZE_PROD_API_KEY");
            Some("prod-token".into())
        })
        .ok()
        .unwrap();
    assert_eq!(resolved.environment_name, "prod");
}

#[test]
fn resolve_unknown_env_lists_known_envs() {
    let err = minimal()
        .resolve_with(Some("staging"), |_| Some("x".into()))
        .err()
        .unwrap();
    let msg = err.to_string();
    assert!(msg.contains("staging"));
    assert!(msg.contains("dev"));
}

#[test]
fn resolve_missing_env_var_is_typed_error() {
    let err = minimal().resolve_with(None, |_| None).err().unwrap();
    match err {
        Error::MissingEnv(name) => assert_eq!(name, "BRAZE_DEV_API_KEY"),
        other => panic!("expected MissingEnv, got {other:?}"),
    }
}

#[test]
fn resolve_empty_env_var_is_rejected() {
    let err = minimal()
        .resolve_with(None, |_| Some(String::new()))
        .err()
        .unwrap();
    assert!(matches!(err, Error::Config(_)));
    assert!(err.to_string().contains("empty"));
}

#[test]
fn rejects_empty_api_key_env() {
    let err = config(1, "dev", &[("dev", "https://rest.fra-02.braze.eu", "")])
        .validate_static()
        .unwrap_err();
    assert!(matches!(err, Error::Config(_)), "got: {err:?}");
    assert!(err.to_string().contains("api_key_env"));
    let blank = config(1, "dev", &[("dev", "https://rest.fra-02.braze.eu", " \t")]);
    assert!(blank.validate_static().is_err());
}

#[test]
fn a_key_in_hand_resolves_too() {
    let resolved = minimal()
        .resolve_with_key(None, Some("token".into()))
        .ok()
        .unwrap();
    assert_eq!(resolved.api_key.expose_secret(), "token");
    assert_eq!(resolved.api_endpoint.url, "https://rest.fra-02.braze.eu/");
    assert_eq!(ApiKey::new("k".into()).expose_secret(), "k");
}

#[test]
fn endpoints_are_normalized() {
    let e = Endpoint::parse("HTTPS://REST.fra-02.braze.eu").unwrap();
    assert_eq!(e.url, "https://rest.fra-02.braze.eu/");
    assert_eq!(e.scheme, "https");
    assert_eq!(e.host.as_deref(), Some("rest.fra-02.braze.eu"));
    assert_eq!(e.port, Some(443));
    assert!(e.has_web_scheme());
    assert!(Endpoint::parse("not a url").is_err());
    let plain = Endpoint::parse("http://rest.fra-02.braze.eu").unwrap();
    assert!(plain.has_web_scheme());
    assert!(!plain.has_origin_of(&e));
}

#[test]
fn all_resources_but_tags_are_enabled_by_default() {
    let all = ResourcesConfig::default();
    for kind in ResourceKind::all() {
        assert_eq!(all.is_enabled(kind), kind != ResourceKind::Tag);
        assert_eq!(*all.for_kind(kind), default_resource(kind));
        assert!(all.for_kind(kind).exclude_patterns.is_empty());
    }
    assert_eq!(all.content_block.path, "content_blocks/");
    assert_eq!(all.email_template.path, "email_templates/");
    assert_eq!(all.tag.path, "tags/registry.yaml");
    assert_eq!(ApplyOrder::default(), ApplyOrder::Dependency);
}

#[test]
fn config_problems_exit_with_three() {
    let err = config(
        2,
        "dev",
        &[("dev", "https://rest.fra-02.braze.eu", "BRAZE_DEV_API_KEY")],
    )
    .validate_static()
    .unwrap_err();
    assert_eq!(exit_code_for(&err), 3);
}

#[test]
fn environments_are_a_map_by_name() {
    let cfg = config(
        1,
        "dev",
        &[
            ("prod", "https://a.braze.eu", "PROD"),
            ("dev", "https://a.braze.eu", "FIRST"),
            ("stage", "mailto:x@example.com", "STAGE"),
            ("dev", "https://b.braze.eu", "LAST"),
            ("extra", "mailto:y@example.com", "EXTRA"),
        ],
    );
    assert_eq!(cfg.environments.len(), 4);
    let names: Vec<&str> = (0..4)
        .map(|i| cfg.environments.entry(i).name.as_str())
        .collect();
    assert_eq!(names, vec!["dev", "extra", "prod", "stage"]);
    assert_eq!(cfg.api_key_variable(None).unwrap(), "LAST");
    assert!(cfg.environments.get("qa").is_none());
    match cfg.validate_static() {
        Err(Error::Config(m)) => assert!(m.starts_with("environment 'extra'"), "{m}"),
        other => panic!("{other:?}"),
    }
    match cfg.api_key_variable(Some("qa")) {
        Err(Error::Config(m)) => assert_eq!(
            m,
            "unknown environment 'qa'; declared: [dev, extra, prod, stage]"
        ),
        other => panic!("{other:?}"),
    }
}
