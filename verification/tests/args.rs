use scm_core::args::{bool_as_str, ArgType, ArgTypes, MononokeAppBuilder, RepoRequirement, Section};
use scm_core::blobstore::parse_blobstore_options;
use scm_core::builder::{seed_version, BuildError, Part, SegmentedChangelogBuilder};
use scm_core::matches::{
    config_source, get_bool_opt, get_i32, get_i32_opt, get_i64_opt, get_log_level, get_number, get_shutdown_grace_period,
    get_shutdown_timeout, get_u64, get_u64_opt, get_usize, get_usize_opt, panic_fate, parse_chaos_options,
    parse_disabled_hooks_with_repo_prefix, parse_mysql_options, parse_mysql_pool_options,
    parse_readonly_storage, parse_throttle_options, repo_selector, resolve_repo_given_id,
    split_repo_hook, ArgError, ArgValue, ConfigSource, Fate, Level, Matches, RepoSelector,
};
use scm_core::newstore::{doc, name};
use scm_core::repos::{
    get_source_repo_id_opt, resolve_repo, resolve_repo_given_name, resolve_repos_from_args, RepoEntry,
};
use scm_core::parse::{parse_bool, parse_bounded, parse_i32, parse_i64, parse_u64};
use scm_core::sql::{
    reversed, MysqlConnectionType, MysqlOptions, ReadConnectionType, SqlConnections,
    SqlShardedConnections,
};

type Builder = SegmentedChangelogBuilder<u8, u8, &'static str, &'static str, &'static str, u8, &'static str, u8>;

fn matches(args: &[(&str, &[&str])]) -> Matches {
    Matches {
        args: args
            .iter()
            .map(|(name, values)| ArgValue {
                name: name.as_bytes().to_vec(),
                values: values.iter().map(|v| v.as_bytes().to_vec()).collect(),
            })
            .collect(),
    }
}

#[test]
fn bool_as_str_texts() {
    assert_eq!(bool_as_str(true), "true");
    assert_eq!(bool_as_str(false), "false");
}

#[test]
fn command_names() {
    assert_eq!(name(), "debugnewstore");
    assert_eq!(doc(), "test newstore storage api");
}

#[test]
fn numbers_are_read_like_the_standard_library_reads_them() {
    for text in ["0", "7", "+7", "007", "18446744073709551615", "18446744073709551616", "", "+", "-1", "1 ", "1a", "٣"] {
        assert_eq!(parse_u64(text.as_bytes()), text.parse::<u64>().ok(), "{:?}", text);
    }
    for text in ["0", "-0", "+5", "-5", "9223372036854775807", "9223372036854775808", "-9223372036854775808", "-9223372036854775809", "--1", "-", ""] {
        assert_eq!(parse_i64(text.as_bytes()), text.parse::<i64>().ok(), "{:?}", text);
    }
    for text in ["2147483647", "2147483648", "-2147483648", "-2147483649", "12"] {
        assert_eq!(parse_i32(text.as_bytes()), text.parse::<i32>().ok(), "{:?}", text);
    }
    for text in ["65535", "65536", "0"] {
        assert_eq!(parse_bounded(text.as_bytes(), 0xffff), text.parse::<u16>().ok().map(u64::from));
    }
    for text in ["true", "false", "True", "1", ""] {
        assert_eq!(parse_bool(text.as_bytes()), text.parse::<bool>().ok(), "{:?}", text);
    }
}

#[test]
fn default_sections() {
    let (sections, data, types) = MononokeAppBuilder::new("app".to_string()).build();
    assert_eq!(
        sections,
        vec![
            Section::Config,
            Section::Repo { required: false, multiple: false, source_only: false },
            Section::Logging,
            Section::Mysql,
            Section::Blobstore { scrub: false },
            Section::Cachelib { hide_advanced: false },
            Section::Runtime,
            Section::Tunables,
        ]
    );
    assert_eq!(data.repo_required, None);
    assert!(types.contains(ArgType::Repo));
    assert!(!types.contains(ArgType::Scrub));
}

#[test]
fn sections_follow_the_builder() {
    let (sections, data, _) = MononokeAppBuilder::new("app".to_string())
        .with_advanced_args_hidden()
        .with_repo_required(RepoRequirement::AtLeastOne)
        .with_source_and_target_repos()
        .with_shutdown_timeout_args()
        .with_scuba_logging_args()
        .with_default_scuba_dataset("dataset".to_string())
        .with_disabled_hooks_args()
        .with_fb303_args()
        .with_arg_types(&vec![ArgType::Scrub])
        .without_arg_types(&vec![ArgType::Tunables, ArgType::Mysql])
        .build();
    assert_eq!(
        sections,
        vec![
            Section::Config,
            Section::Repo { required: true, multiple: true, source_only: false },
            Section::SourceRepo,
            Section::TargetRepo,
            Section::Logging,
            Section::Blobstore { scrub: true },
            Section::Cachelib { hide_advanced: true },
            Section::Runtime,
            Section::ShutdownTimeouts,
            Section::ScubaLogging { has_default: true },
            Section::DisableHooks,
            Section::Fb303,
        ]
    );
    assert_eq!(data.repo_required, Some(RepoRequirement::AtLeastOne));
    assert_eq!(data.default_scuba_dataset, Some("dataset".to_string()));

    let (sections, _, _) =
        MononokeAppBuilder::new("app".to_string()).with_source_repos().with_all_repos().build();
    assert!(!sections.contains(&Section::SourceRepo));
    let (sections, _, _) = MononokeAppBuilder::new("app".to_string()).with_source_repos().build();
    assert_eq!(sections[1], Section::Repo { required: false, multiple: false, source_only: true });
    assert_eq!(sections[2], Section::SourceRepo);
}

#[test]
fn arg_types_are_a_set() {
    let mut types = ArgTypes::empty();
    assert!(!types.contains(ArgType::Fb303));
    types.insert(ArgType::Fb303);
    types.insert(ArgType::Config);
    assert!(types.contains(ArgType::Fb303) && types.contains(ArgType::Config));
    types.remove(ArgType::Fb303);
    assert!(!types.contains(ArgType::Fb303) && types.contains(ArgType::Config));
    let defaults = ArgTypes::default_set();
    assert!(defaults.contains(ArgType::Blobstore) && !defaults.contains(ArgType::DisableHooks));
}

#[test]
fn repository_is_selected_by_name_or_number() {
    let m = matches(&[("repo-id", &["7"])]);
    assert!(matches!(repo_selector(&m, b"repo-name", b"repo-id"), Ok(RepoSelector::ById(v)) if v == b"7"));
    let m = matches(&[("repo-name", &["fbsource"])]);
    assert!(matches!(repo_selector(&m, b"repo-name", b"repo-id"), Ok(RepoSelector::ByName(v)) if v == b"fbsource"));
    let m = matches(&[("repo-name", &["fbsource"]), ("repo-id", &["7"])]);
    assert!(matches!(repo_selector(&m, b"repo-name", b"repo-id"), Err(ArgError::BothRepoNameAndId)));
    let m = matches(&[]);
    assert!(matches!(repo_selector(&m, b"repo-name", b"repo-id"), Err(ArgError::NeitherRepoNameNorId)));

    assert_eq!(resolve_repo_given_id(&vec![1, 2, 3], 2), Ok(1));
    assert_eq!(resolve_repo_given_id(&vec![2, 1, 2], 2), Ok(2));
    assert_eq!(resolve_repo_given_id(&vec![2, 2, 2], 2), Err(ArgError::MultipleConfigs));
    assert_eq!(resolve_repo_given_id(&vec![1, 3], 2), Err(ArgError::UnknownRepoId));
}

#[test]
fn storage_and_database_options() {
    assert_eq!(parse_readonly_storage(&matches(&[("readonly-storage", &[])])), Ok(true));
    assert_eq!(parse_readonly_storage(&matches(&[("with-readonly-storage", &["true"])])), Ok(true));
    assert_eq!(parse_readonly_storage(&matches(&[("with-readonly-storage", &["false"])])), Ok(false));
    assert_eq!(parse_readonly_storage(&matches(&[])), Ok(false));
    assert_eq!(parse_readonly_storage(&matches(&[("with-readonly-storage", &["yes"])])), Err(ArgError::NotBool));

    let options = parse_mysql_options(&matches(&[("myrouter-port", &["3306"]), ("mysql-master-only", &[])])).unwrap();
    assert_eq!(options.connection_type, MysqlConnectionType::Myrouter(3306));
    assert_eq!(options.read_connection_type(), ReadConnectionType::Master);
    let options = parse_mysql_options(&matches(&[("use-mysql-client", &[])])).unwrap();
    assert_eq!(options.connection_type, MysqlConnectionType::Mysql);
    assert_eq!(options.read_connection_type(), ReadConnectionType::Replica);
    assert_eq!(parse_mysql_options(&matches(&[])).unwrap().connection_type, MysqlConnectionType::RawXDB);
    assert!(matches!(parse_mysql_options(&matches(&[("myrouter-port", &["65536"])])), Err(ArgError::NotANumber)));
    assert_eq!(MysqlConnectionType::Mysql.per_key_limit(), None);
    assert_eq!(
        MysqlOptions { connection_type: MysqlConnectionType::RawXDB, master_only: true }.read_connection_type(),
        ReadConnectionType::Master
    );

    let pool = parse_mysql_pool_options(&matches(&[
        ("mysql-pool-limit", &["10000"]),
        ("mysql-pool-per-key-limit", &["100"]),
        ("mysql-pool-threads-num", &["10"]),
        ("mysql-pool-age-timeout", &["60000"]),
        ("mysql-pool-idle-timeout", &["4000"]),
        ("mysql-conn-open-timeout", &["3000"]),
        ("mysql-query-time-limit", &["10000"]),
    ]))
    .unwrap();
    assert_eq!((pool.size, pool.threads_num, pool.per_key_limit), (10000, 10, 100));
    assert_eq!((pool.conn_age_timeout_ms, pool.conn_idle_timeout_ms), (60000, 4000));
    assert_eq!((pool.conn_open_timeout_ms, pool.max_query_time_ms), (3000, 10000));
    assert!(matches!(parse_mysql_pool_options(&matches(&[])), Err(ArgError::Missing)));

    let throttle = parse_throttle_options(&matches(&[("blobstore-read-qps", &["5"]), ("blobstore-write-bytes-s", &["1024"])])).unwrap();
    assert_eq!((throttle.read_qps, throttle.write_qps, throttle.write_bytes), (Some(5), None, Some(1024)));
    assert!(parse_throttle_options(&matches(&[("blobstore-read-qps", &["0"])])).is_err());
    let chaos = parse_chaos_options(&matches(&[("blobstore-write-chaos-rate", &["3"])])).unwrap();
    assert_eq!((chaos.read_chaos, chaos.write_chaos), (None, Some(3)));
    assert!(parse_chaos_options(&matches(&[("blobstore-read-chaos-rate", &["x"])])).is_err());
}

#[test]
fn plain_options() {
    let m = matches(&[("shutdown-grace-period", &["0"]), ("shutdown-timeout", &["10"]), ("n", &["-3"]), ("b", &["true"])]);
    assert_eq!(get_shutdown_grace_period(&m), Ok(0));
    assert_eq!(get_shutdown_timeout(&m), Ok(10));
    assert_eq!(get_shutdown_timeout(&matches(&[])), Err(ArgError::Missing));
    assert_eq!(get_u64_opt(&m, b"shutdown-timeout"), Ok(Some(10)));
    assert_eq!(get_u64_opt(&m, b"absent"), Ok(None));
    assert_eq!(get_u64_opt(&m, b"n"), Err(ArgError::NotANumber));
    assert_eq!(get_u64(&m, b"absent", 5), Ok(5));
    assert_eq!(get_i32_opt(&m, b"n"), Ok(Some(-3)));
    assert_eq!(get_i32(&m, b"n", 4), Ok(-3));
    assert_eq!(get_i32(&m, b"absent", 4), Ok(4));
    assert_eq!(get_i64_opt(&m, b"n"), Ok(Some(-3)));
    assert_eq!(get_i64_opt(&m, b"b"), Err(ArgError::NotANumber));
    assert_eq!(get_usize_opt(&m, b"shutdown-timeout"), Ok(Some(10)));
    assert_eq!(get_usize_opt(&m, b"n"), Err(ArgError::NotANumber));
    assert_eq!(get_usize(&m, b"absent", 8), Ok(8));
    assert_eq!(get_bool_opt(&m, b"b"), Ok(Some(true)));
    assert_eq!(get_bool_opt(&m, b"n"), Err(ArgError::NotBool));
    assert_eq!(get_number(&m, b"shutdown-grace-period", 10, true), Err(ArgError::NotANumber));
    assert_eq!(get_number(&m, b"shutdown-grace-period", 10, false), Ok(Some(0)));
    assert!(m.is_present(b"b") && !m.is_present(b"c"));
    assert_eq!(m.value_of(b"b"), Some(&b"true"[..]));
}

#[test]
fn logging_options() {
    assert_eq!(panic_fate(b"none"), Ok(None));
    assert_eq!(panic_fate(b"continue"), Ok(Some(Fate::Continue)));
    assert_eq!(panic_fate(b"exit"), Ok(Some(Fate::Exit(101))));
    assert_eq!(panic_fate(b"abort"), Ok(Some(Fate::Abort)));
    assert_eq!(panic_fate(b"explode"), Err(ArgError::BadPanicFate));
    assert_eq!(get_log_level(&matches(&[("debug", &[]), ("log-level", &["WARN"])])), Ok(Level::Debug));
    assert_eq!(get_log_level(&matches(&[("log-level", &["WARN"])])), Ok(Level::Warning));
    assert_eq!(get_log_level(&matches(&[("log-level", &["TRACE"])])), Ok(Level::Trace));
    assert_eq!(get_log_level(&matches(&[])), Ok(Level::Info));
    assert_eq!(get_log_level(&matches(&[("log-level", &["LOUD"])])), Err(ArgError::UnknownLogLevel));
}

#[test]
fn disabled_hooks_and_config_sources() {
    assert_eq!(split_repo_hook(b"repo:hook:x"), Some((b"repo".to_vec(), b"hook:x".to_vec())));
    assert_eq!(split_repo_hook(b"nocolon"), None);
    let m = matches(&[("disabled-hooks", &["a:h1", "b:h2"])]);
    assert_eq!(
        parse_disabled_hooks_with_repo_prefix(&m).unwrap(),
        vec![(b"a".to_vec(), b"h1".to_vec()), (b"b".to_vec(), b"h2".to_vec())]
    );
    assert!(parse_disabled_hooks_with_repo_prefix(&matches(&[])).unwrap().is_empty());
    assert!(matches!(
        parse_disabled_hooks_with_repo_prefix(&matches(&[("disabled-hooks", &["a:h1", "bad"])])),
        Err(ArgError::BadDisabledHook)
    ));

    assert!(matches!(config_source(None), Ok(ConfigSource::Default)));
    assert!(matches!(config_source(Some(b"default")), Ok(ConfigSource::Default)));
    assert!(matches!(config_source(Some(b"configerator:scm/x")), Ok(ConfigSource::Configerator(p)) if p == b"scm/x"));
    assert!(matches!(config_source(Some(b"file:/tmp/x")), Ok(ConfigSource::File(p)) if p == b"/tmp/x"));
    assert!(matches!(config_source(Some(b"file:/tmp/x:y")), Err(ArgError::InvalidConfigSpec)));
    assert!(matches!(config_source(Some(b"http:x")), Err(ArgError::InvalidConfigSpec)));
    assert!(matches!(config_source(Some(b"other")), Err(ArgError::InvalidConfigSpec)));
}

#[test]
fn connections_are_sorted_by_purpose() {
    let single = SqlConnections::new_single(7u8);
    assert_eq!((single.write_connection, single.read_connection, single.read_master_connection), (7, 7, 7));
    let shards = vec![
        SqlConnections { write_connection: 1, read_connection: 2, read_master_connection: 3 },
        SqlConnections { write_connection: 4, read_connection: 5, read_master_connection: 6 },
    ];
    let sharded = SqlShardedConnections::from_shards(shards);
    assert_eq!(sharded.write_connections, vec![1, 4]);
    assert_eq!(sharded.read_connections, vec![2, 5]);
    assert_eq!(sharded.read_master_connections, vec![3, 6]);
    assert!(!sharded.is_empty());
    assert!(SqlShardedConnections::<u8>::from_shards(vec![]).is_empty());
    assert_eq!(reversed(vec![1, 2, 3]), vec![3, 2, 1]);
}

#[test]
fn changelog_builder_asks_for_its_parts() {
    assert_eq!(seed_version(None), Some(1));
    assert_eq!(seed_version(Some(4)), Some(5));
    assert_eq!(seed_version(Some(u64::MAX)), None);

    let builder = Builder::new();
    assert_eq!(builder.repo_id(), Err(BuildError::Missing(Part::RepositoryId)));
    assert_eq!(builder.idmap_version(), 0);
    assert!(matches!(builder.build_manager(), Err(BuildError::Missing(Part::RepositoryId))));
    assert!(matches!(
        Builder::new().with_repo_id(1).build_manager(),
        Err(BuildError::Missing(Part::SqlConnections))
    ));
    let full = || {
        Builder::from_sql_connections(SqlConnections::new_single(9))
            .with_repo_id(1)
            .with_blobstore("blobs")
            .with_changeset_fetcher("fetcher")
            .with_changeset_bulk_fetch("bulk")
            .with_bookmarks(3)
            .with_bookmark_name("master")
            .with_cache_handlers(4)
            .with_replica_lag_monitor(5)
    };
    assert!(matches!(
        Builder::new().with_repo_id(1).with_sql_connections(SqlConnections::new_single(9)).build_manager(),
        Err(BuildError::Missing(Part::Blobstore))
    ));
    let manager = full().build_manager().ok().unwrap();
    assert_eq!((manager.repo_id, manager.blobstore), (1, "blobs"));
    assert_eq!((manager.cache_handlers, manager.replica_lag_monitor), (Some(4), Some(5)));
    assert_eq!(manager.idmap_connections.write_connection, 9);

    assert!(full().needs_stored_version());
    let seeder = full().build_seeder(Some(6)).ok().unwrap();
    assert_eq!((seeder.idmap_version, seeder.changeset_bulk_fetch), (7, "bulk"));
    let seeder = full().with_idmap_version(3).build_seeder(Some(6)).ok().unwrap();
    assert_eq!(seeder.idmap_version, 3);
    assert!(matches!(full().build_seeder(Some(u64::MAX)), Err(BuildError::VersionsExhausted)));

    let tailer = full().build_tailer().ok().unwrap();
    assert_eq!((tailer.changeset_fetcher, tailer.bookmarks, tailer.bookmark_name), ("fetcher", 3, "master"));
    assert!(matches!(Builder::new().with_repo_id(1).build_tailer(), Err(BuildError::Missing(Part::ChangesetFetcher))));

    let (manager, fetcher) = full().build_on_demand_update_start_from_save().ok().unwrap();
    assert!(manager.with_in_memory_write_idmap);
    assert_eq!((manager.repo_id, fetcher), (1, "fetcher"));
    assert!(!full().build_manager().ok().unwrap().with_in_memory_write_idmap);
    assert!(matches!(
        Builder::new().with_repo_id(1).build_on_demand_update_start_from_save(),
        Err(BuildError::Missing(Part::ChangesetFetcher))
    ));
    assert!(matches!(
        Builder::new().with_changeset_fetcher("fetcher").build_on_demand_update_start_from_save(),
        Err(BuildError::Missing(Part::RepositoryId))
    ));

    let (iddag, idmap, fetcher) = full().build_on_demand_update().ok().unwrap();
    assert_eq!(iddag.next_free_id().unwrap(), 0);
    assert_eq!(idmap.len(), 0);
    assert_eq!(fetcher, "fetcher");
    assert!(matches!(Builder::new().build_on_demand_update(), Err(BuildError::Missing(Part::ChangesetFetcher))));
}

fn configured() -> Vec<RepoEntry> {
    [("fbsource", 1), ("www", 2), ("mirror", 1), ("ovrsource", 3)]
        .iter()
        .map(|(name, id)| RepoEntry { name: name.as_bytes().to_vec(), id: *id })
        .collect()
}

#[test]
fn one_repository_is_resolved() {
    let configs = configured();
    assert_eq!(resolve_repo_given_name(&configs, b"www"), Ok(1));
    assert_eq!(resolve_repo_given_name(&configs, b"none"), Err(ArgError::UnknownRepoName));
    let by = |args: &[(&str, &[&str])]| resolve_repo(&matches(args), &configs, b"repo-name", b"repo-id");
    assert_eq!(by(&[("repo-name", &["ovrsource"])]), Ok(3));
    assert_eq!(by(&[("repo-id", &["1"])]), Ok(2));
    assert_eq!(by(&[("repo-id", &["2"])]), Ok(1));
    assert_eq!(by(&[("repo-id", &["9"])]), Err(ArgError::UnknownRepoId));
    assert_eq!(by(&[("repo-id", &["two"])]), Err(ArgError::NotANumber));
    assert_eq!(by(&[("repo-id", &["2"]), ("repo-name", &["www"])]), Err(ArgError::BothRepoNameAndId));
    assert_eq!(by(&[]), Err(ArgError::NeitherRepoNameNorId));
}

#[test]
fn several_repositories_are_resolved_once_each() {
    let configs = configured();
    let all = |one: bool, args: &[(&str, &[&str])]| {
        resolve_repos_from_args(&matches(args), &configs, one, b"repo-name", b"repo-id")
    };
    assert_eq!(all(true, &[("repo-name", &["www"])]), Ok(vec![1]));
    assert_eq!(all(true, &[]), Err(ArgError::NeitherRepoNameNorId));
    assert_eq!(
        all(false, &[("repo-name", &["www", "fbsource", "ovrsource"]), ("repo-id", &["3", "2", "3"])]),
        Ok(vec![3, 1, 0])
    );
    assert_eq!(all(false, &[("repo-id", &["1"]), ("repo-name", &["fbsource"])]), Ok(vec![2, 0]));
    assert_eq!(all(false, &[]), Err(ArgError::NeitherRepoNameNorId));
    assert_eq!(all(false, &[("repo-id", &["2", "7"])]), Err(ArgError::UnknownRepoId));
    assert_eq!(all(false, &[("repo-id", &["2"]), ("repo-name", &["x"])]), Err(ArgError::UnknownRepoName));
}

#[test]
fn source_repository_is_optional() {
    let configs = configured();
    let source = |args: &[(&str, &[&str])]| {
        get_source_repo_id_opt(&matches(args), &configs, b"source-repo-name", b"source-repo-id")
    };
    assert_eq!(source(&[("repo-id", &["2"])]), Ok(None));
    assert_eq!(source(&[("source-repo-name", &["ovrsource"])]), Ok(Some(3)));
    assert_eq!(source(&[("source-repo-id", &["2"])]), Ok(Some(2)));
    assert_eq!(source(&[("source-repo-id", &["8"])]), Err(ArgError::UnknownRepoId));
}

#[test]
fn blobstore_options_are_read_together() {
    let given: &[(&str, &[&str])] = &[
        ("blobstore-read-qps", &["7"]),
        ("blobstore-write-chaos-rate", &["3"]),
        ("manifold-api-key", &["key"]),
        ("manifold-use-cpp-client", &["false"]),
        ("blobstore-write-zstd-level", &["-5"]),
        ("blobstore-cachelib-attempt-zstd", &["true"]),
        ("blobstore-put-behaviour", &["Overwrite"]),
        ("blobstore-scrub-action", &["Repair"]),
        ("blobstore-scrub-grace", &["60"]),
    ];
    let settings = parse_blobstore_options(&matches(given), true).unwrap();
    assert_eq!(settings.throttle.read_qps, Some(7));
    assert_eq!(settings.throttle.write_qps, None);
    assert_eq!((settings.chaos.read_chaos, settings.chaos.write_chaos), (None, Some(3)));
    assert_eq!(settings.manifold_api_key, Some(b"key".to_vec()));
    assert!(!settings.manifold_use_cpp_client);
    assert_eq!(settings.write_zstd_level, Some(-5));
    assert!(settings.attempt_zstd);
    assert_eq!(settings.put_behaviour, Some(b"Overwrite".to_vec()));
    assert_eq!(settings.scrub_action, Some(b"Repair".to_vec()));
    assert_eq!(settings.scrub_grace, Some(60));

    let settings = parse_blobstore_options(&matches(given), false).unwrap();
    assert_eq!((settings.scrub_action, settings.scrub_grace), (None, None));

    let fails = |args: &[(&str, &[&str])], scrub: bool| {
        parse_blobstore_options(&matches(args), scrub).err()
    };
    assert_eq!(fails(&[], false), Some(ArgError::Missing));
    assert_eq!(fails(&[("manifold-use-cpp-client", &["no"])], false), Some(ArgError::NotBool));
    assert_eq!(
        fails(&[("manifold-use-cpp-client", &["true"]), ("blobstore-write-zstd-level", &["x"])], false),
        Some(ArgError::NotANumber)
    );
    assert_eq!(
        fails(&[("manifold-use-cpp-client", &["true"]), ("blobstore-write-chaos-rate", &["0"])], false),
        Some(ArgError::NotANumber)
    );
    assert_eq!(fails(&[("manifold-use-cpp-client", &["true"])], false), Some(ArgError::Missing));
    let rest: &[(&str, &[&str])] = &[
        ("manifold-use-cpp-client", &["true"]),
        ("blobstore-cachelib-attempt-zstd", &["false"]),
        ("blobstore-scrub-grace", &["soon"]),
    ];
    assert_eq!(fails(rest, true), Some(ArgError::NotANumber));
    assert_eq!(fails(rest, false), None);
}
