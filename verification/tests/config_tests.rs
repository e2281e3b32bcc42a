use rt_db::config::{
    AppConfig, BatchConfig, ConfigError, ConnectionConfig, DatabaseConfig, DatabaseConnectionType,
    QueryConfig, TableConfig,
};

fn sample_config() -> DatabaseConfig {
    DatabaseConfig {
        server: "localhost".to_string(),
        port: 1433,
        database: "TestDB".to_string(),
        user: "sa".to_string(),
        password: "123456".to_string(),
        trust_server_certificate: true,
    }
}

#[test]
fn to_connection_string_plain() {
    let cfg = sample_config();
    assert_eq!(
        cfg.to_connection_string(),
        "server=tcp:localhost,1433;database=TestDB;user=sa;password=123456;TrustServerCertificate=true"
    );
}

#[test]
fn connection_string_round_trip_plain() {
    let cfg = sample_config();
    let parsed = DatabaseConfig::from_connection_string(&cfg.to_connection_string()).unwrap();
    assert_eq!(parsed.server, cfg.server);
    assert_eq!(parsed.port, cfg.port);
    assert_eq!(parsed.database, cfg.database);
    assert_eq!(parsed.user, cfg.user);
    assert_eq!(parsed.password, cfg.password);
    assert_eq!(parsed.trust_server_certificate, cfg.trust_server_certificate);
}

#[test]
fn connection_string_round_trip_special_characters() {
    // The percent-encoding must hide ';' and '=' from the string's own
    // punctuation, and carry non-ASCII names through.
    let cfg = DatabaseConfig {
        server: "db.example".to_string(),
        port: 1234,
        database: "控制器数据库".to_string(),
        user: "user name".to_string(),
        password: "p@ss;w=rd".to_string(),
        trust_server_certificate: false,
    };
    let s = cfg.to_connection_string();
    let parsed = DatabaseConfig::from_connection_string(&s).unwrap();
    assert_eq!(parsed.server, cfg.server);
    assert_eq!(parsed.port, cfg.port);
    assert_eq!(parsed.database, cfg.database);
    assert_eq!(parsed.user, cfg.user);
    assert_eq!(parsed.password, cfg.password);
    assert_eq!(parsed.trust_server_certificate, cfg.trust_server_certificate);
}

#[test]
fn from_connection_string_percent_encoded_database() {
    let s = "server=tcp:localhost,1433;database=%E6%8E%A7%E5%88%B6%E5%99%A8%E6%95%B0%E6%8D%AE%E5%BA%93;user=sa;password=test123;TrustServerCertificate=true";
    let parsed = DatabaseConfig::from_connection_string(s).unwrap();
    assert_eq!(parsed.database, "控制器数据库");
    assert_eq!(parsed.server, "localhost");
    assert_eq!(parsed.port, 1433);
    assert!(parsed.trust_server_certificate);
}

#[test]
fn from_connection_string_default_port() {
    let parsed =
        DatabaseConfig::from_connection_string("server=tcp:host;database=D;user=u;password=p")
            .unwrap();
    assert_eq!(parsed.port, 1433);
    assert_eq!(parsed.server, "host");
}

#[test]
fn from_connection_string_unparsable_port_keeps_default() {
    let parsed = DatabaseConfig::from_connection_string(
        "server=tcp:host,99999;database=D;user=u;password=p",
    )
    .unwrap();
    assert_eq!(parsed.port, 1433);
}

#[test]
fn from_connection_string_plain_server() {
    let parsed =
        DatabaseConfig::from_connection_string("server=host;database=D;user=u;password=p").unwrap();
    assert_eq!(parsed.server, "host");
    assert_eq!(parsed.port, 1433);
}

#[test]
fn from_connection_string_keys_case_insensitive() {
    let parsed = DatabaseConfig::from_connection_string(
        "SERVER=tcp:h,5; Database = D ;User=u;PASSWORD=p;trustServerCertificate=TRUE",
    )
    .unwrap();
    assert_eq!(parsed.server, "h");
    assert_eq!(parsed.port, 5);
    assert_eq!(parsed.database, "D");
    assert!(parsed.trust_server_certificate);
}

#[test]
fn from_connection_string_zero_port_rejected() {
    assert_eq!(
        DatabaseConfig::from_connection_string("server=tcp:h,0;database=D;user=u;password=p"),
        Err(ConfigError::ZeroPort)
    );
}

#[test]
fn from_connection_string_signed_port() {
    let parsed =
        DatabaseConfig::from_connection_string("server=tcp:h,+5;database=D;user=u;password=p")
            .unwrap();
    assert_eq!(parsed.port, 5);
}

#[test]
fn from_connection_string_invalid_format() {
    assert_eq!(
        DatabaseConfig::from_connection_string("invalid_format"),
        Err(ConfigError::EmptyServer)
    );
}

#[test]
fn from_connection_string_missing_password() {
    assert_eq!(
        DatabaseConfig::from_connection_string("server=tcp:h,1;database=D;user=u"),
        Err(ConfigError::EmptyPassword)
    );
}

#[test]
fn from_connection_string_bad_percent_encoding() {
    // %FF decodes to a byte that is not valid text.
    assert_eq!(
        DatabaseConfig::from_connection_string("server=tcp:h,1;database=%FF;user=u;password=p"),
        Err(ConfigError::DatabaseDecodeFailed)
    );
    assert_eq!(
        DatabaseConfig::from_connection_string("server=tcp:h,1;database=D;user=%FF;password=p"),
        Err(ConfigError::UserDecodeFailed)
    );
    assert_eq!(
        DatabaseConfig::from_connection_string("server=tcp:h,1;database=D;user=u;password=%FF"),
        Err(ConfigError::PasswordDecodeFailed)
    );
}

#[test]
fn validate_reports_first_missing_field() {
    let mut cfg = sample_config();
    cfg.server = String::new();
    assert_eq!(cfg.validate(), Err(ConfigError::EmptyServer));
    let mut cfg = sample_config();
    cfg.port = 0;
    assert_eq!(cfg.validate(), Err(ConfigError::ZeroPort));
    let mut cfg = sample_config();
    cfg.database = String::new();
    assert_eq!(cfg.validate(), Err(ConfigError::EmptyDatabase));
    let mut cfg = sample_config();
    cfg.user = String::new();
    assert_eq!(cfg.validate(), Err(ConfigError::EmptyUser));
    let mut cfg = sample_config();
    cfg.password = String::new();
    assert_eq!(cfg.validate(), Err(ConfigError::EmptyPassword));
    assert_eq!(sample_config().validate(), Ok(()));
}

fn valid_app_config() -> AppConfig {
    let mut cfg = AppConfig::default();
    cfg.database = Some(sample_config());
    cfg
}

#[test]
fn app_config_defaults() {
    let cfg = AppConfig::default();
    assert!(cfg.database_url.is_none());
    assert!(cfg.database.is_none());
    assert!(matches!(
        cfg.database_connection_type,
        DatabaseConnectionType::StructuredConfig
    ));
    assert_eq!(cfg.update_interval_secs, 60);
    assert_eq!(cfg.data_window_days, 30);
    assert_eq!(cfg.initial_load_lookback_secs, 3600);
    assert_eq!(cfg.db_file_path, "rt_db.duckdb");
    assert_eq!(cfg.log_level, "info");
    let t = TableConfig::default();
    assert_eq!(t.history_table, "History");
    assert_eq!(t.tag_database_table, "TagDatabase");
    let q = QueryConfig::default();
    assert_eq!(q.days_back, 30);
    let c = ConnectionConfig::default();
    assert_eq!((c.max_retries, c.retry_interval_secs, c.connection_timeout_secs), (3, 5, 30));
    let b = BatchConfig::default();
    assert_eq!(b.batch_size, 1000);
    assert_eq!(b.max_memory_records, 50000);
    assert!(b.enable_parallel_insert);
    assert_eq!(b.history_load_batch_days, 1);
}

#[test]
fn app_config_validate() {
    assert_eq!(valid_app_config().validate(), Ok(()));

    let mut cfg = AppConfig::default();
    cfg.database_connection_type = DatabaseConnectionType::ConnectionString;
    assert_eq!(cfg.validate(), Err(ConfigError::MissingDatabaseUrl));

    let cfg = AppConfig::default();
    assert_eq!(cfg.validate(), Err(ConfigError::MissingDatabaseConfig));

    let mut cfg = valid_app_config();
    cfg.update_interval_secs = 0;
    assert_eq!(cfg.validate(), Err(ConfigError::ZeroUpdateInterval));

    let mut cfg = valid_app_config();
    cfg.data_window_days = 0;
    assert_eq!(cfg.validate(), Err(ConfigError::ZeroDataWindow));

    let mut cfg = valid_app_config();
    cfg.db_file_path = String::new();
    assert_eq!(cfg.validate(), Err(ConfigError::EmptyDbFilePath));
}

#[test]
fn get_database_config_from_url() {
    let mut cfg = AppConfig::default();
    cfg.database_connection_type = DatabaseConnectionType::ConnectionString;
    cfg.database_url =
        Some("server=tcp:remote,1435;database=D;user=u;password=p;TrustServerCertificate=true"
            .to_string());
    let db = cfg.get_database_config().unwrap();
    assert_eq!(db.server, "remote");
    assert_eq!(db.port, 1435);
    assert!(db.trust_server_certificate);
}

#[test]
fn get_connection_string_from_structured() {
    let cfg = valid_app_config();
    let s = cfg.get_connection_string().unwrap();
    assert_eq!(
        s,
        "server=tcp:localhost,1433;database=TestDB;user=sa;password=123456;TrustServerCertificate=true"
    );
}

#[test]
fn data_window_duration() {
    let mut cfg = AppConfig::default();
    cfg.data_window_days = 30;
    assert_eq!(cfg.data_window_duration_secs(), 2592000);
    cfg.data_window_days = 1;
    assert_eq!(cfg.data_window_duration_secs(), 86400);
}
