//! The application configuration: the connection settings of the remote
//! source, the local store path, and the sync engine's intervals, windows
//! and batch sizes. Loading the file itself is left to the caller; this
//! module holds the validation rules and the connection-string syntax.

use vstd::prelude::*;

use vstd::string::StringExecFns;

verus! {

/// How the database connection is configured: by one connection string or
/// by structured fields.
#[derive(PartialEq, Eq, Structural, Clone, Copy, Debug)]
pub enum DatabaseConnectionType {
    ConnectionString,
    StructuredConfig,
}

impl Default for DatabaseConnectionType {
    /// Structured configuration is the default.
    fn default() -> (r: Self)
        ensures
            r == DatabaseConnectionType::StructuredConfig,
    {
        DatabaseConnectionType::StructuredConfig
    }
}

/// Why a configuration was rejected.
#[derive(PartialEq, Eq, Structural, Clone, Copy, Debug)]
pub enum ConfigError {
    EmptyServer,
    ZeroPort,
    EmptyDatabase,
    EmptyUser,
    EmptyPassword,
    DatabaseDecodeFailed,
    UserDecodeFailed,
    PasswordDecodeFailed,
    MissingDatabaseUrl,
    MissingDatabaseConfig,
    ZeroUpdateInterval,
    ZeroDataWindow,
    EmptyDbFilePath,
}

/// The remote database's connection settings.
#[derive(Clone, Debug, PartialEq)]
pub struct DatabaseConfig {
    pub server: String,
    pub port: u16,
    pub database: String,
    pub user: String,
    pub password: String,
    pub trust_server_certificate: bool,
}

/// The source tables' names.
#[derive(Clone)]
pub struct TableConfig {
    pub history_table: String,
    pub tag_database_table: String,
}

/// The history query's reach.
#[derive(Clone)]
pub struct QueryConfig {
    pub days_back: i32,
    pub history_table: String,
}

/// The connection retry policy's settings.
#[derive(Clone)]
pub struct ConnectionConfig {
    pub max_retries: u32,
    pub retry_interval_secs: u64,
    pub connection_timeout_secs: u64,
}

/// The batching limits of loads and writes.
#[derive(Clone)]
pub struct BatchConfig {
    pub batch_size: usize,
    pub max_memory_records: usize,
    pub enable_parallel_insert: bool,
    pub history_load_batch_days: u32,
}

/// The whole application configuration.
#[derive(Clone)]
pub struct AppConfig {
    pub database_url: Option<String>,
    pub database: Option<DatabaseConfig>,
    pub database_connection_type: DatabaseConnectionType,
    pub update_interval_secs: u64,
    pub data_window_days: u32,
    pub initial_load_lookback_secs: u64,
    pub db_file_path: String,
    pub log_level: String,
    pub tables: TableConfig,
    pub connection: ConnectionConfig,
    pub query: QueryConfig,
    pub batch: BatchConfig,
}

impl Default for TableConfig {
    fn default() -> (r: Self)
        ensures
            r.history_table@ == "History"@,
            r.tag_database_table@ == "TagDatabase"@,
    {
        TableConfig {
            history_table: String::from_str("History"),
            tag_database_table: String::from_str("TagDatabase"),
        }
    }
}

impl Default for QueryConfig {
    fn default() -> (r: Self)
        ensures
            r.days_back == 30,
            r.history_table@ == "History"@,
    {
        QueryConfig { days_back: 30, history_table: String::from_str("History") }
    }
}

impl Default for ConnectionConfig {
    fn default() -> (r: Self)
        ensures
            r.max_retries == 3,
            r.retry_interval_secs == 5,
            r.connection_timeout_secs == 30,
    {
        ConnectionConfig { max_retries: 3, retry_interval_secs: 5, connection_timeout_secs: 30 }
    }
}

impl Default for BatchConfig {
    fn default() -> (r: Self)
        ensures
            r.batch_size == 1000,
            r.max_memory_records == 50000,
            r.enable_parallel_insert,
            r.history_load_batch_days == 1,
    {
        BatchConfig {
            batch_size: 1000,
            max_memory_records: 50000,
            enable_parallel_insert: true,
            history_load_batch_days: 1,
        }
    }
}

impl Default for AppConfig {
    fn default() -> (r: Self)
        ensures
            r.database_url is None,
            r.database is None,
            r.database_connection_type == DatabaseConnectionType::StructuredConfig,
            r.update_interval_secs == 60,
            r.data_window_days == 30,
            r.initial_load_lookback_secs == 3600,
            r.db_file_path@ == "rt_db.duckdb"@,
            r.log_level@ == "info"@,
    {
        AppConfig {
            database_url: None,
            database: None,
            database_connection_type: DatabaseConnectionType::StructuredConfig,
            update_interval_secs: 60,
            data_window_days: 30,
            initial_load_lookback_secs: 3600,
            db_file_path: String::from_str("rt_db.duckdb"),
            log_level: String::from_str("info"),
            tables: TableConfig::default(),
            connection: ConnectionConfig::default(),
            query: QueryConfig::default(),
            batch: BatchConfig::default(),
        }
    }
}

/// What validating these connection settings yields: the first missing
/// field's error, in a fixed order, or acceptance.
pub open spec fn db_validate_spec(c: DatabaseConfig) -> Result<(), ConfigError> {
    if c.server@.len() == 0 {
        Err(ConfigError::EmptyServer)
    } else if c.port == 0 {
        Err(ConfigError::ZeroPort)
    } else if c.database@.len() == 0 {
        Err(ConfigError::EmptyDatabase)
    } else if c.user@.len() == 0 {
        Err(ConfigError::EmptyUser)
    } else if c.password@.len() == 0 {
        Err(ConfigError::EmptyPassword)
    } else {
        Ok(())
    }
}

impl DatabaseConfig {
    /// Accepts exactly the settings with a server, a non-zero port, a
    /// database, a user and a password.
    pub fn validate(&self) -> (r: Result<(), ConfigError>)
        ensures
            r == db_validate_spec(*self),
    {
        if self.server.as_str().is_empty() {
            Err(ConfigError::EmptyServer)
        } else if self.port == 0 {
            Err(ConfigError::ZeroPort)
        } else if self.database.as_str().is_empty() {
            Err(ConfigError::EmptyDatabase)
        } else if self.user.as_str().is_empty() {
            Err(ConfigError::EmptyUser)
        } else if self.password.as_str().is_empty() {
            Err(ConfigError::EmptyPassword)
        } else {
            Ok(())
        }
    }
}

/// What `urlencoding::encode` returns: a function of the characters alone.
pub uninterp spec fn url_encoded(s: Seq<char>) -> Seq<char>;

/// A character percent-encoding can emit: an unreserved ASCII character, a
/// percent sign, or a hex digit.
pub open spec fn url_safe_char(c: char) -> bool {
    ||| ('0' as u32 <= c as u32 && c as u32 <= '9' as u32)
    ||| ('A' as u32 <= c as u32 && c as u32 <= 'Z' as u32)
    ||| ('a' as u32 <= c as u32 && c as u32 <= 'z' as u32)
    ||| c == '-'
    ||| c == '_'
    ||| c == '.'
    ||| c == '~'
    ||| c == '%'
}

/// Relies on urlencoding::encode: percent-encodes every byte except
/// alphanumerics and `-`, `_`, `.`, `~`; a pure function of the input. Its
/// output holds only unreserved ASCII characters, percent signs and hex
/// digits, and decoding the output returns the input.
#[verifier::external_body]
fn url_encode(s: &str) -> (r: String)
    ensures
        r@ == url_encoded(s@),
        forall|i: int| 0 <= i < r@.len() ==> url_safe_char(#[trigger] r@[i]),
        url_decoded(r@) == Some(s@),
{
    urlencoding::encode(s).into_owned()
}

/// What `urlencoding::decode` returns: the decoded characters, or nothing
/// where the decoded bytes are not valid text; a function of the
/// characters alone.
pub uninterp spec fn url_decoded(s: Seq<char>) -> Option<Seq<char>>;

/// Relies on urlencoding::decode: reverses percent-encoding; it fails only
/// where the decoded bytes are not valid text; a pure function of the
/// input.
#[verifier::external_body]
fn url_decode(s: &str) -> (r: Option<String>)
    ensures
        (r is Some) == (url_decoded(s@) is Some),
        r matches Some(d) ==> url_decoded(s@) == Some(d@),
{
    match urlencoding::decode(s) {
        Ok(d) => Some(d.into_owned()),
        Err(_) => None,
    }
}

/// The character of one decimal digit.
pub open spec fn digit_char(d: int) -> char {
    if d == 0 {
        '0'
    } else if d == 1 {
        '1'
    } else if d == 2 {
        '2'
    } else if d == 3 {
        '3'
    } else if d == 4 {
        '4'
    } else if d == 5 {
        '5'
    } else if d == 6 {
        '6'
    } else if d == 7 {
        '7'
    } else if d == 8 {
        '8'
    } else {
        '9'
    }
}

/// The decimal digits of a non-negative number, most significant first.
pub open spec fn dec_of(n: int) -> Seq<char>
    decreases n,
{
    if n < 10 {
        seq![digit_char(n)]
    } else {
        dec_of(n / 10).push(digit_char(n % 10))
    }
}

/// The character of one decimal digit.
fn digit_char_exec(d: u16) -> (c: char)
    requires
        d < 10,
    ensures
        c == digit_char(d as int),
{
    if d == 0 {
        '0'
    } else if d == 1 {
        '1'
    } else if d == 2 {
        '2'
    } else if d == 3 {
        '3'
    } else if d == 4 {
        '4'
    } else if d == 5 {
        '5'
    } else if d == 6 {
        '6'
    } else if d == 7 {
        '7'
    } else if d == 8 {
        '8'
    } else {
        '9'
    }
}

/// Appends the decimal digits of `n`.
fn push_dec_digits(n: u16, out: &mut Vec<char>)
    ensures
        final(out)@ == old(out)@ + dec_of(n as int),
    decreases n,
{
    if n >= 10 {
        push_dec_digits(n / 10, out);
    }
    out.push(digit_char_exec(n % 10));
    proof {
        if n >= 10 {
            assert(final(out)@ =~= old(out)@ + dec_of(n as int));
        } else {
            assert(dec_of(n as int) =~= seq![digit_char(n as int)]);
            assert(final(out)@ =~= old(out)@ + dec_of(n as int));
        }
    }
}

/// The number as decimal text.
fn u16_to_string(n: u16) -> (r: String)
    ensures
        r@ == dec_of(n as int),
{
    let mut v: Vec<char> = Vec::new();
    push_dec_digits(n, &mut v);
    proof {
        assert(v@ =~= dec_of(n as int));
    }
    crate::text::chars_to_string(&v)
}

/// The connection string these settings stand for: the server and port in
/// the tcp form, then the percent-encoded database, user and password, then
/// the certificate-trust flag.
pub open spec fn conn_string_parts(
    server: Seq<char>,
    port: u16,
    database: Seq<char>,
    user: Seq<char>,
    password: Seq<char>,
    trust: bool,
) -> Seq<char> {
    "server=tcp:"@ + server + ","@ + dec_of(port as int) + ";database="@ + url_encoded(database)
        + ";user="@ + url_encoded(user) + ";password="@ + url_encoded(password)
        + ";TrustServerCertificate="@ + (if trust {
        "true"@
    } else {
        "false"@
    })
}

pub open spec fn connection_string_of(c: DatabaseConfig) -> Seq<char> {
    conn_string_parts(c.server@, c.port, c.database@, c.user@, c.password@,
        c.trust_server_certificate)
}

impl DatabaseConfig {
    /// Renders these settings as a connection string. The database, user
    /// and password are percent-encoded so that any characters survive the
    /// string's own punctuation. For valid settings whose server name is
    /// free of white space and of the syntax's punctuation, parsing the
    /// rendered string returns exactly these settings back: the round trip
    /// is lossless.
    pub fn to_connection_string(&self) -> (r: String)
        ensures
            r@ == connection_string_of(*self),
            db_validate_spec(*self) is Ok && plain_server_name(self.server@) ==> parse_db_spec(r@)
                == Ok::<ConnFields, ConfigError>(
                ConnFields {
                    server: self.server@,
                    port: self.port,
                    database: self.database@,
                    user: self.user@,
                    password: self.password@,
                    trust: self.trust_server_certificate,
                },
            ),
    {
        let e1 = url_encode(self.database.as_str());
        let e2 = url_encode(self.user.as_str());
        let e3 = url_encode(self.password.as_str());
        let mut s = String::new();
        s.append("server=tcp:");
        s.append(self.server.as_str());
        s.append(",");
        s.append(u16_to_string(self.port).as_str());
        s.append(";database=");
        s.append(e1.as_str());
        s.append(";user=");
        s.append(e2.as_str());
        s.append(";password=");
        s.append(e3.as_str());
        s.append(";TrustServerCertificate=");
        if self.trust_server_certificate {
            s.append("true");
        } else {
            s.append("false");
        }
        proof {
            if db_validate_spec(*self) is Ok && plain_server_name(self.server@) {
                lemma_conn_round_trip(
                    self.server@,
                    self.port,
                    self.database@,
                    self.user@,
                    self.password@,
                    self.trust_server_certificate,
                    e1@,
                    e2@,
                    e3@,
                );
            }
        }
        s
    }
}

/// The index of the first occurrence of a character, if any.
pub open spec fn find_first(s: Seq<char>, c: char) -> Option<nat>
    decreases s.len(),
{
    if s.len() == 0 {
        None
    } else if s[0] == c {
        Some(0)
    } else {
        match find_first(s.drop_first(), c) {
            Some(k) => Some((k + 1) as nat),
            None => None,
        }
    }
}

/// `find_first` points at the first occurrence, or there is none.
proof fn lemma_find_first(s: Seq<char>, c: char)
    ensures
        match find_first(s, c) {
            Some(k) => k < s.len() && s[k as int] == c && forall|i: int| 0 <= i < k ==> s[i] != c,
            None => forall|i: int| 0 <= i < s.len() ==> s[i] != c,
        },
    decreases s.len(),
{
    if s.len() > 0 && s[0] != c {
        lemma_find_first(s.drop_first(), c);
        assert(forall|i: int| 0 <= i < s.len() - 1 ==> s.drop_first()[i] == s[i + 1]);
        match find_first(s, c) {
            Some(k) => {
                assert forall|i: int| 0 <= i < k implies s[i] != c by {
                    if i > 0 {
                        assert(s.drop_first()[i - 1] != c);
                    }
                }
            },
            None => {
                assert forall|i: int| 0 <= i < s.len() implies s[i] != c by {
                    if i > 0 {
                        assert(s.drop_first()[i - 1] != c);
                    }
                }
            },
        }
    }
}

/// The string cut at every separator; n separators give n + 1 pieces.
pub open spec fn split_chars(s: Seq<char>, sep: char) -> Seq<Seq<char>>
    decreases s.len(),
{
    if s.len() == 0 {
        seq![Seq::<char>::empty()]
    } else if s[0] == sep {
        seq![Seq::<char>::empty()] + split_chars(s.drop_first(), sep)
    } else {
        let r = split_chars(s.drop_first(), sep);
        r.update(0, seq![s[0]] + r[0])
    }
}

/// There is always at least one piece.
proof fn lemma_split_len(s: Seq<char>, sep: char)
    ensures
        split_chars(s, sep).len() >= 1,
    decreases s.len(),
{
    if s.len() > 0 {
        lemma_split_len(s.drop_first(), sep);
    }
}

/// Splitting starts with the separator-free head piece; the rest is the
/// split of what follows the first separator.
proof fn lemma_split_head(t: Seq<char>, sep: char, k: int)
    requires
        0 <= k <= t.len(),
        forall|i: int| 0 <= i < k ==> t[i] != sep,
        k < t.len() ==> t[k] == sep,
    ensures
        k == t.len() ==> split_chars(t, sep) == seq![t],
        k < t.len() ==> split_chars(t, sep) == seq![t.subrange(0, k)] + split_chars(
            t.skip(k + 1),
            sep,
        ),
    decreases t.len(),
{
    lemma_split_len(t, sep);
    if t.len() == 0 {
        assert(t =~= Seq::<char>::empty());
        assert(split_chars(t, sep) =~= seq![t]);
    } else if t[0] == sep {
        assert(k == 0);
        assert(t.subrange(0, 0) =~= Seq::<char>::empty());
        assert(t.skip(1) =~= t.drop_first());
        assert(split_chars(t, sep) =~= seq![t.subrange(0, k)] + split_chars(t.skip(k + 1), sep));
    } else {
        let d = t.drop_first();
        assert(forall|i: int| 0 <= i < t.len() - 1 ==> d[i] == t[i + 1]);
        assert(k >= 1);
        lemma_split_head(d, sep, k - 1);
        lemma_split_len(d, sep);
        let r = split_chars(d, sep);
        if k == t.len() {
            assert(r == seq![d]);
            assert(seq![t[0]] + d =~= t);
            assert(split_chars(t, sep) =~= seq![t]);
        } else {
            assert(r == seq![d.subrange(0, k - 1)] + split_chars(d.skip(k), sep));
            assert(seq![t[0]] + r[0] =~= t.subrange(0, k));
            assert(d.skip(k) =~= t.skip(k + 1));
            assert(split_chars(t, sep) =~= seq![t.subrange(0, k)] + split_chars(
                t.skip(k + 1),
                sep,
            ));
        }
    }
}

/// The code point with ASCII upper case folded to lower case.
pub open spec fn lower_u32(u: u32) -> u32 {
    if 'A' as u32 <= u && u <= 'Z' as u32 {
        (u + 32) as u32
    } else {
        u
    }
}

/// Equal up to ASCII case.
pub open spec fn ci_eq(a: Seq<char>, b: Seq<char>) -> bool {
    a.len() == b.len() && forall|i: int|
        0 <= i < a.len() ==> lower_u32(#[trigger] a[i] as u32) == lower_u32(b[i] as u32)
}

/// Whether the characters match the given word up to ASCII case.
fn ci_eq_chars(a: &Vec<char>, b: &str) -> (r: bool)
    ensures
        r == ci_eq(a@, b@),
{
    let bc = crate::text::str_to_chars(b);
    if a.len() != bc.len() {
        return false;
    }
    let mut i: usize = 0;
    while i < a.len()
        invariant
            i <= a@.len(),
            a@.len() == bc@.len(),
            bc@ == b@,
            forall|j: int| 0 <= j < i ==> lower_u32(#[trigger] a@[j] as u32) == lower_u32(
                b@[j] as u32,
            ),
        decreases a@.len() - i,
    {
        let ua = a[i] as u32;
        let ub = bc[i] as u32;
        let la = if 65 <= ua && ua <= 90 {
            ua + 32
        } else {
            ua
        };
        let lb = if 65 <= ub && ub <= 90 {
            ub + 32
        } else {
            ub
        };
        if la != lb {
            return false;
        }
        i = i + 1;
    }
    true
}

/// The value of a string of decimal digits, most significant first.
pub open spec fn dec_val(s: Seq<char>) -> int
    decreases s.len(),
{
    if s.len() == 0 {
        0
    } else {
        dec_val(s.drop_last()) * 10 + (s.last() as u32 - '0' as u32)
    }
}

/// Every character a decimal digit.
pub open spec fn all_digits(s: Seq<char>) -> bool {
    forall|i: int| 0 <= i < s.len() ==> crate::text::is_ascii_digit_char(#[trigger] s[i])
}

/// What parsing the string as a 16-bit number yields: an optional plus
/// sign, then digits only, with a value that fits.
pub open spec fn u16_str_val(s: Seq<char>) -> Option<u16> {
    let body = if s.len() > 0 && s[0] == '+' {
        s.drop_first()
    } else {
        s
    };
    if body.len() == 0 || !all_digits(body) {
        None
    } else if dec_val(body) > 65535 {
        None
    } else {
        Some(dec_val(body) as u16)
    }
}

/// Parses the characters as a 16-bit number.
fn parse_u16_chars(v: &Vec<char>) -> (r: Option<u16>)
    ensures
        r == u16_str_val(v@),
{
    let start: usize = if v.len() > 0 && v[0] == '+' {
        1
    } else {
        0
    };
    let ghost body = if start == 1 {
        v@.drop_first()
    } else {
        v@
    };
    proof {
        assert(body =~= v@.skip(start as int));
    }
    if v.len() == start {
        return None;
    }
    let mut acc: u32 = 0;
    let mut big = false;
    let mut i: usize = start;
    while i < v.len()
        invariant
            start <= i <= v@.len(),
            body == v@.skip(start as int),
            start <= 1,
            (start == 1) == (v@.len() > 0 && v@[0] == '+'),
            v@.len() > start,
            forall|j: int|
                start <= j < i ==> crate::text::is_ascii_digit_char(#[trigger] v@[j]),
            !big ==> acc == dec_val(v@.skip(start as int).take(i - start)) && acc <= 65535,
            big ==> dec_val(v@.skip(start as int).take(i - start)) > 65535,
        decreases v@.len() - i,
    {
        let c = v[i];
        let u = c as u32;
        if !(48 <= u && u <= 57) {
            proof {
                assert(!crate::text::is_ascii_digit_char(body[i - start]));
            }
            return None;
        }
        let d = u - 48;
        proof {
            let pre = v@.skip(start as int).take(i - start);
            let nxt = v@.skip(start as int).take(i - start + 1);
            assert(nxt.drop_last() =~= pre);
            assert(nxt.last() == v@[i as int]);
            assert(dec_val(nxt) == dec_val(pre) * 10 + d);
        }
        if !big {
            let next = acc * 10 + d;
            if next > 65535 {
                big = true;
            } else {
                acc = next;
            }
        } else {
            proof {
                let pre = v@.skip(start as int).take(i - start);
                assert(dec_val(pre) * 10 + d > 65535);
            }
        }
        i = i + 1;
    }
    proof {
        assert(v@.skip(start as int).take(v@.len() - start) =~= body);
        assert(all_digits(body));
    }
    if big {
        None
    } else {
        Some(acc as u16)
    }
}

/// The field values a connection string yields while its pairs are read.
pub struct ConnFields {
    pub server: Seq<char>,
    pub port: u16,
    pub database: Seq<char>,
    pub user: Seq<char>,
    pub password: Seq<char>,
    pub trust: bool,
}

/// The fields before any pair is read: empty names, the default port, no
/// certificate trust.
pub open spec fn default_fields() -> ConnFields {
    ConnFields {
        server: Seq::empty(),
        port: 1433,
        database: Seq::empty(),
        user: Seq::empty(),
        password: Seq::empty(),
        trust: false,
    }
}

/// What a `server=` value sets: a `tcp:host,port` form sets the host and,
/// when the port parses, the port; otherwise the whole value is the host.
pub open spec fn server_fields(f: ConnFields, value: Seq<char>) -> ConnFields {
    if value.len() >= 4 && value.subrange(0, 4) == "tcp:"@ {
        let rest = value.skip(4);
        match find_first(rest, ',') {
            Some(k) => ConnFields {
                server: rest.subrange(0, k as int),
                port: match u16_str_val(rest.skip(k + 1 as int)) {
                    Some(p) => p,
                    None => f.port,
                },
                ..f
            },
            None => ConnFields { server: rest, ..f },
        }
    } else {
        ConnFields { server: value, ..f }
    }
}

/// What one `key=value` pair does to the fields: keys are matched up to
/// ASCII case; unknown keys and pairs without `=` are skipped; the encoded
/// name fields are percent-decoded, and a value that does not decode
/// rejects the string.
pub open spec fn eat_pair(f: ConnFields, raw: Seq<char>) -> Result<ConnFields, ConfigError> {
    let pair = crate::text::trim_ws_spec(raw);
    if pair.len() == 0 {
        Ok(f)
    } else {
        match find_first(pair, '=') {
            None => Ok(f),
            Some(k) => {
                let key = crate::text::trim_ws_spec(pair.subrange(0, k as int));
                let value = crate::text::trim_ws_spec(pair.skip(k + 1 as int));
                if ci_eq(key, "server"@) {
                    Ok(server_fields(f, value))
                } else if ci_eq(key, "database"@) {
                    match url_decoded(value) {
                        Some(d) => Ok(ConnFields { database: d, ..f }),
                        None => Err(ConfigError::DatabaseDecodeFailed),
                    }
                } else if ci_eq(key, "user"@) {
                    match url_decoded(value) {
                        Some(d) => Ok(ConnFields { user: d, ..f }),
                        None => Err(ConfigError::UserDecodeFailed),
                    }
                } else if ci_eq(key, "password"@) {
                    match url_decoded(value) {
                        Some(d) => Ok(ConnFields { password: d, ..f }),
                        None => Err(ConfigError::PasswordDecodeFailed),
                    }
                } else if ci_eq(key, "trustservercertificate"@) {
                    Ok(ConnFields { trust: ci_eq(value, "true"@), ..f })
                } else {
                    Ok(f)
                }
            },
        }
    }
}

/// The pairs read in order; the first failure wins.
pub open spec fn eat_pairs(f: ConnFields, pairs: Seq<Seq<char>>) -> Result<
    ConnFields,
    ConfigError,
>
    decreases pairs.len(),
{
    if pairs.len() == 0 {
        Ok(f)
    } else {
        match eat_pairs(f, pairs.drop_last()) {
            Err(e) => Err(e),
            Ok(g) => eat_pair(g, pairs.last()),
        }
    }
}

/// A failure while reading a prefix decides the whole list.
proof fn lemma_eat_pairs_concat(f: ConnFields, a: Seq<Seq<char>>, b: Seq<Seq<char>>)
    ensures
        eat_pairs(f, a + b) == (match eat_pairs(f, a) {
            Err(e) => Err::<ConnFields, ConfigError>(e),
            Ok(g) => eat_pairs(g, b),
        }),
    decreases b.len(),
{
    if b.len() == 0 {
        assert(a + b =~= a);
    } else {
        assert((a + b).drop_last() =~= a + b.drop_last());
        lemma_eat_pairs_concat(f, a, b.drop_last());
        assert((a + b).last() == b.last());
    }
}

/// What the whole connection string yields, before validation: its pairs,
/// split on semicolons, read left to right over the default fields.
pub open spec fn conn_fields_spec(s: Seq<char>) -> Result<ConnFields, ConfigError> {
    eat_pairs(default_fields(), split_chars(s, ';'))
}

/// The validation rule, over parsed fields.
pub open spec fn fields_validate(f: ConnFields) -> Result<(), ConfigError> {
    if f.server.len() == 0 {
        Err(ConfigError::EmptyServer)
    } else if f.port == 0 {
        Err(ConfigError::ZeroPort)
    } else if f.database.len() == 0 {
        Err(ConfigError::EmptyDatabase)
    } else if f.user.len() == 0 {
        Err(ConfigError::EmptyUser)
    } else if f.password.len() == 0 {
        Err(ConfigError::EmptyPassword)
    } else {
        Ok(())
    }
}

/// What parsing and validating a connection string yields.
pub open spec fn parse_db_spec(s: Seq<char>) -> Result<ConnFields, ConfigError> {
    match conn_fields_spec(s) {
        Err(e) => Err(e),
        Ok(f) => match fields_validate(f) {
            Err(e) => Err(e),
            Ok(_) => Ok(f),
        },
    }
}

/// Every character clear of white space.
pub open spec fn no_ws(s: Seq<char>) -> bool {
    forall|i: int| 0 <= i < s.len() ==> !crate::text::whitespace_char(#[trigger] s[i])
}

/// No occurrence of the character.
pub open spec fn no_char(s: Seq<char>, c: char) -> bool {
    forall|i: int| 0 <= i < s.len() ==> (#[trigger] s[i]) != c
}

/// A server name the connection-string syntax carries literally: free of
/// white space and of the syntax's own punctuation.
pub open spec fn plain_server_name(s: Seq<char>) -> bool {
    no_ws(s) && no_char(s, ';') && no_char(s, ',') && no_char(s, '=')
}

/// `find_first` pinned by a witness: the character at `k` and none before.
proof fn lemma_find_first_at(s: Seq<char>, c: char, k: int)
    requires
        0 <= k < s.len(),
        s[k] == c,
        forall|i: int| 0 <= i < k ==> s[i] != c,
    ensures
        find_first(s, c) == Some(k as nat),
{
    lemma_find_first(s, c);
    match find_first(s, c) {
        Some(kk) => {
            if kk < k {
                assert(s[kk as int] != c);
            }
            if kk > k {
                assert(s[k] != c);
            }
        },
        None => {
            assert(s[k] != c);
        },
    }
}

/// One separator-free piece splits off the front.
proof fn lemma_split_prepend(p: Seq<char>, rest: Seq<char>, sep: char)
    requires
        no_char(p, sep),
    ensures
        split_chars(p + seq![sep] + rest, sep) == seq![p] + split_chars(rest, sep),
{
    let t = p + seq![sep] + rest;
    lemma_split_head(t, sep, p.len() as int);
    assert(t.subrange(0, p.len() as int) =~= p);
    assert(t.skip(p.len() + 1 as int) =~= rest);
}

/// A separator-free string is one piece.
proof fn lemma_split_single(p: Seq<char>, sep: char)
    requires
        no_char(p, sep),
    ensures
        split_chars(p, sep) == seq![p],
{
    lemma_split_head(p, sep, p.len() as int);
}

/// Percent-encoded text carries none of the syntax's punctuation and no
/// white space.
proof fn lemma_url_safe_plain(s: Seq<char>)
    requires
        forall|i: int| 0 <= i < s.len() ==> url_safe_char(#[trigger] s[i]),
    ensures
        no_ws(s),
        no_char(s, ';'),
        no_char(s, ','),
        no_char(s, '='),
{
}

/// The decimal digits of a number: at least one, digits only, none of the
/// syntax's punctuation, no white space.
proof fn lemma_dec_of_shape(n: int)
    requires
        n >= 0,
    ensures
        dec_of(n).len() >= 1,
        all_digits(dec_of(n)),
        crate::text::is_ascii_digit_char(dec_of(n)[0]),
        no_ws(dec_of(n)),
        no_char(dec_of(n), ';'),
        no_char(dec_of(n), ','),
        no_char(dec_of(n), '='),
        no_char(dec_of(n), '+'),
    decreases n,
{
    if n >= 10 {
        lemma_dec_of_shape(n / 10);
        assert(forall|i: int|
            0 <= i < dec_of(n / 10).len() ==> dec_of(n)[i] == (#[trigger] dec_of(n / 10)[i]));
    }
}

/// Reading the digits back gives the number.
proof fn lemma_dec_val_of(n: int)
    requires
        n >= 0,
    ensures
        dec_val(dec_of(n)) == n,
    decreases n,
{
    if n < 10 {
        assert(dec_of(n).drop_last() =~= Seq::<char>::empty());
        assert(dec_val(Seq::<char>::empty()) == 0);
    } else {
        lemma_dec_val_of(n / 10);
        assert(dec_of(n).drop_last() =~= dec_of(n / 10));
    }
}

/// A rendered port parses back to itself.
proof fn lemma_u16_dec_round(port: u16)
    ensures
        u16_str_val(dec_of(port as int)) == Some(port),
{
    lemma_dec_of_shape(port as int);
    lemma_dec_val_of(port as int);
    assert(dec_of(port as int)[0] != '+');
}

/// Reading the rendered server pair back: the host and the port.
proof fn lemma_eat_server(f: ConnFields, server: Seq<char>, port: u16)
    requires
        plain_server_name(server),
    ensures
        eat_pair(f, "server"@ + seq!['='] + ("tcp:"@ + server + seq![','] + dec_of(port as int)))
            == Ok::<ConnFields, ConfigError>(ConnFields { server, port, ..f }),
{
    reveal_strlit("server");
    reveal_strlit("tcp:");
    lemma_dec_of_shape(port as int);
    lemma_u16_dec_round(port);
    let dec = dec_of(port as int);
    let v1 = "tcp:"@ + server + seq![','] + dec;
    let s1 = "server"@ + seq!['='] + v1;
    assert(no_ws(s1));
    crate::text::lemma_trim_ws_identity(s1);
    lemma_find_first_at(s1, '=', 6);
    assert(s1.subrange(0, 6) =~= "server"@);
    crate::text::lemma_trim_ws_identity("server"@);
    assert(s1.skip(7) =~= v1);
    crate::text::lemma_trim_ws_identity(v1);
    assert(ci_eq("server"@, "server"@));
    assert(v1.subrange(0, 4) =~= "tcp:"@);
    let rest = v1.skip(4);
    assert(rest =~= server + seq![','] + dec);
    lemma_find_first_at(rest, ',', server.len() as int);
    assert(rest.subrange(0, server.len() as int) =~= server);
    assert(rest.skip(server.len() + 1 as int) =~= dec);
    assert(server_fields(f, v1) == (ConnFields { server, port, ..f }));
}

/// Reading a rendered encoded pair back: the database name decodes to
/// itself.
proof fn lemma_eat_database(f: ConnFields, database: Seq<char>, e1: Seq<char>)
    requires
        forall|i: int| 0 <= i < e1.len() ==> url_safe_char(#[trigger] e1[i]),
        url_decoded(e1) == Some(database),
    ensures
        eat_pair(f, "database"@ + seq!['='] + e1) == Ok::<ConnFields, ConfigError>(
            ConnFields { database, ..f },
        ),
{
    reveal_strlit("database");
    reveal_strlit("server");
    lemma_url_safe_plain(e1);
    let s2 = "database"@ + seq!['='] + e1;
    assert(no_ws(s2));
    crate::text::lemma_trim_ws_identity(s2);
    lemma_find_first_at(s2, '=', 8);
    assert(s2.subrange(0, 8) =~= "database"@);
    crate::text::lemma_trim_ws_identity("database"@);
    assert(s2.skip(9) =~= e1);
    crate::text::lemma_trim_ws_identity(e1);
    assert(!ci_eq("database"@, "server"@));
    assert(ci_eq("database"@, "database"@));
}

/// Reading a rendered encoded pair back: the user decodes to itself.
proof fn lemma_eat_user(f: ConnFields, user: Seq<char>, e2: Seq<char>)
    requires
        forall|i: int| 0 <= i < e2.len() ==> url_safe_char(#[trigger] e2[i]),
        url_decoded(e2) == Some(user),
    ensures
        eat_pair(f, "user"@ + seq!['='] + e2) == Ok::<ConnFields, ConfigError>(
            ConnFields { user, ..f },
        ),
{
    reveal_strlit("user");
    reveal_strlit("server");
    reveal_strlit("database");
    lemma_url_safe_plain(e2);
    let s3 = "user"@ + seq!['='] + e2;
    assert(no_ws(s3));
    crate::text::lemma_trim_ws_identity(s3);
    lemma_find_first_at(s3, '=', 4);
    assert(s3.subrange(0, 4) =~= "user"@);
    crate::text::lemma_trim_ws_identity("user"@);
    assert(s3.skip(5) =~= e2);
    crate::text::lemma_trim_ws_identity(e2);
    assert(!ci_eq("user"@, "server"@));
    assert(!ci_eq("user"@, "database"@));
    assert(ci_eq("user"@, "user"@));
}

/// Reading a rendered encoded pair back: the password decodes to itself.
proof fn lemma_eat_password(f: ConnFields, password: Seq<char>, e3: Seq<char>)
    requires
        forall|i: int| 0 <= i < e3.len() ==> url_safe_char(#[trigger] e3[i]),
        url_decoded(e3) == Some(password),
    ensures
        eat_pair(f, "password"@ + seq!['='] + e3) == Ok::<ConnFields, ConfigError>(
            ConnFields { password, ..f },
        ),
{
    reveal_strlit("password");
    reveal_strlit("server");
    reveal_strlit("database");
    reveal_strlit("user");
    lemma_url_safe_plain(e3);
    let s4 = "password"@ + seq!['='] + e3;
    assert(no_ws(s4));
    crate::text::lemma_trim_ws_identity(s4);
    lemma_find_first_at(s4, '=', 8);
    assert(s4.subrange(0, 8) =~= "password"@);
    crate::text::lemma_trim_ws_identity("password"@);
    assert(s4.skip(9) =~= e3);
    crate::text::lemma_trim_ws_identity(e3);
    assert(!ci_eq("password"@, "server"@));
    assert(!ci_eq("password"@, "database"@)) by {
        assert(lower_u32("password"@[0] as u32) != lower_u32("database"@[0] as u32));
    }
    assert(!ci_eq("password"@, "user"@));
    assert(ci_eq("password"@, "password"@));
}

/// Reading the rendered certificate flag back.
proof fn lemma_eat_trust(f: ConnFields, trust: bool)
    ensures
        eat_pair(
            f,
            "TrustServerCertificate"@ + seq!['='] + (if trust {
                "true"@
            } else {
                "false"@
            }),
        ) == Ok::<ConnFields, ConfigError>(ConnFields { trust, ..f }),
{
    reveal_strlit("TrustServerCertificate");
    reveal_strlit("trustservercertificate");
    reveal_strlit("server");
    reveal_strlit("database");
    reveal_strlit("user");
    reveal_strlit("password");
    reveal_strlit("true");
    reveal_strlit("false");
    let bool_s = if trust {
        "true"@
    } else {
        "false"@
    };
    let s5 = "TrustServerCertificate"@ + seq!['='] + bool_s;
    assert(no_ws(s5));
    crate::text::lemma_trim_ws_identity(s5);
    lemma_find_first_at(s5, '=', 22);
    assert(s5.subrange(0, 22) =~= "TrustServerCertificate"@);
    crate::text::lemma_trim_ws_identity("TrustServerCertificate"@);
    assert(s5.skip(23) =~= bool_s);
    crate::text::lemma_trim_ws_identity(bool_s);
    assert(!ci_eq("TrustServerCertificate"@, "server"@));
    assert(!ci_eq("TrustServerCertificate"@, "database"@));
    assert(!ci_eq("TrustServerCertificate"@, "user"@));
    assert(!ci_eq("TrustServerCertificate"@, "password"@));
    assert(ci_eq("TrustServerCertificate"@, "trustservercertificate"@));
    assert(ci_eq(bool_s, "true"@) == trust) by {
        if !trust {
            assert("false"@.len() != "true"@.len());
        }
    }
}

/// The round trip of one rendered connection string: splitting, trimming
/// and reading the pairs back yields exactly the rendered fields. The
/// encoded fields come with the facts percent-encoding guarantees.
#[verifier::rlimit(100)]
#[verifier::spinoff_prover]
proof fn lemma_conn_round_trip(
    server: Seq<char>,
    port: u16,
    database: Seq<char>,
    user: Seq<char>,
    password: Seq<char>,
    trust: bool,
    e1: Seq<char>,
    e2: Seq<char>,
    e3: Seq<char>,
)
    requires
        server.len() > 0,
        port > 0,
        database.len() > 0,
        user.len() > 0,
        password.len() > 0,
        plain_server_name(server),
        forall|i: int| 0 <= i < e1.len() ==> url_safe_char(#[trigger] e1[i]),
        forall|i: int| 0 <= i < e2.len() ==> url_safe_char(#[trigger] e2[i]),
        forall|i: int| 0 <= i < e3.len() ==> url_safe_char(#[trigger] e3[i]),
        url_decoded(e1) == Some(database),
        url_decoded(e2) == Some(user),
        url_decoded(e3) == Some(password),
    ensures
        parse_db_spec(
            "server=tcp:"@ + server + ","@ + dec_of(port as int) + ";database="@ + e1 + ";user="@
                + e2 + ";password="@ + e3 + ";TrustServerCertificate="@ + (if trust {
                "true"@
            } else {
                "false"@
            }),
        ) == Ok::<ConnFields, ConfigError>(
            ConnFields { server, port, database, user, password, trust },
        ),
{
    reveal_strlit("server=tcp:");
    reveal_strlit(",");
    reveal_strlit(";database=");
    reveal_strlit(";user=");
    reveal_strlit(";password=");
    reveal_strlit(";TrustServerCertificate=");
    reveal_strlit("true");
    reveal_strlit("false");
    reveal_strlit("server");
    reveal_strlit("database");
    reveal_strlit("user");
    reveal_strlit("password");
    reveal_strlit("TrustServerCertificate");
    reveal_strlit("tcp:");
    lemma_url_safe_plain(e1);
    lemma_url_safe_plain(e2);
    lemma_url_safe_plain(e3);
    lemma_dec_of_shape(port as int);
    let dec = dec_of(port as int);
    let bool_s = if trust {
        "true"@
    } else {
        "false"@
    };
    let v1 = "tcp:"@ + server + seq![','] + dec;
    let s1 = "server"@ + seq!['='] + v1;
    let s2 = "database"@ + seq!['='] + e1;
    let s3 = "user"@ + seq!['='] + e2;
    let s4 = "password"@ + seq!['='] + e3;
    let s5 = "TrustServerCertificate"@ + seq!['='] + bool_s;
    let full = "server=tcp:"@ + server + ","@ + dec + ";database="@ + e1 + ";user="@ + e2
        + ";password="@ + e3 + ";TrustServerCertificate="@ + bool_s;
    let r4 = s4 + seq![';'] + s5;
    let r3 = s3 + seq![';'] + r4;
    let r2 = s2 + seq![';'] + r3;
    let r1 = s1 + seq![';'] + r2;
    assert(full =~= r1);
    assert(no_char(s1, ';'));
    assert(no_char(s2, ';'));
    assert(no_char(s3, ';'));
    assert(no_char(s4, ';'));
    assert(no_char(s5, ';'));
    lemma_split_prepend(s1, r2, ';');
    lemma_split_prepend(s2, r3, ';');
    lemma_split_prepend(s3, r4, ';');
    lemma_split_prepend(s4, s5, ';');
    lemma_split_single(s5, ';');
    let pairs = seq![s1, s2, s3, s4, s5];
    assert(split_chars(full, ';') =~= pairs);
    let f0 = default_fields();
    let f1 = ConnFields { server, port, ..f0 };
    let f2 = ConnFields { database, ..f1 };
    let f3 = ConnFields { user, ..f2 };
    let f4 = ConnFields { password, ..f3 };
    let f5 = ConnFields { trust, ..f4 };
    lemma_eat_server(f0, server, port);
    lemma_eat_database(f1, database, e1);
    lemma_eat_user(f2, user, e2);
    lemma_eat_password(f3, password, e3);
    lemma_eat_trust(f4, trust);
    assert(pairs.drop_last() =~= seq![s1, s2, s3, s4]);
    assert(seq![s1, s2, s3, s4].drop_last() =~= seq![s1, s2, s3]);
    assert(seq![s1, s2, s3].drop_last() =~= seq![s1, s2]);
    assert(seq![s1, s2].drop_last() =~= seq![s1]);
    assert(seq![s1].drop_last() =~= Seq::<Seq<char>>::empty());
    assert(eat_pairs(f0, Seq::<Seq<char>>::empty()) == Ok::<ConnFields, ConfigError>(f0));
    assert(eat_pairs(f0, seq![s1]) == Ok::<ConnFields, ConfigError>(f1));
    assert(eat_pairs(f0, seq![s1, s2]) == Ok::<ConnFields, ConfigError>(f2));
    assert(eat_pairs(f0, seq![s1, s2, s3]) == Ok::<ConnFields, ConfigError>(f3));
    assert(eat_pairs(f0, seq![s1, s2, s3, s4]) == Ok::<ConnFields, ConfigError>(f4));
    assert(eat_pairs(f0, pairs) == Ok::<ConnFields, ConfigError>(f5));
    assert(conn_fields_spec(full) == Ok::<ConnFields, ConfigError>(f5));
    assert(fields_validate(f5) == Ok::<(), ConfigError>(()));
    assert(f5 == (ConnFields { server, port, database, user, password, trust }));
}

impl DatabaseConfig {
    /// A copy whose fields read the same.
    pub fn duplicate(&self) -> (r: Self)
        ensures
            r.server@ == self.server@,
            r.port == self.port,
            r.database@ == self.database@,
            r.user@ == self.user@,
            r.password@ == self.password@,
            r.trust_server_certificate == self.trust_server_certificate,
    {
        DatabaseConfig {
            server: self.server.clone(),
            port: self.port,
            database: self.database.clone(),
            user: self.user.clone(),
            password: self.password.clone(),
            trust_server_certificate: self.trust_server_certificate,
        }
    }

    /// Parses a connection string into settings and validates them. Pairs
    /// are split on semicolons and keys matched up to ASCII case; unknown
    /// keys are skipped; the server may carry a `tcp:host,port` form; the
    /// database, user and password are percent-decoded.
    pub fn from_connection_string(connection_string: &str) -> (r: Result<
        DatabaseConfig,
        ConfigError,
    >)
        ensures
            match parse_db_spec(connection_string@) {
                Err(e) => r == Err::<DatabaseConfig, ConfigError>(e),
                Ok(f) => {
                    &&& r is Ok
                    &&& r matches Ok(c) ==> c.server@ == f.server && c.port == f.port
                        && c.database@ == f.database && c.user@ == f.user && c.password@
                        == f.password && c.trust_server_certificate == f.trust
                },
            },
    {
        let chars = crate::text::str_to_chars(connection_string);
        let ghost full = chars@;
        let mut server = String::new();
        let mut port: u16 = 1433;
        let mut database = String::new();
        let mut user = String::new();
        let mut password = String::new();
        let mut trust = false;
        let ghost mut done: Seq<Seq<char>> = Seq::empty();
        let mut start: usize = 0;
        let mut finished = false;
        proof {
            assert(full.skip(0) =~= full);
            assert(Seq::<Seq<char>>::empty() + split_chars(full.skip(0), ';') =~= split_chars(
                full,
                ';',
            ));
        }
        while !finished
            invariant
                start <= chars@.len(),
                chars@ == full,
                full == connection_string@,
                !finished ==> split_chars(full, ';') == done + split_chars(
                    full.skip(start as int),
                    ';',
                ),
                finished ==> split_chars(full, ';') == done,
                eat_pairs(default_fields(), done) == Ok::<ConnFields, ConfigError>(
                    ConnFields {
                        server: server@,
                        port: port,
                        database: database@,
                        user: user@,
                        password: password@,
                        trust: trust,
                    },
                ),
            decreases (if finished {
                0int
            } else {
                1int
            }), chars@.len() - start,
        {
            let ghost fprev = ConnFields {
                server: server@,
                port: port,
                database: database@,
                user: user@,
                password: password@,
                trust: trust,
            };
            // The next segment runs to the next semicolon or the end.
            let mut k: usize = start;
            while k < chars.len() && chars[k] != ';'
                invariant
                    start <= k <= chars@.len(),
                    chars@ == full,
                    forall|j: int| start <= j < k ==> full[j] != ';',
                decreases chars@.len() - k,
            {
                k = k + 1;
            }
            let seg = crate::text::copy_range(&chars, start, k);
            let ghost segview = full.subrange(start as int, k as int);
            proof {
                let t = full.skip(start as int);
                assert(forall|j: int| 0 <= j < t.len() ==> t[j] == full[start + j]);
                lemma_split_head(t, ';', k - start);
                assert(t.subrange(0, k - start) =~= segview);
                if k < chars@.len() {
                    assert(t.skip(k - start + 1) =~= full.skip(k + 1));
                    assert(split_chars(full, ';') =~= done.push(segview) + split_chars(
                        full.skip(k + 1),
                        ';',
                    ));
                } else {
                    assert(t =~= segview);
                    assert(split_chars(full, ';') =~= done.push(segview));
                }
            }
            // Read the segment's pair, as `eat_pair` says.
            let pair_s = crate::text::trim_ws(crate::text::chars_to_string(&seg).as_str());
            let pv = crate::text::str_to_chars(pair_s.as_str());
            let ghost pair = crate::text::trim_ws_spec(segview);
            if pv.len() > 0 {
                let mut e: usize = 0;
                while e < pv.len() && pv[e] != '='
                    invariant
                        e <= pv@.len(),
                        pv@ == pair,
                        forall|j: int| 0 <= j < e ==> pair[j] != '=',
                    decreases pv@.len() - e,
                {
                    e = e + 1;
                }
                proof {
                    lemma_find_first(pair, '=');
                    match find_first(pair, '=') {
                        Some(kk) => {
                            if e < pv@.len() {
                                if kk < e {
                                    assert(pair[kk as int] != '=');
                                }
                                if kk > e {
                                    assert(pair[e as int] != '=');
                                }
                                assert(kk == e);
                            } else {
                                assert(pair[kk as int] != '=');
                            }
                        },
                        None => {
                            assert(e == pv@.len());
                        },
                    }
                }
                if e < pv.len() {
                    let key_s = crate::text::trim_ws(
                        crate::text::chars_to_string(&crate::text::copy_range(&pv, 0, e)).as_str(),
                    );
                    let kv = crate::text::str_to_chars(key_s.as_str());
                    let value_s = crate::text::trim_ws(
                        crate::text::chars_to_string(
                            &crate::text::copy_range(&pv, e + 1, pv.len()),
                        ).as_str(),
                    );
                    let ghost key = crate::text::trim_ws_spec(pair.subrange(0, e as int));
                    let ghost value = crate::text::trim_ws_spec(pair.skip(e + 1 as int));
                    proof {
                        assert(pv@.subrange(0, e as int) =~= pair.subrange(0, e as int));
                        assert(pv@.subrange(e + 1, pv@.len() as int) =~= pair.skip(e + 1 as int));
                        assert(kv@ == key);
                        assert(value_s@ == value);
                    }
                    if ci_eq_chars(&kv, "server") {
                        let vv = crate::text::str_to_chars(value_s.as_str());
                        let is_tcp = vv.len() >= 4 && vv[0] == 't' && vv[1] == 'c' && vv[2] == 'p'
                            && vv[3] == ':';
                        proof {
                            reveal_strlit("tcp:");
                            if is_tcp {
                                assert(vv@.subrange(0, 4) =~= "tcp:"@);
                            } else if vv@.len() >= 4 {
                                if vv@.subrange(0, 4) == "tcp:"@ {
                                    assert(vv@.subrange(0, 4)[0] == vv@[0]);
                                    assert(vv@.subrange(0, 4)[1] == vv@[1]);
                                    assert(vv@.subrange(0, 4)[2] == vv@[2]);
                                    assert(vv@.subrange(0, 4)[3] == vv@[3]);
                                    assert(vv@[0] == 't' && vv@[1] == 'c' && vv@[2] == 'p'
                                        && vv@[3] == ':');
                                }
                            }
                        }
                        if is_tcp {
                            let rest = crate::text::copy_range(&vv, 4, vv.len());
                            proof {
                                assert(rest@ =~= value.skip(4));
                            }
                            let mut c2: usize = 0;
                            while c2 < rest.len() && rest[c2] != ','
                                invariant
                                    c2 <= rest@.len(),
                                    rest@ == value.skip(4),
                                    forall|j: int| 0 <= j < c2 ==> rest@[j] != ',',
                                decreases rest@.len() - c2,
                            {
                                c2 = c2 + 1;
                            }
                            proof {
                                lemma_find_first(value.skip(4), ',');
                                match find_first(value.skip(4), ',') {
                                    Some(kk) => {
                                        if c2 < rest@.len() {
                                            if kk < c2 {
                                                assert(rest@[kk as int] != ',');
                                            }
                                            if kk > c2 {
                                                assert(rest@[c2 as int] != ',');
                                            }
                                            assert(kk == c2);
                                        } else {
                                            assert(rest@[kk as int] != ',');
                                        }
                                    },
                                    None => {
                                        assert(c2 == rest@.len());
                                    },
                                }
                            }
                            if c2 < rest.len() {
                                server = crate::text::chars_to_string(
                                    &crate::text::copy_range(&rest, 0, c2),
                                );
                                let pt = crate::text::copy_range(&rest, c2 + 1, rest.len());
                                proof {
                                    assert(pt@ =~= value.skip(4).skip(c2 + 1 as int));
                                    assert(server@ =~= value.skip(4).subrange(0, c2 as int));
                                }
                                match parse_u16_chars(&pt) {
                                    Some(p) => {
                                        port = p;
                                    },
                                    None => {},
                                }
                            } else {
                                server = crate::text::chars_to_string(&rest);
                            }
                        } else {
                            server = value_s;
                        }
                        proof {
                            assert(eat_pair(fprev, segview) == Ok::<ConnFields, ConfigError>(
                                ConnFields {
                                    server: server@,
                                    port: port,
                                    database: database@,
                                    user: user@,
                                    password: password@,
                                    trust: trust,
                                },
                            ));
                        }
                    } else if ci_eq_chars(&kv, "database") {
                        match url_decode(value_s.as_str()) {
                            Some(d) => {
                                database = d;
                            },
                            None => {
                                proof {
                                    assert(eat_pair(fprev, segview) == Err::<
                                        ConnFields,
                                        ConfigError,
                                    >(ConfigError::DatabaseDecodeFailed));
                                    lemma_abort_helper(full, done, segview, fprev, k as int);
                                }
                                return Err(ConfigError::DatabaseDecodeFailed);
                            },
                        }
                    } else if ci_eq_chars(&kv, "user") {
                        match url_decode(value_s.as_str()) {
                            Some(d) => {
                                user = d;
                            },
                            None => {
                                proof {
                                    assert(eat_pair(fprev, segview) == Err::<
                                        ConnFields,
                                        ConfigError,
                                    >(ConfigError::UserDecodeFailed));
                                    lemma_abort_helper(full, done, segview, fprev, k as int);
                                }
                                return Err(ConfigError::UserDecodeFailed);
                            },
                        }
                    } else if ci_eq_chars(&kv, "password") {
                        match url_decode(value_s.as_str()) {
                            Some(d) => {
                                password = d;
                            },
                            None => {
                                proof {
                                    assert(eat_pair(fprev, segview) == Err::<
                                        ConnFields,
                                        ConfigError,
                                    >(ConfigError::PasswordDecodeFailed));
                                    lemma_abort_helper(full, done, segview, fprev, k as int);
                                }
                                return Err(ConfigError::PasswordDecodeFailed);
                            },
                        }
                    } else if ci_eq_chars(&kv, "trustservercertificate") {
                        let vv = crate::text::str_to_chars(value_s.as_str());
                        trust = ci_eq_chars(&vv, "true");
                    } else {
                    }
                }
            }
            proof {
                assert(eat_pair(fprev, segview) == Ok::<ConnFields, ConfigError>(
                    ConnFields {
                        server: server@,
                        port: port,
                        database: database@,
                        user: user@,
                        password: password@,
                        trust: trust,
                    },
                ));
                assert(done.push(segview).drop_last() =~= done);
                done = done.push(segview);
            }
            if k == chars.len() {
                finished = true;
            } else {
                start = k + 1;
            }
        }
        let cfg = DatabaseConfig {
            server,
            port,
            database,
            user,
            password,
            trust_server_certificate: trust,
        };
        match cfg.validate() {
            Err(e) => Err(e),
            Ok(_) => Ok(cfg),
        }
    }
}

/// A failure in the pair just read decides the whole string, whatever pairs
/// follow it.
proof fn lemma_abort_helper(
    full: Seq<char>,
    done: Seq<Seq<char>>,
    segview: Seq<char>,
    fprev: ConnFields,
    k: int,
)
    requires
        eat_pairs(default_fields(), done) == Ok::<ConnFields, ConfigError>(fprev),
        eat_pair(fprev, segview) is Err,
        0 <= k <= full.len(),
        k == full.len() ==> split_chars(full, ';') == done.push(segview),
        k < full.len() ==> split_chars(full, ';') == done.push(segview) + split_chars(
            full.skip(k + 1),
            ';',
        ),
    ensures
        conn_fields_spec(full) == Err::<ConnFields, ConfigError>(eat_pair(fprev, segview)->Err_0),
{
    assert(done.push(segview).drop_last() =~= done);
    assert(eat_pairs(default_fields(), done.push(segview)) == eat_pair(fprev, segview));
    if k < full.len() {
        lemma_eat_pairs_concat(default_fields(), done.push(segview), split_chars(full.skip(k + 1), ';'));
    }
}

impl AppConfig {
    /// The retention window in seconds: a whole number of days.
    pub fn data_window_duration_secs(&self) -> (r: i64)
        ensures
            r == self.data_window_days * 86400,
    {
        (self.data_window_days as i64) * 24 * 60 * 60
    }
}


/// Whether the configuration names a usable database, whichever way it is
/// given.
pub open spec fn app_db_check(a: AppConfig) -> Result<(), ConfigError> {
    match a.database_connection_type {
        DatabaseConnectionType::ConnectionString => match a.database_url {
            None => Err(ConfigError::MissingDatabaseUrl),
            Some(u) => match parse_db_spec(u@) {
                Err(e) => Err(e),
                Ok(_) => Ok(()),
            },
        },
        DatabaseConnectionType::StructuredConfig => match a.database {
            None => Err(ConfigError::MissingDatabaseConfig),
            Some(d) => db_validate_spec(d),
        },
    }
}

/// What validating the whole configuration yields: the database settings
/// must be usable, the intervals and windows non-zero, the store path
/// non-empty; the first failure wins.
pub open spec fn app_validate_spec(a: AppConfig) -> Result<(), ConfigError> {
    match app_db_check(a) {
        Err(e) => Err(e),
        Ok(_) => if a.update_interval_secs == 0 {
            Err(ConfigError::ZeroUpdateInterval)
        } else if a.data_window_days == 0 {
            Err(ConfigError::ZeroDataWindow)
        } else if a.db_file_path@.len() == 0 {
            Err(ConfigError::EmptyDbFilePath)
        } else {
            Ok(())
        },
    }
}

impl AppConfig {
    /// The database settings this configuration names: parsed from the
    /// connection string, or the structured fields themselves; either way
    /// validated.
    pub fn get_database_config(&self) -> (r: Result<DatabaseConfig, ConfigError>)
        ensures
            match self.database_connection_type {
                DatabaseConnectionType::ConnectionString => match self.database_url {
                    None => r == Err::<DatabaseConfig, ConfigError>(ConfigError::MissingDatabaseUrl),
                    Some(u) => match parse_db_spec(u@) {
                        Err(e) => r == Err::<DatabaseConfig, ConfigError>(e),
                        Ok(f) => r is Ok && (r matches Ok(c) ==> c.server@ == f.server && c.port
                            == f.port && c.database@ == f.database && c.user@ == f.user
                            && c.password@ == f.password && c.trust_server_certificate == f.trust),
                    },
                },
                DatabaseConnectionType::StructuredConfig => match self.database {
                    None => r == Err::<DatabaseConfig, ConfigError>(
                        ConfigError::MissingDatabaseConfig,
                    ),
                    Some(d) => match db_validate_spec(d) {
                        Err(e) => r == Err::<DatabaseConfig, ConfigError>(e),
                        Ok(_) => r is Ok && (r matches Ok(c) ==> c.server@ == d.server@ && c.port
                            == d.port && c.database@ == d.database@ && c.user@ == d.user@
                            && c.password@ == d.password@ && c.trust_server_certificate
                            == d.trust_server_certificate),
                    },
                },
            },
            (r is Ok) == (app_db_check(*self) is Ok),
            r matches Err(e) ==> app_db_check(*self) == Err::<(), ConfigError>(e),
    {
        match self.database_connection_type {
            DatabaseConnectionType::ConnectionString => match &self.database_url {
                Some(cs) => DatabaseConfig::from_connection_string(cs.as_str()),
                None => Err(ConfigError::MissingDatabaseUrl),
            },
            DatabaseConnectionType::StructuredConfig => match &self.database {
                Some(db) => match db.validate() {
                    Err(e) => Err(e),
                    Ok(_) => Ok(db.duplicate()),
                },
                None => Err(ConfigError::MissingDatabaseConfig),
            },
        }
    }

    /// The resolved settings, rendered back as one standard connection
    /// string.
    pub fn get_connection_string(&self) -> (r: Result<String, ConfigError>)
        ensures
            (r is Ok) == (app_db_check(*self) is Ok),
            r matches Err(e) ==> app_db_check(*self) == Err::<(), ConfigError>(e),
            match self.database_connection_type {
                DatabaseConnectionType::ConnectionString => match self.database_url {
                    None => r is Err,
                    Some(u) => match parse_db_spec(u@) {
                        Err(e) => r is Err,
                        Ok(f) => r matches Ok(cs) ==> cs@ == conn_string_parts(
                            f.server,
                            f.port,
                            f.database,
                            f.user,
                            f.password,
                            f.trust,
                        ),
                    },
                },
                DatabaseConnectionType::StructuredConfig => match self.database {
                    None => r is Err,
                    Some(d) => r matches Ok(cs) ==> cs@ == connection_string_of(d),
                },
            },
    {
        match self.get_database_config() {
            Err(e) => Err(e),
            Ok(c) => Ok(c.to_connection_string()),
        }
    }

    /// Accepts exactly the configurations whose database settings are
    /// usable, whose update interval and retention window are non-zero, and
    /// whose store path is non-empty.
    pub fn validate(&self) -> (r: Result<(), ConfigError>)
        ensures
            r == app_validate_spec(*self),
    {
        match self.get_database_config() {
            Err(e) => Err(e),
            Ok(_) => {
                if self.update_interval_secs == 0 {
                    Err(ConfigError::ZeroUpdateInterval)
                } else if self.data_window_days == 0 {
                    Err(ConfigError::ZeroDataWindow)
                } else if self.db_file_path.as_str().is_empty() {
                    Err(ConfigError::EmptyDbFilePath)
                } else {
                    Ok(())
                }
            },
        }
    }
}

} // verus!
