//! Configuration: built-in defaults, then a file, then the environment, then the command line.

use crate::text::{chars_of, parse_unsigned, parsed, part, trim, trimmed};
use vstd::prelude::*;
use vstd::string::*;

verus! {

/// The whole configuration.
#[derive(Debug, Clone)]
pub struct Config {
    pub zenoh: ZenohConfig,
    pub crypto: CryptoConfig,
    pub storage: StorageConfig,
    pub ingest: IngestConfig,
    pub analysis: AnalysisConfig,
    pub query: QueryConfig,
}

/// Transport endpoints.
#[derive(Debug, Clone)]
pub struct ZenohConfig {
    pub connect: Vec<String>,
    pub listen: Vec<String>,
}

/// Where the transport key comes from.
#[derive(Debug, Clone)]
pub struct CryptoConfig {
    pub key_file: String,
    pub key_hex: Option<String>,
}

/// Where the planes are stored.
#[derive(Debug, Clone)]
pub struct StorageConfig {
    pub root: String,
    pub hot_dir: String,
    pub warm_dir: String,
    pub ledger_db: String,
    pub lmdb_dir: String,
    pub lmdb_map_size: String,
}

/// How traffic is taken in.
#[derive(Debug, Clone)]
pub struct IngestConfig {
    pub subscribe_batches: bool,
    pub subscribe_chunks: bool,
    pub gap_self_heal: bool,
    pub batch_size: u32,
    pub pending_budget_bytes: String,
    pub segment_pending_cap: u64,
    pub conn_pending_cap_bytes: String,
    pub conn_evict_window_secs: u64,
    pub conn_evict_threshold: u32,
}

/// A configured protocol binding.
#[derive(Debug, Clone, PartialEq, Eq)]
pub struct MetaBind {
    pub name: String,
    pub proto: u8,
    pub dst_port: u16,
    pub fingerprint: String,
    pub extractor: String,
}

/// How traffic is analysed.
#[derive(Debug, Clone)]
pub struct AnalysisConfig {
    pub conn_idle_timeout_secs: u64,
    pub qr_pending_budget: u64,
    pub ack_tolerance: u32,
    pub qr_timeout_secs: u64,
    pub ttl_scan_secs: u64,
    pub fin_short_timeout_secs: u64,
    pub meta_binds: Vec<MetaBind>,
}

/// How results are handed out.
#[derive(Debug, Clone)]
pub struct QueryConfig {
    pub export_buf_size: u32,
}

/// Storage settings that a layer overrides.
#[derive(Debug, Clone)]
pub struct PathOverrides {
    pub root: Option<String>,
    pub hot_dir: Option<String>,
    pub warm_dir: Option<String>,
    pub ledger_db: Option<String>,
    pub lmdb_dir: Option<String>,
    pub lmdb_map_size: Option<String>,
}

/// Why a configuration was refused.
#[derive(Debug, Clone, Copy, PartialEq, Eq, Structural)]
pub enum ConfigError {
    /// `storage.lmdb_map_size` is empty.
    EmptyMapSize,
    /// `ingest.batch_size` is zero.
    ZeroBatchSize,
    /// `analysis.qr_pending_budget` is zero.
    ZeroPendingBudget,
}

/// Why a size was refused.
#[derive(Debug, Clone, Copy, PartialEq, Eq, Structural)]
pub enum SizeError {
    Empty,
    /// Not a number of at most 64 bits with one of the known suffixes.
    Malformed,
    /// More than 64 bits can hold.
    Overflow,
}

impl ZenohConfig {
    /// The built-in setting.
    pub open spec fn is_default(self) -> bool {
        &&& self.connect@.len() == 0
        &&& self.listen@.len() == 0
    }
}

impl Default for ZenohConfig {
    fn default() -> (c: ZenohConfig)
        ensures
            c.is_default(),
    {
        ZenohConfig { connect: Vec::new(), listen: Vec::new() }
    }
}

impl CryptoConfig {
    /// The built-in setting.
    pub open spec fn is_default(self) -> bool {
        &&& self.key_file@ == "/etc/sovvault/keys/slimsync.key"@
        &&& self.key_hex is None
    }
}

impl Default for CryptoConfig {
    fn default() -> (c: CryptoConfig)
        ensures
            c.is_default(),
    {
        CryptoConfig { key_file: String::from_str("/etc/sovvault/keys/slimsync.key"), key_hex: None }
    }
}

impl StorageConfig {
    /// The built-in setting.
    pub open spec fn is_default(self) -> bool {
        &&& self.root@ == "/var/lib/sovvault"@
        &&& self.hot_dir@ == "hot"@
        &&& self.warm_dir@ == "warm"@
        &&& self.ledger_db@ == "ledger.db"@
        &&& self.lmdb_dir@ == "qridx"@
        &&& self.lmdb_map_size@ == "64GB"@
    }
}

impl Default for StorageConfig {
    fn default() -> (c: StorageConfig)
        ensures
            c.is_default(),
    {
        StorageConfig {
            root: String::from_str("/var/lib/sovvault"),
            hot_dir: String::from_str("hot"),
            warm_dir: String::from_str("warm"),
            ledger_db: String::from_str("ledger.db"),
            lmdb_dir: String::from_str("qridx"),
            lmdb_map_size: String::from_str("64GB"),
        }
    }
}

impl IngestConfig {
    /// The built-in setting.
    pub open spec fn is_default(self) -> bool {
        &&& self.subscribe_batches
        &&& !self.subscribe_chunks
        &&& self.gap_self_heal
        &&& self.batch_size == 10000
        &&& self.pending_budget_bytes@ == "256MB"@
        &&& self.segment_pending_cap == 0
        &&& self.conn_pending_cap_bytes@ == "16MB"@
        &&& self.conn_evict_window_secs == 30
        &&& self.conn_evict_threshold == 3
    }
}

impl Default for IngestConfig {
    fn default() -> (c: IngestConfig)
        ensures
            c.is_default(),
    {
        IngestConfig {
            subscribe_batches: true,
            subscribe_chunks: false,
            gap_self_heal: true,
            batch_size: 10000,
            pending_budget_bytes: String::from_str("256MB"),
            segment_pending_cap: 0,
            conn_pending_cap_bytes: String::from_str("16MB"),
            conn_evict_window_secs: 30,
            conn_evict_threshold: 3,
        }
    }
}

impl MetaBind {
    /// The built-in setting.
    pub open spec fn is_default(self) -> bool {
        &&& self.name@.len() == 0
        &&& self.proto == 0
        &&& self.dst_port == 0
        &&& self.fingerprint@.len() == 0
        &&& self.extractor@.len() == 0
    }
}

impl Default for MetaBind {
    fn default() -> (b: MetaBind)
        ensures
            b.is_default(),
    {
        MetaBind { name: String::new(), proto: 0, dst_port: 0, fingerprint: String::new(), extractor: String::new() }
    }
}

impl AnalysisConfig {
    /// The built-in setting.
    pub open spec fn is_default(self) -> bool {
        &&& self.conn_idle_timeout_secs == 300
        &&& self.qr_pending_budget == 4096
        &&& self.ack_tolerance == 4
        &&& self.qr_timeout_secs == 30
        &&& self.ttl_scan_secs == 1
        &&& self.fin_short_timeout_secs == 5
        &&& self.meta_binds@.len() == 0
    }
}

impl Default for AnalysisConfig {
    fn default() -> (c: AnalysisConfig)
        ensures
            c.is_default(),
    {
        AnalysisConfig {
            conn_idle_timeout_secs: 300,
            qr_pending_budget: 4096,
            ack_tolerance: 4,
            qr_timeout_secs: 30,
            ttl_scan_secs: 1,
            fin_short_timeout_secs: 5,
            meta_binds: Vec::new(),
        }
    }
}

impl QueryConfig {
    /// The built-in setting.
    pub open spec fn is_default(self) -> bool {
        &&& self.export_buf_size == 4096
    }
}

impl Default for QueryConfig {
    fn default() -> (c: QueryConfig)
        ensures
            c.is_default(),
    {
        QueryConfig { export_buf_size: 4096 }
    }
}

impl Default for PathOverrides {
    fn default() -> (o: PathOverrides)
        ensures
            o == no_overrides(),
    {
        PathOverrides { root: None, hot_dir: None, warm_dir: None, ledger_db: None, lmdb_dir: None, lmdb_map_size: None }
    }
}

/// A layer that overrides nothing.
pub open spec fn no_overrides() -> PathOverrides {
    PathOverrides { root: None, hot_dir: None, warm_dir: None, ledger_db: None, lmdb_dir: None, lmdb_map_size: None }
}

impl Default for Config {
    fn default() -> (c: Config)
        ensures
            c.zenoh.is_default(),
            c.crypto.is_default(),
            c.storage.is_default(),
            c.ingest.is_default(),
            c.analysis.is_default(),
            c.query.is_default(),
    {
        Config {
            zenoh: ZenohConfig::default(),
            crypto: CryptoConfig::default(),
            storage: StorageConfig::default(),
            ingest: IngestConfig::default(),
            analysis: AnalysisConfig::default(),
            query: QueryConfig::default(),
        }
    }
}

/// What the storage settings say.
#[verifier::ext_equal]
pub struct StorageView {
    pub root: Seq<char>,
    pub hot_dir: Seq<char>,
    pub warm_dir: Seq<char>,
    pub ledger_db: Seq<char>,
    pub lmdb_dir: Seq<char>,
    pub lmdb_map_size: Seq<char>,
}

impl View for StorageConfig {
    type V = StorageView;

    open spec fn view(&self) -> StorageView {
        StorageView {
            root: self.root@,
            hot_dir: self.hot_dir@,
            warm_dir: self.warm_dir@,
            ledger_db: self.ledger_db@,
            lmdb_dir: self.lmdb_dir@,
            lmdb_map_size: self.lmdb_map_size@,
        }
    }
}

/// The built-in storage settings.
pub open spec fn default_storage() -> StorageView {
    StorageView {
        root: "/var/lib/sovvault"@,
        hot_dir: "hot"@,
        warm_dir: "warm"@,
        ledger_db: "ledger.db"@,
        lmdb_dir: "qridx"@,
        lmdb_map_size: "64GB"@,
    }
}

/// A setting under an override; an empty one counts only where it is allowed.
pub open spec fn layered(base: Seq<char>, over: Option<String>, empty_counts: bool) -> Seq<char> {
    match over {
        Some(v) => if empty_counts || v@.len() > 0 {
            v@
        } else {
            base
        },
        None => base,
    }
}

/// The storage settings under a layer of overrides.
pub open spec fn overridden(base: StorageView, over: PathOverrides, empty_counts: bool) -> StorageView {
    StorageView {
        root: layered(base.root, over.root, empty_counts),
        hot_dir: layered(base.hot_dir, over.hot_dir, empty_counts),
        warm_dir: layered(base.warm_dir, over.warm_dir, empty_counts),
        ledger_db: layered(base.ledger_db, over.ledger_db, empty_counts),
        lmdb_dir: layered(base.lmdb_dir, over.lmdb_dir, empty_counts),
        lmdb_map_size: layered(base.lmdb_map_size, over.lmdb_map_size, empty_counts),
    }
}

/// What is wrong with a configuration, if anything; the first fault counts.
pub open spec fn fault(map_size: Seq<char>, batch_size: u32, pending_budget: u64) -> Option<ConfigError> {
    if map_size.len() == 0 {
        Some(ConfigError::EmptyMapSize)
    } else if batch_size == 0 {
        Some(ConfigError::ZeroBatchSize)
    } else if pending_budget == 0 {
        Some(ConfigError::ZeroPendingBudget)
    } else {
        None
    }
}

/// A path under another, as Unix joins them: an absolute path stands for itself.
pub open spec fn joined(base: Seq<char>, path: Seq<char>) -> Seq<char> {
    if absolute(path) {
        path
    } else if base.len() > 0 && base.last() != '/' {
        base + seq!['/'] + path
    } else {
        base + path
    }
}

/// Whether a path starts at the root of the file system.
pub open spec fn absolute(path: Seq<char>) -> bool {
    path.len() > 0 && path[0] == '/'
}

/// The storage root, made absolute by the current directory where there is one.
pub open spec fn rooted(root: Seq<char>, cwd: Option<Seq<char>>) -> Seq<char> {
    match cwd {
        Some(c) => if absolute(root) {
            root
        } else {
            joined(c, root)
        },
        None => root,
    }
}

/// The characters of an optional string.
pub open spec fn text_of(s: Option<&str>) -> Option<Seq<char>> {
    match s {
        Some(s) => Some(s@),
        None => None,
    }
}

fn override_with(dst: &mut String, over: &Option<String>, empty_counts: bool)
    ensures
        final(dst)@ == layered(old(dst)@, *over, empty_counts),
{
    if let Some(v) = over {
        if empty_counts || v.as_str().unicode_len() > 0 {
            *dst = v.clone();
        }
    }
}

fn join(base: &str, path: &str) -> (s: String)
    ensures
        s@ == joined(base@, path@),
{
    if path.unicode_len() > 0 && path.get_char(0) == '/' {
        return String::from_str(path);
    }
    let mut s = String::from_str(base);
    let n: usize = base.unicode_len();
    if n > 0 && base.get_char(n - 1) != '/' {
        s.append("/");
        proof {
            reveal_strlit("/");
            assert("/"@ =~= seq!['/']);
        }
    }
    s.append(path);
    s
}

impl Config {
    /// The configuration in all its layers: what a file gave, or else the defaults; then the environment,
    /// where an empty setting does not count; then the command line. A faulty one is refused.
    pub fn load(file: Option<Config>, env: &PathOverrides, cli: &PathOverrides) -> (r: Result<Config, ConfigError>)
        ensures
            file matches Some(base) ==> {
                let st = overridden(overridden(base.storage@, *env, false), *cli, true);
                let f = fault(st.lmdb_map_size, base.ingest.batch_size, base.analysis.qr_pending_budget);
                match r {
                    Ok(c) => f is None && c.storage@ == st && c.zenoh == base.zenoh && c.crypto == base.crypto && c.ingest == base.ingest
                        && c.analysis == base.analysis && c.query == base.query,
                    Err(e) => f == Some(e),
                }
            },
            file is None ==> {
                let st = overridden(overridden(default_storage(), *env, false), *cli, true);
                match r {
                    Ok(c) => st.lmdb_map_size.len() > 0 && c.storage@ == st && c.zenoh.is_default() && c.crypto.is_default()
                        && c.ingest.is_default() && c.analysis.is_default() && c.query.is_default(),
                    Err(e) => st.lmdb_map_size.len() == 0 && e == ConfigError::EmptyMapSize,
                }
            },
    {
        let mut cfg = match file {
            Some(c) => c,
            None => Config::default(),
        };
        cfg.storage.apply(env, false);
        cfg.storage.apply(cli, true);
        match cfg.validate() {
            Ok(()) => Ok(cfg),
            Err(e) => Err(e),
        }
    }

    /// The storage root, made absolute by the current directory.
    pub fn storage_root(&self, cwd: Option<&str>) -> (s: String)
        ensures
            s@ == rooted(self.storage.root@, text_of(cwd)),
    {
        let root = self.storage.root.as_str();
        match cwd {
            Some(c) => if root.unicode_len() > 0 && root.get_char(0) == '/' {
                String::from_str(root)
            } else {
                join(c, root)
            },
            None => String::from_str(root),
        }
    }

    /// Refuses a configuration that cannot work.
    pub fn validate(&self) -> (r: Result<(), ConfigError>)
        ensures
            match r {
                Ok(()) => fault(self.storage.lmdb_map_size@, self.ingest.batch_size, self.analysis.qr_pending_budget) is None,
                Err(e) => fault(self.storage.lmdb_map_size@, self.ingest.batch_size, self.analysis.qr_pending_budget) == Some(e),
            },
    {
        if self.storage.lmdb_map_size.as_str().unicode_len() == 0 {
            return Err(ConfigError::EmptyMapSize);
        }
        if self.ingest.batch_size == 0 {
            return Err(ConfigError::ZeroBatchSize);
        }
        if self.analysis.qr_pending_budget == 0 {
            return Err(ConfigError::ZeroPendingBudget);
        }
        Ok(())
    }

    /// Directory of segments under reassembly.
    pub fn hot_dir(&self, cwd: Option<&str>) -> (s: String)
        ensures
            s@ == joined(rooted(self.storage.root@, text_of(cwd)), self.storage.hot_dir@),
    {
        join(self.storage_root(cwd).as_str(), self.storage.hot_dir.as_str())
    }

    /// Directory of archived segments.
    pub fn warm_dir(&self, cwd: Option<&str>) -> (s: String)
        ensures
            s@ == joined(rooted(self.storage.root@, text_of(cwd)), self.storage.warm_dir@),
    {
        join(self.storage_root(cwd).as_str(), self.storage.warm_dir.as_str())
    }

    /// File of the management ledger.
    pub fn ledger_path(&self, cwd: Option<&str>) -> (s: String)
        ensures
            s@ == joined(rooted(self.storage.root@, text_of(cwd)), self.storage.ledger_db@),
    {
        join(self.storage_root(cwd).as_str(), self.storage.ledger_db.as_str())
    }

    /// Directory of the index plane.
    pub fn lmdb_dir(&self, cwd: Option<&str>) -> (s: String)
        ensures
            s@ == joined(rooted(self.storage.root@, text_of(cwd)), self.storage.lmdb_dir@),
    {
        join(self.storage_root(cwd).as_str(), self.storage.lmdb_dir.as_str())
    }

    /// Size of the index map.
    pub fn lmdb_map_size_bytes(&self) -> (r: Result<u64, SizeError>)
        ensures
            r == size_of(self.storage.lmdb_map_size@),
    {
        parse_size(self.storage.lmdb_map_size.as_str())
    }

    /// Limit on all staged data.
    pub fn pending_budget_bytes(&self) -> (r: Result<u64, SizeError>)
        ensures
            r == size_of(self.ingest.pending_budget_bytes@),
    {
        parse_size(self.ingest.pending_budget_bytes.as_str())
    }

    /// Limit on the staged data of one device.
    pub fn conn_pending_cap_bytes(&self) -> (r: Result<u64, SizeError>)
        ensures
            r == size_of(self.ingest.conn_pending_cap_bytes@),
    {
        parse_size(self.ingest.conn_pending_cap_bytes.as_str())
    }
}

impl StorageConfig {
    /// Puts a layer of overrides on top.
    pub fn apply(&mut self, over: &PathOverrides, empty_counts: bool)
        ensures
            final(self)@ == overridden(old(self)@, *over, empty_counts),
    {
        override_with(&mut self.root, &over.root, empty_counts);
        override_with(&mut self.hot_dir, &over.hot_dir, empty_counts);
        override_with(&mut self.warm_dir, &over.warm_dir, empty_counts);
        override_with(&mut self.ledger_db, &over.ledger_db, empty_counts);
        override_with(&mut self.lmdb_dir, &over.lmdb_dir, empty_counts);
        override_with(&mut self.lmdb_map_size, &over.lmdb_map_size, empty_counts);
    }
}

/// Length of the unit at the end of a size.
pub open spec fn unit_len(t: Seq<char>) -> nat {
    let n = t.len();
    if n >= 1 && t[n - 1] == 'B' {
        if n >= 2 && (t[n - 2] == 'K' || t[n - 2] == 'M' || t[n - 2] == 'G') {
            2
        } else {
            1
        }
    } else {
        0
    }
}

/// Bytes of the unit at the end of a size.
pub open spec fn unit(t: Seq<char>) -> nat {
    let n = t.len();
    if unit_len(t) == 2 {
        if t[n - 2] == 'K' {
            0x400
        } else if t[n - 2] == 'M' {
            0x10_0000
        } else {
            0x4000_0000
        }
    } else {
        1
    }
}

/// The number of bytes that a readable size stands for.
pub open spec fn size_of(s: Seq<char>) -> Result<u64, SizeError> {
    let t = trimmed(s);
    if t.len() == 0 {
        Err(SizeError::Empty)
    } else {
        match parsed(trimmed(t.take(t.len() - unit_len(t))), 10, u64::MAX as nat) {
            None => Err(SizeError::Malformed),
            Some(n) => if n * unit(t) > u64::MAX {
                Err(SizeError::Overflow)
            } else {
                Ok((n * unit(t)) as u64)
            },
        }
    }
}

/// Reads a size such as `256MB`, `64GB` or `1024`; a number alone counts bytes.
pub fn parse_size(s: &str) -> (r: Result<u64, SizeError>)
    ensures
        r == size_of(s@),
{
    let t = trim(&chars_of(s));
    let n: usize = t.len();
    if n == 0 {
        return Err(SizeError::Empty);
    }
    let mut cut: usize = 0;
    let mut mult: u64 = 1;
    if t[n - 1] == 'B' {
        cut = 1;
        if n >= 2 {
            if t[n - 2] == 'K' {
                cut = 2;
                mult = 0x400;
            } else if t[n - 2] == 'M' {
                cut = 2;
                mult = 0x10_0000;
            } else if t[n - 2] == 'G' {
                cut = 2;
                mult = 0x4000_0000;
            }
        }
    }
    assert(cut == unit_len(t@) && mult == unit(t@));
    let num = part(&t, 0, n - cut);
    assert(num@ =~= t@.take(n - cut));
    match parse_unsigned(&trim(&num), 10, 0xffff_ffff_ffff_ffff) {
        None => Err(SizeError::Malformed),
        Some(v) => match v.checked_mul(mult) {
            None => Err(SizeError::Overflow),
            Some(b) => Ok(b),
        },
    }
}

/// For every setting the command line wins over the environment, and a non-empty environment over the
/// file and the defaults.
pub proof fn law_command_line_wins(base: Seq<char>, env: Option<String>, cli: Option<String>)
    ensures
        layered(layered(base, env, false), cli, true) == (match (cli, env) {
            (Some(c), _) => c@,
            (None, Some(e)) => if e@.len() > 0 {
                e@
            } else {
                base
            },
            (None, None) => base,
        }),
{
}

} // verus!
