//! Engine parameters: chunking bounds, pool sizes and the configuration file
//! model, with the resolution of the default sync directory.
use vstd::prelude::*;

verus! {

/// Debounce window of the watcher, in milliseconds.
pub const DEBOUNCE_TIME_IN_MS: u64 = 500;

/// Smallest chunk the chunker cuts, except at the end of a source (2 KiB).
pub const CHUNK_MIN_SIZE: u32 = 2048;

/// Target average chunk size (8 KiB).
pub const CHUNK_AVG_SIZE: u32 = 8192;

/// Largest chunk the chunker cuts; reaching it forces a cut (32 KiB).
pub const CHUNK_MAX_SIZE: u32 = 32768;

/// Default size of the hashing worker pool.
pub const INDEX_ENGINE_MAX_THREAD: usize = 8;

/// Default capacity of the bounded queues between pipeline stages.
pub const CROSSBEAM_CHANNEL_SIZE: usize = 64;

/// Version of the chunking protocol. Any change of the chunking parameters
/// above must bump it, which forces a full reindex of local files.
pub const SKIE_CHUNK_PROTOCOL_VERSION: u32 = 1;

/// Remote endpoint used when the configuration names none.
pub const SERVER_URL: &'static str = "https://api.skie.ultrafinite.com";

/// Name of the sync directory inside the user's documents or home folder.
pub const SKIE_SYNC_DIR_NAME: &'static str = "Skie";

/// Name of the vault folder inside the sync directory.
pub const SKIE_VAULT_DIR_NAME: &'static str = "Vault";

/// Name of the internal bookkeeping directory inside the sync directory.
pub const CONFIG_DIR_NAME: &'static str = ".config";

/// Range the chunking library accepts for the minimum chunk size.
pub const CDC_MINIMUM_MIN: u32 = 64;

pub const CDC_MINIMUM_MAX: u32 = 1048576;

/// Range the chunking library accepts for the average chunk size.
pub const CDC_AVERAGE_MIN: u32 = 256;

pub const CDC_AVERAGE_MAX: u32 = 4194304;

/// Range the chunking library accepts for the maximum chunk size.
pub const CDC_MAXIMUM_MIN: u32 = 1024;

pub const CDC_MAXIMUM_MAX: u32 = 16777216;

/// The bounds the chunking library itself accepts (it panics outside them).
pub open spec fn cdc_library_bounds(min: u32, avg: u32, max: u32) -> bool {
    &&& CDC_MINIMUM_MIN <= min <= CDC_MINIMUM_MAX
    &&& CDC_AVERAGE_MIN <= avg <= CDC_AVERAGE_MAX
    &&& CDC_MAXIMUM_MIN <= max <= CDC_MAXIMUM_MAX
}

/// Bounds of the content-defined chunker: `min <= avg <= max` (all positive,
/// `avg >= 256`) within what the chunking library accepts.
#[derive(Clone, Copy, Debug, PartialEq, Eq, Structural)]
pub struct ChunkConfig {
    /// The minimum size of a chunk in bytes.
    pub min_chunk_size: u32,
    /// The desired average size of a chunk in bytes.
    pub avg_chunk_size: u32,
    /// The size at which a cut is forced.
    pub max_chunk_size: u32,
}

impl ChunkConfig {
    /// The parameters are usable: ordered, and within the library's bounds.
    pub open spec fn valid(&self) -> bool {
        &&& self.min_chunk_size <= self.avg_chunk_size <= self.max_chunk_size
        &&& cdc_library_bounds(self.min_chunk_size, self.avg_chunk_size, self.max_chunk_size)
    }

    /// Tells whether the parameters are usable.
    pub fn is_valid(&self) -> (r: bool)
        ensures
            r == self.valid(),
    {
        self.min_chunk_size <= self.avg_chunk_size && self.avg_chunk_size <= self.max_chunk_size
            && CDC_MINIMUM_MIN <= self.min_chunk_size && self.min_chunk_size <= CDC_MINIMUM_MAX
            && CDC_AVERAGE_MIN <= self.avg_chunk_size && self.avg_chunk_size <= CDC_AVERAGE_MAX
            && CDC_MAXIMUM_MIN <= self.max_chunk_size && self.max_chunk_size <= CDC_MAXIMUM_MAX
    }
}

/// The protocol's default chunker bounds.
pub open spec fn default_chunk_config() -> ChunkConfig {
    ChunkConfig {
        min_chunk_size: CHUNK_MIN_SIZE,
        avg_chunk_size: CHUNK_AVG_SIZE,
        max_chunk_size: CHUNK_MAX_SIZE,
    }
}

impl Default for ChunkConfig {
    /// The protocol's defaults: 2 KiB min, 8 KiB average, 32 KiB max.
    fn default() -> (r: ChunkConfig)
        ensures
            r.min_chunk_size == CHUNK_MIN_SIZE,
            r.avg_chunk_size == CHUNK_AVG_SIZE,
            r.max_chunk_size == CHUNK_MAX_SIZE,
            r == default_chunk_config(),
            r.valid(),
    {
        ChunkConfig {
            min_chunk_size: CHUNK_MIN_SIZE,
            avg_chunk_size: CHUNK_AVG_SIZE,
            max_chunk_size: CHUNK_MAX_SIZE,
        }
    }
}

/// Remote endpoint settings (used by the network layer).
#[derive(Debug)]
pub struct NetworkConfig {
    pub server_url: String,
    pub max_upload_kbps: u32,
}

impl Default for NetworkConfig {
    /// The public endpoint, without an upload cap.
    fn default() -> (r: NetworkConfig)
        ensures
            r.server_url@ == SERVER_URL@,
            r.max_upload_kbps == 0,
    {
        NetworkConfig { server_url: SERVER_URL.to_string(), max_upload_kbps: 0 }
    }
}

/// Privacy settings: whether a vault subtree is excluded, and where it is.
#[derive(Debug)]
pub struct PrivacyConfig {
    pub vault: bool,
    pub vault_folder: String,
}

impl PrivacyConfig {
    /// The default privacy settings for a sync directory: the vault is on,
    /// in the `Vault` folder of that directory.
    pub fn for_sync_dir(sync_dir: &str) -> (r: PrivacyConfig)
        ensures
            r.vault,
            r.vault_folder@ == joined_path(sync_dir@, SKIE_VAULT_DIR_NAME@),
    {
        PrivacyConfig { vault: true, vault_folder: join_path(sync_dir, SKIE_VAULT_DIR_NAME) }
    }
}

/// Parameters of the hashing pipeline.
#[derive(Debug, Clone)]
pub struct HashConfig {
    pub min_chunk_size: u32,
    pub avg_chunk_size: u32,
    pub max_chunk_size: u32,
    pub num_threads: usize,
    pub channel_size: usize,
    /// Directory where the engine keeps its own data.
    pub engine_config: String,
}

impl HashConfig {
    /// The default pipeline parameters, keeping engine data in `engine_config`.
    pub fn with_data_dir(engine_config: String) -> (r: HashConfig)
        ensures
            r.min_chunk_size == CHUNK_MIN_SIZE,
            r.avg_chunk_size == CHUNK_AVG_SIZE,
            r.max_chunk_size == CHUNK_MAX_SIZE,
            r.num_threads == INDEX_ENGINE_MAX_THREAD,
            r.channel_size == CROSSBEAM_CHANNEL_SIZE,
            r.engine_config == engine_config,
    {
        HashConfig {
            min_chunk_size: CHUNK_MIN_SIZE,
            avg_chunk_size: CHUNK_AVG_SIZE,
            max_chunk_size: CHUNK_MAX_SIZE,
            num_threads: INDEX_ENGINE_MAX_THREAD,
            channel_size: CROSSBEAM_CHANNEL_SIZE,
            engine_config,
        }
    }

    /// The chunker bounds of this configuration.
    pub fn chunk_config(&self) -> (r: ChunkConfig)
        ensures
            r.min_chunk_size == self.min_chunk_size,
            r.avg_chunk_size == self.avg_chunk_size,
            r.max_chunk_size == self.max_chunk_size,
    {
        ChunkConfig {
            min_chunk_size: self.min_chunk_size,
            avg_chunk_size: self.avg_chunk_size,
            max_chunk_size: self.max_chunk_size,
        }
    }
}

/// The whole configuration file.
#[derive(Debug)]
pub struct AppConfig {
    pub sync_dir: String,
    pub engine_config: HashConfig,
    pub network_config: NetworkConfig,
    pub privacy_config: PrivacyConfig,
    pub debounce_ms: u64,
}

impl AppConfig {
    /// The default configuration for a sync directory and an engine data
    /// directory.
    pub fn for_dirs(sync_dir: String, engine_dir: String) -> (r: AppConfig)
        ensures
            r.sync_dir == sync_dir,
            r.engine_config.engine_config == engine_dir,
            r.engine_config.min_chunk_size == CHUNK_MIN_SIZE,
            r.engine_config.avg_chunk_size == CHUNK_AVG_SIZE,
            r.engine_config.max_chunk_size == CHUNK_MAX_SIZE,
            r.engine_config.num_threads == INDEX_ENGINE_MAX_THREAD,
            r.engine_config.channel_size == CROSSBEAM_CHANNEL_SIZE,
            r.network_config.server_url@ == SERVER_URL@,
            r.network_config.max_upload_kbps == 0,
            r.privacy_config.vault,
            r.privacy_config.vault_folder@ == joined_path(sync_dir@, SKIE_VAULT_DIR_NAME@),
            r.debounce_ms == DEBOUNCE_TIME_IN_MS,
    {
        let privacy_config = PrivacyConfig::for_sync_dir(sync_dir.as_str());
        AppConfig {
            sync_dir,
            engine_config: HashConfig::with_data_dir(engine_dir),
            network_config: NetworkConfig::default(),
            privacy_config,
            debounce_ms: DEBOUNCE_TIME_IN_MS,
        }
    }
}

/// Process-wide context handed to the engine's components.
#[derive(Debug)]
pub struct SkieContext {
    pub app_config: AppConfig,
}

impl SkieContext {
    /// A context holding `app_config`.
    pub fn new(app_config: AppConfig) -> (r: SkieContext)
        ensures
            r.app_config == app_config,
    {
        SkieContext { app_config }
    }
}

/// `base` followed by the component `name`, with one `/` between them.
pub open spec fn joined_path(base: Seq<char>, name: Seq<char>) -> Seq<char> {
    if base.len() == 0 {
        name
    } else if base.last() == '/' {
        base + name
    } else {
        base + seq!['/'] + name
    }
}

/// Appends the component `name` to the path `base`.
pub fn join_path(base: &str, name: &str) -> (r: String)
    ensures
        r@ == joined_path(base@, name@),
{
    let n = base.unicode_len();
    let mut r = base.to_string();
    if n == 0 {
        return name.to_string();
    }
    if base.get_char(n - 1) != '/' {
        r.append("/");
        proof {
            reveal_strlit("/");
        }
    }
    r.append(name);
    assert(r@ =~= joined_path(base@, name@));
    r
}

/// The default sync directory: `Skie` inside the documents folder when one
/// is known, else inside the home folder, else `Skie` relative to the
/// working directory.
pub fn default_sync_path(documents: Option<String>, home: Option<String>) -> (r: String)
    ensures
        documents is Some ==> r@ == joined_path(documents->0@, SKIE_SYNC_DIR_NAME@),
        documents is None && home is Some ==> r@ == joined_path(home->0@, SKIE_SYNC_DIR_NAME@),
        documents is None && home is None ==> r@ == SKIE_SYNC_DIR_NAME@,
{
    match documents {
        Some(docs) => join_path(docs.as_str(), SKIE_SYNC_DIR_NAME),
        None => match home {
            Some(h) => join_path(h.as_str(), SKIE_SYNC_DIR_NAME),
            None => SKIE_SYNC_DIR_NAME.to_string(),
        },
    }
}

} // verus!
