//! Engine configuration.
//!
//! [`DatabaseConfig`] holds the engine-level parameters (page size, buffer
//! pool, extension checks, inference cache, application id);
//! [`StorageEngineConfig`] those of the storage engine alone. File paths
//! and storage modes are configured outside the engine.

use vstd::prelude::*;
use vstd::string::StringExecFns;
use crate::buffer_pool::DEFAULT_BUFFER_POOL_FRAMES;
use crate::error::{Error, StorageError};
use crate::text::{decimal, push_decimal, string_of};

verus! {

/// Configuration of the database engine.
#[derive(Clone, Debug)]
pub struct DatabaseConfig {
    /// Number of page frames in the buffer pool (minimum 64, default 1024).
    pub buffer_pool_frames: usize,
    /// Page size in bytes; must be a power of two of at least 512 (default
    /// 4096).
    pub page_size: usize,
    /// Whether to check for missing extensions at startup (default `true`).
    pub extension_startup_check: bool,
    /// Maximum number of cached inference results (default 64).
    pub inference_cache_size: usize,
    /// Application id stored in the database header (default 0).
    pub application_id: u32,
}

/// `n` is a power of two.
pub open spec fn is_pow2(n: nat) -> bool
    decreases n,
{
    if n == 1 {
        true
    } else if n == 0 || n % 2 == 1 {
        false
    } else {
        is_pow2(n / 2)
    }
}

/// Whether `n` is a power of two.
pub fn is_power_of_two(n: usize) -> (r: bool)
    ensures
        r == is_pow2(n as nat),
{
    let mut m = n;
    while m > 1 && m % 2 == 0
        invariant
            is_pow2(m as nat) == is_pow2(n as nat),
        decreases m,
    {
        m = m / 2;
    }
    m == 1
}

impl Default for DatabaseConfig {
    fn default() -> (r: DatabaseConfig)
        ensures
            r.buffer_pool_frames == 1024,
            r.page_size == 4096,
            r.extension_startup_check,
            r.inference_cache_size == 64,
            r.application_id == 0,
    {
        DatabaseConfig {
            buffer_pool_frames: 1024,
            page_size: 4096,
            extension_startup_check: true,
            inference_cache_size: 64,
            application_id: 0,
        }
    }
}

impl DatabaseConfig {
    /// Sets the number of buffer pool frames; values below 64 become 64.
    pub fn buffer_pool_frames(self, frames: usize) -> (r: DatabaseConfig)
        ensures
            r.buffer_pool_frames == (if frames < 64 { 64 } else { frames }),
            r.page_size == self.page_size,
            r.extension_startup_check == self.extension_startup_check,
            r.inference_cache_size == self.inference_cache_size,
            r.application_id == self.application_id,
    {
        let mut c = self;
        c.buffer_pool_frames = if frames < 64 { 64 } else { frames };
        c
    }

    /// Sets the page size in bytes. Any value is accepted here;
    /// [`validate`](Self::validate) rejects an unusable one.
    pub fn page_size(self, size: usize) -> (r: DatabaseConfig)
        ensures
            r.page_size == size,
            r.buffer_pool_frames == self.buffer_pool_frames,
            r.extension_startup_check == self.extension_startup_check,
            r.inference_cache_size == self.inference_cache_size,
            r.application_id == self.application_id,
    {
        let mut c = self;
        c.page_size = size;
        c
    }

    /// Sets whether to check for missing extensions at startup.
    pub fn extension_startup_check(self, check: bool) -> (r: DatabaseConfig)
        ensures
            r.extension_startup_check == check,
            r.buffer_pool_frames == self.buffer_pool_frames,
            r.page_size == self.page_size,
            r.inference_cache_size == self.inference_cache_size,
            r.application_id == self.application_id,
    {
        let mut c = self;
        c.extension_startup_check = check;
        c
    }

    /// Sets the maximum number of cached inference results.
    pub fn inference_cache_size(self, size: usize) -> (r: DatabaseConfig)
        ensures
            r.inference_cache_size == size,
            r.buffer_pool_frames == self.buffer_pool_frames,
            r.page_size == self.page_size,
            r.extension_startup_check == self.extension_startup_check,
            r.application_id == self.application_id,
    {
        let mut c = self;
        c.inference_cache_size = size;
        c
    }

    /// Sets the application id stored in the database header.
    pub fn application_id(self, id: u32) -> (r: DatabaseConfig)
        ensures
            r.application_id == id,
            r.buffer_pool_frames == self.buffer_pool_frames,
            r.page_size == self.page_size,
            r.extension_startup_check == self.extension_startup_check,
            r.inference_cache_size == self.inference_cache_size,
    {
        let mut c = self;
        c.application_id = id;
        c
    }

    /// Checks the configuration: the page size must be a power of two
    /// (else `page_size {n} is not a power of two`) and at least 512 (else
    /// `page_size {n} is less than minimum 512`), both as storage errors.
    pub fn validate(&self) -> (r: Result<(), Error>)
        ensures
            r is Ok <==> is_pow2(self.page_size as nat) && self.page_size >= 512,
            r matches Err(e) ==> (e matches Error::Storage(se) && se.source is None && se.message@ == (
            if !is_pow2(self.page_size as nat) {
                "page_size "@ + decimal(self.page_size as nat) + " is not a power of two"@
            } else {
                "page_size "@ + decimal(self.page_size as nat) + " is less than minimum 512"@
            })),
    {
        if !is_power_of_two(self.page_size) {
            let mut m = string_of("page_size ");
            push_decimal(&mut m, self.page_size as u64);
            m.append(" is not a power of two");
            return Err(Error::Storage(StorageError { message: m, source: None }));
        }
        if self.page_size < 512 {
            let mut m = string_of("page_size ");
            push_decimal(&mut m, self.page_size as u64);
            m.append(" is less than minimum 512");
            return Err(Error::Storage(StorageError { message: m, source: None }));
        }
        Ok(())
    }
}

/// Configuration for creating or opening a storage engine.
#[derive(Clone, Debug)]
pub struct StorageEngineConfig {
    /// Page size in bytes (default 4096; a power of two from 4096 to 65536).
    pub page_size: usize,
    /// Number of buffer pool frames (default 1024, minimum 64).
    pub buffer_pool_frames: usize,
    /// Application identifier written to the file header.
    pub application_id: u32,
}

impl Default for StorageEngineConfig {
    fn default() -> (r: StorageEngineConfig)
        ensures
            r.page_size == 4096,
            r.buffer_pool_frames == DEFAULT_BUFFER_POOL_FRAMES,
            r.application_id == 0,
    {
        StorageEngineConfig {
            page_size: crate::page::DEFAULT_PAGE_SIZE,
            buffer_pool_frames: DEFAULT_BUFFER_POOL_FRAMES,
            application_id: 0,
        }
    }
}

/// Extensions that the database has persisted but that are not registered
/// in memory.
#[derive(Clone, Debug, Default)]
pub struct MissingExtensions {
    /// Constraint validators persisted but not registered.
    pub constraint_validators: Vec<String>,
    /// Inference rules persisted but not registered.
    pub inference_rules: Vec<String>,
}

impl MissingExtensions {
    /// Returns `true` if no extension is missing.
    pub fn is_empty(&self) -> (r: bool)
        ensures
            r == (self.constraint_validators@.len() == 0 && self.inference_rules@.len() == 0),
    {
        self.constraint_validators.len() == 0 && self.inference_rules.len() == 0
    }
}

} // verus!

verus! {

#[verifier::external_type_specification]
#[verifier::external_body]
pub struct ExPathBuf(std::path::PathBuf);

/// `PathBuf::clone` copies a path; nothing is stated of the copy.
pub assume_specification[ <std::path::PathBuf as Clone>::clone ](p: &std::path::PathBuf) -> (r: std::path::PathBuf);

/// Configuration for opening a file-backed database: the file's path, the
/// read-only flag and the engine configuration.
#[derive(Clone, Debug)]
pub struct FileConfig {
    /// Path to the database file.
    pub path: std::path::PathBuf,
    /// Whether to open the database read-only.
    pub read_only: bool,
    /// Engine-level configuration (page size, buffer pool, etc.).
    pub engine: DatabaseConfig,
}

impl FileConfig {
    /// A configuration for the file at `path`, writable, with the default
    /// engine configuration.
    pub fn new<P: Into<std::path::PathBuf>>(path: P) -> (r: FileConfig)
        ensures
            call_ensures(P::into, (path,), r.path),
            !r.read_only,
            r.engine.buffer_pool_frames == 1024,
            r.engine.page_size == 4096,
            r.engine.extension_startup_check,
            r.engine.inference_cache_size == 64,
            r.engine.application_id == 0,
    {
        FileConfig { path: path.into(), read_only: false, engine: DatabaseConfig::default() }
    }

    /// Sets the read-only flag.
    pub fn read_only(self, read_only: bool) -> (r: FileConfig)
        ensures
            r.read_only == read_only,
            r.path == self.path,
            r.engine == self.engine,
    {
        let mut c = self;
        c.read_only = read_only;
        c
    }

    /// Sets the engine configuration.
    pub fn engine(self, engine: DatabaseConfig) -> (r: FileConfig)
        ensures
            r.engine == engine,
            r.path == self.path,
            r.read_only == self.read_only,
    {
        let mut c = self;
        c.engine = engine;
        c
    }
}

} // verus!

verus! {

// ---------------------------------------------------------------------------
// Missing extensions
// ---------------------------------------------------------------------------

/// A set of names (a `hashbrown` hash set of strings).
#[verifier::external_body]
pub struct NameSet {
    set: hashbrown::HashSet<String>,
}

/// The names a [`NameSet`] holds.
pub uninterp spec fn name_set_contents(s: NameSet) -> Set<Seq<char>>;

/// Calls `hashbrown::HashSet::new`, which makes an empty set.
#[verifier::external_body]
fn name_set_new() -> (r: NameSet)
    ensures
        name_set_contents(r) == Set::<Seq<char>>::empty(),
{
    NameSet { set: hashbrown::HashSet::new() }
}

/// Calls `hashbrown::HashSet::insert`, which adds the name to the set.
#[verifier::external_body]
fn name_set_insert(s: &mut NameSet, name: String)
    ensures
        name_set_contents(*final(s)) == name_set_contents(*old(s)).insert(name@),
{
    s.set.insert(name);
}

/// Calls `hashbrown::HashSet::contains`, which tells whether the set holds
/// the name.
#[verifier::external_body]
fn name_set_contains(s: &NameSet, name: &str) -> (r: bool)
    ensures
        r == name_set_contents(*s).contains(name@),
{
    s.set.contains(name)
}

/// The texts of a sequence of strings.
pub open spec fn texts(s: Seq<String>) -> Seq<Seq<char>> {
    s.map_values(|x: String| x@)
}

/// The names in `persisted` that `registered` lacks, in order.
pub open spec fn unregistered(persisted: Seq<Seq<char>>, registered: Seq<Seq<char>>) -> Seq<Seq<char>> {
    persisted.filter(|n: Seq<char>| !registered.contains(n))
}

/// The names in `persisted` that are not in `registered`, in order.
fn names_not_in(persisted: &[String], registered: &[String]) -> (r: Vec<String>)
    ensures
        texts(r@) == unregistered(texts(persisted@), texts(registered@)),
{
    let ghost reg = texts(registered@);
    let mut set = name_set_new();
    let mut i: usize = 0;
    while i < registered.len()
        invariant
            i <= registered@.len(),
            reg == texts(registered@),
            name_set_contents(set) == reg.take(i as int).to_set(),
        decreases registered@.len() - i,
    {
        let name = registered[i].clone();
        name_set_insert(&mut set, name);
        proof {
            assert(reg.take(i + 1) =~= reg.take(i as int).push(registered@[i as int]@));
            reg.take(i as int).lemma_push_to_set_commute(registered@[i as int]@);
        }
        i = i + 1;
    }
    proof {
        assert(reg.take(registered@.len() as int) =~= reg);
    }
    let ghost per = texts(persisted@);
    let ghost pred = |n: Seq<char>| !reg.contains(n);
    let mut out: Vec<String> = Vec::new();
    let mut j: usize = 0;
    proof {
        reveal(Seq::filter);
        assert(per.take(0).filter(pred) =~= Seq::<Seq<char>>::empty());
        assert(texts(out@) =~= Seq::<Seq<char>>::empty());
    }
    while j < persisted.len()
        invariant
            j <= persisted@.len(),
            per == texts(persisted@),
            pred == (|n: Seq<char>| !reg.contains(n)),
            name_set_contents(set) == reg.to_set(),
            texts(out@) == per.take(j as int).filter(pred),
        decreases persisted@.len() - j,
    {
        let ghost prev = out@;
        let present = name_set_contains(&set, persisted[j].as_str());
        if !present {
            out.push(persisted[j].clone());
        }
        proof {
            reveal(Seq::filter);
            let t = per.take(j + 1);
            assert(t.drop_last() =~= per.take(j as int));
            assert(t.last() == persisted@[j as int]@);
            if !present {
                assert(texts(out@) =~= texts(prev).push(persisted@[j as int]@));
            } else {
                assert(texts(out@) =~= texts(prev));
            }
        }
        j = j + 1;
    }
    proof {
        assert(per.take(persisted@.len() as int) =~= per);
    }
    out
}

/// The extensions persisted in a database but not registered in memory:
/// the persisted constraint validator names that are not registered, and
/// the persisted inference rule names that are not registered, each in
/// persisted order.
pub fn missing_extensions(
    persisted_constraints: &[String],
    persisted_rules: &[String],
    registered_constraints: &[String],
    registered_rules: &[String],
) -> (r: MissingExtensions)
    ensures
        texts(r.constraint_validators@) == unregistered(texts(persisted_constraints@), texts(registered_constraints@)),
        texts(r.inference_rules@) == unregistered(texts(persisted_rules@), texts(registered_rules@)),
{
    MissingExtensions {
        constraint_validators: names_not_in(persisted_constraints, registered_constraints),
        inference_rules: names_not_in(persisted_rules, registered_rules),
    }
}

} // verus!
