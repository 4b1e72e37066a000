//! An open repository: its configuration, its key, its master index and
//! its scheduler.

use crate::backup::{
    computes, expand, follow, missing_chunk, reports, restore_meets, restore_outcome, ChunkStore,
    FollowError,
};
use crate::data::{
    BundleId, ChunkId, EncryptionKey, IndexId, FILESYSTEM_CACHE_PATH,
    MAX_COMPRESSED_FILESYSTEM_CACHE_ENTRIES, MAX_COMPRESSED_MEMORY_CACHE_ENTRIES,
    MAX_UNCOMPRESSED_MEMORY_CACHE_ENTRIES,
};
use crate::digest::sha256_of;
use crate::error::{Error, ErrorKind};
use crate::hex::{encode_hex, hex_string};
use crate::check_backups::{check_backup, missing_of, BackupVerdict};
use crate::idmap::{IdList, IdSet};
use crate::index_cache::{
    cpu_count, failed_count, loaded_indexes, master_index, IndexCache, IndexEntry, LoadReport,
};
use crate::index_file::RawIndexEntry;
use crate::records::{BackupInfo, StorageInfo};
use crate::scheduler::{Completion, Decision, JobStatus, Scheduler};
use vstd::prelude::*;
use vstd::slice::slice_subrange;

verus! {

/// Where a chunk is to be found, as the master index has it.
#[derive(Clone, Copy, Debug, PartialEq, Eq, Structural)]
pub struct MasterIndexEntryData {
    pub bundle_id: BundleId,
    pub size: u64,
}

pub type MasterIndexEntry = MasterIndexEntryData;

/// The configuration of a repository, given when it is opened.
#[derive(Clone, Debug, PartialEq, Eq)]
pub struct RepositoryConfig {
    pub max_uncompressed_memory_cache_entries: usize,
    pub max_compressed_memory_cache_entries: usize,
    pub max_compressed_filesystem_cache_entries: usize,
    pub max_threads: usize,
    pub filesystem_cache_path: String,
    /// No longer used.
    pub work_jobs_total: usize,
    /// No longer used.
    pub work_jobs_batch: usize,
}

/// How the attempt to unwrap the repository key with the password went.
#[derive(Clone, Copy, Debug, PartialEq, Eq)]
pub enum KeyAttempt {
    /// No password file was given.
    NoPasswordFile,
    /// A password file was given, and the password does not unwrap the key,
    /// or there is no key to unwrap.
    Incorrect,
    /// The password unwraps the key, which is this.
    Unwrapped(EncryptionKey),
}

/// What opening a repository comes to, by what its `info` file declares and
/// what was tried with the password file.
pub enum OpenOutcome {
    /// The repository opens, with this key or with none.
    Opens(Option<EncryptionKey>),
    /// The `info` file declares a key and no password file was given.
    PasswordRequired,
    /// The `info` file declares no key and a password file was given.
    PasswordUnnecessary,
    /// The password does not unwrap the key.
    PasswordIncorrect,
}

/// What opening a repository comes to.
pub open spec fn open_outcome(declares_key: bool, attempt: KeyAttempt) -> OpenOutcome {
    if declares_key {
        match attempt {
            KeyAttempt::NoPasswordFile => OpenOutcome::PasswordRequired,
            KeyAttempt::Incorrect => OpenOutcome::PasswordIncorrect,
            KeyAttempt::Unwrapped(key) => OpenOutcome::Opens(Some(key)),
        }
    } else {
        match attempt {
            KeyAttempt::NoPasswordFile => OpenOutcome::Opens(None),
            _ => OpenOutcome::PasswordUnnecessary,
        }
    }
}

/// The path of an index file.
pub open spec fn index_path_of(repository_path: Seq<char>, index_id: IndexId) -> Seq<char> {
    repository_path + "/index/"@ + hex_string(index_id@)
}

/// The path of a bundle file: the bundles are grouped in directories named
/// by the first byte of their identifier.
pub open spec fn bundle_path_of(repository_path: Seq<char>, bundle_id: BundleId) -> Seq<char> {
    repository_path + "/bundles/"@ + hex_string(bundle_id@.take(1)) + "/"@ + hex_string(
        bundle_id@,
    )
}

/// An open repository.
pub struct Repository {
    config: RepositoryConfig,
    path: String,
    storage_info: StorageInfo,
    encryption_key: Option<EncryptionKey>,
    index: IndexCache,
    scheduler: Scheduler,
}

impl Repository {
    /// The path of the repository.
    pub closed spec fn spec_path(&self) -> Seq<char> {
        self.path@
    }

    /// The key of the repository, if it is encrypted.
    pub closed spec fn spec_encryption_key(&self) -> Option<EncryptionKey> {
        self.encryption_key
    }

    /// The master index, once loaded.
    pub closed spec fn spec_index(&self) -> Option<Map<ChunkId, IndexEntry>> {
        self.index@
    }

    /// The state of the scheduler.
    pub closed spec fn spec_scheduler(&self) -> crate::scheduler::SchedulerSpec {
        self.scheduler@
    }

    /// The `info` record that the repository was opened with.
    pub closed spec fn spec_storage_info(&self) -> StorageInfo {
        self.storage_info
    }

    /// The configuration that the repository was opened with.
    pub closed spec fn spec_config(&self) -> RepositoryConfig {
        self.config
    }

    /// The default configuration: the default cache sizes and cache
    /// directory, and as many bundle reads at a time as the machine has
    /// processors.
    pub fn default_config() -> (config: RepositoryConfig)
        ensures
            config.max_uncompressed_memory_cache_entries == 0x800,
            config.max_compressed_memory_cache_entries == 0x4000,
            config.max_compressed_filesystem_cache_entries == 0x20000,
            config.max_threads >= 1,
            config.filesystem_cache_path@ == "/tmp/rzbackup-cache"@,
            config.work_jobs_total == 0,
            config.work_jobs_batch == 0,
    {
        RepositoryConfig {
            max_uncompressed_memory_cache_entries: MAX_UNCOMPRESSED_MEMORY_CACHE_ENTRIES,
            max_compressed_memory_cache_entries: MAX_COMPRESSED_MEMORY_CACHE_ENTRIES,
            max_compressed_filesystem_cache_entries: MAX_COMPRESSED_FILESYSTEM_CACHE_ENTRIES,
            max_threads: cpu_count(),
            filesystem_cache_path: String::from_str(FILESYSTEM_CACHE_PATH),
            work_jobs_total: 0,
            work_jobs_batch: 0,
        }
    }

    /// Opens a repository from its `info` record and the attempt to unwrap
    /// its key.
    ///
    /// Fails with `ConfigError` where the record declares a key and no
    /// password file was given, and where it declares none and one was
    /// given; with `AuthError` where the password does not unwrap the key.
    /// Otherwise the repository opens, with its index not yet loaded and
    /// nothing scheduled.
    pub fn open(
        repository_config: RepositoryConfig,
        repository_path: &str,
        storage_info: StorageInfo,
        attempt: KeyAttempt,
    ) -> (opened: Result<Repository, Error>)
        ensures
            match open_outcome(storage_info.has_encryption_key(), attempt) {
                OpenOutcome::Opens(key) => opened matches Ok(repository)
                    && repository.spec_encryption_key() == key && repository.spec_path()
                    == repository_path@ && repository.spec_index() is None
                    && repository.spec_scheduler() == (crate::scheduler::SchedulerSpec {
                    max_threads: repository_config.max_threads as nat,
                    loading: Seq::empty(),
                    queue: Seq::empty(),
                }) && repository.spec_config() == repository_config
                    && repository.spec_storage_info() == storage_info,
                OpenOutcome::PasswordRequired => opened matches Err(e) && e.kind
                    == ErrorKind::ConfigError && e.message@
                    == "Required password file not provided"@,
                OpenOutcome::PasswordUnnecessary => opened matches Err(e) && e.kind
                    == ErrorKind::ConfigError && e.message@
                    == "Unnecessary password file provided"@,
                OpenOutcome::PasswordIncorrect => opened matches Err(e) && e.kind
                    == ErrorKind::AuthError && e.message@ == "Incorrect password"@,
            },
    {
        let encryption_key = if storage_info.has_encryption_key() {
            match attempt {
                KeyAttempt::NoPasswordFile => {
                    return Err(
                        Error::new(ErrorKind::ConfigError, "Required password file not provided"),
                    );
                },
                KeyAttempt::Incorrect => {
                    return Err(Error::new(ErrorKind::AuthError, "Incorrect password"));
                },
                KeyAttempt::Unwrapped(key) => Some(key),
            }
        } else {
            match attempt {
                KeyAttempt::NoPasswordFile => None,
                _ => {
                    return Err(
                        Error::new(ErrorKind::ConfigError, "Unnecessary password file provided"),
                    );
                },
            }
        };
        let scheduler = Scheduler::new(repository_config.max_threads);
        Ok(
            Repository {
                config: repository_config,
                path: String::from_str(repository_path),
                storage_info,
                encryption_key,
                index: IndexCache::new(),
                scheduler,
            },
        )
    }

    /// Loads the master index from the index files that were read, unless
    /// it is loaded already.
    pub fn load_indexes(
        &mut self,
        results: &Vec<Result<Vec<RawIndexEntry>, Error>>,
        bundles: &IdSet,
    ) -> (report: Option<LoadReport>)
        requires
            results@.len() <= u64::MAX,
        ensures
            old(self).spec_index() is Some ==> report is None && final(self).spec_index() == old(
                self,
            ).spec_index(),
            old(self).spec_index() is None ==> report is Some && final(self).spec_index() == Some(
                master_index(loaded_indexes(results@), bundles@),
            ) && report->0.errors == failed_count(results@) && report->0.loaded
                + report->0.errors == results@.len(),
            final(self).spec_scheduler() == old(self).spec_scheduler(),
            final(self).spec_path() == old(self).spec_path(),
            final(self).spec_encryption_key() == old(self).spec_encryption_key(),
    {
        self.index.load_if_not_loaded(results, bundles)
    }

    /// Loads the master index anew from the index files that were read.
    pub fn reload_indexes(
        &mut self,
        results: &Vec<Result<Vec<RawIndexEntry>, Error>>,
        bundles: &IdSet,
    ) -> (report: LoadReport)
        requires
            results@.len() <= u64::MAX,
        ensures
            final(self).spec_index() == Some(master_index(loaded_indexes(results@), bundles@)),
            report.errors == failed_count(results@),
            report.loaded + report.errors == results@.len(),
            final(self).spec_scheduler() == old(self).spec_scheduler(),
            final(self).spec_path() == old(self).spec_path(),
            final(self).spec_encryption_key() == old(self).spec_encryption_key(),
    {
        self.index.reload(results, bundles)
    }

    /// The instruction stream of a backup's last round, with the recorded
    /// digest.
    pub fn read_and_expand_backup(&self, backup_info: &BackupInfo, store: &ChunkStore) -> (expanded:
        Result<(Vec<u8>, Vec<u8>), Error>)
        ensures
            match (
                expanded,
                expand(backup_info@.backup_data, backup_info@.iterations as nat, store@),
            ) {
                (Ok((input, checksum)), Ok(bytes)) => input@ == bytes && checksum@
                    == backup_info@.sha256,
                (Err(e), Err(f)) => reports(e, f),
                _ => false,
            },
    {
        crate::backup::read_and_expand_backup(backup_info, store)
    }

    /// Restores a backup from the chunks at hand.  What comes back on
    /// success has the recorded SHA-256.
    pub fn restore(&self, backup_name: &str, backup_info: &BackupInfo, store: &ChunkStore) -> (target:
        Result<Vec<u8>, Error>)
        ensures
            restore_meets(
                target,
                restore_outcome(backup_name@, backup_info@, store@),
                backup_name@,
                backup_info@.sha256,
            ),
            target matches Ok(out) ==> sha256_of(out@) == backup_info@.sha256,
    {
        crate::backup::restore(backup_name, backup_info, store)
    }

    /// Restores through a cursor, a buffer at a time, what `input`, the
    /// backup's last instruction stream, expands to.
    pub fn restore_test(&self, input: &[u8], store: &ChunkStore) -> (target: Result<Vec<u8>, Error>)
        ensures
            computes(target, follow(input@, store@)),
    {
        crate::randaccess::read_to_end(input, store, crate::data::BUFFER_SIZE)
    }

    /// Opens a cursor over the backup whose last instruction stream is
    /// `input`.
    pub fn open_backup(&self, input: &[u8]) -> (cursor: Result<crate::randaccess::RandomAccess, Error>)
        ensures
            match cursor {
                Ok(c) => c.wf() && crate::backup::instructions_decode(input@) == Some(
                    c@.instructions,
                ) && c@.index == 0 && c@.pending.len() == 0,
                Err(e) => crate::backup::instructions_decode(input@).is_none() && e.kind
                    == ErrorKind::CorruptFile,
            },
    {
        crate::randaccess::RandomAccess::new(input)
    }

    /// Expands an instruction stream from the chunks at hand.
    pub fn follow_instructions(&self, input: &[u8], store: &ChunkStore) -> (target: Result<
        Vec<u8>,
        Error,
    >)
        ensures
            computes(target, follow(input@, store@)),
    {
        crate::backup::follow_instructions(input, store)
    }

    /// The bytes of a chunk that is at hand.  Fails with `NotFound`, naming
    /// the chunk, where it is not.
    pub fn get_chunk(&self, store: &ChunkStore, chunk_id: ChunkId) -> (data: Result<Vec<u8>, Error>)
        ensures
            match data {
                Ok(bytes) => store@.contains_key(chunk_id) && bytes@ == store@[chunk_id],
                Err(e) => !store@.contains_key(chunk_id) && reports(
                    e,
                    FollowError::MissingChunk(chunk_id),
                ),
            },
    {
        match store.get(&chunk_id) {
            Some(bytes) => Ok(crate::records::copy_bytes(bytes)),
            None => Err(missing_chunk(chunk_id)),
        }
    }

    /// Asks for a chunk that is not cached, for the holder of the ticket
    /// `waiter`.
    ///
    /// Fails with `NotFound`, naming the chunk, where the master index does
    /// not have it; the scheduler is then left as it was.  Otherwise the
    /// request goes to the scheduler for the chunk's bundle, and what the
    /// scheduler decides comes back.
    pub fn get_chunk_async_async(&mut self, chunk_id: ChunkId, waiter: u64) -> (decision: Result<
        Decision,
        Error,
    >)
        requires
            old(self).spec_index() is Some,
        ensures
            final(self).spec_index() == old(self).spec_index(),
            match decision {
                Ok(d) => old(self).spec_index()->0.contains_key(chunk_id) && (
                    final(self).spec_scheduler(),
                    d,
                ) == old(self).spec_scheduler().request(
                    chunk_id,
                    old(self).spec_index()->0[chunk_id].bundle_id,
                    waiter,
                ),
                Err(e) => !old(self).spec_index()->0.contains_key(chunk_id) && reports(
                    e,
                    FollowError::MissingChunk(chunk_id),
                ) && final(self).spec_scheduler() == old(self).spec_scheduler(),
            },
    {
        match self.index.get(&chunk_id) {
            Some(entry) => Ok(self.scheduler.request(chunk_id, entry.bundle_id(), waiter)),
            None => Err(missing_chunk(chunk_id)),
        }
    }

    /// Asks for a chunk that is not cached; as `get_chunk_async_async`.
    pub fn get_chunk_async(&mut self, chunk_id: ChunkId, waiter: u64) -> (decision: Result<
        Decision,
        Error,
    >)
        requires
            old(self).spec_index() is Some,
        ensures
            final(self).spec_index() == old(self).spec_index(),
            match decision {
                Ok(d) => old(self).spec_index()->0.contains_key(chunk_id) && (
                    final(self).spec_scheduler(),
                    d,
                ) == old(self).spec_scheduler().request(
                    chunk_id,
                    old(self).spec_index()->0[chunk_id].bundle_id,
                    waiter,
                ),
                Err(e) => !old(self).spec_index()->0.contains_key(chunk_id) && reports(
                    e,
                    FollowError::MissingChunk(chunk_id),
                ) && final(self).spec_scheduler() == old(self).spec_scheduler(),
            },
    {
        self.get_chunk_async_async(chunk_id, waiter)
    }

    /// Takes note that the read of a bundle has ended.
    pub fn bundle_loaded(&mut self, bundle_id: BundleId) -> (done: Option<Completion>)
        ensures
            final(self).spec_index() == old(self).spec_index(),
            final(self).spec_scheduler() == old(self).spec_scheduler().complete(bundle_id).0,
            match done {
                Some(c) => old(self).spec_scheduler().complete(bundle_id).1 == Some(c@),
                None => old(self).spec_scheduler().complete(bundle_id).1.is_none(),
            },
    {
        self.scheduler.complete(bundle_id)
    }

    /// The bundles that are being read and those that wait.
    pub fn job_status(&self) -> (status: JobStatus)
        ensures
            status.bundles_loading@ == self.spec_scheduler().loading.map_values(
                |w: crate::scheduler::WaitingSpec| w.bundle_id,
            ),
            status.bundles_to_load@ == self.spec_scheduler().queue.map_values(
                |w: crate::scheduler::WaitingSpec| w.bundle_id,
            ),
    {
        self.scheduler.job_status()
    }

    /// Where a chunk is to be found.  Fails with `NotFound`, naming the
    /// chunk, where the master index does not have it.
    pub fn get_index_entry(&self, chunk_id: ChunkId) -> (entry: Result<MasterIndexEntry, Error>)
        requires
            self.spec_index() is Some,
        ensures
            match entry {
                Ok(found) => self.spec_index()->0.contains_key(chunk_id) && found.bundle_id
                    == self.spec_index()->0[chunk_id].bundle_id && found.size
                    == self.spec_index()->0[chunk_id].size,
                Err(e) => !self.spec_index()->0.contains_key(chunk_id) && reports(
                    e,
                    FollowError::MissingChunk(chunk_id),
                ),
            },
    {
        match self.index.get(&chunk_id) {
            Some(found) => Ok(
                MasterIndexEntryData { bundle_id: found.bundle_id(), size: found.size() },
            ),
            None => Err(missing_chunk(chunk_id)),
        }
    }

    /// Whether a chunk is in the master index.
    pub fn has_chunk(&self, chunk_id: ChunkId) -> (present: bool)
        requires
            self.spec_index() is Some,
        ensures
            present == self.spec_index()->0.contains_key(chunk_id),
    {
        self.index.has_chunk(&chunk_id)
    }

    /// Checks one backup against the master index: `backup_chunks` are the
    /// chunks found in it, and `backup_expanded` says whether its expansion
    /// went through.
    pub fn check_backup(&self, backup_expanded: bool, backup_chunks: &IdList) -> (verdict:
        BackupVerdict)
        requires
            self.spec_index() is Some,
        ensures
            verdict.expanded == backup_expanded,
            verdict.missing_chunks@ == missing_of(backup_chunks.order(), self.spec_index()->0),
            verdict.total_chunks == backup_chunks.order().len(),
    {
        check_backup(backup_expanded, backup_chunks, &self.index)
    }

    /// Whether the master index has been loaded.
    pub fn indexes_loaded(&self) -> (loaded: bool)
        ensures
            loaded == (self.spec_index() is Some),
    {
        self.index.loaded()
    }

    /// The configuration that the repository was opened with.
    pub fn config(&self) -> (config: &RepositoryConfig)
        ensures
            *config == self.spec_config(),
    {
        &self.config
    }

    /// The path of the repository.
    pub fn path(&self) -> (path: &str)
        ensures
            path@ == self.spec_path(),
    {
        self.path.as_str()
    }

    /// The `info` record of the repository.
    pub fn storage_info(&self) -> (info: &StorageInfo)
        ensures
            *info == self.spec_storage_info(),
    {
        &self.storage_info
    }

    /// The key of the repository, if it is encrypted.
    pub fn encryption_key(&self) -> (key: Option<EncryptionKey>)
        ensures
            key == self.spec_encryption_key(),
    {
        self.encryption_key
    }

    /// The path of an index file.
    pub fn index_path(&self, index_id: IndexId) -> (path: String)
        ensures
            path@ == index_path_of(self.spec_path(), index_id),
    {
        let mut path = self.path.clone();
        path.append("/index/");
        let name = index_id.to_hex();
        path.append(name.as_str());
        path
    }

    /// The path of a bundle file.
    pub fn bundle_path(&self, bundle_id: BundleId) -> (path: String)
        ensures
            path@ == bundle_path_of(self.spec_path(), bundle_id),
    {
        let bytes = bundle_id.to_bytes();
        let group = encode_hex(slice_subrange(bytes.as_slice(), 0, 1));
        let name = bundle_id.to_hex();
        let mut path = self.path.clone();
        path.append("/bundles/");
        path.append(group.as_str());
        path.append("/");
        path.append(name.as_str());
        path
    }
}

} // verus!
