//! The cache of what earlier runs found.
//!
//! The cache remembers, per file and per group, what was seen when it was
//! last verified. An entry is valid while it is younger than the time to
//! live of the cache; a time stamp that lies in the future is never valid.

use vstd::prelude::*;
use vstd::bytes::{spec_u64_to_le_bytes, u64_to_le_bytes};
use vstd::string::StringSliceAdditionalSpecFns;
use crate::clock::unix_seconds;
use crate::digest::{sha256_hex, sha256_hex_of};
use crate::table::Table;

verus! {

/// Bytes taken from each end of a file for its hash.
pub const HASH_SAMPLE: usize = 1024;

/// Files of more than this many bytes have their end hashed too.
pub const HASH_TAIL_FROM: u64 = 2048;

/// What was seen of one file.
#[derive(Debug, Clone)]
pub struct FileInfo {
    pub path: String,
    pub size: u64,
    /// Seconds since the Unix epoch at which the file was last modified.
    pub modified: u64,
    pub hash: String,
    pub last_verified: u64,
}

/// What the cache holds of one file.
#[derive(Debug, Clone)]
pub struct CacheEntry {
    pub file_info: FileInfo,
    pub is_complete: bool,
    pub last_verified: u64,
}

/// What the cache holds of one group.
#[derive(Debug, Clone)]
pub struct GroupCache {
    pub files: Vec<FileInfo>,
    pub is_complete: bool,
    pub last_verified: u64,
}

/// What was seen of one file, as a mathematical value.
pub struct InfoView {
    pub path: Seq<char>,
    pub size: u64,
    pub modified: u64,
    pub hash: Seq<char>,
    pub last_verified: u64,
}

impl FileInfo {
    pub open spec fn view(&self) -> InfoView {
        InfoView {
            path: self.path@,
            size: self.size,
            modified: self.modified,
            hash: self.hash@,
            last_verified: self.last_verified,
        }
    }

    /// A copy of the record.
    pub fn copy(&self) -> (copy: FileInfo)
        ensures
            copy@ == self@,
    {
        FileInfo {
            path: self.path.clone(),
            size: self.size,
            modified: self.modified,
            hash: self.hash.clone(),
            last_verified: self.last_verified,
        }
    }
}

/// The views of a list of file records.
pub open spec fn info_views(files: Seq<FileInfo>) -> Seq<InfoView> {
    Seq::new(files.len(), |i: int| files[i]@)
}

/// What the cache holds of one file, as a mathematical value.
pub struct EntryView {
    pub file_info: InfoView,
    pub is_complete: bool,
    pub last_verified: u64,
}

impl CacheEntry {
    pub open spec fn view(&self) -> EntryView {
        EntryView {
            file_info: self.file_info@,
            is_complete: self.is_complete,
            last_verified: self.last_verified,
        }
    }
}

/// What the cache holds of one group, as a mathematical value.
pub struct GroupView {
    pub files: Seq<InfoView>,
    pub is_complete: bool,
    pub last_verified: u64,
}

impl GroupCache {
    pub open spec fn view(&self) -> GroupView {
        GroupView {
            files: info_views(self.files@),
            is_complete: self.is_complete,
            last_verified: self.last_verified,
        }
    }

    /// A copy of the record.
    pub fn copy(&self) -> (copy: GroupCache)
        ensures
            copy@ == self@,
    {
        let mut files: Vec<FileInfo> = Vec::new();
        let mut i: usize = 0;
        while i < self.files.len()
            invariant
                i <= self.files.len(),
                files.len() == i,
                forall|k: int| 0 <= k < i ==> files@[k]@ == self.files@[k]@,
            decreases self.files.len() - i,
        {
            files.push(self.files[i].copy());
            i += 1;
        }
        assert(info_views(files@) =~= info_views(self.files@));
        GroupCache { files, is_complete: self.is_complete, last_verified: self.last_verified }
    }
}

/// The view of an optional cache entry.
pub open spec fn entry_view(entry: Option<CacheEntry>) -> Option<EntryView> {
    match entry {
        Some(e) => Some(e@),
        None => None,
    }
}

/// The view of an optional group record.
pub open spec fn group_view(group: Option<GroupCache>) -> Option<GroupView> {
    match group {
        Some(g) => Some(g@),
        None => None,
    }
}

/// Is what was verified at `timestamp` still valid at `now`, with `ttl`
/// seconds to live? It is while its age is below `ttl`; a time stamp after
/// `now` is not valid.
pub open spec fn fresh(now: u64, timestamp: u64, ttl: u64) -> bool {
    timestamp <= now && now - timestamp < ttl
}

/// Is what was verified at `timestamp` still valid at `now`, with `ttl`
/// seconds to live?
pub fn is_fresh(now: u64, timestamp: u64, ttl: u64) -> (valid: bool)
    ensures
        valid == fresh(now, timestamp, ttl),
{
    timestamp <= now && now - timestamp < ttl
}

/// The bytes that stand for a file in its hash: its path, its length and,
/// where known, its modification time, both as eight bytes with the least
/// significant first, then the beginning of its content and, for a file of
/// more than `HASH_TAIL_FROM` bytes, its end.
pub open spec fn hash_input(
    path: Seq<u8>,
    size: u64,
    modified: Option<u64>,
    head: Seq<u8>,
    tail: Seq<u8>,
) -> Seq<u8> {
    path + spec_u64_to_le_bytes(size) + (match modified {
        Some(seconds) => spec_u64_to_le_bytes(seconds),
        None => Seq::empty(),
    }) + head + (if size > HASH_TAIL_FROM {
        tail
    } else {
        Seq::empty()
    })
}

/// Appends `bytes` to `buffer`.
fn append_bytes(buffer: &mut Vec<u8>, bytes: &[u8])
    ensures
        final(buffer)@ == old(buffer)@ + bytes@,
{
    let mut i: usize = 0;
    while i < bytes.len()
        invariant
            i <= bytes.len(),
            buffer@ == old(buffer)@ + bytes@.take(i as int),
        decreases bytes.len() - i,
    {
        buffer.push(bytes[i]);
        assert(bytes@.take(i + 1) =~= bytes@.take(i as int).push(bytes@[i as int]));
        assert(old(buffer)@ + bytes@.take(i + 1) =~= (old(buffer)@ + bytes@.take(i as int)).push(
            bytes@[i as int],
        ));
        i += 1;
    }
    assert(bytes@.take(bytes.len() as int) =~= bytes@);
}

/// Does the hash of a file of `size` bytes take in the end of the file?
pub fn wants_tail(size: u64) -> (wanted: bool)
    ensures
        wanted == (size > HASH_TAIL_FROM),
{
    size > HASH_TAIL_FROM
}

/// The hash that stands for a file in the cache.
///
/// `head` is the beginning of the content and `tail` its end; `tail` counts
/// only for a file of more than `HASH_TAIL_FROM` bytes.
pub fn hash_file_facts(path: &str, size: u64, modified: Option<u64>, head: &[u8], tail: &[u8]) -> (hash:
    String)
    ensures
        hash@ == sha256_hex(hash_input(path.spec_bytes(), size, modified, head@, tail@)),
{
    let mut input: Vec<u8> = Vec::new();
    append_bytes(&mut input, path.as_bytes());
    let size_bytes = u64_to_le_bytes(size);
    append_bytes(&mut input, size_bytes.as_slice());
    match modified {
        Some(seconds) => {
            let time_bytes = u64_to_le_bytes(seconds);
            append_bytes(&mut input, time_bytes.as_slice());
        },
        None => {
            assert(input@ + Seq::<u8>::empty() =~= input@);
        },
    }
    append_bytes(&mut input, head);
    if size > HASH_TAIL_FROM {
        append_bytes(&mut input, tail);
    } else {
        assert(input@ + Seq::<u8>::empty() =~= input@);
    }
    assert(input@ =~= hash_input(path.spec_bytes(), size, modified, head@, tail@));
    sha256_hex_of(input.as_slice())
}

/// `after` holds what of `before` is still valid at `now`.
pub open spec fn cleaned(before: FileCache, after: FileCache, now: u64) -> bool {
    &&& forall|k: Seq<char>|
        #[trigger] after.file_entry(k) == match before.file_entry(k) {
            Some(e) => if fresh(now, e.last_verified, before.ttl()) {
                Some(e)
            } else {
                None
            },
            None => None,
        }
    &&& forall|k: Seq<char>|
        #[trigger] after.group_entry(k) == match before.group_entry(k) {
            Some(g) => if fresh(now, g.last_verified, before.ttl()) {
                Some(g)
            } else {
                None
            },
            None => None,
        }
}

/// Does what the cache holds of a group still stand? It does when every
/// file of the group is found with the size and the modification time that
/// the cache holds. `current` gives both for each file of the group, in
/// their order, or `None` for a file that cannot be looked at.
pub open spec fn stands(group: GroupView, current: Seq<Option<(u64, u64)>>) -> bool {
    current.len() == group.files.len() && forall|i: int|
        0 <= i < group.files.len() ==> #[trigger] current[i] == Some(
            (group.files[i].size, group.files[i].modified),
        )
}

/// Does what the cache holds of a group still stand?
pub fn still_stands(group: &GroupCache, current: &Vec<Option<(u64, u64)>>) -> (same: bool)
    ensures
        same == stands(group@, current@),
{
    if current.len() != group.files.len() {
        return false;
    }
    let mut i: usize = 0;
    while i < group.files.len()
        invariant
            i <= group.files.len(),
            current.len() == group.files.len(),
            forall|k: int|
                0 <= k < i ==> #[trigger] current@[k] == Some(
                    (group@.files[k].size, group@.files[k].modified),
                ),
        decreases group.files.len() - i,
    {
        assert(group@.files[i as int] == group.files@[i as int]@);
        match current[i] {
            Some((size, modified)) => {
                if size != group.files[i].size || modified != group.files[i].modified {
                    return false;
                }
            },
            None => {
                return false;
            },
        }
        i += 1;
    }
    true
}

/// The cache of one target tree.
pub struct FileCache {
    cache_dir: String,
    file_cache: Table<CacheEntry>,
    group_cache: Table<GroupCache>,
    cache_ttl: u64,
}

impl FileCache {
    /// The directory in which the cache is kept.
    pub closed spec fn dir(&self) -> Seq<char> {
        self.cache_dir@
    }

    /// Seconds for which an entry stays valid.
    pub closed spec fn ttl(&self) -> u64 {
        self.cache_ttl
    }

    /// What the cache holds of the file at `path`.
    pub closed spec fn file_entry(&self, path: Seq<char>) -> Option<EntryView> {
        entry_view(self.file_cache.get(path))
    }

    /// What the cache holds of the group under `key`.
    pub closed spec fn group_entry(&self, key: Seq<char>) -> Option<GroupView> {
        group_view(self.group_cache.get(key))
    }

    /// Number of files in the cache.
    pub closed spec fn files(&self) -> nat {
        self.file_cache.spec_keys().len()
    }

    /// Number of groups in the cache.
    pub closed spec fn groups(&self) -> nat {
        self.group_cache.spec_keys().len()
    }

    /// The cache is consistent: no file and no group occurs twice.
    pub closed spec fn wf(&self) -> bool {
        self.file_cache.wf() && self.group_cache.wf()
    }

    /// An empty cache kept in `cache_dir` whose entries live `cache_ttl` seconds.
    pub fn new(cache_dir: String, cache_ttl: u64) -> (cache: FileCache)
        ensures
            cache.wf(),
            cache.dir() == cache_dir@,
            cache.ttl() == cache_ttl,
            cache.files() == 0,
            cache.groups() == 0,
            forall|k: Seq<char>| cache.file_entry(k) is None,
            forall|k: Seq<char>| cache.group_entry(k) is None,
    {
        FileCache { cache_dir, file_cache: Table::new(), group_cache: Table::new(), cache_ttl }
    }

    /// The directory in which the cache is kept.
    pub fn cache_dir(&self) -> (dir: &String)
        ensures
            dir@ == self.dir(),
    {
        &self.cache_dir
    }

    /// Seconds for which an entry stays valid.
    pub fn cache_ttl(&self) -> (ttl: u64)
        ensures
            ttl == self.ttl(),
    {
        self.cache_ttl
    }

    /// Number of files in the cache.
    pub fn file_count(&self) -> (n: usize)
        requires
            self.wf(),
        ensures
            n == self.files(),
    {
        self.file_cache.len()
    }

    /// Number of groups in the cache.
    pub fn group_count(&self) -> (n: usize)
        requires
            self.wf(),
        ensures
            n == self.groups(),
    {
        self.group_cache.len()
    }

    /// What was seen of the file at `path`, if the cache holds it.
    pub fn get_file_info(&self, path: &str) -> (info: Option<FileInfo>)
        requires
            self.wf(),
        ensures
            match info {
                Some(info) => self.file_entry(path@) matches Some(e) && e.file_info == info@,
                None => self.file_entry(path@) is None,
            },
    {
        match self.file_cache.find(path) {
            Some(i) => Some(self.file_cache.value_at(i).file_info.copy()),
            None => None,
        }
    }

    /// What the cache holds of the file at `path`.
    pub fn get_file_entry(&self, path: &str) -> (entry: Option<CacheEntry>)
        requires
            self.wf(),
        ensures
            entry_view(entry) == self.file_entry(path@),
    {
        match self.file_cache.find(path) {
            Some(i) => {
                let e = self.file_cache.value_at(i);
                Some(
                    CacheEntry {
                        file_info: e.file_info.copy(),
                        is_complete: e.is_complete,
                        last_verified: e.last_verified,
                    },
                )
            },
            None => None,
        }
    }

    /// What the cache holds of the group under `group_key`.
    pub fn get_group_cache(&self, group_key: &str) -> (group: Option<GroupCache>)
        requires
            self.wf(),
        ensures
            group_view(group) == self.group_entry(group_key@),
    {
        match self.group_cache.find(group_key) {
            Some(i) => Some(self.group_cache.value_at(i).copy()),
            None => None,
        }
    }

    /// Is what was verified at `timestamp` still valid at `now`?
    pub fn is_cache_valid_at(&self, now: u64, timestamp: u64) -> (valid: bool)
        ensures
            valid == fresh(now, timestamp, self.ttl()),
    {
        is_fresh(now, timestamp, self.cache_ttl)
    }

    /// Is what was verified at `timestamp` still valid by the clock? With no
    /// time to live nothing is.
    pub fn is_cache_valid(&self, timestamp: u64) -> (valid: bool)
        ensures
            self.ttl() == 0 ==> !valid,
            exists|now: u64| valid == fresh(now, timestamp, self.ttl()),
    {
        let now = unix_seconds();
        let valid = self.is_cache_valid_at(now, timestamp);
        assert(valid == fresh(now, timestamp, self.ttl()));
        valid
    }

    /// Notes what was seen of a file, as verified at `now`, in place of
    /// what the cache held of it.
    pub fn update_file_cache_at(&mut self, file_info: FileInfo, is_complete: bool, now: u64)
        requires
            old(self).wf(),
        ensures
            final(self).wf(),
            final(self).dir() == old(self).dir(),
            final(self).ttl() == old(self).ttl(),
            forall|k: Seq<char>|
                #[trigger] final(self).file_entry(k) == if k == file_info.path@ {
                    Some(EntryView { file_info: file_info@, is_complete, last_verified: now })
                } else {
                    old(self).file_entry(k)
                },
            forall|k: Seq<char>| #[trigger] final(self).group_entry(k) == old(self).group_entry(k),
    {
        let key = file_info.path.clone();
        let entry = CacheEntry { file_info, is_complete, last_verified: now };
        self.file_cache.put(key, entry);
    }

    /// Notes what was seen of a file, as verified now by the clock.
    pub fn update_file_cache(&mut self, file_info: FileInfo, is_complete: bool)
        requires
            old(self).wf(),
        ensures
            final(self).wf(),
            final(self).dir() == old(self).dir(),
            final(self).ttl() == old(self).ttl(),
            final(self).file_entry(file_info.path@) matches Some(e) && e.file_info == file_info@
                && e.is_complete == is_complete,
            forall|k: Seq<char>|
                k != file_info.path@ ==> #[trigger] final(self).file_entry(k) == old(
                    self,
                ).file_entry(k),
            forall|k: Seq<char>| #[trigger] final(self).group_entry(k) == old(self).group_entry(k),
    {
        let now = unix_seconds();
        self.update_file_cache_at(file_info, is_complete, now);
    }

    /// Notes what was seen of a group, as verified at `now`, in place of
    /// what the cache held of it.
    pub fn update_group_cache_at(
        &mut self,
        group_key: String,
        files: Vec<FileInfo>,
        is_complete: bool,
        now: u64,
    )
        requires
            old(self).wf(),
        ensures
            final(self).wf(),
            final(self).dir() == old(self).dir(),
            final(self).ttl() == old(self).ttl(),
            forall|k: Seq<char>|
                #[trigger] final(self).group_entry(k) == if k == group_key@ {
                    Some(
                        GroupView { files: info_views(files@), is_complete, last_verified: now },
                    )
                } else {
                    old(self).group_entry(k)
                },
            forall|k: Seq<char>| #[trigger] final(self).file_entry(k) == old(self).file_entry(k),
    {
        let group = GroupCache { files, is_complete, last_verified: now };
        self.group_cache.put(group_key, group);
    }

    /// Notes what was seen of a group, as verified now by the clock.
    pub fn update_group_cache(&mut self, group_key: String, files: Vec<FileInfo>, is_complete: bool)
        requires
            old(self).wf(),
        ensures
            final(self).wf(),
            final(self).dir() == old(self).dir(),
            final(self).ttl() == old(self).ttl(),
            final(self).group_entry(group_key@) matches Some(g) && g.files == info_views(files@)
                && g.is_complete == is_complete,
            forall|k: Seq<char>|
                k != group_key@ ==> #[trigger] final(self).group_entry(k) == old(
                    self,
                ).group_entry(k),
            forall|k: Seq<char>| #[trigger] final(self).file_entry(k) == old(self).file_entry(k),
    {
        let now = unix_seconds();
        self.update_group_cache_at(group_key, files, is_complete, now);
    }

    /// Puts back an entry as it was stored, time stamp and all.
    pub fn restore_file_entry(&mut self, entry: CacheEntry)
        requires
            old(self).wf(),
        ensures
            final(self).wf(),
            final(self).dir() == old(self).dir(),
            final(self).ttl() == old(self).ttl(),
            forall|k: Seq<char>|
                #[trigger] final(self).file_entry(k) == if k == entry.file_info.path@ {
                    Some(entry@)
                } else {
                    old(self).file_entry(k)
                },
            forall|k: Seq<char>| #[trigger] final(self).group_entry(k) == old(self).group_entry(k),
    {
        let key = entry.file_info.path.clone();
        self.file_cache.put(key, entry);
    }

    /// Puts back a group as it was stored, time stamp and all.
    pub fn restore_group(&mut self, group_key: String, group: GroupCache)
        requires
            old(self).wf(),
        ensures
            final(self).wf(),
            final(self).dir() == old(self).dir(),
            final(self).ttl() == old(self).ttl(),
            forall|k: Seq<char>|
                #[trigger] final(self).group_entry(k) == if k == group_key@ {
                    Some(group@)
                } else {
                    old(self).group_entry(k)
                },
            forall|k: Seq<char>| #[trigger] final(self).file_entry(k) == old(self).file_entry(k),
    {
        self.group_cache.put(group_key, group);
    }

    /// Drops every entry that is no longer valid at `now` and keeps the others.
    pub fn cleanup_expired_at(&mut self, now: u64)
        requires
            old(self).wf(),
        ensures
            final(self).wf(),
            final(self).dir() == old(self).dir(),
            final(self).ttl() == old(self).ttl(),
            forall|k: Seq<char>|
                #[trigger] final(self).file_entry(k) == match old(self).file_entry(k) {
                    Some(e) => if fresh(now, e.last_verified, old(self).ttl()) {
                        Some(e)
                    } else {
                        None
                    },
                    None => None,
                },
            forall|k: Seq<char>|
                #[trigger] final(self).group_entry(k) == match old(self).group_entry(k) {
                    Some(g) => if fresh(now, g.last_verified, old(self).ttl()) {
                        Some(g)
                    } else {
                        None
                    },
                    None => None,
                },
    {
        let ttl = self.cache_ttl;
        let mut keep_files: Vec<bool> = Vec::new();
        let mut i: usize = 0;
        let file_total = self.file_cache.len();
        proof {
            self.file_cache.lemma_wf();
            self.group_cache.lemma_wf();
        }
        while i < file_total
            invariant
                i <= file_total,
                self.file_cache.wf(),
                file_total == self.file_cache.spec_keys().len(),
                file_total == self.file_cache.spec_values().len(),
                keep_files.len() == i,
                forall|j: int|
                    0 <= j < i ==> keep_files@[j] == fresh(
                        now,
                        self.file_cache.spec_values()[j].last_verified,
                        ttl,
                    ),
            decreases file_total - i,
        {
            keep_files.push(is_fresh(now, self.file_cache.value_at(i).last_verified, ttl));
            i += 1;
        }
        self.file_cache.keep_marked(&keep_files);
        let mut keep_groups: Vec<bool> = Vec::new();
        let mut g: usize = 0;
        let group_total = self.group_cache.len();
        while g < group_total
            invariant
                g <= group_total,
                self.group_cache.wf(),
                group_total == self.group_cache.spec_keys().len(),
                group_total == self.group_cache.spec_values().len(),
                keep_groups.len() == g,
                forall|j: int|
                    0 <= j < g ==> keep_groups@[j] == fresh(
                        now,
                        self.group_cache.spec_values()[j].last_verified,
                        ttl,
                    ),
            decreases group_total - g,
        {
            keep_groups.push(is_fresh(now, self.group_cache.value_at(g).last_verified, ttl));
            g += 1;
        }
        self.group_cache.keep_marked(&keep_groups);
        proof {
            assert forall|k: Seq<char>|
                #[trigger] self.file_entry(k) == match old(self).file_entry(k) {
                    Some(e) => if fresh(now, e.last_verified, old(self).ttl()) {
                        Some(e)
                    } else {
                        None
                    },
                    None => None,
                } by {
                crate::table::lemma_position(old(self).file_cache.spec_keys(), k);
                assert(self.file_cache.get(k) == self.file_cache.get(k));
            }
            assert forall|k: Seq<char>|
                #[trigger] self.group_entry(k) == match old(self).group_entry(k) {
                    Some(g) => if fresh(now, g.last_verified, old(self).ttl()) {
                        Some(g)
                    } else {
                        None
                    },
                    None => None,
                } by {
                crate::table::lemma_position(old(self).group_cache.spec_keys(), k);
                assert(self.group_cache.get(k) == self.group_cache.get(k));
            }
        }
    }

    /// Drops every entry that is no longer valid by the clock, whatever
    /// time it shows, and keeps the others.
    pub fn cleanup_expired(&mut self)
        requires
            old(self).wf(),
        ensures
            final(self).wf(),
            final(self).dir() == old(self).dir(),
            final(self).ttl() == old(self).ttl(),
            exists|now: u64| #[trigger] cleaned(*old(self), *final(self), now),
    {
        let now = unix_seconds();
        self.cleanup_expired_at(now);
        assert(cleaned(*old(self), *self, now));
    }

    /// The paths of the files in the cache.
    pub fn file_keys(&self) -> (keys: Vec<String>)
        requires
            self.wf(),
        ensures
            keys.len() == self.files(),
            forall|i: int| 0 <= i < keys.len() ==> self.file_entry(#[trigger] keys@[i]@) is Some,
    {
        self.file_cache.keys()
    }

    /// The keys of the groups in the cache.
    pub fn group_keys(&self) -> (keys: Vec<String>)
        requires
            self.wf(),
        ensures
            keys.len() == self.groups(),
            forall|i: int| 0 <= i < keys.len() ==> self.group_entry(#[trigger] keys@[i]@) is Some,
    {
        self.group_cache.keys()
    }

    /// The hash that stands for a file in the cache.
    pub fn compute_file_hash(
        &self,
        path: &str,
        size: u64,
        modified: Option<u64>,
        head: &[u8],
        tail: &[u8],
    ) -> (hash: String)
        ensures
            hash@ == sha256_hex(hash_input(path.spec_bytes(), size, modified, head@, tail@)),
    {
        hash_file_facts(path, size, modified, head, tail)
    }

    /// The record of a file as it was just seen: its hash computed, not yet
    /// verified. A file whose modification time is unknown counts as
    /// modified at the epoch.
    pub fn get_file_info_with_hash(
        &self,
        path: &str,
        size: u64,
        modified: Option<u64>,
        head: &[u8],
        tail: &[u8],
    ) -> (info: Option<FileInfo>)
        ensures
            info matches Some(info) && info@ == (InfoView {
                path: path@,
                size,
                modified: match modified {
                    Some(seconds) => seconds,
                    None => 0,
                },
                hash: sha256_hex(hash_input(path.spec_bytes(), size, modified, head@, tail@)),
                last_verified: 0,
            }),
    {
        let hash = self.compute_file_hash(path, size, modified, head, tail);
        Some(
            FileInfo {
                path: path.to_owned(),
                size,
                modified: match modified {
                    Some(seconds) => seconds,
                    None => 0,
                },
                hash,
                last_verified: 0,
            },
        )
    }
}

} // verus!
