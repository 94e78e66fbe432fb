//! Where downloaded vocabularies are kept: the resolution of the cache and
//! data directories.

use vstd::prelude::*;

verus! {

/// The name of the environment variable that overrides the cache directory.
pub const WORDCHIPPER_CACHE_DIR: &'static str = "WORDCHIPPER_CACHE_DIR";

/// The name of the environment variable that overrides the data directory.
pub const WORDCHIPPER_DATA_DIR: &'static str = "WORDCHIPPER_DATA_DIR";

/// The directories that the system proposes for this project.
pub struct ProjectPaths {
    /// The project's cache directory.
    pub cache_dir: String,
    /// The project's data directory.
    pub data_dir: String,
}

/// `directories_next::ProjectDirs::from` for this project, with the cache
/// and data directories that it proposes. The answer depends on the user
/// and the environment, so nothing is claimed of it. A path that is not
/// UTF-8 comes as a string with the offending bytes replaced.
#[verifier::external_body]
pub fn wordchipper_project_dirs() -> (r: Option<ProjectPaths>) {
    directories_next::ProjectDirs::from("io", "crates", "wordchipper").map(
        |dirs| ProjectPaths {
            cache_dir: dirs.cache_dir().to_string_lossy().into_owned(),
            data_dir: dirs.data_dir().to_string_lossy().into_owned(),
        },
    )
}

/// The first of the three that is there: the path given, the value of the
/// environment variable, the system's proposal.
pub fn pick_dir(path: Option<String>, env_value: Option<String>, proposal: Option<String>) -> (r:
    Option<String>)
    ensures
        r == (if path is Some {
            path
        } else if env_value is Some {
            env_value
        } else {
            proposal
        }),
{
    match path {
        Some(p) => Some(p),
        None => match env_value {
            Some(v) => Some(v),
            None => proposal,
        },
    }
}

/// The cache directory: `path` if it is given, else `env_value`, the value
/// of the environment variable `WORDCHIPPER_CACHE_DIR`, if it is set, else
/// the cache directory that the system proposes, if it proposes any.
pub fn resolve_cache_dir(path: Option<String>, env_value: Option<String>) -> (r: Option<String>)
    ensures
        path is Some ==> r == path,
        path is None && env_value is Some ==> r == env_value,
{
    if path.is_some() || env_value.is_some() {
        pick_dir(path, env_value, None)
    } else {
        let proposal = match wordchipper_project_dirs() {
            Some(dirs) => Some(dirs.cache_dir),
            None => None,
        };
        pick_dir(path, env_value, proposal)
    }
}

/// The data directory: `path` if it is given, else `env_value`, the value
/// of the environment variable `WORDCHIPPER_DATA_DIR`, if it is set, else the
/// data directory that the system proposes, if it proposes any.
pub fn resolve_data_dir(path: Option<String>, env_value: Option<String>) -> (r: Option<String>)
    ensures
        path is Some ==> r == path,
        path is None && env_value is Some ==> r == env_value,
{
    if path.is_some() || env_value.is_some() {
        pick_dir(path, env_value, None)
    } else {
        let proposal = match wordchipper_project_dirs() {
            Some(dirs) => Some(dirs.data_dir),
            None => None,
        };
        pick_dir(path, env_value, proposal)
    }
}

/// Which directory could not be resolved.
#[derive(Clone, Copy, Debug, PartialEq, Eq, Structural)]
pub enum ResolveError {
    /// No cache directory is given, set or proposed.
    CacheDir,
    /// No data directory is given, set or proposed.
    DataDir,
}

impl ResolveError {
    /// The error in words.
    pub fn message(&self) -> (m: &'static str)
        ensures
            m@ == (match self {
                ResolveError::CacheDir => "Unable to resolve cache dir."@,
                ResolveError::DataDir => "Unable to resolve data dir."@,
            }),
    {
        match self {
            ResolveError::CacheDir => "Unable to resolve cache dir.",
            ResolveError::DataDir => "Unable to resolve data dir.",
        }
    }
}

/// The settings of a disk cache.
pub struct DiskDownloadCacheOptions {
    /// The cache directory, if one is chosen.
    pub cache_dir: Option<String>,
    /// The data directory, if one is chosen.
    pub data_dir: Option<String>,
}

impl DiskDownloadCacheOptions {
    /// Both directories are chosen.
    pub open spec fn resolved(&self) -> bool {
        self.cache_dir is Some && self.data_dir is Some
    }

    /// These settings with each directory that is not chosen taken from
    /// `proposal`.
    ///
    /// Fails with `CacheDir` where there is no cache directory then, else
    /// with `DataDir` where there is no data directory.
    pub fn resolve_with(self, cache_proposal: Option<String>, data_proposal: Option<String>) -> (r:
        Result<Self, ResolveError>)
        ensures
            r == (if self.cache_dir is None && cache_proposal is None {
                Err::<Self, ResolveError>(ResolveError::CacheDir)
            } else if self.data_dir is None && data_proposal is None {
                Err::<Self, ResolveError>(ResolveError::DataDir)
            } else {
                Ok::<Self, ResolveError>(
                    DiskDownloadCacheOptions {
                        cache_dir: if self.cache_dir is Some {
                            self.cache_dir
                        } else {
                            cache_proposal
                        },
                        data_dir: if self.data_dir is Some {
                            self.data_dir
                        } else {
                            data_proposal
                        },
                    },
                )
            }),
    {
        let cache_dir = pick_dir(self.cache_dir, None, cache_proposal);
        if cache_dir.is_none() {
            return Err(ResolveError::CacheDir);
        }
        let data_dir = pick_dir(self.data_dir, None, data_proposal);
        if data_dir.is_none() {
            return Err(ResolveError::DataDir);
        }
        Ok(DiskDownloadCacheOptions { cache_dir, data_dir })
    }

    /// These settings with each directory that is not chosen taken from the
    /// environment: `env_cache` and `env_data` are the values of the
    /// environment variables, if they are set; after them come the
    /// directories that the system proposes.
    ///
    /// A directory that is chosen stays. Fails where a directory is neither
    /// chosen nor set nor proposed.
    pub fn resolve(self, env_cache: Option<String>, env_data: Option<String>) -> (r: Result<
        Self,
        ResolveError,
    >)
        ensures
            r matches Ok(o) ==> o.resolved() && (self.cache_dir is Some ==> o.cache_dir
                == self.cache_dir) && (self.cache_dir is None && env_cache is Some ==> o.cache_dir
                == env_cache) && (self.data_dir is Some ==> o.data_dir == self.data_dir) && (
            self.data_dir is None && env_data is Some ==> o.data_dir == env_data),
            (self.cache_dir is Some || env_cache is Some) && (self.data_dir is Some || env_data
                is Some) ==> r is Ok,
            r == Err::<Self, ResolveError>(ResolveError::CacheDir) ==> self.cache_dir is None
                && env_cache is None,
            r == Err::<Self, ResolveError>(ResolveError::DataDir) ==> self.data_dir is None
                && env_data is None,
    {
        let cache_dir = resolve_cache_dir(self.cache_dir, env_cache);
        let data_dir = if cache_dir.is_some() {
            resolve_data_dir(self.data_dir, env_data)
        } else {
            None
        };
        DiskDownloadCacheOptions { cache_dir: None, data_dir: None }.resolve_with(
            cache_dir,
            data_dir,
        )
    }
}

impl Default for DiskDownloadCacheOptions {
    fn default() -> (o: Self)
        ensures
            o.cache_dir is None,
            o.data_dir is None,
    {
        DiskDownloadCacheOptions { cache_dir: None, data_dir: None }
    }
}

/// A disk cache for downloaded files.
pub struct DiskDownloadCache {
    options: DiskDownloadCacheOptions,
}

impl DiskDownloadCache {
    #[verifier::type_invariant]
    spec fn is_resolved(self) -> bool {
        self.options.resolved()
    }

    /// The settings of the cache.
    pub closed spec fn options_spec(&self) -> DiskDownloadCacheOptions {
        self.options
    }

    /// A disk cache with the settings `options`, resolved against the
    /// environment as `DiskDownloadCacheOptions::resolve` does.
    pub fn init(
        options: DiskDownloadCacheOptions,
        env_cache: Option<String>,
        env_data: Option<String>,
    ) -> (r: Result<Self, ResolveError>)
        ensures
            r matches Ok(c) ==> c.options_spec().resolved() && (options.cache_dir is Some
                ==> c.options_spec().cache_dir == options.cache_dir) && (options.cache_dir is None
                && env_cache is Some ==> c.options_spec().cache_dir == env_cache) && (
            options.data_dir is Some ==> c.options_spec().data_dir == options.data_dir) && (
            options.data_dir is None && env_data is Some ==> c.options_spec().data_dir
                == env_data),
            (options.cache_dir is Some || env_cache is Some) && (options.data_dir is Some
                || env_data is Some) ==> r is Ok,
    {
        match options.resolve(env_cache, env_data) {
            Ok(options) => Ok(DiskDownloadCache { options }),
            Err(e) => Err(e),
        }
    }

    /// The resolved settings of the cache.
    pub fn options(&self) -> (o: &DiskDownloadCacheOptions)
        ensures
            *o == self.options_spec(),
            o.resolved(),
    {
        proof {
            use_type_invariant(self);
        }
        &self.options
    }
}

} // verus!
