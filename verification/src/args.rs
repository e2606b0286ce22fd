use vstd::prelude::*;

verus! {

/// A group of command-line options that an application may expose.
#[derive(Clone, Copy, Debug, PartialEq, Eq, Structural, Hash)]
pub enum ArgType {
    /// Options of the configuration.
    Config,
    /// Options of logging.
    Logging,
    /// Options of the connections to the database.
    Mysql,
    /// Options of the access to the blob store.
    Blobstore,
    /// Options of the cache.
    Cachelib,
    /// Options of the runtime.
    Runtime,
    /// Options of the tunables.
    Tunables,
    /// Options that select a repository.
    Repo,
    /// Options of scrubbing blob stores.
    Scrub,
    /// Options that select a source and a target repository.
    SourceAndTargetRepos,
    /// Options that select a source repository.
    SourceRepo,
    /// Options of a graceful shutdown.
    ShutdownTimeouts,
    /// Options of logging to scuba.
    ScubaLogging,
    /// Options that disable hooks.
    DisableHooks,
    /// Options of the fb303 service.
    Fb303,
}

/// How many repositories the command line has to select.
#[derive(Clone, Copy, Debug, PartialEq, Eq, Structural, Hash)]
pub enum RepoRequirement {
    ExactlyOne,
    AtLeastOne,
}

/// Text of a boolean as it is written on a command line.
pub fn bool_as_str(v: bool) -> (r: &'static str)
    ensures
        r@ == (if v {
            "true"@
        } else {
            "false"@
        }),
{
    if v {
        "true"
    } else {
        "false"
    }
}

/// A set of groups of options.
#[derive(Clone, Copy, Debug)]
pub struct ArgTypes {
    pub config: bool,
    pub logging: bool,
    pub mysql: bool,
    pub blobstore: bool,
    pub cachelib: bool,
    pub runtime: bool,
    pub tunables: bool,
    pub repo: bool,
    pub scrub: bool,
    pub source_and_target_repos: bool,
    pub source_repo: bool,
    pub shutdown_timeouts: bool,
    pub scuba_logging: bool,
    pub disable_hooks: bool,
    pub fb303: bool,
}

impl ArgTypes {
    /// Whether the group is in the set.
    pub open spec fn has(&self, t: ArgType) -> bool {
        match t {
            ArgType::Config => self.config,
            ArgType::Logging => self.logging,
            ArgType::Mysql => self.mysql,
            ArgType::Blobstore => self.blobstore,
            ArgType::Cachelib => self.cachelib,
            ArgType::Runtime => self.runtime,
            ArgType::Tunables => self.tunables,
            ArgType::Repo => self.repo,
            ArgType::Scrub => self.scrub,
            ArgType::SourceAndTargetRepos => self.source_and_target_repos,
            ArgType::SourceRepo => self.source_repo,
            ArgType::ShutdownTimeouts => self.shutdown_timeouts,
            ArgType::ScubaLogging => self.scuba_logging,
            ArgType::DisableHooks => self.disable_hooks,
            ArgType::Fb303 => self.fb303,
        }
    }

    /// The set without groups.
    pub fn empty() -> (r: ArgTypes)
        ensures
            forall|t: ArgType| !r.has(t),
    {
        ArgTypes {
            config: false,
            logging: false,
            mysql: false,
            blobstore: false,
            cachelib: false,
            runtime: false,
            tunables: false,
            repo: false,
            scrub: false,
            source_and_target_repos: false,
            source_repo: false,
            shutdown_timeouts: false,
            scuba_logging: false,
            disable_hooks: false,
            fb303: false,
        }
    }

    /// The groups that an application exposes unless it says otherwise.
    pub open spec fn is_default(t: ArgType) -> bool {
        match t {
            ArgType::Blobstore => true,
            ArgType::Cachelib => true,
            ArgType::Config => true,
            ArgType::Logging => true,
            ArgType::Mysql => true,
            ArgType::Repo => true,
            ArgType::Runtime => true,
            ArgType::Tunables => true,
            _ => false,
        }
    }

    /// The set of the default groups.
    pub fn default_set() -> (r: ArgTypes)
        ensures
            forall|t: ArgType| r.has(t) == Self::is_default(t),
    {
        ArgTypes {
            config: true,
            logging: true,
            mysql: true,
            blobstore: true,
            cachelib: true,
            runtime: true,
            tunables: true,
            repo: true,
            scrub: false,
            source_and_target_repos: false,
            source_repo: false,
            shutdown_timeouts: false,
            scuba_logging: false,
            disable_hooks: false,
            fb303: false,
        }
    }

    /// Tells whether the group is in the set.
    pub fn contains(&self, t: ArgType) -> (r: bool)
        ensures
            r == self.has(t),
    {
        match t {
            ArgType::Config => self.config,
            ArgType::Logging => self.logging,
            ArgType::Mysql => self.mysql,
            ArgType::Blobstore => self.blobstore,
            ArgType::Cachelib => self.cachelib,
            ArgType::Runtime => self.runtime,
            ArgType::Tunables => self.tunables,
            ArgType::Repo => self.repo,
            ArgType::Scrub => self.scrub,
            ArgType::SourceAndTargetRepos => self.source_and_target_repos,
            ArgType::SourceRepo => self.source_repo,
            ArgType::ShutdownTimeouts => self.shutdown_timeouts,
            ArgType::ScubaLogging => self.scuba_logging,
            ArgType::DisableHooks => self.disable_hooks,
            ArgType::Fb303 => self.fb303,
        }
    }

    /// Puts the group in the set, or takes it out.
    #[verifier::rlimit(100)]
    pub fn set(&mut self, t: ArgType, on: bool)
        ensures
            forall|u: ArgType|
                final(self).has(u) == (if u == t {
                    on
                } else {
                    old(self).has(u)
                }),
    {
        let now = ArgTypes {
            config: if t == ArgType::Config { on } else { self.config },
            logging: if t == ArgType::Logging { on } else { self.logging },
            mysql: if t == ArgType::Mysql { on } else { self.mysql },
            blobstore: if t == ArgType::Blobstore { on } else { self.blobstore },
            cachelib: if t == ArgType::Cachelib { on } else { self.cachelib },
            runtime: if t == ArgType::Runtime { on } else { self.runtime },
            tunables: if t == ArgType::Tunables { on } else { self.tunables },
            repo: if t == ArgType::Repo { on } else { self.repo },
            scrub: if t == ArgType::Scrub { on } else { self.scrub },
            source_and_target_repos: if t == ArgType::SourceAndTargetRepos {
                on
            } else {
                self.source_and_target_repos
            },
            source_repo: if t == ArgType::SourceRepo { on } else { self.source_repo },
            shutdown_timeouts: if t == ArgType::ShutdownTimeouts { on } else { self.shutdown_timeouts },
            scuba_logging: if t == ArgType::ScubaLogging { on } else { self.scuba_logging },
            disable_hooks: if t == ArgType::DisableHooks { on } else { self.disable_hooks },
            fb303: if t == ArgType::Fb303 { on } else { self.fb303 },
        };
        proof {
            assert forall|u: ArgType|
                now.has(u) == (if u == t {
                    on
                } else {
                    self.has(u)
                }) by {
                match u {
                    ArgType::Config => {},
                    ArgType::Logging => {},
                    ArgType::Mysql => {},
                    ArgType::Blobstore => {},
                    ArgType::Cachelib => {},
                    ArgType::Runtime => {},
                    ArgType::Tunables => {},
                    ArgType::Repo => {},
                    ArgType::Scrub => {},
                    ArgType::SourceAndTargetRepos => {},
                    ArgType::SourceRepo => {},
                    ArgType::ShutdownTimeouts => {},
                    ArgType::ScubaLogging => {},
                    ArgType::DisableHooks => {},
                    ArgType::Fb303 => {},
                }
            }
        }
        *self = now;
    }

    /// Puts the group in the set.
    pub fn insert(&mut self, t: ArgType)
        ensures
            forall|u: ArgType| final(self).has(u) == (u == t || old(self).has(u)),
    {
        self.set(t, true);
    }

    /// Takes the group out of the set.
    pub fn remove(&mut self, t: ArgType)
        ensures
            forall|u: ArgType| final(self).has(u) == (u != t && old(self).has(u)),
    {
        self.set(t, false);
    }
}

/// What lives as long as the application: what the options of the command
/// line are read with.
#[derive(Debug)]
pub struct MononokeAppData {
    pub repo_required: Option<RepoRequirement>,
    pub default_scuba_dataset: Option<String>,
}

/// Collects what an application wants of its command line.
#[derive(Debug)]
pub struct MononokeAppBuilder {
    /// The name of the application.
    pub name: String,
    /// Whether the help leaves out the advanced options.
    pub hide_advanced_args: bool,
    /// Whether the command line has to select a repository, and how many.
    pub repo_required: Option<RepoRequirement>,
    /// The groups of options that the application exposes.
    pub arg_types: ArgTypes,
    /// Whether storage is read-only unless the command line says otherwise.
    pub readonly_storage_default: bool,
    /// Whether large objects are compressed for the cache unless the
    /// command line says otherwise.
    pub blobstore_cachelib_attempt_zstd_default: bool,
    /// The limit of reads per second unless the command line gives one.
    pub blobstore_read_qps_default: Option<u32>,
    /// The scuba dataset unless the command line gives one.
    pub default_scuba_dataset: Option<String>,
    /// The seconds of grace for keys when scrubbing, unless the command
    /// line gives them.
    pub scrub_grace_secs_default: Option<u64>,
}

/// One section of the options of a command line, as `sections` lists them.
#[derive(Clone, Copy, Debug, PartialEq, Eq, Structural)]
pub enum Section {
    /// Where the configuration is.
    Config,
    /// Which repository; `required` says whether one has to be given,
    /// `multiple` whether several may be, and `source_only` whether the
    /// repository stands against a target only, the source being one of
    /// the options.
    Repo { required: bool, multiple: bool, source_only: bool },
    /// Which source repository.
    SourceRepo,
    /// Which target repository.
    TargetRepo,
    Logging,
    Mysql,
    /// The blob store; with the options of scrubbing where `scrub` is set.
    Blobstore { scrub: bool },
    /// The cache; `hide_advanced` says whether the help leaves out the
    /// advanced options.
    Cachelib { hide_advanced: bool },
    Runtime,
    Tunables,
    ShutdownTimeouts,
    /// Logging to scuba; with the option to turn the default dataset off
    /// where there is one.
    ScubaLogging { has_default: bool },
    DisableHooks,
    Fb303,
}

impl MononokeAppBuilder {
    /// The builder of an application that exposes the default groups.
    pub fn new(name: String) -> (r: MononokeAppBuilder)
        ensures
            r.name == name,
            !r.hide_advanced_args,
            r.repo_required is None,
            forall|t: ArgType| r.arg_types.has(t) == ArgTypes::is_default(t),
            !r.readonly_storage_default,
            r.blobstore_cachelib_attempt_zstd_default,
            r.blobstore_read_qps_default is None,
            r.default_scuba_dataset is None,
            r.scrub_grace_secs_default is None,
    {
        MononokeAppBuilder {
            name,
            hide_advanced_args: false,
            repo_required: None,
            arg_types: ArgTypes::default_set(),
            readonly_storage_default: false,
            blobstore_cachelib_attempt_zstd_default: true,
            blobstore_read_qps_default: None,
            default_scuba_dataset: None,
            scrub_grace_secs_default: None,
        }
    }

    /// The help leaves out the advanced options.
    pub fn with_advanced_args_hidden(self) -> (r: Self)
        ensures
            r == (MononokeAppBuilder { hide_advanced_args: true, ..self }),
    {
        let mut r = self;
        r.hide_advanced_args = true;
        r
    }

    /// The application works on all repositories: no option selects one.
    pub fn with_all_repos(self) -> (r: Self)
        ensures
            forall|t: ArgType| r.arg_types.has(t) == (t != ArgType::Repo && self.arg_types.has(t)),
            r == (MononokeAppBuilder { arg_types: r.arg_types, ..self }),
    {
        let mut r = self;
        r.arg_types.remove(ArgType::Repo);
        r
    }

    /// The command line has to select a repository.
    pub fn with_repo_required(self, requirement: RepoRequirement) -> (r: Self)
        ensures
            forall|t: ArgType| r.arg_types.has(t) == (t == ArgType::Repo || self.arg_types.has(t)),
            r == (MononokeAppBuilder {
                arg_types: r.arg_types,
                repo_required: Some(requirement),
                ..self
            }),
    {
        let mut r = self;
        r.arg_types.insert(ArgType::Repo);
        r.repo_required = Some(requirement);
        r
    }

    /// The application exposes the group as well.
    pub fn with_arg_type(self, t: ArgType) -> (r: Self)
        ensures
            forall|u: ArgType| r.arg_types.has(u) == (u == t || self.arg_types.has(u)),
            r == (MononokeAppBuilder { arg_types: r.arg_types, ..self }),
    {
        let mut r = self;
        r.arg_types.insert(t);
        r
    }

    /// The application works on a source and a target repository.
    pub fn with_source_and_target_repos(self) -> (r: Self)
        ensures
            forall|u: ArgType|
                r.arg_types.has(u) == (u == ArgType::SourceAndTargetRepos || self.arg_types.has(u)),
            r == (MononokeAppBuilder { arg_types: r.arg_types, ..self }),
    {
        self.with_arg_type(ArgType::SourceAndTargetRepos)
    }

    /// The application works on one repository and knows of a source.
    pub fn with_source_repos(self) -> (r: Self)
        ensures
            forall|u: ArgType| r.arg_types.has(u) == (u == ArgType::SourceRepo || self.arg_types.has(u)),
            r == (MononokeAppBuilder { arg_types: r.arg_types, ..self }),
    {
        self.with_arg_type(ArgType::SourceRepo)
    }

    /// The application has options of a graceful shutdown.
    pub fn with_shutdown_timeout_args(self) -> (r: Self)
        ensures
            forall|u: ArgType|
                r.arg_types.has(u) == (u == ArgType::ShutdownTimeouts || self.arg_types.has(u)),
            r == (MononokeAppBuilder { arg_types: r.arg_types, ..self }),
    {
        self.with_arg_type(ArgType::ShutdownTimeouts)
    }

    /// The application has options of logging to scuba.
    pub fn with_scuba_logging_args(self) -> (r: Self)
        ensures
            forall|u: ArgType| r.arg_types.has(u) == (u == ArgType::ScubaLogging || self.arg_types.has(u)),
            r == (MononokeAppBuilder { arg_types: r.arg_types, ..self }),
    {
        self.with_arg_type(ArgType::ScubaLogging)
    }

    /// The application has options that disable hooks.
    pub fn with_disabled_hooks_args(self) -> (r: Self)
        ensures
            forall|u: ArgType| r.arg_types.has(u) == (u == ArgType::DisableHooks || self.arg_types.has(u)),
            r == (MononokeAppBuilder { arg_types: r.arg_types, ..self }),
    {
        self.with_arg_type(ArgType::DisableHooks)
    }

    /// The application has options of the fb303 service.
    pub fn with_fb303_args(self) -> (r: Self)
        ensures
            forall|u: ArgType| r.arg_types.has(u) == (u == ArgType::Fb303 || self.arg_types.has(u)),
            r == (MononokeAppBuilder { arg_types: r.arg_types, ..self }),
    {
        self.with_arg_type(ArgType::Fb303)
    }

    /// The scuba dataset unless the command line gives one.
    pub fn with_default_scuba_dataset(self, default: String) -> (r: Self)
        ensures
            r == (MononokeAppBuilder { default_scuba_dataset: Some(default), ..self }),
    {
        let mut r = self;
        r.default_scuba_dataset = Some(default);
        r
    }

    /// The application exposes these groups as well.
    pub fn with_arg_types(self, types: &Vec<ArgType>) -> (r: Self)
        ensures
            forall|u: ArgType| r.arg_types.has(u) == (types@.contains(u) || self.arg_types.has(u)),
            r == (MononokeAppBuilder { arg_types: r.arg_types, ..self }),
    {
        let mut r = self;
        let mut i: usize = 0;
        while i < types.len()
            invariant
                i <= types@.len(),
                r == (MononokeAppBuilder { arg_types: r.arg_types, ..self }),
                forall|u: ArgType|
                    r.arg_types.has(u) == (self.arg_types.has(u) || exists|k: int|
                        0 <= k < i && types@[k] == u),
            decreases types@.len() - i,
        {
            r.arg_types.insert(types[i]);
            i += 1;
        }
        r
    }

    /// The application does not expose these groups.
    pub fn without_arg_types(self, types: &Vec<ArgType>) -> (r: Self)
        ensures
            forall|u: ArgType| r.arg_types.has(u) == (!types@.contains(u) && self.arg_types.has(u)),
            r == (MononokeAppBuilder { arg_types: r.arg_types, ..self }),
    {
        let mut r = self;
        let mut i: usize = 0;
        while i < types.len()
            invariant
                i <= types@.len(),
                r == (MononokeAppBuilder { arg_types: r.arg_types, ..self }),
                forall|u: ArgType|
                    r.arg_types.has(u) == (self.arg_types.has(u) && !exists|k: int|
                        0 <= k < i && types@[k] == u),
            decreases types@.len() - i,
        {
            r.arg_types.remove(types[i]);
            i += 1;
        }
        r
    }

    /// Storage is read-only, or not, unless the command line says otherwise.
    pub fn with_readonly_storage_default(self, v: bool) -> (r: Self)
        ensures
            r == (MononokeAppBuilder { readonly_storage_default: v, ..self }),
    {
        let mut r = self;
        r.readonly_storage_default = v;
        r
    }

    /// Large objects are compressed for the cache, or not, unless the
    /// command line says otherwise.
    pub fn with_blobstore_cachelib_attempt_zstd_default(self, d: bool) -> (r: Self)
        ensures
            r == (MononokeAppBuilder { blobstore_cachelib_attempt_zstd_default: d, ..self }),
    {
        let mut r = self;
        r.blobstore_cachelib_attempt_zstd_default = d;
        r
    }

    /// The limit of reads per second unless the command line gives one.
    pub fn with_blobstore_read_qps_default(self, d: Option<u32>) -> (r: Self)
        ensures
            r == (MononokeAppBuilder { blobstore_read_qps_default: d, ..self }),
    {
        let mut r = self;
        r.blobstore_read_qps_default = d;
        r
    }

    /// The seconds of grace for keys when scrubbing, unless the command line
    /// gives them.
    pub fn with_scrub_grace_secs_default(self, d: Option<u64>) -> (r: Self)
        ensures
            r == (MononokeAppBuilder { scrub_grace_secs_default: d, ..self }),
    {
        let mut r = self;
        r.scrub_grace_secs_default = d;
        r
    }

    /// The sections that the command line of what was collected has, in
    /// order: each section is there exactly when its group is exposed; the
    /// sections of the source and the target repository come with that of
    /// the repository only.
    pub open spec fn sections_of(&self) -> Seq<Section> {
        let t = self.arg_types;
        let s0 = add_if(Seq::empty(), t.config, Section::Config);
        let s1 = add_if(
            s0,
            t.repo,
            Section::Repo {
                required: self.repo_required is Some,
                multiple: self.repo_required == Some(RepoRequirement::AtLeastOne),
                source_only: t.source_repo,
            },
        );
        let s2 = add_if(s1, t.repo && (t.source_repo || t.source_and_target_repos), Section::SourceRepo);
        let s3 = add_if(s2, t.repo && t.source_and_target_repos, Section::TargetRepo);
        let s4 = add_if(s3, t.logging, Section::Logging);
        let s5 = add_if(s4, t.mysql, Section::Mysql);
        let s6 = add_if(s5, t.blobstore, Section::Blobstore { scrub: t.scrub });
        let s7 = add_if(s6, t.cachelib, Section::Cachelib { hide_advanced: self.hide_advanced_args });
        let s8 = add_if(s7, t.runtime, Section::Runtime);
        let s9 = add_if(s8, t.tunables, Section::Tunables);
        let s10 = add_if(s9, t.shutdown_timeouts, Section::ShutdownTimeouts);
        let s11 = add_if(
            s10,
            t.scuba_logging,
            Section::ScubaLogging { has_default: self.default_scuba_dataset is Some },
        );
        let s12 = add_if(s11, t.disable_hooks, Section::DisableHooks);
        add_if(s12, t.fb303, Section::Fb303)
    }

    /// The sections of the command line, in the order in which their
    /// options are added, and what lives as long as the application.
    pub fn build(self) -> (r: (Vec<Section>, MononokeAppData, ArgTypes))
        ensures
            r.0@ == self.sections_of(),
            r.1.repo_required == self.repo_required,
            r.1.default_scuba_dataset == self.default_scuba_dataset,
            r.2 == self.arg_types,
    {
        let t = self.arg_types;
        let mut out: Vec<Section> = Vec::new();
        let multiple = match self.repo_required {
            Some(RepoRequirement::AtLeastOne) => true,
            _ => false,
        };
        push_if(&mut out, t.config, Section::Config);
        push_if(
            &mut out,
            t.repo,
            Section::Repo { required: self.repo_required.is_some(), multiple, source_only: t.source_repo },
        );
        push_if(&mut out, t.repo && (t.source_repo || t.source_and_target_repos), Section::SourceRepo);
        push_if(&mut out, t.repo && t.source_and_target_repos, Section::TargetRepo);
        push_if(&mut out, t.logging, Section::Logging);
        push_if(&mut out, t.mysql, Section::Mysql);
        push_if(&mut out, t.blobstore, Section::Blobstore { scrub: t.scrub });
        push_if(&mut out, t.cachelib, Section::Cachelib { hide_advanced: self.hide_advanced_args });
        push_if(&mut out, t.runtime, Section::Runtime);
        push_if(&mut out, t.tunables, Section::Tunables);
        push_if(&mut out, t.shutdown_timeouts, Section::ShutdownTimeouts);
        push_if(
            &mut out,
            t.scuba_logging,
            Section::ScubaLogging { has_default: self.default_scuba_dataset.is_some() },
        );
        push_if(&mut out, t.disable_hooks, Section::DisableHooks);
        push_if(&mut out, t.fb303, Section::Fb303);
        let data = MononokeAppData {
            repo_required: self.repo_required,
            default_scuba_dataset: self.default_scuba_dataset,
        };
        (out, data, t)
    }
}

/// The list with the section at its end where the condition holds.
pub open spec fn add_if(s: Seq<Section>, cond: bool, x: Section) -> Seq<Section> {
    if cond {
        s.push(x)
    } else {
        s
    }
}

fn push_if(out: &mut Vec<Section>, cond: bool, x: Section)
    ensures
        final(out)@ == add_if(old(out)@, cond, x),
{
    if cond {
        out.push(x);
    }
}

} // verus!
