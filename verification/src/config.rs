//! Application configuration and shared state.
//!
//! Configuration values come from three sources with rising priority:
//! defaults, a JSON file, and command-line arguments. Reading files and
//! parsing the command line is I/O and lives in the embedding application;
//! the merge rules live here.

use vstd::prelude::*;
use crate::cache::GraphCache;

verus! {

/// Settings of the markdown preview: how many leading lines to skip.
#[derive(Debug, Clone)]
pub struct PreviewerConfig {
    pub offset: usize,
}

impl Default for PreviewerConfig {
    /// The default preview skips nothing.
    fn default() -> (r: PreviewerConfig)
        ensures
            r.offset == 0,
    {
        PreviewerConfig { offset: 0 }
    }
}

/// All configurable parameters: the root directory of the document tree, the
/// template used when a phantom node is turned into a file, and the preview
/// settings.
#[derive(Debug, Clone)]
pub struct AppConfig {
    pub root_dir: Option<String>,
    pub template_phantom_node: Option<String>,
    pub previewer: PreviewerConfig,
}

/// The mathematical value of an `AppConfig`.
#[verifier::ext_equal]
pub ghost struct ConfigV {
    pub root_dir: Option<Seq<char>>,
    pub template_phantom_node: Option<Seq<char>>,
    pub offset: nat,
}

impl View for AppConfig {
    type V = ConfigV;

    open spec fn view(&self) -> ConfigV {
        ConfigV {
            root_dir: self.root_dir.deep_view(),
            template_phantom_node: self.template_phantom_node.deep_view(),
            offset: self.previewer.offset as nat,
        }
    }
}

impl Default for AppConfig {
    /// The default configuration: nothing set.
    fn default() -> (r: AppConfig)
        ensures
            r.root_dir is None,
            r.template_phantom_node is None,
            r.previewer.offset == 0,
    {
        AppConfig {
            root_dir: None,
            template_phantom_node: None,
            previewer: PreviewerConfig { offset: 0 },
        }
    }
}

/// The recognized command-line arguments: an explicit configuration file, and
/// overrides for the root directory and the phantom-node template.
#[derive(Debug, Clone)]
pub struct CliArgs {
    pub config: Option<String>,
    pub root_dir: Option<String>,
    pub template_phantom_node: Option<String>,
}

fn clone_opt_string(s: &Option<String>) -> (r: Option<String>)
    ensures
        r.deep_view() == s.deep_view(),
{
    match s {
        Some(x) => Some(x.clone()),
        None => None,
    }
}

impl AppConfig {
    /// The configuration the command line alone gives: its overrides, with
    /// default preview settings.
    pub fn from_cli(args: &CliArgs) -> (r: AppConfig)
        ensures
            r@.root_dir == args.root_dir.deep_view(),
            r@.template_phantom_node == args.template_phantom_node.deep_view(),
            r@.offset == 0,
    {
        AppConfig {
            root_dir: clone_opt_string(&args.root_dir),
            template_phantom_node: clone_opt_string(&args.template_phantom_node),
            previewer: PreviewerConfig { offset: 0 },
        }
    }

    /// Merges two configurations: for each override field a set value in
    /// `override_config` wins, else the base value holds; preview settings
    /// come from the base (the file) only.
    pub fn merge(base: AppConfig, override_config: AppConfig) -> (r: AppConfig)
        ensures
            r@.root_dir == (if override_config.root_dir is Some {
                override_config@.root_dir
            } else {
                base@.root_dir
            }),
            r@.template_phantom_node == (if override_config.template_phantom_node is Some {
                override_config@.template_phantom_node
            } else {
                base@.template_phantom_node
            }),
            r@.offset == base@.offset,
    {
        AppConfig {
            root_dir: match override_config.root_dir {
                Some(s) => Some(s),
                None => base.root_dir,
            },
            template_phantom_node: match override_config.template_phantom_node {
                Some(s) => Some(s),
                None => base.template_phantom_node,
            },
            previewer: base.previewer,
        }
    }
}

/// The application's shared state: the current configuration and the graph
/// cache. The embedding application wraps it for concurrent access; every
/// event is processed against it as one atomic read-compute-mutate unit.
pub struct AppState {
    pub config: AppConfig,
    pub graph_cache: GraphCache,
}

impl AppState {
    /// A state with the given configuration and an empty cache.
    pub fn new(config: AppConfig) -> (r: AppState)
        ensures
            r.config@ == config@,
            r.graph_cache.wf(),
            r.graph_cache@.entries.len() == 0,
            r.graph_cache@.phantoms.is_empty(),
    {
        AppState { config, graph_cache: GraphCache::new() }
    }

    /// A state with the given configuration and a pre-populated cache.
    pub fn with_cache(config: AppConfig, cache: GraphCache) -> (r: AppState)
        ensures
            r.config@ == config@,
            r.graph_cache == cache,
    {
        AppState { config, graph_cache: cache }
    }

    /// A snapshot of the current configuration.
    pub fn get_config(&self) -> (r: AppConfig)
        ensures
            r@ == self.config@,
    {
        AppConfig {
            root_dir: clone_opt_string(&self.config.root_dir),
            template_phantom_node: clone_opt_string(&self.config.template_phantom_node),
            previewer: PreviewerConfig { offset: self.config.previewer.offset },
        }
    }

    /// Replaces the configuration; the cache is untouched.
    pub fn update_config(&mut self, config: AppConfig)
        ensures
            final(self).config == config,
            final(self).graph_cache == old(self).graph_cache,
    {
        self.config = config;
    }
}

} // verus!
