//! Persisted settings and Valheim install-path resolution.
use vstd::prelude::*;
use crate::paths::{file_name, file_name_of, join, joined, parent, parent_of};
use crate::text::{chars_eq, chars_of, lowercase, to_lowercase};

verus! {

/// Settings remembered between runs.
#[derive(Debug, Clone)]
pub struct Config {
    /// Valheim server root, its BepInEx directory, or the plugins directory —
    /// all three spellings are accepted and normalised on use.
    pub install_dir: Option<String>,
    /// Where `--update` fetches new builds: "owner/repo" or a URL.
    pub update_source: Option<String>,
    /// docker-compose.yml or .env that receives the MODS list.
    pub compose_file: Option<String>,
    /// Which compose service to edit; defaults to the first with an
    /// `environment:` block.
    pub compose_service: Option<String>,
}

impl Default for Config {
    fn default() -> (c: Config)
        ensures
            c.install_dir is None,
            c.update_source is None,
            c.compose_file is None,
            c.compose_service is None,
    {
        Config { install_dir: None, update_source: None, compose_file: None, compose_service: None }
    }
}

impl Config {
    /// Values given on the command line become the new defaults; true when
    /// anything changed and the settings should be saved.
    pub fn apply_overrides(
        &mut self,
        install_dir: Option<String>,
        compose_file: Option<String>,
        compose_service: Option<String>,
        update_source: Option<String>,
    ) -> (dirty: bool)
        ensures
            dirty == (install_dir is Some || compose_file is Some || compose_service is Some || update_source is Some),
            final(self).install_dir == (if install_dir is Some { install_dir } else { old(self).install_dir }),
            final(self).compose_file == (if compose_file is Some { compose_file } else { old(self).compose_file }),
            final(self).compose_service == (if compose_service is Some { compose_service } else { old(self).compose_service }),
            final(self).update_source == (if update_source is Some { update_source } else { old(self).update_source }),
    {
        let mut dirty = false;
        if install_dir.is_some() {
            self.install_dir = install_dir;
            dirty = true;
        }
        if compose_file.is_some() {
            self.compose_file = compose_file;
            dirty = true;
        }
        if compose_service.is_some() {
            self.compose_service = compose_service;
            dirty = true;
        }
        if update_source.is_some() {
            self.update_source = update_source;
            dirty = true;
        }
        dirty
    }
}

/// Resolved destination directories for an install.
#[derive(Debug, Clone)]
pub struct Layout {
    /// Game/server root — where BepInEx itself unpacks.
    pub root: String,
    /// The BepInEx directory holding plugins, config, patchers.
    pub bepinex: String,
}

/// A plugins directory was named that has nothing above it.
#[derive(Debug, Clone, Copy, PartialEq, Eq)]
pub enum LayoutError {
    PluginsWithoutParent,
}

impl LayoutError {
    pub fn message(&self) -> (m: String)
        ensures
            m@ == "plugins directory has no parent"@,
    {
        String::from_str("plugins directory has no parent")
    }
}

/// The lower-cased final component of a path, or nothing.
pub open spec fn lowered_name(p: Seq<char>) -> Seq<char> {
    match file_name_of(p) {
        Some(n) => lowercase(n),
        None => Seq::empty(),
    }
}

/// A parent, or the empty path.
pub open spec fn parent_or_empty(p: Seq<char>) -> Seq<char> {
    match parent_of(p) {
        Some(q) => q,
        None => Seq::empty(),
    }
}

/// (root, BepInEx directory) for a path naming the plugins directory, the
/// BepInEx directory, or the server root.
pub open spec fn spec_resolve(p: Seq<char>) -> Option<(Seq<char>, Seq<char>)> {
    let name = lowered_name(p);
    if name == "plugins"@ {
        match parent_of(p) {
            None => None,
            Some(bepinex) => Some((parent_or_empty(bepinex), bepinex)),
        }
    } else if name == "bepinex"@ {
        Some((parent_or_empty(p), p))
    } else {
        Some((p, joined(p, "BepInEx"@)))
    }
}

impl Layout {
    /// Accepts the server root, the BepInEx dir, or the plugins dir. Whether
    /// the root exists is for the caller to check against the filesystem.
    pub fn resolve(path: &str) -> (r: Result<Layout, LayoutError>)
        ensures
            match r {
                Ok(l) => spec_resolve(path@) == Some((l.root@, l.bepinex@)),
                Err(_) => spec_resolve(path@) is None,
            },
    {
        let name: Vec<char> = match file_name(path) {
            Some(n) => chars_of(to_lowercase(n.as_str()).as_str()),
            None => Vec::new(),
        };
        if chars_eq(&name, &chars_of("plugins")) {
            let bepinex = match parent(path) {
                Some(b) => b,
                None => return Err(LayoutError::PluginsWithoutParent),
            };
            let root = match parent(bepinex.as_str()) {
                Some(r) => r,
                None => String::new(),
            };
            Ok(Layout { root, bepinex })
        } else if chars_eq(&name, &chars_of("bepinex")) {
            let root = match parent(path) {
                Some(r) => r,
                None => String::new(),
            };
            Ok(Layout { root, bepinex: String::from_str(path) })
        } else {
            Ok(Layout { root: String::from_str(path), bepinex: join(path, "BepInEx") })
        }
    }

    pub fn plugins(&self) -> (p: String)
        ensures
            p@ == joined(self.bepinex@, "plugins"@),
    {
        join(self.bepinex.as_str(), "plugins")
    }
}

} // verus!
