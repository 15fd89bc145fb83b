use vstd::prelude::*;

verus! {

/// A platform context: it runs the native event loop that captures the keyboard.
pub trait Context {
    fn eventloop(&self);
}

/// The directory that espanso keeps its files in, under the platform's data and
/// configuration directories.
pub const ESPANSO_DIR_NAME: &'static str = "espanso";

/// The configuration directory beside the executable (portable mode), and the one in the home
/// directory (the legacy location).
pub const DOT_ESPANSO_DIR_NAME: &'static str = ".espanso";

/// The directory of the installed packages, in the configuration or the data directory.
pub const PACKAGES_FOLDER_NAME: &'static str = "packages";

/// Where the configuration directory is.
#[derive(Debug, Clone, Copy, PartialEq, Eq, Structural)]
pub enum ConfigDirSource {
    /// `.espanso` beside the executable.
    Portable,
    /// `.espanso` in the home directory.
    Legacy,
    /// `espanso` in the platform's configuration directory (created where missing).
    Default,
}

/// The next step in finding the configuration directory: a directory to test for existence,
/// or the answer.
#[derive(Debug, Clone, Copy, PartialEq, Eq, Structural)]
pub enum ConfigDirStep {
    /// Test whether `.espanso` exists beside the executable.
    CheckPortable,
    /// Test whether `.espanso` exists in the home directory.
    CheckLegacy,
    /// The configuration directory is found.
    Use(ConfigDirSource),
}

/// Where the package directory is.
#[derive(Debug, Clone, Copy, PartialEq, Eq, Structural)]
pub enum PackageDirSource {
    /// `packages` in the configuration directory.
    Legacy,
    /// `packages` in the data directory (created where missing).
    Data,
}

/// The first step: the portable directory is tested where the executable's path has a parent,
/// else the legacy one.
pub fn config_dir_first_step(exe_has_parent: bool) -> (step: ConfigDirStep)
    ensures
        step == (if exe_has_parent {
            ConfigDirStep::CheckPortable
        } else {
            ConfigDirStep::CheckLegacy
        }),
{
    if exe_has_parent {
        ConfigDirStep::CheckPortable
    } else {
        ConfigDirStep::CheckLegacy
    }
}

/// The step after the directory that `step` tests was found to exist (`exists`) or not: an
/// existing portable directory is used, else the legacy one is tested; an existing legacy
/// directory is used, else the default one. A found answer stays.
pub fn config_dir_next_step(step: ConfigDirStep, exists: bool) -> (next: ConfigDirStep)
    ensures
        next == (match step {
            ConfigDirStep::CheckPortable => if exists {
                ConfigDirStep::Use(ConfigDirSource::Portable)
            } else {
                ConfigDirStep::CheckLegacy
            },
            ConfigDirStep::CheckLegacy => if exists {
                ConfigDirStep::Use(ConfigDirSource::Legacy)
            } else {
                ConfigDirStep::Use(ConfigDirSource::Default)
            },
            ConfigDirStep::Use(source) => ConfigDirStep::Use(source),
        }),
{
    match step {
        ConfigDirStep::CheckPortable => {
            if exists {
                ConfigDirStep::Use(ConfigDirSource::Portable)
            } else {
                ConfigDirStep::CheckLegacy
            }
        },
        ConfigDirStep::CheckLegacy => {
            if exists {
                ConfigDirStep::Use(ConfigDirSource::Legacy)
            } else {
                ConfigDirStep::Use(ConfigDirSource::Default)
            }
        },
        ConfigDirStep::Use(source) => ConfigDirStep::Use(source),
    }
}

/// The package directory: the legacy one where it exists, else the one in the data directory.
pub fn package_dir_source(legacy_exists: bool) -> (source: PackageDirSource)
    ensures
        source == (if legacy_exists {
            PackageDirSource::Legacy
        } else {
            PackageDirSource::Data
        }),
{
    if legacy_exists {
        PackageDirSource::Legacy
    } else {
        PackageDirSource::Data
    }
}

/// The configuration directory that the steps settle on, given whether the executable's path
/// has a parent and whether the portable and the legacy directories exist.
pub open spec fn chosen_config_dir(exe_has_parent: bool, portable_exists: bool, legacy_exists: bool) -> ConfigDirSource {
    if exe_has_parent && portable_exists {
        ConfigDirSource::Portable
    } else if legacy_exists {
        ConfigDirSource::Legacy
    } else {
        ConfigDirSource::Default
    }
}

/// The step after `step`, answering the test it asks for from the two existence flags.
pub open spec fn config_dir_step_spec(step: ConfigDirStep, portable_exists: bool, legacy_exists: bool) -> ConfigDirStep {
    match step {
        ConfigDirStep::CheckPortable => if portable_exists {
            ConfigDirStep::Use(ConfigDirSource::Portable)
        } else {
            ConfigDirStep::CheckLegacy
        },
        ConfigDirStep::CheckLegacy => if legacy_exists {
            ConfigDirStep::Use(ConfigDirSource::Legacy)
        } else {
            ConfigDirStep::Use(ConfigDirSource::Default)
        },
        ConfigDirStep::Use(source) => ConfigDirStep::Use(source),
    }
}

/// The search settles within two tests, and prefers the portable directory to the legacy one,
/// and the legacy one to the default: answering each test truthfully from the first step on,
/// the second step after it is `Use` of `chosen_config_dir`.
pub proof fn lemma_config_dir_search(exe_has_parent: bool, portable_exists: bool, legacy_exists: bool)
    ensures
        ({
            let first = if exe_has_parent {
                ConfigDirStep::CheckPortable
            } else {
                ConfigDirStep::CheckLegacy
            };
            let second = config_dir_step_spec(first, portable_exists, legacy_exists);
            config_dir_step_spec(second, portable_exists, legacy_exists) == ConfigDirStep::Use(
                chosen_config_dir(exe_has_parent, portable_exists, legacy_exists),
            )
        }),
{
}

} // verus!
