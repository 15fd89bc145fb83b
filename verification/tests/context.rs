use espanso::context::{
    config_dir_first_step, config_dir_next_step, package_dir_source, ConfigDirSource,
    ConfigDirStep, PackageDirSource, DOT_ESPANSO_DIR_NAME, ESPANSO_DIR_NAME, PACKAGES_FOLDER_NAME,
};

fn search(has_parent: bool, portable: bool, legacy: bool) -> ConfigDirSource {
    let mut step = config_dir_first_step(has_parent);
    loop {
        step = match step {
            ConfigDirStep::CheckPortable => config_dir_next_step(step, portable),
            ConfigDirStep::CheckLegacy => config_dir_next_step(step, legacy),
            ConfigDirStep::Use(source) => return source,
        };
    }
}

#[test]
fn first_step_tests_portable_only_with_a_parent() {
    assert_eq!(config_dir_first_step(true), ConfigDirStep::CheckPortable);
    assert_eq!(config_dir_first_step(false), ConfigDirStep::CheckLegacy);
}

#[test]
fn next_steps() {
    assert_eq!(
        config_dir_next_step(ConfigDirStep::CheckPortable, true),
        ConfigDirStep::Use(ConfigDirSource::Portable)
    );
    assert_eq!(config_dir_next_step(ConfigDirStep::CheckPortable, false), ConfigDirStep::CheckLegacy);
    assert_eq!(
        config_dir_next_step(ConfigDirStep::CheckLegacy, true),
        ConfigDirStep::Use(ConfigDirSource::Legacy)
    );
    assert_eq!(
        config_dir_next_step(ConfigDirStep::CheckLegacy, false),
        ConfigDirStep::Use(ConfigDirSource::Default)
    );
    assert_eq!(
        config_dir_next_step(ConfigDirStep::Use(ConfigDirSource::Legacy), false),
        ConfigDirStep::Use(ConfigDirSource::Legacy)
    );
}

#[test]
fn portable_wins_over_legacy_and_legacy_over_default() {
    assert_eq!(search(true, true, true), ConfigDirSource::Portable);
    assert_eq!(search(true, false, true), ConfigDirSource::Legacy);
    assert_eq!(search(false, true, true), ConfigDirSource::Legacy);
    assert_eq!(search(true, false, false), ConfigDirSource::Default);
    assert_eq!(search(false, false, false), ConfigDirSource::Default);
}

#[test]
fn package_dir_prefers_the_legacy_location() {
    assert_eq!(package_dir_source(true), PackageDirSource::Legacy);
    assert_eq!(package_dir_source(false), PackageDirSource::Data);
}

#[test]
fn directory_names() {
    assert_eq!(ESPANSO_DIR_NAME, "espanso");
    assert_eq!(DOT_ESPANSO_DIR_NAME, ".espanso");
    assert_eq!(PACKAGES_FOLDER_NAME, "packages");
}
