use vstd::prelude::*;
use vstd::string::*;
use crate::package::{PackageInfo, PackageManifest};
use crate::version::Version;

verus! {

#[verifier::external_type_specification]
#[verifier::external_body]
#[verifier::reject_recursive_types(T)]
#[verifier::reject_recursive_types(S)]
pub struct ExIndexSet<T, S>(indexmap::IndexSet<T, S>);

pub assume_specification<T>[ indexmap::IndexSet::<T>::new ]() -> indexmap::IndexSet<T>;

/// The window size the GUI opens with.
#[derive(Clone, Copy, Debug, PartialEq, Eq, Structural)]
pub struct WindowSize {
    pub width: u32,
    pub height: u32,
}

impl Default for WindowSize {
    fn default() -> (r: WindowSize)
        ensures
            r == (WindowSize { width: 1300, height: 800 }),
    {
        WindowSize { width: 1300, height: 800 }
    }
}

pub fn theme_default() -> (r: String)
    ensures
        r@ == "system"@,
{
    String::from_str("system")
}

pub fn backup_default() -> (r: String)
    ensures
        r@ == "default"@,
{
    String::from_str("default")
}

pub fn project_sorting_default() -> (r: String)
    ensures
        r@ == "lastModified"@,
{
    String::from_str("lastModified")
}

/// The update channel: "stable" or "beta".
pub fn release_channel_default() -> (r: String)
    ensures
        r@ == "stable"@,
{
    String::from_str("stable")
}

/// The GUI language for a locale tag, where one of its prefixes is known.
pub open spec fn language_of(locale: Seq<char>) -> Option<Seq<char>> {
    if "en"@.is_prefix_of(locale) {
        Some("en"@)
    } else if "de"@.is_prefix_of(locale) {
        Some("de"@)
    } else if "ja"@.is_prefix_of(locale) {
        Some("ja"@)
    } else if "zh"@.is_prefix_of(locale) {
        Some("zh_hans"@)
    } else {
        None
    }
}

/// The language of the first locale that names a known one, else English.
pub open spec fn language_for(locales: Seq<Seq<char>>) -> Seq<char>
    decreases locales.len(),
{
    if locales.len() == 0 {
        "en"@
    } else {
        match language_of(locales[0]) {
            Some(l) => l,
            None => language_for(locales.drop_first()),
        }
    }
}

/// One of the languages the GUI offers.
pub open spec fn known_language(l: Seq<char>) -> bool {
    l == "en"@ || l == "de"@ || l == "ja"@ || l == "zh_hans"@
}

pub proof fn lemma_language_known(locales: Seq<Seq<char>>)
    ensures
        known_language(language_for(locales)),
    decreases locales.len(),
{
    if locales.len() > 0 && language_of(locales[0]) is None {
        lemma_language_known(locales.drop_first());
    }
}

/// Picks the GUI language from the system's preferred locales, most preferred first.
pub fn language_from_locales(locales: &Vec<String>) -> (r: String)
    ensures
        r@ == language_for(locales@.map_values(|s: String| s@)),
{
    let ghost ls = locales@.map_values(|s: String| s@);
    assert(ls.skip(0) =~= ls);
    let mut i: usize = 0;
    while i < locales.len()
        invariant
            i <= locales@.len(),
            ls == locales@.map_values(|s: String| s@),
            language_for(ls) == language_for(ls.skip(i as int)),
        decreases locales@.len() - i,
    {
        let l = locales[i].as_str();
        proof {
            assert(ls.skip(i as int)[0] == l@);
            assert(ls.skip(i as int).drop_first() =~= ls.skip(i + 1));
        }
        if crate::fs::starts_with(l, "en") {
            return String::from_str("en");
        }
        if crate::fs::starts_with(l, "de") {
            return String::from_str("de");
        }
        if crate::fs::starts_with(l, "ja") {
            return String::from_str("ja");
        }
        if crate::fs::starts_with(l, "zh") {
            return String::from_str("zh_hans");
        }
        i += 1;
    }
    proof {
        assert(ls.skip(i as int) =~= Seq::<Seq<char>>::empty());
    }
    String::from_str("en")
}

/// Relies on sys_locale::get_locales: the system's preferred locale tags, most
/// preferred first. They depend on the machine, so nothing is known of them.
#[verifier::external_body]
fn system_locales() -> Vec<String> {
    sys_locale::get_locales().collect()
}

/// The GUI language that the system's locales suggest.
pub fn language_default() -> (r: String)
    ensures
        known_language(r@),
{
    let locales = system_locales();
    let r = language_from_locales(&locales);
    proof {
        lemma_language_known(locales@.map_values(|s: String| s@));
    }
    r
}

/// Settings of the GUI.
pub struct GuiConfig {
    pub gui_hidden_repositories: indexmap::IndexSet<String>,
    pub hide_local_user_packages: bool,
    pub window_size: WindowSize,
    pub fullscreen: bool,
    pub language: String,
    pub theme: String,
    pub backup_format: String,
    pub project_sorting: String,
    /// "stable" or "beta".
    pub release_channel: String,
    pub use_alcom_for_vcc_protocol: bool,
    pub setup_process_progress: u32,
    pub default_unity_arguments: Option<Vec<String>>,
    pub use_flatpak_unity_hub: bool,
}

impl Default for GuiConfig {
    fn default() -> (r: GuiConfig)
        ensures
            !r.hide_local_user_packages,
            r.window_size == (WindowSize { width: 1300, height: 800 }),
            !r.fullscreen,
            r.theme@ == "system"@,
            r.backup_format@ == "default"@,
            r.project_sorting@ == "lastModified"@,
            r.release_channel@ == "stable"@,
            !r.use_alcom_for_vcc_protocol,
            r.setup_process_progress == 0,
            r.default_unity_arguments is None,
            !r.use_flatpak_unity_hub,
            known_language(r.language@),
    {
        GuiConfig {
            gui_hidden_repositories: indexmap::IndexSet::new(),
            hide_local_user_packages: false,
            window_size: WindowSize::default(),
            fullscreen: false,
            language: language_default(),
            theme: theme_default(),
            backup_format: backup_default(),
            project_sorting: project_sorting_default(),
            release_channel: release_channel_default(),
            use_alcom_for_vcc_protocol: false,
            setup_process_progress: 0,
            default_unity_arguments: None,
            use_flatpak_unity_hub: false,
        }
    }
}

impl GuiConfig {
    /// Fills empty settings with their defaults and renames the old `zh_cn` language.
    pub fn fix_defaults(&mut self)
        ensures
            old(self).language@.len() > 0 && old(self).language@ != "zh_cn"@ ==> final(self).language@ == old(self).language@,
            old(self).language@ == "zh_cn"@ ==> final(self).language@ == "zh_hans"@,
            old(self).backup_format@.len() == 0 ==> final(self).backup_format@ == "default"@,
            old(self).backup_format@.len() > 0 ==> final(self).backup_format@ == old(self).backup_format@,
            old(self).project_sorting@.len() == 0 ==> final(self).project_sorting@ == "lastModified"@,
            old(self).project_sorting@.len() > 0 ==> final(self).project_sorting@ == old(self).project_sorting@,
            old(self).language@.len() == 0 ==> known_language(final(self).language@),
            final(self).theme@ == old(self).theme@,
            final(self).release_channel@ == old(self).release_channel@,
            final(self).window_size == old(self).window_size,
            final(self).gui_hidden_repositories == old(self).gui_hidden_repositories,
            final(self).hide_local_user_packages == old(self).hide_local_user_packages,
            final(self).fullscreen == old(self).fullscreen,
            final(self).use_alcom_for_vcc_protocol == old(self).use_alcom_for_vcc_protocol,
            final(self).setup_process_progress == old(self).setup_process_progress,
            final(self).default_unity_arguments == old(self).default_unity_arguments,
            final(self).use_flatpak_unity_hub == old(self).use_flatpak_unity_hub,
    {
        proof {
            reveal_strlit("zh_cn");
            reveal_strlit("zh_hans");
        }
        if self.language.unicode_len() == 0 {
            self.language = language_default();
        }
        let zh_cn = String::from_str("zh_cn");
        if self.language == zh_cn {
            self.language = String::from_str("zh_hans");
        }
        if self.backup_format.unicode_len() == 0 {
            self.backup_format = backup_default();
        }
        if self.project_sorting.unicode_len() == 0 {
            self.project_sorting = project_sorting_default();
        }
    }
}

/// How far to refresh the package repositories when the environment is fetched.
#[derive(Clone, Copy, Debug, PartialEq, Eq, Structural)]
pub enum UpdateRepositoryMode {
    Skip,
    Force,
    IfOutdatedOrNecessary,
    IfOutdatedOrNecessaryForLocal,
}

/// Which package information to load.
#[derive(Clone, Copy, Debug, PartialEq, Eq, Structural)]
pub enum RepositoryLoad {
    Nothing,
    /// Remote repositories and local packages.
    All,
    /// Local user packages only.
    LocalOnly,
}

/// What fetching the environment has to do.
#[derive(Clone, Copy, Debug, PartialEq, Eq, Structural)]
pub struct RefreshPlan {
    /// Load the environment: there is none yet.
    pub load_environment: bool,
    /// Reload the settings files.
    pub reload_settings: bool,
    pub load: RepositoryLoad,
}

/// Settings older than this are reloaded.
pub const RELOAD_AFTER_MS: u64 = 1000;
/// Repositories older than this are outdated.
pub const OUTDATED_AFTER_MS: u64 = 300000;

/// Decides what fetching the environment does, from whether it is loaded, the
/// milliseconds since the settings and the repositories were last loaded, and the mode.
pub fn refresh_plan(
    loaded: bool,
    since_update_ms: Option<u64>,
    since_repository_update_ms: Option<u64>,
    mode: UpdateRepositoryMode,
) -> (r: RefreshPlan)
    ensures
        r.load_environment == !loaded,
        r.reload_settings == (loaded && !(since_update_ms matches Some(t) && t < RELOAD_AFTER_MS)),
        r.load == match mode {
            UpdateRepositoryMode::Skip => RepositoryLoad::Nothing,
            UpdateRepositoryMode::Force => RepositoryLoad::All,
            UpdateRepositoryMode::IfOutdatedOrNecessary => if !loaded || !(since_repository_update_ms matches Some(
                t,
            ) && t <= OUTDATED_AFTER_MS) {
                RepositoryLoad::All
            } else {
                RepositoryLoad::Nothing
            },
            UpdateRepositoryMode::IfOutdatedOrNecessaryForLocal => if !loaded || !(since_repository_update_ms matches Some(
                t,
            ) && t <= OUTDATED_AFTER_MS) {
                RepositoryLoad::LocalOnly
            } else {
                RepositoryLoad::Nothing
            },
        },
{
    let reload_settings = loaded && !match since_update_ms {
        Some(t) => t < RELOAD_AFTER_MS,
        None => false,
    };
    let outdated = !loaded || !match since_repository_update_ms {
        Some(t) => t <= OUTDATED_AFTER_MS,
        None => false,
    };
    let load = match mode {
        UpdateRepositoryMode::Skip => RepositoryLoad::Nothing,
        UpdateRepositoryMode::Force => RepositoryLoad::All,
        UpdateRepositoryMode::IfOutdatedOrNecessary => if outdated {
            RepositoryLoad::All
        } else {
            RepositoryLoad::Nothing
        },
        UpdateRepositoryMode::IfOutdatedOrNecessaryForLocal => if outdated {
            RepositoryLoad::LocalOnly
        } else {
            RepositoryLoad::Nothing
        },
    };
    RefreshPlan { load_environment: !loaded, reload_settings, load }
}

/// The packages shown in the GUI's list.
pub struct PackageList {
    pub packages: Vec<PackageInfo>,
}

impl PackageList {
    pub fn from_packages(packages: Vec<PackageInfo>) -> (r: PackageList)
        ensures
            r.packages@ == packages@,
    {
        PackageList { packages }
    }
}

/// A version as the GUI shows it.
pub struct TauriVersion {
    pub major: u64,
    pub minor: u64,
    pub patch: u64,
    pub pre: Option<u64>,
}

impl TauriVersion {
    pub fn from_version(v: &Version) -> (r: TauriVersion)
        ensures
            r.major == v.major,
            r.minor == v.minor,
            r.patch == v.patch,
            r.pre == v.pre,
    {
        TauriVersion { major: v.major, minor: v.minor, patch: v.patch, pre: v.pre }
    }
}

/// A package as the GUI shows it.
pub struct TauriBasePackageInfo {
    pub name: String,
    pub display_name: Option<String>,
    pub description: Option<String>,
    pub aliases: Vec<String>,
    pub version: TauriVersion,
    pub unity: Option<(u16, u8)>,
    pub changelog_url: Option<String>,
    pub vpm_dependencies: Vec<String>,
    pub legacy_packages: Vec<String>,
    pub is_yanked: bool,
}

fn clone_opt(s: &Option<String>) -> (r: Option<String>)
    ensures
        r == *s,
{
    match s {
        Some(x) => Some(x.clone()),
        None => None,
    }
}

impl TauriBasePackageInfo {
    pub fn new(package: &PackageManifest) -> (r: TauriBasePackageInfo)
        ensures
            r.name@ == package.name@,
            r.display_name == package.display_name,
            r.description == package.description,
            r.aliases@ == package.aliases@,
            r.version.major == package.version.major,
            r.version.minor == package.version.minor,
            r.version.patch == package.version.patch,
            r.version.pre == package.version.pre,
            r.unity == package.unity,
            r.changelog_url == package.changelog_url,
            r.vpm_dependencies@.map_values(|s: String| s@) == package.vpm_dependencies@.map_values(
                |e: (String, crate::version::DependencyRange)| e.0@,
            ),
            r.legacy_packages@ == package.legacy_packages@,
            r.is_yanked == package.is_yanked,
    {
        let mut deps: Vec<String> = Vec::new();
        let mut i: usize = 0;
        while i < package.vpm_dependencies.len()
            invariant
                i <= package.vpm_dependencies@.len(),
                deps@.map_values(|s: String| s@) == package.vpm_dependencies@.take(i as int).map_values(
                    |e: (String, crate::version::DependencyRange)| e.0@,
                ),
            decreases package.vpm_dependencies@.len() - i,
        {
            let ghost before = deps@;
            deps.push(package.vpm_dependencies[i].0.clone());
            proof {
                assert(package.vpm_dependencies@.take(i + 1) =~= package.vpm_dependencies@.take(i as int).push(package.vpm_dependencies@[i as int]));
                assert(deps@.map_values(|s: String| s@) =~= before.map_values(|s: String| s@).push(package.vpm_dependencies@[i as int].0@));
                assert(package.vpm_dependencies@.take(i + 1).map_values(|e: (String, crate::version::DependencyRange)| e.0@)
                    =~= package.vpm_dependencies@.take(i as int).map_values(|e: (String, crate::version::DependencyRange)| e.0@).push(package.vpm_dependencies@[i as int].0@));
                assert(deps@.map_values(|s: String| s@) =~= package.vpm_dependencies@.take(i + 1).map_values(
                    |e: (String, crate::version::DependencyRange)| e.0@,
                ));
            }
            i += 1;
        }
        proof {
            assert(package.vpm_dependencies@.take(package.vpm_dependencies@.len() as int) =~= package.vpm_dependencies@);
        }
        TauriBasePackageInfo {
            name: package.name.clone(),
            display_name: clone_opt(&package.display_name),
            description: clone_opt(&package.description),
            aliases: crate::assoc::clone_names(&package.aliases),
            version: TauriVersion::from_version(&package.version),
            unity: package.unity,
            changelog_url: clone_opt(&package.changelog_url),
            vpm_dependencies: deps,
            legacy_packages: crate::assoc::clone_names(&package.legacy_packages),
            is_yanked: package.is_yanked,
        }
    }
}

} // verus!
