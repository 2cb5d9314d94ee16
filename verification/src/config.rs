//! Configuration state: the persisted settings, the resolved application
//! directories derived from them, and the handle through which the directory
//! set is injected into the code that expands macro paths.

use vstd::prelude::*;

verus! {

/// The persisted settings, as plain values.
#[derive(Clone, Debug, PartialEq, Eq)]
pub struct Settings {
    pub aviutl2_root: String,
    pub is_portable_mode: bool,
    pub theme: String,
    pub package_state_opt_out: bool,
    pub app_version: String,
    pub catalog_exe_path: String,
}

impl Default for Settings {
    /// The settings a missing or unreadable settings file falls back to:
    /// everything empty, portable mode off.
    fn default() -> (r: Self)
        ensures
            r.aviutl2_root@ == Seq::<char>::empty(),
            !r.is_portable_mode,
            r.theme@ == Seq::<char>::empty(),
            !r.package_state_opt_out,
            r.app_version@ == Seq::<char>::empty(),
            r.catalog_exe_path@ == Seq::<char>::empty(),
    {
        Settings {
            aviutl2_root: String::new(),
            is_portable_mode: false,
            theme: String::new(),
            package_state_opt_out: false,
            app_version: String::new(),
            catalog_exe_path: String::new(),
        }
    }
}

/// Mathematical view of the resolved directories.
pub struct DirsModel {
    pub aviutl2_root: Seq<char>,
    pub aviutl2_data: Seq<char>,
    pub plugin_dir: Seq<char>,
    pub script_dir: Seq<char>,
    pub catalog_exe_dir: Seq<char>,
    pub catalog_config_dir: Seq<char>,
    pub log_path: Seq<char>,
}

/// The directories the application works with, all as plain path strings.
#[derive(Clone, Debug, PartialEq, Eq)]
pub struct AppDirs {
    pub aviutl2_root: String,
    pub aviutl2_data: String,
    pub plugin_dir: String,
    pub script_dir: String,
    pub catalog_exe_dir: String,
    pub catalog_config_dir: String,
    pub log_path: String,
}

impl View for AppDirs {
    type V = DirsModel;

    open spec fn view(&self) -> DirsModel {
        DirsModel {
            aviutl2_root: self.aviutl2_root@,
            aviutl2_data: self.aviutl2_data@,
            plugin_dir: self.plugin_dir@,
            script_dir: self.script_dir@,
            catalog_exe_dir: self.catalog_exe_dir@,
            catalog_config_dir: self.catalog_config_dir@,
            log_path: self.log_path@,
        }
    }
}

/// A path joined to a child component, Windows-style: a backslash goes in
/// between unless the base is empty or already ends with a separator.
pub open spec fn join_path_spec(base: Seq<char>, child: Seq<char>) -> Seq<char> {
    if base.len() > 0 && base.last() != '\\' && base.last() != '/' {
        base + seq!['\\'] + child
    } else {
        base + child
    }
}

/// Join a path and a child component with a backslash where one is needed.
pub fn join_path(base: &str, child: &str) -> (r: String)
    ensures
        r@ == join_path_spec(base@, child@),
{
    let b = crate::text::chars_of(base);
    let c = crate::text::chars_of(child);
    let mut out = b;
    let n = out.len();
    if n > 0 {
        let lastc = out[n - 1];
        if lastc != '\\' && lastc != '/' {
            out.push('\\');
        }
    }
    let ghost head = out@;
    let m = c.len();
    for i in 0..m
        invariant
            m == c@.len(),
            c@ == child@,
            out@ =~= head + child@.take(i as int),
    {
        out.push(c[i]);
    }
    proof {
        assert(head + child@.take(m as int) =~= head + child@);
        assert(out@ =~= join_path_spec(base@, child@));
    }
    crate::text::string_of(&out)
}

/// The directory set that follows from the settings: in portable mode the
/// data directory sits under the root, otherwise under the machine-wide
/// program-data directory; plugins and scripts sit under the data directory,
/// and the log under the configuration directory.
pub open spec fn dirs_of_settings(
    root: Seq<char>,
    portable: bool,
    program_data: Seq<char>,
    exe_dir: Seq<char>,
    config_dir: Seq<char>,
) -> DirsModel {
    let data = if portable {
        join_path_spec(root, "data"@)
    } else {
        join_path_spec(program_data, "aviutl2"@)
    };
    DirsModel {
        aviutl2_root: root,
        aviutl2_data: data,
        plugin_dir: join_path_spec(data, "Plugin"@),
        script_dir: join_path_spec(data, "Script"@),
        catalog_exe_dir: exe_dir,
        catalog_config_dir: config_dir,
        log_path: join_path_spec(join_path_spec(config_dir, "logs"@), "app.log"@),
    }
}

/// Derive the full directory set from the settings and the externally
/// resolved locations (program-data directory, executable directory,
/// configuration directory).
pub fn build_app_dirs(settings: &Settings, program_data: &str, exe_dir: &str, config_dir: &str) -> (d:
    AppDirs)
    ensures
        d@ == dirs_of_settings(
            settings.aviutl2_root@,
            settings.is_portable_mode,
            program_data@,
            exe_dir@,
            config_dir@,
        ),
{
    let data = if settings.is_portable_mode {
        join_path(settings.aviutl2_root.as_str(), "data")
    } else {
        join_path(program_data, "aviutl2")
    };
    let plugin_dir = join_path(data.as_str(), "Plugin");
    let script_dir = join_path(data.as_str(), "Script");
    let logs = join_path(config_dir, "logs");
    let log_path = join_path(logs.as_str(), "app.log");
    AppDirs {
        aviutl2_root: settings.aviutl2_root.clone(),
        aviutl2_data: data,
        plugin_dir,
        script_dir,
        catalog_exe_dir: String::from_str(exe_dir),
        catalog_config_dir: String::from_str(config_dir),
        log_path,
    }
}

/// The injected configuration handle: holds the resolved directories once
/// they are established, and nothing before.
pub struct AppConfig {
    dirs: Option<AppDirs>,
}

impl View for AppConfig {
    type V = Option<DirsModel>;

    closed spec fn view(&self) -> Option<DirsModel> {
        match self.dirs {
            Option::Some(d) => Some(d@),
            Option::None => None,
        }
    }
}

impl AppConfig {
    /// A fresh handle with no directories established.
    pub fn new() -> (c: AppConfig)
        ensures
            c@ is None,
    {
        AppConfig { dirs: None }
    }

    /// Establish or replace the directory set.
    pub fn set_appdirs(&mut self, d: AppDirs)
        ensures
            final(self)@ == Some(d@),
    {
        self.dirs = Some(d);
    }

    /// Whether the directories are established.
    pub fn is_configured(&self) -> (r: bool)
        ensures
            r == (self@ is Some),
    {
        self.dirs.is_some()
    }
}

/// The directory set as named key/value pairs, for callers that take plain
/// string maps.
pub fn get_app_dirs(d: &AppDirs) -> (r: Vec<(String, String)>)
    ensures
        r.deep_view() == seq![
            ("aviutl2_root"@, d@.aviutl2_root),
            ("aviutl2_data"@, d@.aviutl2_data),
            ("plugin_dir"@, d@.plugin_dir),
            ("script_dir"@, d@.script_dir),
            ("catalog_exe_dir"@, d@.catalog_exe_dir),
            ("catalog_config_dir"@, d@.catalog_config_dir),
            ("log_path"@, d@.log_path),
        ],
{
    let mut r: Vec<(String, String)> = Vec::new();
    r.push((String::from_str("aviutl2_root"), d.aviutl2_root.clone()));
    r.push((String::from_str("aviutl2_data"), d.aviutl2_data.clone()));
    r.push((String::from_str("plugin_dir"), d.plugin_dir.clone()));
    r.push((String::from_str("script_dir"), d.script_dir.clone()));
    r.push((String::from_str("catalog_exe_dir"), d.catalog_exe_dir.clone()));
    r.push((String::from_str("catalog_config_dir"), d.catalog_config_dir.clone()));
    r.push((String::from_str("log_path"), d.log_path.clone()));
    proof {
        crate::cache::lemma_vec_deep_view(r);
        assert(r.deep_view() =~= seq![
            ("aviutl2_root"@, d@.aviutl2_root),
            ("aviutl2_data"@, d@.aviutl2_data),
            ("plugin_dir"@, d@.plugin_dir),
            ("script_dir"@, d@.script_dir),
            ("catalog_exe_dir"@, d@.catalog_exe_dir),
            ("catalog_config_dir"@, d@.catalog_config_dir),
            ("log_path"@, d@.log_path),
        ]);
    }
    r
}

/// The established directory set. Callers must not ask for it before
/// configuration is established.
pub fn dirs(cfg: &AppConfig) -> (d: &AppDirs)
    requires
        cfg@ is Some,
    ensures
        d@ == cfg@.unwrap(),
{
    match &cfg.dirs {
        Option::Some(d) => d,
        Option::None => unreached(),
    }
}

} // verus!
