use loadpeek::double::Double;
use loadpeek::settings::{
    config_path, load_from, temporary_name, Loaded, Outcome, SaveStep, Saving, Settings,
};
use std::collections::BTreeMap;

fn d(value: f64) -> Double {
    Double::from_bits(value.to_bits())
}

fn f(value: Double) -> f64 {
    f64::from_bits(value.bits)
}

const PATH: &str = "/home/user/.config/loadpeek/settings.json";
const DIRECTORY: &str = "/home/user/.config/loadpeek";

/// What a file holds of settings; what it leaves out is as it is by default.
fn parse(contents: &str) -> Loaded {
    let value: serde_json::Value = match serde_json::from_str(contents) {
        Ok(value) => value,
        Err(error) => return Loaded::Malformed(error.to_string()),
    };
    let mut settings = Settings::default();
    for (name, field) in
        [("refresh_secs", &mut settings.refresh_secs), ("scale", &mut settings.scale)]
    {
        match value.get(name) {
            None => {}
            Some(number) => match number.as_f64() {
                Some(number) => *field = d(number),
                None => return Loaded::Malformed(format!("invalid type for {name}")),
            },
        }
    }
    Loaded::Found(settings)
}

/// The files of a directory.
#[derive(Default)]
struct Store {
    files: BTreeMap<String, String>,
    fail_at: Option<SaveStep>,
    steps: Vec<SaveStep>,
}

impl Store {
    fn load(&self) -> (Settings, Option<String>) {
        match self.files.get(PATH) {
            None => load_from(PATH, &Loaded::Missing),
            Some(contents) => load_from(PATH, &parse(contents)),
        }
    }

    fn save(&mut self, settings: Settings) -> Option<String> {
        let mut saving = Saving::new(settings);
        let contents = format!(
            "{{\"refresh_secs\": {}, \"scale\": {}}}\n",
            f(saving.settings.refresh_secs),
            f(saving.settings.scale)
        );
        let mut temporary = String::new();
        while saving.step != SaveStep::Finish {
            let step = saving.step;
            self.steps.push(step);
            if self.fail_at == Some(step) {
                saving = saving.advance(&Outcome::Failed("disk full".to_owned()), PATH, DIRECTORY);
                continue;
            }
            match step {
                SaveStep::CreateTemporary => {
                    temporary = format!("{DIRECTORY}/{}", temporary_name(7, 99, 0));
                    self.files.insert(temporary.clone(), String::new());
                }
                SaveStep::WriteContents => {
                    self.files.insert(temporary.clone(), contents.clone());
                }
                SaveStep::Rename => {
                    let contents = self.files.remove(&temporary).unwrap();
                    self.files.insert(PATH.to_owned(), contents);
                }
                SaveStep::RemoveTemporary => {
                    self.files.remove(&temporary);
                }
                _ => {}
            }
            saving = saving.advance(&Outcome::Done, PATH, DIRECTORY);
        }
        saving.error
    }
}

#[test]
fn invalid_values_become_finite_supported_values() {
    let mut settings = Settings {
        refresh_secs: d(f64::NAN),
        scale: d(f64::from(f32::INFINITY)),
    };
    settings.normalize();
    assert_eq!(f(settings.refresh_secs), 1.0);
    assert_eq!(f(settings.scale), 1.0);
    settings.refresh_secs = d(99.0);
    settings.scale = d(-5.0);
    settings.normalize();
    assert_eq!(f(settings.refresh_secs), 5.0);
    assert_eq!(f(settings.scale), 1.0);
    settings.refresh_secs = d(-99.0);
    settings.scale = d(99.0);
    settings.normalize();
    assert_eq!(f(settings.refresh_secs), 0.5);
    assert_eq!(f(settings.scale), 2.0);
}

#[test]
fn absent_config_is_a_normal_first_launch() {
    let (settings, warning) = Store::default().load();
    assert!(warning.is_none());
    assert_eq!(f(settings.refresh_secs), 1.0);
}

#[test]
fn save_replaces_existing_config_and_cleans_up_temporary_files() {
    let mut store = Store::default();
    assert_eq!(store.save(Settings::default()), None);
    let saved = Settings {
        refresh_secs: d(0.5),
        scale: d(1.5),
    };
    assert_eq!(store.save(saved), None);
    let (settings, warning) = store.load();
    assert!(warning.is_none());
    assert_eq!(f(settings.refresh_secs), 0.5);
    assert_eq!(f(settings.scale), 1.5);
    assert_eq!(store.files.len(), 1);
}

#[test]
fn partial_config_uses_defaults_and_reports_out_of_range_values() {
    let mut store = Store::default();
    store.files.insert(PATH.to_owned(), r#"{"refresh_secs": 20}"#.to_owned());
    let (settings, warning) = store.load();
    assert_eq!(f(settings.refresh_secs), 5.0);
    assert_eq!(f(settings.scale), 1.0);
    assert!(warning.is_some());
}

#[test]
fn malformed_config_reports_a_recoverable_error() {
    let mut store = Store::default();
    store.files.insert(PATH.to_owned(), r#"{"refresh_secs": "fast"}"#.to_owned());
    let (settings, warning) = store.load();
    assert_eq!(f(settings.refresh_secs), 1.0);
    assert!(warning.unwrap().contains("Using default settings"));
}

#[test]
fn what_is_wrong_with_a_file_is_told() {
    let warning = |loaded| load_from("/a/b", &loaded).1;
    assert_eq!(
        warning(Loaded::Unreadable("denied".to_owned())).as_deref(),
        Some("Could not read /a/b: denied. Using default settings.")
    );
    assert_eq!(
        warning(Loaded::Malformed("no number".to_owned())).as_deref(),
        Some("Could not parse /a/b: no number. Using default settings.")
    );
    let high = Settings { refresh_secs: d(1.0), scale: d(2.5) };
    assert_eq!(
        warning(Loaded::Found(high)).as_deref(),
        Some("Settings were outside the supported range and have been adjusted.")
    );
    let fine = Settings { refresh_secs: d(2.5), scale: d(1.25) };
    assert_eq!(warning(Loaded::Found(fine)), None);
}

#[test]
fn what_is_saved_is_loaded_without_a_notice() {
    let mut store = Store::default();
    assert_eq!(store.save(Settings { refresh_secs: d(20.0), scale: d(f64::NAN) }), None);
    let (settings, warning) = store.load();
    assert_eq!(warning, None);
    assert_eq!(f(settings.refresh_secs), 5.0);
    assert_eq!(f(settings.scale), 1.0);
}

#[test]
fn a_failed_step_leaves_the_old_file_and_no_temporary_one() {
    for (step, error) in [
        (SaveStep::CreateDirectory, format!("Could not create {DIRECTORY}: disk full")),
        (SaveStep::CreateTemporary, "Could not create temporary settings: disk full".to_owned()),
        (SaveStep::WriteContents, format!("Could not save {PATH}: disk full")),
        (SaveStep::SyncContents, format!("Could not save {PATH}: disk full")),
        (SaveStep::Rename, format!("Could not save {PATH}: disk full")),
        (SaveStep::SyncDirectory, format!("Could not save {PATH}: disk full")),
    ] {
        let mut store = Store::default();
        store.files.insert(PATH.to_owned(), "old".to_owned());
        store.fail_at = Some(step);
        assert_eq!(store.save(Settings::default()), Some(error));
        assert_eq!(store.files.len(), 1, "{step:?}");
        assert_eq!(store.files[PATH] == "old", step != SaveStep::SyncDirectory);
    }
}

#[test]
fn the_steps_of_saving_come_in_order() {
    let mut store = Store::default();
    store.save(Settings::default());
    assert_eq!(
        store.steps,
        [
            SaveStep::CreateDirectory,
            SaveStep::CreateTemporary,
            SaveStep::WriteContents,
            SaveStep::SyncContents,
            SaveStep::Rename,
            SaveStep::SyncDirectory,
        ]
    );
}

#[test]
fn a_name_that_is_taken_is_tried_again_for_a_while() {
    let mut saving = Saving::new(Settings::default()).advance(&Outcome::Done, PATH, DIRECTORY);
    for _ in 1..16 {
        saving = saving.advance(&Outcome::Exists("taken".to_owned()), PATH, DIRECTORY);
        assert_eq!(saving.step, SaveStep::CreateTemporary);
    }
    saving = saving.advance(&Outcome::Exists("taken".to_owned()), PATH, DIRECTORY);
    assert_eq!(saving.step, SaveStep::Finish);
    assert_eq!(
        saving.error.as_deref(),
        Some("Could not create temporary settings: Could not choose a unique temporary file")
    );
}

#[test]
fn settings_are_kept_at_an_absolute_path() {
    let path = |config_home: Option<&str>, home: Option<&str>| {
        let bytes = |text: Option<&str>| text.map(|text| text.as_bytes().to_vec());
        config_path(&bytes(config_home), &bytes(home))
            .map(|path| String::from_utf8(path).unwrap())
    };
    assert_eq!(path(Some("/xdg"), Some("/home/a")).unwrap(), "/xdg/loadpeek/settings.json");
    assert_eq!(path(Some("/xdg/"), None).unwrap(), "/xdg/loadpeek/settings.json");
    for ignored in [None, Some(""), Some("relative/path")] {
        assert_eq!(
            path(ignored, Some("/home/a")).unwrap(),
            "/home/a/.config/loadpeek/settings.json"
        );
        assert_eq!(
            path(ignored, ignored).unwrap_err(),
            "Cannot locate the settings directory: XDG_CONFIG_HOME and HOME are unavailable."
        );
    }
    assert_eq!(temporary_name(12, 345, 6), ".settings.12.345.6.tmp");
}
