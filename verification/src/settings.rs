//! The preferences of a user: their bounds, where they are kept, and how they are
//! read and replaced.

use crate::double::{lemma_order_is_numeric, lemma_units_at, Double, FINEST, HIDDEN};
use crate::rounding::lemma_powers;
use crate::text::{
    decimal, decimal_characters, digits_value, optional_view, push_characters, push_decimal,
};
use crate::writing::lemma_decimal_counts;
use vstd::arithmetic::power2::{lemma_pow2_adds, lemma_pow2_unfold, pow2};
use vstd::prelude::*;

verus! {

// ---------------------------------------------------------------------------
// Bounds
// ---------------------------------------------------------------------------

/// The bits of 0.5, in seconds.
pub const SHORTEST_REFRESH: u64 = 0x3fe0_0000_0000_0000;

/// The bits of 5, in seconds.
pub const LONGEST_REFRESH: u64 = 0x4014_0000_0000_0000;

/// The bits of 1.
pub const SMALLEST_SCALE: u64 = 0x3ff0_0000_0000_0000;

/// The bits of 2.
pub const LARGEST_SCALE: u64 = 0x4000_0000_0000_0000;

/// The bits of 1.
pub const DEFAULT: u64 = 0x3ff0_0000_0000_0000;

pub open spec fn shortest_refresh() -> Double {
    Double { bits: SHORTEST_REFRESH }
}

pub open spec fn longest_refresh() -> Double {
    Double { bits: LONGEST_REFRESH }
}

pub open spec fn smallest_scale() -> Double {
    Double { bits: SMALLEST_SCALE }
}

pub open spec fn largest_scale() -> Double {
    Double { bits: LARGEST_SCALE }
}

pub open spec fn by_default() -> Double {
    Double { bits: DEFAULT }
}

/// The bounds are 0.5 and 5 seconds, and scales of 1 and 2; what is used by default
/// is 1 second and a scale of 1.
pub proof fn lemma_bounds()
    ensures
        2 * shortest_refresh().value() == pow2(FINEST as nat),
        longest_refresh().value() == 5 * pow2(FINEST as nat),
        smallest_scale().value() == pow2(FINEST as nat),
        largest_scale().value() == 2 * pow2(FINEST as nat),
        by_default().value() == pow2(FINEST as nat),
{
    let h = HIDDEN as nat;
    lemma_powers();
    lemma_units_at(1021, h);
    lemma_units_at(1022, h);
    lemma_units_at(1023, h);
    lemma_pow2_adds(52, 1021);
    lemma_pow2_adds(52, 1022);
    lemma_pow2_adds(52, 1023);
    lemma_pow2_unfold(1074);
    lemma_pow2_unfold(1075);
    assert(shortest_refresh().size() == 1021 * h + h);
    assert(smallest_scale().size() == 1022 * h + h);
    assert(largest_scale().size() == 1023 * h + h);
    assert(h == 4 * 0x4_0000_0000_0000);
    lemma_units_at(1024, 0x14_0000_0000_0000);
    lemma_pow2_adds(50, 1024);
    assert(pow2(50) == 0x4_0000_0000_0000) by {
        vstd::arithmetic::power2::lemma2_to64_rest();
    }
    assert(0x14_0000_0000_0000nat * pow2(1024) == 5 * (pow2(50) * pow2(1024))) by (nonlinear_arith)
        requires
            pow2(50) == 0x4_0000_0000_0000,
    ;
    assert(longest_refresh().size() == 1024 * h + 0x14_0000_0000_0000);
}

/// The preferences of a user.
#[derive(Clone, Copy, Debug, PartialEq, Eq, Structural)]
pub struct Settings {
    pub refresh_secs: Double,
    /// A single-precision number, which every double can hold.
    pub scale: Double,
}

impl Settings {
    pub open spec fn preset() -> Self {
        Settings { refresh_secs: by_default(), scale: by_default() }
    }

    /// The settings within their bounds; by default where they are no numbers.
    pub open spec fn normalized(self) -> Self {
        Settings {
            refresh_secs: if self.refresh_secs.finite() {
                self.refresh_secs.clamped(
                    shortest_refresh(),
                    longest_refresh(),
                )
            } else {
                Self::preset().refresh_secs
            },
            scale: if self.scale.finite() {
                self.scale.clamped(smallest_scale(), largest_scale())
            } else {
                Self::preset().scale
            },
        }
    }

    /// Whether the settings can be used as they are.
    pub open spec fn is_supported(self) -> bool {
        &&& shortest_refresh().at_most(self.refresh_secs)
        &&& self.refresh_secs.at_most(longest_refresh())
        &&& smallest_scale().at_most(self.scale)
        &&& self.scale.at_most(largest_scale())
    }

    /// Brings the settings within their bounds.
    pub fn normalize(&mut self)
        ensures
            *final(self) == old(self).normalized(),
            final(self).is_supported(),
    {
        self.refresh_secs = if self.refresh_secs.is_finite() {
            self.refresh_secs.clamp(
                Double::from_bits(SHORTEST_REFRESH),
                Double::from_bits(LONGEST_REFRESH),
            )
        } else {
            Double::from_bits(DEFAULT)
        };
        self.scale = if self.scale.is_finite() {
            self.scale.clamp(Double::from_bits(SMALLEST_SCALE), Double::from_bits(LARGEST_SCALE))
        } else {
            Double::from_bits(DEFAULT)
        };
    }
}

impl Default for Settings {
    fn default() -> (result: Self)
        ensures
            result == Self::preset(),
    {
        Settings { refresh_secs: Double::from_bits(DEFAULT), scale: Double::from_bits(DEFAULT) }
    }
}

/// Settings within their bounds stay as they are, and any others are brought there
/// at once.
pub proof fn lemma_normalized(settings: Settings)
    ensures
        settings.normalized().is_supported(),
        settings.is_supported() ==> settings.normalized() == settings,
        settings.normalized().normalized() == settings.normalized(),
        Settings::preset().is_supported(),
{
}

// ---------------------------------------------------------------------------
// Reading
// ---------------------------------------------------------------------------

/// What came of reading the file.
#[derive(Clone, Debug)]
pub enum Loaded {
    /// There is none.
    Missing,
    /// It could not be read, with what the system says of it.
    Unreadable(String),
    /// It holds no settings, with what is wrong with it.
    Malformed(String),
    /// What it holds.
    Found(Settings),
}

/// The settings to begin with.
pub open spec fn settings_of(loaded: Loaded) -> Settings {
    match loaded {
        Loaded::Found(settings) => settings.normalized(),
        _ => Settings::preset(),
    }
}

/// Whether the numbers of two settings are the same.
pub open spec fn same_settings(a: Settings, b: Settings) -> bool {
    a.refresh_secs.equals(b.refresh_secs) && a.scale.equals(b.scale)
}

/// What the user is told of the file.
pub open spec fn notice_of(loaded: Loaded, path: Seq<char>) -> Option<Seq<char>> {
    match loaded {
        Loaded::Missing => None,
        Loaded::Unreadable(error) => Some(
            "Could not read "@ + path + ": "@ + error@ + ". Using default settings."@,
        ),
        Loaded::Malformed(error) => Some(
            "Could not parse "@ + path + ": "@ + error@ + ". Using default settings."@,
        ),
        Loaded::Found(settings) => if same_settings(settings, settings.normalized()) {
            None
        } else {
            Some("Settings were outside the supported range and have been adjusted."@)
        },
    }
}

/// A failure in words: what could not be done, where, and why.
fn failure(what: &str, path: &str, error: &str) -> (result: String)
    ensures
        result@ == what@ + path@ + ": "@ + error@,
{
    let mut text: String = what.to_owned();
    text.append(path);
    text.append(": ");
    text.append(error);
    text
}

fn unusable(what: &str, path: &str, error: &str) -> (result: String)
    ensures
        result@ == what@ + path@ + ": "@ + error@ + ". Using default settings."@,
{
    let mut text: String = failure(what, path, error);
    text.append(". Using default settings.");
    text
}

/// The settings to begin with, and what the user is told of the file.
pub fn load_from(path: &str, loaded: &Loaded) -> (result: (Settings, Option<String>))
    ensures
        result.0 == settings_of(*loaded),
        optional_view(result.1) == notice_of(*loaded, path@),
{
    match loaded {
        Loaded::Missing => (Settings::default(), None),
        Loaded::Unreadable(error) => (
            Settings::default(),
            Some(unusable("Could not read ", path, error.as_str())),
        ),
        Loaded::Malformed(error) => (
            Settings::default(),
            Some(unusable("Could not parse ", path, error.as_str())),
        ),
        Loaded::Found(found) => {
            let mut settings: Settings = *found;
            settings.normalize();
            let same: bool = found.refresh_secs.same_number(settings.refresh_secs)
                && found.scale.same_number(settings.scale);
            if same {
                (settings, None)
            } else {
                (
                    settings,
                    Some(
                        "Settings were outside the supported range and have been adjusted.".to_owned(),
                    ),
                )
            }
        },
    }
}

/// The settings to begin with are always within their bounds, and the user is told
/// nothing exactly where there is no file or it was used as it is.
pub proof fn lemma_loaded(loaded: Loaded, path: Seq<char>)
    ensures
        settings_of(loaded).is_supported(),
        notice_of(loaded, path) is None <==> loaded is Missing || (loaded is Found
            && loaded->Found_0.is_supported()),
{
    match loaded {
        Loaded::Found(settings) => {
            lemma_normalized(settings);
        },
        _ => {},
    }
}

// ---------------------------------------------------------------------------
// Place
// ---------------------------------------------------------------------------

/// Whether a path begins at the root.
pub open spec fn is_absolute(path: Seq<u8>) -> bool {
    path.len() > 0 && path[0] == 0x2f
}

/// A path below another: its name behind a slash.
pub open spec fn below(path: Seq<u8>, name: Seq<u8>) -> Seq<u8> {
    if path.len() > 0 && path.last() != 0x2f {
        path.push(0x2f) + name
    } else {
        path + name
    }
}

/// `.config`
pub open spec fn config_name() -> Seq<u8> {
    seq![0x2eu8, 0x63u8, 0x6fu8, 0x6eu8, 0x66u8, 0x69u8, 0x67u8]
}

/// `loadpeek`
pub open spec fn directory_name() -> Seq<u8> {
    seq![0x6cu8, 0x6fu8, 0x61u8, 0x64u8, 0x70u8, 0x65u8, 0x65u8, 0x6bu8]
}

/// `settings.json`
pub open spec fn file_name() -> Seq<u8> {
    seq![
        0x73u8,
        0x65u8,
        0x74u8,
        0x74u8,
        0x69u8,
        0x6eu8,
        0x67u8,
        0x73u8,
        0x2eu8,
        0x6au8,
        0x73u8,
        0x6fu8,
        0x6eu8,
    ]
}

/// The directory that settings are kept below: `XDG_CONFIG_HOME`, or else
/// `.config` in `HOME`, where they are absolute.
pub open spec fn base_of(config_home: Option<Seq<u8>>, home: Option<Seq<u8>>) -> Option<Seq<u8>> {
    if config_home is Some && is_absolute(config_home->0) {
        config_home
    } else if home is Some && is_absolute(home->0) {
        Some(below(home->0, config_name()))
    } else {
        None
    }
}

/// Where settings are kept.
pub open spec fn path_of(config_home: Option<Seq<u8>>, home: Option<Seq<u8>>) -> Option<Seq<u8>> {
    match base_of(config_home, home) {
        Some(base) => Some(below(below(base, directory_name()), file_name())),
        None => None,
    }
}

fn absolute(path: &Vec<u8>) -> (result: bool)
    ensures
        result == is_absolute(path@),
{
    path.len() > 0 && path[0] == 0x2f
}

fn push_name(path: &mut Vec<u8>, name: &[u8])
    ensures
        final(path)@ == below(old(path)@, name@),
{
    let ghost before = path@;
    if path.len() > 0 && path[path.len() - 1] != 0x2f {
        path.push(0x2f);
    }
    let ghost start = path@;
    let mut i: usize = 0;
    while i < name.len()
        invariant
            i <= name@.len(),
            path@ == start + name@.take(i as int),
        decreases name@.len() - i,
    {
        path.push(name[i]);
        i += 1;
        assert(path@ =~= start + name@.take(i as int));
    }
    assert(name@.take(i as int) =~= name@);
}

/// Where settings are kept, given the variables `XDG_CONFIG_HOME` and `HOME`. An
/// empty or relative path counts as none.
pub fn config_path(config_home: &Option<Vec<u8>>, home: &Option<Vec<u8>>) -> (result: Result<
    Vec<u8>,
    String,
>)
    ensures
        match result {
            Ok(path) => path_of(optional_view(*config_home), optional_view(*home)) == Some(path@),
            Err(error) => {
                &&& path_of(optional_view(*config_home), optional_view(*home)) is None
                &&& error@
                    == "Cannot locate the settings directory: XDG_CONFIG_HOME and HOME are unavailable."@
            },
        },
{
    let mut path: Vec<u8> = Vec::new();
    let mut found: bool = false;
    if let Some(base) = config_home {
        if absolute(base) {
            path = base.clone();
            found = true;
            assert(path@ =~= base@);
        }
    }
    if !found {
        if let Some(base) = home {
            if absolute(base) {
                path = base.clone();
                assert(path@ =~= base@);
                let name: [u8; 7] = [0x2e, 0x63, 0x6f, 0x6e, 0x66, 0x69, 0x67];
                assert(name@ =~= config_name());
                push_name(&mut path, name.as_slice());
                found = true;
            }
        }
    }
    if !found {
        return Err(
            "Cannot locate the settings directory: XDG_CONFIG_HOME and HOME are unavailable.".to_owned(),
        );
    }
    let directory: [u8; 8] = [0x6c, 0x6f, 0x61, 0x64, 0x70, 0x65, 0x65, 0x6b];
    assert(directory@ =~= directory_name());
    push_name(&mut path, directory.as_slice());
    let file: [u8; 13] = [
        0x73,
        0x65,
        0x74,
        0x74,
        0x69,
        0x6e,
        0x67,
        0x73,
        0x2e,
        0x6a,
        0x73,
        0x6f,
        0x6e,
    ];
    assert(file@ =~= file_name());
    push_name(&mut path, file.as_slice());
    Ok(path)
}

/// Settings are only ever kept at an absolute path.
pub proof fn lemma_path_is_absolute(config_home: Option<Seq<u8>>, home: Option<Seq<u8>>)
    ensures
        match path_of(config_home, home) {
            Some(path) => is_absolute(path),
            None => true,
        },
{
}

// ---------------------------------------------------------------------------
// Replacing
// ---------------------------------------------------------------------------

/// How many names are tried for the temporary file.
pub const ATTEMPTS: u32 = 16;

/// The name of a temporary file.
pub open spec fn temporary_name_of(pid: nat, timestamp: nat, sequence: nat) -> Seq<char> {
    ".settings."@ + decimal(pid) + "."@ + decimal(timestamp) + "."@ + decimal(sequence) + ".tmp"@
}

/// The name of a temporary file: of this process, this time and this call.
pub fn temporary_name(pid: u32, timestamp: u128, sequence: u64) -> (result: String)
    ensures
        result@ == temporary_name_of(pid as nat, timestamp as nat, sequence as nat),
{
    let mut name: String = ".settings.".to_owned();
    push_decimal(&mut name, pid as u64);
    name.append(".");
    push_characters(&mut name, decimal_characters(timestamp).as_slice());
    name.append(".");
    push_decimal(&mut name, sequence);
    name.append(".tmp");
    name
}

/// A step of replacing the file.
#[derive(Clone, Copy, Debug, PartialEq, Eq, Structural)]
pub enum SaveStep {
    CreateDirectory,
    /// To create a temporary file of a new name in the directory.
    CreateTemporary,
    WriteContents,
    SyncContents,
    /// To put the temporary file in the place of the old one.
    Rename,
    SyncDirectory,
    RemoveTemporary,
    Finish,
}

/// What came of a step.
#[derive(Clone, Debug)]
pub enum Outcome {
    Done,
    /// Something of that name is there already.
    Exists(String),
    /// What the system says of it.
    Failed(String),
}

/// How far the file has been replaced.
#[derive(Clone, Debug)]
pub struct Saving {
    /// What the new file holds.
    pub settings: Settings,
    /// What is to be done next.
    pub step: SaveStep,
    /// How many names were taken.
    pub attempts: u32,
    pub error: Option<String>,
}

/// How far the file has been replaced.
#[verifier::ext_equal]
pub struct SavingView {
    pub settings: Settings,
    pub step: SaveStep,
    pub attempts: int,
    pub error: Option<Seq<char>>,
}

impl View for Saving {
    type V = SavingView;

    open spec fn view(&self) -> SavingView {
        SavingView {
            settings: self.settings,
            step: self.step,
            attempts: self.attempts as int,
            error: optional_view(self.error),
        }
    }
}

/// What a step failed with, where it did.
pub open spec fn error_of(outcome: Outcome) -> Option<Seq<char>> {
    match outcome {
        Outcome::Done => None,
        Outcome::Exists(error) => Some(error@),
        Outcome::Failed(error) => Some(error@),
    }
}

/// The step behind one that was done.
pub open spec fn step_behind(step: SaveStep) -> SaveStep {
    match step {
        SaveStep::CreateDirectory => SaveStep::CreateTemporary,
        SaveStep::CreateTemporary => SaveStep::WriteContents,
        SaveStep::WriteContents => SaveStep::SyncContents,
        SaveStep::SyncContents => SaveStep::Rename,
        SaveStep::Rename => SaveStep::SyncDirectory,
        _ => SaveStep::Finish,
    }
}

/// How replacing begins.
pub open spec fn begun(settings: Settings) -> SavingView {
    SavingView {
        settings: settings.normalized(),
        step: SaveStep::CreateDirectory,
        attempts: 0,
        error: None,
    }
}

/// How replacing goes on after a step.
pub open spec fn advanced(
    saving: SavingView,
    outcome: Outcome,
    path: Seq<char>,
    directory: Seq<char>,
) -> SavingView {
    let failed = |step: SaveStep, error: Seq<char>|
        SavingView { step, error: Some(error), ..saving };
    match (saving.step, error_of(outcome)) {
        (SaveStep::Finish, _) => saving,
        (SaveStep::RemoveTemporary, _) => SavingView { step: SaveStep::Finish, ..saving },
        (step, None) => SavingView { step: step_behind(step), ..saving },
        (SaveStep::CreateDirectory, Some(error)) => failed(
            SaveStep::Finish,
            "Could not create "@ + directory + ": "@ + error,
        ),
        (SaveStep::CreateTemporary, Some(error)) => if !(outcome is Exists) {
            failed(SaveStep::Finish, "Could not create temporary settings: "@ + error)
        } else if saving.attempts + 1 < ATTEMPTS {
            SavingView { attempts: saving.attempts + 1, ..saving }
        } else {
            failed(
                SaveStep::Finish,
                "Could not create temporary settings: "@
                    + "Could not choose a unique temporary file"@,
            )
        },
        (_, Some(error)) => failed(
            SaveStep::RemoveTemporary,
            "Could not save "@ + path + ": "@ + error,
        ),
    }
}

impl Saving {
    /// Begins to replace the file by one that holds the settings within their
    /// bounds.
    pub fn new(settings: Settings) -> (result: Self)
        ensures
            result@ == begun(settings),
            is_saving(result@),
    {
        let mut normalized: Settings = settings;
        normalized.normalize();
        Saving {
            settings: normalized,
            step: SaveStep::CreateDirectory,
            attempts: 0,
            error: None,
        }
    }

    fn fail(self, step: SaveStep, what: &str, error: &str) -> (result: Self)
        ensures
            result@ == (SavingView { step, error: Some(what@ + error@), ..self@ }),
    {
        let mut text: String = what.to_owned();
        text.append(error);
        Saving { step, error: Some(text), ..self }
    }

    /// Goes on after a step of replacing the file at a path.
    pub fn advance(self, outcome: &Outcome, path: &str, directory: &str) -> (result: Self)
        requires
            is_saving(self@),
        ensures
            result@ == advanced(self@, *outcome, path@, directory@),
            is_saving(result@),
    {
        match self.step {
            SaveStep::Finish => {
                return self;
            },
            SaveStep::RemoveTemporary => {
                return Saving { step: SaveStep::Finish, ..self };
            },
            _ => {},
        }
        let (exists, error): (bool, &str) = match outcome {
            Outcome::Done => {
                let step: SaveStep = match self.step {
                    SaveStep::CreateDirectory => SaveStep::CreateTemporary,
                    SaveStep::CreateTemporary => SaveStep::WriteContents,
                    SaveStep::WriteContents => SaveStep::SyncContents,
                    SaveStep::SyncContents => SaveStep::Rename,
                    SaveStep::Rename => SaveStep::SyncDirectory,
                    _ => SaveStep::Finish,
                };
                return Saving { step, ..self };
            },
            Outcome::Exists(error) => (true, error.as_str()),
            Outcome::Failed(error) => (false, error.as_str()),
        };
        match self.step {
            SaveStep::CreateDirectory => {
                let error: String = failure("Could not create ", directory, error);
                Saving { step: SaveStep::Finish, error: Some(error), ..self }
            },
            SaveStep::CreateTemporary => {
                if !exists {
                    self.fail(SaveStep::Finish, "Could not create temporary settings: ", error)
                } else if self.attempts + 1 < ATTEMPTS {
                    Saving { attempts: self.attempts + 1, ..self }
                } else {
                    self.fail(
                        SaveStep::Finish,
                        "Could not create temporary settings: ",
                        "Could not choose a unique temporary file",
                    )
                }
            },
            _ => {
                let error: String = failure("Could not save ", path, error);
                Saving { step: SaveStep::RemoveTemporary, error: Some(error), ..self }
            },
        }
    }
}

/// Whether replacing is in a state that it can come to.
pub open spec fn is_saving(saving: SavingView) -> bool {
    &&& saving.settings.is_supported()
    &&& 0 <= saving.attempts < ATTEMPTS
    &&& saving.step == SaveStep::RemoveTemporary ==> saving.error is Some
    &&& saving.step != SaveStep::RemoveTemporary && saving.step != SaveStep::Finish
        ==> saving.error is None
}

/// Whether a step is one of those that need the temporary file, or comes behind them.
pub open spec fn follows_creation(step: SaveStep) -> bool {
    ||| step == SaveStep::WriteContents
    ||| step == SaveStep::SyncContents
    ||| step == SaveStep::Rename
    ||| step == SaveStep::SyncDirectory
}

/// The old file is replaced only by one whose contents are written and synced.
pub proof fn lemma_rename_comes_last(
    saving: SavingView,
    outcome: Outcome,
    path: Seq<char>,
    directory: Seq<char>,
)
    ensures
        advanced(saving, outcome, path, directory).step == SaveStep::Rename ==> saving.step
            == SaveStep::SyncContents && outcome is Done,
        advanced(saving, outcome, path, directory).step == SaveStep::SyncContents ==> saving.step
            == SaveStep::WriteContents && outcome is Done,
{
}

/// Once there is a temporary file, a step that fails is followed by its removal.
pub proof fn lemma_temporary_is_removed(
    saving: SavingView,
    outcome: Outcome,
    path: Seq<char>,
    directory: Seq<char>,
)
    requires
        follows_creation(saving.step),
        !(outcome is Done),
    ensures
        advanced(saving, outcome, path, directory).step == SaveStep::RemoveTemporary,
        advanced(saving, outcome, path, directory).error is Some,
{
}

/// What is saved is loaded again as it is, and the user is told nothing of it.
pub proof fn lemma_saved_is_loaded(saving: SavingView, path: Seq<char>)
    requires
        is_saving(saving),
    ensures
        settings_of(Loaded::Found(saving.settings)) == saving.settings,
        notice_of(Loaded::Found(saving.settings), path) is None,
{
    lemma_normalized(saving.settings);
    lemma_loaded(Loaded::Found(saving.settings), path);
}

// ---------------------------------------------------------------------------
// What is on disk meanwhile
// ---------------------------------------------------------------------------

/// A file as far as settings go.
pub enum Stored {
    /// There is none.
    Nothing,
    /// It was begun, and may hold anything.
    Begun,
    /// It holds all that was to be written.
    Whole(Settings),
    /// What was there before.
    Earlier,
}

/// The file of the settings and the temporary file.
pub struct Files {
    pub kept: Stored,
    pub temporary: Stored,
}

/// Whether a step may leave the files in a state: one that is done does what it is
/// for, and one that fails leaves a file begun at most where it was writing it. A
/// file is renamed as a whole or not at all.
pub open spec fn may_leave(
    before: Files,
    step: SaveStep,
    settings: Settings,
    done: bool,
    after: Files,
) -> bool {
    match step {
        SaveStep::CreateTemporary => if done {
            after == (Files { temporary: Stored::Begun, ..before })
        } else {
            after == before
        },
        SaveStep::WriteContents => if done {
            after == (Files { temporary: Stored::Whole(settings), ..before })
        } else {
            after == (Files { temporary: Stored::Begun, ..before })
        },
        SaveStep::Rename => if done {
            after == (Files { kept: before.temporary, temporary: Stored::Nothing })
        } else {
            after == before
        },
        SaveStep::RemoveTemporary => if done {
            after == (Files { temporary: Stored::Nothing, ..before })
        } else {
            after == before
        },
        _ => after == before,
    }
}

/// Whether the file of the settings is the earlier one or the new one as a whole,
/// and which of them it is at each step.
pub open spec fn is_replacing(saving: SavingView, files: Files) -> bool {
    let new = Stored::Whole(saving.settings);
    match saving.step {
        SaveStep::CreateDirectory | SaveStep::CreateTemporary => files.kept == Stored::Earlier
            && files.temporary == Stored::Nothing,
        SaveStep::WriteContents => files.kept == Stored::Earlier,
        SaveStep::SyncContents | SaveStep::Rename => files.kept == Stored::Earlier
            && files.temporary == new,
        SaveStep::SyncDirectory => files.kept == new && files.temporary == Stored::Nothing,
        SaveStep::RemoveTemporary => files.kept == Stored::Earlier || files.kept == new,
        SaveStep::Finish => if saving.error is None {
            files.kept == new && files.temporary == Stored::Nothing
        } else {
            files.kept == Stored::Earlier || files.kept == new
        },
    }
}

/// Replacing begins with the earlier settings in place.
pub proof fn lemma_begun(settings: Settings)
    ensures
        is_saving(begun(settings)),
        is_replacing(
            begun(settings),
            Files { kept: Stored::Earlier, temporary: Stored::Nothing },
        ),
{
}

/// The file is replaced as a whole or not at all: before each step, whatever came of
/// those before it, the settings are the earlier ones or the new ones, and they are
/// the new ones where replacing ended without an error.
pub proof fn lemma_file_is_replaced_as_a_whole(
    saving: SavingView,
    before: Files,
    outcome: Outcome,
    after: Files,
    path: Seq<char>,
    directory: Seq<char>,
)
    requires
        is_saving(saving),
        is_replacing(saving, before),
        may_leave(before, saving.step, saving.settings, outcome is Done, after),
    ensures
        is_replacing(advanced(saving, outcome, path, directory), after),
        after.kept == Stored::Earlier || after.kept == Stored::Whole(saving.settings),
{
}

/// Nothing is left of the temporary file once it was removed.
pub proof fn lemma_nothing_is_left_behind(
    saving: SavingView,
    before: Files,
    outcome: Outcome,
    after: Files,
    path: Seq<char>,
    directory: Seq<char>,
)
    requires
        is_saving(saving),
        is_replacing(saving, before),
        may_leave(before, saving.step, saving.settings, outcome is Done, after),
        saving.step != SaveStep::Finish,
        advanced(saving, outcome, path, directory).step == SaveStep::Finish,
    ensures
        saving.step == SaveStep::RemoveTemporary && !(outcome is Done) || after.temporary
            == Stored::Nothing,
{
}

/// How many steps are left at most.
pub open spec fn steps_left(saving: SavingView) -> int {
    match saving.step {
        SaveStep::CreateDirectory => 100,
        SaveStep::CreateTemporary => 50 - saving.attempts,
        SaveStep::WriteContents => 9,
        SaveStep::SyncContents => 8,
        SaveStep::Rename => 7,
        SaveStep::SyncDirectory => 6,
        SaveStep::RemoveTemporary => 1,
        SaveStep::Finish => 0,
    }
}

/// Replacing the file comes to an end, and without an error exactly where the last
/// of its steps was done.
pub proof fn lemma_saving_ends(
    saving: SavingView,
    outcome: Outcome,
    path: Seq<char>,
    directory: Seq<char>,
)
    requires
        is_saving(saving),
        saving.step != SaveStep::Finish,
    ensures
        is_saving(advanced(saving, outcome, path, directory)),
        0 <= steps_left(advanced(saving, outcome, path, directory)) < steps_left(saving),
        advanced(saving, outcome, path, directory).step == SaveStep::Finish ==> (advanced(
            saving,
            outcome,
            path,
            directory,
        ).error is None <==> saving.step == SaveStep::SyncDirectory && outcome is Done),
{
}

// ---------------------------------------------------------------------------
// Laws of bounds and places
// ---------------------------------------------------------------------------

/// Settings out of their bounds become the nearest bound, each by itself, and 1 where they are
/// no finite numbers.
pub proof fn lemma_normalized_is_nearest(settings: Settings)
    ensures
        ({
            let one = pow2(FINEST as nat);
            let after = settings.normalized();
            let refresh = settings.refresh_secs;
            let scale = settings.scale;
            &&& !refresh.finite() ==> after.refresh_secs.value() == one
            &&& refresh.finite() && 2 * refresh.value() < one ==> 2 * after.refresh_secs.value()
                == one
            &&& refresh.finite() && refresh.value() > 5 * one ==> after.refresh_secs.value() == 5
                * one
            &&& refresh.finite() && one <= 2 * refresh.value() && refresh.value() <= 5 * one
                ==> after.refresh_secs == refresh
            &&& !scale.finite() ==> after.scale.value() == one
            &&& scale.finite() && scale.value() < one ==> after.scale.value() == one
            &&& scale.finite() && scale.value() > 2 * one ==> after.scale.value() == 2 * one
            &&& scale.finite() && one <= scale.value() <= 2 * one ==> after.scale == scale
        }),
{
    lemma_bounds();
    let refresh = settings.refresh_secs;
    let scale = settings.scale;
    if refresh.finite() {
        lemma_order_is_numeric(refresh, shortest_refresh());
        lemma_order_is_numeric(longest_refresh(), refresh);
    }
    if scale.finite() {
        lemma_order_is_numeric(scale, smallest_scale());
        lemma_order_is_numeric(largest_scale(), scale);
    }
}

/// What is read of a file is used, within its bounds; without a file that can be used, the
/// settings are 1 second and a scale of 1.
pub proof fn lemma_what_is_loaded_is_used(loaded: Loaded)
    ensures
        loaded matches Loaded::Found(settings) ==> (settings.is_supported() ==> settings_of(loaded)
            == settings),
        !(loaded is Found) ==> settings_of(loaded).refresh_secs.value() == pow2(FINEST as nat)
            && settings_of(loaded).scale.value() == pow2(FINEST as nat),
{
    lemma_bounds();
    if let Loaded::Found(settings) = loaded {
        lemma_normalized(settings);
    }
}

/// Settings are kept in `loadpeek/settings.json`, below the directory for configuration where
/// that is absolute, or else below `.config` in the home directory where that is.
pub proof fn lemma_where_settings_are_kept(config_home: Option<Seq<u8>>, home: Option<Seq<u8>>)
    ensures
        ({
            let slash = 0x2fu8;
            let end = seq![slash] + directory_name() + seq![slash] + file_name();
            let configured = config_home is Some && config_home->0.len() > 0 && config_home->0[0]
                == slash;
            let at_home = home is Some && home->0.len() > 0 && home->0[0] == slash;
            &&& configured && config_home->0.last() != slash ==> path_of(config_home, home) == Some(
                config_home->0 + end,
            )
            &&& configured && config_home->0.last() == slash ==> path_of(config_home, home) == Some(
                config_home->0.drop_last() + end,
            )
            &&& !configured && at_home && home->0.last() != slash ==> path_of(config_home, home)
                == Some(home->0 + (seq![slash] + config_name()) + end)
            &&& !configured && at_home && home->0.last() == slash ==> path_of(config_home, home)
                == Some(home->0.drop_last() + (seq![slash] + config_name()) + end)
            &&& !configured && !at_home ==> path_of(config_home, home) is None
        }),
{
    let slash = 0x2fu8;
    let end = seq![slash] + directory_name() + seq![slash] + file_name();
    if let Some(base) = base_of(config_home, home) {
        let path = path_of(config_home, home)->0;
        let inner = below(base, directory_name());
        assert(inner.last() == directory_name().last());
        if base.last() != slash {
            assert(path =~= base + end);
        } else {
            assert(path =~= base.drop_last() + end);
        }
        if !(config_home is Some && is_absolute(config_home->0)) {
            let start = home->0;
            assert(base.last() == config_name().last());
            if start.last() != slash {
                assert(base =~= start + (seq![slash] + config_name()));
            } else {
                assert(base =~= start.drop_last() + (seq![slash] + config_name()));
            }
        }
    }
}

/// The temporary files of two calls have different names.
pub proof fn lemma_temporary_names(pid: nat, timestamp: nat, sequence: nat)
    ensures
        temporary_name_of(pid, timestamp, sequence) == ".settings."@ + decimal(pid) + "."@
            + decimal(timestamp) + "."@ + decimal(sequence) + ".tmp"@,
        digits_value(decimal(pid)) == pid,
        digits_value(decimal(timestamp)) == timestamp,
        digits_value(decimal(sequence)) == sequence,
{
    lemma_decimal_counts(pid);
    lemma_decimal_counts(timestamp);
    lemma_decimal_counts(sequence);
}

} // verus!
