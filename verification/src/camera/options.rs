//! The options of the live camera.

use vstd::prelude::*;
use vstd::string::*;
use crate::face_id::capture::FaceCaptureTarget;
use crate::face_id::gallery::FaceIdDatabaseMode;
use crate::face_id::identity;
use crate::text;
use crate::text::{parse_number, same_text, trim};

verus! {

/// What is drawn over a face.
#[derive(Clone, Copy, Debug, PartialEq, Eq, Structural)]
pub enum FaceMaskMode {
    Off,
    Polygon,
    Depth,
}

impl Default for FaceMaskMode {
    fn default() -> (r: Self)
        ensures
            r == FaceMaskMode::Off,
    {
        FaceMaskMode::Off
    }
}

#[derive(Debug)]
pub struct CameraOptions {
    pub face_id_model: Option<String>,
    pub face_id_database: Option<String>,
    pub face_id_mode: Option<FaceIdDatabaseMode>,
    pub capture_requested: bool,
    pub capture_target: Option<FaceCaptureTarget>,
    pub benchmark_iterations: Option<u64>,
    pub face_mask: FaceMaskMode,
    pub mask_only: bool,
    pub show_help: bool,
}

/// The content of the options.
#[verifier::ext_equal]
pub struct OptionsView {
    pub face_id_model: Option<Seq<char>>,
    pub face_id_database: Option<Seq<char>>,
    pub face_id_mode: Option<FaceIdDatabaseMode>,
    pub capture_requested: bool,
    pub capture_target: Option<FaceCaptureTarget>,
    pub benchmark_iterations: Option<u64>,
    pub face_mask: FaceMaskMode,
    pub mask_only: bool,
    pub show_help: bool,
}

impl View for CameraOptions {
    type V = OptionsView;

    open spec fn view(&self) -> OptionsView {
        OptionsView {
            face_id_model: identity::optional_text(self.face_id_model),
            face_id_database: identity::optional_text(self.face_id_database),
            face_id_mode: self.face_id_mode,
            capture_requested: self.capture_requested,
            capture_target: self.capture_target,
            benchmark_iterations: self.benchmark_iterations,
            face_mask: self.face_mask,
            mask_only: self.mask_only,
            show_help: self.show_help,
        }
    }
}

impl Default for CameraOptions {
    fn default() -> (r: Self)
        ensures
            r@ == OptionsView::plain(),
    {
        CameraOptions {
            face_id_model: None,
            face_id_database: None,
            face_id_mode: None,
            capture_requested: false,
            capture_target: None,
            benchmark_iterations: None,
            face_mask: FaceMaskMode::Off,
            mask_only: false,
            show_help: false,
        }
    }
}

/// The path of the bundled model.
pub open spec fn default_model() -> Seq<char> {
    "models/face_recognition_sface_2021dec.onnx"@
}

/// The path of the usual gallery.
pub open spec fn default_database() -> Seq<char> {
    "data/face_identities.sqlite3"@
}

/// A path, or a default where there is none.
pub open spec fn or_default(path: Option<Seq<char>>, default_path: Seq<char>) -> Option<Seq<char>> {
    if path is Some {
        path
    } else {
        Some(default_path)
    }
}

/// What one option comes to: the options then, and where the next one stands.
pub type Step = Result<(OptionsView, int), Seq<char>>;

impl OptionsView {
    /// No options.
    pub open spec fn plain() -> OptionsView {
        OptionsView {
            face_id_model: None,
            face_id_database: None,
            face_id_mode: None,
            capture_requested: false,
            capture_target: None,
            benchmark_iterations: None,
            face_mask: FaceMaskMode::Off,
            mask_only: false,
            show_help: false,
        }
    }

    /// The options with a model, the bundled one where there is none.
    pub open spec fn with_model(self) -> OptionsView {
        OptionsView { face_id_model: or_default(self.face_id_model, default_model()), ..self }
    }

    /// The options with a gallery, the usual one where there is none.
    pub open spec fn with_database(self) -> OptionsView {
        OptionsView {
            face_id_database: or_default(self.face_id_database, default_database()),
            ..self
        }
    }

    /// An option that is followed by a value.
    pub open spec fn with_value(self, flag: Seq<char>, value: String) -> Result<
        OptionsView,
        Seq<char>,
    > {
        if flag == "--face-id-model"@ {
            Ok(OptionsView { face_id_model: Some(value@), ..self }.with_database())
        } else if flag == "--face-id-db"@ {
            Ok(OptionsView { face_id_database: Some(value@), ..self }.with_model())
        } else if flag == "--benchmark-iterations"@ {
            match text::spec_parse_number(value@) {
                Some(count) => if 1 <= count <= 100_000 {
                    Ok(OptionsView { benchmark_iterations: Some(count), ..self }.with_model())
                } else {
                    Err("--benchmark-iterations must be between 1 and 100000"@)
                },
                None => Err("--benchmark-iterations must be between 1 and 100000"@),
            }
        } else if flag == "--face-mask"@ {
            if value@ == "polygon"@ {
                Ok(OptionsView { face_mask: FaceMaskMode::Polygon, ..self })
            } else if value@ == "depth"@ {
                Ok(OptionsView { face_mask: FaceMaskMode::Depth, ..self })
            } else if value@ == "none"@ {
                Ok(OptionsView { face_mask: FaceMaskMode::Off, ..self })
            } else {
                Err("--face-mask requires polygon, depth, or none"@)
            }
        } else if flag == "--name"@ {
            if text::spec_trim(value@).len() == 0 {
                Err("--name cannot be empty"@)
            } else {
                self.targeting(FaceCaptureTarget::New { name: value })
            }
        } else {
            match text::spec_parse_number(value@) {
                Some(person_id) => if person_id > 0 {
                    self.targeting(FaceCaptureTarget::Existing { person_id })
                } else {
                    Err("--person must be a positive integer"@)
                },
                None => Err("--person must be a positive integer"@),
            }
        }
    }

    /// The options with someone to capture.
    pub open spec fn targeting(self, target: FaceCaptureTarget) -> Result<OptionsView, Seq<char>> {
        if self.capture_target is Some {
            Err("use either --name or --person, not both"@)
        } else {
            Ok(OptionsView { capture_target: Some(target), ..self })
        }
    }

    /// An option that stands alone.
    pub open spec fn with_flag(self, flag: Seq<char>) -> Result<OptionsView, Seq<char>> {
        if flag == "--face-id"@ {
            Ok(OptionsView { face_id_model: Some(default_model()), ..self }.with_database())
        } else if flag == "--read-only"@ {
            if self.face_id_mode == Some(FaceIdDatabaseMode::ReadWrite) {
                Err("--read-only and --capture cannot be used together"@)
            } else {
                Ok(
                    OptionsView {
                        face_id_mode: Some(FaceIdDatabaseMode::ReadOnly),
                        ..self
                    }.with_model().with_database(),
                )
            }
        } else if flag == "--capture"@ {
            if self.face_id_mode == Some(FaceIdDatabaseMode::ReadOnly) {
                Err("--read-only and --capture cannot be used together"@)
            } else {
                Ok(
                    OptionsView {
                        face_id_mode: Some(FaceIdDatabaseMode::ReadWrite),
                        capture_requested: true,
                        ..self
                    }.with_model().with_database(),
                )
            }
        } else if flag == "--benchmark"@ {
            Ok(
                OptionsView {
                    benchmark_iterations: if self.benchmark_iterations is Some {
                        self.benchmark_iterations
                    } else {
                        Some(100)
                    },
                    ..self
                }.with_model(),
            )
        } else if flag == "--mask-only"@ {
            Ok(OptionsView { mask_only: true, ..self })
        } else if flag == "--help"@ || flag == "-h"@ {
            Ok(OptionsView { show_help: true, ..self })
        } else {
            Err("unknown camera option: "@ + flag)
        }
    }

    /// The options after the one at position `i`.
    pub open spec fn step(self, arguments: Seq<String>, i: int) -> Step {
        let flag = arguments[i]@;
        match missing_value(flag) {
            Some(message) => if i + 1 < arguments.len() {
                match self.with_value(flag, arguments[i + 1]) {
                    Ok(options) => Ok((options, i + 2)),
                    Err(message) => Err(message),
                }
            } else {
                Err(message)
            },
            None => match self.with_flag(flag) {
                Ok(options) => Ok((options, i + 1)),
                Err(message) => Err(message),
            },
        }
    }

    /// The options after those from position `i` on.
    pub open spec fn read_from(self, arguments: Seq<String>, i: int) -> Result<
        OptionsView,
        Seq<char>,
    >
        decreases arguments.len() - i,
    {
        if i < 0 || i >= arguments.len() {
            Ok(self)
        } else {
            match self.step(arguments, i) {
                Ok(next) => next.0.read_from(arguments, next.1),
                Err(message) => Err(message),
            }
        }
    }

    /// What is wrong with the options as a whole.
    pub open spec fn conflict(self) -> Option<Seq<char>> {
        if self.capture_requested && self.capture_target is None {
            Some("--capture requires --name NAME or --person ID"@)
        } else if !self.capture_requested && self.capture_target is Some {
            Some("--name and --person can only be used with --capture"@)
        } else if self.capture_requested && self.benchmark_iterations is Some {
            Some("--benchmark and --capture cannot be used together"@)
        } else {
            None
        }
    }

    /// What the arguments come to.
    pub open spec fn parsed(arguments: Seq<String>) -> Result<OptionsView, Seq<char>> {
        match OptionsView::plain().read_from(arguments, 0) {
            Ok(options) => match options.conflict() {
                Some(message) => Err(message),
                None => Ok(options),
            },
            Err(message) => Err(message),
        }
    }

    /// The options of a capture, of a read-only gallery and of a benchmark go together: a capture
    /// has someone to capture, writes, and is no benchmark; either use of a gallery has a model
    /// and a path; a benchmark has a model and a number of runs.
    pub open spec fn is_consistent(self) -> bool {
        &&& self.capture_requested ==> self.face_id_mode == Some(FaceIdDatabaseMode::ReadWrite)
        &&& self.face_id_mode is Some ==> self.face_id_model is Some && self.face_id_database is Some
        &&& self.face_id_database is Some ==> self.face_id_model is Some
        &&& self.benchmark_iterations matches Some(count) ==> self.face_id_model is Some && 1 <= count
            <= 100_000
    }
}

/// What is said where the value of an option is missing: nothing of an option without a value.
pub open spec fn missing_value(flag: Seq<char>) -> Option<Seq<char>> {
    if flag == "--face-id-model"@ {
        Some("--face-id-model requires a model path"@)
    } else if flag == "--face-id-db"@ {
        Some("--face-id-db requires a database path"@)
    } else if flag == "--benchmark-iterations"@ {
        Some("--benchmark-iterations requires a number"@)
    } else if flag == "--face-mask"@ {
        Some("--face-mask requires polygon, depth, or none"@)
    } else if flag == "--name"@ {
        Some("--name requires a value"@)
    } else if flag == "--person"@ {
        Some("--person requires an ID"@)
    } else {
        None
    }
}

fn missing_value_text(flag: &str) -> (r: Option<&'static str>)
    ensures
        match r {
            Some(message) => missing_value(flag@) == Some(message@),
            None => missing_value(flag@) is None,
        },
{
    if same_text(flag, "--face-id-model") {
        Some("--face-id-model requires a model path")
    } else if same_text(flag, "--face-id-db") {
        Some("--face-id-db requires a database path")
    } else if same_text(flag, "--benchmark-iterations") {
        Some("--benchmark-iterations requires a number")
    } else if same_text(flag, "--face-mask") {
        Some("--face-mask requires polygon, depth, or none")
    } else if same_text(flag, "--name") {
        Some("--name requires a value")
    } else if same_text(flag, "--person") {
        Some("--person requires an ID")
    } else {
        None
    }
}

impl CameraOptions {
    fn enable_model(&mut self)
        ensures
            final(self)@ == old(self)@.with_model(),
    {
        if self.face_id_model.is_none() {
            self.face_id_model = Some("models/face_recognition_sface_2021dec.onnx".to_owned());
        }
    }

    fn enable_database(&mut self)
        ensures
            final(self)@ == old(self)@.with_database(),
    {
        if self.face_id_database.is_none() {
            self.face_id_database = Some("data/face_identities.sqlite3".to_owned());
        }
    }

    /// The model and the gallery, the usual ones where there are none.
    fn enable_face_id_defaults(&mut self)
        ensures
            final(self)@ == old(self)@.with_model().with_database(),
    {
        self.enable_model();
        self.enable_database();
    }

    fn target(&mut self, target: FaceCaptureTarget) -> (r: Result<(), String>)
        ensures
            match r {
                Ok(()) => old(self)@.targeting(target) == Ok::<OptionsView, Seq<char>>(
                    final(self)@,
                ),
                Err(message) => old(self)@.targeting(target) == Err::<OptionsView, Seq<char>>(
                    message@,
                ),
            },
    {
        if self.capture_target.is_some() {
            return Err("use either --name or --person, not both".to_owned());
        }
        self.capture_target = Some(target);
        Ok(())
    }

    fn set_value(&mut self, flag: &str, value: &String) -> (r: Result<(), String>)
        ensures
            match r {
                Ok(()) => old(self)@.with_value(flag@, *value) == Ok::<OptionsView, Seq<char>>(
                    final(self)@,
                ),
                Err(message) => old(self)@.with_value(flag@, *value) == Err::<
                    OptionsView,
                    Seq<char>,
                >(message@),
            },
    {
        if same_text(flag, "--face-id-model") {
            self.face_id_model = Some(value.clone());
            self.enable_database();
            Ok(())
        } else if same_text(flag, "--face-id-db") {
            self.face_id_database = Some(value.clone());
            self.enable_model();
            Ok(())
        } else if same_text(flag, "--benchmark-iterations") {
            if let Some(count) = parse_number(value.as_str()) {
                if 1 <= count && count <= 100_000 {
                    self.benchmark_iterations = Some(count);
                    self.enable_model();
                    return Ok(());
                }
            }
            Err("--benchmark-iterations must be between 1 and 100000".to_owned())
        } else if same_text(flag, "--face-mask") {
            if same_text(value.as_str(), "polygon") {
                self.face_mask = FaceMaskMode::Polygon;
                Ok(())
            } else if same_text(value.as_str(), "depth") {
                self.face_mask = FaceMaskMode::Depth;
                Ok(())
            } else if same_text(value.as_str(), "none") {
                self.face_mask = FaceMaskMode::Off;
                Ok(())
            } else {
                Err("--face-mask requires polygon, depth, or none".to_owned())
            }
        } else if same_text(flag, "--name") {
            if trim(value.as_str()).is_empty() {
                return Err("--name cannot be empty".to_owned());
            }
            self.target(FaceCaptureTarget::New { name: value.clone() })
        } else {
            if let Some(person_id) = parse_number(value.as_str()) {
                if person_id > 0 {
                    return self.target(FaceCaptureTarget::Existing { person_id });
                }
            }
            Err("--person must be a positive integer".to_owned())
        }
    }

    fn set_flag(&mut self, flag: &str) -> (r: Result<(), String>)
        ensures
            match r {
                Ok(()) => old(self)@.with_flag(flag@) == Ok::<OptionsView, Seq<char>>(final(self)@),
                Err(message) => old(self)@.with_flag(flag@) == Err::<OptionsView, Seq<char>>(
                    message@,
                ),
            },
    {
        if same_text(flag, "--face-id") {
            self.face_id_model = Some("models/face_recognition_sface_2021dec.onnx".to_owned());
            self.enable_database();
            Ok(())
        } else if same_text(flag, "--read-only") {
            if let Some(FaceIdDatabaseMode::ReadWrite) = self.face_id_mode {
                return Err("--read-only and --capture cannot be used together".to_owned());
            }
            self.face_id_mode = Some(FaceIdDatabaseMode::ReadOnly);
            self.enable_face_id_defaults();
            Ok(())
        } else if same_text(flag, "--capture") {
            if let Some(FaceIdDatabaseMode::ReadOnly) = self.face_id_mode {
                return Err("--read-only and --capture cannot be used together".to_owned());
            }
            self.face_id_mode = Some(FaceIdDatabaseMode::ReadWrite);
            self.capture_requested = true;
            self.enable_face_id_defaults();
            Ok(())
        } else if same_text(flag, "--benchmark") {
            if self.benchmark_iterations.is_none() {
                self.benchmark_iterations = Some(100);
            }
            self.enable_model();
            Ok(())
        } else if same_text(flag, "--mask-only") {
            self.mask_only = true;
            Ok(())
        } else if same_text(flag, "--help") || same_text(flag, "-h") {
            self.show_help = true;
            Ok(())
        } else {
            Err("unknown camera option: ".to_owned().concat(flag))
        }
    }
}

/// Every option keeps the options consistent.
proof fn lemma_step_consistent(options: OptionsView, arguments: Seq<String>, i: int)
    requires
        options.is_consistent(),
    ensures
        options.step(arguments, i) matches Ok(next) ==> next.0.is_consistent() && next.1 > i,
{
    let flag = arguments[i]@;
    if missing_value(flag) is Some {
        if i + 1 < arguments.len() {
            let value = arguments[i + 1];
            assert(options.with_value(flag, value) matches Ok(next) ==> next.is_consistent());
        }
    } else {
        assert(options.with_flag(flag) matches Ok(next) ==> next.is_consistent());
    }
}

/// Reads the options of the camera.
pub fn parse_options(arguments: &Vec<String>) -> (r: Result<CameraOptions, String>)
    ensures
        text::outcome(r) == OptionsView::parsed(arguments@),
        r matches Ok(options) ==> {
            &&& options@.is_consistent()
            &&& options@.capture_requested == (options@.capture_target is Some)
            &&& options@.capture_requested ==> options@.benchmark_iterations is None
                && options@.face_id_mode == Some(FaceIdDatabaseMode::ReadWrite)
        },
{
    let mut options = CameraOptions::default();
    let mut i: usize = 0;
    while i < arguments.len()
        invariant
            i <= arguments.len(),
            options@.is_consistent(),
            OptionsView::plain().read_from(arguments@, 0) == options@.read_from(
                arguments@,
                i as int,
            ),
        decreases arguments.len() - i,
    {
        proof {
            lemma_step_consistent(options@, arguments@, i as int);
        }
        let flag = arguments[i].as_str();
        match missing_value_text(flag) {
            Some(message) => {
                if i + 1 >= arguments.len() {
                    return Err(message.to_owned());
                }
                if let Err(message) = options.set_value(flag, &arguments[i + 1]) {
                    return Err(message);
                }
                i += 2;
            },
            None => {
                if let Err(message) = options.set_flag(flag) {
                    return Err(message);
                }
                i += 1;
            },
        }
    }
    if options.capture_requested && options.capture_target.is_none() {
        return Err("--capture requires --name NAME or --person ID".to_owned());
    }
    if !options.capture_requested && options.capture_target.is_some() {
        return Err("--name and --person can only be used with --capture".to_owned());
    }
    if options.capture_requested && options.benchmark_iterations.is_some() {
        return Err("--benchmark and --capture cannot be used together".to_owned());
    }
    Ok(options)
}

/// What the camera prints when it is asked for help.
#[verifier::allow_in_spec]
pub fn help_text() -> &'static str
    returns
        "facefeature-camera\n\nUSAGE:\n    facefeature-camera [OPTIONS]\n    facefeature-camera --face-id [OPTIONS]\n    facefeature-camera --read-only [OPTIONS]\n    facefeature-camera --capture (--name NAME | --person ID) [OPTIONS]\n    facefeature-camera --benchmark [OPTIONS]\n\nOPTIONS:\n    --face-id                 Automatic matching and enrollment\n    --read-only               Match from SQLite without inserting or updating rows\n    --capture                 Guided center/left/right/up/down enrollment\n    --name NAME               Create a new named identity during guided capture\n    --person ID               Replace/add guided samples for an existing identity\n    --face-mask MODE          Face overlay: polygon, depth, or none (default)\n    --mask-only               Hide the camera image; retain generated overlays\n    --benchmark               Benchmark headless SFace/Core ML inference\n    --benchmark-iterations N  Timed iterations (default: 100)\n    --face-id-model PATH      Use a custom SFace ONNX model\n    --face-id-db PATH         Use a custom SQLite identity gallery path\n    -h, --help                Print this help",
{
    "facefeature-camera\n\nUSAGE:\n    facefeature-camera [OPTIONS]\n    facefeature-camera --face-id [OPTIONS]\n    facefeature-camera --read-only [OPTIONS]\n    facefeature-camera --capture (--name NAME | --person ID) [OPTIONS]\n    facefeature-camera --benchmark [OPTIONS]\n\nOPTIONS:\n    --face-id                 Automatic matching and enrollment\n    --read-only               Match from SQLite without inserting or updating rows\n    --capture                 Guided center/left/right/up/down enrollment\n    --name NAME               Create a new named identity during guided capture\n    --person ID               Replace/add guided samples for an existing identity\n    --face-mask MODE          Face overlay: polygon, depth, or none (default)\n    --mask-only               Hide the camera image; retain generated overlays\n    --benchmark               Benchmark headless SFace/Core ML inference\n    --benchmark-iterations N  Timed iterations (default: 100)\n    --face-id-model PATH      Use a custom SFace ONNX model\n    --face-id-db PATH         Use a custom SQLite identity gallery path\n    -h, --help                Print this help"
}

impl OptionsView {
    /// A read-only gallery and a capture cannot be combined: once one of them has been asked for,
    /// every list of further options keeps it or is refused.
    pub proof fn law_mode_is_kept(self, arguments: Seq<String>, i: int)
        requires
            self.face_id_mode is Some,
        ensures
            self.read_from(arguments, i) matches Ok(options) ==> options.face_id_mode
                == self.face_id_mode,
        decreases arguments.len() - i,
    {
        if 0 <= i < arguments.len() {
            if let Ok(next) = self.step(arguments, i) {
                assert(next.0.face_id_mode == self.face_id_mode);
                assert(next.1 > i);
                next.0.law_mode_is_kept(arguments, next.1);
            }
        }
    }

    /// The options of the overlay are independent: they change nothing but what is drawn.
    pub proof fn law_masks_are_independent(self, arguments: Seq<String>, i: int)
        requires
            arguments[i]@ == "--face-mask"@ || arguments[i]@ == "--mask-only"@,
        ensures
            self.step(arguments, i) matches Ok(next) ==> next.0 == (OptionsView {
                face_mask: next.0.face_mask,
                mask_only: next.0.mask_only,
                ..self
            }),
    {
        reveal_strlit("--face-mask");
        reveal_strlit("--mask-only");
        reveal_strlit("--face-id-model");
        reveal_strlit("--face-id-db");
        reveal_strlit("--benchmark-iterations");
        reveal_strlit("--name");
        reveal_strlit("--person");
        reveal_strlit("--face-id");
        reveal_strlit("--read-only");
        reveal_strlit("--capture");
        reveal_strlit("--benchmark");
        let flag = arguments[i]@;
        assert("--face-mask"@[7] == 'm' && "--mask-only"@[2] == 'm');
        assert("--read-only"@[2] == 'r');
        assert("--benchmark"@[2] == 'b');
        assert("--face-id-db"@.len() == 12);
    }
}

/// No option is written like another one.
proof fn lemma_options_differ()
    ensures
        "--face-id"@.len() == 9 && "--face-id"@[2] == 'f',
        "--capture"@.len() == 9 && "--capture"@[2] == 'c',
        "--read-only"@.len() == 11 && "--read-only"@[2] == 'r',
        "--benchmark"@.len() == 11 && "--benchmark"@[2] == 'b',
        "--mask-only"@.len() == 11 && "--mask-only"@[2] == 'm',
        "--face-mask"@.len() == 11 && "--face-mask"@[2] == 'f',
        "--help"@.len() == 6 && "--help"@[2] == 'h',
        "--name"@.len() == 6 && "--name"@[2] == 'n',
        "-h"@.len() == 2,
        "--face-id-model"@.len() == 15,
        "--face-id-db"@.len() == 12,
        "--benchmark-iterations"@.len() == 22,
        "--person"@.len() == 8,
        "polygon"@.len() == 7,
        "depth"@.len() == 5,
        "none"@.len() == 4,
{
    reveal_strlit("--face-id");
    reveal_strlit("--capture");
    reveal_strlit("--read-only");
    reveal_strlit("--benchmark");
    reveal_strlit("--mask-only");
    reveal_strlit("--face-mask");
    reveal_strlit("--help");
    reveal_strlit("--name");
    reveal_strlit("-h");
    reveal_strlit("--face-id-model");
    reveal_strlit("--face-id-db");
    reveal_strlit("--benchmark-iterations");
    reveal_strlit("--person");
    reveal_strlit("polygon");
    reveal_strlit("depth");
    reveal_strlit("none");
}

impl OptionsView {
    /// Each option that stands alone does what it is called: recognition without writing is
    /// read-only, a capture writes, either of them has a model and a gallery, a benchmark has a
    /// number of runs and a model, and the others show the mask alone or the help.
    pub proof fn law_flags_do_what_they_say(self, arguments: Seq<String>, i: int)
        requires
            0 <= i < arguments.len(),
        ensures
            ({
                let flag = arguments[i]@;
                let after = self.step(arguments, i);
                &&& flag == "--read-only"@ ==> match after {
                    Ok(next) => self.face_id_mode != Some(FaceIdDatabaseMode::ReadWrite)
                        && next.0.face_id_mode == Some(FaceIdDatabaseMode::ReadOnly)
                        && next.0.face_id_model is Some && next.0.face_id_database is Some
                        && next.0.capture_requested == self.capture_requested && next.1 == i + 1,
                    Err(_) => self.face_id_mode == Some(FaceIdDatabaseMode::ReadWrite),
                }
                &&& flag == "--capture"@ ==> match after {
                    Ok(next) => self.face_id_mode != Some(FaceIdDatabaseMode::ReadOnly)
                        && next.0.face_id_mode == Some(FaceIdDatabaseMode::ReadWrite)
                        && next.0.capture_requested && next.0.face_id_model is Some
                        && next.0.face_id_database is Some && next.1 == i + 1,
                    Err(_) => self.face_id_mode == Some(FaceIdDatabaseMode::ReadOnly),
                }
                &&& flag == "--face-id"@ ==> after is Ok && (after->Ok_0).0.face_id_model is Some && (
                after->Ok_0).0.face_id_database is Some && (after->Ok_0).0.face_id_mode
                    == self.face_id_mode
                &&& flag == "--benchmark"@ ==> after is Ok && (
                after->Ok_0).0.benchmark_iterations == (if self.benchmark_iterations is Some {
                    self.benchmark_iterations
                } else {
                    Some(100u64)
                }) && (after->Ok_0).0.face_id_model is Some
                &&& flag == "--mask-only"@ ==> after == Ok::<(OptionsView, int), Seq<char>>(
                    (OptionsView { mask_only: true, ..self }, i + 1),
                )
                &&& flag == "--help"@ || flag == "-h"@ ==> after == Ok::<
                    (OptionsView, int),
                    Seq<char>,
                >((OptionsView { show_help: true, ..self }, i + 1))
            }),
    {
        lemma_options_differ();
    }

    /// Each option with a value sets what it is called to the value, and is refused without one.
    pub proof fn law_values_are_taken(self, arguments: Seq<String>, i: int)
        requires
            0 <= i < arguments.len(),
        ensures
            ({
                let flag = arguments[i]@;
                let after = self.step(arguments, i);
                let has_value = i + 1 < arguments.len();
                let value = arguments[i + 1]@;
                let takes_value = flag == "--face-mask"@ || flag == "--name"@ || flag
                    == "--person"@ || flag == "--face-id-model"@ || flag == "--face-id-db"@ || flag
                    == "--benchmark-iterations"@;
                &&& takes_value && !has_value ==> after is Err
                &&& takes_value && after is Ok ==> (after->Ok_0).1 == i + 2
                &&& flag == "--face-mask"@ && has_value ==> match after {
                    Ok(next) => next.0 == (OptionsView {
                        face_mask: if value == "polygon"@ {
                            FaceMaskMode::Polygon
                        } else if value == "depth"@ {
                            FaceMaskMode::Depth
                        } else {
                            FaceMaskMode::Off
                        },
                        ..self
                    }) && (value == "polygon"@ || value == "depth"@ || value == "none"@),
                    Err(_) => value != "polygon"@ && value != "depth"@ && value != "none"@,
                }
                &&& flag == "--face-id-model"@ && has_value ==> after is Ok && (
                after->Ok_0).0.face_id_model == Some(value)
                &&& flag == "--face-id-db"@ && has_value ==> after is Ok && (
                after->Ok_0).0.face_id_database == Some(value)
                &&& flag == "--benchmark-iterations"@ && has_value ==> match after {
                    Ok(next) => next.0.benchmark_iterations == text::spec_parse_number(value)
                        && text::spec_parse_number(value) is Some && 1 <= text::spec_parse_number(
                        value,
                    )->0 <= 100_000,
                    Err(_) => !(text::spec_parse_number(value) is Some && 1
                        <= text::spec_parse_number(value)->0 <= 100_000),
                }
                &&& flag == "--name"@ && has_value ==> match after {
                    Ok(next) => next.0.capture_target == Some(
                        FaceCaptureTarget::New { name: arguments[i + 1] },
                    ) && self.capture_target is None && text::spec_trim(value).len() > 0,
                    Err(_) => self.capture_target is Some || text::spec_trim(value).len() == 0,
                }
                &&& flag == "--person"@ && has_value ==> match after {
                    Ok(next) => self.capture_target is None && text::spec_parse_number(value) is Some
                        && text::spec_parse_number(value)->0 > 0 && next.0.capture_target == Some(
                        FaceCaptureTarget::Existing { person_id: text::spec_parse_number(value)->0 },
                    ),
                    Err(_) => self.capture_target is Some || !(text::spec_parse_number(value) is Some
                        && text::spec_parse_number(value)->0 > 0),
                }
            }),
    {
        lemma_options_differ();
    }
}

} // verus!
