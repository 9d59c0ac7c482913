use facefeature::camera::options::{help_text, parse_options, CameraOptions, FaceMaskMode};
use facefeature::cli::{parse_arguments, usage, Request};
use facefeature::face_id::{FaceCaptureTarget, FaceIdDatabaseMode};

fn parse(arguments: &[&str]) -> Result<CameraOptions, String> {
    parse_options(&arguments.iter().map(|argument| (*argument).to_owned()).collect())
}

#[test]
fn face_id_flag_uses_the_bundled_model() {
    let options = parse(&["--face-id"]).unwrap();
    assert_eq!(
        options.face_id_model,
        Some("models/face_recognition_sface_2021dec.onnx".to_owned())
    );
    assert_eq!(options.face_id_database, Some("data/face_identities.sqlite3".to_owned()));
}

#[test]
fn face_id_model_flag_implies_face_id() {
    let options = parse(&["--face-id-model", "/tmp/custom.onnx"]).unwrap();
    assert_eq!(options.face_id_model, Some("/tmp/custom.onnx".to_owned()));
    assert_eq!(options.face_id_database, Some("data/face_identities.sqlite3".to_owned()));
}

#[test]
fn face_id_database_flag_implies_face_id() {
    let options = parse(&["--face-id-db", "/tmp/people.sqlite3"]).unwrap();
    assert_eq!(
        options.face_id_model,
        Some("models/face_recognition_sface_2021dec.onnx".to_owned())
    );
    assert_eq!(options.face_id_database, Some("/tmp/people.sqlite3".to_owned()));
}

#[test]
fn read_only_implies_face_id_and_selects_read_only_database() {
    let options = parse(&["--read-only"]).unwrap();
    assert!(options.face_id_model.is_some());
    assert!(options.face_id_database.is_some());
    assert_eq!(options.face_id_mode, Some(FaceIdDatabaseMode::ReadOnly));
}

#[test]
fn capture_explicitly_selects_read_write_database() {
    let options = parse(&["--capture", "--name", "Radit"]).unwrap();
    assert!(options.face_id_model.is_some());
    assert!(options.face_id_database.is_some());
    assert_eq!(options.face_id_mode, Some(FaceIdDatabaseMode::ReadWrite));
    assert_eq!(
        options.capture_target,
        Some(FaceCaptureTarget::New { name: "Radit".to_owned() })
    );
}

#[test]
fn benchmark_is_headless_and_uses_the_bundled_model() {
    let options = parse(&["--benchmark"]).unwrap();
    assert_eq!(options.benchmark_iterations, Some(100));
    assert_eq!(
        options.face_id_model,
        Some("models/face_recognition_sface_2021dec.onnx".to_owned())
    );
    assert!(options.face_id_database.is_none());
}

#[test]
fn benchmark_iterations_imply_benchmark_mode() {
    let options = parse(&["--benchmark-iterations", "17"]).unwrap();
    assert_eq!(options.benchmark_iterations, Some(17));
    assert!(options.face_id_model.is_some());
}

#[test]
fn benchmark_and_capture_conflict() {
    let error = parse(&["--benchmark", "--capture", "--name", "Test"]).unwrap_err();
    assert!(error.contains("cannot be used together"));
}

#[test]
fn polygon_face_mask_is_an_independent_camera_option() {
    let options = parse(&["--face-mask", "polygon"]).unwrap();
    assert_eq!(options.face_mask, FaceMaskMode::Polygon);
    assert!(options.face_id_model.is_none());
    assert!(options.face_id_database.is_none());
}

#[test]
fn mask_only_hides_only_the_camera_presentation() {
    let options = parse(&["--mask-only", "--face-mask", "polygon", "--face-id"]).unwrap();
    assert!(options.mask_only);
    assert_eq!(options.face_mask, FaceMaskMode::Polygon);
    assert!(options.face_id_model.is_some());
    assert!(options.face_id_database.is_some());
}

#[test]
fn depth_face_mask_is_available_with_mask_only() {
    let options = parse(&["--face-mask", "depth", "--mask-only"]).unwrap();
    assert_eq!(options.face_mask, FaceMaskMode::Depth);
    assert!(options.mask_only);
}

#[test]
fn face_mask_rejects_unknown_modes() {
    let error = parse(&["--face-mask", "metal"]).unwrap_err();
    assert_eq!(error, "--face-mask requires polygon, depth, or none");
}

#[test]
fn capture_requires_a_name_or_existing_person() {
    let error = parse(&["--capture"]).unwrap_err();
    assert!(error.contains("requires --name NAME or --person ID"));
}

#[test]
fn capture_can_update_an_existing_person() {
    let options = parse(&["--capture", "--person", "7"]).unwrap();
    assert_eq!(
        options.capture_target,
        Some(FaceCaptureTarget::Existing { person_id: 7 })
    );
}

#[test]
fn read_only_and_capture_conflict() {
    let error = parse(&["--capture", "--read-only"]).unwrap_err();
    assert!(error.contains("cannot be used together"));
    let error = parse(&["--read-only", "--capture", "--name", "Test"]).unwrap_err();
    assert!(error.contains("cannot be used together"));
}

#[test]
fn no_arguments_leave_everything_off() {
    let options = parse(&[]).unwrap();
    assert!(options.face_id_model.is_none());
    assert!(options.face_id_database.is_none());
    assert!(options.face_id_mode.is_none());
    assert!(!options.capture_requested);
    assert!(options.capture_target.is_none());
    assert!(options.benchmark_iterations.is_none());
    assert_eq!(options.face_mask, FaceMaskMode::Off);
    assert!(!options.mask_only);
    assert!(!options.show_help);
    assert_eq!(parse(&["--face-mask", "none"]).unwrap().face_mask, FaceMaskMode::Off);
}

#[test]
fn help_is_asked_for_in_two_ways() {
    assert!(parse(&["--help"]).unwrap().show_help);
    assert!(parse(&["-h"]).unwrap().show_help);
    assert!(help_text().starts_with("facefeature-camera\n\nUSAGE:\n"));
}

#[test]
fn camera_arguments_are_refused_with_a_reason() {
    let refusals: [(&[&str], &str); 19] = [
        (&["--face-mask"], "--face-mask requires polygon, depth, or none"),
        (&["--face-id-model"], "--face-id-model requires a model path"),
        (&["--face-id-db"], "--face-id-db requires a database path"),
        (&["--benchmark-iterations"], "--benchmark-iterations requires a number"),
        (
            &["--benchmark-iterations", "0"],
            "--benchmark-iterations must be between 1 and 100000",
        ),
        (
            &["--benchmark-iterations", "100001"],
            "--benchmark-iterations must be between 1 and 100000",
        ),
        (
            &["--benchmark-iterations", "many"],
            "--benchmark-iterations must be between 1 and 100000",
        ),
        (&["--name"], "--name requires a value"),
        (&["--name", " \t"], "--name cannot be empty"),
        (&["--person"], "--person requires an ID"),
        (&["--person", "0"], "--person must be a positive integer"),
        (&["--person", "-1"], "--person must be a positive integer"),
        (&["--person", "18446744073709551616"], "--person must be a positive integer"),
        (
            &["--capture", "--name", "Radit", "--person", "1"],
            "use either --name or --person, not both",
        ),
        (
            &["--capture", "--person", "1", "--name", "Radit"],
            "use either --name or --person, not both",
        ),
        (&["--name", "Radit"], "--name and --person can only be used with --capture"),
        (&["--person", "1"], "--name and --person can only be used with --capture"),
        (&["--read-only", "--capture"], "--read-only and --capture cannot be used together"),
        (&["--unknown"], "unknown camera option: --unknown"),
    ];
    for (arguments, reason) in refusals {
        assert_eq!(parse(arguments).unwrap_err(), reason);
    }
    assert_eq!(parse(&["--benchmark-iterations", "100000"]).unwrap().benchmark_iterations, Some(100000));
    assert_eq!(
        parse(&["--benchmark-iterations", "+5", "--benchmark"]).unwrap().benchmark_iterations,
        Some(5)
    );
}

fn request(arguments: &[&str]) -> Result<Request, String> {
    parse_arguments(&arguments.iter().map(|argument| (*argument).to_owned()).collect())
}

#[test]
fn the_image_comes_with_or_without_a_command() {
    for arguments in [&["detect", "a.jpg", "--pretty"][..], &["a.jpg", "--pretty"][..]] {
        match request(arguments) {
            Ok(Request::Detect { image_path, pretty }) => {
                assert_eq!(image_path, "a.jpg");
                assert!(pretty);
            }
            other => panic!("{other:?}"),
        }
    }
    assert!(matches!(request(&["a.jpg"]), Ok(Request::Detect { pretty: false, .. })));
    for help in ["-h", "--help", "help"] {
        assert!(matches!(request(&[help]), Ok(Request::Help)));
    }
}

#[test]
fn the_usage_answers_what_is_missing_or_unknown() {
    assert_eq!(request(&[]).unwrap_err(), usage());
    assert_eq!(request(&["detect"]).unwrap_err(), usage());
    assert_eq!(
        request(&["a.jpg", "--fast"]).unwrap_err(),
        format!("unknown argument: --fast\n\n{}", usage())
    );
    assert_eq!(
        usage(),
        "Usage: facefeature [detect] <IMAGE> [--pretty]\n\nDetect local face landmarks and geometry in an image."
    );
}
