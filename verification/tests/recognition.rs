use facefeature::face_id::align::{
    aligned_sface_tensor_bgra, check_tensor, five_landmarks, sample_bgra, sface_template, similarity_transform,
    Color, Pixel,
};
use facefeature::face_id::client::{check_capture_mode, SendOutcome, WorkerStep};
use facefeature::face_id::consensus::{
    is_clear, is_undersized, is_usable, select_consistent, Observation,
};
use facefeature::face_id::embedding::{
    cosine_similarity, embedding_fingerprint, embedding_from_blob, embedding_to_blob,
    mean_embedding, model_checksum, normalize_embedding, quantize,
};
use facefeature::face_id::gallery::PoseGroup;
use facefeature::face_id::{
    FaceCaptureTarget, FaceIdClient, FaceIdDatabaseMode, FaceIdentityMatch,
};
use facefeature::{
    BoundingBox, Double, FaceGeometry, LandmarkKind, LandmarkRegion, Point, Single,
};

fn double(x: f64) -> Double {
    Double::from_bits(x.to_bits())
}

fn single(x: f32) -> Single {
    Single::from_bits(x.to_bits())
}

fn number(x: Single) -> f32 {
    f32::from_bits(x.to_bits())
}

fn singles(values: &[f32]) -> Vec<Single> {
    values.iter().map(|value| single(*value)).collect()
}

fn point(x: f64, y: f64) -> Point {
    Point { x: double(x), y: double(y) }
}

#[test]
fn similarity_transform_maps_source_to_destination() {
    let template = sface_template();
    let source = template.map(|pixel| Pixel {
        x: single(number(pixel.x) * 2.0 + 10.0),
        y: single(number(pixel.y) * 2.0 - 7.0),
    });
    let transform = similarity_transform(&source, &template).unwrap();
    for (source, destination) in source.iter().zip(template) {
        let (a, b) = (number(transform.a), number(transform.b));
        let x = a * number(source.x) - b * number(source.y) + number(transform.tx);
        let y = b * number(source.x) + a * number(source.y) + number(transform.ty);
        assert!((x - number(destination.x)).abs() < 0.001);
        assert!((y - number(destination.y)).abs() < 0.001);
    }
}

#[test]
fn transforms_can_be_undone() {
    let template = sface_template();
    let source = template.map(|pixel| Pixel {
        x: single(number(pixel.y) * 3.0 + 1.0),
        y: single(5.0 - number(pixel.x) * 3.0),
    });
    let transform = similarity_transform(&source, &template).unwrap();
    for (source, destination) in source.iter().zip(template) {
        let back = transform.inverse(destination.x, destination.y);
        assert!((number(back.x) - number(source.x)).abs() < 0.01);
        assert!((number(back.y) - number(source.y)).abs() < 0.01);
    }
    let same = [source[0]; 5];
    assert_eq!(
        similarity_transform(&same, &template).unwrap_err(),
        "face landmarks are degenerate"
    );
    assert_eq!(
        similarity_transform(&template, &same).unwrap_err(),
        "face alignment transform is degenerate"
    );
}

#[test]
fn bgra_sampling_outputs_rgb() {
    let pixels = [10_u8, 20, 30, 255];
    assert_eq!(
        sample_bgra(&pixels, 1, 1, 4, single(0.0), single(0.0)),
        Color { red: single(30.0), green: single(20.0), blue: single(10.0) }
    );
}

#[test]
fn sampling_blends_neighbours_and_stays_in_the_image() {
    let pixels = [0_u8, 0, 0, 255, 100, 50, 200, 255];
    let middle = sample_bgra(&pixels, 2, 1, 8, single(0.5), single(0.0));
    assert_eq!(middle, Color { red: single(100.0), green: single(25.0), blue: single(50.0) });
    let black = sample_bgra(&pixels, 2, 1, 8, single(-9.0), single(-9.0));
    assert_eq!(number(black.red), 0.0);
}

fn aligned_face() -> FaceGeometry {
    let bounding_box = BoundingBox {
        x: double(0.1),
        y: double(0.1),
        width: double(0.8),
        height: double(0.8),
    };
    let landmarks = vec![
        LandmarkRegion { kind: LandmarkKind::LeftEye, points: vec![point(0.34, 0.54)] },
        LandmarkRegion { kind: LandmarkKind::RightEye, points: vec![point(0.66, 0.54)] },
        LandmarkRegion { kind: LandmarkKind::Nose, points: vec![point(0.5, 0.36)] },
        LandmarkRegion {
            kind: LandmarkKind::OuterLips,
            points: vec![point(0.37, 0.18), point(0.63, 0.18)],
        },
    ];
    FaceGeometry {
        confidence: single(0.98),
        landmark_confidence: single(0.98),
        bounding_box,
        roll_radians: Some(double(0.0)),
        yaw_radians: Some(double(0.0)),
        pitch_radians: Some(double(0.0)),
        measurements: FaceGeometry::calculate_measurements(bounding_box, &landmarks),
        landmarks,
    }
}

#[test]
fn aligned_tensors_hold_three_planes() {
    let (width, height) = (16, 16);
    let mut pixels = Vec::new();
    for _ in 0..width * height {
        pixels.extend([30_u8, 60, 90, 255]);
    }
    let tensor =
        aligned_sface_tensor_bgra(&pixels, width, height, 4 * width, &aligned_face()).unwrap();
    assert_eq!(tensor.len(), 3 * 112 * 112);
    assert!((number(tensor[112 * 56 + 56]) - 90.0).abs() < 0.01);
    assert!((number(tensor[112 * 112 + 112 * 56 + 56]) - 60.0).abs() < 0.01);
    assert!((number(tensor[2 * 112 * 112 + 112 * 56 + 56]) - 30.0).abs() < 0.01);
}

#[test]
fn alignment_refuses_what_it_cannot_align() {
    let pixels = vec![0_u8; 16 * 16 * 4];
    let layout = "invalid BGRA pixel buffer layout";
    let align = |pixels: &[u8], width, height, bytes_per_row, face: &FaceGeometry| {
        aligned_sface_tensor_bgra(pixels, width, height, bytes_per_row, face).unwrap_err()
    };
    assert_eq!(align(&pixels, 0, 16, 64, &aligned_face()), layout);
    assert_eq!(align(&pixels, 16, 0, 64, &aligned_face()), layout);
    assert_eq!(align(&pixels, 16, 16, 63, &aligned_face()), layout);
    assert_eq!(align(&pixels[..1023], 16, 16, 64, &aligned_face()), layout);
    assert_eq!(align(&pixels, 16, 16, usize::MAX, &aligned_face()), layout);
    let without = |kind: LandmarkKind| {
        let mut face = aligned_face();
        face.landmarks.retain(|region| region.kind != kind);
        align(&pixels, 16, 16, 64, &face)
    };
    assert_eq!(without(LandmarkKind::LeftEye), "left eye landmark is unavailable");
    assert_eq!(without(LandmarkKind::RightEye), "right eye landmark is unavailable");
    assert_eq!(without(LandmarkKind::Nose), "nose landmark is unavailable");
    assert_eq!(without(LandmarkKind::OuterLips), "outer-lip landmarks are unavailable");
    let mut empty = aligned_face();
    empty.landmarks[3].points.clear();
    assert_eq!(align(&pixels, 16, 16, 64, &empty), "outer-lip landmarks are empty");
}

#[test]
fn tensors_have_the_size_of_the_crop() {
    assert!(check_tensor(&vec![single(0.0); 3 * 112 * 112]).is_ok());
    assert_eq!(check_tensor(&vec![single(0.0); 7]).unwrap_err(), "invalid SFace input length: 7");
}

#[test]
fn landmarks_are_ordered_from_the_left_of_the_image() {
    let pixels = five_landmarks(&aligned_face(), single(100.0), single(200.0)).unwrap();
    assert!(number(pixels[0].x) < number(pixels[1].x));
    assert!(number(pixels[3].x) < number(pixels[4].x));
    assert!((number(pixels[2].x) - 50.0).abs() < 0.001);
    assert!((number(pixels[2].y) - 128.0).abs() < 0.001);
}

#[test]
fn embeddings_are_normalized_or_refused() {
    let unit = normalize_embedding(&singles(&[3.0, 4.0])).unwrap();
    assert_eq!(unit, singles(&[0.6, 0.8]));
    assert_eq!(
        normalize_embedding(&singles(&[0.0, 0.0])).unwrap_err(),
        "face-ID model returned a zero embedding"
    );
    for broken in [Vec::new(), singles(&[f32::NAN, 1.0]), singles(&[1.0, f32::INFINITY])] {
        assert_eq!(
            normalize_embedding(&broken).unwrap_err(),
            "face-ID model returned an empty or non-finite embedding"
        );
    }
    assert_eq!(number(cosine_similarity(&unit, &unit)), 0.6_f32 * 0.6 + 0.8_f32 * 0.8);
    assert_eq!(number(cosine_similarity(&unit, &singles(&[1.0]))), f32::NEG_INFINITY);
}

#[test]
fn means_need_equal_dimensions() {
    let mean = mean_embedding(&vec![singles(&[1.0, 0.0]), singles(&[0.0, 1.0])]).unwrap();
    assert!((number(mean[0]) - 0.5_f32.sqrt()).abs() < 1e-6);
    assert_eq!(mean_embedding(&Vec::new()).unwrap_err(), "guided capture has no embeddings");
    assert_eq!(
        mean_embedding(&vec![singles(&[1.0]), singles(&[1.0, 0.0])]).unwrap_err(),
        "captured embeddings have inconsistent dimensions"
    );
    assert_eq!(
        mean_embedding(&vec![singles(&[1.0]), singles(&[-1.0])]).unwrap_err(),
        "face-ID model returned a zero embedding"
    );
}

#[test]
fn blobs_come_back() {
    let unit = normalize_embedding(&singles(&[3.0, 4.0])).unwrap();
    let blob = embedding_to_blob(&unit);
    let mut expected = 0.6_f32.to_le_bytes().to_vec();
    expected.extend(0.8_f32.to_le_bytes());
    assert_eq!(blob, expected);
    assert_eq!(embedding_from_blob(&blob, 2).unwrap(), unit);
    assert_eq!(
        embedding_from_blob(&blob, 3).unwrap_err(),
        "face-ID database embedding has 8 bytes for dimension 3"
    );
    assert_eq!(
        embedding_from_blob(&blob, usize::MAX).unwrap_err(),
        "face-ID database embedding dimension is too large"
    );
}

#[test]
fn checksums_and_fingerprints_are_digests() {
    assert_eq!(
        model_checksum(&b"abc".to_vec()),
        "ba7816bf8f01cfea414140de5dae2223b00361a396177a9cb410ff61f20015ad"
    );
    let unit = singles(&[0.6, 0.8, -1.0]);
    assert_eq!(quantize(&unit), vec![76, 102, 129]);
    let digest = model_checksum(&quantize(&unit));
    assert_eq!(embedding_fingerprint(&unit), digest[..16].to_owned());
}

fn observation(values: &[f32], quality: f32, group: PoseGroup) -> Observation {
    Observation { embedding: singles(values), quality: single(quality), group }
}

#[test]
fn the_most_consistent_three_are_chosen() {
    let observations = vec![
        observation(&[1.0, 0.0], 0.9, PoseGroup::Center),
        observation(&[0.0, 1.0], 0.9, PoseGroup::Center),
        observation(&[0.99, 0.1], 0.9, PoseGroup::Center),
        observation(&[0.98, 0.2], 0.9, PoseGroup::Center),
    ];
    assert_eq!(select_consistent(&observations), (0, 2, 3));
}

#[test]
fn poor_samples_are_rejected() {
    assert!(is_usable(&aligned_face()));
    let poor = |change: fn(&mut FaceGeometry)| {
        let mut face = aligned_face();
        change(&mut face);
        is_usable(&face)
    };
    assert!(!poor(|face| face.confidence = single(0.5)));
    assert!(!poor(|face| face.landmark_confidence = single(0.5)));
    assert!(!poor(|face| face.bounding_box.width = double(0.01)));
    assert!(!poor(|face| face.roll_radians = Some(double(-0.7))));
    assert!(!poor(|face| face.yaw_radians = Some(double(0.9))));
    assert!(poor(|face| face.yaw_radians = Some(double(-0.8))));
    assert!(poor(|face| face.yaw_radians = None));
    let side = |pixels: f64, whole: f64| double(pixels / whole);
    assert!(!is_undersized(BoundingBox {
        x: double(0.0),
        y: double(0.0),
        width: side(113.0, 1280.0),
        height: side(113.0, 720.0),
    }));
    assert!(is_undersized(BoundingBox {
        x: double(0.0),
        y: double(0.0),
        width: side(111.0, 1280.0),
        height: side(111.0, 720.0),
    }));
}

#[test]
fn flat_and_badly_exposed_crops_are_rejected() {
    assert!(is_clear(&singles(&[100.0, 150.0, 120.0])));
    assert!(!is_clear(&singles(&[100.0, 101.0, 102.0])));
    assert!(!is_clear(&singles(&[0.0, 40.0, 0.0])));
    assert!(!is_clear(&singles(&[255.0, 230.0, 255.0])));
    assert!(!is_clear(&Vec::new()));
}

const INTERVAL: u64 = 90_000_000;

fn submit(client: &mut FaceIdClient, now: u64, embedded: Result<Vec<Single>, String>) -> WorkerStep {
    let face = aligned_face();
    assert!(client.wants_track(5, &face, now));
    let job = client.try_submit(5, singles(&[100.0, 150.0]), &face, now).unwrap();
    assert_eq!(job.track_id, 5);
    assert_eq!(job.group, PoseGroup::Center);
    client.submitted(5, now, SendOutcome::Sent);
    assert!(!client.wants_track(5, &face, now + INTERVAL - 1));
    client.embedded(job, embedded)
}

#[test]
fn three_agreeing_samples_recognize_a_track() {
    let mut client = FaceIdClient::new(None);
    assert!(!client.is_guided_capture());
    assert!(matches!(submit(&mut client, 0, Ok(singles(&[1.0, 0.0]))), WorkerStep::Wait));
    assert!(matches!(submit(&mut client, INTERVAL, Ok(singles(&[1.0, 0.0]))), WorkerStep::Wait));
    match submit(&mut client, 2 * INTERVAL, Ok(singles(&[1.0, 0.0]))) {
        WorkerStep::Identify { consensus } => {
            assert_eq!(consensus.frames, 3);
            assert_eq!(consensus.embedding, singles(&[1.0, 0.0]));
            assert_eq!(number(consensus.consistency), 1.0);
        }
        other => panic!("{other:?}"),
    }
    assert!(!client.wants_track(5, &aligned_face(), 100 * INTERVAL));
    assert!(client.identity_for_track(5).is_none());
    client.identified(
        5,
        FaceIdentityMatch {
            person_id: 9,
            name: None,
            similarity: single(0.9),
            fingerprint: "f".to_owned(),
            is_new: false,
            persisted: true,
        },
    );
    assert_eq!(client.identity_for_track(5).unwrap().person_id, 9);
    assert!(client.identity_for_track(6).is_none());
}

#[test]
fn disagreeing_samples_are_followed_by_more() {
    let mut client = FaceIdClient::new(None);
    let embeddings: [&[f32]; 5] =
        [&[1.0, 0.0, 0.0], &[0.0, 1.0, 0.0], &[0.0, 0.0, 1.0], &[1.0, 0.0, 0.0], &[1.0, 0.0, 0.0]];
    for (index, embedding) in embeddings.iter().enumerate() {
        let step = submit(&mut client, index as u64 * INTERVAL, Ok(singles(embedding)));
        if index < 4 {
            assert!(matches!(step, WorkerStep::Wait));
        } else {
            match step {
                WorkerStep::Identify { consensus } => {
                    assert_eq!(consensus.frames, 5);
                    assert_eq!(consensus.embedding, singles(&[1.0, 0.0, 0.0]));
                }
                other => panic!("{other:?}"),
            }
        }
    }
}

#[test]
fn failures_are_reported_and_a_full_queue_is_retried() {
    let mut client = FaceIdClient::new(None);
    let face = aligned_face();
    client.submitted(5, 0, SendOutcome::Full);
    assert!(client.wants_track(5, &face, 0));
    match submit(&mut client, 0, Err("no output".to_owned())) {
        WorkerStep::Report { message } => assert_eq!(message, "face-id track=5 error: no output"),
        other => panic!("{other:?}"),
    }
    client.submitted(7, 0, SendOutcome::Disconnected);
    assert!(!client.wants_track(7, &face, 100 * INTERVAL));
    assert!(client.try_submit(8, singles(&[0.0, 0.0]), &face, 0).is_none());
}

#[test]
fn captures_need_a_writable_gallery() {
    let target = Some(FaceCaptureTarget::New { name: "Radit".to_owned() });
    assert!(check_capture_mode(FaceIdDatabaseMode::ReadWrite, &target).is_ok());
    assert!(check_capture_mode(FaceIdDatabaseMode::ReadOnly, &None).is_ok());
    assert_eq!(
        check_capture_mode(FaceIdDatabaseMode::ReadOnly, &target).unwrap_err(),
        "guided capture requires a read/write database"
    );
}

#[test]
fn a_guided_capture_runs_to_its_end() {
    let target = FaceCaptureTarget::New { name: "Radit".to_owned() };
    let mut client = FaceIdClient::new(Some(target.clone()));
    assert!(client.is_guided_capture());
    let mut now: u64 = 0;
    let mut committed = false;
    for (yaw, pitch) in [(0.0, 0.0), (-0.4, 0.0), (0.4, 0.0), (0.0, 0.3), (0.0, -0.3)] {
        let mut face = aligned_face();
        face.yaw_radians = Some(double(yaw));
        face.pitch_radians = Some(double(pitch));
        for _ in 0..3 {
            assert!(client.capture_request(&face, now).is_none());
            now += 2_000_000_000;
            let request = client.capture_request(&face, now).unwrap();
            let job = client.try_submit_capture(1, singles(&[1.0]), request);
            client.capture_submitted(SendOutcome::Sent);
            committed = match client.embedded(job, Ok(singles(&[1.0, 0.0]))) {
                WorkerStep::Wait => false,
                WorkerStep::Commit { target: found } => {
                    assert_eq!(found, target);
                    true
                }
                other => panic!("{other:?}"),
            };
            now += 1;
        }
    }
    assert!(committed);
    assert_eq!(client.captured().len(), 15);
    client.commit_failed("disk full");
    let status = client.capture_status().unwrap();
    assert_eq!(status.message, "database error: disk full");
    assert!(status.alert);
}

#[test]
fn lost_capture_samples_are_asked_for_again() {
    let mut client = FaceIdClient::new(Some(FaceCaptureTarget::Existing { person_id: 1 }));
    let face = aligned_face();
    client.report_capture_problem("NO FACE");
    assert!(client.capture_status().unwrap().alert);
    for (round, outcome) in
        [(0_u64, SendOutcome::Full), (1, SendOutcome::Disconnected)]
    {
        let now = round * 10_000_000_000;
        assert!(client.capture_request(&face, now).is_none());
        assert!(client.capture_request(&face, now + 2_000_000_000).is_some());
        client.capture_submitted(outcome);
    }
    assert_eq!(client.capture_status().unwrap().message, "face-ID worker stopped");
    assert!(client.capture_request(&face, 30_000_000_000).is_none());
    let request = client.capture_request(&face, 32_000_000_000).unwrap();
    let job = client.try_submit_capture(1, singles(&[1.0]), request);
    match client.embedded(job, Err("no output".to_owned())) {
        WorkerStep::Report { message } => assert_eq!(message, "face-id track=1 error: no output"),
        other => panic!("{other:?}"),
    }
    assert_eq!(client.capture_status().unwrap().message, "embedding failed; hold the pose again");
    assert!(client.captured().is_empty());
}
