//! What the overlay and the log say of faces, and where the labels stand.

use vstd::prelude::*;
use vstd::string::*;
use crate::double::Double;
use crate::face_id::capture;
use crate::face_id::capture::{landmark_pitch_degrees, FaceCaptureStatus};
use crate::face_id::consensus::{Consensus, CONSENSUS_SIZE};
use crate::face_id::gallery::{
    FaceIdDatabaseMode, DATABASE_SCHEMA_VERSION, SFACE_COSINE_THRESHOLD,
};
use crate::face_id::identity::{FaceIdentityMatch, MatchView};
use crate::fixed;
use crate::fixed::{fixed, fixed_single};
use crate::model;
use crate::model::{region, BoundingBox, FaceView, LandmarkKind, Point};
use crate::motion::center;
use crate::single::Single;
use crate::text;
use crate::text::{decimal, quoted};
use crate::tracker::{TrackedFace, TrackedView};

verus! {

/// An angle in degrees with one decimal, after a mark.
pub open spec fn spec_angle(mark: Seq<char>, degrees: Double) -> Seq<char> {
    mark + fixed::spec_fixed(degrees, 1) + "\u{00b0}"@
}

fn angle(mark: &str, degrees: Double) -> (r: String)
    ensures
        r@ == spec_angle(mark@, degrees),
{
    mark.to_owned().concat(fixed(degrees, 1).as_str()).concat("\u{00b0}")
}

/// An angle that may be missing.
pub open spec fn spec_optional_angle(radians: Option<Double>) -> Seq<char> {
    match radians {
        Some(radians) => spec_angle(""@, radians.to_degrees()),
        None => "--"@,
    }
}

fn optional_angle(radians: Option<Double>) -> (r: String)
    ensures
        r@ == spec_optional_angle(radians),
{
    match radians {
        Some(radians) => angle("", radians.to_degrees()),
        None => "--".to_owned(),
    }
}

/// The head pose, with the pitch from landmarks, marked as approximate, where it is not known.
pub open spec fn spec_format_pose(
    yaw: Option<Double>,
    pitch: Option<Double>,
    estimated_pitch_degrees: Option<Double>,
    roll: Option<Double>,
) -> Seq<char> {
    "yaw "@ + spec_optional_angle(yaw) + "  pitch "@ + (match (pitch, estimated_pitch_degrees) {
        (None, Some(degrees)) => spec_angle("~"@, degrees),
        _ => spec_optional_angle(pitch),
    }) + "  roll "@ + spec_optional_angle(roll)
}

pub fn format_pose(
    yaw: Option<Double>,
    pitch: Option<Double>,
    estimated_pitch_degrees: Option<Double>,
    roll: Option<Double>,
) -> (r: String)
    ensures
        r@ == spec_format_pose(yaw, pitch, estimated_pitch_degrees, roll),
{
    let pitch = match (pitch, estimated_pitch_degrees) {
        (None, Some(degrees)) => angle("~", degrees),
        _ => optional_angle(pitch),
    };
    "yaw ".to_owned().concat(optional_angle(yaw).as_str()).concat("  pitch ").concat(
        pitch.as_str(),
    ).concat("  roll ").concat(optional_angle(roll).as_str())
}

/// A name on one line, cut after thirty-two characters.
pub open spec fn spec_short_name(name: Seq<char>) -> Seq<char> {
    Seq::new(
        if name.len() < 32 {
            name.len()
        } else {
            32
        },
        |i: int|
            if name[i] == '\n' || name[i] == '\r' {
                ' '
            } else {
                name[i]
            },
    )
}

fn short_name(name: &str) -> (r: String)
    ensures
        r@ == spec_short_name(name@),
{
    let count: usize = name.unicode_len();
    let limit: usize = if count < 32 {
        count
    } else {
        32
    };
    let mut short = String::new();
    let mut i: usize = 0;
    while i < limit
        invariant
            i <= limit <= name@.len(),
            limit == if name@.len() < 32 {
                name@.len()
            } else {
                32
            },
            short@ == spec_short_name(name@).take(i as int),
        decreases limit - i,
    {
        let ghost before = short@;
        let c = name.get_char(i);
        if c == '\n' || c == '\r' {
            proof {
                reveal_strlit(" ");
            }
            short.append(" ");
        } else {
            short.append(name.substring_char(i, i + 1));
        }
        assert(short@ =~= before.push(spec_short_name(name@)[i as int]));
        assert(spec_short_name(name@).take(i + 1) =~= before.push(
            spec_short_name(name@)[i as int],
        ));
        i += 1;
    }
    assert(spec_short_name(name@).take(limit as int) =~= spec_short_name(name@));
    short
}

/// What a face's label says of the person.
pub open spec fn spec_identity_label(identity: MatchView) -> Seq<char> {
    let name = spec_short_name(identity.display_name());
    let similarity = fixed::spec_fixed(identity.similarity.to_double(), 3);
    (if !identity.persisted {
        "\nID Unknown  unmatched  best "@
    } else if identity.is_new {
        "\nID "@ + name + "  NEW  best "@
    } else {
        "\nID "@ + name + "  similarity "@
    }) + similarity + "\nfp "@ + identity.fingerprint
}

pub fn format_identity_label(identity: &FaceIdentityMatch) -> (r: String)
    ensures
        r@ == spec_identity_label(identity@),
{
    let name = short_name(identity.display_name().as_str());
    let start = if !identity.persisted {
        "\nID Unknown  unmatched  best ".to_owned()
    } else if identity.is_new {
        "\nID ".to_owned().concat(name.as_str()).concat("  NEW  best ")
    } else {
        "\nID ".to_owned().concat(name.as_str()).concat("  similarity ")
    };
    start.concat(fixed_single(identity.similarity, 3).as_str()).concat("\nfp ").concat(
        identity.fingerprint.as_str(),
    )
}

/// How many points a face has in all.
pub open spec fn spec_point_count(face: FaceView) -> nat {
    match model::spec_region(face.landmarks, LandmarkKind::AllPoints) {
        Some(points) => points.len(),
        None => 0,
    }
}

/// The label of a face.
pub open spec fn spec_face_label(
    face: TrackedView,
    identity: Option<MatchView>,
    inference_milliseconds: Double,
) -> Seq<char> {
    let bounds = face.geometry.bounding_box;
    let middle = center(bounds);
    "FACE "@ + text::spec_decimal(face.track_id as nat) + "  "@ + fixed::spec_fixed(
        (face.geometry.confidence * Single::integer(100)).to_double(),
        0,
    ) + "%  "@ + text::spec_decimal(spec_point_count(face.geometry)) + "pts  "@ + fixed::spec_fixed(
        inference_milliseconds,
        0,
    ) + "ms"@ + (match identity {
        Some(identity) => spec_identity_label(identity),
        None => ""@,
    }) + "\nbox x "@ + fixed::spec_fixed(bounds.x, 3) + "  y "@ + fixed::spec_fixed(bounds.y, 3)
        + "\nsize w "@ + fixed::spec_fixed(bounds.width, 3) + "  h "@ + fixed::spec_fixed(
        bounds.height,
        3,
    ) + "\ncenter "@ + fixed::spec_fixed(middle.x, 3) + ", "@ + fixed::spec_fixed(middle.y, 3)
        + "\n"@ + spec_format_pose(
        face.geometry.yaw_radians,
        face.geometry.pitch_radians,
        capture::spec_landmark_pitch_degrees(face.geometry),
        face.geometry.roll_radians,
    )
}

/// The label of a face: its track, its confidence, who it is, where it is and how it is turned.
pub fn face_label(
    face: &TrackedFace,
    identity: Option<&FaceIdentityMatch>,
    inference_milliseconds: Double,
) -> (r: String)
    ensures
        r@ == spec_face_label(
            face@,
            match identity {
                Some(identity) => Some(identity@),
                None => None,
            },
            inference_milliseconds,
        ),
{
    let bounds = face.geometry.bounding_box;
    let middle = center(bounds);
    let count: usize = match region(&face.geometry.landmarks, LandmarkKind::AllPoints) {
        Some(points) => points.len(),
        None => 0,
    };
    let identity = match identity {
        Some(identity) => format_identity_label(identity),
        None => "".to_owned(),
    };
    let pose = format_pose(
        face.geometry.yaw_radians,
        face.geometry.pitch_radians,
        landmark_pitch_degrees(&face.geometry),
        face.geometry.roll_radians,
    );
    "FACE ".to_owned().concat(decimal(face.track_id).as_str()).concat("  ").concat(
        fixed_single(face.geometry.confidence * Single::integer(100), 0).as_str(),
    ).concat("%  ").concat(decimal(count as u64).as_str()).concat("pts  ").concat(
        fixed(inference_milliseconds, 0).as_str(),
    ).concat("ms").concat(identity.as_str()).concat("\nbox x ").concat(
        fixed(bounds.x, 3).as_str(),
    ).concat("  y ").concat(fixed(bounds.y, 3).as_str()).concat("\nsize w ").concat(
        fixed(bounds.width, 3).as_str(),
    ).concat("  h ").concat(fixed(bounds.height, 3).as_str()).concat("\ncenter ").concat(
        fixed(middle.x, 3).as_str(),
    ).concat(", ").concat(fixed(middle.y, 3).as_str()).concat("\n").concat(pose.as_str())
}

/// An angle in degrees that may be missing, marked where it is approximate.
pub open spec fn spec_banner_angle(degrees: Option<Double>, estimated: bool) -> Seq<char> {
    match degrees {
        Some(degrees) => spec_angle(
            if estimated {
                "~"@
            } else {
                ""@
            },
            degrees,
        ),
        None => "--"@,
    }
}

fn banner_angle(degrees: Option<Double>, estimated: bool) -> (r: String)
    ensures
        r@ == spec_banner_angle(degrees, estimated),
{
    match degrees {
        Some(degrees) => angle(
            if estimated {
                "~"
            } else {
                ""
            },
            degrees,
        ),
        None => "--".to_owned(),
    }
}

/// The banner of a guided capture.
pub open spec fn spec_capture_banner(status: FaceCaptureStatus) -> Seq<char> {
    "ENROLL "@ + status.subject@ + "   pose "@ + text::spec_decimal(status.pose_number as nat)
        + "/"@ + text::spec_decimal(status.pose_count as nat) + "   sample "@ + text::spec_decimal(
        status.samples as nat,
    ) + "/"@ + text::spec_decimal(status.samples_required as nat) + "\n"@ + status.instruction@
        + "\nyaw "@ + spec_banner_angle(status.yaw_degrees, false) + "  pitch "@
        + spec_banner_angle(status.pitch_degrees, status.pitch_estimated) + "  quality "@
        + fixed::spec_fixed((status.quality * Single::integer(100)).to_double(), 0) + "%   "@
        + status.message@
}

/// The banner of a guided capture.
pub fn capture_banner(status: &FaceCaptureStatus) -> (r: String)
    ensures
        r@ == spec_capture_banner(*status),
{
    "ENROLL ".to_owned().concat(status.subject.as_str()).concat("   pose ").concat(
        decimal(status.pose_number as u64).as_str(),
    ).concat("/").concat(decimal(status.pose_count as u64).as_str()).concat("   sample ").concat(
        decimal(status.samples as u64).as_str(),
    ).concat("/").concat(decimal(status.samples_required as u64).as_str()).concat("\n").concat(
        status.instruction.as_str(),
    ).concat("\nyaw ").concat(banner_angle(status.yaw_degrees, false).as_str()).concat(
        "  pitch ",
    ).concat(banner_angle(status.pitch_degrees, status.pitch_estimated).as_str()).concat(
        "  quality ",
    ).concat(fixed_single(status.quality * Single::integer(100), 0).as_str()).concat(
        "%   ",
    ).concat(status.message.as_str())
}

/// A colour with its opacity.
#[derive(Clone, Copy, Debug, PartialEq, Eq, Structural)]
pub struct Rgba {
    pub red: Double,
    pub green: Double,
    pub blue: Double,
    pub alpha: Double,
}

/// A colour given in thousandths.
#[verifier::allow_in_spec]
pub fn rgba(red: u64, green: u64, blue: u64, alpha: u64) -> Rgba
    returns
        (Rgba {
            red: Double::ratio(red, 1000),
            green: Double::ratio(green, 1000),
            blue: Double::ratio(blue, 1000),
            alpha: Double::ratio(alpha, 1000),
        }),
{
    Rgba {
        red: Double::ratio(red, 1000),
        green: Double::ratio(green, 1000),
        blue: Double::ratio(blue, 1000),
        alpha: Double::ratio(alpha, 1000),
    }
}

/// The colour of the text of a banner.
#[verifier::allow_in_spec]
pub fn banner_foreground(alert: bool, completed: bool) -> Rgba
    returns
        (if alert {
            rgba(1000, 940, 940, 1000)
        } else if completed {
            rgba(700, 1000, 750, 1000)
        } else {
            rgba(1000, 950, 720, 1000)
        }),
{
    if alert {
        rgba(1000, 940, 940, 1000)
    } else if completed {
        rgba(700, 1000, 750, 1000)
    } else {
        rgba(1000, 950, 720, 1000)
    }
}

/// The colour behind the text of a banner: red where it warns.
#[verifier::allow_in_spec]
pub fn banner_background(alert: bool) -> Rgba
    returns
        (if alert {
            rgba(720, 30, 40, 940)
        } else {
            rgba(20, 30, 40, 900)
        }),
{
    if alert {
        rgba(720, 30, 40, 940)
    } else {
        rgba(20, 30, 40, 900)
    }
}

/// What the log says of a recognized track.
pub open spec fn spec_identity_event(
    track_id: u64,
    result: MatchView,
    consensus: Consensus,
) -> Seq<char> {
    let similarity = fixed::spec_fixed(result.similarity.to_double(), 3);
    "face-id track="@ + text::spec_decimal(track_id as nat) + " person="@ + (
    if result.is_new && !result.persisted {
        "unknown similarity=unmatched best="@
    } else if result.is_new {
        text::spec_decimal(result.person_id as nat) + " similarity=new best="@
    } else {
        text::spec_decimal(result.person_id as nat) + " similarity="@
    }) + similarity + " fingerprint="@ + result.fingerprint + " frames="@ + text::spec_decimal(
        CONSENSUS_SIZE as nat,
    ) + "/"@ + text::spec_decimal(consensus.frames as nat) + " consistency="@ + fixed::spec_fixed(
        consensus.consistency.to_double(),
        3,
    ) + " quality="@ + fixed::spec_fixed(consensus.quality.to_double(), 2) + " pose="@
        + consensus.group.label()@
}

/// What the log says of a recognized track.
pub fn identity_event(track_id: u64, result: &FaceIdentityMatch, consensus: &Consensus) -> (r:
    String)
    ensures
        r@ == spec_identity_event(track_id, result@, *consensus),
{
    let person = if result.is_new && !result.persisted {
        "unknown similarity=unmatched best=".to_owned()
    } else if result.is_new {
        decimal(result.person_id).concat(" similarity=new best=")
    } else {
        decimal(result.person_id).concat(" similarity=")
    };
    "face-id track=".to_owned().concat(decimal(track_id).as_str()).concat(" person=").concat(
        person.as_str(),
    ).concat(fixed_single(result.similarity, 3).as_str()).concat(" fingerprint=").concat(
        result.fingerprint.as_str(),
    ).concat(" frames=").concat(decimal(CONSENSUS_SIZE as u64).as_str()).concat("/").concat(
        decimal(consensus.frames as u64).as_str(),
    ).concat(" consistency=").concat(fixed_single(consensus.consistency, 3).as_str()).concat(
        " quality=",
    ).concat(fixed_single(consensus.quality, 2).as_str()).concat(" pose=").concat(
        consensus.group.label(),
    )
}

/// What the log says of a finished capture of a person whose name comes in quotes.
pub open spec fn spec_capture_line(
    person_id: u64,
    quoted_name: Seq<char>,
    samples: nat,
    fingerprint: Seq<char>,
) -> Seq<char> {
    "face-id capture complete person="@ + text::spec_decimal(person_id as nat) + " name="@
        + quoted_name + " samples="@ + text::spec_decimal(samples) + " fingerprint="@ + fingerprint
}

pub fn capture_line(person_id: u64, quoted_name: &str, samples: u64, fingerprint: &str) -> (r:
    String)
    ensures
        r@ == spec_capture_line(person_id, quoted_name@, samples as nat, fingerprint@),
{
    "face-id capture complete person=".to_owned().concat(decimal(person_id).as_str()).concat(
        " name=",
    ).concat(quoted_name).concat(" samples=").concat(decimal(samples).as_str()).concat(
        " fingerprint=",
    ).concat(fingerprint)
}

/// What the log says of a finished capture.
pub fn capture_event(result: &FaceIdentityMatch, samples: u64) -> (r: String)
    ensures
        r@ == spec_capture_line(
            result.person_id,
            text::quoted_text(result@.display_name()),
            samples as nat,
            result.fingerprint@,
        ),
{
    capture_line(
        result.person_id,
        quoted(result.display_name().as_str()).as_str(),
        samples,
        result.fingerprint.as_str(),
    )
}

/// What the log says of an opened gallery.
pub open spec fn spec_gallery_line(
    path: Seq<char>,
    identities: nat,
    mode: FaceIdDatabaseMode,
) -> Seq<char> {
    "face-id gallery="@ + path + " identities="@ + text::spec_decimal(identities) + " schema="@
        + text::spec_decimal(DATABASE_SCHEMA_VERSION as nat) + " mode="@ + mode.label()@
}

/// What the log says of an opened gallery.
pub fn gallery_line(path: &str, identities: u64, mode: FaceIdDatabaseMode) -> (r: String)
    ensures
        r@ == spec_gallery_line(path@, identities as nat, mode),
{
    "face-id gallery=".to_owned().concat(path).concat(" identities=").concat(
        decimal(identities).as_str(),
    ).concat(" schema=").concat(decimal(DATABASE_SCHEMA_VERSION).as_str()).concat(
        " mode=",
    ).concat(mode.label())
}

/// What the log says at the start.
pub open spec fn spec_startup_line(
    model: Seq<char>,
    database: Seq<char>,
    mode: FaceIdDatabaseMode,
    captures: bool,
) -> Seq<char> {
    "face-id enabled model="@ + model + " database="@ + database + " mode="@ + mode.label()@
        + " operation="@ + (if captures {
        "guided-capture"@
    } else {
        "recognition"@
    }) + " backend=CoreML compute=all threshold="@ + fixed::spec_fixed(
        Single::from_bits(SFACE_COSINE_THRESHOLD).to_double(),
        3,
    )
}

/// What the log says at the start.
pub fn startup_line(
    model: &str,
    database: &str,
    mode: FaceIdDatabaseMode,
    captures: bool,
) -> (r: String)
    ensures
        r@ == spec_startup_line(model@, database@, mode, captures),
{
    let operation = if captures {
        "guided-capture"
    } else {
        "recognition"
    };
    "face-id enabled model=".to_owned().concat(model).concat(" database=").concat(
        database,
    ).concat(" mode=").concat(mode.label()).concat(" operation=").concat(operation).concat(
        " backend=CoreML compute=all threshold=",
    ).concat(fixed_single(Single::from_bits(SFACE_COSINE_THRESHOLD), 3).as_str())
}

/// Where the label of a face stands, between two corners of its box in a window: to the right of
/// the box where there is room, to the left otherwise, and over it where there is none.
pub open spec fn spec_face_label_frame(
    first: Point,
    second: Point,
    preview_width: Double,
    preview_height: Double,
) -> BoundingBox {
    let width = Double::integer(286);
    let height = Double::integer(112);
    let gap = Double::integer(8);
    let zero = Double::integer(0);
    let min_x = first.x.min(second.x);
    let max_x = first.x.max(second.x);
    let max_y = first.y.max(second.y);
    let beside = if preview_width.less(max_x + gap + width) {
        min_x - width - gap
    } else {
        max_x + gap
    };
    BoundingBox {
        x: if beside.less(zero) {
            (min_x + gap).min((preview_width - width).max(zero))
        } else {
            beside
        },
        y: (max_y - height).max(zero).min((preview_height - height).max(zero)),
        width,
        height,
    }
}

pub fn face_label_frame(
    first: Point,
    second: Point,
    preview_width: Double,
    preview_height: Double,
) -> (r: BoundingBox)
    ensures
        r == spec_face_label_frame(first, second, preview_width, preview_height),
{
    let width = Double::integer(286);
    let height = Double::integer(112);
    let gap = Double::integer(8);
    let zero = Double::integer(0);
    let min_x = first.x.min(second.x);
    let max_x = first.x.max(second.x);
    let max_y = first.y.max(second.y);
    let mut x = max_x + gap;
    if preview_width.less(x + width) {
        x = min_x - width - gap;
    }
    if x.less(zero) {
        x = (min_x + gap).min((preview_width - width).max(zero));
    }
    let y = (max_y - height).max(zero).min((preview_height - height).max(zero));
    BoundingBox { x, y, width, height }
}

/// Where the banner stands: centred below the upper edge.
#[verifier::allow_in_spec]
pub fn banner_frame(preview_width: Double, preview_height: Double) -> BoundingBox
    returns
        ({
            let width = Double::integer(540).min(preview_width - Double::integer(24));
            BoundingBox {
                x: (preview_width - width) / Double::integer(2),
                y: (preview_height - Double::integer(78) - Double::integer(18)).max(
                    Double::integer(0),
                ),
                width,
                height: Double::integer(78),
            }
        }),
{
    let width = Double::integer(540).min(preview_width - Double::integer(24));
    BoundingBox {
        x: (preview_width - width) / Double::integer(2),
        y: (preview_height - Double::integer(78) - Double::integer(18)).max(Double::integer(0)),
        width,
        height: Double::integer(78),
    }
}

} // verus!
