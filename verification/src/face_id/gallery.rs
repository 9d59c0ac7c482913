//! The identity gallery: who is known, who a face is, and what the database is asked to store.
//!
//! The gallery itself reads and writes nothing. It decides what is to be stored; the caller stores
//! it, and hands back what the database answered.

use vstd::prelude::*;
use vstd::arithmetic::power2::pow2;
use vstd::string::*;
use crate::double::Double;
use crate::face_id::capture::{
    CapturePose, FaceCaptureTarget, CAPTURE_SAMPLES_PER_POSE, POSE_COUNT,
};
use crate::face_id::embedding;
use crate::face_id::embedding::{
    copy_embedding, cosine_similarity, embedding_fingerprint, embedding_to_blob, mean_embedding,
};
use crate::face_id::identity;
use crate::face_id::identity::{copy_optional, FaceIdentityMatch, MatchView};
use crate::single::Single;
use crate::text;
use crate::text::{decimal, quoted, same_name, same_text, trim};

verus! {

/// The version of the database schema.
pub const DATABASE_SCHEMA_VERSION: u64 = 3;

/// The similarity from which on two embeddings are of one person: the bits of the number nearest
/// to 0.363.
pub const SFACE_COSINE_THRESHOLD: u32 = 0x3EB9_DB23;

/// How embeddings are stored.
#[verifier::allow_in_spec]
pub fn embedding_format() -> &'static str
    returns
        "f32-le-l2-v1",
{
    "f32-le-l2-v1"
}

#[derive(Clone, Copy, Debug, PartialEq, Eq, Structural)]
pub enum FaceIdDatabaseMode {
    ReadOnly,
    ReadWrite,
}

impl Default for FaceIdDatabaseMode {
    fn default() -> (r: Self)
        ensures
            r == FaceIdDatabaseMode::ReadWrite,
    {
        FaceIdDatabaseMode::ReadWrite
    }
}

impl FaceIdDatabaseMode {
    #[verifier::allow_in_spec]
    pub fn label(self) -> &'static str
        returns
            (match self {
                FaceIdDatabaseMode::ReadOnly => "read-only",
                FaceIdDatabaseMode::ReadWrite => "read-write",
            }),
    {
        match self {
            FaceIdDatabaseMode::ReadOnly => "read-only",
            FaceIdDatabaseMode::ReadWrite => "read-write",
        }
    }
}

/// Which pose templates are relevant to a head pose.
#[derive(Clone, Copy, Debug, PartialEq, Eq, Structural)]
pub enum PoseGroup {
    Center,
    Horizontal,
    Vertical,
}

impl PoseGroup {
    /// The group of a head pose in degrees: up or down from twelve degrees of pitch on, as long as
    /// the face is not turned by more than fourteen degrees, and left or right from twelve degrees
    /// of yaw on. An angle that is missing counts as zero.
    #[verifier::allow_in_spec]
    pub fn of(yaw: Option<Double>, pitch: Option<Double>) -> PoseGroup
        returns
            ({
                let yaw = magnitude_or_zero(yaw);
                let pitch = magnitude_or_zero(pitch);
                if yaw.at_most(Double::integer(14)) && Double::integer(12).at_most(pitch) {
                    PoseGroup::Vertical
                } else if Double::integer(12).at_most(yaw) {
                    PoseGroup::Horizontal
                } else {
                    PoseGroup::Center
                }
            }),
    {
        let yaw = magnitude_or_zero(yaw);
        let pitch = magnitude_or_zero(pitch);
        if yaw.at_most(Double::integer(14)) && Double::integer(12).at_most(pitch) {
            PoseGroup::Vertical
        } else if Double::integer(12).at_most(yaw) {
            PoseGroup::Horizontal
        } else {
            PoseGroup::Center
        }
    }

    #[verifier::allow_in_spec]
    pub fn label(self) -> &'static str
        returns
            (match self {
                PoseGroup::Center => "center",
                PoseGroup::Horizontal => "horizontal",
                PoseGroup::Vertical => "vertical",
            }),
    {
        match self {
            PoseGroup::Center => "center",
            PoseGroup::Horizontal => "horizontal",
            PoseGroup::Vertical => "vertical",
        }
    }

    /// Whether a template with a database label is in the group.
    pub open spec fn spec_includes(self, label: Seq<char>) -> bool {
        match self {
            PoseGroup::Center => label == "center"@,
            PoseGroup::Horizontal => label == "left"@ || label == "right"@,
            PoseGroup::Vertical => label == "up"@ || label == "down"@,
        }
    }

    pub fn includes(self, label: &str) -> (r: bool)
        ensures
            r == self.spec_includes(label@),
    {
        match self {
            PoseGroup::Center => same_text(label, "center"),
            PoseGroup::Horizontal => same_text(label, "left") || same_text(label, "right"),
            PoseGroup::Vertical => same_text(label, "up") || same_text(label, "down"),
        }
    }
}

#[verifier::allow_in_spec]
pub fn magnitude_or_zero(angle: Option<Double>) -> Double
    returns
        (match angle {
            Some(angle) => angle.abs(),
            None => Double::integer(0),
        }),
{
    match angle {
        Some(angle) => angle.abs(),
        None => Double::integer(0),
    }
}

/// The mean embedding of a person in one pose.
#[derive(Debug)]
pub struct PoseTemplate {
    pub pose: String,
    pub embedding: Vec<Single>,
}

/// The content of a pose template.
#[verifier::ext_equal]
pub struct TemplateView {
    pub pose: Seq<char>,
    pub embedding: Seq<Single>,
}

impl View for PoseTemplate {
    type V = TemplateView;

    open spec fn view(&self) -> TemplateView {
        TemplateView { pose: self.pose@, embedding: self.embedding@ }
    }
}

/// The contents of pose templates.
pub open spec fn template_views(templates: Seq<PoseTemplate>) -> Seq<TemplateView> {
    templates.map_values(|template: PoseTemplate| template@)
}

/// A person in the gallery.
#[derive(Debug)]
pub struct Identity {
    pub id: u64,
    pub name: Option<String>,
    pub centroid: Vec<Single>,
    pub pose_templates: Vec<PoseTemplate>,
    pub samples: u32,
    pub fingerprint: String,
}

/// The content of a person's entry.
#[verifier::ext_equal]
pub struct IdentityView {
    pub id: u64,
    pub name: Option<Seq<char>>,
    pub centroid: Seq<Single>,
    pub pose_templates: Seq<TemplateView>,
    pub samples: u32,
    pub fingerprint: Seq<char>,
}

impl View for Identity {
    type V = IdentityView;

    open spec fn view(&self) -> IdentityView {
        IdentityView {
            id: self.id,
            name: identity::optional_text(self.name),
            centroid: self.centroid@,
            pose_templates: template_views(self.pose_templates@),
            samples: self.samples,
            fingerprint: self.fingerprint@,
        }
    }
}

/// The contents of persons' entries.
pub open spec fn identity_views(identities: Seq<Identity>) -> Seq<IdentityView> {
    identities.map_values(|identity: Identity| identity@)
}

/// The persons that are known, and whether more may be learnt.
#[derive(Debug)]
pub struct IdentityGallery {
    identities: Vec<Identity>,
    writable: bool,
}

/// The content of a gallery.
#[verifier::ext_equal]
pub struct GalleryView {
    pub identities: Seq<IdentityView>,
    pub writable: bool,
}

impl View for IdentityGallery {
    type V = GalleryView;

    closed spec fn view(&self) -> GalleryView {
        GalleryView { identities: identity_views(self.identities@), writable: self.writable }
    }
}

/// The greater of two similarities in the total order, the later one where they are equal.
#[verifier::allow_in_spec]
pub fn later_maximum(first: Single, second: Single) -> Single
    returns
        (if second.precedes(first) {
            first
        } else {
            second
        }),
{
    if second.precedes(first) {
        first
    } else {
        second
    }
}

impl IdentityView {
    /// How similar an embedding is to the centroid, or to the best of the first `k` templates that
    /// are relevant to the head pose.
    pub open spec fn similarity_up_to(self, embedding: Seq<Single>, group: PoseGroup, k: int) -> Single
        decreases k,
    {
        if k <= 0 {
            embedding::spec_cosine_similarity(self.centroid, embedding)
        } else if group.spec_includes(self.pose_templates[k - 1].pose) {
            later_maximum(
                self.similarity_up_to(embedding, group, k - 1),
                embedding::spec_cosine_similarity(self.pose_templates[k - 1].embedding, embedding),
            )
        } else {
            self.similarity_up_to(embedding, group, k - 1)
        }
    }

    /// How similar an embedding is to a person.
    pub open spec fn similarity(self, embedding: Seq<Single>, group: PoseGroup) -> Single {
        self.similarity_up_to(embedding, group, self.pose_templates.len() as int)
    }
}

impl Identity {
    fn similarity(&self, embedding: &Vec<Single>, group: PoseGroup) -> (r: Single)
        ensures
            r == self@.similarity(embedding@, group),
    {
        let mut best = cosine_similarity(&self.centroid, embedding);
        let mut i: usize = 0;
        while i < self.pose_templates.len()
            invariant
                i <= self.pose_templates.len(),
                best == self@.similarity_up_to(embedding@, group, i as int),
            decreases self.pose_templates.len() - i,
        {
            let template = &self.pose_templates[i];
            assert(self@.pose_templates[i as int] == template@);
            if group.includes(template.pose.as_str()) {
                best = later_maximum(best, cosine_similarity(&template.embedding, embedding));
            }
            i += 1;
        }
        best
    }
}

impl GalleryView {
    /// The most similar one of the first `k` persons, the later one where two are as similar.
    pub open spec fn best_up_to(self, embedding: Seq<Single>, group: PoseGroup, k: int) -> Option<
        (int, Single),
    >
        decreases k,
    {
        if k <= 0 {
            None
        } else {
            let similarity = self.identities[k - 1].similarity(embedding, group);
            match self.best_up_to(embedding, group, k - 1) {
                None => Some((k - 1, similarity)),
                Some(best) => if similarity.precedes(best.1) {
                    Some(best)
                } else {
                    Some((k - 1, similarity))
                },
            }
        }
    }

    /// The person that an embedding is most similar to.
    pub open spec fn best(self, embedding: Seq<Single>, group: PoseGroup) -> Option<(int, Single)> {
        self.best_up_to(embedding, group, self.identities.len() as int)
    }

    /// The person that an embedding is of.
    pub open spec fn recognized(self, embedding: Seq<Single>, group: PoseGroup) -> Option<
        (int, Single),
    > {
        match self.best(embedding, group) {
            Some(best) => if Single::from_bits(SFACE_COSINE_THRESHOLD).at_most(best.1) {
                Some(best)
            } else {
                None
            },
            None => None,
        }
    }

    /// How similar an embedding is to the person that it is most similar to; zero where nobody is
    /// known.
    pub open spec fn best_similarity(self, embedding: Seq<Single>, group: PoseGroup) -> Single {
        match self.best(embedding, group) {
            Some(best) => best.1,
            None => Single::integer(0),
        }
    }

    /// The answer for a person that was recognized.
    pub open spec fn recall(self, index: int, similarity: Single) -> MatchView {
        let person = self.identities[index];
        MatchView {
            person_id: person.id,
            name: person.name,
            similarity,
            fingerprint: person.fingerprint,
            is_new: false,
            persisted: true,
        }
    }

    /// The gallery after a match was counted.
    pub open spec fn counted(self, index: int, samples: u32) -> GalleryView {
        GalleryView {
            identities: self.identities.update(
                index,
                IdentityView { samples, ..self.identities[index] },
            ),
            ..self
        }
    }

    /// The gallery with one person more.
    pub open spec fn enrolled(self, person: IdentityView) -> GalleryView {
        GalleryView { identities: self.identities.push(person), ..self }
    }

    /// The number of samples that a person has after `count` more.
    pub open spec fn samples_after(self, index: int, count: int) -> u32 {
        let total = self.identities[index].samples + count;
        (if total <= u32::MAX {
            total
        } else {
            u32::MAX as int
        }) as u32
    }

    /// The first person with a number.
    pub open spec fn index_of(self, person_id: u64, from: int) -> Option<int>
        decreases self.identities.len() - from,
    {
        if from < 0 || from >= self.identities.len() {
            None
        } else if self.identities[from].id == person_id {
            Some(from)
        } else {
            self.index_of(person_id, from + 1)
        }
    }

    /// The first person with a name, whatever the case of its letters.
    pub open spec fn index_named(self, name: Seq<char>, from: int) -> Option<int>
        decreases self.identities.len() - from,
    {
        if from < 0 || from >= self.identities.len() {
            None
        } else if self.identities[from].name matches Some(stored) && text::spec_same_name(
            stored,
            name,
        ) {
            Some(from)
        } else {
            self.index_named(name, from + 1)
        }
    }
}

/// What an embedding calls for.
#[derive(Debug)]
pub enum IdentifyStep {
    /// The answer; nothing is to be stored.
    Answer { result: FaceIdentityMatch },
    /// The answer, once the number of samples of the person at `index` has been stored. The
    /// centroid stays as it is.
    Count { index: usize, samples: u32, result: FaceIdentityMatch },
    /// A new person, to be stored with this fingerprint and this embedding as centroid.
    Enroll { fingerprint: String, embedding: Vec<Single>, similarity: Single },
}

impl IdentityGallery {
    /// A gallery of the persons that a database holds.
    pub fn new(identities: Vec<Identity>, mode: FaceIdDatabaseMode) -> (r: Self)
        ensures
            r@ == (GalleryView {
                identities: identity_views(identities@),
                writable: mode == FaceIdDatabaseMode::ReadWrite,
            }),
    {
        IdentityGallery { identities, writable: mode == FaceIdDatabaseMode::ReadWrite }
    }

    /// How many persons are known.
    pub fn len(&self) -> (r: usize)
        ensures
            r == self@.identities.len(),
    {
        self.identities.len()
    }

    /// The person at `index`.
    pub fn person(&self, index: usize) -> (r: &Identity)
        requires
            index < self@.identities.len(),
        ensures
            r@ == self@.identities[index as int],
    {
        &self.identities[index]
    }

    fn best(&self, embedding: &Vec<Single>, group: PoseGroup) -> (r: Option<(usize, Single)>)
        ensures
            match r {
                Some(found) => self@.best(embedding@, group) == Some((found.0 as int, found.1))
                    && found.0 < self@.identities.len(),
                None => self@.best(embedding@, group) is None,
            },
    {
        let mut best: Option<(usize, Single)> = None;
        let mut i: usize = 0;
        while i < self.identities.len()
            invariant
                i <= self.identities.len(),
                match best {
                    Some(found) => self@.best_up_to(embedding@, group, i as int) == Some(
                        (found.0 as int, found.1),
                    ) && found.0 < i,
                    None => self@.best_up_to(embedding@, group, i as int) is None,
                },
            decreases self.identities.len() - i,
        {
            assert(self@.identities[i as int] == self.identities[i as int]@);
            let similarity = self.identities[i].similarity(embedding, group);
            best = match best {
                None => Some((i, similarity)),
                Some(found) => {
                    if similarity.precedes(found.1) {
                        Some(found)
                    } else {
                        Some((i, similarity))
                    }
                },
            };
            i += 1;
        }
        best
    }

    /// Decides who an embedding is of, against the centroids and the templates that are relevant
    /// to the head pose.
    pub fn identify(&self, embedding: Vec<Single>, group: PoseGroup) -> (r: IdentifyStep)
        ensures
            match r {
                IdentifyStep::Answer { result } => {
                    &&& !self@.writable
                    &&& result@ == match self@.recognized(embedding@, group) {
                        Some(found) => self@.recall(found.0, found.1),
                        None => MatchView {
                            person_id: 0,
                            name: None,
                            similarity: self@.best_similarity(embedding@, group),
                            fingerprint: embedding::spec_embedding_fingerprint(embedding@),
                            is_new: true,
                            persisted: false,
                        },
                    }
                },
                IdentifyStep::Count { index, samples, result } => {
                    &&& self@.writable
                    &&& self@.recognized(embedding@, group) matches Some(found)
                    &&& index == found.0
                    &&& index < self@.identities.len()
                    &&& samples == self@.samples_after(found.0, 1)
                    &&& result@ == self@.recall(found.0, found.1)
                },
                IdentifyStep::Enroll { fingerprint, embedding: centroid, similarity } => {
                    &&& self@.writable
                    &&& self@.recognized(embedding@, group) is None
                    &&& fingerprint@ == embedding::spec_embedding_fingerprint(embedding@)
                    &&& centroid@ == embedding@
                    &&& similarity == self@.best_similarity(embedding@, group)
                },
            },
    {
        let best = self.best(&embedding, group);
        if let Some((index, similarity)) = best {
            if Single::from_bits(SFACE_COSINE_THRESHOLD).at_most(similarity) {
                let person = &self.identities[index];
                assert(self@.identities[index as int] == person@);
                let result = FaceIdentityMatch {
                    person_id: person.id,
                    name: copy_optional(&person.name),
                    similarity,
                    fingerprint: person.fingerprint.clone(),
                    is_new: false,
                    persisted: true,
                };
                if self.writable {
                    let samples: u32 = person.samples.saturating_add(1);
                    return IdentifyStep::Count { index, samples, result };
                }
                return IdentifyStep::Answer { result };
            }
        }
        let similarity = match best {
            Some((_, similarity)) => similarity,
            None => Single::integer(0),
        };
        let fingerprint = embedding_fingerprint(&embedding);
        if !self.writable {
            return IdentifyStep::Answer {
                result: FaceIdentityMatch {
                    person_id: 0,
                    name: None,
                    similarity,
                    fingerprint,
                    is_new: true,
                    persisted: false,
                },
            };
        }
        IdentifyStep::Enroll { fingerprint, embedding, similarity }
    }

    /// Takes the news that the number of samples of a person has been stored.
    pub fn count_stored(&mut self, index: usize, samples: u32)
        requires
            index < old(self)@.identities.len(),
        ensures
            final(self)@ == old(self)@.counted(index as int, samples),
    {
        let ghost before = self@;
        self.identities[index].samples = samples;
        assert(self@.identities =~= before.counted(index as int, samples).identities);
    }

    /// Takes the number under which a new person has been stored.
    pub fn enroll_stored(
        &mut self,
        person_id: u64,
        fingerprint: String,
        embedding: Vec<Single>,
        similarity: Single,
    ) -> (r: FaceIdentityMatch)
        ensures
            final(self)@ == old(self)@.enrolled(
                IdentityView {
                    id: person_id,
                    name: None,
                    centroid: embedding@,
                    pose_templates: Seq::empty(),
                    samples: 1,
                    fingerprint: fingerprint@,
                },
            ),
            r@ == (MatchView {
                person_id,
                name: None,
                similarity,
                fingerprint: fingerprint@,
                is_new: true,
                persisted: true,
            }),
    {
        let ghost before = self@;
        let result = FaceIdentityMatch {
            person_id,
            name: None,
            similarity,
            fingerprint: fingerprint.clone(),
            is_new: true,
            persisted: true,
        };
        let person = Identity {
            id: person_id,
            name: None,
            centroid: embedding,
            pose_templates: Vec::new(),
            samples: 1,
            fingerprint,
        };
        assert(person@.pose_templates =~= Seq::empty());
        self.identities.push(person);
        assert(self@.identities =~= before.identities.push(person@));
        result
    }

    fn index_of(&self, person_id: u64) -> (r: Option<usize>)
        ensures
            match r {
                Some(index) => self@.index_of(person_id, 0) == Some(index as int) && index
                    < self@.identities.len(),
                None => self@.index_of(person_id, 0) is None,
            },
    {
        let mut i: usize = 0;
        while i < self.identities.len()
            invariant
                i <= self.identities.len(),
                self@.index_of(person_id, 0) == self@.index_of(person_id, i as int),
            decreases self.identities.len() - i,
        {
            assert(self@.identities[i as int] == self.identities[i as int]@);
            if self.identities[i].id == person_id {
                return Some(i);
            }
            i += 1;
        }
        None
    }

    fn index_named(&self, name: &str) -> (r: Option<usize>)
        ensures
            match r {
                Some(index) => self@.index_named(name@, 0) == Some(index as int) && index
                    < self@.identities.len(),
                None => self@.index_named(name@, 0) is None,
            },
    {
        let mut i: usize = 0;
        while i < self.identities.len()
            invariant
                i <= self.identities.len(),
                self@.index_named(name@, 0) == self@.index_named(name@, i as int),
            decreases self.identities.len() - i,
        {
            assert(self@.identities[i as int] == self.identities[i as int]@);
            if let Some(stored) = &self.identities[i].name {
                if same_name(stored.as_str(), name) {
                    return Some(i);
                }
            }
            i += 1;
        }
        None
    }

    /// Checks that a capture can begin: a new person needs a name that nobody has, an existing one
    /// must be there.
    pub fn validate_capture_target(&self, target: &FaceCaptureTarget) -> (r: Result<(), String>)
        ensures
            match r {
                Ok(()) => self@.objection(*target) is None,
                Err(message) => self@.objection(*target) == Some(message@),
            },
    {
        match target {
            FaceCaptureTarget::New { name } => {
                let name = trim(name.as_str());
                if name.is_empty() {
                    return Err("capture name cannot be empty".to_owned());
                }
                match self.index_named(name) {
                    Some(index) => {
                        assert(self@.identities[index as int] == self.identities[index as int]@);
                        Err(name_is_taken(quoted(name).as_str(), self.identities[index].id))
                    },
                    None => Ok(()),
                }
            },
            FaceCaptureTarget::Existing { person_id } => {
                match self.index_of(*person_id) {
                    Some(_) => Ok(()),
                    None => Err(
                        "person ".to_owned().concat(decimal(*person_id).as_str()).concat(
                            " does not exist in the identity gallery",
                        ),
                    ),
                }
            },
        }
    }
}

impl GalleryView {
    /// Why a capture cannot begin.
    pub open spec fn objection(self, target: FaceCaptureTarget) -> Option<Seq<char>> {
        match target {
            FaceCaptureTarget::New { name } => {
                let name = text::spec_trim(name@);
                if name.len() == 0 {
                    Some("capture name cannot be empty"@)
                } else {
                    match self.index_named(name, 0) {
                        Some(index) => Some(
                            spec_name_is_taken(
                                text::quoted_text(name),
                                self.identities[index].id,
                            ),
                        ),
                        None => None,
                    }
                }
            },
            FaceCaptureTarget::Existing { person_id } => if self.index_of(person_id, 0) is Some {
                None
            } else {
                Some(
                    "person "@ + text::spec_decimal(person_id as nat)
                        + " does not exist in the identity gallery"@,
                )
            },
        }
    }
}

/// What is said where a name, which comes in quotes, is that of a person already.
pub open spec fn spec_name_is_taken(quoted: Seq<char>, person_id: u64) -> Seq<char> {
    let number = text::spec_decimal(person_id as nat);
    "identity name "@ + quoted + " already belongs to person "@ + number
        + "; use --capture --person "@ + number
}

pub fn name_is_taken(quoted: &str, person_id: u64) -> (r: String)
    ensures
        r@ == spec_name_is_taken(quoted@, person_id),
{
    let number = decimal(person_id);
    "identity name ".to_owned().concat(quoted).concat(" already belongs to person ").concat(
        number.as_str(),
    ).concat("; use --capture --person ").concat(number.as_str())
}

/// One sample of a guided capture.
#[derive(Debug)]
pub struct CapturedFaceSample {
    pub pose: CapturePose,
    pub embedding: Vec<Single>,
    pub quality: Single,
}

/// The content of a sample.
#[verifier::ext_equal]
pub struct SampleView {
    pub pose: CapturePose,
    pub embedding: Seq<Single>,
    pub quality: Single,
}

impl View for CapturedFaceSample {
    type V = SampleView;

    open spec fn view(&self) -> SampleView {
        SampleView { pose: self.pose, embedding: self.embedding@, quality: self.quality }
    }
}

/// The contents of samples.
pub open spec fn sample_views(captured: Seq<CapturedFaceSample>) -> Seq<SampleView> {
    captured.map_values(|sample: CapturedFaceSample| sample@)
}

/// A row that stores a sample.
#[derive(Debug)]
pub struct SampleRow {
    pub pose: &'static str,
    pub embedding: Vec<u8>,
    pub dimension: usize,
    pub quality: Single,
}

impl SampleRow {
    /// The row stores a sample.
    pub open spec fn stores(self, sample: SampleView) -> bool {
        &&& self.pose@ == sample.pose.database_label()@
        &&& self.embedding@ == embedding::spec_embedding_to_blob(sample.embedding)
        &&& self.dimension == sample.embedding.len()
        &&& self.quality == sample.quality
    }
}

/// What a guided capture stores, all of it or nothing.
#[derive(Debug)]
pub struct CapturePlan {
    /// The place of the person in the gallery, where it is there already.
    pub index: Option<usize>,
    /// The number of the person, where it is there already.
    pub person_id: Option<u64>,
    pub name: Option<String>,
    pub fingerprint: String,
    pub centroid: Vec<Single>,
    /// The number of samples that the person has then.
    pub samples: u32,
    /// A row for each sample, in the order of capture.
    pub rows: Vec<SampleRow>,
}

/// The content of a plan, but for the rows.
#[verifier::ext_equal]
pub struct PlanView {
    pub index: Option<int>,
    pub person_id: Option<u64>,
    pub name: Option<Seq<char>>,
    pub fingerprint: Seq<char>,
    pub centroid: Seq<Single>,
    pub samples: u32,
}

impl View for CapturePlan {
    type V = PlanView;

    open spec fn view(&self) -> PlanView {
        PlanView {
            index: match self.index {
                Some(index) => Some(index as int),
                None => None,
            },
            person_id: self.person_id,
            name: identity::optional_text(self.name),
            fingerprint: self.fingerprint@,
            centroid: self.centroid@,
            samples: self.samples,
        }
    }
}

impl GalleryView {
    /// What a capture of `captured` as `target` comes to.
    pub open spec fn plan(self, target: FaceCaptureTarget, captured: Seq<SampleView>) -> Result<
        PlanView,
        Seq<char>,
    > {
        let required = (POSE_COUNT * CAPTURE_SAMPLES_PER_POSE) as nat;
        let mean = embedding::spec_mean_embedding(
            captured.map_values(|sample: SampleView| sample.embedding),
        );
        if !self.writable {
            Err("guided capture requires a writable face-ID database"@)
        } else if captured.len() != required {
            Err(
                "guided capture has "@ + text::spec_decimal(captured.len())
                    + " samples; expected "@ + text::spec_decimal(required),
            )
        } else {
            match mean {
                Err(message) => Err(message),
                Ok(centroid) => match target {
                    FaceCaptureTarget::New { name } => {
                        let name = text::spec_trim(name@);
                        if name.len() == 0 {
                            Err("capture name cannot be empty"@)
                        } else {
                            Ok(
                                PlanView {
                                    index: None,
                                    person_id: None,
                                    name: Some(name),
                                    fingerprint: embedding::spec_embedding_fingerprint(centroid),
                                    centroid,
                                    samples: required as u32,
                                },
                            )
                        }
                    },
                    FaceCaptureTarget::Existing { person_id } => match self.index_of(
                        person_id,
                        0,
                    ) {
                        Some(index) => Ok(
                            PlanView {
                                index: Some(index),
                                person_id: Some(person_id),
                                name: self.identities[index].name,
                                fingerprint: self.identities[index].fingerprint,
                                centroid,
                                samples: self.samples_after(index, required as int),
                            },
                        ),
                        None => Err(
                            "person "@ + text::spec_decimal(person_id as nat) + " does not exist"@,
                        ),
                    },
                },
            }
        }
    }

    /// The gallery after a plan was stored under a number.
    pub open spec fn captured(
        self,
        plan: PlanView,
        person_id: u64,
        templates: Seq<TemplateView>,
    ) -> GalleryView {
        match plan.index {
            Some(index) => GalleryView {
                identities: self.identities.update(
                    index,
                    IdentityView {
                        centroid: plan.centroid,
                        pose_templates: templates,
                        samples: plan.samples,
                        ..self.identities[index]
                    },
                ),
                ..self
            },
            None => self.enrolled(
                IdentityView {
                    id: person_id,
                    name: plan.name,
                    centroid: plan.centroid,
                    pose_templates: templates,
                    samples: plan.samples,
                    fingerprint: plan.fingerprint,
                },
            ),
        }
    }
}

fn embeddings_of(captured: &Vec<CapturedFaceSample>) -> (r: Vec<Vec<Single>>)
    ensures
        embedding::vectors(r@) == sample_views(captured@).map_values(
            |sample: SampleView| sample.embedding,
        ),
{
    let mut embeddings: Vec<Vec<Single>> = Vec::new();
    let mut i: usize = 0;
    while i < captured.len()
        invariant
            i <= captured.len(),
            embeddings.len() == i,
            forall|k: int| 0 <= k < i ==> (#[trigger] embeddings[k])@ == captured[k].embedding@,
        decreases captured.len() - i,
    {
        embeddings.push(copy_embedding(&captured[i].embedding));
        i += 1;
    }
    assert(embedding::vectors(embeddings@) =~= sample_views(captured@).map_values(
        |sample: SampleView| sample.embedding,
    ));
    embeddings
}

/// The rows that store samples.
fn sample_rows(captured: &Vec<CapturedFaceSample>) -> (r: Vec<SampleRow>)
    ensures
        r.len() == captured.len(),
        forall|i: int| 0 <= i < r.len() ==> (#[trigger] r[i]).stores(captured[i]@),
{
    let mut rows: Vec<SampleRow> = Vec::new();
    let mut i: usize = 0;
    while i < captured.len()
        invariant
            i <= captured.len(),
            rows.len() == i,
            forall|k: int| 0 <= k < i ==> (#[trigger] rows[k]).stores(captured[k]@),
        decreases captured.len() - i,
    {
        let sample = &captured[i];
        rows.push(
            SampleRow {
                pose: sample.pose.database_label(),
                embedding: embedding_to_blob(&sample.embedding),
                dimension: sample.embedding.len(),
                quality: sample.quality,
            },
        );
        i += 1;
    }
    rows
}

impl IdentityGallery {
    /// Decides what a guided capture stores: for a new person, its name, and for an existing one,
    /// a new centroid; either way all samples together.
    pub fn plan_capture(
        &self,
        target: &FaceCaptureTarget,
        captured: &Vec<CapturedFaceSample>,
    ) -> (r: Result<CapturePlan, String>)
        ensures
            match r {
                Ok(plan) => {
                    &&& self@.plan(*target, sample_views(captured@)) == Ok::<PlanView, Seq<char>>(
                        plan@,
                    )
                    &&& plan.rows.len() == captured.len()
                    &&& forall|i: int|
                        0 <= i < plan.rows.len() ==> (#[trigger] plan.rows[i]).stores(captured[i]@)
                    &&& plan.index matches Some(index) ==> index < self@.identities.len()
                },
                Err(message) => self@.plan(*target, sample_views(captured@)) == Err::<
                    PlanView,
                    Seq<char>,
                >(message@),
            },
    {
        let required: usize = POSE_COUNT * CAPTURE_SAMPLES_PER_POSE;
        if !self.writable {
            return Err("guided capture requires a writable face-ID database".to_owned());
        }
        if captured.len() != required {
            return Err(
                "guided capture has ".to_owned().concat(
                    decimal(captured.len() as u64).as_str(),
                ).concat(" samples; expected ").concat(decimal(required as u64).as_str()),
            );
        }
        let centroid = match mean_embedding(&embeddings_of(captured)) {
            Ok(centroid) => centroid,
            Err(message) => {
                return Err(message);
            },
        };
        match target {
            FaceCaptureTarget::New { name } => {
                let name = trim(name.as_str());
                if name.is_empty() {
                    return Err("capture name cannot be empty".to_owned());
                }
                Ok(
                    CapturePlan {
                        index: None,
                        person_id: None,
                        name: Some(name.to_owned()),
                        fingerprint: embedding_fingerprint(&centroid),
                        centroid,
                        samples: required as u32,
                        rows: sample_rows(captured),
                    },
                )
            },
            FaceCaptureTarget::Existing { person_id } => {
                match self.index_of(*person_id) {
                    Some(index) => {
                        let person = &self.identities[index];
                        assert(self@.identities[index as int] == person@);
                        Ok(
                            CapturePlan {
                                index: Some(index),
                                person_id: Some(*person_id),
                                name: copy_optional(&person.name),
                                fingerprint: person.fingerprint.clone(),
                                centroid,
                                samples: person.samples.saturating_add(required as u32),
                                rows: sample_rows(captured),
                            },
                        )
                    },
                    None => Err(
                        "person ".to_owned().concat(decimal(*person_id).as_str()).concat(
                            " does not exist",
                        ),
                    ),
                }
            },
        }
    }

    /// Takes the news that a plan has been stored: under which number, and the pose templates that
    /// the database then holds of the person.
    pub fn capture_stored(
        &mut self,
        plan: CapturePlan,
        person_id: u64,
        templates: Vec<PoseTemplate>,
    ) -> (r: FaceIdentityMatch)
        requires
            plan.index matches Some(index) ==> index < old(self)@.identities.len(),
        ensures
            final(self)@ == old(self)@.captured(plan@, person_id, template_views(templates@)),
            r@ == (MatchView {
                person_id,
                name: plan@.name,
                similarity: Single::integer(1),
                fingerprint: plan@.fingerprint,
                is_new: plan@.index is None,
                persisted: true,
            }),
    {
        let ghost before = self@;
        let ghost view = plan@;
        let is_new = plan.index.is_none();
        let result = FaceIdentityMatch {
            person_id,
            name: copy_optional(&plan.name),
            similarity: Single::integer(1),
            fingerprint: plan.fingerprint.clone(),
            is_new,
            persisted: true,
        };
        match plan.index {
            Some(index) => {
                let person = Identity {
                    id: self.identities[index].id,
                    name: copy_optional(&self.identities[index].name),
                    centroid: plan.centroid,
                    pose_templates: templates,
                    samples: plan.samples,
                    fingerprint: self.identities[index].fingerprint.clone(),
                };
                assert(before.identities[index as int] == self.identities[index as int]@);
                self.identities.set(index, person);
                assert(self@.identities =~= before.identities.update(index as int, person@));
            },
            None => {
                let person = Identity {
                    id: person_id,
                    name: plan.name,
                    centroid: plan.centroid,
                    pose_templates: templates,
                    samples: plan.samples,
                    fingerprint: plan.fingerprint,
                };
                self.identities.push(person);
                assert(self@.identities =~= before.identities.push(person@));
            },
        }
        assert(self@ =~= before.captured(view, person_id, template_views(templates@)));
        result
    }
}

impl GalleryView {
    /// Nobody is more similar to an embedding than the person found.
    pub proof fn law_best_is_greatest(self, embedding: Seq<Single>, group: PoseGroup, i: int)
        requires
            0 <= i < self.identities.len(),
        ensures
            self.best(embedding, group) matches Some(best) && 0 <= best.0 < self.identities.len()
                && best.1 == self.identities[best.0].similarity(embedding, group)
                && self.identities[i].similarity(embedding, group).rank() <= best.1.rank(),
    {
        self.lemma_best(embedding, group, self.identities.len() as int, i);
    }

    proof fn lemma_best(self, embedding: Seq<Single>, group: PoseGroup, k: int, i: int)
        requires
            0 <= i < k <= self.identities.len(),
        ensures
            self.best_up_to(embedding, group, k) matches Some(best) && 0 <= best.0 < k && best.1
                == self.identities[best.0].similarity(embedding, group)
                && self.identities[i].similarity(embedding, group).rank() <= best.1.rank(),
        decreases k,
    {
        if k > 1 {
            if i < k - 1 {
                self.lemma_best(embedding, group, k - 1, i);
            } else {
                self.lemma_best(embedding, group, k - 1, 0);
            }
        } else {
            assert(self.best_up_to(embedding, group, 0) is None);
        }
    }

    /// A match that is counted leaves every centroid, template, name and fingerprint as it is, so
    /// no number of matches lets a person drift.
    pub proof fn law_matches_never_drift(self, index: int, samples: u32, i: int)
        requires
            0 <= index < self.identities.len(),
            0 <= i < self.identities.len(),
        ensures
            self.counted(index, samples).identities.len() == self.identities.len(),
            self.counted(index, samples).identities[i] == (IdentityView {
                samples: self.counted(index, samples).identities[i].samples,
                ..self.identities[i]
            }),
            i != index ==> self.counted(index, samples).identities[i] == self.identities[i],
    {
    }

    /// Who is recognized does not depend on how often the persons have been matched.
    pub proof fn law_counting_keeps_recognition(
        self,
        index: int,
        samples: u32,
        embedding: Seq<Single>,
        group: PoseGroup,
    )
        requires
            0 <= index < self.identities.len(),
        ensures
            self.counted(index, samples).recognized(embedding, group) == self.recognized(
                embedding,
                group,
            ),
    {
        self.lemma_counting_keeps(
            index,
            samples,
            embedding,
            group,
            self.identities.len() as int,
        );
    }

    proof fn lemma_counting_keeps(
        self,
        index: int,
        samples: u32,
        embedding: Seq<Single>,
        group: PoseGroup,
        k: int,
    )
        requires
            0 <= index < self.identities.len(),
            0 <= k <= self.identities.len(),
        ensures
            self.counted(index, samples).best_up_to(embedding, group, k) == self.best_up_to(
                embedding,
                group,
                k,
            ),
        decreases k,
    {
        if k > 0 {
            self.lemma_counting_keeps(index, samples, embedding, group, k - 1);
            lemma_same_similarity(
                self.identities[k - 1],
                self.counted(index, samples).identities[k - 1],
                embedding,
                group,
                self.identities[k - 1].pose_templates.len() as int,
            );
        }
    }

    /// A person that is enrolled from an embedding is recognized by it from then on, wherever it
    /// is similar enough to itself and to nobody more.
    pub proof fn law_enrolled_is_recognized(
        self,
        person_id: u64,
        embedding: Seq<Single>,
        group: PoseGroup,
    )
        requires
            Single::from_bits(SFACE_COSINE_THRESHOLD).at_most(
                embedding::spec_cosine_similarity(embedding, embedding),
            ),
            self.best(embedding, group) matches Some(best) ==> best.1.rank()
                <= embedding::spec_cosine_similarity(embedding, embedding).rank(),
        ensures
            ({
                let person = IdentityView {
                    id: person_id,
                    name: None,
                    centroid: embedding,
                    pose_templates: Seq::empty(),
                    samples: 1,
                    fingerprint: embedding::spec_embedding_fingerprint(embedding),
                };
                self.enrolled(person).recognized(embedding, group) == Some(
                    (
                        self.identities.len() as int,
                        embedding::spec_cosine_similarity(embedding, embedding),
                    ),
                )
            }),
    {
        let person = IdentityView {
            id: person_id,
            name: None,
            centroid: embedding,
            pose_templates: Seq::empty(),
            samples: 1,
            fingerprint: embedding::spec_embedding_fingerprint(embedding),
        };
        let n = self.identities.len() as int;
        self.lemma_enrolling_keeps(person, embedding, group, n);
        assert(self.enrolled(person).identities[n].similarity(embedding, group)
            == embedding::spec_cosine_similarity(embedding, embedding));
    }

    proof fn lemma_enrolling_keeps(
        self,
        person: IdentityView,
        embedding: Seq<Single>,
        group: PoseGroup,
        k: int,
    )
        requires
            0 <= k <= self.identities.len(),
        ensures
            self.enrolled(person).best_up_to(embedding, group, k) == self.best_up_to(
                embedding,
                group,
                k,
            ),
        decreases k,
    {
        if k > 0 {
            self.lemma_enrolling_keeps(person, embedding, group, k - 1);
            assert(self.enrolled(person).identities[k - 1] == self.identities[k - 1]);
        }
    }

    /// A capture is stored only whole: three samples of each of the five poses.
    pub proof fn law_capture_is_whole(self, target: FaceCaptureTarget, captured: Seq<SampleView>)
        ensures
            self.plan(target, captured) is Ok ==> self.writable && captured.len() == 15,
    {
    }

    /// A capture of an existing person replaces the centroid and the templates, adds to the number
    /// of samples, and keeps the number, the name and the fingerprint; nobody else is changed.
    pub proof fn law_capture_keeps_person(
        self,
        person_id: u64,
        captured: Seq<SampleView>,
        templates: Seq<TemplateView>,
        i: int,
    )
        requires
            0 <= i < self.identities.len(),
            self.plan(FaceCaptureTarget::Existing { person_id }, captured) is Ok,
        ensures
            ({
                let plan = self.plan(FaceCaptureTarget::Existing { person_id }, captured)->Ok_0;
                let after = self.captured(plan, person_id, templates);
                &&& plan.person_id == Some(person_id)
                &&& plan.index matches Some(index)
                &&& after.identities.len() == self.identities.len()
                &&& after.identities[i].id == self.identities[i].id
                &&& after.identities[i].name == self.identities[i].name
                &&& after.identities[i].fingerprint == self.identities[i].fingerprint
                &&& i != index ==> after.identities[i] == self.identities[i]
            }),
    {
        self.lemma_index_of(person_id, 0);
    }

    proof fn lemma_index_of(self, person_id: u64, from: int)
        requires
            0 <= from,
        ensures
            self.index_of(person_id, from) matches Some(index) ==> from <= index
                < self.identities.len() && self.identities[index].id == person_id,
        decreases self.identities.len() - from,
    {
        if from < self.identities.len() && self.identities[from].id != person_id {
            self.lemma_index_of(person_id, from + 1);
        }
    }
}

proof fn lemma_same_similarity(
    a: IdentityView,
    b: IdentityView,
    embedding: Seq<Single>,
    group: PoseGroup,
    k: int,
)
    requires
        a.centroid == b.centroid,
        a.pose_templates == b.pose_templates,
    ensures
        a.similarity_up_to(embedding, group, k) == b.similarity_up_to(embedding, group, k),
    decreases k,
{
    if k > 0 {
        lemma_same_similarity(a, b, embedding, group, k - 1);
    }
}

/// Only the templates of the relevant poses count, beside the centroid: others may be changed
/// without changing how similar a person is.
pub proof fn law_other_poses_do_not_count(
    person: IdentityView,
    index: int,
    replacement: Seq<Single>,
    embedding: Seq<Single>,
    group: PoseGroup,
)
    requires
        0 <= index < person.pose_templates.len(),
        !group.spec_includes(person.pose_templates[index].pose),
    ensures
        ({
            let changed = IdentityView {
                pose_templates: person.pose_templates.update(
                    index,
                    TemplateView { embedding: replacement, ..person.pose_templates[index] },
                ),
                ..person
            };
            changed.similarity(embedding, group) == person.similarity(embedding, group)
        }),
{
    let changed = IdentityView {
        pose_templates: person.pose_templates.update(
            index,
            TemplateView { embedding: replacement, ..person.pose_templates[index] },
        ),
        ..person
    };
    lemma_other_poses(
        person,
        changed,
        index,
        embedding,
        group,
        person.pose_templates.len() as int,
    );
}

proof fn lemma_other_poses(
    a: IdentityView,
    b: IdentityView,
    index: int,
    embedding: Seq<Single>,
    group: PoseGroup,
    k: int,
)
    requires
        a.centroid == b.centroid,
        a.pose_templates.len() == b.pose_templates.len(),
        0 <= index < a.pose_templates.len(),
        a.pose_templates[index].pose == b.pose_templates[index].pose,
        !group.spec_includes(a.pose_templates[index].pose),
        forall|i: int|
            0 <= i < a.pose_templates.len() && i != index ==> a.pose_templates[i]
                == b.pose_templates[i],
        0 <= k <= a.pose_templates.len(),
    ensures
        a.similarity_up_to(embedding, group, k) == b.similarity_up_to(embedding, group, k),
    decreases k,
{
    if k > 0 {
        lemma_other_poses(a, b, index, embedding, group, k - 1);
    }
}

/// A captured pose is one of those that a head pose is compared with: straight templates with a
/// straight face, those to the sides with a turned one, and those up and down with a tilted one.
pub open spec fn is_relevant(pose: CapturePose, group: PoseGroup) -> bool {
    match pose {
        CapturePose::Center => group == PoseGroup::Center,
        CapturePose::Left | CapturePose::Right => group == PoseGroup::Horizontal,
        CapturePose::Up | CapturePose::Down => group == PoseGroup::Vertical,
    }
}

/// The labels of the poses tell them apart.
proof fn lemma_labels()
    ensures
        "center"@.len() == 6,
        "left"@.len() == 4,
        "right"@.len() == 5,
        "up"@.len() == 2,
        "down"@.len() == 4,
        "left"@[0] == 'l',
        "down"@[0] == 'd',
{
    reveal_strlit("center");
    reveal_strlit("left");
    reveal_strlit("right");
    reveal_strlit("up");
    reveal_strlit("down");
}

proof fn lemma_similarity(
    person: IdentityView,
    embedding: Seq<Single>,
    group: PoseGroup,
    k: int,
)
    requires
        0 <= k <= person.pose_templates.len(),
    ensures
        ({
            let similarity = person.similarity_up_to(embedding, group, k);
            let own = embedding::spec_cosine_similarity(person.centroid, embedding);
            &&& own.rank() <= similarity.rank()
            &&& forall|i: int|
                0 <= i < k && group.spec_includes((#[trigger] person.pose_templates[i]).pose)
                    ==> embedding::spec_cosine_similarity(
                    person.pose_templates[i].embedding,
                    embedding,
                ).rank() <= similarity.rank()
            &&& similarity == own || exists|i: int|
                0 <= i < k && group.spec_includes((#[trigger] person.pose_templates[i]).pose)
                    && similarity == embedding::spec_cosine_similarity(
                    person.pose_templates[i].embedding,
                    embedding,
                )
        }),
    decreases k,
{
    if k > 0 {
        lemma_similarity(person, embedding, group, k - 1);
        let before = person.similarity_up_to(embedding, group, k - 1);
        let own = embedding::spec_cosine_similarity(person.centroid, embedding);
        if before != own {
            let i = choose|i: int|
                0 <= i < k - 1 && group.spec_includes((#[trigger] person.pose_templates[i]).pose)
                    && before == embedding::spec_cosine_similarity(
                    person.pose_templates[i].embedding,
                    embedding,
                );
            assert(group.spec_includes(person.pose_templates[i].pose));
        }
        let last = person.pose_templates[k - 1];
        assert(group.spec_includes(last.pose) || !group.spec_includes(last.pose));
    }
}

/// How similar a face is to a person: as similar as it is to the centroid or to one of the
/// templates whose pose is relevant to the head pose, and no less than to any of these.
pub proof fn law_similarity_is_the_best(
    person: IdentityView,
    embedding: Seq<Single>,
    group: PoseGroup,
)
    ensures
        ({
            let similarity = person.similarity(embedding, group);
            let own = embedding::spec_cosine_similarity(person.centroid, embedding);
            &&& own.rank() <= similarity.rank()
            &&& forall|i: int, pose: CapturePose|
                #![trigger person.pose_templates[i], is_relevant(pose, group)]
                0 <= i < person.pose_templates.len() && person.pose_templates[i].pose
                    == pose.database_label()@ && is_relevant(pose, group)
                    ==> embedding::spec_cosine_similarity(
                    person.pose_templates[i].embedding,
                    embedding,
                ).rank() <= similarity.rank()
            &&& similarity == own || exists|i: int, pose: CapturePose|
                #![trigger person.pose_templates[i], is_relevant(pose, group)]
                0 <= i < person.pose_templates.len() && person.pose_templates[i].pose
                    == pose.database_label()@ && is_relevant(pose, group) && similarity
                    == embedding::spec_cosine_similarity(
                    person.pose_templates[i].embedding,
                    embedding,
                )
        }),
{
    let n = person.pose_templates.len() as int;
    let similarity = person.similarity(embedding, group);
    let own = embedding::spec_cosine_similarity(person.centroid, embedding);
    lemma_similarity(person, embedding, group, n);
    lemma_labels();
    if similarity != own {
        let i = choose|i: int|
            0 <= i < n && group.spec_includes((#[trigger] person.pose_templates[i]).pose)
                && similarity == embedding::spec_cosine_similarity(
                person.pose_templates[i].embedding,
                embedding,
            );
        let label = person.pose_templates[i].pose;
        let pose = if label == "center"@ {
            CapturePose::Center
        } else if label == "left"@ {
            CapturePose::Left
        } else if label == "right"@ {
            CapturePose::Right
        } else if label == "up"@ {
            CapturePose::Up
        } else {
            CapturePose::Down
        };
        assert(is_relevant(pose, group));
        assert(label == pose.database_label()@);
    }
}

/// A template counts for a head pose exactly where its pose is relevant to it, and the poses have
/// labels of their own.
pub proof fn law_poses_have_their_groups(pose: CapturePose, other: CapturePose, group: PoseGroup)
    ensures
        group.spec_includes(pose.database_label()@) == is_relevant(pose, group),
        pose.database_label()@ == other.database_label()@ ==> pose == other,
{
    lemma_labels();
}

impl GalleryView {
    /// A person is recognized by a template: a face that looks as in a stored template of a pose
    /// that is relevant to the head pose is found to be someone who is at least as similar to it
    /// as the template is to itself, and to be that person where nobody else is as similar.
    pub proof fn law_template_is_recognized(self, p: int, i: int, pose: CapturePose, group: PoseGroup)
        requires
            0 <= p < self.identities.len(),
            0 <= i < self.identities[p].pose_templates.len(),
            self.identities[p].pose_templates[i].pose == pose.database_label()@,
            is_relevant(pose, group),
            ({
                let embedding = self.identities[p].pose_templates[i].embedding;
                &&& Single::from_bits(SFACE_COSINE_THRESHOLD).at_most(
                    embedding::spec_cosine_similarity(embedding, embedding),
                )
                &&& forall|q: int|
                    0 <= q < self.identities.len() ==> !(#[trigger] self.identities[q]).similarity(
                        embedding,
                        group,
                    ).nan()
            }),
        ensures
            ({
                let embedding = self.identities[p].pose_templates[i].embedding;
                let own = embedding::spec_cosine_similarity(embedding, embedding);
                &&& self.recognized(embedding, group) matches Some(found)
                &&& 0 <= found.0 < self.identities.len()
                &&& own.at_most(found.1)
                &&& found.1 == self.identities[found.0].similarity(embedding, group)
                &&& (forall|q: int|
                    0 <= q < self.identities.len() && q != p ==> (
                    #[trigger] self.identities[q]).similarity(embedding, group).less(own))
                    ==> found.0 == p
            }),
    {
        let person = self.identities[p];
        let embedding = person.pose_templates[i].embedding;
        let own = embedding::spec_cosine_similarity(embedding, embedding);
        law_similarity_is_the_best(person, embedding, group);
        assert(is_relevant(pose, group) && person.pose_templates[i].pose
            == pose.database_label()@);
        self.law_best_is_greatest(embedding, group, p);
        let best = self.best(embedding, group)->0;
        assert(!self.identities[best.0].similarity(embedding, group).nan());
        own.lemma_order(best.1);
        assert(own.at_most(best.1));
        assert(own.rank() <= best.1.rank());
        if best.0 != p && (forall|q: int|
            0 <= q < self.identities.len() && q != p ==> (
            #[trigger] self.identities[q]).similarity(embedding, group).less(own)) {
            assert(self.identities[best.0].similarity(embedding, group).less(own));
        }
    }
}

/// The threshold is 0.363, in single precision.
pub proof fn law_threshold()
    ensures
        Single::from_bits(SFACE_COSINE_THRESHOLD) == Single::ratio(363, 1000),
{
    reveal(Single::nearest);
    Single::lemma_format();
    let k = 0x3EB9_DB23int;
    vstd::arithmetic::power2::lemma2_to64();
    vstd::arithmetic::power2::lemma_pow2_adds(25, 124);
    vstd::arithmetic::power2::lemma_pow2_pos(124);
    crate::rounding::lemma_mag_of_split(k, 0xB9_DB23, 124, 23);
    crate::rounding::lemma_mag_of_split(k - 1, 0xB9_DB22, 124, 23);
    crate::rounding::lemma_nearest_is(
        k,
        363u64 * pow2(149),
        1000,
        23,
        crate::patterns::infinity(23, 255),
    );
}

impl GalleryView {
    /// A face is recognized exactly where somebody is similar to it by the threshold or more, and
    /// it is found to be the most similar person.
    pub proof fn law_recognized_from_the_threshold(self, embedding: Seq<Single>, group: PoseGroup)
        requires
            forall|q: int|
                0 <= q < self.identities.len() ==> !(#[trigger] self.identities[q]).similarity(
                    embedding,
                    group,
                ).nan(),
        ensures
            self.recognized(embedding, group) is Some <==> exists|q: int|
                0 <= q < self.identities.len() && Single::ratio(363, 1000).at_most(
                    (#[trigger] self.identities[q]).similarity(embedding, group),
                ),
            self.recognized(embedding, group) matches Some(found) ==> {
                &&& 0 <= found.0 < self.identities.len()
                &&& found.1 == self.identities[found.0].similarity(embedding, group)
                &&& forall|q: int|
                    0 <= q < self.identities.len() ==> (#[trigger] self.identities[q]).similarity(
                        embedding,
                        group,
                    ).at_most(found.1)
            },
    {
        law_threshold();
        if self.identities.len() > 0 {
            self.law_best_is_greatest(embedding, group, 0);
            let best = self.best(embedding, group)->0;
            assert(!self.identities[best.0].similarity(embedding, group).nan());
            assert forall|q: int| 0 <= q < self.identities.len() implies (
            #[trigger] self.identities[q]).similarity(embedding, group).at_most(best.1) by {
                self.law_best_is_greatest(embedding, group, q);
                let s = self.identities[q].similarity(embedding, group);
                s.lemma_order(best.1);
            }
        } else {
            assert(self.best(embedding, group) is None);
        }
    }
}

impl GalleryView {
    /// Who was recognized is answered with the number, the name and the fingerprint that are
    /// stored, and is not new; one sample more is counted, as far as there is room to count.
    pub proof fn law_recognized_person_is_answered(self, index: int, similarity: Single)
        requires
            0 <= index < self.identities.len(),
        ensures
            ({
                let answer = self.recall(index, similarity);
                let person = self.identities[index];
                &&& answer.person_id == person.id
                &&& answer.name == person.name
                &&& answer.fingerprint == person.fingerprint
                &&& answer.similarity == similarity
                &&& !answer.is_new
                &&& answer.persisted
                &&& person.samples < u32::MAX ==> self.samples_after(index, 1) == person.samples + 1
                &&& person.samples == u32::MAX ==> self.samples_after(index, 1) == u32::MAX
                &&& self.counted(index, self.samples_after(index, 1)).identities[index].samples
                    == self.samples_after(index, 1)
            }),
    {
    }

    /// A capture of a new person is stored under the trimmed name, with the mean of all its
    /// embeddings as centroid, the fingerprint of that centroid and fifteen samples; one without a
    /// name is refused.
    pub proof fn law_capture_of_a_new_person(self, name: String, captured: Seq<SampleView>)
        ensures
            match self.plan(FaceCaptureTarget::New { name }, captured) {
                Ok(plan) => {
                    &&& self.writable
                    &&& plan.name == Some(text::spec_trim(name@))
                    &&& text::spec_trim(name@).len() > 0
                    &&& embedding::spec_mean_embedding(
                        Seq::new(captured.len(), |i: int| captured[i].embedding),
                    ) == Ok::<Seq<Single>, Seq<char>>(plan.centroid)
                    &&& plan.fingerprint == embedding::spec_embedding_fingerprint(plan.centroid)
                    &&& plan.samples == 15
                    &&& captured.len() == 15
                    &&& plan.index is None
                    &&& plan.person_id is None
                },
                Err(_) => !self.writable || captured.len() != 15 || text::spec_trim(name@).len() == 0
                    || embedding::spec_mean_embedding(
                    Seq::new(captured.len(), |i: int| captured[i].embedding),
                ) is Err,
            },
    {
        assert(captured.map_values(|sample: SampleView| sample.embedding) =~= Seq::new(
            captured.len(),
            |i: int| captured[i].embedding,
        ));
    }
}

} // verus!
