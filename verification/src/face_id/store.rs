//! What the rows of the database mean, and what it takes to bring it up to date.

use vstd::prelude::*;
use vstd::string::*;
use crate::face_id::embedding;
use crate::face_id::embedding::{copy_embedding, embedding_from_blob, mean_embedding};
use crate::face_id::gallery;
use crate::face_id::gallery::{Identity, IdentityView, PoseTemplate, TemplateView};
use crate::face_id::identity;
use crate::face_id::identity::copy_optional;
use crate::single::Single;
use crate::text;
use crate::text::same_text;

verus! {

/// A row of the table of persons.
#[derive(Debug)]
pub struct IdentityRow {
    pub person_id: i64,
    pub name: Option<String>,
    pub fingerprint: String,
    pub centroid: Vec<u8>,
    pub dimension: i64,
    pub samples: i64,
}

/// A row of the table of samples.
#[derive(Debug)]
pub struct TemplateRow {
    pub pose: String,
    pub embedding: Vec<u8>,
    pub dimension: i64,
}

/// What a row of the table of persons holds, without pose templates.
pub open spec fn spec_identity(row: IdentityRow) -> Result<IdentityView, Seq<char>> {
    if row.person_id <= 0 || row.dimension <= 0 || row.samples <= 0 {
        Err("face-ID database contains invalid identity metadata"@)
    } else {
        match embedding::spec_embedding_from_blob(row.centroid@, row.dimension as usize) {
            Ok(centroid) => Ok(
                IdentityView {
                    id: row.person_id as u64,
                    name: identity::optional_text(row.name),
                    centroid,
                    pose_templates: Seq::empty(),
                    samples: row.samples as u32,
                    fingerprint: row.fingerprint@,
                },
            ),
            Err(message) => Err(message),
        }
    }
}

/// What a row of the table of persons holds.
pub fn load_identity(row: &IdentityRow) -> (r: Result<Identity, String>)
    ensures
        text::outcome(r) == spec_identity(*row),
{
    if row.person_id <= 0 || row.dimension <= 0 || row.samples <= 0 {
        return Err("face-ID database contains invalid identity metadata".to_owned());
    }
    match embedding_from_blob(&row.centroid, row.dimension as usize) {
        Ok(centroid) => {
            let person = Identity {
                id: row.person_id as u64,
                name: copy_optional(&row.name),
                centroid,
                pose_templates: Vec::new(),
                samples: row.samples as u32,
                fingerprint: row.fingerprint.clone(),
            };
            assert(person@.pose_templates =~= Seq::empty());
            Ok(person)
        },
        Err(message) => Err(message),
    }
}

/// What the first `k` rows of the table of samples hold: the first error where there is one.
pub open spec fn decoded_rows(rows: Seq<TemplateRow>, k: int) -> Result<
    Seq<TemplateView>,
    Seq<char>,
>
    decreases k,
{
    if k <= 0 {
        Ok(Seq::empty())
    } else {
        match decoded_rows(rows, k - 1) {
            Err(message) => Err(message),
            Ok(decoded) => {
                let row = rows[k - 1];
                if row.dimension <= 0 {
                    Err("pose template has an invalid embedding dimension"@)
                } else {
                    match embedding::spec_embedding_from_blob(
                        row.embedding@,
                        row.dimension as usize,
                    ) {
                        Ok(embedding) => Ok(
                            decoded.push(TemplateView { pose: row.pose@, embedding }),
                        ),
                        Err(message) => Err(message),
                    }
                }
            },
        }
    }
}

proof fn lemma_error_stays(rows: Seq<TemplateRow>, i: int, k: int)
    requires
        0 <= i <= k,
        decoded_rows(rows, i) is Err,
    ensures
        decoded_rows(rows, k) == decoded_rows(rows, i),
    decreases k,
{
    if i < k {
        lemma_error_stays(rows, i, k - 1);
    }
}

fn decode_rows(rows: &Vec<TemplateRow>) -> (r: Result<Vec<PoseTemplate>, String>)
    ensures
        match r {
            Ok(decoded) => decoded_rows(rows@, rows.len() as int) == Ok::<
                Seq<TemplateView>,
                Seq<char>,
            >(gallery::template_views(decoded@)),
            Err(message) => decoded_rows(rows@, rows.len() as int) == Err::<
                Seq<TemplateView>,
                Seq<char>,
            >(message@),
        },
{
    let mut decoded: Vec<PoseTemplate> = Vec::new();
    let mut i: usize = 0;
    assert(gallery::template_views(decoded@) =~= Seq::empty());
    while i < rows.len()
        invariant
            i <= rows.len(),
            decoded_rows(rows@, i as int) == Ok::<Seq<TemplateView>, Seq<char>>(
                gallery::template_views(decoded@),
            ),
        decreases rows.len() - i,
    {
        let row = &rows[i];
        if row.dimension <= 0 {
            proof {
                lemma_error_stays(rows@, i + 1, rows.len() as int);
            }
            return Err("pose template has an invalid embedding dimension".to_owned());
        }
        match embedding_from_blob(&row.embedding, row.dimension as usize) {
            Ok(embedding) => {
                let ghost before = decoded@;
                let template = PoseTemplate { pose: row.pose.clone(), embedding };
                decoded.push(template);
                assert(gallery::template_views(decoded@) =~= gallery::template_views(before).push(
                    template@,
                ));
            },
            Err(message) => {
                proof {
                    lemma_error_stays(rows@, i + 1, rows.len() as int);
                }
                return Err(message);
            },
        }
        i += 1;
    }
    Ok(decoded)
}

/// The embeddings of a pose among the first `k` samples.
pub open spec fn members(samples: Seq<TemplateView>, pose: Seq<char>, k: int) -> Seq<Seq<Single>>
    decreases k,
{
    if k <= 0 {
        Seq::empty()
    } else if samples[k - 1].pose == pose {
        members(samples, pose, k - 1).push(samples[k - 1].embedding)
    } else {
        members(samples, pose, k - 1)
    }
}

/// The means of the poses among the first `k` samples, each taken over all samples of the pose, in
/// the order in which the poses first occur.
pub open spec fn means(samples: Seq<TemplateView>, k: int) -> Result<Seq<TemplateView>, Seq<char>>
    decreases k,
{
    if k <= 0 {
        Ok(Seq::empty())
    } else {
        match means(samples, k - 1) {
            Err(message) => Err(message),
            Ok(templates) => {
                let pose = samples[k - 1].pose;
                if members(samples, pose, k - 1).len() > 0 {
                    Ok(templates)
                } else {
                    match embedding::spec_mean_embedding(
                        members(samples, pose, samples.len() as int),
                    ) {
                        Ok(embedding) => Ok(templates.push(TemplateView { pose, embedding })),
                        Err(message) => Err(message),
                    }
                }
            },
        }
    }
}

proof fn lemma_mean_error_stays(samples: Seq<TemplateView>, i: int, k: int)
    requires
        0 <= i <= k,
        means(samples, i) is Err,
    ensures
        means(samples, k) == means(samples, i),
    decreases k,
{
    if i < k {
        lemma_mean_error_stays(samples, i, k - 1);
    }
}

fn collect(samples: &Vec<PoseTemplate>, pose: &str, count: usize) -> (r: Vec<Vec<Single>>)
    requires
        count <= samples.len(),
    ensures
        embedding::vectors(r@) == members(
            gallery::template_views(samples@),
            pose@,
            count as int,
        ),
{
    let mut found: Vec<Vec<Single>> = Vec::new();
    let mut i: usize = 0;
    let ghost views = gallery::template_views(samples@);
    assert(embedding::vectors(found@) =~= Seq::empty());
    while i < count
        invariant
            i <= count <= samples.len(),
            views == gallery::template_views(samples@),
            embedding::vectors(found@) == members(views, pose@, i as int),
        decreases count - i,
    {
        assert(views[i as int] == samples[i as int]@);
        if same_text(samples[i].pose.as_str(), pose) {
            let ghost before = found@;
            let copy = copy_embedding(&samples[i].embedding);
            found.push(copy);
            assert(embedding::vectors(found@) =~= embedding::vectors(before).push(copy@));
        }
        i += 1;
    }
    found
}

/// The pose templates that the rows of a person give: the mean of each pose.
pub open spec fn spec_pose_templates(rows: Seq<TemplateRow>) -> Result<
    Seq<TemplateView>,
    Seq<char>,
> {
    match decoded_rows(rows, rows.len() as int) {
        Ok(samples) => means(samples, samples.len() as int),
        Err(message) => Err(message),
    }
}

/// The pose templates that the rows of a person give.
pub fn load_pose_templates(rows: &Vec<TemplateRow>) -> (r: Result<Vec<PoseTemplate>, String>)
    ensures
        match r {
            Ok(templates) => spec_pose_templates(rows@) == Ok::<Seq<TemplateView>, Seq<char>>(
                gallery::template_views(templates@),
            ),
            Err(message) => spec_pose_templates(rows@) == Err::<Seq<TemplateView>, Seq<char>>(
                message@,
            ),
        },
{
    let samples = match decode_rows(rows) {
        Ok(samples) => samples,
        Err(message) => {
            return Err(message);
        },
    };
    let ghost views = gallery::template_views(samples@);
    let mut templates: Vec<PoseTemplate> = Vec::new();
    let mut i: usize = 0;
    assert(gallery::template_views(templates@) =~= Seq::empty());
    while i < samples.len()
        invariant
            i <= samples.len(),
            views == gallery::template_views(samples@),
            decoded_rows(rows@, rows.len() as int) == Ok::<Seq<TemplateView>, Seq<char>>(views),
            means(views, i as int) == Ok::<Seq<TemplateView>, Seq<char>>(
                gallery::template_views(templates@),
            ),
        decreases samples.len() - i,
    {
        assert(views[i as int] == samples[i as int]@);
        let pose = samples[i].pose.as_str();
        let earlier = collect(&samples, pose, i);
        if earlier.len() == 0 {
            assert(embedding::vectors(earlier@).len() == 0);
            let all = collect(&samples, pose, samples.len());
            match mean_embedding(&all) {
                Ok(embedding) => {
                    let ghost before = templates@;
                    let template = PoseTemplate { pose: samples[i].pose.clone(), embedding };
                    templates.push(template);
                    assert(gallery::template_views(templates@) =~= gallery::template_views(
                        before,
                    ).push(template@));
                },
                Err(message) => {
                    proof {
                        lemma_mean_error_stays(views, i + 1, views.len() as int);
                    }
                    return Err(message);
                },
            }
        } else {
            assert(embedding::vectors(earlier@).len() > 0);
        }
        i += 1;
    }
    Ok(templates)
}

/// The persons of the first `k` rows, without pose templates: the first error where there is one.
pub open spec fn persons(rows: Seq<IdentityRow>, k: int) -> Result<Seq<IdentityView>, Seq<char>>
    decreases k,
{
    if k <= 0 {
        Ok(Seq::empty())
    } else {
        match persons(rows, k - 1) {
            Err(message) => Err(message),
            Ok(before) => match spec_identity(rows[k - 1]) {
                Ok(person) => Ok(before.push(person)),
                Err(message) => Err(message),
            },
        }
    }
}

proof fn lemma_person_error_stays(rows: Seq<IdentityRow>, i: int, k: int)
    requires
        0 <= i <= k,
        persons(rows, i) is Err,
    ensures
        persons(rows, k) == persons(rows, i),
    decreases k,
{
    if i < k {
        lemma_person_error_stays(rows, i, k - 1);
    }
}

/// The first `k` persons with the pose templates of their samples: the first error where there is
/// one.
pub open spec fn completed(
    persons: Seq<IdentityView>,
    samples: Seq<Vec<TemplateRow>>,
    k: int,
) -> Result<Seq<IdentityView>, Seq<char>>
    decreases k,
{
    if k <= 0 {
        Ok(Seq::empty())
    } else {
        match completed(persons, samples, k - 1) {
            Err(message) => Err(message),
            Ok(before) => match spec_pose_templates(samples[k - 1]@) {
                Ok(pose_templates) => Ok(
                    before.push(IdentityView { pose_templates, ..persons[k - 1] }),
                ),
                Err(message) => Err(message),
            },
        }
    }
}

proof fn lemma_template_error_stays(
    persons: Seq<IdentityView>,
    samples: Seq<Vec<TemplateRow>>,
    i: int,
    k: int,
)
    requires
        0 <= i <= k,
        completed(persons, samples, i) is Err,
    ensures
        completed(persons, samples, k) == completed(persons, samples, i),
    decreases k,
{
    if i < k {
        lemma_template_error_stays(persons, samples, i, k - 1);
    }
}

/// The persons that a database holds, given the rows of each one's samples.
pub open spec fn spec_load_identities(
    rows: Seq<IdentityRow>,
    samples: Seq<Vec<TemplateRow>>,
) -> Result<Seq<IdentityView>, Seq<char>> {
    match persons(rows, rows.len() as int) {
        Ok(persons) => completed(persons, samples, persons.len() as int),
        Err(message) => Err(message),
    }
}

fn load_persons(rows: &Vec<IdentityRow>) -> (r: Result<Vec<Identity>, String>)
    ensures
        match r {
            Ok(found) => persons(rows@, rows.len() as int) == Ok::<Seq<IdentityView>, Seq<char>>(
                gallery::identity_views(found@),
            ) && found.len() == rows.len(),
            Err(message) => persons(rows@, rows.len() as int) == Err::<
                Seq<IdentityView>,
                Seq<char>,
            >(message@),
        },
{
    let mut found: Vec<Identity> = Vec::new();
    let mut i: usize = 0;
    assert(gallery::identity_views(found@) =~= Seq::empty());
    while i < rows.len()
        invariant
            i <= rows.len(),
            found.len() == i,
            persons(rows@, i as int) == Ok::<Seq<IdentityView>, Seq<char>>(
                gallery::identity_views(found@),
            ),
        decreases rows.len() - i,
    {
        match load_identity(&rows[i]) {
            Ok(person) => {
                let ghost before = found@;
                found.push(person);
                assert(gallery::identity_views(found@) =~= gallery::identity_views(before).push(
                    person@,
                ));
            },
            Err(message) => {
                proof {
                    lemma_person_error_stays(rows@, i + 1, rows.len() as int);
                }
                return Err(message);
            },
        }
        i += 1;
    }
    Ok(found)
}

/// The persons that a database holds, given the rows of each one's samples.
pub fn load_identities(rows: &Vec<IdentityRow>, samples: &Vec<Vec<TemplateRow>>) -> (r: Result<
    Vec<Identity>,
    String,
>)
    requires
        rows.len() == samples.len(),
    ensures
        match r {
            Ok(found) => spec_load_identities(rows@, samples@) == Ok::<
                Seq<IdentityView>,
                Seq<char>,
            >(gallery::identity_views(found@)),
            Err(message) => spec_load_identities(rows@, samples@) == Err::<
                Seq<IdentityView>,
                Seq<char>,
            >(message@),
        },
{
    let mut found = match load_persons(rows) {
        Ok(found) => found,
        Err(message) => {
            return Err(message);
        },
    };
    let ghost bare = gallery::identity_views(found@);
    let mut i: usize = 0;
    assert(gallery::identity_views(found@).take(0) =~= Seq::empty());
    while i < found.len()
        invariant
            i <= found.len(),
            found.len() == samples.len(),
            found.len() == bare.len(),
            persons(rows@, rows.len() as int) == Ok::<Seq<IdentityView>, Seq<char>>(bare),
            gallery::identity_views(found@).len() == found.len(),
            forall|k: int| i <= k < found.len() ==> (#[trigger] found[k])@ == bare[k],
            completed(bare, samples@, i as int) == Ok::<Seq<IdentityView>, Seq<char>>(
                gallery::identity_views(found@).take(i as int),
            ),
        decreases found.len() - i,
    {
        match load_pose_templates(&samples[i]) {
            Ok(templates) => {
                let ghost before = found@;
                found[i].pose_templates = templates;
                proof {
                    let views = gallery::identity_views(found@);
                    assert(views.take(i + 1) =~= gallery::identity_views(before).take(
                        i as int,
                    ).push(found[i as int]@));
                }
            },
            Err(message) => {
                proof {
                    lemma_template_error_stays(bare, samples@, i + 1, bare.len() as int);
                }
                return Err(message);
            },
        }
        i += 1;
    }
    assert(gallery::identity_views(found@).take(i as int) =~= gallery::identity_views(found@));
    Ok(found)
}

/// A person survives a restart: what is read back of the row that holds a person is the person,
/// with the centroid normalized once more.
pub proof fn law_person_survives(person: IdentityView, row: IdentityRow)
    requires
        row.person_id == person.id,
        identity::optional_text(row.name) == person.name,
        row.fingerprint@ == person.fingerprint,
        row.centroid@ == embedding::spec_embedding_to_blob(person.centroid),
        row.dimension == person.centroid.len(),
        row.samples == person.samples,
        person.id > 0,
        person.samples > 0,
        person.centroid.len() > 0,
        person.centroid.len() * 4 <= usize::MAX,
    ensures
        match embedding::spec_normalize(person.centroid) {
            Ok(centroid) => spec_identity(row) == Ok::<IdentityView, Seq<char>>(
                IdentityView { centroid, pose_templates: Seq::empty(), ..person },
            ),
            Err(message) => spec_identity(row) == Err::<IdentityView, Seq<char>>(message),
        },
{
    embedding::law_stored_comes_back(person.centroid, person.centroid.len() as usize);
}

proof fn lemma_members_grow(samples: Seq<TemplateView>, pose: Seq<char>, i: int, k: int)
    requires
        0 <= i <= k,
    ensures
        members(samples, pose, i).len() <= members(samples, pose, k).len(),
    decreases k,
{
    if i < k {
        lemma_members_grow(samples, pose, i, k - 1);
    }
}

proof fn lemma_has_members(samples: Seq<TemplateView>, pose: Seq<char>, k: int)
    ensures
        members(samples, pose, k).len() > 0 <==> exists|i: int|
            0 <= i < k && (#[trigger] samples[i]).pose == pose,
    decreases k,
{
    if k > 0 {
        lemma_has_members(samples, pose, k - 1);
        if samples[k - 1].pose == pose {
            assert(members(samples, pose, k).len() > 0);
        } else if exists|i: int| 0 <= i < k && (#[trigger] samples[i]).pose == pose {
            let i = choose|i: int| 0 <= i < k && (#[trigger] samples[i]).pose == pose;
            assert(0 <= i < k - 1 && samples[i].pose == pose);
        }
    }
}

proof fn lemma_means(samples: Seq<TemplateView>, k: int)
    requires
        0 <= k <= samples.len(),
        means(samples, k) is Ok,
    ensures
        ({
            let templates = means(samples, k)->Ok_0;
            &&& forall|i: int, j: int|
                0 <= i < j < templates.len() ==> (#[trigger] templates[i]).pose != (
                #[trigger] templates[j]).pose
            &&& forall|i: int|
                0 <= i < templates.len() ==> members(
                    samples,
                    (#[trigger] templates[i]).pose,
                    k,
                ).len() > 0 && embedding::spec_mean_embedding(
                    members(samples, templates[i].pose, samples.len() as int),
                ) == Ok::<Seq<Single>, Seq<char>>(templates[i].embedding)
            &&& forall|m: int|
                0 <= m < k ==> exists|i: int|
                    0 <= i < templates.len() && (#[trigger] templates[i]).pose == (
                    #[trigger] samples[m]).pose
        }),
    decreases k,
{
    if k > 0 {
        lemma_means(samples, k - 1);
        let before = means(samples, k - 1)->Ok_0;
        let templates = means(samples, k)->Ok_0;
        let pose = samples[k - 1].pose;
        assert forall|i: int| 0 <= i < before.len() implies members(
            samples,
            (#[trigger] before[i]).pose,
            k,
        ).len() > 0 by {
            lemma_members_grow(samples, before[i].pose, k - 1, k);
        }
        if members(samples, pose, k - 1).len() > 0 {
            lemma_has_members(samples, pose, k - 1);
            let m = choose|m: int| 0 <= m < k - 1 && (#[trigger] samples[m]).pose == pose;
            let i = choose|i: int|
                0 <= i < before.len() && (#[trigger] before[i]).pose == samples[m].pose;
            assert(templates[i].pose == samples[k - 1].pose);
        } else {
            assert forall|i: int| 0 <= i < before.len() implies (#[trigger] before[i]).pose
                != pose by {
                assert(members(samples, before[i].pose, k - 1).len() > 0);
            }
            assert(members(samples, pose, k).len() > 0);
            let last = templates[before.len() as int];
            assert(last.pose == pose);
            assert forall|m: int| 0 <= m < k implies exists|i: int|
                0 <= i < templates.len() && (#[trigger] templates[i]).pose == (
                #[trigger] samples[m]).pose by {
                if m < k - 1 {
                    let i = choose|i: int|
                        0 <= i < before.len() && (#[trigger] before[i]).pose == samples[m].pose;
                    assert(templates[i] == before[i]);
                } else {
                    assert(templates[before.len() as int].pose == samples[m].pose);
                }
            }
        }
    }
}

/// The rows of a person give one template for each pose that occurs in them, and it is the mean of
/// all samples of the pose.
pub proof fn law_one_template_per_pose(rows: Seq<TemplateRow>)
    requires
        spec_pose_templates(rows) is Ok,
    ensures
        ({
            let samples = decoded_rows(rows, rows.len() as int)->Ok_0;
            let templates = spec_pose_templates(rows)->Ok_0;
            &&& forall|i: int, j: int|
                0 <= i < j < templates.len() ==> (#[trigger] templates[i]).pose != (
                #[trigger] templates[j]).pose
            &&& forall|i: int|
                0 <= i < templates.len() ==> embedding::spec_mean_embedding(
                    members(samples, (#[trigger] templates[i]).pose, samples.len() as int),
                ) == Ok::<Seq<Single>, Seq<char>>(templates[i].embedding)
            &&& forall|m: int|
                0 <= m < rows.len() ==> exists|i: int|
                    0 <= i < templates.len() && (#[trigger] templates[i]).pose == (
                    #[trigger] rows[m]).pose@
            &&& forall|i: int|
                0 <= i < templates.len() ==> exists|m: int|
                    0 <= m < rows.len() && (#[trigger] rows[m]).pose@ == (
                    #[trigger] templates[i]).pose
        }),
{
    let samples = decoded_rows(rows, rows.len() as int)->Ok_0;
    let templates = spec_pose_templates(rows)->Ok_0;
    lemma_decoded_poses(rows, rows.len() as int);
    lemma_means(samples, samples.len() as int);
    assert forall|m: int| 0 <= m < rows.len() implies exists|i: int|
        0 <= i < templates.len() && (#[trigger] templates[i]).pose == (#[trigger] rows[m]).pose@ by {
        assert(samples[m].pose == rows[m].pose@);
    }
    assert forall|i: int| 0 <= i < templates.len() implies exists|m: int|
        0 <= m < rows.len() && (#[trigger] rows[m]).pose@ == (#[trigger] templates[i]).pose by {
        lemma_has_members(samples, templates[i].pose, samples.len() as int);
        let m = choose|m: int|
            0 <= m < samples.len() && (#[trigger] samples[m]).pose == templates[i].pose;
        assert(rows[m].pose@ == templates[i].pose);
    }
}

proof fn lemma_decoded_poses(rows: Seq<TemplateRow>, k: int)
    requires
        0 <= k <= rows.len(),
        decoded_rows(rows, k) is Ok,
    ensures
        (decoded_rows(rows, k)->Ok_0).len() == k,
        forall|i: int|
            0 <= i < k ==> (#[trigger] (decoded_rows(rows, k)->Ok_0)[i]).pose == rows[i].pose@,
    decreases k,
{
    if k > 0 {
        lemma_decoded_poses(rows, k - 1);
    }
}

/// What a database that is to be opened needs.
#[derive(Clone, Copy, Debug, PartialEq, Eq, Structural)]
pub enum Migration {
    /// It is new: the version is to be written.
    Initialize,
    /// It has no names yet: the column is to be added, and the version updated, together.
    AddNames,
    /// It has no samples yet: the version is to be updated.
    Update,
    /// It is up to date.
    Keep,
}

/// What a database with a stored schema version needs.
pub fn migrate_schema(stored: Option<&str>) -> (r: Result<Migration, String>)
    ensures
        match stored {
            None => r == Ok::<Migration, String>(Migration::Initialize),
            Some(version) => if version@ == "1"@ {
                r == Ok::<Migration, String>(Migration::AddNames)
            } else if version@ == "2"@ {
                r == Ok::<Migration, String>(Migration::Update)
            } else if version@ == "3"@ {
                r == Ok::<Migration, String>(Migration::Keep)
            } else {
                r matches Err(message) && message@ == "unsupported face-ID database schema version "@
                    + version@ + "; expected 3"@
            },
        },
{
    match stored {
        None => Ok(Migration::Initialize),
        Some(version) => {
            if same_text(version, "1") {
                Ok(Migration::AddNames)
            } else if same_text(version, "2") {
                Ok(Migration::Update)
            } else if same_text(version, "3") {
                Ok(Migration::Keep)
            } else {
                Err(
                    "unsupported face-ID database schema version ".to_owned().concat(
                        version,
                    ).concat("; expected 3"),
                )
            }
        },
    }
}

/// What a stored value of metadata says against the expected one.
pub open spec fn mismatch(key: Seq<char>, actual: Seq<char>, expected: Seq<char>) -> Seq<char> {
    "face-ID database "@ + key + " mismatch: stored="@ + actual + ", expected="@ + expected
}

fn mismatch_text(key: &str, actual: &str, expected: &str) -> (r: String)
    ensures
        r@ == mismatch(key@, actual@, expected@),
{
    "face-ID database ".to_owned().concat(key).concat(" mismatch: stored=").concat(actual).concat(
        ", expected=",
    ).concat(expected)
}

/// Checks a value of metadata of a database that is only read.
pub fn validate_metadata(key: &str, actual: Option<&str>, expected: &str) -> (r: Result<(), String>)
    ensures
        match actual {
            Some(actual) => if actual@ == expected@ {
                r is Ok
            } else {
                r matches Err(message) && message@ == mismatch(key@, actual@, expected@)
            },
            None => r matches Err(message) && message@
                == "face-ID database is missing metadata key "@ + key@,
        },
{
    match actual {
        Some(actual) => {
            if same_text(actual, expected) {
                Ok(())
            } else {
                Err(mismatch_text(key, actual, expected))
            }
        },
        None => Err("face-ID database is missing metadata key ".to_owned().concat(key)),
    }
}

/// Checks a value of metadata of a database that is written too, and tells whether it is still to
/// be inserted.
pub fn validate_or_insert_metadata(key: &str, actual: Option<&str>, expected: &str) -> (r: Result<
    bool,
    String,
>)
    ensures
        match actual {
            Some(actual) => if actual@ == expected@ {
                r == Ok::<bool, String>(false)
            } else {
                r matches Err(message) && message@ == mismatch(key@, actual@, expected@)
                    + "; use a different --face-id-db path"@
            },
            None => r == Ok::<bool, String>(true),
        },
{
    match actual {
        Some(actual) => {
            if same_text(actual, expected) {
                Ok(false)
            } else {
                Err(
                    mismatch_text(key, actual, expected).concat(
                        "; use a different --face-id-db path",
                    ),
                )
            }
        },
        None => Ok(true),
    }
}

/// An embedding is that of one of the first `k` samples of a pose.
pub open spec fn is_of_pose(
    samples: Seq<TemplateView>,
    pose: Seq<char>,
    k: int,
    embedding: Seq<Single>,
) -> bool {
    exists|i: int|
        0 <= i < k && (#[trigger] samples[i]).pose == pose && samples[i].embedding == embedding
}

/// A pose's template is made of the samples of that pose: of all of them and of no others, each as
/// often as it occurs.
pub proof fn law_template_is_made_of_its_pose(samples: Seq<TemplateView>, pose: Seq<char>, k: int)
    requires
        0 <= k <= samples.len(),
    ensures
        forall|embedding: Seq<Single>| #[trigger]
            members(samples, pose, k).contains(embedding) == is_of_pose(
                samples,
                pose,
                k,
                embedding,
            ),
        members(samples, pose, k).len() == pose_count(samples, pose, k),
    decreases k,
{
    if k > 0 {
        law_template_is_made_of_its_pose(samples, pose, k - 1);
        let before = members(samples, pose, k - 1);
        let after = members(samples, pose, k);
        assert forall|embedding: Seq<Single>| #[trigger]
            after.contains(embedding) == is_of_pose(samples, pose, k, embedding) by {
            assert(before.contains(embedding) == is_of_pose(samples, pose, k - 1, embedding));
            if before.contains(embedding) {
                let m = choose|m: int| 0 <= m < before.len() && before[m] == embedding;
                assert(after[m] == embedding);
                let i = choose|i: int|
                    0 <= i < k - 1 && (#[trigger] samples[i]).pose == pose && samples[i].embedding
                        == embedding;
                assert(samples[i].pose == pose);
            }
            if after.contains(embedding) {
                let m = choose|m: int| 0 <= m < after.len() && after[m] == embedding;
                if m < before.len() {
                    assert(before[m] == embedding);
                } else {
                    assert(samples[k - 1].pose == pose);
                }
            }
            if is_of_pose(samples, pose, k, embedding) {
                let i = choose|i: int|
                    0 <= i < k && (#[trigger] samples[i]).pose == pose && samples[i].embedding
                        == embedding;
                if i == k - 1 {
                    assert(after[before.len() as int] == embedding);
                } else {
                    assert(samples[i].pose == pose);
                    assert(is_of_pose(samples, pose, k - 1, embedding));
                }
            }
        }
    }
}

/// How many of the first `k` samples are of a pose.
pub open spec fn pose_count(samples: Seq<TemplateView>, pose: Seq<char>, k: int) -> nat
    decreases k,
{
    if k <= 0 {
        0
    } else {
        pose_count(samples, pose, k - 1) + if samples[k - 1].pose == pose {
            1nat
        } else {
            0nat
        }
    }
}

} // verus!
