use facefeature::face_id::embedding::{embedding_to_blob, normalize_embedding};
use facefeature::face_id::gallery::{
    embedding_format, name_is_taken, CapturedFaceSample, Identity, IdentifyStep, IdentityGallery, PoseGroup,
    PoseTemplate, DATABASE_SCHEMA_VERSION,
};
use facefeature::face_id::store::{
    load_identities, load_pose_templates, migrate_schema, validate_metadata,
    validate_or_insert_metadata, IdentityRow, Migration, TemplateRow,
};
use facefeature::face_id::{
    CapturePose, FaceCaptureTarget, FaceIdDatabaseMode, FaceIdentityMatch,
};
use facefeature::{Double, Single};
use rusqlite::{Connection, OpenFlags, OptionalExtension};

fn single(x: f32) -> Single {
    Single::from_bits(x.to_bits())
}

fn number(x: Single) -> f32 {
    f32::from_bits(x.to_bits())
}

fn double(x: f64) -> Double {
    Double::from_bits(x.to_bits())
}

fn unit(values: &[f32]) -> Vec<Single> {
    normalize_embedding(&values.iter().map(|value| single(*value)).collect()).unwrap()
}

/// A gallery over a database.
struct Store {
    connection: Connection,
    gallery: IdentityGallery,
}

fn metadata(connection: &Connection, key: &str) -> Option<String> {
    connection
        .query_row("SELECT value FROM face_id_metadata WHERE key = ?1", [key], |row| row.get(0))
        .optional()
        .unwrap()
}

fn set_metadata(connection: &Connection, key: &str, value: &str) {
    connection
        .execute("INSERT OR REPLACE INTO face_id_metadata (key, value) VALUES (?1, ?2)", [key, value])
        .unwrap();
}

fn sample_rows(connection: &Connection, person_id: i64) -> Vec<TemplateRow> {
    let mut statement = connection
        .prepare(
            "SELECT pose, embedding, embedding_dim FROM face_identity_samples
             WHERE person_id = ?1 ORDER BY pose, sample_id",
        )
        .unwrap();
    let rows = statement
        .query_map([person_id], |row| {
            Ok(TemplateRow { pose: row.get(0)?, embedding: row.get(1)?, dimension: row.get(2)? })
        })
        .unwrap();
    rows.map(|row| row.unwrap()).collect()
}

fn load(connection: &Connection) -> Result<Vec<Identity>, String> {
    let mut statement = connection
        .prepare(
            "SELECT person_id, name, fingerprint, centroid, embedding_dim, samples
             FROM face_identities ORDER BY person_id",
        )
        .unwrap();
    let rows: Vec<IdentityRow> = statement
        .query_map([], |row| {
            Ok(IdentityRow {
                person_id: row.get(0)?,
                name: row.get(1)?,
                fingerprint: row.get(2)?,
                centroid: row.get(3)?,
                dimension: row.get(4)?,
                samples: row.get(5)?,
            })
        })
        .unwrap()
        .map(|row| row.unwrap())
        .collect();
    let samples = rows.iter().map(|row| sample_rows(connection, row.person_id)).collect();
    load_identities(&rows, &samples)
}

impl Store {
    fn initialize(connection: Connection, model_checksum: &str) -> Result<Self, String> {
        connection
            .execute_batch(
                "CREATE TABLE IF NOT EXISTS face_id_metadata (
                    key TEXT PRIMARY KEY,
                    value TEXT NOT NULL
                );
                CREATE TABLE IF NOT EXISTS face_identities (
                    person_id INTEGER PRIMARY KEY AUTOINCREMENT,
                    name TEXT,
                    fingerprint TEXT NOT NULL UNIQUE,
                    centroid BLOB NOT NULL,
                    embedding_dim INTEGER NOT NULL CHECK (embedding_dim > 0),
                    samples INTEGER NOT NULL CHECK (samples > 0),
                    created_at TEXT NOT NULL DEFAULT CURRENT_TIMESTAMP,
                    updated_at TEXT NOT NULL DEFAULT CURRENT_TIMESTAMP
                );
                CREATE TABLE IF NOT EXISTS face_identity_samples (
                    sample_id INTEGER PRIMARY KEY AUTOINCREMENT,
                    person_id INTEGER NOT NULL REFERENCES face_identities(person_id) ON DELETE CASCADE,
                    pose TEXT NOT NULL CHECK (pose IN ('center', 'left', 'right', 'up', 'down')),
                    embedding BLOB NOT NULL,
                    embedding_dim INTEGER NOT NULL CHECK (embedding_dim > 0),
                    quality REAL NOT NULL CHECK (quality >= 0.0 AND quality <= 1.0),
                    created_at TEXT NOT NULL DEFAULT CURRENT_TIMESTAMP
                );",
            )
            .unwrap();
        let version = DATABASE_SCHEMA_VERSION.to_string();
        match migrate_schema(metadata(&connection, "schema_version").as_deref())? {
            Migration::Keep => {}
            Migration::AddNames => {
                connection
                    .execute_batch("ALTER TABLE face_identities ADD COLUMN name TEXT;")
                    .unwrap();
                set_metadata(&connection, "schema_version", &version);
            }
            Migration::Initialize | Migration::Update => {
                set_metadata(&connection, "schema_version", &version);
            }
        }
        for (key, expected) in
            [("embedding_format", embedding_format()), ("model_sha256", model_checksum)]
        {
            if validate_or_insert_metadata(key, metadata(&connection, key).as_deref(), expected)? {
                set_metadata(&connection, key, expected);
            }
        }
        let identities = load(&connection)?;
        Ok(Store {
            connection,
            gallery: IdentityGallery::new(identities, FaceIdDatabaseMode::ReadWrite),
        })
    }

    fn initialize_read_only(connection: Connection, model_checksum: &str) -> Result<Self, String> {
        let version = DATABASE_SCHEMA_VERSION.to_string();
        for (key, expected) in [
            ("schema_version", version.as_str()),
            ("embedding_format", embedding_format()),
            ("model_sha256", model_checksum),
        ] {
            validate_metadata(key, metadata(&connection, key).as_deref(), expected)?;
        }
        let identities = load(&connection)?;
        Ok(Store {
            connection,
            gallery: IdentityGallery::new(identities, FaceIdDatabaseMode::ReadOnly),
        })
    }

    fn open_in_memory(model_checksum: &str) -> Result<Self, String> {
        Self::initialize(Connection::open_in_memory().unwrap(), model_checksum)
    }

    fn identify(&mut self, embedding: Vec<Single>) -> FaceIdentityMatch {
        match self.gallery.identify(embedding, PoseGroup::Center) {
            IdentifyStep::Answer { result } => result,
            IdentifyStep::Count { index, samples, result } => {
                self.connection
                    .execute(
                        "UPDATE face_identities SET samples = ?1 WHERE person_id = ?2",
                        [samples as i64, result.person_id as i64],
                    )
                    .unwrap();
                self.gallery.count_stored(index, samples);
                result
            }
            IdentifyStep::Enroll { fingerprint, embedding, similarity } => {
                self.connection
                    .execute(
                        "INSERT INTO face_identities
                         (fingerprint, centroid, embedding_dim, samples)
                         VALUES (?1, ?2, ?3, 1)",
                        (&fingerprint, embedding_to_blob(&embedding), embedding.len() as i64),
                    )
                    .unwrap();
                let person_id = self.connection.last_insert_rowid() as u64;
                self.gallery.enroll_stored(person_id, fingerprint, embedding, similarity)
            }
        }
    }

    fn commit_capture(
        &mut self,
        target: &FaceCaptureTarget,
        captured: &Vec<CapturedFaceSample>,
    ) -> Result<FaceIdentityMatch, String> {
        let plan = self.gallery.plan_capture(target, captured)?;
        let transaction = self.connection.transaction().unwrap();
        let centroid = embedding_to_blob(&plan.centroid);
        let dimension = plan.centroid.len() as i64;
        let person_id = match plan.person_id {
            Some(person_id) => {
                transaction
                    .execute(
                        "UPDATE face_identities SET centroid = ?1, embedding_dim = ?2, samples = ?3
                         WHERE person_id = ?4",
                        (&centroid, dimension, plan.samples as i64, person_id as i64),
                    )
                    .unwrap();
                person_id
            }
            None => {
                transaction
                    .execute(
                        "INSERT INTO face_identities
                         (name, fingerprint, centroid, embedding_dim, samples)
                         VALUES (?1, ?2, ?3, ?4, ?5)",
                        (
                            plan.name.as_deref(),
                            &plan.fingerprint,
                            &centroid,
                            dimension,
                            plan.samples as i64,
                        ),
                    )
                    .unwrap();
                transaction.last_insert_rowid() as u64
            }
        };
        for row in &plan.rows {
            transaction
                .execute(
                    "INSERT INTO face_identity_samples
                     (person_id, pose, embedding, embedding_dim, quality)
                     VALUES (?1, ?2, ?3, ?4, ?5)",
                    (
                        person_id as i64,
                        row.pose,
                        &row.embedding,
                        row.dimension as i64,
                        number(row.quality),
                    ),
                )
                .unwrap();
        }
        transaction.commit().unwrap();
        let templates = load_pose_templates(&sample_rows(&self.connection, person_id as i64))?;
        Ok(self.gallery.capture_stored(plan, person_id, templates))
    }

    fn count(&self, query: &str) -> i64 {
        self.connection.query_row(query, [], |row| row.get(0)).unwrap()
    }
}

#[test]
fn gallery_reuses_person_id_above_threshold() {
    let mut gallery = Store::open_in_memory("test-model").unwrap();
    let first = gallery.identify(unit(&[1.0, 0.0, 0.0]));
    let second = gallery.identify(unit(&[0.99, 0.05, 0.0]));
    assert_eq!(first.person_id, second.person_id);
    assert_eq!(first.fingerprint, second.fingerprint);
    assert!(!second.is_new);
}

#[test]
fn gallery_splits_different_embeddings() {
    let mut gallery = Store::open_in_memory("test-model").unwrap();
    let first = gallery.identify(unit(&[1.0, 0.0]));
    let second = gallery.identify(unit(&[0.0, 1.0]));
    assert_ne!(first.person_id, second.person_id);
    assert!(second.is_new);
}

#[test]
fn sqlite_gallery_survives_reopen_and_rejects_another_model() {
    let path = "file:facefeature-gallery?mode=memory&cache=shared";
    let open = || Connection::open(path).unwrap();
    // The database lives as long as one connection to it.
    let _anchor = open();
    let embedding = unit(&[1.0, 0.2, 0.1]);

    let first = {
        let mut gallery = Store::initialize(open(), "model-a").unwrap();
        let result = gallery.identify(embedding.clone());
        gallery
            .connection
            .execute(
                "UPDATE face_identities SET name = 'Alice' WHERE person_id = ?1",
                [result.person_id as i64],
            )
            .unwrap();
        result
    };
    {
        let connection = Connection::open_with_flags(
            path,
            OpenFlags::SQLITE_OPEN_READ_ONLY | OpenFlags::SQLITE_OPEN_URI,
        )
        .unwrap();
        let mut gallery = Store::initialize_read_only(connection, "model-a").unwrap();
        let matched = gallery.identify(embedding.clone());
        assert_eq!(matched.person_id, first.person_id);
        assert!(matched.persisted);
        assert!(!matched.is_new);

        let unknown = gallery.identify(unit(&[0.0, 1.0, 0.0]));
        assert_eq!(unknown.person_id, 0);
        assert!(!unknown.persisted);
        assert_eq!(unknown.display_name(), "Unknown");

        let samples: i64 = gallery
            .connection
            .query_row(
                "SELECT samples FROM face_identities WHERE person_id = ?1",
                [first.person_id as i64],
                |row| row.get(0),
            )
            .unwrap();
        assert_eq!(samples, 1);
        assert_eq!(gallery.gallery.len(), 1);
    }
    let second = {
        let mut gallery = Store::initialize(open(), "model-a").unwrap();
        assert_eq!(gallery.gallery.len(), 1);
        gallery.identify(embedding)
    };
    assert_eq!(first.person_id, second.person_id);
    assert_eq!(first.fingerprint, second.fingerprint);
    assert_eq!(second.name.as_deref(), Some("Alice"));
    assert_eq!(second.display_name(), "Alice");
    assert!(!second.is_new);

    let mismatch = Store::initialize(open(), "model-b").err().unwrap();
    assert!(mismatch.contains("model_sha256 mismatch"));
}

#[test]
fn schema_one_database_is_migrated_with_a_name_column() {
    let connection = Connection::open_in_memory().unwrap();
    connection
        .execute_batch(
            "CREATE TABLE face_id_metadata (
                key TEXT PRIMARY KEY,
                value TEXT NOT NULL
            );
            INSERT INTO face_id_metadata VALUES ('schema_version', '1');
            CREATE TABLE face_identities (
                person_id INTEGER PRIMARY KEY AUTOINCREMENT,
                fingerprint TEXT NOT NULL UNIQUE,
                centroid BLOB NOT NULL,
                embedding_dim INTEGER NOT NULL,
                samples INTEGER NOT NULL,
                created_at TEXT NOT NULL DEFAULT CURRENT_TIMESTAMP,
                updated_at TEXT NOT NULL DEFAULT CURRENT_TIMESTAMP
            );",
        )
        .unwrap();

    let gallery = Store::initialize(connection, "test-model").unwrap();
    let name_columns =
        gallery.count("SELECT COUNT(*) FROM pragma_table_info('face_identities') WHERE name = 'name'");
    let version: String = gallery
        .connection
        .query_row(
            "SELECT value FROM face_id_metadata WHERE key = 'schema_version'",
            [],
            |row| row.get(0),
        )
        .unwrap();
    assert_eq!(name_columns, 1);
    let sample_table = gallery.count(
        "SELECT COUNT(*) FROM sqlite_master WHERE type = 'table' AND name = 'face_identity_samples'",
    );
    assert_eq!(version, "3");
    assert_eq!(sample_table, 1);
}

fn guided_samples() -> Vec<CapturedFaceSample> {
    let mut captured = Vec::new();
    for pose_index in 0..5 {
        for sample_index in 0..3 {
            captured.push(CapturedFaceSample {
                pose: CapturePose::at(pose_index),
                embedding: unit(&[1.0, pose_index as f32 * 0.02, sample_index as f32 * 0.01]),
                quality: single(0.9),
            });
        }
    }
    captured
}

#[test]
fn guided_capture_commits_five_pose_templates_atomically() {
    let mut gallery = Store::open_in_memory("capture-model").unwrap();
    let captured = guided_samples();

    let identity = gallery
        .commit_capture(&FaceCaptureTarget::New { name: "Radit".to_owned() }, &captured)
        .unwrap();
    assert_eq!(identity.person_id, 1);
    assert_eq!(identity.name.as_deref(), Some("Radit"));
    assert_eq!(gallery.gallery.person(0).pose_templates.len(), 5);

    let (sample_count, pose_count): (i64, i64) = gallery
        .connection
        .query_row(
            "SELECT COUNT(*), COUNT(DISTINCT pose) FROM face_identity_samples WHERE person_id = 1",
            [],
            |row| Ok((row.get(0)?, row.get(1)?)),
        )
        .unwrap();
    assert_eq!(sample_count, 15);
    assert_eq!(pose_count, 5);

    gallery
        .commit_capture(&FaceCaptureTarget::Existing { person_id: 1 }, &captured)
        .unwrap();
    let updated_count =
        gallery.count("SELECT COUNT(*) FROM face_identity_samples WHERE person_id = 1");
    assert_eq!(updated_count, 30);
    assert_eq!(gallery.gallery.person(0).name.as_deref(), Some("Radit"));
    assert_eq!(gallery.gallery.person(0).pose_templates.len(), 5);
    assert_eq!(gallery.gallery.person(0).samples, 30);
}

#[test]
fn matches_count_samples_and_leave_the_centroid() {
    let mut gallery = Store::open_in_memory("test-model").unwrap();
    gallery.identify(unit(&[1.0, 0.0]));
    let centroid = gallery.gallery.person(0).centroid.clone();
    for _ in 0..5 {
        assert!(!gallery.identify(unit(&[0.8, 0.6])).is_new);
    }
    assert_eq!(gallery.gallery.person(0).centroid, centroid);
    assert_eq!(gallery.gallery.person(0).samples, 6);
    assert_eq!(gallery.count("SELECT samples FROM face_identities"), 6);
    let reloaded = load(&gallery.connection).unwrap();
    assert_eq!(reloaded[0].centroid, centroid);
}

#[test]
fn the_closest_person_is_recognized() {
    let mut gallery = Store::open_in_memory("test-model").unwrap();
    let first = gallery.identify(unit(&[1.0, 0.0]));
    let second = gallery.identify(unit(&[0.0, 1.0]));
    let found = gallery.identify(unit(&[0.6, 0.8]));
    assert_eq!(found.person_id, second.person_id);
    assert_eq!(number(found.similarity), 0.8);
    assert_eq!(gallery.identify(unit(&[0.9, 0.1])).person_id, first.person_id);
}

fn person(id: u64, name: Option<&str>, centroid: &[f32]) -> Identity {
    Identity {
        id,
        name: name.map(|name| name.to_owned()),
        centroid: unit(centroid),
        pose_templates: Vec::new(),
        samples: 1,
        fingerprint: "f".to_owned(),
    }
}

#[test]
fn templates_count_only_for_their_pose_group() {
    let mut known = person(4, None, &[1.0, 0.0]);
    known.pose_templates.push(PoseTemplate { pose: "left".to_owned(), embedding: unit(&[0.0, 1.0]) });
    let gallery = IdentityGallery::new(vec![known], FaceIdDatabaseMode::ReadOnly);
    let answer = |group| match gallery.identify(unit(&[0.0, 1.0]), group) {
        IdentifyStep::Answer { result } => result,
        other => panic!("{other:?}"),
    };
    assert_eq!(answer(PoseGroup::Horizontal).person_id, 4);
    assert_eq!(answer(PoseGroup::Center).person_id, 0);
    assert_eq!(answer(PoseGroup::Vertical).person_id, 0);
    assert_eq!(PoseGroup::of(Some(double(25.0)), None), PoseGroup::Horizontal);
    assert_eq!(PoseGroup::of(Some(double(0.0)), Some(double(-20.0))), PoseGroup::Vertical);
    assert_eq!(PoseGroup::of(None, None), PoseGroup::Center);
}

#[test]
fn capture_targets_are_checked() {
    let gallery =
        IdentityGallery::new(vec![person(4, Some("Radit"), &[1.0])], FaceIdDatabaseMode::ReadWrite);
    let check = |target| gallery.validate_capture_target(&target);
    assert!(check(FaceCaptureTarget::New { name: "Alice".to_owned() }).is_ok());
    assert_eq!(
        check(FaceCaptureTarget::New { name: "  ".to_owned() }).unwrap_err(),
        "capture name cannot be empty"
    );
    assert_eq!(
        check(FaceCaptureTarget::New { name: " RADIT ".to_owned() }).unwrap_err(),
        "identity name \"RADIT\" already belongs to person 4; use --capture --person 4"
    );
    assert_eq!(
        name_is_taken("\"x\"", 12),
        "identity name \"x\" already belongs to person 12; use --capture --person 12"
    );
    assert!(check(FaceCaptureTarget::Existing { person_id: 4 }).is_ok());
    assert_eq!(
        check(FaceCaptureTarget::Existing { person_id: 5 }).unwrap_err(),
        "person 5 does not exist in the identity gallery"
    );
}

#[test]
fn captures_are_whole_or_refused() {
    let new = FaceCaptureTarget::New { name: "Radit".to_owned() };
    let read_only = IdentityGallery::new(Vec::new(), FaceIdDatabaseMode::ReadOnly);
    assert_eq!(
        read_only.plan_capture(&new, &guided_samples()).unwrap_err(),
        "guided capture requires a writable face-ID database"
    );
    let gallery = IdentityGallery::new(Vec::new(), FaceIdDatabaseMode::ReadWrite);
    let mut short = guided_samples();
    short.pop();
    assert_eq!(
        gallery.plan_capture(&new, &short).unwrap_err(),
        "guided capture has 14 samples; expected 15"
    );
    assert_eq!(
        gallery
            .plan_capture(&FaceCaptureTarget::Existing { person_id: 2 }, &guided_samples())
            .unwrap_err(),
        "person 2 does not exist"
    );
    assert_eq!(
        gallery
            .plan_capture(&FaceCaptureTarget::New { name: " ".to_owned() }, &guided_samples())
            .unwrap_err(),
        "capture name cannot be empty"
    );
    assert_eq!(gallery.plan_capture(&new, &guided_samples()).unwrap().rows.len(), 15);
}

#[test]
fn bad_rows_are_refused() {
    let row = |person_id, dimension, samples| IdentityRow {
        person_id,
        name: None,
        fingerprint: "f".to_owned(),
        centroid: embedding_to_blob(&unit(&[1.0, 0.0])),
        dimension,
        samples,
    };
    let load = |row| load_identities(&vec![row], &vec![Vec::new()]);
    assert_eq!(load(row(1, 2, 1)).unwrap()[0].centroid, unit(&[1.0, 0.0]));
    for bad in [row(0, 2, 1), row(1, 0, 1), row(1, 2, 0)] {
        assert_eq!(load(bad).unwrap_err(), "face-ID database contains invalid identity metadata");
    }
    assert!(load(row(1, 3, 1)).is_err());
    let bad_sample =
        TemplateRow { pose: "left".to_owned(), embedding: Vec::new(), dimension: 0 };
    assert_eq!(
        load_pose_templates(&vec![bad_sample]).unwrap_err(),
        "pose template has an invalid embedding dimension"
    );
}

#[test]
fn metadata_and_schemas_are_checked() {
    assert_eq!(migrate_schema(None), Ok(Migration::Initialize));
    assert_eq!(migrate_schema(Some("1")), Ok(Migration::AddNames));
    assert_eq!(migrate_schema(Some("2")), Ok(Migration::Update));
    assert_eq!(migrate_schema(Some("3")), Ok(Migration::Keep));
    assert_eq!(
        migrate_schema(Some("9")).unwrap_err(),
        "unsupported face-ID database schema version 9; expected 3"
    );
    assert!(validate_metadata("model_sha256", Some("a"), "a").is_ok());
    assert_eq!(
        validate_metadata("model_sha256", Some("a"), "b").unwrap_err(),
        "face-ID database model_sha256 mismatch: stored=a, expected=b"
    );
    assert_eq!(
        validate_metadata("model_sha256", None, "b").unwrap_err(),
        "face-ID database is missing metadata key model_sha256"
    );
    assert_eq!(validate_or_insert_metadata("k", Some("a"), "a"), Ok(false));
    assert_eq!(validate_or_insert_metadata("k", None, "a"), Ok(true));
    assert_eq!(
        validate_or_insert_metadata("k", Some("a"), "b").unwrap_err(),
        "face-ID database k mismatch: stored=a, expected=b; use a different --face-id-db path"
    );
}
