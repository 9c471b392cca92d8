use repartizare::county::County;
use repartizare::dbmgr::DB;
use repartizare::error::IngestError;
use repartizare::ingest::ingest_regions;
use repartizare::specializare::RawSpecializare;
use repartizare::store::YearStore;
use repartizare::student::RawStudent;

fn county(id: i32, code: &str, name: &str) -> County {
    County {
        id,
        code: code.to_string(),
        name: name.to_string(),
    }
}

fn raw_offer(cod: &str, liceu: &str) -> RawSpecializare {
    RawSpecializare {
        judet: "AB".to_string(),
        cod: cod.to_string(),
        liceu: liceu.to_string(),
        mediu: "Urban".to_string(),
        specializare: "Matematica-Informatica".to_string(),
        limba_bilingv: "-".to_string(),
        nr_locuri_total: "28".to_string(),
        nr_locuri_ocupate: "26".to_string(),
        profil: "Real".to_string(),
        filiera: "Teoretica".to_string(),
        ultima_medie: Some("9.54".to_string()),
        ultima_medie_anterior: "9.60".to_string(),
    }
}

fn raw_student(id: &str, label: &str, medie: &str) -> RawStudent {
    RawStudent {
        judet_id: "AB".to_string(),
        id: id.to_string(),
        scoala_provenienta: "Scoala Gimnaziala".to_string(),
        medie_admitere: medie.to_string(),
        medie_evaluare: "9.00".to_string(),
        medie_absolvire: "9.25".to_string(),
        nota_ro: "8.90".to_string(),
        nota_mate: "9.10".to_string(),
        liceu: "Liceul Teoretic".to_string(),
        specializare: label.to_string(),
    }
}

#[test]
fn county_insertion_idempotent() {
    let mut store = YearStore::new();
    let batch = vec![
        county(0, "AB", "Alba"),
        county(1, "CJ", "Cluj"),
        county(2, "AB", "Alba Again"),
    ];
    store.insert_counties(&batch);
    assert_eq!(store.counties.len(), 2);
    store.insert_counties(&batch);
    assert_eq!(store.counties.len(), 2);
    assert_eq!(store.counties[0].code, "AB");
    assert_eq!(store.counties[0].name, "Alba");
    assert_eq!(store.counties[1].code, "CJ");
}

#[test]
fn offer_duplicate_skipped_and_logged() {
    // Scenario: a duplicate offer id is attempted; the operation reports
    // it and carries on, and the region's candidates still insert.
    let mut store = YearStore::new();
    let c = county(1, "AB", "Alba");
    let raws = vec![
        raw_offer("101", "Liceul Teoretic"),
        raw_offer("101", "Liceul Teoretic"),
        raw_offer("102", "Liceul Teoretic"),
    ];
    let skipped = store.insert_specializari(&c, &raws).unwrap();
    assert_eq!(skipped, vec![101]);
    // Synthetic plus the two distinct real offers.
    assert_eq!(store.specializari.len(), 3);
    let students = vec![raw_student("AB1", "(101) Mate-Info", "9.12")];
    store.insert_students(&c, &students).unwrap();
    assert_eq!(store.students.len(), 1);
}

#[test]
fn offer_malformed_feed_aborts_after_synthetic() {
    let mut store = YearStore::new();
    let c = county(1, "AB", "Alba");
    let raws = vec![raw_offer("101", "Liceul Teoretic"), raw_offer("x", "L")];
    assert_eq!(
        store.insert_specializari(&c, &raws).unwrap_err(),
        IngestError::MalformedPayload
    );
    // Only the synthetic unassigned offer was written.
    assert_eq!(store.specializari.len(), 1);
    assert_eq!(store.specializari[0].id, -1);
}

#[test]
fn candidate_insertion_is_all_or_nothing() {
    let mut store = YearStore::new();
    let c = county(1, "AB", "Alba");
    let dup = vec![
        raw_student("AB1", "(101) Mate-Info", "9.12"),
        raw_student("AB1", "(102) Filologie", "8.50"),
    ];
    assert_eq!(
        store.insert_students(&c, &dup).unwrap_err(),
        IngestError::DuplicateKey
    );
    assert_eq!(store.students.len(), 0);
    let bad = vec![raw_student("AB2", "fara numar", "9.12")];
    assert_eq!(
        store.insert_students(&c, &bad).unwrap_err(),
        IngestError::MalformedPayload
    );
    assert_eq!(store.students.len(), 0);
    let good = vec![
        raw_student("AB1", "(101) Mate-Info", "9.12"),
        raw_student("AB2", "Nerepartizat", "8.50"),
    ];
    store.insert_students(&c, &good).unwrap();
    assert_eq!(store.students.len(), 2);
    assert_eq!(store.students[1].id_specializare, -1);
}

#[test]
fn year_cache_yields_one_handle_per_year() {
    let mut db = DB::new();
    let h1 = db.get_year_pool(2023, true).unwrap();
    let h2 = db.get_year_pool(2023, true).unwrap();
    let h3 = db.get_year_pool(2023, false).unwrap();
    assert_eq!(h1, h2);
    assert_eq!(h1, h3);
    assert_eq!(db.stores.len(), 1);
    let other = db.get_year_pool(2022, true).unwrap();
    assert_ne!(h1, other);
    assert_eq!(db.stores.len(), 2);
}

#[test]
fn year_cache_miss_without_create_is_not_found() {
    let mut db = DB::new();
    assert_eq!(
        db.get_year_pool(2021, false).unwrap_err(),
        IngestError::NotFound
    );
    assert_eq!(db.stores.len(), 0);
}

#[test]
fn failed_index_fetch_aborts_year() {
    // Scenario: the region index fetch does not return a success status;
    // the whole year aborts and no records exist for it afterward.
    let mut db = DB::new();
    let r = ingest_regions(&mut db, 2023, None);
    assert_eq!(r.unwrap_err(), IngestError::SourceUnavailable);
    assert!(db.get_counties(2023).is_empty());
    assert!(db.get_schools(2023, "AB").is_empty());
}

#[test]
fn ingest_regions_from_index() {
    let html = "<html><body><div class=\"county\">\
        <a class=\"card-body\" href=\"AB/index.html\"> alba</a>\
        <a class=\"card-body\" href=\"CJ/index.html\"> cluj</a>\
        </div></body></html>";
    let mut db = DB::new();
    let (h, counties) = ingest_regions(&mut db, 2023, Some(html)).unwrap();
    assert_eq!(counties.len(), 2);
    let again = ingest_regions(&mut db, 2023, Some(html)).unwrap();
    assert_eq!(again.0, h);
    let listed = db.get_counties(2023);
    assert_eq!(listed.len(), 2);
    assert_eq!(listed[0].code, "AB");
    assert_eq!(listed[1].code, "CJ");
}
