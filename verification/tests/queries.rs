use repartizare::county::County;
use repartizare::dbmgr::DB;
use repartizare::parse::GRADE_ABSENT;
use repartizare::specializare::RawSpecializare;
use repartizare::student::RawStudent;

fn county(id: i32, code: &str, name: &str) -> County {
    County {
        id,
        code: code.to_string(),
        name: name.to_string(),
    }
}

fn raw_offer(judet: &str, cod: &str, liceu: &str) -> RawSpecializare {
    RawSpecializare {
        judet: judet.to_string(),
        cod: cod.to_string(),
        liceu: liceu.to_string(),
        mediu: "Urban".to_string(),
        specializare: "Matematica-Informatica".to_string(),
        limba_bilingv: "-".to_string(),
        nr_locuri_total: "28".to_string(),
        nr_locuri_ocupate: "26".to_string(),
        profil: "Real".to_string(),
        filiera: "Teoretica".to_string(),
        ultima_medie: Some("9.54".to_string()),
        ultima_medie_anterior: "9.60".to_string(),
    }
}

fn raw_student(judet: &str, id: &str, label: &str, medie: &str) -> RawStudent {
    RawStudent {
        judet_id: judet.to_string(),
        id: id.to_string(),
        scoala_provenienta: "Scoala Gimnaziala".to_string(),
        medie_admitere: medie.to_string(),
        medie_evaluare: "9.00".to_string(),
        medie_absolvire: "9.25".to_string(),
        nota_ro: "8.90".to_string(),
        nota_mate: "9.10".to_string(),
        liceu: "Liceul Teoretic".to_string(),
        specializare: label.to_string(),
    }
}

fn populated_db() -> DB {
    let mut db = DB::new();
    let h = db.get_year_pool(2023, true).unwrap();
    let counties = vec![county(0, "CJ", "Cluj"), county(1, "AB", "Alba")];
    db.insert_counties(h, &counties);
    let ab = county(1, "AB", "Alba");
    let offers = vec![
        raw_offer("AB", "101", "-"),
        raw_offer("AB", "205", "Colegiul National"),
        raw_offer("AB", "103", "Liceul de Arte"),
    ];
    db.insert_specializari(h, &ab, &offers).unwrap();
    let students = vec![
        raw_student("AB", "AB1", "(101) Mate-Info", "9.12"),
        raw_student("AB", "AB2", "(101) Mate-Info", "absent"),
        raw_student("AB", "AB3", "(101) Mate-Info", "8.50"),
        raw_student("AB", "AB4", "Nerepartizat", "7.00"),
    ];
    db.insert_students(h, &ab, &students).unwrap();
    db
}

#[test]
fn counties_listed_in_code_order() {
    let db = populated_db();
    let listed = db.get_counties(2023);
    assert_eq!(listed.len(), 2);
    assert_eq!(listed[0].code, "AB");
    assert_eq!(listed[0].name, "Alba");
    assert_eq!(listed[1].code, "CJ");
}

#[test]
fn counties_of_unknown_year_empty() {
    let db = populated_db();
    assert!(db.get_counties(1999).is_empty());
}

#[test]
fn schools_listed_distinct_and_sorted() {
    let db = populated_db();
    let schools = db.get_schools(2023, "AB");
    assert_eq!(
        schools,
        vec!["-", "Colegiul National", "Liceul de Arte"]
    );
}

#[test]
fn schools_of_unknown_region_empty() {
    // Scenario: a query for a region that does not exist in the year
    // returns an empty sequence, not an error.
    let db = populated_db();
    assert!(db.get_schools(2023, "ZZ").is_empty());
    assert!(db.get_schools(1999, "AB").is_empty());
}

#[test]
fn full_school_lists_synthetic_and_real_offer() {
    // Scenario: one real offer with id 101 and the synthetic offer with
    // id -1 share a school; the short list carries both ids, ascending.
    let db = populated_db();
    let school = db.get_full_school(2023, "AB", "-");
    let ids: Vec<i32> = school.specializari_short.iter().map(|s| s.id).collect();
    assert_eq!(ids, vec![-1, 101]);
    for id in ids {
        assert!(school.specializari.contains_key(&id));
    }
    let detail = &school.specializari[&101];
    assert_eq!(detail.specializare.id, 101);
    assert_eq!(detail.specializare.judet, "AB");
}

#[test]
fn full_school_candidates_sorted_descending_absent_last() {
    let db = populated_db();
    let school = db.get_full_school(2023, "AB", "-");
    let detail = &school.specializari[&101];
    let averages: Vec<i32> = detail.elevi.iter().map(|s| s.medie_admitere).collect();
    assert_eq!(averages, vec![912, 850, GRADE_ABSENT]);
    let unassigned = &school.specializari[&-1];
    assert_eq!(unassigned.elevi.len(), 1);
    assert_eq!(unassigned.elevi[0].id, "AB4");
}

#[test]
fn full_school_of_unknown_school_empty() {
    let db = populated_db();
    let school = db.get_full_school(2023, "AB", "Nicaieri");
    assert!(school.specializari_short.is_empty());
    assert!(school.specializari.is_empty());
    let other = db.get_full_school(1999, "AB", "-");
    assert!(other.specializari_short.is_empty());
}

#[test]
fn full_school_short_names_match_offers() {
    let db = populated_db();
    let school = db.get_full_school(2023, "AB", "Colegiul National");
    assert_eq!(school.specializari_short.len(), 1);
    assert_eq!(school.specializari_short[0].id, 205);
    assert_eq!(
        school.specializari_short[0].name,
        "205: Matematica-Informatica"
    );
}
