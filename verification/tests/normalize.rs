use repartizare::county::{get_all, County};
use repartizare::error::IngestError;
use repartizare::parse::GRADE_ABSENT;
use repartizare::specializare::{RawSpecializare, Specializare};
use repartizare::student::{RawStudent, Student};

fn raw_offer(cod: &str) -> RawSpecializare {
    RawSpecializare {
        judet: "AB".to_string(),
        cod: cod.to_string(),
        liceu: "Liceul Teoretic".to_string(),
        mediu: "Urban".to_string(),
        specializare: "Matematica-Informatica".to_string(),
        limba_bilingv: "-".to_string(),
        nr_locuri_total: "28".to_string(),
        nr_locuri_ocupate: "28".to_string(),
        profil: "Real".to_string(),
        filiera: "Teoretica".to_string(),
        ultima_medie: Some("9.54".to_string()),
        ultima_medie_anterior: "9.60".to_string(),
    }
}

fn raw_student(label: &str) -> RawStudent {
    RawStudent {
        judet_id: "AB".to_string(),
        id: "AB123".to_string(),
        scoala_provenienta: "Scoala Gimnaziala".to_string(),
        medie_admitere: "9.12".to_string(),
        medie_evaluare: "9.00".to_string(),
        medie_absolvire: "9.25".to_string(),
        nota_ro: "8.90".to_string(),
        nota_mate: "9.10".to_string(),
        liceu: "Liceul Teoretic".to_string(),
        specializare: label.to_string(),
    }
}

#[test]
fn offer_normalization_plain() {
    let sp = Specializare::from_raw(&raw_offer("149")).unwrap();
    assert_eq!(sp.id, 149);
    assert_eq!(sp.name, "149: Matematica-Informatica");
    assert_eq!(sp.judet, "AB");
    assert!(!sp.bilingv);
    assert_eq!(sp.locuri, 28);
    assert_eq!(sp.ocupate, 28);
    assert_eq!(sp.ultima_medie, 954);
    assert_eq!(sp.ultima_medie_anterior, 960);
}

#[test]
fn offer_normalization_bilingual() {
    let mut raw = raw_offer("150");
    raw.limba_bilingv = "Engleza".to_string();
    let sp = Specializare::from_raw(&raw).unwrap();
    assert!(sp.bilingv);
    assert_eq!(sp.name, "150: Matematica-Informatica (Bilingv Engleza)");
}

#[test]
fn offer_average_fallback() {
    let mut raw = raw_offer("151");
    raw.ultima_medie = None;
    raw.ultima_medie_anterior = "n/a".to_string();
    let sp = Specializare::from_raw(&raw).unwrap();
    assert_eq!(sp.ultima_medie, GRADE_ABSENT);
    assert_eq!(sp.ultima_medie_anterior, GRADE_ABSENT);
}

#[test]
fn offer_mandatory_fields_fatal() {
    let mut bad_cod = raw_offer("abc");
    assert_eq!(
        Specializare::from_raw(&bad_cod).unwrap_err(),
        IngestError::MalformedPayload
    );
    bad_cod = raw_offer("0");
    assert_eq!(
        Specializare::from_raw(&bad_cod).unwrap_err(),
        IngestError::MalformedPayload
    );
    let mut bad_seats = raw_offer("152");
    bad_seats.nr_locuri_total = "many".to_string();
    assert_eq!(
        Specializare::from_raw(&bad_seats).unwrap_err(),
        IngestError::MalformedPayload
    );
}

#[test]
fn unassigned_offer_shape() {
    let county = County {
        id: 3,
        code: "AB".to_string(),
        name: "Alba".to_string(),
    };
    let sp = Specializare::nerepartizat(&county);
    assert_eq!(sp.id, -3);
    assert_eq!(sp.name, "Nerepartizat AB");
    assert_eq!(sp.judet, "AB");
    assert_eq!(sp.liceu, "-");
    assert_eq!(sp.locuri, -1);
    assert_eq!(sp.ocupate, -1);
    assert_eq!(sp.ultima_medie, GRADE_ABSENT);
}

#[test]
fn unassigned_id_never_collides() {
    // A real offer id parses as a positive integer; the synthetic id is
    // non-positive.
    let county = County {
        id: 0,
        code: "B".to_string(),
        name: "Bucuresti".to_string(),
    };
    let synthetic = Specializare::nerepartizat(&county);
    let real = Specializare::from_raw(&raw_offer("149")).unwrap();
    assert_eq!(synthetic.id, 0);
    assert!(real.id > 0);
    assert_ne!(synthetic.id, real.id);
}

#[test]
fn student_normalization_plain() {
    let st = Student::from_raw(&raw_student("(149) Matematica-Informatica"), 3).unwrap();
    assert_eq!(st.id, "AB123");
    assert_eq!(st.judet, "AB");
    assert_eq!(st.medie_admitere, 912);
    assert_eq!(st.nota_romana, 890);
    assert_eq!(st.nota_mate, 910);
    assert_eq!(st.id_specializare, 149);
    assert_eq!(st.specializare, "(149) Matematica-Informatica");
}

#[test]
fn student_unassigned_label() {
    let st = Student::from_raw(&raw_student("Nerepartizat"), 3).unwrap();
    assert_eq!(st.id_specializare, -3);
}

#[test]
fn student_average_fallback() {
    let mut raw = raw_student("(149) Ceva");
    raw.medie_admitere = "".to_string();
    let st = Student::from_raw(&raw, 3).unwrap();
    assert_eq!(st.medie_admitere, GRADE_ABSENT);
}

#[test]
fn student_mandatory_fields_fatal() {
    let mut bad_nota = raw_student("(149) Ceva");
    bad_nota.nota_ro = "absent".to_string();
    assert_eq!(
        Student::from_raw(&bad_nota, 3).unwrap_err(),
        IngestError::MalformedPayload
    );
    let no_digits = raw_student("fara numar");
    assert_eq!(
        Student::from_raw(&no_digits, 3).unwrap_err(),
        IngestError::MalformedPayload
    );
}

#[test]
fn regions_from_index_page() {
    let html = "<html><body><div class=\"county\">\
        <a class=\"card-body\" href=\"AB/index.html\"> alba iulia</a>\
        <a class=\"card-body\" href=\"CJ/index.html\"> cluj napoca</a>\
        <span class=\"card-body\">no link here</span>\
        </div></body></html>";
    let counties = get_all(html).unwrap();
    assert_eq!(counties.len(), 2);
    assert_eq!(counties[0].id, 0);
    assert_eq!(counties[0].code, "AB");
    assert_eq!(counties[0].name, "Alba Iulia");
    assert_eq!(counties[1].id, 1);
    assert_eq!(counties[1].code, "CJ");
    assert_eq!(counties[1].name, "Cluj Napoca");
}

#[test]
fn regions_from_empty_page() {
    let counties = get_all("<html><body><p>nothing</p></body></html>").unwrap();
    assert!(counties.is_empty());
}
