use vstd::prelude::*;

use crate::error::IngestError;
use crate::parse::{
    first_digit_run,
    spec_parse_grade,
    spec_parse_i32,
    extract_digit_run,
    parse_grade,
    parse_i32,
    GRADE_ABSENT,
};
use crate::specializare::{grade_or_absent, grade_or_absent_exec};

verus! {

/// A raw candidate record, as the per-region feed carries it: every field
/// is text.
#[derive(Debug)]
pub struct RawStudent {
    pub judet_id: String,
    pub id: String,
    pub scoala_provenienta: String,
    pub medie_admitere: String,
    pub medie_evaluare: String,
    pub medie_absolvire: String,
    pub nota_ro: String,
    pub nota_mate: String,
    pub liceu: String,
    pub specializare: String,
}

/// Mathematical image of a raw candidate record.
pub ghost struct RawStudentV {
    pub judet_id: Seq<char>,
    pub id: Seq<char>,
    pub scoala_provenienta: Seq<char>,
    pub medie_admitere: Seq<char>,
    pub medie_evaluare: Seq<char>,
    pub medie_absolvire: Seq<char>,
    pub nota_ro: Seq<char>,
    pub nota_mate: Seq<char>,
    pub liceu: Seq<char>,
    pub specializare: Seq<char>,
}

impl View for RawStudent {
    type V = RawStudentV;

    open spec fn view(&self) -> RawStudentV {
        RawStudentV {
            judet_id: self.judet_id@,
            id: self.id@,
            scoala_provenienta: self.scoala_provenienta@,
            medie_admitere: self.medie_admitere@,
            medie_evaluare: self.medie_evaluare@,
            medie_absolvire: self.medie_absolvire@,
            nota_ro: self.nota_ro@,
            nota_mate: self.nota_mate@,
            liceu: self.liceu@,
            specializare: self.specializare@,
        }
    }
}

/// A normalized candidate. Averages are in hundredths with `GRADE_ABSENT`
/// for an unparsable value; `id_specializare` resolves the free-text
/// assignment label to an offer id, the region's negated id standing for
/// the unassigned bucket.
#[derive(Debug)]
pub struct Student {
    pub id: String,
    pub provenienta: String,
    pub judet: String,
    pub medie_admitere: i32,
    pub medie_evaluare: i32,
    pub medie_absolvire: i32,
    pub nota_romana: i32,
    pub nota_mate: i32,
    pub liceu: String,
    pub id_specializare: i32,
    pub specializare: String,
}

/// Mathematical image of a normalized candidate.
pub ghost struct StudentV {
    pub id: Seq<char>,
    pub provenienta: Seq<char>,
    pub judet: Seq<char>,
    pub medie_admitere: int,
    pub medie_evaluare: int,
    pub medie_absolvire: int,
    pub nota_romana: int,
    pub nota_mate: int,
    pub liceu: Seq<char>,
    pub id_specializare: int,
    pub specializare: Seq<char>,
}

impl View for Student {
    type V = StudentV;

    open spec fn view(&self) -> StudentV {
        StudentV {
            id: self.id@,
            provenienta: self.provenienta@,
            judet: self.judet@,
            medie_admitere: self.medie_admitere as int,
            medie_evaluare: self.medie_evaluare as int,
            medie_absolvire: self.medie_absolvire as int,
            nota_romana: self.nota_romana as int,
            nota_mate: self.nota_mate as int,
            liceu: self.liceu@,
            id_specializare: self.id_specializare as int,
            specializare: self.specializare@,
        }
    }
}

/// The offer id an assignment label denotes: the region's negated id for
/// the literal unassigned marker, else the label's first run of digits
/// read as an integer; `None` when the label has no digits or they
/// overflow the id type.
pub open spec fn spec_offer_id_of_label(label: Seq<char>, county_id: int) -> Option<int> {
    if label == "Nerepartizat"@ {
        Some(-county_id)
    } else {
        match spec_parse_i32(first_digit_run(label)) {
            Some(v) => Some(v as int),
            None => None,
        }
    }
}

/// Normalization of one raw candidate. `None` when an exam grade does not
/// parse or the assignment label yields no offer id.
pub open spec fn spec_normalize_student(r: RawStudentV, county_id: int) -> Option<StudentV> {
    let nota_ro = spec_parse_grade(r.nota_ro);
    let nota_mate = spec_parse_grade(r.nota_mate);
    let oid = spec_offer_id_of_label(r.specializare, county_id);
    if nota_ro is Some && nota_mate is Some && oid is Some {
        Some(
            StudentV {
                id: r.id,
                provenienta: r.scoala_provenienta,
                judet: r.judet_id,
                medie_admitere: grade_or_absent(r.medie_admitere),
                medie_evaluare: grade_or_absent(r.medie_evaluare),
                medie_absolvire: grade_or_absent(r.medie_absolvire),
                nota_romana: nota_ro->Some_0,
                nota_mate: nota_mate->Some_0,
                liceu: r.liceu,
                id_specializare: oid->Some_0,
                specializare: r.specializare,
            },
        )
    } else {
        None
    }
}

impl Student {
    /// Normalizes a raw candidate record, exactly as
    /// `spec_normalize_student` describes; a record whose exam grades or
    /// assignment label do not parse is rejected as a malformed payload.
    pub fn from_raw(st: &RawStudent, county_id: i32) -> (r: Result<Student, IngestError>)
        requires
            county_id >= 0,
        ensures
            match r {
                Ok(s) => spec_normalize_student(st@, county_id as int) == Some(s@),
                Err(e) => spec_normalize_student(st@, county_id as int) is None && e
                    == IngestError::MalformedPayload,
            },
    {
        let nota_romana = match parse_grade(st.nota_ro.as_str()) {
            Some(v) => v,
            None => {
                return Err(IngestError::MalformedPayload);
            },
        };
        let nota_mate = match parse_grade(st.nota_mate.as_str()) {
            Some(v) => v,
            None => {
                return Err(IngestError::MalformedPayload);
            },
        };
        let id_specializare: i32 = if st.specializare == "Nerepartizat".to_owned() {
            -county_id
        } else {
            let run = extract_digit_run(st.specializare.as_str());
            match parse_i32(run.as_str()) {
                Some(v) => v,
                None => {
                    return Err(IngestError::MalformedPayload);
                },
            }
        };
        Ok(
            Student {
                id: st.id.clone(),
                provenienta: st.scoala_provenienta.clone(),
                judet: st.judet_id.clone(),
                medie_admitere: grade_or_absent_exec(st.medie_admitere.as_str()),
                medie_evaluare: grade_or_absent_exec(st.medie_evaluare.as_str()),
                medie_absolvire: grade_or_absent_exec(st.medie_absolvire.as_str()),
                nota_romana,
                nota_mate,
                liceu: st.liceu.clone(),
                id_specializare,
                specializare: st.specializare.clone(),
            },
        )
    }

    /// A field-for-field copy.
    pub fn duplicate(&self) -> (r: Student)
        ensures
            r@ == self@,
    {
        Student {
            id: self.id.clone(),
            provenienta: self.provenienta.clone(),
            judet: self.judet.clone(),
            medie_admitere: self.medie_admitere,
            medie_evaluare: self.medie_evaluare,
            medie_absolvire: self.medie_absolvire,
            nota_romana: self.nota_romana,
            nota_mate: self.nota_mate,
            liceu: self.liceu.clone(),
            id_specializare: self.id_specializare,
            specializare: self.specializare.clone(),
        }
    }
}

} // verus!
