use vstd::prelude::*;

use crate::county::{County, CountyV};
use crate::error::IngestError;
use crate::parse::{spec_parse_grade, spec_parse_i32, parse_grade, parse_i32, GRADE_ABSENT};

verus! {

/// A raw specialization-offer record, as the per-region feed carries it:
/// every field is text, and the previous-session average may be missing
/// altogether.
#[derive(Debug)]
pub struct RawSpecializare {
    pub judet: String,
    pub cod: String,
    pub liceu: String,
    pub mediu: String,
    pub specializare: String,
    pub limba_bilingv: String,
    pub nr_locuri_total: String,
    pub nr_locuri_ocupate: String,
    pub profil: String,
    pub filiera: String,
    pub ultima_medie: Option<String>,
    pub ultima_medie_anterior: String,
}

/// Mathematical image of a raw offer record.
pub ghost struct RawSpecializareV {
    pub judet: Seq<char>,
    pub cod: Seq<char>,
    pub liceu: Seq<char>,
    pub mediu: Seq<char>,
    pub specializare: Seq<char>,
    pub limba_bilingv: Seq<char>,
    pub nr_locuri_total: Seq<char>,
    pub nr_locuri_ocupate: Seq<char>,
    pub profil: Seq<char>,
    pub filiera: Seq<char>,
    pub ultima_medie: Option<Seq<char>>,
    pub ultima_medie_anterior: Seq<char>,
}

impl View for RawSpecializare {
    type V = RawSpecializareV;

    open spec fn view(&self) -> RawSpecializareV {
        RawSpecializareV {
            judet: self.judet@,
            cod: self.cod@,
            liceu: self.liceu@,
            mediu: self.mediu@,
            specializare: self.specializare@,
            limba_bilingv: self.limba_bilingv@,
            nr_locuri_total: self.nr_locuri_total@,
            nr_locuri_ocupate: self.nr_locuri_ocupate@,
            profil: self.profil@,
            filiera: self.filiera@,
            ultima_medie: match self.ultima_medie {
                Some(s) => Some(s@),
                None => None,
            },
            ultima_medie_anterior: self.ultima_medie_anterior@,
        }
    }
}

/// A normalized specialization offer. Grades are in hundredths, with
/// `GRADE_ABSENT` marking an absent or unparsable average.
#[derive(Debug)]
pub struct Specializare {
    pub id: i32,
    pub name: String,
    pub judet: String,
    pub liceu: String,
    pub mediu: String,
    pub specializare: String,
    pub bilingv: bool,
    pub locuri: i32,
    pub ocupate: i32,
    pub profil: String,
    pub filiera: String,
    pub ultima_medie: i32,
    pub ultima_medie_anterior: i32,
}

/// Mathematical image of a normalized offer.
pub ghost struct SpecializareV {
    pub id: int,
    pub name: Seq<char>,
    pub judet: Seq<char>,
    pub liceu: Seq<char>,
    pub mediu: Seq<char>,
    pub specializare: Seq<char>,
    pub bilingv: bool,
    pub locuri: int,
    pub ocupate: int,
    pub profil: Seq<char>,
    pub filiera: Seq<char>,
    pub ultima_medie: int,
    pub ultima_medie_anterior: int,
}

impl View for Specializare {
    type V = SpecializareV;

    open spec fn view(&self) -> SpecializareV {
        SpecializareV {
            id: self.id as int,
            name: self.name@,
            judet: self.judet@,
            liceu: self.liceu@,
            mediu: self.mediu@,
            specializare: self.specializare@,
            bilingv: self.bilingv,
            locuri: self.locuri as int,
            ocupate: self.ocupate as int,
            profil: self.profil@,
            filiera: self.filiera@,
            ultima_medie: self.ultima_medie as int,
            ultima_medie_anterior: self.ultima_medie_anterior as int,
        }
    }
}

/// A grade literal's value in hundredths, the absence marker when it does
/// not parse.
pub open spec fn grade_or_absent(s: Seq<char>) -> int {
    match spec_parse_grade(s) {
        Some(v) => v,
        None => GRADE_ABSENT as int,
    }
}

/// As `grade_or_absent`, for a field the feed may omit.
pub open spec fn grade_or_absent_opt(s: Option<Seq<char>>) -> int {
    match s {
        Some(t) => grade_or_absent(t),
        None => GRADE_ABSENT as int,
    }
}

/// The display name of an offer: its external code, a colon, its label,
/// and — when the bilingual-language field is not the `-` marker — the
/// language in a trailing parenthesis.
pub open spec fn offer_display_name(
    cod: Seq<char>,
    label: Seq<char>,
    limba: Seq<char>,
) -> Seq<char> {
    let base = cod + ": "@ + label;
    if limba != "-"@ {
        base + " (Bilingv "@ + limba + ")"@
    } else {
        base
    }
}

/// Normalization of one raw offer. `None` when a mandatory numeric field
/// fails to parse: the external code (which must be a positive integer),
/// the total seats or the occupied seats.
pub open spec fn spec_normalize_offer(r: RawSpecializareV) -> Option<SpecializareV> {
    let id = spec_parse_i32(r.cod);
    let locuri = spec_parse_i32(r.nr_locuri_total);
    let ocupate = spec_parse_i32(r.nr_locuri_ocupate);
    if id is Some && id->Some_0 > 0 && locuri is Some && ocupate is Some {
        Some(
            SpecializareV {
                id: id->Some_0 as int,
                name: offer_display_name(r.cod, r.specializare, r.limba_bilingv),
                judet: r.judet,
                liceu: r.liceu,
                mediu: r.mediu,
                specializare: r.specializare,
                bilingv: r.limba_bilingv != "-"@,
                locuri: locuri->Some_0 as int,
                ocupate: ocupate->Some_0 as int,
                profil: r.profil,
                filiera: r.filiera,
                ultima_medie: grade_or_absent_opt(r.ultima_medie),
                ultima_medie_anterior: grade_or_absent(r.ultima_medie_anterior),
            },
        )
    } else {
        None
    }
}

/// Parses a grade field, falling back to the absence marker.
pub fn grade_or_absent_exec(s: &str) -> (r: i32)
    ensures
        r as int == grade_or_absent(s@),
{
    match parse_grade(s) {
        Some(v) => v,
        None => GRADE_ABSENT,
    }
}

impl Specializare {
    /// Normalizes a raw offer record, exactly as `spec_normalize_offer`
    /// describes; a record whose mandatory numeric fields do not parse is
    /// rejected as a malformed payload.
    pub fn from_raw(st: &RawSpecializare) -> (r: Result<Specializare, IngestError>)
        ensures
            match r {
                Ok(sp) => spec_normalize_offer(st@) == Some(sp@),
                Err(e) => spec_normalize_offer(st@) is None && e
                    == IngestError::MalformedPayload,
            },
    {
        let id = match parse_i32(st.cod.as_str()) {
            Some(v) => v,
            None => {
                return Err(IngestError::MalformedPayload);
            },
        };
        if id <= 0 {
            return Err(IngestError::MalformedPayload);
        }
        let locuri = match parse_i32(st.nr_locuri_total.as_str()) {
            Some(v) => v,
            None => {
                return Err(IngestError::MalformedPayload);
            },
        };
        let ocupate = match parse_i32(st.nr_locuri_ocupate.as_str()) {
            Some(v) => v,
            None => {
                return Err(IngestError::MalformedPayload);
            },
        };
        let bilingv = !(st.limba_bilingv == "-".to_owned());
        let mut name = st.cod.clone();
        name.append(": ");
        name.append(st.specializare.as_str());
        if bilingv {
            name.append(" (Bilingv ");
            name.append(st.limba_bilingv.as_str());
            name.append(")");
        }
        let ultima_medie = match &st.ultima_medie {
            Some(um) => grade_or_absent_exec(um.as_str()),
            None => GRADE_ABSENT,
        };
        let ultima_medie_anterior = grade_or_absent_exec(st.ultima_medie_anterior.as_str());
        Ok(
            Specializare {
                id,
                name,
                judet: st.judet.clone(),
                liceu: st.liceu.clone(),
                mediu: st.mediu.clone(),
                specializare: st.specializare.clone(),
                bilingv,
                locuri,
                ocupate,
                profil: st.profil.clone(),
                filiera: st.filiera.clone(),
                ultima_medie,
                ultima_medie_anterior,
            },
        )
    }

    /// The synthetic per-region "Unassigned" offer: its id is the negation
    /// of the region's id, its seat counts are `-1`, its averages absent.
    pub fn nerepartizat(county: &County) -> (r: Specializare)
        requires
            county.well_formed(),
        ensures
            r@ == spec_nerepartizat(county@),
    {
        let nerep = "Nerepartizat ".to_owned().concat(county.code.as_str());
        Specializare {
            id: -county.id,
            name: nerep.clone(),
            judet: county.code.clone(),
            liceu: "-".to_owned(),
            mediu: "-".to_owned(),
            specializare: nerep.clone(),
            bilingv: false,
            locuri: -1,
            ocupate: -1,
            profil: nerep,
            filiera: "-".to_owned(),
            ultima_medie: GRADE_ABSENT,
            ultima_medie_anterior: GRADE_ABSENT,
        }
    }

    /// A field-for-field copy.
    pub fn duplicate(&self) -> (r: Specializare)
        ensures
            r@ == self@,
    {
        Specializare {
            id: self.id,
            name: self.name.clone(),
            judet: self.judet.clone(),
            liceu: self.liceu.clone(),
            mediu: self.mediu.clone(),
            specializare: self.specializare.clone(),
            bilingv: self.bilingv,
            locuri: self.locuri,
            ocupate: self.ocupate,
            profil: self.profil.clone(),
            filiera: self.filiera.clone(),
            ultima_medie: self.ultima_medie,
            ultima_medie_anterior: self.ultima_medie_anterior,
        }
    }
}

/// The synthetic unassigned offer of a region.
pub open spec fn spec_nerepartizat(c: CountyV) -> SpecializareV {
    let nerep = "Nerepartizat "@ + c.code;
    SpecializareV {
        id: -c.id,
        name: nerep,
        judet: c.code,
        liceu: "-"@,
        mediu: "-"@,
        specializare: nerep,
        bilingv: false,
        locuri: -1,
        ocupate: -1,
        profil: nerep,
        filiera: "-"@,
        ultima_medie: GRADE_ABSENT as int,
        ultima_medie_anterior: GRADE_ABSENT as int,
    }
}

} // verus!
