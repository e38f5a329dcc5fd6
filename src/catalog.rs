//! The station catalog: its table rows and the upserts that keep the
//! stored stations in step with it, keyed by station code.
use crate::decimal::normalize_separator;
use crate::table::{cells_view, rows_view, select_cell_texts, selected_cell_texts};
use vstd::prelude::*;

verus! {

/// Cells read from a catalog row: city, region, situation, latitude,
/// longitude, altitude, installation date, code.
pub const CATALOG_CELLS: usize = 8;

/// The situation of a station in operation.
pub const OPERATING: &'static str = "Operante";

pub const CATALOG_ROW_SELECTOR: &'static str = "tr";

pub const CATALOG_CELL_SELECTOR: &'static str = "td";

pub const POINT_OPEN: &'static str = "POINT (";

pub const POINT_SEPARATOR: &'static str = " ";

pub const POINT_CLOSE: &'static str = ")";

/// One station of the catalog, as its row reads.
#[derive(Clone, Debug)]
pub struct CatalogStation {
    pub city: String,
    pub region: String,
    pub situation: String,
    pub latitude: String,
    pub longitude: String,
    pub altitude: String,
    pub installed_on: String,
    pub code: String,
}

/// Why the catalog could not be read.
#[derive(Clone, Copy, Debug, PartialEq, Eq, Structural)]
pub enum CatalogError {
    /// A selector was rejected by the HTML engine.
    InvalidSelector,
    /// A row has cells, but fewer than a station needs.
    ShortRow,
}

/// A stored station: its id and its code, if it has one.
#[derive(Clone, Debug)]
pub struct KnownStation {
    pub id: i64,
    pub code: Option<String>,
}

/// A write that brings the stored stations in line with the catalog.
#[derive(Clone, Debug)]
pub enum CatalogAction {
    /// Refresh the stored station `id`.
    Update { id: i64, city: String, active: bool, point: String },
    /// Store a station that was not known.
    Insert { city: String, region: String, point: String, active: bool, code: String },
}

pub open spec fn station_view(s: CatalogStation) -> Seq<Seq<char>> {
    seq![s.city@, s.region@, s.situation@, s.latitude@, s.longitude@, s.altitude@, s.installed_on@, s.code@]
}

/// The stations of catalog rows: rows without cells are passed over, and
/// a station takes the first cells of its row. `None` when a row has too
/// few cells.
pub open spec fn catalog_stations(rows: Seq<Seq<Seq<char>>>) -> Option<Seq<Seq<Seq<char>>>>
    decreases rows.len(),
{
    if rows.len() == 0 {
        Some(Seq::empty())
    } else {
        match catalog_stations(rows.drop_last()) {
            None => None,
            Some(prev) => {
                let row = rows.last();
                if row.len() == 0 {
                    Some(prev)
                } else if row.len() < CATALOG_CELLS {
                    None
                } else {
                    Some(prev.push(row.take(CATALOG_CELLS as int)))
                }
            },
        }
    }
}

proof fn lemma_catalog_none_persists(rows: Seq<Seq<Seq<char>>>, n: int)
    requires
        0 <= n <= rows.len(),
        catalog_stations(rows.take(n)) is None,
    ensures
        catalog_stations(rows) is None,
    decreases rows.len() - n,
{
    if n < rows.len() {
        assert(rows.take(n + 1).drop_last() =~= rows.take(n));
        lemma_catalog_none_persists(rows, n + 1);
    } else {
        assert(rows.take(n) =~= rows);
    }
}

/// Reads catalog rows, each given as its cell texts; a row with some but too
/// few cells aborts the read.
pub fn catalog_from_rows(rows: &Vec<Vec<String>>) -> (r: Result<Vec<CatalogStation>, CatalogError>)
    ensures
        match r {
            Ok(st) => catalog_stations(rows_view(rows@)) == Some(st@.map_values(|s: CatalogStation| station_view(s))),
            Err(e) => catalog_stations(rows_view(rows@)) is None && e == CatalogError::ShortRow,
        },
{
    let ghost all = rows_view(rows@);
    let mut out: Vec<CatalogStation> = Vec::new();
    let mut i: usize = 0;
    while i < rows.len()
        invariant
            i <= rows.len(),
            all == rows_view(rows@),
            catalog_stations(all.take(i as int)) == Some(out@.map_values(|s: CatalogStation| station_view(s))),
        decreases rows.len() - i,
    {
        let row = &rows[i];
        proof {
            assert(all.take(i + 1).drop_last() =~= all.take(i as int));
            assert(all.take(i + 1).last() == cells_view(row@));
        }
        if row.len() > 0 {
            if row.len() < CATALOG_CELLS {
                proof {
                    lemma_catalog_none_persists(all, i as int + 1);
                }
                return Err(CatalogError::ShortRow);
            }
            let s = CatalogStation {
                city: row[0].clone(),
                region: row[1].clone(),
                situation: row[2].clone(),
                latitude: row[3].clone(),
                longitude: row[4].clone(),
                altitude: row[5].clone(),
                installed_on: row[6].clone(),
                code: row[7].clone(),
            };
            let ghost before = out@;
            out.push(s);
            proof {
                assert(station_view(s) =~= cells_view(row@).take(CATALOG_CELLS as int));
                assert(out@.map_values(|s: CatalogStation| station_view(s)) =~= before.map_values(
                    |s: CatalogStation| station_view(s),
                ).push(station_view(s)));
            }
        }
        i = i + 1;
    }
    proof {
        assert(all.take(i as int) =~= all);
    }
    Ok(out)
}

/// Reads the stations of a rendered catalog page. A row that has cells but
/// fewer than a station needs makes the whole read fail with `ShortRow`, so
/// that the sync is abandoned rather than run on a partial catalog.
pub fn parse_catalog(html: &str) -> (r: Result<Vec<CatalogStation>, CatalogError>)
    ensures
        match selected_cell_texts(html@, CATALOG_ROW_SELECTOR@, CATALOG_CELL_SELECTOR@) {
            None => r == Err::<Vec<CatalogStation>, CatalogError>(CatalogError::InvalidSelector),
            Some(rows) => match r {
                Ok(st) => catalog_stations(rows) == Some(st@.map_values(|s: CatalogStation| station_view(s))),
                Err(e) => catalog_stations(rows) is None && e == CatalogError::ShortRow,
            },
        },
{
    match select_cell_texts(html, CATALOG_ROW_SELECTOR, CATALOG_CELL_SELECTOR) {
        None => Err(CatalogError::InvalidSelector),
        Some(rows) => catalog_from_rows(&rows),
    }
}

/// `s` with each decimal comma written as a point.
pub fn normalize_separator_text(s: &str) -> (r: String)
    ensures
        r@ == normalize_separator(s@),
{
    let n = s.unicode_len();
    let mut r = String::new();
    let mut i: usize = 0;
    while i < n
        invariant
            i <= n,
            n == s@.len(),
            r@ == normalize_separator(s@).take(i as int),
        decreases n - i,
    {
        let c = s.get_char(i);
        if c == ',' {
            r.append(".");
            proof {
                reveal_strlit(".");
            }
        } else {
            r.append(s.substring_char(i, i + 1));
        }
        proof {
            assert(normalize_separator(s@).take(i + 1) =~= normalize_separator(s@).take(i as int).push(
                normalize_separator(s@)[i as int],
            ));
        }
        i = i + 1;
    }
    proof {
        assert(normalize_separator(s@).take(n as int) =~= normalize_separator(s@));
    }
    r
}

pub open spec fn point_text(latitude: Seq<char>, longitude: Seq<char>) -> Seq<char> {
    POINT_OPEN@ + normalize_separator(latitude) + POINT_SEPARATOR@ + normalize_separator(longitude)
        + POINT_CLOSE@
}

/// The location of a station as well-known text, with decimal points.
pub fn location_point(latitude: &str, longitude: &str) -> (p: String)
    ensures
        p@ == point_text(latitude@, longitude@),
{
    let mut p = String::from_str(POINT_OPEN);
    let lat = normalize_separator_text(latitude);
    let lon = normalize_separator_text(longitude);
    p.append(lat.as_str());
    p.append(POINT_SEPARATOR);
    p.append(lon.as_str());
    p.append(POINT_CLOSE);
    p
}

/// The code a stored station is matched by; none reads as empty.
pub open spec fn known_key(k: KnownStation) -> Seq<char> {
    match k.code {
        Some(c) => c@,
        None => Seq::empty(),
    }
}

/// Id of the first stored station whose code is `code`.
pub open spec fn first_known(known: Seq<KnownStation>, code: Seq<char>) -> Option<i64>
    decreases known.len(),
{
    if known.len() == 0 {
        None
    } else if known_key(known[0]) == code {
        Some(known[0].id)
    } else {
        first_known(known.drop_first(), code)
    }
}

pub open spec fn is_active(situation: Seq<char>) -> bool {
    situation == OPERATING@
}

/// `a` is the write for catalog station `s`, given the stored stations.
pub open spec fn action_for(a: CatalogAction, s: CatalogStation, known: Seq<KnownStation>) -> bool {
    match first_known(known, s.code@) {
        Some(id) => match a {
            CatalogAction::Update { id: aid, city, active, point } => aid == id && city@ == s.city@
                && active == is_active(s.situation@) && point@ == point_text(s.latitude@, s.longitude@),
            _ => false,
        },
        None => match a {
            CatalogAction::Insert { city, region, point, active, code } => city@ == s.city@ && region@
                == s.region@ && point@ == point_text(s.latitude@, s.longitude@) && active == is_active(
                s.situation@,
            ) && code@ == s.code@,
            _ => false,
        },
    }
}

fn find_known(known: &Vec<KnownStation>, code: &String) -> (r: Option<i64>)
    ensures
        r == first_known(known@, code@),
{
    let mut j: usize = 0;
    proof {
        assert(known@.skip(0) =~= known@);
    }
    while j < known.len()
        invariant
            j <= known.len(),
            first_known(known@, code@) == first_known(known@.skip(j as int), code@),
        decreases known.len() - j,
    {
        let k = &known[j];
        proof {
            assert(known@.skip(j as int)[0] == known@[j as int]);
            assert(known@.skip(j as int).drop_first() =~= known@.skip(j + 1));
        }
        let matches = match &k.code {
            Some(c) => c.eq(code),
            None => code.as_str().is_empty(),
        };
        proof {
            if k.code is None {
                assert(matches == (Seq::<char>::empty() =~= code@));
            }
            assert(matches == (known_key(*k) == code@));
        }
        if matches {
            return Some(k.id);
        }
        j = j + 1;
    }
    proof {
        assert(known@.skip(j as int).len() == 0);
    }
    None
}

/// The writes that bring the stored stations in line with the catalog,
/// one per catalog station, in catalog order.
pub fn plan_catalog_sync(stations: &Vec<CatalogStation>, known: &Vec<KnownStation>) -> (out: Vec<
    CatalogAction,
>)
    ensures
        out.len() == stations.len(),
        forall|i: int| 0 <= i < out.len() ==> action_for(#[trigger] out@[i], stations@[i], known@),
{
    let mut out: Vec<CatalogAction> = Vec::new();
    let mut i: usize = 0;
    while i < stations.len()
        invariant
            i <= stations.len(),
            out.len() == i,
            forall|t: int| 0 <= t < i ==> action_for(#[trigger] out@[t], stations@[t], known@),
        decreases stations.len() - i,
    {
        let s = &stations[i];
        let point = location_point(s.latitude.as_str(), s.longitude.as_str());
        let operating = String::from_str(OPERATING);
        let active = s.situation == operating;
        proof {
            assert(active == is_active(s.situation@));
        }
        let action = match find_known(known, &s.code) {
            Some(id) => CatalogAction::Update { id, city: s.city.clone(), active, point },
            None => CatalogAction::Insert {
                city: s.city.clone(),
                region: s.region.clone(),
                point,
                active,
                code: s.code.clone(),
            },
        };
        out.push(action);
        i = i + 1;
    }
    out
}

} // verus!
