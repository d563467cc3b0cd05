use vstd::prelude::*;
use vstd::string::*;
use crate::measure::{literal_nanos, parse_quantity, Quantity};
use crate::text::{
    check_empty, find_numeric, find_year, is_blank, numeric_match, parse_u32, trim_of, u32_of,
    year_match,
};

verus! {

/// One phone of the catalogue, each field absent where it is unknown.
#[derive(Clone, Debug)]
pub struct Cell {
    pub oem: Option<String>,
    pub model: Option<String>,
    pub launch_announced: Option<u32>,
    pub launch_status: Option<String>,
    pub body_dimensions: Option<String>,
    pub body_weight: Option<Quantity>,
    pub body_sim: Option<String>,
    pub display_type: Option<String>,
    pub display_size: Option<Quantity>,
    pub display_resolution: Option<String>,
    pub features_sensors: Option<String>,
    pub platform_os: Option<String>,
}

/// An edit named a position that the collection does not have.
#[derive(Clone, Copy, PartialEq, Eq, Structural, Debug)]
pub enum EditError {
    OutOfBounds,
}

pub open spec fn text_opt(o: Option<String>) -> Option<Seq<char>> {
    match o {
        Some(s) => Some(s@),
        None => None,
    }
}

pub open spec fn nanos_opt(o: Option<Quantity>) -> Option<nat> {
    match o {
        Some(q) => Some(q.nanos as nat),
        None => None,
    }
}

/// Column `i` of a row; a missing column reads as the empty text.
pub open spec fn column(row: Seq<String>, i: int) -> Seq<char> {
    if 0 <= i < row.len() {
        row[i]@
    } else {
        Seq::empty()
    }
}

pub open spec fn blank_normalized(s: Seq<char>) -> Option<Seq<char>> {
    if is_blank(s) {
        None
    } else {
        Some(s)
    }
}

/// The year that an announcement text names: its first standalone run of four
/// digits, read as an integer.
pub open spec fn announced_year_of(s: Seq<char>) -> Option<u32> {
    match year_match(s) {
        Some(t) => u32_of(t),
        None => None,
    }
}

/// A status text: the year it names, else the text as it is.
pub open spec fn status_of(s: Seq<char>) -> Seq<char> {
    match year_match(s) {
        Some(t) => t,
        None => s,
    }
}

/// The first numeric literal of a text, in billionths.
pub open spec fn quantity_of(s: Seq<char>) -> Option<nat> {
    match numeric_match(s) {
        Some(t) => literal_nanos(t),
        None => None,
    }
}

/// `c` is the record that the normalisation rules make of `row`.
pub open spec fn is_cell_of(row: Seq<String>, c: Cell) -> bool {
    &&& text_opt(c.oem) == Some(column(row, 0))
    &&& text_opt(c.model) == Some(column(row, 1))
    &&& c.launch_announced == announced_year_of(column(row, 2))
    &&& text_opt(c.launch_status) == Some(status_of(column(row, 3)))
    &&& text_opt(c.body_dimensions) == blank_normalized(column(row, 4))
    &&& nanos_opt(c.body_weight) == quantity_of(column(row, 5))
    &&& text_opt(c.body_sim) == blank_normalized(column(row, 6))
    &&& text_opt(c.display_type) == blank_normalized(column(row, 7))
    &&& nanos_opt(c.display_size) == quantity_of(column(row, 8))
    &&& text_opt(c.display_resolution) == blank_normalized(column(row, 9))
    &&& text_opt(c.features_sensors) == blank_normalized(column(row, 10))
    &&& text_opt(c.platform_os) == blank_normalized(column(row, 11))
}

fn column_text(row: &Vec<String>, i: usize) -> (r: String)
    ensures
        r@ == column(row@, i as int),
{
    if i < row.len() {
        row[i].clone()
    } else {
        proof {
            reveal_strlit("");
        }
        String::from_str("")
    }
}

/// The year named by a first four-digit match, when it reads as an integer.
pub fn year_from_match(found: Option<String>) -> (r: Option<u32>)
    ensures
        r == match text_opt(found) {
            Some(t) => u32_of(t),
            None => None,
        },
{
    match found {
        Some(t) => parse_u32(t.as_str()),
        None => None,
    }
}

/// The status to keep: the year matched in it, else the status text itself.
pub fn status_from_match(status: String, found: Option<String>) -> (r: String)
    ensures
        r@ == match text_opt(found) {
            Some(t) => t,
            None => status@,
        },
{
    match found {
        Some(t) => t,
        None => status,
    }
}

/// The quantity that a first numeric match writes, when it reads as one.
pub fn quantity_from_match(found: Option<String>) -> (r: Option<Quantity>)
    ensures
        nanos_opt(r) == match text_opt(found) {
            Some(t) => literal_nanos(t),
            None => None,
        },
{
    match found {
        Some(t) => parse_quantity(t.as_str()),
        None => None,
    }
}

impl Cell {
    /// A record with every field absent.
    pub fn new() -> (r: Cell)
        ensures
            r.oem is None && r.model is None && r.launch_announced is None,
            r.launch_status is None && r.body_dimensions is None && r.body_weight is None,
            r.body_sim is None && r.display_type is None && r.display_size is None,
            r.display_resolution is None && r.features_sensors is None && r.platform_os is None,
    {
        Cell {
            oem: None,
            model: None,
            launch_announced: None,
            launch_status: None,
            body_dimensions: None,
            body_weight: None,
            body_sim: None,
            display_type: None,
            display_size: None,
            display_resolution: None,
            features_sensors: None,
            platform_os: None,
        }
    }

    /// Inserts a record at `index`, shifting the later ones up; `index` may
    /// be the length, to append.
    pub fn insert_cell(cells: &mut Vec<Cell>, index: usize, new_cell: Cell) -> (r: Result<
        (),
        EditError,
    >)
        ensures
            r is Ok <==> index <= old(cells)@.len(),
            r is Ok ==> final(cells)@ == old(cells)@.insert(index as int, new_cell),
            r is Err ==> final(cells)@ == old(cells)@,
    {
        if index <= cells.len() {
            cells.insert(index, new_cell);
            Ok(())
        } else {
            Err(EditError::OutOfBounds)
        }
    }

    /// Replaces the record at `index`.
    pub fn modify_cell(cells: &mut Vec<Cell>, index: usize, modified_cell: Cell) -> (r: Result<
        (),
        EditError,
    >)
        ensures
            r is Ok <==> index < old(cells)@.len(),
            r is Ok ==> final(cells)@ == old(cells)@.update(index as int, modified_cell),
            r is Err ==> final(cells)@ == old(cells)@,
    {
        if index < cells.len() {
            cells.set(index, modified_cell);
            Ok(())
        } else {
            Err(EditError::OutOfBounds)
        }
    }

    /// Removes the record at `index`, shifting the later ones down.
    pub fn delete_cell(cells: &mut Vec<Cell>, index: usize) -> (r: Result<(), EditError>)
        ensures
            r is Ok <==> index < old(cells)@.len(),
            r is Ok ==> final(cells)@ == old(cells)@.remove(index as int),
            r is Err ==> final(cells)@ == old(cells)@,
    {
        if index < cells.len() {
            cells.remove(index);
            Ok(())
        } else {
            Err(EditError::OutOfBounds)
        }
    }

    /// Normalises one row of raw text cells into a record.
    pub fn from_row(row: &Vec<String>) -> (r: Cell)
        ensures
            is_cell_of(row@, r),
    {
        let announced = column_text(row, 2);
        let status = column_text(row, 3);
        let weight = column_text(row, 5);
        let size = column_text(row, 8);
        let year_found = find_year(status.as_str());
        Cell {
            oem: Some(column_text(row, 0)),
            model: Some(column_text(row, 1)),
            launch_announced: year_from_match(find_year(announced.as_str())),
            launch_status: Some(status_from_match(status, year_found)),
            body_dimensions: check_empty(column_text(row, 4).as_str()),
            body_weight: quantity_from_match(find_numeric(weight.as_str())),
            body_sim: check_empty(column_text(row, 6).as_str()),
            display_type: check_empty(column_text(row, 7).as_str()),
            display_size: quantity_from_match(find_numeric(size.as_str())),
            display_resolution: check_empty(column_text(row, 9).as_str()),
            features_sensors: check_empty(column_text(row, 10).as_str()),
            platform_os: check_empty(column_text(row, 11).as_str()),
        }
    }

    /// Normalises every row, in order.
    pub fn from_rows(rows: &Vec<Vec<String>>) -> (r: Vec<Cell>)
        ensures
            r@.len() == rows@.len(),
            forall|i: int| 0 <= i < rows@.len() ==> is_cell_of(#[trigger] rows@[i]@, r@[i]),
    {
        let mut cells: Vec<Cell> = Vec::new();
        let mut i: usize = 0;
        while i < rows.len()
            invariant
                i <= rows@.len(),
                cells@.len() == i,
                forall|k: int| 0 <= k < i ==> is_cell_of(#[trigger] rows@[k]@, cells@[k]),
            decreases rows@.len() - i,
        {
            let c = Cell::from_row(&rows[i]);
            cells.push(c);
            i = i + 1;
        }
        cells
    }
}

/// Two records hold the same values, field by field.
pub open spec fn same_cell(a: Cell, b: Cell) -> bool {
    &&& text_opt(a.oem) == text_opt(b.oem)
    &&& text_opt(a.model) == text_opt(b.model)
    &&& a.launch_announced == b.launch_announced
    &&& text_opt(a.launch_status) == text_opt(b.launch_status)
    &&& text_opt(a.body_dimensions) == text_opt(b.body_dimensions)
    &&& a.body_weight == b.body_weight
    &&& text_opt(a.body_sim) == text_opt(b.body_sim)
    &&& text_opt(a.display_type) == text_opt(b.display_type)
    &&& a.display_size == b.display_size
    &&& text_opt(a.display_resolution) == text_opt(b.display_resolution)
    &&& text_opt(a.features_sensors) == text_opt(b.features_sensors)
    &&& text_opt(a.platform_os) == text_opt(b.platform_os)
}

pub open spec fn absent_iff_blank(field: Option<String>, source: Seq<char>) -> bool {
    field is None <==> (trim_of(source) == Seq::<char>::empty() || trim_of(source) == seq!['-'])
}

/// Each field normalised for blankness is absent exactly when its source,
/// trimmed, is empty or the lone dash; otherwise it holds the source untrimmed.
pub proof fn lemma_blank_fields(row: Seq<String>, c: Cell)
    requires
        is_cell_of(row, c),
    ensures
        absent_iff_blank(c.body_dimensions, column(row, 4)),
        absent_iff_blank(c.body_sim, column(row, 6)),
        absent_iff_blank(c.display_type, column(row, 7)),
        absent_iff_blank(c.display_resolution, column(row, 9)),
        absent_iff_blank(c.features_sensors, column(row, 10)),
        absent_iff_blank(c.platform_os, column(row, 11)),
        c.body_dimensions is Some ==> c.body_dimensions->0@ == column(row, 4),
        c.platform_os is Some ==> c.platform_os->0@ == column(row, 11),
{
}

/// A numeric field is absent when its source holds no numeric literal, and
/// otherwise holds exactly the value of the first one, when that one reads.
pub proof fn lemma_numeric_fields(row: Seq<String>, c: Cell)
    requires
        is_cell_of(row, c),
    ensures
        numeric_match(column(row, 5)) is None ==> c.body_weight is None,
        numeric_match(column(row, 8)) is None ==> c.display_size is None,
        numeric_match(column(row, 5)) is Some ==> nanos_opt(c.body_weight) == literal_nanos(
            numeric_match(column(row, 5))->0,
        ),
        numeric_match(column(row, 8)) is Some ==> nanos_opt(c.display_size) == literal_nanos(
            numeric_match(column(row, 8))->0,
        ),
{
}

/// Normalising the same rows twice gives the same records.
pub proof fn lemma_ingest_deterministic(rows: Seq<Seq<String>>, a: Seq<Cell>, b: Seq<Cell>)
    requires
        a.len() == rows.len(),
        b.len() == rows.len(),
        forall|i: int| 0 <= i < rows.len() ==> is_cell_of(#[trigger] rows[i], a[i]),
        forall|i: int| 0 <= i < rows.len() ==> is_cell_of(#[trigger] rows[i], b[i]),
    ensures
        a.len() == b.len(),
        forall|i: int| 0 <= i < a.len() ==> same_cell(#[trigger] a[i], b[i]),
{
    assert forall|i: int| 0 <= i < a.len() implies same_cell(#[trigger] a[i], b[i]) by {
        assert(is_cell_of(rows[i], a[i]));
        assert(is_cell_of(rows[i], b[i]));
        if a[i].body_weight is Some {
            assert(a[i].body_weight->0.nanos == b[i].body_weight->0.nanos);
        }
        if a[i].display_size is Some {
            assert(a[i].display_size->0.nanos == b[i].display_size->0.nanos);
        }
    }
}

} // verus!
