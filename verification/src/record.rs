//! Rows: the raw record as it comes out of the CSV reader, the normalised
//! pixel event that is stored, and the step from one to the other.

use vstd::prelude::*;
use crate::color::{color_of, read_color};
use crate::coords::{coords_of, read_coords};
use crate::date::{date_components, date_components_to_timestamp, read_date, timestamp_of};
use crate::error::IngestError;
use crate::registry::{
    learn, lemma_learn, lemma_surrogate_range, surrogate, IdentifierRegistry,
};

verus! {

/// One row of the input as text, field by field.
#[derive(Clone, Debug)]
pub struct RawRecord {
    pub fields: Vec<String>,
}

impl View for RawRecord {
    type V = Seq<Seq<char>>;

    open spec fn view(&self) -> Seq<Seq<char>> {
        Seq::new(self.fields@.len(), |i: int| self.fields@[i]@)
    }
}

/// One pixel placement in the form in which it is stored.
#[derive(Clone, Copy, Debug, PartialEq, Eq, Structural)]
pub struct RedditPixel {
    /// Epoch milliseconds.
    pub timestamp: i64,
    /// The surrogate key of the participant.
    pub id: i64,
    pub x: i32,
    pub y: i32,
    /// The second corner of a rectangle or the radius of a circle;
    /// `ABSENT` for a point.
    pub x1: i32,
    /// The second corner of a rectangle; `ABSENT` otherwise.
    pub y1: i32,
    /// The packed color, as the token gave it.
    pub color: u32,
}

/// The timestamp that the first field denotes.
pub open spec fn field_timestamp(fields: Seq<Seq<char>>) -> Result<i64, IngestError> {
    if fields.len() < 1 {
        Err(IngestError::MissingField)
    } else {
        match date_components(fields[0]) {
            Some(c) => timestamp_of(c),
            None => Err(IngestError::Format),
        }
    }
}

/// The identifier in the second field. An empty one counts as missing.
pub open spec fn field_identifier(fields: Seq<Seq<char>>) -> Result<Seq<char>, IngestError> {
    if fields.len() < 2 || fields[1].len() == 0 {
        Err(IngestError::MissingField)
    } else {
        Ok(fields[1])
    }
}

/// The coordinates that the third field denotes.
pub open spec fn field_coords(fields: Seq<Seq<char>>) -> Result<
    (i32, i32, i32, i32),
    IngestError,
> {
    if fields.len() < 3 {
        Err(IngestError::MissingField)
    } else {
        coords_of(fields[2])
    }
}

/// The color that the fourth field denotes.
pub open spec fn field_color(fields: Seq<Seq<char>>) -> Result<u32, IngestError> {
    if fields.len() < 4 {
        Err(IngestError::MissingField)
    } else {
        color_of(fields[3])
    }
}

/// The failure of the first field, in the order of the fields, that has
/// one; `None` where every field is good.
pub open spec fn first_failure(fields: Seq<Seq<char>>) -> Option<IngestError> {
    if field_timestamp(fields) is Err {
        Some(field_timestamp(fields)->Err_0)
    } else if field_identifier(fields) is Err {
        Some(field_identifier(fields)->Err_0)
    } else if field_coords(fields) is Err {
        Some(field_coords(fields)->Err_0)
    } else if field_color(fields) is Err {
        Some(field_color(fields)->Err_0)
    } else {
        None
    }
}

/// The pixel event that the row `fields` gives when the identifiers
/// `known` have been seen before it, or the failure of its first bad
/// field.
pub open spec fn normalized(fields: Seq<Seq<char>>, known: Seq<Seq<char>>) -> Result<
    RedditPixel,
    IngestError,
> {
    match first_failure(fields) {
        Some(e) => Err(e),
        None => {
            let coords = field_coords(fields)->Ok_0;
            Ok(
                RedditPixel {
                    timestamp: field_timestamp(fields)->Ok_0,
                    id: surrogate(learn(known, fields[1]), fields[1]) as i64,
                    x: coords.0,
                    y: coords.1,
                    x1: coords.2,
                    y1: coords.3,
                    color: field_color(fields)->Ok_0,
                },
            )
        },
    }
}

/// The identifiers known after the row `fields`: a good row makes its
/// identifier known, a bad one changes nothing.
pub open spec fn known_after(fields: Seq<Seq<char>>, known: Seq<Seq<char>>) -> Seq<Seq<char>> {
    if first_failure(fields) is None {
        learn(known, fields[1])
    } else {
        known
    }
}

/// A row whose timestamp is good and whose identifier is empty or missing
/// fails with `IngestError::MissingField`, whatever its other fields hold
/// and whichever identifiers are known.
pub proof fn lemma_empty_identifier_rejected(fields: Seq<Seq<char>>, known: Seq<Seq<char>>)
    requires
        field_timestamp(fields) is Ok,
        fields.len() < 2 || fields[1].len() == 0,
    ensures
        normalized(fields, known) == Err::<RedditPixel, IngestError>(IngestError::MissingField),
        known_after(fields, known) == known,
{
}

/// A good row whose identifier is known carries the key that the
/// identifier has, and leaves the known identifiers as they are.
pub proof fn lemma_known_identifier_keeps_key(fields: Seq<Seq<char>>, known: Seq<Seq<char>>)
    requires
        first_failure(fields) is None,
        known.contains(fields[1]),
        known.len() <= i64::MAX,
    ensures
        known_after(fields, known) == known,
        normalized(fields, known) is Ok,
        normalized(fields, known)->Ok_0.id == surrogate(known, fields[1]),
        1 <= normalized(fields, known)->Ok_0.id <= known.len(),
        known[normalized(fields, known)->Ok_0.id - 1] == fields[1],
{
    lemma_surrogate_range(known, fields[1]);
}

/// A good row whose identifier is new carries the next key, and makes
/// the identifier the last of the known ones. The known identifiers stay
/// distinct, so that the keys 1 to their number each belong to one of
/// them.
pub proof fn lemma_new_identifier_gets_next_key(fields: Seq<Seq<char>>, known: Seq<Seq<char>>)
    requires
        first_failure(fields) is None,
        !known.contains(fields[1]),
        known.no_duplicates(),
        known.len() < i64::MAX,
    ensures
        known_after(fields, known) == known.push(fields[1]),
        known_after(fields, known).no_duplicates(),
        normalized(fields, known) is Ok,
        normalized(fields, known)->Ok_0.id == known.len() + 1,
{
    lemma_learn(known, fields[1], fields[1]);
}

/// A row that lacks one of its four fields is never good.
pub proof fn lemma_short_row_rejected(fields: Seq<Seq<char>>, known: Seq<Seq<char>>)
    requires
        fields.len() < 4,
    ensures
        normalized(fields, known) is Err,
        known_after(fields, known) == known,
{
}

/// Normalises one row: parses the timestamp, the coordinates and the
/// color, and resolves the identifier through the registry.
///
/// The fields are taken in their order and the first failure is the
/// result: `IngestError::MissingField` for a field that the row does not
/// have, and for an empty identifier; otherwise what the parser of the
/// field reports. A row that fails leaves the registry as it was.
pub fn read_record(record: &RawRecord, registry: &mut IdentifierRegistry) -> (res: Result<
    RedditPixel,
    IngestError,
>)
    requires
        old(registry).wf(),
        old(registry)@.len() < i64::MAX || (record@.len() >= 2 && old(registry)@.contains(
            record@[1],
        )),
    ensures
        final(registry).wf(),
        res == normalized(record@, old(registry)@),
        final(registry)@ == known_after(record@, old(registry)@),
{
    let count = record.fields.len();
    if count < 1 {
        return Err(IngestError::MissingField);
    }
    let components = match read_date(record.fields[0].as_str()) {
        Ok(c) => c,
        Err(e) => {
            return Err(e);
        },
    };
    let timestamp = match date_components_to_timestamp(components) {
        Ok(t) => t,
        Err(e) => {
            return Err(e);
        },
    };
    if count < 2 {
        return Err(IngestError::MissingField);
    }
    let identifier = record.fields[1].as_str();
    if identifier.is_empty() {
        return Err(IngestError::MissingField);
    }
    if count < 3 {
        return Err(IngestError::MissingField);
    }
    let coords = match read_coords(record.fields[2].as_str()) {
        Ok(c) => c,
        Err(e) => {
            return Err(e);
        },
    };
    if count < 4 {
        return Err(IngestError::MissingField);
    }
    let color = match read_color(record.fields[3].as_str()) {
        Ok(c) => c,
        Err(e) => {
            return Err(e);
        },
    };
    let id = registry.resolve(identifier);
    Ok(RedditPixel { timestamp, id, x: coords.0, y: coords.1, x1: coords.2, y1: coords.3, color })
}

} // verus!
