//! The wire-protocol response shapes. Serializing them as JSON is the
//! caller's business; the fields here are exactly what goes on the wire.
use vstd::prelude::*;

verus! {

use crate::schema::opt_view;

/// The handshake response for the protocol root.
pub struct RootResponse {
    /// Always empty; the EDA tool expects the key.
    pub categories: String,
    /// Always empty; the EDA tool expects the key.
    pub parts: String,
}

/// One category: a table, addressed by its 1-based index as a decimal
/// string.
pub struct Category {
    /// The 1-based table index, as a decimal string.
    pub id: String,
    /// The table's display name.
    pub name: String,
    /// Always empty.
    pub description: String,
}

/// One part summary in a category listing.
pub struct PartSummary {
    /// The row's `id` value.
    pub id: String,
    /// The row's `mpn` value if present and non-empty, else its `value`.
    pub name: String,
    /// The row's `description` value, or empty.
    pub description: String,
}

/// One field value in a part detail response.
pub struct FieldValue {
    /// The cell's value.
    pub value: String,
    /// The string `False` when the field is hidden; absent when shown.
    pub visible: Option<String>,
}

/// The full part detail response.
pub struct PartDetail {
    /// The row's `id` value.
    pub id: String,
    /// As in the summary.
    pub name: String,
    /// The row's `symbol` value.
    pub symbol_id_str: String,
    /// `True` or `False`.
    pub exclude_from_bom: String,
    /// `True` or `False`.
    pub exclude_from_board: String,
    /// `True` or `False`.
    pub exclude_from_sim: String,
    /// The remaining columns, keyed by display name, in column order.
    pub fields: Vec<(String, FieldValue)>,
}

/// The views of a detail's field entries.
pub open spec fn fields_view(fs: Seq<(String, FieldValue)>) -> Seq<(Seq<char>, Seq<char>, Option<
    Seq<char>,
>)> {
    Seq::new(fs.len(), |i: int| (fs[i].0@, fs[i].1.value@, opt_view(fs[i].1.visible)))
}

} // verus!
