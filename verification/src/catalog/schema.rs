use vstd::prelude::*;

verus! {

/// The data types of the database.
#[derive(Debug, Clone, Copy, PartialEq, Eq, Structural)]
pub enum TypeId {
    Integer,
    Varchar,
    Boolean,
}

/// A column of a table.
#[derive(Debug, Clone)]
pub struct Column {
    pub name: String,
    pub type_id: TypeId,
    /// Size in bytes of the column in a row.
    pub length: u32,
    /// Where the column starts in a row; set by `Schema::new`.
    pub offset: u32,
    /// Whether the column is the table's primary key.
    pub is_primary_key: bool,
}

impl Column {
    /// A column that is not a primary key, at offset 0 until a schema places it.
    pub fn new(name: String, type_id: TypeId, length: u32) -> (r: Self)
        ensures
            r.name == name,
            r.type_id == type_id,
            r.length == length,
            r.offset == 0,
            !r.is_primary_key,
    {
        Column { name, type_id, length, offset: 0, is_primary_key: false }
    }
}

/// The layout of a row: the columns one after the other.
#[derive(Debug, Clone)]
pub struct Schema {
    pub columns: Vec<Column>,
    /// Size in bytes of a row.
    pub tuple_length: u32,
}

/// The total length of the first `n` columns.
pub open spec fn length_before(cols: Seq<Column>, n: int) -> int
    decreases n,
{
    if n <= 0 {
        0
    } else {
        length_before(cols, n - 1) + cols[n - 1].length
    }
}

proof fn lemma_length_before_mono(cols: Seq<Column>, a: int, b: int)
    requires
        0 <= a <= b <= cols.len(),
    ensures
        length_before(cols, a) <= length_before(cols, b),
    decreases b - a,
{
    if a < b {
        lemma_length_before_mono(cols, a, b - 1);
    }
}

impl Schema {
    /// Places the columns one after the other: each column's offset is the
    /// total length of the columns before it, and the row length is the total
    /// length of all columns.
    pub fn new(columns: Vec<Column>) -> (r: Self)
        requires
            length_before(columns@, columns@.len() as int) <= u32::MAX,
        ensures
            r.columns@.len() == columns@.len(),
            forall|i: int|
                0 <= i < columns@.len() ==> #[trigger] r.columns@[i] == (Column {
                    offset: length_before(columns@, i) as u32,
                    ..columns@[i]
                }),
            r.tuple_length == length_before(columns@, columns@.len() as int),
    {
        let mut columns = columns;
        let ghost cols0 = columns@;
        let mut offset: u32 = 0;
        let mut i: usize = 0;
        while i < columns.len()
            invariant
                columns@.len() == cols0.len(),
                i <= cols0.len(),
                length_before(cols0, cols0.len() as int) <= u32::MAX,
                offset == length_before(cols0, i as int),
                forall|j: int|
                    0 <= j < i ==> #[trigger] columns@[j] == (Column {
                        offset: length_before(cols0, j) as u32,
                        ..cols0[j]
                    }),
                forall|j: int| i <= j < cols0.len() ==> #[trigger] columns@[j] == cols0[j],
            decreases cols0.len() - i,
        {
            proof {
                lemma_length_before_mono(cols0, i as int + 1, cols0.len() as int);
            }
            columns[i].offset = offset;
            offset = offset + columns[i].length;
            i = i + 1;
        }
        Schema { columns, tuple_length: offset }
    }
}

/// A copy of a column.
pub(crate) fn clone_column(c: &Column) -> (r: Column)
    ensures
        r == *c,
{
    Column {
        name: c.name.clone(),
        type_id: c.type_id,
        length: c.length,
        offset: c.offset,
        is_primary_key: c.is_primary_key,
    }
}

/// Whether two schemas have the same columns and row length.
pub open spec fn same_schema(a: Schema, b: Schema) -> bool {
    a.columns@ == b.columns@ && a.tuple_length == b.tuple_length
}

/// A copy of a schema.
pub(crate) fn clone_schema(s: &Schema) -> (r: Schema)
    ensures
        same_schema(r, *s),
{
    let mut columns: Vec<Column> = Vec::new();
    let mut i: usize = 0;
    while i < s.columns.len()
        invariant
            i <= s.columns@.len(),
            columns@ == s.columns@.take(i as int),
        decreases s.columns@.len() - i,
    {
        columns.push(clone_column(&s.columns[i]));
        i = i + 1;
        proof {
            assert(columns@ =~= s.columns@.take(i as int));
        }
    }
    assert(s.columns@.take(s.columns@.len() as int) =~= s.columns@);
    Schema { columns, tuple_length: s.tuple_length }
}

} // verus!
