//! Columnar data: typed columns, schemas and blocks of rows.

use crate::error::ErrorCode;
use vstd::prelude::*;

verus! {

/// The type of the values of a column.
#[derive(Clone, Copy, Debug, PartialEq, Eq, Structural)]
pub enum DataType {
    UInt8,
    UInt16,
    UInt32,
    UInt64,
    /// Byte strings of any length; UTF-8 text is stored as its bytes.
    Binary,
}

/// The value of one cell, as specifications see it.
pub enum DataValue {
    UInt8(u8),
    UInt16(u16),
    UInt32(u32),
    UInt64(u64),
    Binary(Seq<u8>),
}

impl DataValue {
    pub open spec fn spec_type(&self) -> DataType {
        match self {
            DataValue::UInt8(_) => DataType::UInt8,
            DataValue::UInt16(_) => DataType::UInt16,
            DataValue::UInt32(_) => DataType::UInt32,
            DataValue::UInt64(_) => DataType::UInt64,
            DataValue::Binary(_) => DataType::Binary,
        }
    }

    /// The number that an integer value holds; `None` for a byte string.
    pub open spec fn spec_as_u64(&self) -> Option<u64> {
        match self {
            DataValue::UInt8(v) => Some(*v as u64),
            DataValue::UInt16(v) => Some(*v as u64),
            DataValue::UInt32(v) => Some(*v as u64),
            DataValue::UInt64(v) => Some(*v),
            DataValue::Binary(_) => None,
        }
    }
}

/// The values of one column of a block.
#[derive(Clone, Debug, PartialEq, Eq)]
pub enum Column {
    UInt8(Vec<u8>),
    UInt16(Vec<u16>),
    UInt32(Vec<u32>),
    UInt64(Vec<u64>),
    Binary(Vec<Vec<u8>>),
}

impl View for Column {
    type V = Seq<DataValue>;

    open spec fn view(&self) -> Seq<DataValue> {
        match self {
            Column::UInt8(v) => Seq::new(v@.len(), |i: int| DataValue::UInt8(v@[i])),
            Column::UInt16(v) => Seq::new(v@.len(), |i: int| DataValue::UInt16(v@[i])),
            Column::UInt32(v) => Seq::new(v@.len(), |i: int| DataValue::UInt32(v@[i])),
            Column::UInt64(v) => Seq::new(v@.len(), |i: int| DataValue::UInt64(v@[i])),
            Column::Binary(v) => Seq::new(v@.len(), |i: int| DataValue::Binary(v@[i]@)),
        }
    }
}

impl Column {
    pub open spec fn spec_type(&self) -> DataType {
        match self {
            Column::UInt8(_) => DataType::UInt8,
            Column::UInt16(_) => DataType::UInt16,
            Column::UInt32(_) => DataType::UInt32,
            Column::UInt64(_) => DataType::UInt64,
            Column::Binary(_) => DataType::Binary,
        }
    }

    /// The number of rows.
    pub fn len(&self) -> (len: usize)
        ensures
            len == self@.len(),
    {
        match self {
            Column::UInt8(v) => v.len(),
            Column::UInt16(v) => v.len(),
            Column::UInt32(v) => v.len(),
            Column::UInt64(v) => v.len(),
            Column::Binary(v) => v.len(),
        }
    }

    pub fn data_type(&self) -> (data_type: DataType)
        ensures
            data_type == self.spec_type(),
    {
        match self {
            Column::UInt8(_) => DataType::UInt8,
            Column::UInt16(_) => DataType::UInt16,
            Column::UInt32(_) => DataType::UInt32,
            Column::UInt64(_) => DataType::UInt64,
            Column::Binary(_) => DataType::Binary,
        }
    }

    /// The number in row `row` of an integer column; `None` for a column of
    /// byte strings.
    pub fn value_u64(&self, row: usize) -> (value: Option<u64>)
        requires
            row < self@.len(),
        ensures
            value == self@[row as int].spec_as_u64(),
    {
        match self {
            Column::UInt8(v) => Some(v[row] as u64),
            Column::UInt16(v) => Some(v[row] as u64),
            Column::UInt32(v) => Some(v[row] as u64),
            Column::UInt64(v) => Some(v[row]),
            Column::Binary(_) => None,
        }
    }
}

/// Every value of a column has the column's type.
pub proof fn lemma_column_value_type(column: Column, row: int)
    requires
        0 <= row < column@.len(),
    ensures
        column@[row].spec_type() == column.spec_type(),
{
}

/// The values that the columns hold in row `row`, column by column.
pub open spec fn row_values(columns: Seq<&Column>, row: int) -> Seq<DataValue> {
    Seq::new(columns.len(), |c: int| columns[c]@[row])
}

/// The types of `columns`, column by column.
pub open spec fn column_types(columns: Seq<&Column>) -> Seq<DataType> {
    Seq::new(columns.len(), |c: int| columns[c].spec_type())
}

/// Every column has `rows` rows.
pub open spec fn columns_of_rows(columns: Seq<&Column>, rows: int) -> bool {
    forall|c: int| 0 <= c < columns.len() ==> (#[trigger] columns[c])@.len() == rows
}

/// Name and type of one column.
#[derive(Clone, Debug, PartialEq, Eq)]
pub struct DataField {
    pub name: String,
    pub data_type: DataType,
}

impl DataField {
    pub fn new(name: String, data_type: DataType) -> (field: DataField)
        ensures
            field.name == name,
            field.data_type == data_type,
    {
        DataField { name, data_type }
    }
}

/// The columns of a block by name and type, in order.
#[derive(Clone, Debug, PartialEq, Eq)]
pub struct DataSchema {
    pub fields: Vec<DataField>,
}

impl DataSchema {
    /// Whether `i` is the index of the first field called `name`.
    pub open spec fn spec_is_index_of(&self, name: Seq<char>, i: int) -> bool {
        &&& 0 <= i < self.fields@.len()
        &&& self.fields@[i].name@ == name
        &&& forall|j: int| 0 <= j < i ==> (#[trigger] self.fields@[j]).name@ != name
    }

    /// Whether a field is called `name`.
    pub open spec fn spec_has(&self, name: Seq<char>) -> bool {
        exists|i: int| 0 <= i < self.fields@.len() && (#[trigger] self.fields@[i]).name@ == name
    }

    /// The index of the first field called `name`.
    pub open spec fn spec_index_of(&self, name: Seq<char>) -> int {
        choose|i: int| self.spec_is_index_of(name, i)
    }

    pub fn new(fields: Vec<DataField>) -> (schema: DataSchema)
        ensures
            schema.fields == fields,
    {
        DataSchema { fields }
    }

    /// The schema without columns.
    pub fn empty() -> (schema: DataSchema)
        ensures
            schema.fields@.len() == 0,
    {
        DataSchema { fields: Vec::new() }
    }

    /// The index of the first field called `name`, if there is one.
    pub fn index_of(&self, name: &String) -> (index: Option<usize>)
        ensures
            index.is_some() <==> self.spec_has(name@),
            index matches Some(i) ==> self.spec_is_index_of(name@, i as int) && i
                == self.spec_index_of(name@),
    {
        let mut i: usize = 0;
        while i < self.fields.len()
            invariant
                0 <= i <= self.fields@.len(),
                forall|j: int| 0 <= j < i ==> (#[trigger] self.fields@[j]).name@ != name@,
            decreases self.fields.len() - i,
        {
            if self.fields[i].name == *name {
                proof {
                    self.lemma_index_unique(name@, i as int, self.spec_index_of(name@));
                }
                return Some(i);
            }
            i += 1;
        }
        None
    }

    /// At most one index is the first with a given name.
    pub proof fn lemma_index_unique(&self, name: Seq<char>, i: int, j: int)
        requires
            self.spec_is_index_of(name, i),
        ensures
            self.spec_is_index_of(name, self.spec_index_of(name)),
            self.spec_is_index_of(name, j) ==> i == j,
            self.spec_has(name),
    {
    }
}

/// A batch of rows, held column by column.
///
/// A block has one column for each field of its schema, of the field's type,
/// and all its columns have the same number of rows.
#[derive(Debug)]
pub struct DataBlock {
    schema: DataSchema,
    columns: Vec<Column>,
    num_rows: usize,
}

impl DataBlock {
    #[verifier::type_invariant]
    pub closed spec fn spec_wf(&self) -> bool {
        block_shape(self.schema, self.columns@, self.num_rows as int)
    }

    pub closed spec fn spec_schema(&self) -> DataSchema {
        self.schema
    }

    pub closed spec fn spec_columns(&self) -> Seq<Column> {
        self.columns@
    }

    pub closed spec fn spec_num_rows(&self) -> nat {
        self.num_rows as nat
    }

    /// Whether the block has a column called `name`.
    pub open spec fn spec_has_column(&self, name: Seq<char>) -> bool {
        self.spec_schema().spec_has(name)
    }

    /// The first column called `name`.
    pub open spec fn spec_column(&self, name: Seq<char>) -> Column {
        self.spec_columns()[self.spec_schema().spec_index_of(name)]
    }

    /// What the invariant of a block says of its parts.
    pub proof fn lemma_wf(&self)
        requires
            self.spec_wf(),
        ensures
            block_shape(self.spec_schema(), self.spec_columns(), self.spec_num_rows() as int),
    {
    }

    /// The block without columns and without rows.
    pub fn empty() -> (block: DataBlock)
        ensures
            block.spec_wf(),
            block.spec_schema().fields@.len() == 0,
            block.spec_columns().len() == 0,
            block.spec_num_rows() == 0,
    {
        DataBlock { schema: DataSchema::empty(), columns: Vec::new(), num_rows: 0 }
    }

    /// The block of `num_rows` rows with the given columns; `BadBlock` when
    /// the columns are not those that `schema` names or differ in length.
    pub fn create(schema: DataSchema, columns: Vec<Column>, num_rows: usize) -> (r: Result<
        DataBlock,
        ErrorCode,
    >)
        ensures
            r.is_ok() <==> block_shape(schema, columns@, num_rows as int),
            r matches Ok(block) ==> block.spec_wf() && block.spec_schema() == schema
                && block.spec_columns() == columns@ && block.spec_num_rows() == num_rows,
            r matches Err(e) ==> e == ErrorCode::BadBlock,
    {
        if schema.fields.len() != columns.len() {
            return Err(ErrorCode::BadBlock);
        }
        let mut i: usize = 0;
        while i < columns.len()
            invariant
                0 <= i <= columns@.len(),
                schema.fields@.len() == columns@.len(),
                forall|j: int|
                    0 <= j < i ==> (#[trigger] columns@[j])@.len() == num_rows
                        && columns@[j].spec_type() == schema.fields@[j].data_type,
            decreases columns.len() - i,
        {
            if columns[i].len() != num_rows || columns[i].data_type() != schema.fields[i].data_type {
                return Err(ErrorCode::BadBlock);
            }
            i += 1;
        }
        Ok(DataBlock { schema, columns, num_rows })
    }

    pub fn num_rows(&self) -> (rows: usize)
        ensures
            rows == self.spec_num_rows(),
    {
        self.num_rows
    }

    pub fn num_columns(&self) -> (n: usize)
        ensures
            n == self.spec_columns().len(),
    {
        self.columns.len()
    }

    pub fn schema(&self) -> (schema: &DataSchema)
        ensures
            *schema == self.spec_schema(),
    {
        &self.schema
    }

    /// The column at index `index`.
    pub fn column(&self, index: usize) -> (column: &Column)
        requires
            index < self.spec_columns().len(),
        ensures
            *column == self.spec_columns()[index as int],
            column@.len() == self.spec_num_rows(),
    {
        proof {
            use_type_invariant(self);
        }
        &self.columns[index]
    }

    /// The first column called `name`, or `MissingColumn`.
    pub fn try_column_by_name(&self, name: &String) -> (r: Result<&Column, ErrorCode>)
        ensures
            r.is_ok() <==> self.spec_has_column(name@),
            r matches Ok(column) ==> *column == self.spec_column(name@) && column@.len()
                == self.spec_num_rows(),
            r matches Err(e) ==> e == ErrorCode::MissingColumn,
    {
        proof {
            use_type_invariant(self);
        }
        match self.schema.index_of(name) {
            Some(i) => Ok(&self.columns[i]),
            None => Err(ErrorCode::MissingColumn),
        }
    }
}

/// A block's parts fit together: one column for each field, of the field's
/// type and of `num_rows` rows.
pub open spec fn block_shape(schema: DataSchema, columns: Seq<Column>, num_rows: int) -> bool {
    &&& schema.fields@.len() == columns.len()
    &&& forall|j: int|
        0 <= j < columns.len() ==> (#[trigger] columns[j])@.len() == num_rows
            && columns[j].spec_type() == schema.fields@[j].data_type
}

} // verus!
