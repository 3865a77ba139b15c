use vstd::prelude::*;

verus! {

/// A numerical value recorded into a column: a signed or an unsigned 64-bit
/// integer.
#[derive(Clone, Copy, Debug, PartialEq, Eq, Structural)]
pub enum NumericalValue {
    I64(i64),
    U64(u64),
}

impl From<i64> for NumericalValue {
    fn from(v: i64) -> (r: Self) {
        NumericalValue::I64(v)
    }
}

impl vstd::std_specs::convert::FromSpecImpl<i64> for NumericalValue {
    open spec fn obeys_from_spec() -> bool {
        true
    }

    open spec fn from_spec(v: i64) -> Self {
        NumericalValue::I64(v)
    }
}

impl From<u64> for NumericalValue {
    fn from(v: u64) -> (r: Self) {
        NumericalValue::U64(v)
    }
}

impl vstd::std_specs::convert::FromSpecImpl<u64> for NumericalValue {
    open spec fn obeys_from_spec() -> bool {
        true
    }

    open spec fn from_spec(v: u64) -> Self {
        NumericalValue::U64(v)
    }
}

/// The numerical type a whole column is coerced to at serialization.
#[derive(Clone, Copy, Debug, PartialEq, Eq, Structural)]
pub enum NumericalType {
    I64,
    U64,
}

/// The kind of a column.
#[derive(Clone, Copy, Debug, PartialEq, Eq, Structural)]
pub enum ColumnType {
    I64,
    U64,
    Bool,
    DateTime,
    Bytes,
}

impl ColumnType {
    /// The code the serialized header carries for this kind; it also breaks
    /// ties between same-named columns of different kinds.
    pub open spec fn code_spec(self) -> u8 {
        match self {
            ColumnType::I64 => 0,
            ColumnType::U64 => 1,
            ColumnType::Bool => 2,
            ColumnType::DateTime => 3,
            ColumnType::Bytes => 4,
        }
    }

    pub fn code(&self) -> (r: u8)
        ensures
            r == self.code_spec(),
    {
        match self {
            ColumnType::I64 => 0,
            ColumnType::U64 => 1,
            ColumnType::Bool => 2,
            ColumnType::DateTime => 3,
            ColumnType::Bytes => 4,
        }
    }

    /// The numerical type of a numerical column kind.
    pub fn numerical_type(&self) -> (r: Option<NumericalType>)
        ensures
            r == match *self {
                ColumnType::I64 => Some(NumericalType::I64),
                ColumnType::U64 => Some(NumericalType::U64),
                _ => None::<NumericalType>,
            },
    {
        match self {
            ColumnType::I64 => Some(NumericalType::I64),
            ColumnType::U64 => Some(NumericalType::U64),
            _ => None,
        }
    }
}

/// Whether a column holds exactly one value for every document. This writer
/// only produces full columns.
#[derive(Clone, Copy, Debug, PartialEq, Eq, Structural)]
pub enum Cardinality {
    Full,
}

/// One buffered operation of a column: the start of a new document, or a
/// value of the current document.
#[derive(Clone, Copy, Debug, PartialEq, Eq, Structural)]
pub enum ColumnOperation<T> {
    NewDoc(u32),
    Value(T),
}

/// What recording one value does to a column writer: a `NewDoc` marker is
/// written when the document changes, then the value.
pub open spec fn record_spec<T>(
    ops: Seq<ColumnOperation<T>>,
    last_doc: Option<u32>,
    doc: u32,
    value: T,
) -> Seq<ColumnOperation<T>> {
    if last_doc == Some(doc) {
        ops.push(ColumnOperation::Value(value))
    } else {
        ops.push(ColumnOperation::NewDoc(doc)).push(ColumnOperation::Value(value))
    }
}

/// Remaps the document of a `NewDoc` operation through the old-to-new row id
/// mapping, if one is given.
pub open spec fn remap_op<T>(op: ColumnOperation<T>, mapping: Option<Seq<u32>>) -> ColumnOperation<
    T,
> {
    match (op, mapping) {
        (ColumnOperation::NewDoc(d), Some(m)) => ColumnOperation::NewDoc(m[d as int]),
        _ => op,
    }
}

/// A document id sent through the old-to-new row id mapping.
pub open spec fn remap_doc(d: u32, mapping: Option<Seq<u32>>) -> u32 {
    match mapping {
        Some(m) => m[d as int],
        None => d,
    }
}

/// Every `NewDoc` operation stays within the mapping.
pub open spec fn ops_within<T>(s: Seq<ColumnOperation<T>>, n: int) -> bool {
    forall|i: int|
        0 <= i < s.len() ==> match #[trigger] s[i] {
            ColumnOperation::NewDoc(d) => (d as int) < n,
            ColumnOperation::Value(_) => true,
        }
}

/// Buffers the operations of one numerical (or datetime, or bool-as-integer)
/// column. Documents must be recorded in non-decreasing order.
pub struct ColumnWriter {
    pub last_doc: Option<u32>,
    pub ops: Vec<ColumnOperation<NumericalValue>>,
}

impl ColumnWriter {
    pub fn new() -> (r: Self)
        ensures
            r.last_doc is None,
            r.ops@ == Seq::<ColumnOperation<NumericalValue>>::empty(),
    {
        ColumnWriter { last_doc: None, ops: Vec::new() }
    }

    /// Records one value for `doc`, starting a new document when `doc`
    /// differs from the last one recorded.
    pub fn record(&mut self, doc: u32, value: NumericalValue)
        requires
            old(self).last_doc matches Some(d) ==> d <= doc,
        ensures
            final(self).ops@ == record_spec(old(self).ops@, old(self).last_doc, doc, value),
            final(self).last_doc == Some(doc),
    {
        let same = match self.last_doc {
            Some(d) => d == doc,
            None => false,
        };
        if !same {
            self.ops.push(ColumnOperation::NewDoc(doc));
            self.last_doc = Some(doc);
        }
        self.ops.push(ColumnOperation::Value(value));
    }

    pub fn get_cardinality(&self) -> (r: Cardinality)
        ensures
            r == Cardinality::Full,
    {
        Cardinality::Full
    }

    /// The buffered operations, with documents remapped through
    /// `old_to_new_row_ids` when a mapping is given.
    pub fn operation_iterator(&self, old_to_new_row_ids: Option<&Vec<u32>>) -> (r: Vec<
        ColumnOperation<NumericalValue>,
    >)
        requires
            old_to_new_row_ids matches Some(m) ==> ops_within(self.ops@, m@.len() as int),
        ensures
            r@ == self.ops@.map_values(
                |op: ColumnOperation<NumericalValue>|
                    remap_op(
                        op,
                        match old_to_new_row_ids {
                            Some(m) => Some(m@),
                            None => None::<Seq<u32>>,
                        },
                    ),
            ),
    {
        let ghost mapping = match old_to_new_row_ids {
            Some(m) => Some(m@),
            None => None::<Seq<u32>>,
        };
        let mut r: Vec<ColumnOperation<NumericalValue>> = Vec::new();
        let mut i: usize = 0;
        proof {
            assert(r@ =~= self.ops@.take(0).map_values(
                |op: ColumnOperation<NumericalValue>| remap_op(op, mapping),
            ));
        }
        while i < self.ops.len()
            invariant
                0 <= i <= self.ops@.len(),
                old_to_new_row_ids matches Some(m) ==> ops_within(self.ops@, m@.len() as int),
                mapping == match old_to_new_row_ids {
                    Some(m) => Some(m@),
                    None => None::<Seq<u32>>,
                },
                r@ == self.ops@.take(i as int).map_values(
                    |op: ColumnOperation<NumericalValue>| remap_op(op, mapping),
                ),
            decreases self.ops@.len() - i,
        {
            let op = self.ops[i];
            let out = match (op, old_to_new_row_ids) {
                (ColumnOperation::NewDoc(d), Some(m)) => ColumnOperation::NewDoc(m[d as usize]),
                _ => op,
            };
            r.push(out);
            proof {
                assert(self.ops@.take(i + 1).map_values(
                    |op: ColumnOperation<NumericalValue>| remap_op(op, mapping),
                ) =~= self.ops@.take(i as int).map_values(
                    |op: ColumnOperation<NumericalValue>| remap_op(op, mapping),
                ).push(remap_op(self.ops@[i as int], mapping)));
            }
            i = i + 1;
        }
        proof {
            assert(self.ops@.take(self.ops@.len() as int) =~= self.ops@);
        }
        r
    }
}

/// Buffers one numerical column and tracks the numerical type the column
/// will be coerced to: a forced type wins, else the column is signed as soon
/// as one signed value was recorded.
pub struct NumericalColumnWriter {
    pub writer: ColumnWriter,
    pub forced_type: Option<NumericalType>,
    pub saw_i64: bool,
}

impl NumericalColumnWriter {
    pub open spec fn numerical_type_spec(self) -> NumericalType {
        match self.forced_type {
            Some(t) => t,
            None => if self.saw_i64 {
                NumericalType::I64
            } else {
                NumericalType::U64
            },
        }
    }

    pub fn new() -> (r: Self)
        ensures
            r.writer.last_doc is None,
            r.writer.ops@ == Seq::<ColumnOperation<NumericalValue>>::empty(),
            r.forced_type is None,
            !r.saw_i64,
    {
        NumericalColumnWriter { writer: ColumnWriter::new(), forced_type: None, saw_i64: false }
    }

    pub fn force_numerical_type(&mut self, t: NumericalType)
        ensures
            final(self).forced_type == Some(t),
            final(self).writer == old(self).writer,
            final(self).saw_i64 == old(self).saw_i64,
    {
        self.forced_type = Some(t);
    }

    pub fn record_numerical_value(&mut self, doc: u32, value: NumericalValue)
        requires
            old(self).writer.last_doc matches Some(d) ==> d <= doc,
        ensures
            final(self).writer.ops@ == record_spec(
                old(self).writer.ops@,
                old(self).writer.last_doc,
                doc,
                value,
            ),
            final(self).writer.last_doc == Some(doc),
            final(self).forced_type == old(self).forced_type,
            final(self).saw_i64 == (old(self).saw_i64 || value is I64),
    {
        self.writer.record(doc, value);
        if let NumericalValue::I64(_) = value {
            self.saw_i64 = true;
        }
    }

    pub fn numerical_type(&self) -> (r: NumericalType)
        ensures
            r == self.numerical_type_spec(),
    {
        match self.forced_type {
            Some(t) => t,
            None => if self.saw_i64 {
                NumericalType::I64
            } else {
                NumericalType::U64
            },
        }
    }

    pub fn cardinality(&self) -> (r: Cardinality)
        ensures
            r == Cardinality::Full,
    {
        Cardinality::Full
    }

    pub fn operation_iterator(&self, old_to_new_row_ids: Option<&Vec<u32>>) -> (r: Vec<
        ColumnOperation<NumericalValue>,
    >)
        requires
            old_to_new_row_ids matches Some(m) ==> ops_within(self.writer.ops@, m@.len() as int),
        ensures
            r@ == self.writer.ops@.map_values(
                |op: ColumnOperation<NumericalValue>|
                    remap_op(
                        op,
                        match old_to_new_row_ids {
                            Some(m) => Some(m@),
                            None => None::<Seq<u32>>,
                        },
                    ),
            ),
    {
        self.writer.operation_iterator(old_to_new_row_ids)
    }
}

/// Buffers one bytes (or string) column. Values are kept verbatim; the
/// `sort_values_within_row` wish recorded with the column type is kept for
/// the caller to read back.
pub struct StrOrBytesColumnWriter {
    pub last_doc: Option<u32>,
    pub ops: Vec<ColumnOperation<Vec<u8>>>,
    pub sort_values_within_row: bool,
}

impl StrOrBytesColumnWriter {
    pub fn new() -> (r: Self)
        ensures
            r.last_doc is None,
            r.ops@ == Seq::<ColumnOperation<Vec<u8>>>::empty(),
            !r.sort_values_within_row,
    {
        StrOrBytesColumnWriter { last_doc: None, ops: Vec::new(), sort_values_within_row: false }
    }

    pub fn record_bytes(&mut self, doc: u32, value: Vec<u8>)
        requires
            old(self).last_doc matches Some(d) ==> d <= doc,
        ensures
            final(self).ops@ == record_spec(old(self).ops@, old(self).last_doc, doc, value),
            final(self).last_doc == Some(doc),
            final(self).sort_values_within_row == old(self).sort_values_within_row,
    {
        let same = match self.last_doc {
            Some(d) => d == doc,
            None => false,
        };
        if !same {
            self.ops.push(ColumnOperation::NewDoc(doc));
            self.last_doc = Some(doc);
        }
        self.ops.push(ColumnOperation::Value(value));
    }

    pub fn get_cardinality(&self) -> (r: Cardinality)
        ensures
            r == Cardinality::Full,
    {
        Cardinality::Full
    }
}

/// Whether two byte strings hold the same bytes.
pub fn slices_eq(a: &[u8], b: &[u8]) -> (r: bool)
    ensures
        r == (a@ == b@),
{
    if a.len() != b.len() {
        return false;
    }
    let mut i: usize = 0;
    while i < a.len()
        invariant
            0 <= i <= a@.len(),
            a@.len() == b@.len(),
            forall|k: int| 0 <= k < i ==> a@[k] == b@[k],
        decreases a@.len() - i,
    {
        if a[i] != b[i] {
            return false;
        }
        i = i + 1;
    }
    proof {
        assert(a@ =~= b@);
    }
    true
}

/// The index of the column with this name, or -1 when there is none.
pub open spec fn find_index<W>(cols: Seq<(Vec<u8>, W)>, name: Seq<u8>) -> int
    decreases cols.len(),
{
    if cols.len() == 0 {
        -1
    } else if cols[0].0@ == name {
        0
    } else {
        let r = find_index(cols.drop_first(), name);
        if r == -1 {
            -1
        } else {
            r + 1
        }
    }
}

proof fn lemma_find_index_found<W>(cols: Seq<(Vec<u8>, W)>, name: Seq<u8>, i: int)
    requires
        0 <= i < cols.len(),
        cols[i].0@ == name,
        forall|k: int| 0 <= k < i ==> cols[k].0@ != name,
    ensures
        find_index(cols, name) == i,
    decreases cols.len(),
{
    if i > 0 {
        lemma_find_index_found(cols.drop_first(), name, i - 1);
    }
}

proof fn lemma_find_index_missing<W>(cols: Seq<(Vec<u8>, W)>, name: Seq<u8>)
    requires
        forall|k: int| 0 <= k < cols.len() ==> cols[k].0@ != name,
    ensures
        find_index(cols, name) == -1,
    decreases cols.len(),
{
    if cols.len() > 0 {
        lemma_find_index_missing(cols.drop_first(), name);
    }
}

/// Finds the column with this name.
fn find_col<W>(cols: &Vec<(Vec<u8>, W)>, name: &[u8]) -> (r: Option<usize>)
    ensures
        match r {
            Some(i) => i < cols@.len() && find_index(cols@, name@) == i,
            None => find_index(cols@, name@) == -1,
        },
{
    let mut i: usize = 0;
    while i < cols.len()
        invariant
            0 <= i <= cols@.len(),
            forall|k: int| 0 <= k < i ==> cols@[k].0@ != name@,
        decreases cols@.len() - i,
    {
        if slices_eq(cols[i].0.as_slice(), name) {
            proof {
                lemma_find_index_found(cols@, name@, i as int);
            }
            return Some(i);
        }
        i = i + 1;
    }
    proof {
        lemma_find_index_missing(cols@, name@);
    }
    None
}


proof fn lemma_find_index_props<W>(cols: Seq<(Vec<u8>, W)>, name: Seq<u8>)
    ensures
        find_index(cols, name) >= -1,
        find_index(cols, name) == -1 ==> forall|k: int|
            0 <= k < cols.len() ==> (#[trigger] cols[k]).0@ != name,
        find_index(cols, name) >= 0 ==> 0 <= find_index(cols, name) < cols.len() && cols[find_index(
            cols,
            name,
        )].0@ == name,
    decreases cols.len(),
{
    if cols.len() > 0 {
        lemma_find_index_props(cols.drop_first(), name);
        if find_index(cols, name) == -1 {
            if cols[0].0@ == name {
                assert(find_index(cols, name) == 0);
            }
            assert(cols[0].0@ != name);
            if find_index(cols.drop_first(), name) >= 0 {
                assert(find_index(cols, name) == find_index(cols.drop_first(), name) + 1);
            }
            assert(find_index(cols.drop_first(), name) == -1);
            assert forall|k: int| 0 <= k < cols.len() implies (#[trigger] cols[k]).0@ != name by {
                if k > 0 {
                    assert(cols.drop_first()[k - 1] == cols[k]);
                    assert(cols.drop_first()[k - 1].0@ != name);
                }
            }
        }
    }
}

proof fn lemma_keys_unique_update<W>(before: Seq<(Vec<u8>, W)>, after: Seq<(Vec<u8>, W)>, i: int)
    requires
        keys_unique(before),
        0 <= i < before.len(),
        after.len() == before.len(),
        forall|j: int| 0 <= j < before.len() && j != i ==> after[j] == before[j],
        after[i].0 == before[i].0,
    ensures
        keys_unique(after),
{
    assert forall|a: int, b: int| 0 <= a < b < after.len() implies after[a].0@ != after[b].0@ by {
        assert(after[a].0 == before[a].0);
        assert(after[b].0 == before[b].0);
    }
}

proof fn lemma_keys_unique_push<W>(before: Seq<(Vec<u8>, W)>, after: Seq<(Vec<u8>, W)>, name: Seq<
    u8,
>)
    requires
        keys_unique(before),
        find_index(before, name) == -1,
        after.len() == before.len() + 1,
        after.take(before.len() as int) == before,
        after.last().0@ == name,
    ensures
        keys_unique(after),
{
    lemma_find_index_props(before, name);
    assert forall|a: int, b: int| 0 <= a < b < after.len() implies after[a].0@ != after[b].0@ by {
        if b < before.len() {
            assert(after.take(before.len() as int)[a] == after[a]);
            assert(after.take(before.len() as int)[b] == after[b]);
        } else {
            assert(after[b] == after.last());
            assert(after.take(before.len() as int)[a] == after[a]);
            assert(before[a].0@ != name);
        }
    }
}

/// No two columns of a group share a name.
pub open spec fn keys_unique<W>(cols: Seq<(Vec<u8>, W)>) -> bool {
    forall|i: int, j: int| 0 <= i < j < cols.len() ==> cols[i].0@ != cols[j].0@
}

/// Copies a byte string into an owned vector.
fn to_owned_bytes(name: &[u8]) -> (r: Vec<u8>)
    ensures
        r@ == name@,
{
    let mut r: Vec<u8> = Vec::new();
    let mut i: usize = 0;
    while i < name.len()
        invariant
            0 <= i <= name@.len(),
            r@ == name@.take(i as int),
        decreases name@.len() - i,
    {
        r.push(name[i]);
        proof {
            assert(name@.take(i + 1) =~= name@.take(i as int).push(name@[i as int]));
        }
        i = i + 1;
    }
    proof {
        assert(name@.take(name@.len() as int) =~= name@);
    }
    r
}

/// The column with this name is ready to record `doc`: it does not exist
/// yet, or its last recorded document does not exceed `doc`.
pub open spec fn col_ready(cols: Seq<(Vec<u8>, ColumnWriter)>, name: Seq<u8>, doc: u32) -> bool {
    let i = find_index(cols, name);
    i >= 0 ==> match cols[i].1.last_doc {
        Some(d) => d <= doc,
        None => true,
    }
}

pub open spec fn num_col_ready(
    cols: Seq<(Vec<u8>, NumericalColumnWriter)>,
    name: Seq<u8>,
    doc: u32,
) -> bool {
    let i = find_index(cols, name);
    i >= 0 ==> match cols[i].1.writer.last_doc {
        Some(d) => d <= doc,
        None => true,
    }
}

pub open spec fn bytes_col_ready(
    cols: Seq<(Vec<u8>, StrOrBytesColumnWriter)>,
    name: Seq<u8>,
    doc: u32,
) -> bool {
    let i = find_index(cols, name);
    i >= 0 ==> match cols[i].1.last_doc {
        Some(d) => d <= doc,
        None => true,
    }
}

/// The effect of recording one value into the named column of a group of
/// plain column writers: the column is created when missing, and only it
/// changes.
pub open spec fn recorded_cw(
    before: Seq<(Vec<u8>, ColumnWriter)>,
    after: Seq<(Vec<u8>, ColumnWriter)>,
    name: Seq<u8>,
    doc: u32,
    value: NumericalValue,
) -> bool {
    let i = find_index(before, name);
    if i == -1 {
        &&& after.len() == before.len() + 1
        &&& after.take(before.len() as int) == before
        &&& after.last().0@ == name
        &&& after.last().1.ops@ == record_spec(
            Seq::<ColumnOperation<NumericalValue>>::empty(),
            None,
            doc,
            value,
        )
        &&& after.last().1.last_doc == Some(doc)
    } else {
        &&& after.len() == before.len()
        &&& (forall|j: int| 0 <= j < before.len() && j != i ==> after[j] == before[j])
        &&& after[i].0 == before[i].0
        &&& after[i].1.ops@ == record_spec(before[i].1.ops@, before[i].1.last_doc, doc, value)
        &&& after[i].1.last_doc == Some(doc)
    }
}

/// Builds a columnar segment: per-name column writers grouped by kind, to be
/// serialized once all documents are recorded.
pub struct ColumnarWriter {
    pub numerical_columns: Vec<(Vec<u8>, NumericalColumnWriter)>,
    pub bytes_columns: Vec<(Vec<u8>, StrOrBytesColumnWriter)>,
    pub bool_columns: Vec<(Vec<u8>, ColumnWriter)>,
    pub datetime_columns: Vec<(Vec<u8>, ColumnWriter)>,
}

impl ColumnarWriter {
    /// Column names are unique within each group.
    pub open spec fn wf(self) -> bool {
        &&& keys_unique(self.numerical_columns@)
        &&& keys_unique(self.bytes_columns@)
        &&& keys_unique(self.bool_columns@)
        &&& keys_unique(self.datetime_columns@)
    }

    pub fn new() -> (r: Self)
        ensures
            r.wf(),
            r.numerical_columns@.len() == 0,
            r.bytes_columns@.len() == 0,
            r.bool_columns@.len() == 0,
            r.datetime_columns@.len() == 0,
    {
        ColumnarWriter {
            numerical_columns: Vec::new(),
            bytes_columns: Vec::new(),
            bool_columns: Vec::new(),
            datetime_columns: Vec::new(),
        }
    }

    /// Records a numerical value for `doc` under `column_name`.
    pub fn record_numerical(&mut self, doc: u32, column_name: &[u8], numerical_value:
        NumericalValue)
        requires
            old(self).wf(),
            num_col_ready(old(self).numerical_columns@, column_name@, doc),
        ensures
            final(self).wf(),
            final(self).bytes_columns == old(self).bytes_columns,
            final(self).bool_columns == old(self).bool_columns,
            final(self).datetime_columns == old(self).datetime_columns,
            ({
                let before = old(self).numerical_columns@;
                let after = final(self).numerical_columns@;
                let i = find_index(before, column_name@);
                if i == -1 {
                    &&& after.len() == before.len() + 1
                    &&& after.take(before.len() as int) == before
                    &&& after.last().0@ == column_name@
                    &&& after.last().1.writer.ops@ == record_spec(
                        Seq::<ColumnOperation<NumericalValue>>::empty(),
                        None,
                        doc,
                        numerical_value,
                    )
                    &&& after.last().1.forced_type is None
                    &&& after.last().1.saw_i64 == numerical_value is I64
                } else {
                    &&& after.len() == before.len()
                    &&& (forall|j: int| 0 <= j < before.len() && j != i ==> after[j] == before[j])
                    &&& after[i].0 == before[i].0
                    &&& after[i].1.writer.ops@ == record_spec(
                        before[i].1.writer.ops@,
                        before[i].1.writer.last_doc,
                        doc,
                        numerical_value,
                    )
                    &&& after[i].1.forced_type == before[i].1.forced_type
                    &&& after[i].1.saw_i64 == (before[i].1.saw_i64 || numerical_value is I64)
                }
            }),
    {
        match find_col(&self.numerical_columns, column_name) {
            Some(i) => {
                let ghost before = self.numerical_columns@;
                let mut entry = self.numerical_columns.remove(i);
                entry.1.record_numerical_value(doc, numerical_value);
                self.numerical_columns.insert(i, entry);
                proof {
                    assert forall|j: int|
                        0 <= j < before.len() && j != i implies self.numerical_columns@[j]
                        == before[j] by {}
                    lemma_keys_unique_update(before, self.numerical_columns@, i as int);
                }
            },
            None => {
                let mut w = NumericalColumnWriter::new();
                w.record_numerical_value(doc, numerical_value);
                self.numerical_columns.push((to_owned_bytes(column_name), w));
                proof {
                    assert(self.numerical_columns@.take(old(self).numerical_columns@.len() as int)
                        =~= old(self).numerical_columns@);
                    lemma_keys_unique_push(old(self).numerical_columns@, self.numerical_columns@, column_name@);
                }
            },
        }
    }

    /// Records a boolean for `doc` under `column_name`; the value is kept as
    /// the integer 1 or 0.
    pub fn record_bool(&mut self, doc: u32, column_name: &[u8], val: bool)
        requires
            old(self).wf(),
            col_ready(old(self).bool_columns@, column_name@, doc),
        ensures
            final(self).wf(),
            final(self).bytes_columns == old(self).bytes_columns,
            final(self).numerical_columns == old(self).numerical_columns,
            final(self).datetime_columns == old(self).datetime_columns,
            recorded_cw(
                old(self).bool_columns@,
                final(self).bool_columns@,
                column_name@,
                doc,
                NumericalValue::U64(if val { 1 } else { 0 }),
            ),
    {
        let value = NumericalValue::U64(if val { 1 } else { 0 });
        match find_col(&self.bool_columns, column_name) {
            Some(i) => {
                let ghost before = self.bool_columns@;
                let mut entry = self.bool_columns.remove(i);
                entry.1.record(doc, value);
                self.bool_columns.insert(i, entry);
                proof {
                    assert forall|j: int|
                        0 <= j < before.len() && j != i implies self.bool_columns@[j]
                        == before[j] by {}
                    lemma_keys_unique_update(before, self.bool_columns@, i as int);
                }
            },
            None => {
                let mut w = ColumnWriter::new();
                w.record(doc, value);
                self.bool_columns.push((to_owned_bytes(column_name), w));
                proof {
                    assert(self.bool_columns@.take(old(self).bool_columns@.len() as int) =~= old(
                        self,
                    ).bool_columns@);
                    lemma_keys_unique_push(old(self).bool_columns@, self.bool_columns@, column_name@);
                }
            },
        }
    }

    /// Records a datetime, given as nanoseconds since the epoch, for `doc`
    /// under `column_name`.
    pub fn record_datetime(&mut self, doc: u32, column_name: &[u8], timestamp_nanos: i64)
        requires
            old(self).wf(),
            col_ready(old(self).datetime_columns@, column_name@, doc),
        ensures
            final(self).wf(),
            final(self).bytes_columns == old(self).bytes_columns,
            final(self).numerical_columns == old(self).numerical_columns,
            final(self).bool_columns == old(self).bool_columns,
            recorded_cw(
                old(self).datetime_columns@,
                final(self).datetime_columns@,
                column_name@,
                doc,
                NumericalValue::I64(timestamp_nanos),
            ),
    {
        let value = NumericalValue::I64(timestamp_nanos);
        match find_col(&self.datetime_columns, column_name) {
            Some(i) => {
                let ghost before = self.datetime_columns@;
                let mut entry = self.datetime_columns.remove(i);
                entry.1.record(doc, value);
                self.datetime_columns.insert(i, entry);
                proof {
                    assert forall|j: int|
                        0 <= j < before.len() && j != i implies self.datetime_columns@[j]
                        == before[j] by {}
                    lemma_keys_unique_update(before, self.datetime_columns@, i as int);
                }
            },
            None => {
                let mut w = ColumnWriter::new();
                w.record(doc, value);
                self.datetime_columns.push((to_owned_bytes(column_name), w));
                proof {
                    assert(self.datetime_columns@.take(old(self).datetime_columns@.len() as int)
                        =~= old(self).datetime_columns@);
                    lemma_keys_unique_push(old(self).datetime_columns@, self.datetime_columns@, column_name@);
                }
            },
        }
    }

    /// Records a byte-string value for `doc` under `column_name`.
    pub fn record_bytes(&mut self, doc: u32, column_name: &[u8], value: Vec<u8>)
        requires
            old(self).wf(),
            bytes_col_ready(old(self).bytes_columns@, column_name@, doc),
        ensures
            final(self).wf(),
            final(self).numerical_columns == old(self).numerical_columns,
            final(self).bool_columns == old(self).bool_columns,
            final(self).datetime_columns == old(self).datetime_columns,
            ({
                let before = old(self).bytes_columns@;
                let after = final(self).bytes_columns@;
                let i = find_index(before, column_name@);
                if i == -1 {
                    &&& after.len() == before.len() + 1
                    &&& after.take(before.len() as int) == before
                    &&& after.last().0@ == column_name@
                    &&& after.last().1.ops@ == record_spec(
                        Seq::<ColumnOperation<Vec<u8>>>::empty(),
                        None,
                        doc,
                        value,
                    )
                    &&& !after.last().1.sort_values_within_row
                } else {
                    &&& after.len() == before.len()
                    &&& (forall|j: int| 0 <= j < before.len() && j != i ==> after[j] == before[j])
                    &&& after[i].0 == before[i].0
                    &&& after[i].1.ops@ == record_spec(
                        before[i].1.ops@,
                        before[i].1.last_doc,
                        doc,
                        value,
                    )
                    &&& after[i].1.sort_values_within_row == before[i].1.sort_values_within_row
                }
            }),
    {
        match find_col(&self.bytes_columns, column_name) {
            Some(i) => {
                let ghost before = self.bytes_columns@;
                let mut entry = self.bytes_columns.remove(i);
                entry.1.record_bytes(doc, value);
                self.bytes_columns.insert(i, entry);
                proof {
                    assert forall|j: int|
                        0 <= j < before.len() && j != i implies self.bytes_columns@[j]
                        == before[j] by {}
                    lemma_keys_unique_update(before, self.bytes_columns@, i as int);
                }
            },
            None => {
                let mut w = StrOrBytesColumnWriter::new();
                w.record_bytes(doc, value);
                self.bytes_columns.push((to_owned_bytes(column_name), w));
                proof {
                    assert(self.bytes_columns@.take(old(self).bytes_columns@.len() as int) =~= old(
                        self,
                    ).bytes_columns@);
                    lemma_keys_unique_push(old(self).bytes_columns@, self.bytes_columns@, column_name@);
                }
            },
        }
    }

    /// Records a column's type without recording a value: creates the column
    /// when missing, forces the numerical type of a numerical column, and
    /// stores the within-row sort wish of a bytes column.
    pub fn record_column_type(&mut self, column_name: &[u8], column_type: ColumnType,
        sort_values_within_row: bool)
        requires
            old(self).wf(),
            sort_values_within_row ==> column_type == ColumnType::Bytes,
        ensures
            final(self).wf(),
            column_type == ColumnType::Bytes ==> {
                let before = old(self).bytes_columns@;
                let after = final(self).bytes_columns@;
                let i = find_index(before, column_name@);
                &&& final(self).numerical_columns == old(self).numerical_columns
                &&& final(self).bool_columns == old(self).bool_columns
                &&& final(self).datetime_columns == old(self).datetime_columns
                &&& if i == -1 {
                    &&& after.len() == before.len() + 1
                    &&& after.take(before.len() as int) == before
                    &&& after.last().0@ == column_name@
                    &&& after.last().1.ops@.len() == 0
                    &&& after.last().1.sort_values_within_row == sort_values_within_row
                } else {
                    &&& after.len() == before.len()
                    &&& (forall|j: int| 0 <= j < before.len() && j != i ==> after[j] == before[j])
                    &&& after[i].0 == before[i].0
                    &&& after[i].1.ops == before[i].1.ops
                    &&& after[i].1.last_doc == before[i].1.last_doc
                    &&& after[i].1.sort_values_within_row == sort_values_within_row
                }
            },
            (column_type == ColumnType::Bool || column_type == ColumnType::DateTime) ==> {
                let before = if column_type == ColumnType::Bool {
                    old(self).bool_columns@
                } else {
                    old(self).datetime_columns@
                };
                let after = if column_type == ColumnType::Bool {
                    final(self).bool_columns@
                } else {
                    final(self).datetime_columns@
                };
                let i = find_index(before, column_name@);
                &&& final(self).numerical_columns == old(self).numerical_columns
                &&& final(self).bytes_columns == old(self).bytes_columns
                &&& (column_type == ColumnType::Bool ==> final(self).datetime_columns == old(
                    self,
                ).datetime_columns)
                &&& (column_type == ColumnType::DateTime ==> final(self).bool_columns == old(
                    self,
                ).bool_columns)
                &&& if i == -1 {
                    &&& after.len() == before.len() + 1
                    &&& after.take(before.len() as int) == before
                    &&& after.last().0@ == column_name@
                    &&& after.last().1.ops@.len() == 0
                } else {
                    after == before
                }
            },
            (column_type == ColumnType::I64 || column_type == ColumnType::U64) ==> {
                let before = old(self).numerical_columns@;
                let after = final(self).numerical_columns@;
                let i = find_index(before, column_name@);
                let nt = if column_type == ColumnType::I64 {
                    NumericalType::I64
                } else {
                    NumericalType::U64
                };
                &&& final(self).bytes_columns == old(self).bytes_columns
                &&& final(self).bool_columns == old(self).bool_columns
                &&& final(self).datetime_columns == old(self).datetime_columns
                &&& if i == -1 {
                    &&& after.len() == before.len() + 1
                    &&& after.take(before.len() as int) == before
                    &&& after.last().0@ == column_name@
                    &&& after.last().1.writer.ops@.len() == 0
                    &&& after.last().1.forced_type == Some(nt)
                } else {
                    &&& after.len() == before.len()
                    &&& (forall|j: int| 0 <= j < before.len() && j != i ==> after[j] == before[j])
                    &&& after[i].0 == before[i].0
                    &&& after[i].1.writer == before[i].1.writer
                    &&& after[i].1.saw_i64 == before[i].1.saw_i64
                    &&& after[i].1.forced_type == Some(nt)
                }
            },
    {
        match column_type {
            ColumnType::Bytes => {
                match find_col(&self.bytes_columns, column_name) {
                    Some(i) => {
                        let ghost before = self.bytes_columns@;
                        let mut entry = self.bytes_columns.remove(i);
                        entry.1.sort_values_within_row = sort_values_within_row;
                        self.bytes_columns.insert(i, entry);
                        proof {
                            assert forall|j: int|
                                0 <= j < before.len() && j != i implies self.bytes_columns@[j]
                                == before[j] by {}
                            lemma_keys_unique_update(before, self.bytes_columns@, i as int);
                        }
                    },
                    None => {
                        let mut w = StrOrBytesColumnWriter::new();
                        w.sort_values_within_row = sort_values_within_row;
                        self.bytes_columns.push((to_owned_bytes(column_name), w));
                        proof {
                            assert(self.bytes_columns@.take(old(self).bytes_columns@.len() as int)
                                =~= old(self).bytes_columns@);
                            lemma_keys_unique_push(old(self).bytes_columns@, self.bytes_columns@, column_name@);
                        }
                    },
                }
            },
            ColumnType::Bool => {
                match find_col(&self.bool_columns, column_name) {
                    Some(_) => {},
                    None => {
                        self.bool_columns.push((to_owned_bytes(column_name), ColumnWriter::new()));
                        proof {
                            assert(self.bool_columns@.take(old(self).bool_columns@.len() as int)
                                =~= old(self).bool_columns@);
                            lemma_keys_unique_push(old(self).bool_columns@, self.bool_columns@, column_name@);
                        }
                    },
                }
            },
            ColumnType::DateTime => {
                match find_col(&self.datetime_columns, column_name) {
                    Some(_) => {},
                    None => {
                        self.datetime_columns.push(
                            (to_owned_bytes(column_name), ColumnWriter::new()),
                        );
                        proof {
                            assert(self.datetime_columns@.take(
                                old(self).datetime_columns@.len() as int,
                            ) =~= old(self).datetime_columns@);
                            lemma_keys_unique_push(old(self).datetime_columns@, self.datetime_columns@, column_name@);
                        }
                    },
                }
            },
            ColumnType::I64 | ColumnType::U64 => {
                let nt = if matches!(column_type, ColumnType::I64) {
                    NumericalType::I64
                } else {
                    NumericalType::U64
                };
                match find_col(&self.numerical_columns, column_name) {
                    Some(i) => {
                        let ghost before = self.numerical_columns@;
                        let mut entry = self.numerical_columns.remove(i);
                        entry.1.force_numerical_type(nt);
                        self.numerical_columns.insert(i, entry);
                        proof {
                            assert forall|j: int|
                                0 <= j < before.len() && j != i implies self.numerical_columns@[j]
                                == before[j] by {}
                            lemma_keys_unique_update(before, self.numerical_columns@, i as int);
                        }
                    },
                    None => {
                        let mut w = NumericalColumnWriter::new();
                        w.force_numerical_type(nt);
                        self.numerical_columns.push((to_owned_bytes(column_name), w));
                        proof {
                            assert(self.numerical_columns@.take(
                                old(self).numerical_columns@.len() as int,
                            ) =~= old(self).numerical_columns@);
                            lemma_keys_unique_push(old(self).numerical_columns@, self.numerical_columns@, column_name@);
                        }
                    },
                }
            },
        }
    }
}

/// The smaller of two mathematical integers.
pub open spec fn imin(a: int, b: int) -> int {
    if a < b {
        a
    } else {
        b
    }
}

pub open spec fn count_cw(cols: Seq<(Vec<u8>, ColumnWriter)>) -> int
    decreases cols.len(),
{
    if cols.len() == 0 {
        0
    } else {
        count_cw(cols.drop_last()) + cols.last().1.ops@.len()
    }
}

pub open spec fn count_num(cols: Seq<(Vec<u8>, NumericalColumnWriter)>) -> int
    decreases cols.len(),
{
    if cols.len() == 0 {
        0
    } else {
        count_num(cols.drop_last()) + cols.last().1.writer.ops@.len()
    }
}

pub open spec fn count_bytes(cols: Seq<(Vec<u8>, StrOrBytesColumnWriter)>) -> int
    decreases cols.len(),
{
    if cols.len() == 0 {
        0
    } else {
        count_bytes(cols.drop_last()) + cols.last().1.ops@.len()
    }
}

impl ColumnarWriter {
    /// The total number of buffered operations, saturated at `usize::MAX`;
    /// the writer's memory footprint grows with this count.
    pub open spec fn ops_total(self) -> int {
        count_num(self.numerical_columns@) + count_bytes(self.bytes_columns@) + count_cw(
            self.bool_columns@,
        ) + count_cw(self.datetime_columns@)
    }

    pub fn mem_usage(&self) -> (r: usize)
        ensures
            r as int == imin(self.ops_total(), usize::MAX as int),
    {
        let mut acc: usize = 0;
        let mut i: usize = 0;
        while i < self.numerical_columns.len()
            invariant
                0 <= i <= self.numerical_columns@.len(),
                acc as int == imin(
                    count_num(self.numerical_columns@.take(i as int)),
                    usize::MAX as int,
                ),
            decreases self.numerical_columns@.len() - i,
        {
            proof {
                assert(self.numerical_columns@.take(i + 1).drop_last() =~= self.numerical_columns@
                    .take(i as int));
            }
            acc = acc.saturating_add(self.numerical_columns[i].1.writer.ops.len());
            i = i + 1;
        }
        proof {
            assert(self.numerical_columns@.take(self.numerical_columns@.len() as int)
                =~= self.numerical_columns@);
        }
        let mut j: usize = 0;
        let ghost base = count_num(self.numerical_columns@);
        while j < self.bytes_columns.len()
            invariant
                0 <= j <= self.bytes_columns@.len(),
                base == count_num(self.numerical_columns@),
                acc as int == imin(
                    base + count_bytes(self.bytes_columns@.take(j as int)),
                    usize::MAX as int,
                ),
            decreases self.bytes_columns@.len() - j,
        {
            proof {
                assert(self.bytes_columns@.take(j + 1).drop_last() =~= self.bytes_columns@.take(
                    j as int,
                ));
            }
            acc = acc.saturating_add(self.bytes_columns[j].1.ops.len());
            j = j + 1;
        }
        proof {
            assert(self.bytes_columns@.take(self.bytes_columns@.len() as int)
                =~= self.bytes_columns@);
        }
        let mut k: usize = 0;
        let ghost base2 = base + count_bytes(self.bytes_columns@);
        while k < self.bool_columns.len()
            invariant
                0 <= k <= self.bool_columns@.len(),
                base2 == count_num(self.numerical_columns@) + count_bytes(self.bytes_columns@),
                acc as int == imin(
                    base2 + count_cw(self.bool_columns@.take(k as int)),
                    usize::MAX as int,
                ),
            decreases self.bool_columns@.len() - k,
        {
            proof {
                assert(self.bool_columns@.take(k + 1).drop_last() =~= self.bool_columns@.take(
                    k as int,
                ));
            }
            acc = acc.saturating_add(self.bool_columns[k].1.ops.len());
            k = k + 1;
        }
        proof {
            assert(self.bool_columns@.take(self.bool_columns@.len() as int)
                =~= self.bool_columns@);
        }
        let mut m: usize = 0;
        let ghost base3 = base2 + count_cw(self.bool_columns@);
        while m < self.datetime_columns.len()
            invariant
                0 <= m <= self.datetime_columns@.len(),
                base3 == count_num(self.numerical_columns@) + count_bytes(self.bytes_columns@)
                    + count_cw(self.bool_columns@),
                acc as int == imin(
                    base3 + count_cw(self.datetime_columns@.take(m as int)),
                    usize::MAX as int,
                ),
            decreases self.datetime_columns@.len() - m,
        {
            proof {
                assert(self.datetime_columns@.take(m + 1).drop_last() =~= self.datetime_columns@
                    .take(m as int));
            }
            acc = acc.saturating_add(self.datetime_columns[m].1.ops.len());
            m = m + 1;
        }
        proof {
            assert(self.datetime_columns@.take(self.datetime_columns@.len() as int)
                =~= self.datetime_columns@);
        }
        acc
    }
}

/// Whether `a` must come strictly before `b` in the requested sort order.
pub open spec fn score_before(a: (i128, u32), b: (i128, u32), reversed: bool) -> bool {
    if reversed {
        a.0 > b.0
    } else {
        a.0 < b.0
    }
}

pub open spec fn sorted_by_score(s: Seq<(i128, u32)>, reversed: bool) -> bool {
    forall|i: int, j: int| 0 <= i < j < s.len() ==> !score_before(s[j], s[i], reversed)
}

/// Insert before the first strictly worse element; equal scores keep the
/// earlier element first, so the sort is stable.
pub open spec fn insert_by_score(x: (i128, u32), s: Seq<(i128, u32)>, reversed: bool) -> Seq<
    (i128, u32),
>
    decreases s.len(),
{
    if s.len() == 0 {
        seq![x]
    } else if score_before(x, s[0], reversed) {
        seq![x] + s
    } else {
        seq![s[0]] + insert_by_score(x, s.drop_first(), reversed)
    }
}

pub open spec fn sort_by_score(s: Seq<(i128, u32)>, reversed: bool) -> Seq<(i128, u32)>
    decreases s.len(),
{
    if s.len() == 0 {
        Seq::empty()
    } else {
        insert_by_score(s.last(), sort_by_score(s.drop_last(), reversed), reversed)
    }
}

proof fn lemma_insert_score_at(x: (i128, u32), s: Seq<(i128, u32)>, p: int, reversed: bool)
    requires
        sorted_by_score(s, reversed),
        0 <= p <= s.len(),
        forall|k: int| 0 <= k < p ==> !score_before(x, s[k], reversed),
        p < s.len() ==> score_before(x, s[p], reversed),
    ensures
        insert_by_score(x, s, reversed) == s.insert(p, x),
    decreases s.len(),
{
    if s.len() == 0 {
        assert(insert_by_score(x, s, reversed) =~= s.insert(p, x));
    } else if p == 0 {
        assert(insert_by_score(x, s, reversed) =~= s.insert(0, x));
    } else {
        lemma_insert_score_at(x, s.drop_first(), p - 1, reversed);
        assert(insert_by_score(x, s, reversed) =~= s.insert(p, x));
    }
}

proof fn lemma_insert_by_score_sorted(x: (i128, u32), s: Seq<(i128, u32)>, reversed: bool)
    requires
        sorted_by_score(s, reversed),
    ensures
        sorted_by_score(insert_by_score(x, s, reversed), reversed),
        insert_by_score(x, s, reversed).len() == s.len() + 1,
        s.len() == 0 ==> insert_by_score(x, s, reversed)[0] == x,
        s.len() > 0 ==> insert_by_score(x, s, reversed)[0] == x || insert_by_score(x, s, reversed)[0]
            == s[0],
    decreases s.len(),
{
    if s.len() == 0 {
    } else if score_before(x, s[0], reversed) {
        let r = seq![x] + s;
        assert forall|i: int, j: int| 0 <= i < j < r.len() implies !score_before(
            r[j],
            r[i],
            reversed,
        ) by {
            if i == 0 {
                if j > 1 {
                    assert(!score_before(s[j - 1], s[0], reversed));
                }
            } else {
                assert(r[i] == s[i - 1]);
                assert(r[j] == s[j - 1]);
                assert(!score_before(s[j - 1], s[i - 1], reversed));
            }
        }
    } else {
        assert forall|i: int, j: int|
            0 <= i < j < s.drop_first().len() implies !score_before(
            s.drop_first()[j],
            s.drop_first()[i],
            reversed,
        ) by {
            assert(s.drop_first()[j] == s[j + 1]);
            assert(s.drop_first()[i] == s[i + 1]);
            assert(!score_before(s[j + 1], s[i + 1], reversed));
        }
        lemma_insert_by_score_sorted(x, s.drop_first(), reversed);
        let t = insert_by_score(x, s.drop_first(), reversed);
        let r = seq![s[0]] + t;
        assert forall|i: int, j: int| 0 <= i < j < r.len() implies !score_before(
            r[j],
            r[i],
            reversed,
        ) by {
            assert(r[j] == t[j - 1]);
            if i == 0 {
                assert(t.len() > 0);
                if j > 1 {
                    assert(!score_before(t[j - 1], t[0], reversed));
                }
                assert(t[0] == x || (s.drop_first().len() > 0 && t[0] == s.drop_first()[0]));
                if s.drop_first().len() > 0 {
                    assert(!score_before(s.drop_first()[0], s[0], reversed)) by {
                        assert(s.drop_first()[0] == s[1]);
                        assert(!score_before(s[1], s[0], reversed));
                    }
                }
            } else {
                assert(r[i] == t[i - 1]);
                assert(!score_before(t[j - 1], t[i - 1], reversed));
            }
        }
    }
}

proof fn lemma_sort_by_score_sorted(s: Seq<(i128, u32)>, reversed: bool)
    ensures
        sorted_by_score(sort_by_score(s, reversed), reversed),
        sort_by_score(s, reversed).len() == s.len(),
    decreases s.len(),
{
    if s.len() > 0 {
        lemma_sort_by_score_sorted(s.drop_last(), reversed);
        lemma_insert_by_score_sorted(s.last(), sort_by_score(s.drop_last(), reversed), reversed);
    }
}

/// Whether the element already placed at the scan position does not have to
/// yield to the incoming score.
fn keeps_scanning(placed: i128, incoming: i128, reversed: bool) -> (r: bool)
    ensures
        r == !score_before((incoming, 0u32), (placed, 0u32), reversed),
{
    if reversed {
        placed >= incoming
    } else {
        placed <= incoming
    }
}

/// Sorts score/document pairs stably by score, ascending, or descending when
/// `reversed`.
fn sort_scores(v: &Vec<(i128, u32)>, reversed: bool) -> (r: Vec<(i128, u32)>)
    ensures
        r@ == sort_by_score(v@, reversed),
{
    let mut r: Vec<(i128, u32)> = Vec::new();
    let mut i: usize = 0;
    proof {
        lemma_sort_by_score_sorted(v@.take(0), reversed);
    }
    while i < v.len()
        invariant
            0 <= i <= v@.len(),
            r@ == sort_by_score(v@.take(i as int), reversed),
            sorted_by_score(r@, reversed),
        decreases v@.len() - i,
    {
        let x = v[i];
        let mut p: usize = 0;
        while p < r.len() && keeps_scanning(r[p].0, x.0, reversed)
            invariant
                0 <= p <= r@.len(),
                forall|k: int| 0 <= k < p ==> !score_before(x, r@[k], reversed),
            decreases r@.len() - p,
        {
            p = p + 1;
        }
        proof {
            lemma_insert_score_at(x, r@, p as int, reversed);
            lemma_insert_by_score_sorted(x, r@, reversed);
            assert(v@.take(i + 1).drop_last() =~= v@.take(i as int));
            assert(v@.take(i + 1).last() == x);
        }
        r.insert(p, x);
        i = i + 1;
    }
    proof {
        assert(v@.take(v@.len() as int) =~= v@);
    }
    r
}

/// The integer sort key of a recorded value; signed and unsigned values
/// order by their mathematical value.
pub open spec fn score_key(v: NumericalValue) -> i128 {
    match v {
        NumericalValue::I64(x) => x as i128,
        NumericalValue::U64(x) => x as i128,
    }
}

/// Documents without a value are assigned the lowest possible score, so
/// they sort before every scored document (after, when reversed).
pub open spec fn pad_missing(from: int, to: int) -> Seq<(i128, u32)>
    decreases to - from,
{
    if from >= to {
        Seq::empty()
    } else {
        seq![(i128::MIN, from as u32)] + pad_missing(from + 1, to)
    }
}

proof fn lemma_pad_missing_len(from: int, to: int)
    requires
        from <= to,
    ensures
        pad_missing(from, to).len() == to - from,
    decreases to - from,
{
    if from < to {
        lemma_pad_missing_len(from + 1, to);
    }
}

/// One step of the score extraction: a `NewDoc` names the next document,
/// the first value of a document scores it (the documents in between get
/// the lowest possible score), and further values of the same document are
/// ignored. The last component records that documents stayed in range and
/// in order.
pub open spec fn score_step(
    st: (Seq<(i128, u32)>, int, Option<u32>, bool),
    op: ColumnOperation<NumericalValue>,
) -> (Seq<(i128, u32)>, int, Option<u32>, bool) {
    match op {
        ColumnOperation::NewDoc(d) => (st.0, st.1, Some(d), st.3 && d < u32::MAX),
        ColumnOperation::Value(v) => match st.2 {
            Some(c) => (
                st.0 + pad_missing(st.1, c as int) + seq![(score_key(v), c)],
                c as int + 1,
                None::<u32>,
                st.3 && st.1 <= c as int,
            ),
            None => st,
        },
    }
}

/// The scores a column's buffered operations give to the documents.
pub open spec fn scores_fold(ops: Seq<ColumnOperation<NumericalValue>>) -> (
    Seq<(i128, u32)>,
    int,
    Option<u32>,
    bool,
)
    decreases ops.len(),
{
    if ops.len() == 0 {
        (Seq::<(i128, u32)>::empty(), 0int, None::<u32>, true)
    } else {
        score_step(scores_fold(ops.drop_last()), ops.last())
    }
}

/// A column's operations are orderly: documents below the terminated
/// sentinel, never revisited once scored.
pub open spec fn scores_ok(ops: Seq<ColumnOperation<NumericalValue>>) -> bool {
    scores_fold(ops).3
}

proof fn lemma_scores_fold_len(ops: Seq<ColumnOperation<NumericalValue>>)
    requires
        scores_ok(ops),
    ensures
        scores_fold(ops).0.len() == scores_fold(ops).1,
        0 <= scores_fold(ops).1 <= u32::MAX,
        scores_fold(ops).2 matches Some(c) ==> c < u32::MAX,
    decreases ops.len(),
{
    if ops.len() > 0 {
        let st = scores_fold(ops.drop_last());
        assert(scores_ok(ops.drop_last())) by {
            match ops.last() {
                ColumnOperation::NewDoc(d) => {},
                ColumnOperation::Value(v) => {},
            }
        }
        lemma_scores_fold_len(ops.drop_last());
        match ops.last() {
            ColumnOperation::NewDoc(d) => {},
            ColumnOperation::Value(v) => {
                match st.2 {
                    Some(c) => {
                        lemma_pad_missing_len(st.1, c as int);
                    },
                    None => {},
                }
            },
        }
    }
}

proof fn lemma_scores_ok_prefix(ops: Seq<ColumnOperation<NumericalValue>>, i: int)
    requires
        0 <= i <= ops.len(),
        scores_ok(ops),
    ensures
        scores_ok(ops.take(i)),
    decreases ops.len() - i,
{
    if i == ops.len() {
        assert(ops.take(i) =~= ops);
    } else {
        lemma_scores_ok_prefix(ops, i + 1);
        assert(ops.take(i + 1).drop_last() =~= ops.take(i));
        let st = scores_fold(ops.take(i));
        match ops.take(i + 1).last() {
            ColumnOperation::NewDoc(d) => {},
            ColumnOperation::Value(v) => {},
        }
    }
}

/// The document order of a column, lowest score first (or highest when
/// `reversed`); a missing document carries the lowest possible score.
pub open spec fn sort_order_spec(
    ops: Seq<ColumnOperation<NumericalValue>>,
    num_docs: u32,
    reversed: bool,
) -> Seq<u32> {
    let vals = scores_fold(ops).0;
    let padded = vals + pad_missing(vals.len() as int, num_docs as int);
    sort_by_score(padded, reversed).map_values(|p: (i128, u32)| p.1)
}

impl ColumnarWriter {
    /// Returns the documents `0..num_docs`, sorted stably by the named
    /// numerical or datetime column; a document without a value is assigned
    /// the lowest possible score, and an unknown column yields no order at
    /// all.
    pub fn sort_order(&self, sort_field: &[u8], num_docs: u32, reversed: bool) -> (r: Vec<u32>)
        requires
            ({
                let ni = find_index(self.numerical_columns@, sort_field@);
                let di = find_index(self.datetime_columns@, sort_field@);
                if ni >= 0 {
                    scores_ok(self.numerical_columns@[ni].1.writer.ops@)
                } else if di >= 0 {
                    scores_ok(self.datetime_columns@[di].1.ops@)
                } else {
                    true
                }
            }),
        ensures
            ({
                let ni = find_index(self.numerical_columns@, sort_field@);
                let di = find_index(self.datetime_columns@, sort_field@);
                if ni >= 0 {
                    r@ == sort_order_spec(
                        self.numerical_columns@[ni].1.writer.ops@,
                        num_docs,
                        reversed,
                    )
                } else if di >= 0 {
                    r@ == sort_order_spec(self.datetime_columns@[di].1.ops@, num_docs, reversed)
                } else {
                    r@ == Seq::<u32>::empty()
                }
            }),
    {
        let ops: &Vec<ColumnOperation<NumericalValue>> = match find_col(
            &self.numerical_columns,
            sort_field,
        ) {
            Some(i) => &self.numerical_columns[i].1.writer.ops,
            None => {
                match find_col(&self.datetime_columns, sort_field) {
                    Some(i) => &self.datetime_columns[i].1.ops,
                    None => {
                        return Vec::new();
                    },
                }
            },
        };
        let mut values: Vec<(i128, u32)> = Vec::new();
        let mut fill: u32 = 0;
        let mut current_doc: Option<u32> = None;
        let mut i: usize = 0;
        proof {
            assert(ops@.take(0) =~= Seq::<ColumnOperation<NumericalValue>>::empty());
        }
        while i < ops.len()
            invariant
                0 <= i <= ops@.len(),
                scores_ok(ops@),
                (values@, fill as int, current_doc, true) == scores_fold(ops@.take(i as int)),
            decreases ops@.len() - i,
        {
            proof {
                lemma_scores_ok_prefix(ops@, i + 1);
                lemma_scores_fold_len(ops@.take(i as int));
                assert(ops@.take(i + 1).drop_last() =~= ops@.take(i as int));
            }
            let op = ops[i];
            match op {
                ColumnOperation::NewDoc(d) => {
                    current_doc = Some(d);
                },
                ColumnOperation::Value(v) => {
                    match current_doc {
                        Some(c) => {
                            let ghost vals0 = values@;
                            let ghost fill0 = fill as int;
                            while fill < c
                                invariant
                                    fill0 <= fill as int <= c as int || (fill0 > c as int && fill
                                        == fill0),
                                    c < u32::MAX,
                                    values@ == vals0 + pad_missing(fill0, fill as int),
                                decreases c as int - fill,
                            {
                                proof {
                                    lemma_pad_append(fill0, fill as int);
                                }
                                values.push((i128::MIN, fill));
                                fill = fill + 1;
                            }
                            proof {
                                if fill0 >= c as int {
                                    assert(pad_missing(fill0, c as int) =~= Seq::<
                                        (i128, u32),
                                    >::empty());
                                    assert(values@ =~= vals0 + pad_missing(fill0, c as int));
                                }
                            }
                            let key: i128 = match v {
                                NumericalValue::I64(x) => x as i128,
                                NumericalValue::U64(x) => x as i128,
                            };
                            values.push((key, c));
                            proof {
                                assert(values@ =~= vals0 + pad_missing(fill0, c as int) + seq![
                                    (score_key(v), c)
                                ]);
                            }
                            fill = c + 1;
                            current_doc = None;
                        },
                        None => {},
                    }
                },
            }
            i = i + 1;
        }
        proof {
            assert(ops@.take(ops@.len() as int) =~= ops@);
            lemma_scores_fold_len(ops@);
        }
        let ghost vals_done = values@;
        let mut doc: u32 = if values.len() < u32::MAX as usize {
            values.len() as u32
        } else {
            u32::MAX
        };
        let ghost tail_from = values@.len() as int;
        while doc < num_docs
            invariant
                tail_from == vals_done.len(),
                tail_from <= doc as int,
                doc as int <= num_docs as int || doc as int == tail_from,
                values@ == vals_done + pad_missing(tail_from, doc as int),
                values@.len() == doc as int,
            decreases num_docs as int - doc,
        {
            proof {
                lemma_pad_append(tail_from, doc as int);
                lemma_pad_missing_len(tail_from, doc as int);
            }
            values.push((i128::MIN, doc));
            doc = doc + 1;
        }
        proof {
            lemma_pad_missing_len(tail_from, doc as int);
            if tail_from >= num_docs as int {
                assert(pad_missing(tail_from, num_docs as int) =~= Seq::<(i128, u32)>::empty());
            }
            assert(values@ =~= vals_done + pad_missing(tail_from, num_docs as int));
        }
        let sorted = sort_scores(&values, reversed);
        let mut r: Vec<u32> = Vec::new();
        let mut k: usize = 0;
        while k < sorted.len()
            invariant
                0 <= k <= sorted@.len(),
                r@ == sorted@.take(k as int).map_values(|p: (i128, u32)| p.1),
            decreases sorted@.len() - k,
        {
            r.push(sorted[k].1);
            proof {
                assert(sorted@.take(k + 1).map_values(|p: (i128, u32)| p.1) =~= sorted@.take(
                    k as int,
                ).map_values(|p: (i128, u32)| p.1).push(sorted@[k as int].1));
            }
            k = k + 1;
        }
        proof {
            assert(sorted@.take(sorted@.len() as int) =~= sorted@);
        }
        r
    }
}

/// Growing a missing-document pad by one document.
proof fn lemma_pad_append(from: int, to: int)
    requires
        from <= to,
    ensures
        pad_missing(from, to) + seq![(i128::MIN, to as u32)] =~= pad_missing(from, to + 1),
    decreases to - from,
{
    if from < to {
        lemma_pad_append(from + 1, to);
        assert(pad_missing(from, to) + seq![(i128::MIN, to as u32)] =~= seq![
            (i128::MIN, from as u32)
        ] + (pad_missing(from + 1, to) + seq![(i128::MIN, to as u32)]));
    } else {
        assert(pad_missing(from, to) =~= Seq::<(i128, u32)>::empty());
        assert(pad_missing(from, to + 1) =~= seq![(i128::MIN, from as u32)] + pad_missing(
            from + 1,
            to + 1,
        ));
        assert(pad_missing(from + 1, to + 1) =~= Seq::<(i128, u32)>::empty());
    }
}

/// Four little-endian bytes of a 32-bit integer.
pub open spec fn enc_u32(x: u32) -> Seq<u8> {
    seq![
        (x % 256) as u8,
        ((x / 256) % 256) as u8,
        ((x / 65536) % 256) as u8,
        ((x / 16777216) % 256) as u8,
    ]
}

/// Eight little-endian bytes of a 64-bit integer.
pub open spec fn enc_u64(x: u64) -> Seq<u8> {
    seq![
        (x % 256) as u8,
        ((x / 256) % 256) as u8,
        ((x / 65536) % 256) as u8,
        ((x / 16777216) % 256) as u8,
        ((x / 0x100000000) % 256) as u8,
        ((x / 0x10000000000) % 256) as u8,
        ((x / 0x1000000000000) % 256) as u8,
        ((x / 0x100000000000000) % 256) as u8,
    ]
}

pub open spec fn enc_u32s(s: Seq<u32>) -> Seq<u8>
    decreases s.len(),
{
    if s.len() == 0 {
        Seq::empty()
    } else {
        enc_u32s(s.drop_last()) + enc_u32(s.last())
    }
}

pub open spec fn enc_u64s(s: Seq<u64>) -> Seq<u8>
    decreases s.len(),
{
    if s.len() == 0 {
        Seq::empty()
    } else {
        enc_u64s(s.drop_last()) + enc_u64(s.last())
    }
}

/// Byte-string values, each length-prefixed.
pub open spec fn enc_bytes_vals(s: Seq<Vec<u8>>) -> Seq<u8>
    decreases s.len(),
{
    if s.len() == 0 {
        Seq::empty()
    } else {
        enc_bytes_vals(s.drop_last()) + enc_u32(s.last()@.len() as u32) + s.last()@
    }
}

/// The documents that start in this operation list, in order.
pub open spec fn rows_of<T>(ops: Seq<ColumnOperation<T>>) -> Seq<u32>
    decreases ops.len(),
{
    if ops.len() == 0 {
        Seq::empty()
    } else {
        rows_of(ops.drop_last()) + match ops.last() {
            ColumnOperation::NewDoc(d) => seq![d],
            ColumnOperation::Value(_) => Seq::empty(),
        }
    }
}

/// The values in this operation list, in order.
pub open spec fn values_of<T>(ops: Seq<ColumnOperation<T>>) -> Seq<T>
    decreases ops.len(),
{
    if ops.len() == 0 {
        Seq::empty()
    } else {
        values_of(ops.drop_last()) + match ops.last() {
            ColumnOperation::NewDoc(_) => Seq::empty(),
            ColumnOperation::Value(v) => seq![v],
        }
    }
}

proof fn lemma_split_lens<T>(ops: Seq<ColumnOperation<T>>)
    ensures
        rows_of(ops).len() + values_of(ops).len() == ops.len(),
    decreases ops.len(),
{
    if ops.len() > 0 {
        lemma_split_lens(ops.drop_last());
    }
}

/// The 64-bit word a value is serialized as: under an unsigned coercion its
/// two's-complement bits, under a signed coercion offset-binary, so that the
/// word order matches the signed value order.
pub open spec fn key_u64_spec(nt: NumericalType, v: NumericalValue) -> u64 {
    match nt {
        NumericalType::U64 => match v {
            NumericalValue::U64(x) => x,
            NumericalValue::I64(x) => if x >= 0 {
                x as u64
            } else {
                (x + 0x10000000000000000) as u64
            },
        },
        NumericalType::I64 => match v {
            NumericalValue::I64(x) => (x + 0x8000000000000000) as u64,
            NumericalValue::U64(x) => if x < 0x8000000000000000 {
                (x + 0x8000000000000000) as u64
            } else {
                (x - 0x8000000000000000) as u64
            },
        },
    }
}

fn key_u64(nt: NumericalType, v: NumericalValue) -> (r: u64)
    ensures
        r == key_u64_spec(nt, v),
{
    match nt {
        NumericalType::U64 => match v {
            NumericalValue::U64(x) => x,
            NumericalValue::I64(x) => if x >= 0 {
                x as u64
            } else {
                (x as i128 + 0x10000000000000000i128) as u64
            },
        },
        NumericalType::I64 => match v {
            NumericalValue::I64(x) => (x as i128 + 0x8000000000000000i128) as u64,
            NumericalValue::U64(x) => if x < 0x8000000000000000 {
                x + 0x8000000000000000
            } else {
                x - 0x8000000000000000
            },
        },
    }
}

/// Appends the little-endian bytes of `x`.
fn push_u32(wrt: &mut Vec<u8>, x: u32)
    ensures
        final(wrt)@ == old(wrt)@ + enc_u32(x),
{
    wrt.push((x % 256) as u8);
    wrt.push(((x / 256) % 256) as u8);
    wrt.push(((x / 65536) % 256) as u8);
    wrt.push(((x / 16777216) % 256) as u8);
    proof {
        assert(wrt@ =~= old(wrt)@ + enc_u32(x));
    }
}

/// Appends the little-endian bytes of `x`.
fn push_u64(wrt: &mut Vec<u8>, x: u64)
    ensures
        final(wrt)@ == old(wrt)@ + enc_u64(x),
{
    wrt.push((x % 256) as u8);
    wrt.push(((x / 256) % 256) as u8);
    wrt.push(((x / 65536) % 256) as u8);
    wrt.push(((x / 16777216) % 256) as u8);
    wrt.push(((x / 0x100000000) % 256) as u8);
    wrt.push(((x / 0x10000000000) % 256) as u8);
    wrt.push(((x / 0x1000000000000) % 256) as u8);
    wrt.push(((x / 0x100000000000000) % 256) as u8);
    proof {
        assert(wrt@ =~= old(wrt)@ + enc_u64(x));
    }
}

/// Appends the bytes of a name or value verbatim.
fn push_bytes(wrt: &mut Vec<u8>, bytes: &[u8])
    ensures
        final(wrt)@ == old(wrt)@ + bytes@,
{
    let mut i: usize = 0;
    while i < bytes.len()
        invariant
            0 <= i <= bytes@.len(),
            wrt@ == old(wrt)@ + bytes@.take(i as int),
        decreases bytes@.len() - i,
    {
        wrt.push(bytes[i]);
        proof {
            assert(old(wrt)@ + bytes@.take(i + 1) =~= (old(wrt)@ + bytes@.take(i as int)).push(
                bytes@[i as int],
            ));
        }
        i = i + 1;
    }
    proof {
        assert(bytes@.take(bytes@.len() as int) =~= bytes@);
    }
}

/// Builds the row index of a column: which documents got values.
pub struct IndexBuilder {
    pub rows: Vec<u32>,
    pub num_vals: usize,
}

impl IndexBuilder {
    pub fn new() -> (r: Self)
        ensures
            r.rows@ == Seq::<u32>::empty(),
            r.num_vals == 0,
    {
        IndexBuilder { rows: Vec::new(), num_vals: 0 }
    }

    pub fn record_row(&mut self, doc: u32)
        ensures
            final(self).rows@ == old(self).rows@.push(doc),
            final(self).num_vals == old(self).num_vals,
    {
        self.rows.push(doc);
    }

    pub fn record_value(&mut self)
        ensures
            final(self).rows == old(self).rows,
            final(self).num_vals as int == if old(self).num_vals < usize::MAX {
                old(self).num_vals + 1
            } else {
                old(self).num_vals as int
            },
    {
        if self.num_vals < usize::MAX {
            self.num_vals = self.num_vals + 1;
        }
    }
}

/// Scratch buffers reused while serializing the columns.
pub struct SpareBuffers {
    pub index_builder: IndexBuilder,
    pub u64_values: Vec<u64>,
}

/// Splits an operation list into its row index and its values.
pub fn consume_operation_iterator(
    ops: &Vec<ColumnOperation<u64>>,
    index_builder: &mut IndexBuilder,
    values: &mut Vec<u64>,
)
    ensures
        final(index_builder).rows@ == old(index_builder).rows@ + rows_of(ops@),
        final(values)@ == old(values)@ + values_of(ops@),
{
    let mut i: usize = 0;
    proof {
        assert(index_builder.rows@ =~= old(index_builder).rows@ + rows_of(ops@.take(0)));
        assert(values@ =~= old(values)@ + values_of(ops@.take(0)));
    }
    while i < ops.len()
        invariant
            0 <= i <= ops@.len(),
            index_builder.rows@ == old(index_builder).rows@ + rows_of(ops@.take(i as int)),
            values@ == old(values)@ + values_of(ops@.take(i as int)),
        decreases ops@.len() - i,
    {
        proof {
            assert(ops@.take(i + 1).drop_last() =~= ops@.take(i as int));
        }
        match ops[i] {
            ColumnOperation::NewDoc(doc) => {
                index_builder.record_row(doc);
                proof {
                    assert(index_builder.rows@ =~= old(index_builder).rows@ + rows_of(ops@.take(
                        i + 1,
                    )));
                    assert(values@ =~= old(values)@ + values_of(ops@.take(i + 1)));
                }
            },
            ColumnOperation::Value(value) => {
                index_builder.record_value();
                values.push(value);
                proof {
                    assert(index_builder.rows@ =~= old(index_builder).rows@ + rows_of(ops@.take(
                        i + 1,
                    )));
                    assert(values@ =~= old(values)@ + values_of(ops@.take(i + 1)));
                }
            },
        }
        i = i + 1;
    }
    proof {
        assert(ops@.take(ops@.len() as int) =~= ops@);
    }
}

/// The serialized body of a column whose values map to 64-bit words: the row
/// index, then the values, both length-prefixed.
#[verifier::opaque]
pub open spec fn body_u64(rows: Seq<u32>, vals: Seq<u64>) -> Seq<u8> {
    enc_u32(rows.len() as u32) + enc_u32s(rows) + enc_u32(vals.len() as u32) + enc_u64s(vals)
}

/// Maps the values of an operation list to their 64-bit words.
pub open spec fn coerce_ops_spec(
    ops: Seq<ColumnOperation<NumericalValue>>,
    nt: NumericalType,
) -> Seq<ColumnOperation<u64>> {
    ops.map_values(
        |op: ColumnOperation<NumericalValue>|
            match op {
                ColumnOperation::NewDoc(d) => ColumnOperation::NewDoc(d),
                ColumnOperation::Value(v) => ColumnOperation::Value(key_u64_spec(nt, v)),
            },
    )
}

proof fn lemma_coerce_split(ops: Seq<ColumnOperation<NumericalValue>>, nt: NumericalType)
    ensures
        rows_of(coerce_ops_spec(ops, nt)) == rows_of(ops),
        values_of(coerce_ops_spec(ops, nt)) == values_of(ops).map_values(
            |v: NumericalValue| key_u64_spec(nt, v),
        ),
    decreases ops.len(),
{
    if ops.len() == 0 {
        assert(coerce_ops_spec(ops, nt) =~= Seq::<ColumnOperation<u64>>::empty());
        assert(values_of(coerce_ops_spec(ops, nt)) =~= values_of(ops).map_values(
            |v: NumericalValue| key_u64_spec(nt, v),
        ));
    } else {
        lemma_coerce_split(ops.drop_last(), nt);
        assert(coerce_ops_spec(ops, nt).drop_last() =~= coerce_ops_spec(ops.drop_last(), nt));
        assert(coerce_ops_spec(ops, nt).last() == match ops.last() {
            ColumnOperation::NewDoc(d) => ColumnOperation::NewDoc(d),
            ColumnOperation::Value(v) => ColumnOperation::Value(key_u64_spec(nt, v)),
        });
        assert(rows_of(coerce_ops_spec(ops, nt)) =~= rows_of(ops));
        assert(values_of(coerce_ops_spec(ops, nt)) =~= values_of(ops).map_values(
            |v: NumericalValue| key_u64_spec(nt, v),
        ));
    }
}

/// Maps an operation list's values to their 64-bit words.
pub fn coerce_numerical_symbol(
    ops: &Vec<ColumnOperation<NumericalValue>>,
    nt: NumericalType,
) -> (r: Vec<ColumnOperation<u64>>)
    ensures
        r@ == coerce_ops_spec(ops@, nt),
{
    let mut r: Vec<ColumnOperation<u64>> = Vec::new();
    let mut i: usize = 0;
    proof {
        assert(r@ =~= coerce_ops_spec(ops@.take(0), nt));
    }
    while i < ops.len()
        invariant
            0 <= i <= ops@.len(),
            r@ == coerce_ops_spec(ops@.take(i as int), nt),
        decreases ops@.len() - i,
    {
        let out = match ops[i] {
            ColumnOperation::NewDoc(d) => ColumnOperation::NewDoc(d),
            ColumnOperation::Value(v) => ColumnOperation::Value(key_u64(nt, v)),
        };
        r.push(out);
        proof {
            assert(coerce_ops_spec(ops@.take(i + 1), nt) =~= coerce_ops_spec(
                ops@.take(i as int),
                nt,
            ).push(match ops@[i as int] {
                ColumnOperation::NewDoc(d) => ColumnOperation::NewDoc(d),
                ColumnOperation::Value(v) => ColumnOperation::Value(key_u64_spec(nt, v)),
            }));
        }
        i = i + 1;
    }
    proof {
        assert(ops@.take(ops@.len() as int) =~= ops@);
    }
    r
}

/// Writes the body of a column whose values are 64-bit words.
#[verifier::rlimit(100)]
pub fn send_to_serialize_column_mappable_to_u64(
    ops: Vec<ColumnOperation<u64>>,
    cardinality: Cardinality,
    buffers: &mut SpareBuffers,
    wrt: &mut Vec<u8>,
)
    requires
        ops@.len() <= u32::MAX,
    ensures
        final(wrt)@ == old(wrt)@ + body_u64(rows_of(ops@), values_of(ops@)),
{
    buffers.index_builder.rows.clear();
    buffers.index_builder.num_vals = 0;
    buffers.u64_values.clear();
    consume_operation_iterator(&ops, &mut buffers.index_builder, &mut buffers.u64_values);
    proof {
        lemma_split_lens(ops@);
        assert(buffers.index_builder.rows@ =~= rows_of(ops@));
        assert(buffers.u64_values@ =~= values_of(ops@));
    }
    let ghost base = wrt@;
    push_u32(wrt, buffers.index_builder.rows.len() as u32);
    let mut i: usize = 0;
    while i < buffers.index_builder.rows.len()
        invariant
            0 <= i <= buffers.index_builder.rows@.len(),
            buffers.index_builder.rows@ == rows_of(ops@),
            buffers.u64_values@ == values_of(ops@),
            wrt@ == base + enc_u32(rows_of(ops@).len() as u32) + enc_u32s(
                rows_of(ops@).take(i as int),
            ),
        decreases buffers.index_builder.rows@.len() - i,
    {
        proof {
            assert(rows_of(ops@).take(i + 1).drop_last() =~= rows_of(ops@).take(i as int));
        }
        let row = buffers.index_builder.rows[i];
        push_u32(wrt, row);
        proof {
            assert(wrt@ =~= base + enc_u32(rows_of(ops@).len() as u32) + enc_u32s(rows_of(
                ops@,
            ).take(i + 1)));
        }
        i = i + 1;
    }
    proof {
        assert(rows_of(ops@).take(rows_of(ops@).len() as int) =~= rows_of(ops@));
    }
    let ghost base2 = wrt@;
    push_u32(wrt, buffers.u64_values.len() as u32);
    let mut j: usize = 0;
    while j < buffers.u64_values.len()
        invariant
            0 <= j <= buffers.u64_values@.len(),
            buffers.u64_values@ == values_of(ops@),
            wrt@ == base2 + enc_u32(values_of(ops@).len() as u32) + enc_u64s(
                values_of(ops@).take(j as int),
            ),
        decreases buffers.u64_values@.len() - j,
    {
        proof {
            assert(values_of(ops@).take(j + 1).drop_last() =~= values_of(ops@).take(j as int));
        }
        let v = buffers.u64_values[j];
        push_u64(wrt, v);
        proof {
            assert(wrt@ =~= base2 + enc_u32(values_of(ops@).len() as u32) + enc_u64s(values_of(
                ops@,
            ).take(j + 1)));
        }
        j = j + 1;
    }
    proof {
        assert(values_of(ops@).take(values_of(ops@).len() as int) =~= values_of(ops@));
        let rn = enc_u32(rows_of(ops@).len() as u32);
        let rb = enc_u32s(rows_of(ops@));
        let vn = enc_u32(values_of(ops@).len() as u32);
        let vb = enc_u64s(values_of(ops@));
        assert(wrt@ =~= base2 + vn + vb);
        assert(base2 =~= base + rn + rb);
        assert(body_u64(rows_of(ops@), values_of(ops@)) == rn + rb + vn + vb) by {
            reveal(body_u64);
        }
        assert(wrt@ =~= base + (rn + rb + vn + vb));
    }
}

/// Coerces a numerical column's values to 64-bit words and writes its body.
pub fn serialize_numerical_column(
    cardinality: Cardinality,
    numerical_type: NumericalType,
    ops: &Vec<ColumnOperation<NumericalValue>>,
    buffers: &mut SpareBuffers,
    wrt: &mut Vec<u8>,
)
    requires
        ops@.len() <= u32::MAX,
    ensures
        final(wrt)@ == old(wrt)@ + body_u64(
            rows_of(ops@),
            values_of(ops@).map_values(|v: NumericalValue| key_u64_spec(numerical_type, v)),
        ),
{
    let coerced = coerce_numerical_symbol(ops, numerical_type);
    proof {
        lemma_coerce_split(ops@, numerical_type);
    }
    send_to_serialize_column_mappable_to_u64(coerced, cardinality, buffers, wrt);
}

/// Writes the body of a bool column; true is the word 1 and false the word
/// 0, as the recording step stored them.
pub fn serialize_bool_column(
    cardinality: Cardinality,
    ops: &Vec<ColumnOperation<NumericalValue>>,
    buffers: &mut SpareBuffers,
    wrt: &mut Vec<u8>,
)
    requires
        ops@.len() <= u32::MAX,
    ensures
        final(wrt)@ == old(wrt)@ + body_u64(
            rows_of(ops@),
            values_of(ops@).map_values(|v: NumericalValue| key_u64_spec(NumericalType::U64, v)),
        ),
{
    serialize_numerical_column(cardinality, NumericalType::U64, ops, buffers, wrt);
}

/// The serialized body of a bytes column: the row index, then the
/// length-prefixed values.
#[verifier::opaque]
pub open spec fn body_bytes(rows: Seq<u32>, vals: Seq<Vec<u8>>) -> Seq<u8> {
    enc_u32(rows.len() as u32) + enc_u32s(rows) + enc_u32(vals.len() as u32) + enc_bytes_vals(vals)
}

/// Every byte-string value fits a 32-bit length prefix.
pub open spec fn bytes_vals_fit(ops: Seq<ColumnOperation<Vec<u8>>>) -> bool {
    forall|i: int|
        0 <= i < ops.len() ==> match #[trigger] ops[i] {
            ColumnOperation::Value(b) => b@.len() <= u32::MAX,
            ColumnOperation::NewDoc(_) => true,
        }
}

/// Writes the body of a bytes column, remapping its row ids when a mapping
/// is given.
pub fn serialize_bytes_or_str_column(
    cardinality: Cardinality,
    ops: &Vec<ColumnOperation<Vec<u8>>>,
    old_to_new_row_ids: Option<&Vec<u32>>,
    wrt: &mut Vec<u8>,
)
    requires
        ops@.len() <= u32::MAX,
        bytes_vals_fit(ops@),
        old_to_new_row_ids matches Some(m) ==> ops_within(ops@, m@.len() as int),
    ensures
        final(wrt)@ == old(wrt)@ + body_bytes(
            rows_of(ops@).map_values(
                |d: u32|
                    remap_doc(
                        d,
                        match old_to_new_row_ids {
                            Some(m) => Some(m@),
                            None => None::<Seq<u32>>,
                        },
                    ),
            ),
            values_of(ops@),
        ),
{
    let ghost mv = match old_to_new_row_ids {
        Some(m) => Some(m@),
        None => None::<Seq<u32>>,
    };
    let mut rows: Vec<u32> = Vec::new();
    let mut num_vals: u32 = 0;
    let mut i: usize = 0;
    proof {
        lemma_split_lens(ops@);
        assert(rows@ =~= rows_of(ops@.take(0)).map_values(|d: u32| remap_doc(d, mv)));
        assert(values_of(ops@.take(0)) =~= Seq::<Vec<u8>>::empty());
    }
    while i < ops.len()
        invariant
            0 <= i <= ops@.len(),
            ops@.len() <= u32::MAX,
            mv == match old_to_new_row_ids {
                Some(m) => Some(m@),
                None => None::<Seq<u32>>,
            },
            old_to_new_row_ids matches Some(m) ==> ops_within(ops@, m@.len() as int),
            rows@ == rows_of(ops@.take(i as int)).map_values(|d: u32| remap_doc(d, mv)),
            num_vals as int == values_of(ops@.take(i as int)).len(),
        decreases ops@.len() - i,
    {
        proof {
            assert(ops@.take(i + 1).drop_last() =~= ops@.take(i as int));
            lemma_split_lens(ops@.take(i + 1));
            lemma_split_lens(ops@.take(i as int));
        }
        match &ops[i] {
            ColumnOperation::NewDoc(doc) => {
                let mapped = match old_to_new_row_ids {
                    Some(m) => m[*doc as usize],
                    None => *doc,
                };
                rows.push(mapped);
                proof {
                    assert(rows@ =~= rows_of(ops@.take(i + 1)).map_values(
                        |d: u32| remap_doc(d, mv),
                    ));
                }
            },
            ColumnOperation::Value(_) => {
                num_vals = num_vals + 1;
                proof {
                    assert(values_of(ops@.take(i + 1)) =~= values_of(ops@.take(i as int)) + seq![
                        ops@[i as int]->Value_0
                    ]);
                }
            },
        }
        i = i + 1;
    }
    let ghost mrows = rows_of(ops@).map_values(|d: u32| remap_doc(d, mv));
    proof {
        assert(ops@.take(ops@.len() as int) =~= ops@);
        lemma_split_lens(ops@);
        assert(rows@ =~= mrows);
    }
    let ghost base = wrt@;
    push_u32(wrt, rows.len() as u32);
    let mut k: usize = 0;
    while k < rows.len()
        invariant
            0 <= k <= rows@.len(),
            rows@ == mrows,
            wrt@ == base + enc_u32(mrows.len() as u32) + enc_u32s(mrows.take(k as int)),
        decreases rows@.len() - k,
    {
        proof {
            assert(mrows.take(k + 1).drop_last() =~= mrows.take(k as int));
        }
        let row = rows[k];
        push_u32(wrt, row);
        proof {
            assert(wrt@ =~= base + enc_u32(mrows.len() as u32) + enc_u32s(mrows.take(k + 1)));
        }
        k = k + 1;
    }
    proof {
        assert(mrows.take(mrows.len() as int) =~= mrows);
    }
    let ghost base2 = wrt@;
    push_u32(wrt, num_vals);
    let mut m: usize = 0;
    proof {
        assert(values_of(ops@.take(0)) =~= Seq::<Vec<u8>>::empty());
        assert(enc_bytes_vals(values_of(ops@.take(0))) =~= Seq::<u8>::empty());
    }
    while m < ops.len()
        invariant
            0 <= m <= ops@.len(),
            bytes_vals_fit(ops@),
            wrt@ == base2 + enc_u32(values_of(ops@).len() as u32) + enc_bytes_vals(
                values_of(ops@.take(m as int)),
            ),
            num_vals as int == values_of(ops@).len(),
        decreases ops@.len() - m,
    {
        proof {
            assert(ops@.take(m + 1).drop_last() =~= ops@.take(m as int));
        }
        match &ops[m] {
            ColumnOperation::NewDoc(_) => {
                proof {
                    assert(values_of(ops@.take(m + 1)) =~= values_of(ops@.take(m as int)));
                }
            },
            ColumnOperation::Value(b) => {
                proof {
                    assert(ops@[m as int] is Value);
                    assert(b@ == ops@[m as int]->Value_0@);
                }
                push_u32(wrt, b.len() as u32);
                push_bytes(wrt, b.as_slice());
                proof {
                    assert(values_of(ops@.take(m + 1)) =~= values_of(ops@.take(m as int)).push(
                        ops@[m as int]->Value_0,
                    ));
                    assert(values_of(ops@.take(m + 1)).drop_last() =~= values_of(ops@.take(
                        m as int,
                    )));
                    assert(values_of(ops@.take(m + 1)).last() == ops@[m as int]->Value_0);
                    assert(enc_bytes_vals(values_of(ops@.take(m + 1))) =~= enc_bytes_vals(
                        values_of(ops@.take(m as int)),
                    ) + enc_u32(ops@[m as int]->Value_0@.len() as u32) + ops@[m as int]->Value_0@);
                }
            },
        }
        m = m + 1;
    }
    proof {
        reveal(body_bytes);
        assert(ops@.take(ops@.len() as int) =~= ops@);
        assert(wrt@ =~= base + body_bytes(mrows, values_of(ops@)));
        assert(mrows =~= rows_of(ops@).map_values(
            |d: u32|
                remap_doc(
                    d,
                    match old_to_new_row_ids {
                        Some(m) => Some(m@),
                        None => None::<Seq<u32>>,
                    },
                ),
        ));
    }
}

/// The header of a serialized column: its kind code, then its
/// length-prefixed name.
pub open spec fn enc_header(code: u8, name: Seq<u8>) -> Seq<u8> {
    seq![code] + enc_u32(name.len() as u32) + name
}

proof fn lemma_remap_split<T>(ops: Seq<ColumnOperation<T>>, mv: Option<Seq<u32>>)
    ensures
        rows_of(ops.map_values(|op: ColumnOperation<T>| remap_op(op, mv))) == rows_of(
            ops,
        ).map_values(|d: u32| remap_doc(d, mv)),
        values_of(ops.map_values(|op: ColumnOperation<T>| remap_op(op, mv))) == values_of(ops),
    decreases ops.len(),
{
    let rm = ops.map_values(|op: ColumnOperation<T>| remap_op(op, mv));
    if ops.len() == 0 {
        assert(rm =~= Seq::<ColumnOperation<T>>::empty());
        assert(rows_of(rm) =~= rows_of(ops).map_values(|d: u32| remap_doc(d, mv)));
    } else {
        lemma_remap_split(ops.drop_last(), mv);
        assert(rm.drop_last() =~= ops.drop_last().map_values(
            |op: ColumnOperation<T>| remap_op(op, mv),
        ));
        assert(rm.last() == remap_op(ops.last(), mv));
        assert(rows_of(rm) =~= rows_of(ops).map_values(|d: u32| remap_doc(d, mv)));
        assert(values_of(rm) =~= values_of(ops));
    }
}

/// The views of built column entries: name bytes, kind code, body bytes.
pub open spec fn triple_views(v: Seq<(Vec<u8>, u8, Vec<u8>)>) -> Seq<(Seq<u8>, u8, Seq<u8>)> {
    v.map_values(|e: (Vec<u8>, u8, Vec<u8>)| (e.0@, e.1, e.2@))
}

/// The kind code of a numerical column: signed columns before unsigned
/// ones of the same name.
pub open spec fn num_code(nt: NumericalType) -> u8 {
    if nt == NumericalType::I64 {
        0
    } else {
        1
    }
}

/// The numerical columns as serializable entries, in recording order.
pub open spec fn num_entry_views(
    cols: Seq<(Vec<u8>, NumericalColumnWriter)>,
    mv: Option<Seq<u32>>,
) -> Seq<(Seq<u8>, u8, Seq<u8>)>
    decreases cols.len(),
{
    if cols.len() == 0 {
        Seq::empty()
    } else {
        num_entry_views(cols.drop_last(), mv).push(
            (
                cols.last().0@,
                num_code(cols.last().1.numerical_type_spec()),
                body_u64(
                    rows_of(cols.last().1.writer.ops@).map_values(|d: u32| remap_doc(d, mv)),
                    values_of(cols.last().1.writer.ops@).map_values(
                        |v: NumericalValue| key_u64_spec(cols.last().1.numerical_type_spec(), v),
                    ),
                ),
            ),
        )
    }
}

/// The bool or datetime columns as serializable entries.
pub open spec fn cw_entry_views(
    cols: Seq<(Vec<u8>, ColumnWriter)>,
    code: u8,
    nt: NumericalType,
    mv: Option<Seq<u32>>,
) -> Seq<(Seq<u8>, u8, Seq<u8>)>
    decreases cols.len(),
{
    if cols.len() == 0 {
        Seq::empty()
    } else {
        cw_entry_views(cols.drop_last(), code, nt, mv).push(
            (
                cols.last().0@,
                code,
                body_u64(
                    rows_of(cols.last().1.ops@).map_values(|d: u32| remap_doc(d, mv)),
                    values_of(cols.last().1.ops@).map_values(
                        |v: NumericalValue| key_u64_spec(nt, v),
                    ),
                ),
            ),
        )
    }
}

/// The bytes columns as serializable entries.
pub open spec fn bytes_entry_views(
    cols: Seq<(Vec<u8>, StrOrBytesColumnWriter)>,
    mv: Option<Seq<u32>>,
) -> Seq<(Seq<u8>, u8, Seq<u8>)>
    decreases cols.len(),
{
    if cols.len() == 0 {
        Seq::empty()
    } else {
        bytes_entry_views(cols.drop_last(), mv).push(
            (
                cols.last().0@,
                4u8,
                body_bytes(
                    rows_of(cols.last().1.ops@).map_values(|d: u32| remap_doc(d, mv)),
                    values_of(cols.last().1.ops@),
                ),
            ),
        )
    }
}

/// One serialized column: its kind code, its length-prefixed name, then
/// its body.
pub open spec fn enc_entry(e: (Seq<u8>, u8, Seq<u8>)) -> Seq<u8> {
    enc_header(e.1, e.0) + e.2
}

pub open spec fn enc_entries(s: Seq<(Seq<u8>, u8, Seq<u8>)>) -> Seq<u8>
    decreases s.len(),
{
    if s.len() == 0 {
        Seq::empty()
    } else {
        enc_entries(s.drop_last()) + enc_entry(s.last())
    }
}

impl ColumnarWriter {
    /// Everything fits the length prefixes, and row ids stay within the
    /// mapping when one is given.
    pub open spec fn serializable(self, mv: Option<Seq<u32>>) -> bool {
        &&& forall|i: int|
            0 <= i < self.numerical_columns@.len() ==> {
                &&& (#[trigger] self.numerical_columns@[i]).0@.len() <= u32::MAX
                &&& self.numerical_columns@[i].1.writer.ops@.len() <= u32::MAX
                &&& (mv matches Some(m) ==> ops_within(
                    self.numerical_columns@[i].1.writer.ops@,
                    m.len() as int,
                ))
            }
        &&& forall|i: int|
            0 <= i < self.bool_columns@.len() ==> {
                &&& (#[trigger] self.bool_columns@[i]).0@.len() <= u32::MAX
                &&& self.bool_columns@[i].1.ops@.len() <= u32::MAX
                &&& (mv matches Some(m) ==> ops_within(
                    self.bool_columns@[i].1.ops@,
                    m.len() as int,
                ))
            }
        &&& forall|i: int|
            0 <= i < self.datetime_columns@.len() ==> {
                &&& (#[trigger] self.datetime_columns@[i]).0@.len() <= u32::MAX
                &&& self.datetime_columns@[i].1.ops@.len() <= u32::MAX
                &&& (mv matches Some(m) ==> ops_within(
                    self.datetime_columns@[i].1.ops@,
                    m.len() as int,
                ))
            }
        &&& forall|i: int|
            0 <= i < self.bytes_columns@.len() ==> {
                &&& (#[trigger] self.bytes_columns@[i]).0@.len() <= u32::MAX
                &&& self.bytes_columns@[i].1.ops@.len() <= u32::MAX
                &&& bytes_vals_fit(self.bytes_columns@[i].1.ops@)
                &&& (mv matches Some(m) ==> ops_within(
                    self.bytes_columns@[i].1.ops@,
                    m.len() as int,
                ))
            }
    }

    /// Every column as a serializable entry, group by group in recording
    /// order; the output sorts them.
    pub open spec fn entry_views(self, mv: Option<Seq<u32>>) -> Seq<(Seq<u8>, u8, Seq<u8>)> {
        num_entry_views(self.numerical_columns@, mv) + bytes_entry_views(self.bytes_columns@, mv)
            + cw_entry_views(self.bool_columns@, 2u8, NumericalType::U64, mv) + cw_entry_views(
            self.datetime_columns@,
            3u8,
            NumericalType::I64,
            mv,
        )
    }

    /// The whole serialized segment: every column, sorted by name and kind
    /// code, then the document count. A pure function of what was
    /// recorded, so serialization is deterministic.
    pub open spec fn enc_columnar(self, num_docs: u32, mv: Option<Seq<u32>>) -> Seq<u8> {
        enc_entries(sort_cols(self.entry_views(mv))) + enc_u32(num_docs)
    }
}

/// Strict lexicographic order on byte strings.
pub open spec fn lex_lt(a: Seq<u8>, b: Seq<u8>) -> bool
    decreases a.len(),
{
    if b.len() == 0 {
        false
    } else if a.len() == 0 {
        true
    } else if a[0] < b[0] {
        true
    } else if a[0] > b[0] {
        false
    } else {
        lex_lt(a.drop_first(), b.drop_first())
    }
}

/// Exactly one of `a < b`, `b < a`, `a == b` holds.
proof fn lemma_lex_trichotomy(a: Seq<u8>, b: Seq<u8>)
    ensures
        lex_lt(a, b) ==> !lex_lt(b, a) && a != b,
        !lex_lt(a, b) && !lex_lt(b, a) ==> a == b,
    decreases a.len(),
{
    if a.len() > 0 && b.len() > 0 {
        lemma_lex_trichotomy(a.drop_first(), b.drop_first());
        if !lex_lt(a, b) && !lex_lt(b, a) {
            assert(a[0] == b[0]);
            assert(a.drop_first() == b.drop_first());
            assert(a.len() == b.len());
            assert forall|i: int| 0 <= i < a.len() implies a[i] == b[i] by {
                if i > 0 {
                    assert(a.drop_first()[i - 1] == b.drop_first()[i - 1]);
                }
            }
            assert(a =~= b);
        }
    } else {
        if !lex_lt(a, b) && !lex_lt(b, a) {
            assert(a =~= b);
        }
    }
}

proof fn lemma_lex_trans(a: Seq<u8>, b: Seq<u8>, c: Seq<u8>)
    requires
        lex_lt(a, b),
        lex_lt(b, c),
    ensures
        lex_lt(a, c),
    decreases a.len(),
{
    if a.len() > 0 && b.len() > 0 && c.len() > 0 {
        if a[0] == b[0] && b[0] == c[0] {
            lemma_lex_trans(a.drop_first(), b.drop_first(), c.drop_first());
        }
    }
}

/// One column ready for the output: its name, its kind code and its body
/// bytes; columns serialize sorted by (name, code).
pub open spec fn col_lt(x: (Seq<u8>, u8, Seq<u8>), y: (Seq<u8>, u8, Seq<u8>)) -> bool {
    lex_lt(x.0, y.0) || (x.0 == y.0 && x.1 < y.1)
}

/// `x` does not have to come after `y`: the non-strict column order.
pub open spec fn col_le(x: (Seq<u8>, u8, Seq<u8>), y: (Seq<u8>, u8, Seq<u8>)) -> bool {
    !col_lt(y, x)
}

proof fn lemma_col_le_trans(x: (Seq<u8>, u8, Seq<u8>), y: (Seq<u8>, u8, Seq<u8>), z: (
    Seq<u8>,
    u8,
    Seq<u8>,
))
    requires
        col_le(x, y),
        col_le(y, z),
    ensures
        col_le(x, z),
{
    if col_lt(z, x) {
        lemma_lex_trichotomy(x.0, y.0);
        lemma_lex_trichotomy(y.0, z.0);
        lemma_lex_trichotomy(z.0, x.0);
        if lex_lt(z.0, x.0) {
            if lex_lt(x.0, y.0) {
                lemma_lex_trans(z.0, x.0, y.0);
            }
            if lex_lt(y.0, z.0) {
                lemma_lex_trans(y.0, z.0, x.0);
            }
        }
    }
}

/// The columns are in serialization order.
pub open spec fn sorted_cols(s: Seq<(Seq<u8>, u8, Seq<u8>)>) -> bool {
    forall|i: int, j: int| 0 <= i < j < s.len() ==> col_le(s[i], s[j])
}

/// Insert before the first strictly larger column key.
pub open spec fn insert_col(x: (Seq<u8>, u8, Seq<u8>), s: Seq<(Seq<u8>, u8, Seq<u8>)>) -> Seq<
    (Seq<u8>, u8, Seq<u8>),
>
    decreases s.len(),
{
    if s.len() == 0 {
        seq![x]
    } else if col_lt(x, s[0]) {
        seq![x] + s
    } else {
        seq![s[0]] + insert_col(x, s.drop_first())
    }
}

/// The columns sorted by (name, kind code); with the column keys unique,
/// this arrangement is the only sorted one, so the serialized output is a
/// function of what was recorded.
pub open spec fn sort_cols(s: Seq<(Seq<u8>, u8, Seq<u8>)>) -> Seq<(Seq<u8>, u8, Seq<u8>)>
    decreases s.len(),
{
    if s.len() == 0 {
        Seq::empty()
    } else {
        insert_col(s.last(), sort_cols(s.drop_last()))
    }
}

proof fn lemma_insert_col_at(x: (Seq<u8>, u8, Seq<u8>), s: Seq<(Seq<u8>, u8, Seq<u8>)>, p: int)
    requires
        sorted_cols(s),
        0 <= p <= s.len(),
        forall|k: int| 0 <= k < p ==> col_le(#[trigger] s[k], x),
        p < s.len() ==> col_lt(x, s[p]),
    ensures
        insert_col(x, s) == s.insert(p, x),
    decreases s.len(),
{
    if s.len() == 0 {
        assert(insert_col(x, s) =~= s.insert(p, x));
    } else if p == 0 {
        lemma_lex_trichotomy(x.0, s[0].0);
        assert(col_lt(x, s[0]));
        assert(insert_col(x, s) =~= s.insert(0, x));
    } else {
        assert(col_le(s[0], x));
        lemma_lex_trichotomy(x.0, s[0].0);
        assert(!col_lt(x, s[0]));
        assert forall|k: int| 0 <= k < p - 1 implies col_le(#[trigger] s.drop_first()[k], x) by {
            assert(s.drop_first()[k] == s[k + 1]);
        }
        lemma_insert_col_at(x, s.drop_first(), p - 1);
        assert(insert_col(x, s) =~= s.insert(p, x));
    }
}

proof fn lemma_insert_col_sorted(x: (Seq<u8>, u8, Seq<u8>), s: Seq<(Seq<u8>, u8, Seq<u8>)>)
    requires
        sorted_cols(s),
    ensures
        sorted_cols(insert_col(x, s)),
        insert_col(x, s).len() == s.len() + 1,
        s.len() == 0 ==> insert_col(x, s)[0] == x,
        s.len() > 0 ==> insert_col(x, s)[0] == x || insert_col(x, s)[0] == s[0],
    decreases s.len(),
{
    if s.len() == 0 {
    } else if col_lt(x, s[0]) {
        let r = seq![x] + s;
        assert forall|i: int, j: int| 0 <= i < j < r.len() implies col_le(r[i], r[j]) by {
            if i == 0 {
                if j == 1 {
                    lemma_lex_trichotomy(x.0, s[0].0);
                    assert(col_le(x, s[0]));
                } else {
                    lemma_lex_trichotomy(x.0, s[0].0);
                    assert(col_le(x, s[0]));
                    assert(col_le(s[0], s[j - 1]));
                    lemma_col_le_trans(x, s[0], s[j - 1]);
                }
            } else {
                assert(r[i] == s[i - 1] && r[j] == s[j - 1]);
            }
        }
    } else {
        assert forall|i: int, j: int|
            0 <= i < j < s.drop_first().len() implies col_le(
            #[trigger] s.drop_first()[i],
            #[trigger] s.drop_first()[j],
        ) by {
            assert(s.drop_first()[i] == s[i + 1] && s.drop_first()[j] == s[j + 1]);
        }
        lemma_insert_col_sorted(x, s.drop_first());
        let t = insert_col(x, s.drop_first());
        let r = seq![s[0]] + t;
        assert forall|i: int, j: int| 0 <= i < j < r.len() implies col_le(r[i], r[j]) by {
            assert(r[j] == t[j - 1]);
            if i == 0 {
                assert(t.len() > 0);
                assert(col_le(t[0], t[j - 1])) by {
                    if j == 1 {
                        lemma_lex_trichotomy(t[0].0, t[0].0);
                    }
                }
                assert(t[0] == x || (s.drop_first().len() > 0 && t[0] == s.drop_first()[0]));
                lemma_lex_trichotomy(x.0, s[0].0);
                if t[0] == x {
                    assert(col_le(s[0], x));
                    lemma_col_le_trans(s[0], x, t[j - 1]);
                } else {
                    assert(col_le(s[0], s.drop_first()[0]));
                    lemma_col_le_trans(s[0], t[0], t[j - 1]);
                }
            } else {
                assert(r[i] == t[i - 1]);
            }
        }
    }
}

/// The sorted arrangement is sorted and keeps every column.
pub proof fn lemma_sort_cols_sorted(s: Seq<(Seq<u8>, u8, Seq<u8>)>)
    ensures
        sorted_cols(sort_cols(s)),
        sort_cols(s).len() == s.len(),
    decreases s.len(),
{
    if s.len() > 0 {
        lemma_sort_cols_sorted(s.drop_last());
        lemma_insert_col_sorted(s.last(), sort_cols(s.drop_last()));
    }
}


/// Every element of the sorted arrangement occurs in the input.
proof fn lemma_insert_col_contains(x: (Seq<u8>, u8, Seq<u8>), s: Seq<(Seq<u8>, u8, Seq<u8>)>)
    ensures
        forall|e: (Seq<u8>, u8, Seq<u8>)| #[trigger] insert_col(x, s).contains(e) ==> (e == x
            || s.contains(e)),
    decreases s.len(),
{
    if s.len() == 0 {
        assert forall|e: (Seq<u8>, u8, Seq<u8>)| insert_col(x, s).contains(e) implies (e == x
            || s.contains(e)) by {
            assert(insert_col(x, s) =~= seq![x]);
        }
    } else if col_lt(x, s[0]) {
        let r = seq![x] + s;
        assert forall|e: (Seq<u8>, u8, Seq<u8>)| r.contains(e) implies (e == x || s.contains(
            e,
        )) by {
            let k = choose|k: int| 0 <= k < r.len() && r[k] == e;
            if k > 0 {
                assert(s[k - 1] == e);
            }
        }
    } else {
        lemma_insert_col_contains(x, s.drop_first());
        let t = insert_col(x, s.drop_first());
        let r = seq![s[0]] + t;
        assert forall|e: (Seq<u8>, u8, Seq<u8>)| r.contains(e) implies (e == x || s.contains(
            e,
        )) by {
            let k = choose|k: int| 0 <= k < r.len() && r[k] == e;
            if k == 0 {
                assert(s[0] == e);
            } else {
                assert(t[k - 1] == e);
                assert(t.contains(e));
                if e != x {
                    assert(s.drop_first().contains(e));
                    let m = choose|m: int| 0 <= m < s.drop_first().len() && s.drop_first()[m] == e;
                    assert(s[m + 1] == e);
                }
            }
        }
    }
}

proof fn lemma_sort_cols_contains(s: Seq<(Seq<u8>, u8, Seq<u8>)>)
    ensures
        forall|e: (Seq<u8>, u8, Seq<u8>)| #[trigger] sort_cols(s).contains(e) ==> s.contains(e),
    decreases s.len(),
{
    if s.len() > 0 {
        lemma_sort_cols_contains(s.drop_last());
        lemma_insert_col_contains(s.last(), sort_cols(s.drop_last()));
        assert forall|e: (Seq<u8>, u8, Seq<u8>)| sort_cols(s).contains(e) implies s.contains(
            e,
        ) by {
            if e == s.last() {
                assert(s[s.len() - 1] == e);
            } else {
                assert(sort_cols(s.drop_last()).contains(e));
                assert(s.drop_last().contains(e));
                let k = choose|k: int| 0 <= k < s.drop_last().len() && s.drop_last()[k] == e;
                assert(s[k] == e);
            }
        }
    }
}

/// A prefix-for-prefix equal pair compares as its remainders do.
proof fn lemma_lex_skip(a: Seq<u8>, b: Seq<u8>, i: int)
    requires
        0 <= i <= a.len(),
        i <= b.len(),
        forall|k: int| 0 <= k < i ==> a[k] == b[k],
    ensures
        lex_lt(a, b) == lex_lt(a.skip(i), b.skip(i)),
    decreases i,
{
    if i > 0 {
        assert(a[0] == b[0]);
        assert(a.len() > 0 && b.len() > 0);
        assert(lex_lt(a, b) == lex_lt(a.drop_first(), b.drop_first()));
        assert(a.drop_first() =~= a.skip(1));
        assert(b.drop_first() =~= b.skip(1));
        assert forall|k: int| 0 <= k < i - 1 implies a.skip(1)[k] == b.skip(1)[k] by {
            assert(a[k + 1] == b[k + 1]);
        }
        lemma_lex_skip(a.skip(1), b.skip(1), i - 1);
        assert(a.skip(1).skip(i - 1) =~= a.skip(i));
        assert(b.skip(1).skip(i - 1) =~= b.skip(i));
    } else {
        assert(a.skip(0) =~= a);
        assert(b.skip(0) =~= b);
    }
}

/// Whether `a` comes strictly before `b` in byte order.
fn lex_lt_exec(a: &Vec<u8>, b: &Vec<u8>) -> (r: bool)
    ensures
        r == lex_lt(a@, b@),
{
    let mut i: usize = 0;
    while i < a.len() && i < b.len()
        invariant
            0 <= i <= a@.len(),
            i <= b@.len(),
            forall|k: int| 0 <= k < i ==> a@[k] == b@[k],
        decreases a@.len() - i,
    {
        if a[i] < b[i] {
            proof {
                lemma_lex_skip(a@, b@, i as int);
                assert(a@.skip(i as int)[0] == a@[i as int]);
                assert(b@.skip(i as int)[0] == b@[i as int]);
            }
            return true;
        }
        if a[i] > b[i] {
            proof {
                lemma_lex_skip(a@, b@, i as int);
                assert(a@.skip(i as int)[0] == a@[i as int]);
                assert(b@.skip(i as int)[0] == b@[i as int]);
            }
            return false;
        }
        i = i + 1;
    }
    proof {
        lemma_lex_skip(a@, b@, i as int);
    }
    a.len() < b.len()
}

/// Whether entry `a` may stay before entry `b` in the output.
fn col_le_exec(a: &(Vec<u8>, u8, Vec<u8>), b: &(Vec<u8>, u8, Vec<u8>)) -> (r: bool)
    ensures
        r == col_le((a.0@, a.1, a.2@), (b.0@, b.1, b.2@)),
{
    if lex_lt_exec(&b.0, &a.0) {
        return false;
    }
    if slices_eq(b.0.as_slice(), a.0.as_slice()) && b.1 < a.1 {
        return false;
    }
    true
}

/// Sorts the built entries by (name, kind code).
fn sort_col_entries(entries: Vec<(Vec<u8>, u8, Vec<u8>)>) -> (r: Vec<(Vec<u8>, u8, Vec<u8>)>)
    ensures
        triple_views(r@) == sort_cols(triple_views(entries@)),
        sorted_cols(triple_views(r@)),
{
    let ghost orig = triple_views(entries@);
    let mut src = entries;
    let mut r: Vec<(Vec<u8>, u8, Vec<u8>)> = Vec::new();
    let ghost i: int = 0;
    proof {
        assert(triple_views(src@) =~= orig.skip(0));
        assert(triple_views(r@) =~= sort_cols(orig.take(0)));
        lemma_sort_cols_sorted(orig.take(0));
    }
    while src.len() > 0
        invariant
            0 <= i <= orig.len(),
            triple_views(src@) == orig.skip(i),
            triple_views(r@) == sort_cols(orig.take(i)),
            sorted_cols(triple_views(r@)),
        decreases src@.len(),
    {
        let ghost src0 = src@;
        let x = src.remove(0);
        let ghost xv = (x.0@, x.1, x.2@);
        proof {
            assert(triple_views(src0).len() == src0.len());
            assert(src0.len() > 0);
            assert(orig.skip(i).len() == orig.len() - i);
            assert(i < orig.len());
            assert(triple_views(src0)[0] == xv);
            assert(orig.skip(i)[0] == orig[i]);
            assert(xv == orig[i]);
            assert(triple_views(src@) =~= triple_views(src0).drop_first());
            assert(triple_views(src0).drop_first() =~= orig.skip(i + 1));
        }
        let mut p: usize = 0;
        while p < r.len() && col_le_exec(&r[p], &x)
            invariant
                0 <= p <= r@.len(),
                forall|k: int| 0 <= k < p ==> col_le(#[trigger] triple_views(r@)[k], xv),
                xv == (x.0@, x.1, x.2@),
            decreases r@.len() - p,
        {
            proof {
                assert(triple_views(r@)[p as int] == (r@[p as int].0@, r@[p as int].1, r@[
                    p as int
                ].2@));
            }
            p = p + 1;
        }
        proof {
            if p < r.len() {
                assert(triple_views(r@)[p as int] == (r@[p as int].0@, r@[p as int].1, r@[
                    p as int
                ].2@));
            }
            lemma_insert_col_at(xv, triple_views(r@), p as int);
            lemma_insert_col_sorted(xv, triple_views(r@));
            assert(orig.take(i + 1).drop_last() =~= orig.take(i));
            assert(orig.take(i + 1).last() == orig[i]);
        }
        let ghost r0 = r@;
        r.insert(p, x);
        proof {
            assert(triple_views(r@) =~= triple_views(r0).insert(p as int, xv));
            i = i + 1;
        }
    }
    proof {
        assert(orig.take(orig.len() as int) =~= orig);
    }
    r
}

/// Builds the numerical columns' entries.
fn serialize_num_group(
    cols: &Vec<(Vec<u8>, NumericalColumnWriter)>,
    old_to_new_row_ids: Option<&Vec<u32>>,
    buffers: &mut SpareBuffers,
    entries: &mut Vec<(Vec<u8>, u8, Vec<u8>)>,
)
    requires
        forall|i: int|
            0 <= i < cols@.len() ==> {
                &&& (#[trigger] cols@[i]).0@.len() <= u32::MAX
                &&& cols@[i].1.writer.ops@.len() <= u32::MAX
                &&& (old_to_new_row_ids matches Some(m) ==> ops_within(
                    cols@[i].1.writer.ops@,
                    m@.len() as int,
                ))
            },
    ensures
        triple_views(final(entries)@) == triple_views(old(entries)@) + num_entry_views(
            cols@,
            match old_to_new_row_ids {
                Some(m) => Some(m@),
                None => None::<Seq<u32>>,
            },
        ),
{
    let ghost mv = match old_to_new_row_ids {
        Some(m) => Some(m@),
        None => None::<Seq<u32>>,
    };
    let ghost base = triple_views(entries@);
    let mut i: usize = 0;
    proof {
        assert(triple_views(entries@) =~= base + num_entry_views(cols@.take(0), mv));
    }
    while i < cols.len()
        invariant
            0 <= i <= cols@.len(),
            forall|n: int|
                0 <= n < cols@.len() ==> {
                    &&& (#[trigger] cols@[n]).0@.len() <= u32::MAX
                    &&& cols@[n].1.writer.ops@.len() <= u32::MAX
                    &&& (old_to_new_row_ids matches Some(m) ==> ops_within(
                        cols@[n].1.writer.ops@,
                        m@.len() as int,
                    ))
                },
            mv == match old_to_new_row_ids {
                Some(m) => Some(m@),
                None => None::<Seq<u32>>,
            },
            triple_views(entries@) == base + num_entry_views(cols@.take(i as int), mv),
        decreases cols@.len() - i,
    {
        proof {
            assert(cols@.take(i + 1).drop_last() =~= cols@.take(i as int));
            assert(cols@[i as int].0@.len() <= u32::MAX);
        }
        let name = to_owned_bytes(cols[i].0.as_slice());
        let w = &cols[i].1;
        let nt = w.numerical_type();
        let code: u8 = match nt {
            NumericalType::I64 => 0,
            NumericalType::U64 => 1,
        };
        let rm = w.operation_iterator(old_to_new_row_ids);
        proof {
            lemma_remap_split(w.writer.ops@, mv);
        }
        let mut body: Vec<u8> = Vec::new();
        serialize_numerical_column(w.cardinality(), nt, &rm, buffers, &mut body);
        proof {
            assert(rm@ =~= w.writer.ops@.map_values(
                |op: ColumnOperation<NumericalValue>| remap_op(op, mv),
            ));
            let rows1 = rows_of(rm@);
            let rows2 = rows_of(w.writer.ops@).map_values(|d: u32| remap_doc(d, mv));
            assert(rows1 =~= rows2);
            let vals1 = values_of(rm@).map_values(|v: NumericalValue| key_u64_spec(nt, v));
            let vals2 = values_of(w.writer.ops@).map_values(
                |v: NumericalValue| key_u64_spec(w.numerical_type_spec(), v),
            );
            assert(vals1 =~= vals2);
            assert(body@ == body_u64(rows2, vals2));
        }
        let ghost before = triple_views(entries@);
        entries.push((name, code, body));
        proof {
            assert(triple_views(entries@) =~= before.push(
                (cols@[i as int].0@, num_code(cols@[i as int].1.numerical_type_spec()), body@),
            ));
            assert(triple_views(entries@) =~= base + num_entry_views(cols@.take(i + 1), mv));
        }
        i = i + 1;
    }
    proof {
        assert(cols@.take(cols@.len() as int) =~= cols@);
    }
}

/// Builds the bool or datetime columns' entries: the bool group when
/// `as_bool`, else the datetime group.
fn serialize_cw_group(
    cols: &Vec<(Vec<u8>, ColumnWriter)>,
    as_bool: bool,
    old_to_new_row_ids: Option<&Vec<u32>>,
    buffers: &mut SpareBuffers,
    entries: &mut Vec<(Vec<u8>, u8, Vec<u8>)>,
)
    requires
        forall|i: int|
            0 <= i < cols@.len() ==> {
                &&& (#[trigger] cols@[i]).0@.len() <= u32::MAX
                &&& cols@[i].1.ops@.len() <= u32::MAX
                &&& (old_to_new_row_ids matches Some(m) ==> ops_within(
                    cols@[i].1.ops@,
                    m@.len() as int,
                ))
            },
    ensures
        triple_views(final(entries)@) == triple_views(old(entries)@) + cw_entry_views(
            cols@,
            if as_bool {
                2u8
            } else {
                3u8
            },
            if as_bool {
                NumericalType::U64
            } else {
                NumericalType::I64
            },
            match old_to_new_row_ids {
                Some(m) => Some(m@),
                None => None::<Seq<u32>>,
            },
        ),
{
    let ghost mv = match old_to_new_row_ids {
        Some(m) => Some(m@),
        None => None::<Seq<u32>>,
    };
    let code: u8 = if as_bool {
        2
    } else {
        3
    };
    let nt = if as_bool {
        NumericalType::U64
    } else {
        NumericalType::I64
    };
    let ghost base = triple_views(entries@);
    let mut i: usize = 0;
    proof {
        assert(triple_views(entries@) =~= base + cw_entry_views(cols@.take(0), code, nt, mv));
    }
    while i < cols.len()
        invariant
            0 <= i <= cols@.len(),
            forall|n: int|
                0 <= n < cols@.len() ==> {
                    &&& (#[trigger] cols@[n]).0@.len() <= u32::MAX
                    &&& cols@[n].1.ops@.len() <= u32::MAX
                    &&& (old_to_new_row_ids matches Some(m) ==> ops_within(
                        cols@[n].1.ops@,
                        m@.len() as int,
                    ))
                },
            mv == match old_to_new_row_ids {
                Some(m) => Some(m@),
                None => None::<Seq<u32>>,
            },
            code == if as_bool {
                2u8
            } else {
                3u8
            },
            nt == if as_bool {
                NumericalType::U64
            } else {
                NumericalType::I64
            },
            triple_views(entries@) == base + cw_entry_views(cols@.take(i as int), code, nt, mv),
        decreases cols@.len() - i,
    {
        proof {
            assert(cols@.take(i + 1).drop_last() =~= cols@.take(i as int));
            assert(cols@[i as int].0@.len() <= u32::MAX);
        }
        let name = to_owned_bytes(cols[i].0.as_slice());
        let w = &cols[i].1;
        let rm = w.operation_iterator(old_to_new_row_ids);
        proof {
            lemma_remap_split(w.ops@, mv);
        }
        let mut body: Vec<u8> = Vec::new();
        serialize_numerical_column(w.get_cardinality(), nt, &rm, buffers, &mut body);
        proof {
            assert(rm@ =~= w.ops@.map_values(
                |op: ColumnOperation<NumericalValue>| remap_op(op, mv),
            ));
            let rows1 = rows_of(rm@);
            let rows2 = rows_of(w.ops@).map_values(|d: u32| remap_doc(d, mv));
            assert(rows1 =~= rows2);
            let vals1 = values_of(rm@).map_values(|v: NumericalValue| key_u64_spec(nt, v));
            let vals2 = values_of(w.ops@).map_values(|v: NumericalValue| key_u64_spec(nt, v));
            assert(vals1 =~= vals2);
            assert(body@ == body_u64(rows2, vals2));
        }
        let ghost before = triple_views(entries@);
        entries.push((name, code, body));
        proof {
            assert(triple_views(entries@) =~= before.push((cols@[i as int].0@, code, body@)));
            assert(triple_views(entries@) =~= base + cw_entry_views(
                cols@.take(i + 1),
                code,
                nt,
                mv,
            ));
        }
        i = i + 1;
    }
    proof {
        assert(cols@.take(cols@.len() as int) =~= cols@);
    }
}

/// Builds the bytes columns' entries.
fn serialize_bytes_group(
    cols: &Vec<(Vec<u8>, StrOrBytesColumnWriter)>,
    old_to_new_row_ids: Option<&Vec<u32>>,
    entries: &mut Vec<(Vec<u8>, u8, Vec<u8>)>,
)
    requires
        forall|i: int|
            0 <= i < cols@.len() ==> {
                &&& (#[trigger] cols@[i]).0@.len() <= u32::MAX
                &&& cols@[i].1.ops@.len() <= u32::MAX
                &&& bytes_vals_fit(cols@[i].1.ops@)
                &&& (old_to_new_row_ids matches Some(m) ==> ops_within(
                    cols@[i].1.ops@,
                    m@.len() as int,
                ))
            },
    ensures
        triple_views(final(entries)@) == triple_views(old(entries)@) + bytes_entry_views(
            cols@,
            match old_to_new_row_ids {
                Some(m) => Some(m@),
                None => None::<Seq<u32>>,
            },
        ),
{
    let ghost mv = match old_to_new_row_ids {
        Some(m) => Some(m@),
        None => None::<Seq<u32>>,
    };
    let ghost base = triple_views(entries@);
    let mut i: usize = 0;
    proof {
        assert(triple_views(entries@) =~= base + bytes_entry_views(cols@.take(0), mv));
    }
    while i < cols.len()
        invariant
            0 <= i <= cols@.len(),
            forall|n: int|
                0 <= n < cols@.len() ==> {
                    &&& (#[trigger] cols@[n]).0@.len() <= u32::MAX
                    &&& cols@[n].1.ops@.len() <= u32::MAX
                    &&& bytes_vals_fit(cols@[n].1.ops@)
                    &&& (old_to_new_row_ids matches Some(m) ==> ops_within(
                        cols@[n].1.ops@,
                        m@.len() as int,
                    ))
                },
            mv == match old_to_new_row_ids {
                Some(m) => Some(m@),
                None => None::<Seq<u32>>,
            },
            triple_views(entries@) == base + bytes_entry_views(cols@.take(i as int), mv),
        decreases cols@.len() - i,
    {
        proof {
            assert(cols@.take(i + 1).drop_last() =~= cols@.take(i as int));
            assert(cols@[i as int].0@.len() <= u32::MAX);
        }
        let name = to_owned_bytes(cols[i].0.as_slice());
        let w = &cols[i].1;
        let mut body: Vec<u8> = Vec::new();
        serialize_bytes_or_str_column(w.get_cardinality(), &w.ops, old_to_new_row_ids, &mut body);
        proof {
            assert(rows_of(w.ops@).map_values(
                |d: u32|
                    remap_doc(
                        d,
                        match old_to_new_row_ids {
                            Some(m) => Some(m@),
                            None => None::<Seq<u32>>,
                        },
                    ),
            ) =~= rows_of(w.ops@).map_values(|d: u32| remap_doc(d, mv)));
            assert(body@ == body_bytes(
                rows_of(w.ops@).map_values(|d: u32| remap_doc(d, mv)),
                values_of(w.ops@),
            ));
        }
        let ghost before = triple_views(entries@);
        entries.push((name, 4u8, body));
        proof {
            assert(triple_views(entries@) =~= before.push((cols@[i as int].0@, 4u8, body@)));
            assert(triple_views(entries@) =~= base + bytes_entry_views(cols@.take(i + 1), mv));
        }
        i = i + 1;
    }
    proof {
        assert(cols@.take(cols@.len() as int) =~= cols@);
    }
}

/// Every entry's name fits its length prefix.
pub open spec fn entries_bounded(s: Seq<(Seq<u8>, u8, Seq<u8>)>) -> bool {
    forall|k: int| 0 <= k < s.len() ==> (#[trigger] s[k]).0.len() <= u32::MAX
}

proof fn lemma_num_entry_views_bounded(cols: Seq<(Vec<u8>, NumericalColumnWriter)>, mv: Option<
    Seq<u32>,
>)
    requires
        forall|i: int| 0 <= i < cols.len() ==> (#[trigger] cols[i]).0@.len() <= u32::MAX,
    ensures
        entries_bounded(num_entry_views(cols, mv)),
    decreases cols.len(),
{
    if cols.len() > 0 {
        assert forall|i: int|
            0 <= i < cols.drop_last().len() implies (#[trigger] cols.drop_last()[i]).0@.len()
            <= u32::MAX by {
            assert(cols.drop_last()[i] == cols[i]);
        }
        lemma_num_entry_views_bounded(cols.drop_last(), mv);
        assert(cols[cols.len() - 1].0@.len() <= u32::MAX);
    }
}

proof fn lemma_cw_entry_views_bounded(
    cols: Seq<(Vec<u8>, ColumnWriter)>,
    code: u8,
    nt: NumericalType,
    mv: Option<Seq<u32>>,
)
    requires
        forall|i: int| 0 <= i < cols.len() ==> (#[trigger] cols[i]).0@.len() <= u32::MAX,
    ensures
        entries_bounded(cw_entry_views(cols, code, nt, mv)),
    decreases cols.len(),
{
    if cols.len() > 0 {
        assert forall|i: int|
            0 <= i < cols.drop_last().len() implies (#[trigger] cols.drop_last()[i]).0@.len()
            <= u32::MAX by {
            assert(cols.drop_last()[i] == cols[i]);
        }
        lemma_cw_entry_views_bounded(cols.drop_last(), code, nt, mv);
        assert(cols[cols.len() - 1].0@.len() <= u32::MAX);
    }
}

proof fn lemma_bytes_entry_views_bounded(cols: Seq<(Vec<u8>, StrOrBytesColumnWriter)>, mv: Option<
    Seq<u32>,
>)
    requires
        forall|i: int| 0 <= i < cols.len() ==> (#[trigger] cols[i]).0@.len() <= u32::MAX,
    ensures
        entries_bounded(bytes_entry_views(cols, mv)),
    decreases cols.len(),
{
    if cols.len() > 0 {
        assert forall|i: int|
            0 <= i < cols.drop_last().len() implies (#[trigger] cols.drop_last()[i]).0@.len()
            <= u32::MAX by {
            assert(cols.drop_last()[i] == cols[i]);
        }
        lemma_bytes_entry_views_bounded(cols.drop_last(), mv);
        assert(cols[cols.len() - 1].0@.len() <= u32::MAX);
    }
}

impl ColumnarWriter {
    /// Serializes every column into `wrt`, sorted by (name, kind code) as
    /// the output format fixes, remapping row ids through
    /// `old_to_new_row_ids` when a mapping is given.
    pub fn serialize(&self, num_docs: u32, old_to_new_row_ids: Option<&Vec<u32>>, wrt: &mut Vec<
        u8,
    >)
        requires
            self.serializable(
                match old_to_new_row_ids {
                    Some(m) => Some(m@),
                    None => None::<Seq<u32>>,
                },
            ),
        ensures
            final(wrt)@ == old(wrt)@ + self.enc_columnar(
                num_docs,
                match old_to_new_row_ids {
                    Some(m) => Some(m@),
                    None => None::<Seq<u32>>,
                },
            ),
    {
        let ghost mv = match old_to_new_row_ids {
            Some(m) => Some(m@),
            None => None::<Seq<u32>>,
        };
        let mut buffers = SpareBuffers { index_builder: IndexBuilder::new(), u64_values: Vec::new() };
        let mut entries: Vec<(Vec<u8>, u8, Vec<u8>)> = Vec::new();
        serialize_num_group(&self.numerical_columns, old_to_new_row_ids, &mut buffers, &mut entries);
        serialize_bytes_group(&self.bytes_columns, old_to_new_row_ids, &mut entries);
        serialize_cw_group(&self.bool_columns, true, old_to_new_row_ids, &mut buffers, &mut entries);
        serialize_cw_group(&self.datetime_columns, false, old_to_new_row_ids, &mut buffers, &mut entries);
        proof {
            assert(triple_views(entries@) =~= self.entry_views(mv));
            lemma_num_entry_views_bounded(self.numerical_columns@, mv);
            lemma_bytes_entry_views_bounded(self.bytes_columns@, mv);
            lemma_cw_entry_views_bounded(self.bool_columns@, 2u8, NumericalType::U64, mv);
            lemma_cw_entry_views_bounded(self.datetime_columns@, 3u8, NumericalType::I64, mv);
            assert(entries_bounded(self.entry_views(mv)));
            lemma_sort_cols_contains(self.entry_views(mv));
            lemma_sort_cols_sorted(self.entry_views(mv));
            assert forall|k: int|
                0 <= k < sort_cols(self.entry_views(mv)).len() implies (#[trigger] sort_cols(
                self.entry_views(mv),
            )[k]).0.len() <= u32::MAX by {
                assert(sort_cols(self.entry_views(mv)).contains(
                    sort_cols(self.entry_views(mv))[k],
                ));
                let j = choose|j: int|
                    0 <= j < self.entry_views(mv).len() && self.entry_views(mv)[j] == sort_cols(
                        self.entry_views(mv),
                    )[k];
                assert((#[trigger] self.entry_views(mv)[j]).0.len() <= u32::MAX);
            }
            assert(entries_bounded(sort_cols(self.entry_views(mv))));
        }
        let sorted = sort_col_entries(entries);
        let ghost sv = sort_cols(self.entry_views(mv));
        let ghost base = wrt@;
        let mut i: usize = 0;
        proof {
            assert(enc_entries(sv.take(0)) =~= Seq::<u8>::empty());
            assert(wrt@ =~= base + enc_entries(sv.take(0)));
        }
        while i < sorted.len()
            invariant
                0 <= i <= sorted@.len(),
                triple_views(sorted@) == sv,
                entries_bounded(sv),
                wrt@ == base + enc_entries(sv.take(i as int)),
            decreases sorted@.len() - i,
        {
            proof {
                assert(sv.take(i + 1).drop_last() =~= sv.take(i as int));
                assert(triple_views(sorted@)[i as int] == (sorted@[i as int].0@, sorted@[
                    i as int
                ].1, sorted@[i as int].2@));
                assert((#[trigger] sv[i as int]).0.len() <= u32::MAX);
            }
            let e = &sorted[i];
            wrt.push(e.1);
            push_u32(wrt, e.0.len() as u32);
            push_bytes(wrt, e.0.as_slice());
            push_bytes(wrt, e.2.as_slice());
            proof {
                assert(wrt@ =~= base + enc_entries(sv.take(i + 1)));
            }
            i = i + 1;
        }
        proof {
            assert(sv.take(sv.len() as int) =~= sv);
        }
        push_u32(wrt, num_docs);
        proof {
            assert(wrt@ =~= old(wrt)@ + self.enc_columnar(num_docs, mv));
        }
    }
}

} // verus!
