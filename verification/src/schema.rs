//! Tables, columns, indexes and foreign keys.

use crate::bytes::same_text;
use crate::model::{self, copy_all, same_all, Comparable};
use crate::order::Datum;
use crate::value::{ColumnType, Value, ValueView};
use vstd::prelude::*;

verus! {

/// The name under which a record's primary key is read.
pub const ID_COLUMN: &'static str = "id";

pub open spec fn id_name() -> Seq<char> {
    "id"@
}

#[derive(Debug, Clone, Copy, PartialEq, Eq, Structural)]
pub enum VectorMetric {
    Cosine,
    Dot,
    L2,
}

/// When a committed vector becomes searchable.
#[derive(Debug, Clone, Copy, PartialEq, Eq, Structural)]
pub enum IndexingMode {
    Sync,
    Async,
}

/// What deleting a referenced record does.
#[derive(Debug, Clone, Copy, PartialEq, Eq, Structural)]
pub enum ReferentialAction {
    Restrict,
    Cascade,
}

#[derive(Debug)]
pub struct Column {
    pub name: String,
    pub ty: ColumnType,
    pub nullable: bool,
    /// What an omitted column takes; none means null.
    pub default: Option<Value>,
    /// The number of components of a vector column.
    pub dim: Option<usize>,
    /// Whether the engine assigns increasing integers to the column.
    pub identity: bool,
}

#[derive(Debug)]
pub struct IndexDef {
    pub column: String,
    pub unique: bool,
}

#[derive(Debug)]
pub struct VectorIndexDef {
    pub column: String,
    pub metric: VectorMetric,
    pub m: usize,
    pub ef_construction: usize,
    pub mode: IndexingMode,
    pub quantized: bool,
}

#[derive(Debug)]
pub struct TextIndexDef {
    pub column: String,
}

#[derive(Debug)]
pub struct ForeignKey {
    pub column: String,
    pub referenced_table: String,
    pub referenced_column: String,
    pub on_delete: ReferentialAction,
}

#[derive(Debug)]
pub struct TableSchema {
    pub name: String,
    pub columns: Vec<Column>,
    pub indexes: Vec<IndexDef>,
    pub vector_indexes: Vec<VectorIndexDef>,
    pub text_indexes: Vec<TextIndexDef>,
    pub foreign_keys: Vec<ForeignKey>,
    /// Versions up to this one belong to an earlier table of the same name.
    pub epoch: u64,
    /// Whether the primary key stands beside the declared columns.
    pub implicit_id: bool,
}

#[derive(Debug)]
pub struct Catalog {
    pub tables: Vec<TableSchema>,
}

#[verifier::ext_equal]
pub struct ColumnView {
    pub name: Seq<char>,
    pub ty: ColumnType,
    pub nullable: bool,
    pub default: Option<ValueView>,
    pub dim: Option<usize>,
    pub identity: bool,
}

#[verifier::ext_equal]
pub struct IndexView {
    pub column: Seq<char>,
    pub unique: bool,
}

#[verifier::ext_equal]
pub struct VectorIndexView {
    pub column: Seq<char>,
    pub metric: VectorMetric,
    pub m: usize,
    pub ef_construction: usize,
    pub mode: IndexingMode,
    pub quantized: bool,
}

#[verifier::ext_equal]
pub struct TextIndexView {
    pub column: Seq<char>,
}

#[verifier::ext_equal]
pub struct ForeignKeyView {
    pub column: Seq<char>,
    pub referenced_table: Seq<char>,
    pub referenced_column: Seq<char>,
    pub on_delete: ReferentialAction,
}

#[verifier::ext_equal]
pub struct TableView {
    pub name: Seq<char>,
    pub columns: Seq<ColumnView>,
    pub indexes: Seq<IndexView>,
    pub vector_indexes: Seq<VectorIndexView>,
    pub text_indexes: Seq<TextIndexView>,
    pub foreign_keys: Seq<ForeignKeyView>,
    pub epoch: u64,
    pub implicit_id: bool,
}

pub open spec fn value_view(v: Option<Value>) -> Option<ValueView> {
    match v {
        Some(v) => Some(v@),
        None => None,
    }
}

impl View for Column {
    type V = ColumnView;

    open spec fn view(&self) -> ColumnView {
        ColumnView {
            name: self.name@,
            ty: self.ty,
            nullable: self.nullable,
            default: value_view(self.default),
            dim: self.dim,
            identity: self.identity,
        }
    }
}

impl View for IndexDef {
    type V = IndexView;

    open spec fn view(&self) -> IndexView {
        IndexView { column: self.column@, unique: self.unique }
    }
}

impl View for VectorIndexDef {
    type V = VectorIndexView;

    open spec fn view(&self) -> VectorIndexView {
        VectorIndexView {
            column: self.column@,
            metric: self.metric,
            m: self.m,
            ef_construction: self.ef_construction,
            mode: self.mode,
            quantized: self.quantized,
        }
    }
}

impl View for TextIndexDef {
    type V = TextIndexView;

    open spec fn view(&self) -> TextIndexView {
        TextIndexView { column: self.column@ }
    }
}

impl View for ForeignKey {
    type V = ForeignKeyView;

    open spec fn view(&self) -> ForeignKeyView {
        ForeignKeyView {
            column: self.column@,
            referenced_table: self.referenced_table@,
            referenced_column: self.referenced_column@,
            on_delete: self.on_delete,
        }
    }
}

impl View for TableSchema {
    type V = TableView;

    open spec fn view(&self) -> TableView {
        TableView {
            name: self.name@,
            columns: model::views(self.columns@),
            indexes: model::views(self.indexes@),
            vector_indexes: model::views(self.vector_indexes@),
            text_indexes: model::views(self.text_indexes@),
            foreign_keys: model::views(self.foreign_keys@),
            epoch: self.epoch,
            implicit_id: self.implicit_id,
        }
    }
}

impl View for Catalog {
    type V = Seq<TableView>;

    open spec fn view(&self) -> Seq<TableView> {
        model::views(self.tables@)
    }
}

fn same_components(x: &Vec<u32>, y: &Vec<u32>) -> (r: bool)
    ensures
        r == (x@ == y@),
{
    if x.len() != y.len() {
        return false;
    }
    let mut i: usize = 0;
    while i < x.len()
        invariant
            i <= x@.len() == y@.len(),
            forall|j: int| 0 <= j < i ==> x@[j] == y@[j],
        decreases x@.len() - i,
    {
        if x[i] != y[i] {
            return false;
        }
        i = i + 1;
    }
    assert(x@ =~= y@);
    true
}

impl Comparable for Value {
    /// Whether two values are the same, bit for bit.
    fn same(&self, other: &Self) -> (r: bool) {
        match (self, other) {
            (Value::Float64(x), Value::Float64(y)) => *x == *y,
            (Value::Vector(x), Value::Vector(y)) => same_components(x, y),
            _ => crate::value::same_value(self, other),
        }
    }
}

impl Datum for Column {
    open spec fn valid(&self) -> bool {
        true
    }

    fn duplicate(&self) -> (r: Self) {
        let default = match &self.default {
            Some(v) => Some(v.duplicate()),
            None => None,
        };
        Column {
            name: self.name.clone(),
            ty: self.ty,
            nullable: self.nullable,
            default,
            dim: self.dim,
            identity: self.identity,
        }
    }
}

impl Comparable for Column {
    fn same(&self, other: &Self) -> (r: bool) {
        let defaults: bool = match (&self.default, &other.default) {
            (Some(a), Some(b)) => a.same(b),
            (None, None) => true,
            _ => false,
        };
        let dims: bool = match (self.dim, other.dim) {
            (Some(a), Some(b)) => a == b,
            (None, None) => true,
            _ => false,
        };
        same_text(self.name.as_str(), other.name.as_str()) && self.ty == other.ty && self.nullable == other.nullable && defaults
            && dims && self.identity == other.identity
    }
}

impl Datum for IndexDef {
    open spec fn valid(&self) -> bool {
        true
    }

    fn duplicate(&self) -> (r: Self) {
        IndexDef { column: self.column.clone(), unique: self.unique }
    }
}

impl Comparable for IndexDef {
    fn same(&self, other: &Self) -> (r: bool) {
        same_text(self.column.as_str(), other.column.as_str()) && self.unique == other.unique
    }
}

impl Datum for VectorIndexDef {
    open spec fn valid(&self) -> bool {
        true
    }

    fn duplicate(&self) -> (r: Self) {
        VectorIndexDef {
            column: self.column.clone(),
            metric: self.metric,
            m: self.m,
            ef_construction: self.ef_construction,
            mode: self.mode,
            quantized: self.quantized,
        }
    }
}

impl Comparable for VectorIndexDef {
    fn same(&self, other: &Self) -> (r: bool) {
        same_text(self.column.as_str(), other.column.as_str()) && self.metric == other.metric && self.m == other.m
            && self.ef_construction == other.ef_construction && self.mode == other.mode && self.quantized == other.quantized
    }
}

impl Datum for TextIndexDef {
    open spec fn valid(&self) -> bool {
        true
    }

    fn duplicate(&self) -> (r: Self) {
        TextIndexDef { column: self.column.clone() }
    }
}

impl Comparable for TextIndexDef {
    fn same(&self, other: &Self) -> (r: bool) {
        same_text(self.column.as_str(), other.column.as_str())
    }
}

impl Datum for ForeignKey {
    open spec fn valid(&self) -> bool {
        true
    }

    fn duplicate(&self) -> (r: Self) {
        ForeignKey {
            column: self.column.clone(),
            referenced_table: self.referenced_table.clone(),
            referenced_column: self.referenced_column.clone(),
            on_delete: self.on_delete,
        }
    }
}

impl Comparable for ForeignKey {
    fn same(&self, other: &Self) -> (r: bool) {
        same_text(self.column.as_str(), other.column.as_str()) && same_text(
            self.referenced_table.as_str(),
            other.referenced_table.as_str(),
        ) && same_text(self.referenced_column.as_str(), other.referenced_column.as_str()) && self.on_delete == other.on_delete
    }
}

impl Datum for TableSchema {
    open spec fn valid(&self) -> bool {
        true
    }

    fn duplicate(&self) -> (r: Self) {
        TableSchema {
            name: self.name.clone(),
            columns: copy_all(&self.columns),
            indexes: copy_all(&self.indexes),
            vector_indexes: copy_all(&self.vector_indexes),
            text_indexes: copy_all(&self.text_indexes),
            foreign_keys: copy_all(&self.foreign_keys),
            epoch: self.epoch,
            implicit_id: self.implicit_id,
        }
    }
}

impl Comparable for TableSchema {
    fn same(&self, other: &Self) -> (r: bool) {
        same_text(self.name.as_str(), other.name.as_str()) && same_all(&self.columns, &other.columns) && same_all(
            &self.indexes,
            &other.indexes,
        ) && same_all(&self.vector_indexes, &other.vector_indexes) && same_all(&self.text_indexes, &other.text_indexes)
            && same_all(&self.foreign_keys, &other.foreign_keys) && self.epoch == other.epoch && self.implicit_id
            == other.implicit_id
    }
}

impl Datum for Catalog {
    open spec fn valid(&self) -> bool {
        true
    }

    fn duplicate(&self) -> (r: Self) {
        Catalog { tables: copy_all(&self.tables) }
    }
}

pub open spec fn table_names(tables: Seq<TableView>) -> Seq<Seq<char>> {
    Seq::new(tables.len(), |i: int| tables[i].name)
}

pub open spec fn column_names(columns: Seq<ColumnView>) -> Seq<Seq<char>> {
    Seq::new(columns.len(), |i: int| columns[i].name)
}

/// The table of a name, if the catalog has one.
pub open spec fn table_of(tables: Seq<TableView>, name: Seq<char>) -> Option<TableView> {
    match model::find(table_names(tables), name) {
        Some(i) => Some(tables[i]),
        None => None,
    }
}

/// The column of a name, if the table has one.
pub open spec fn column_of(columns: Seq<ColumnView>, name: Seq<char>) -> Option<ColumnView> {
    match model::find(column_names(columns), name) {
        Some(i) => Some(columns[i]),
        None => None,
    }
}

impl TableView {
    /// Whether a secondary, text or vector index follows the table.
    pub open spec fn has_derived(self) -> bool {
        self.indexes.len() > 0 || self.text_indexes.len() > 0 || self.vector_indexes.len() > 0
    }
}

impl Column {
    /// A column that may be null and has no default.
    pub fn new(name: &str, ty: ColumnType) -> (r: Column)
        ensures
            r@ == (ColumnView { name: name@, ty, nullable: true, default: None, dim: None, identity: false }),
    {
        Column { name: name.to_owned(), ty, nullable: true, default: None, dim: None, identity: false }
    }

    /// The column, with nulls refused.
    pub fn not_null(self) -> (r: Column)
        ensures
            r@ == (ColumnView { nullable: false, ..self@ }),
    {
        Column {
            name: self.name,
            ty: self.ty,
            nullable: false,
            default: self.default,
            dim: self.dim,
            identity: self.identity,
        }
    }

    /// What the column takes when it is omitted.
    pub fn default_value(&self) -> (r: Value)
        ensures
            r@ == default_of(self@),
    {
        match &self.default {
            Some(v) => v.duplicate(),
            None => Value::Null,
        }
    }
}

pub open spec fn default_of(c: ColumnView) -> ValueView {
    match c.default {
        Some(v) => v,
        None => ValueView::Null,
    }
}

impl TableSchema {
    /// A table of a name and columns, with a primary key beside them.
    pub fn new(name: &str, columns: Vec<Column>) -> (r: TableSchema)
        ensures
            r@ == (TableView {
                name: name@,
                columns: model::views(columns@),
                indexes: Seq::empty(),
                vector_indexes: Seq::empty(),
                text_indexes: Seq::empty(),
                foreign_keys: Seq::empty(),
                epoch: 0,
                implicit_id: true,
            }),
    {
        let r = TableSchema {
            name: name.to_owned(),
            columns,
            indexes: Vec::new(),
            vector_indexes: Vec::new(),
            text_indexes: Vec::new(),
            foreign_keys: Vec::new(),
            epoch: 0,
            implicit_id: true,
        };
        assert(r@.indexes =~= Seq::empty());
        assert(r@.vector_indexes =~= Seq::empty());
        assert(r@.text_indexes =~= Seq::empty());
        assert(r@.foreign_keys =~= Seq::empty());
        r
    }

    /// The position of a column.
    pub fn column_position(&self, name: &str) -> (r: Option<usize>)
        ensures
            r is Some <==> model::find(column_names(self@.columns), name@) is Some,
            r matches Some(i) ==> model::find(column_names(self@.columns), name@) == Some(i as int) && i < self.columns@.len(),
    {
        let ghost names = column_names(self@.columns);
        let mut i: usize = 0;
        while i < self.columns.len()
            invariant
                i <= self.columns@.len(),
                names == column_names(self@.columns),
                forall|j: int| 0 <= j < i ==> names[j] != name@,
            decreases self.columns@.len() - i,
        {
            assert(names[i as int] == self.columns@[i as int].name@);
            if same_text(self.columns[i].name.as_str(), name) {
                proof {
                    model::lemma_find_is(names, name@, i as int);
                }
                return Some(i);
            }
            i = i + 1;
        }
        proof {
            model::lemma_find_none(names, name@);
        }
        None
    }

    /// The column of a name.
    pub fn column(&self, name: &str) -> (r: Option<&Column>)
        ensures
            r is Some <==> column_of(self@.columns, name@) is Some,
            r matches Some(c) ==> Some(c@) == column_of(self@.columns, name@),
    {
        match self.column_position(name) {
            Some(i) => Some(&self.columns[i]),
            None => None,
        }
    }

    /// Whether the primary key stands beside the declared columns.
    pub fn has_implicit_id(&self) -> (r: bool)
        ensures
            r == self@.implicit_id,
    {
        self.implicit_id
    }

    /// Whether a secondary, text or vector index follows the table.
    pub fn has_derived_indexes(&self) -> (r: bool)
        ensures
            r == self@.has_derived(),
    {
        self.indexes.len() > 0 || self.text_indexes.len() > 0 || self.vector_indexes.len() > 0
    }
}

impl Catalog {
    /// A catalog without tables.
    pub fn new() -> (r: Catalog)
        ensures
            r@ == Seq::<TableView>::empty(),
    {
        let r = Catalog { tables: Vec::new() };
        assert(r@ =~= Seq::<TableView>::empty());
        r
    }

    /// The position of a table.
    pub fn table_position(&self, name: &str) -> (r: Option<usize>)
        ensures
            r is Some <==> model::find(table_names(self@), name@) is Some,
            r matches Some(i) ==> model::find(table_names(self@), name@) == Some(i as int) && i < self.tables@.len(),
    {
        let ghost names = table_names(self@);
        let mut i: usize = 0;
        while i < self.tables.len()
            invariant
                i <= self.tables@.len(),
                names == table_names(self@),
                forall|j: int| 0 <= j < i ==> names[j] != name@,
            decreases self.tables@.len() - i,
        {
            assert(names[i as int] == self.tables@[i as int].name@);
            if same_text(self.tables[i].name.as_str(), name) {
                proof {
                    model::lemma_find_is(names, name@, i as int);
                }
                return Some(i);
            }
            i = i + 1;
        }
        proof {
            model::lemma_find_none(names, name@);
        }
        None
    }

    /// The table of a name.
    pub fn table(&self, name: &str) -> (r: Option<&TableSchema>)
        ensures
            r is Some <==> table_of(self@, name@) is Some,
            r matches Some(t) ==> Some(t@) == table_of(self@, name@),
    {
        match self.table_position(name) {
            Some(i) => Some(&self.tables[i]),
            None => None,
        }
    }
}

} // verus!
