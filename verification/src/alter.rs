//! Changing the columns and the names of tables.

use crate::bytes::same_text;
use crate::catalog::{self, dotted, dotted_text};
use crate::cow::{self, CowMap};
use crate::ddl::{DdlIntent, Rewrite, RewriteView};
use crate::derived;
use crate::error::{error_of, invalid, table_not_found, Error, ErrorView};
use crate::find::{self, fault_view};
use crate::manifest::Manifest;
use crate::model;
use crate::order::{Datum, OrderedKey};
use crate::pairs;
use crate::payload::{self, encoded_column_needs_fill};
use crate::reads;
use crate::record::{Record, RecordView};
use crate::schema::{self, Catalog, Column, ColumnView, TableView};
use crate::segment::{self, payload_bytes};
use crate::state::{Mark, State};
use crate::txn::{self, Txn, TxnView};
use crate::visit::{Group, GroupView, Walk};
use vstd::prelude::*;
use vstd::string::*;
use vstd::utf8::*;

verus! {

// ---- What is asked for ------------------------------------------------------

/// What a change of a table's columns or names comes to: nothing to do, a new
/// catalog at once, or a change that is recorded and carried out in steps.
pub enum AlterPlan {
    Nothing,
    Publish(Catalog),
    Carry(DdlIntent),
}

/// A change with its names as character sequences.
#[verifier::ext_equal]
#[allow(inconsistent_fields)]
pub enum IntentView {
    RenameTable { table: Seq<char>, to: Seq<char> },
    RenameColumn { table: Seq<char>, column: Seq<char>, to: Seq<char> },
    DropColumn { table: Seq<char>, column: Seq<char> },
    AddColumn { table: Seq<char>, column: ColumnView, not_null: bool },
}

impl View for DdlIntent {
    type V = IntentView;

    open spec fn view(&self) -> IntentView {
        match *self {
            DdlIntent::RenameTable { table, to } => IntentView::RenameTable { table: table@, to: to@ },
            DdlIntent::RenameColumn { table, column, to } => IntentView::RenameColumn { table: table@, column: column@, to: to@ },
            DdlIntent::DropColumn { table, column } => IntentView::DropColumn { table: table@, column: column@ },
            DdlIntent::AddColumn { table, column, not_null } => IntentView::AddColumn { table: table@, column: column@, not_null },
        }
    }
}

#[verifier::ext_equal]
pub enum PlanView {
    Nothing,
    Publish(Seq<TableView>),
    Carry(IntentView),
}

impl View for AlterPlan {
    type V = PlanView;

    open spec fn view(&self) -> PlanView {
        match *self {
            AlterPlan::Nothing => PlanView::Nothing,
            AlterPlan::Publish(c) => PlanView::Publish(c@),
            AlterPlan::Carry(i) => PlanView::Carry(i@),
        }
    }
}

pub open spec fn planned(r: Result<AlterPlan, Error>) -> Result<PlanView, ErrorView> {
    match r {
        Ok(p) => Ok(p@),
        Err(e) => Err(e@),
    }
}

/// What dropping a column comes to.
pub open spec fn drop_column_plan(st: &State, read_only: bool, table: Seq<char>, column: Seq<char>) -> Result<PlanView, ErrorView> {
    if read_only {
        Err(ErrorView::ReadOnly)
    } else {
        match st.table_view(table) {
            None => Err(ErrorView::TableNotFound(table)),
            Some(t) => if schema::column_of(t.columns, column) is None {
                Err(ErrorView::ColumnNotFound { table, column })
            } else if t.columns.len() == 1 {
                Err(
                    ErrorView::InvalidArgument(column + " is the only column of "@ + table + "; drop the table instead"@),
                )
            } else {
                Ok(PlanView::Carry(IntentView::DropColumn { table, column }))
            },
        }
    }
}

/// What renaming a table comes to.
pub open spec fn rename_table_plan(st: &State, read_only: bool, table: Seq<char>, to: Seq<char>) -> Result<PlanView, ErrorView> {
    if read_only {
        Err(ErrorView::ReadOnly)
    } else if st.table_view(table) is None {
        Err(ErrorView::TableNotFound(table))
    } else if to.len() == 0 {
        Err(ErrorView::InvalidArgument("table name must not be empty"@))
    } else if to == table {
        Ok(PlanView::Nothing)
    } else if st.table_view(to) is Some {
        Err(ErrorView::TableExists(to))
    } else {
        Ok(PlanView::Carry(IntentView::RenameTable { table, to }))
    }
}

/// What renaming a column comes to.
pub open spec fn rename_column_plan(st: &State, read_only: bool, table: Seq<char>, column: Seq<char>, to: Seq<char>) -> Result<
    PlanView,
    ErrorView,
> {
    if read_only {
        Err(ErrorView::ReadOnly)
    } else {
        match st.table_view(table) {
            None => Err(ErrorView::TableNotFound(table)),
            Some(t) => if schema::column_of(t.columns, column) is None {
                Err(ErrorView::ColumnNotFound { table, column })
            } else if to == column {
                Ok(PlanView::Nothing)
            } else if to.len() == 0 {
                Err(ErrorView::InvalidArgument("column name must not be empty"@))
            } else if to == schema::id_name() {
                Err(
                    ErrorView::InvalidArgument(
                        "column name '"@ + schema::id_name() + "' is reserved for the implicit primary key"@,
                    ),
                )
            } else if schema::column_of(t.columns, to) is Some {
                Err(ErrorView::InvalidArgument("column "@ + dotted(table, to) + " already exists"@))
            } else {
                Ok(PlanView::Carry(IntentView::RenameColumn { table, column, to }))
            },
        }
    }
}

/// Whether some record of a table is found that is not deleted, before the walk
/// over its records fails.
pub open spec fn shows_any(st: &State, t: TableView, groups: Seq<GroupView>, fault: Option<ErrorView>) -> bool {
    find::is_walk(st, t, None, groups, fault) && exists|i: int| 0 <= i < groups.len() && #[trigger] derived::is_held(groups[i], t.epoch)
}

/// What adding a column comes to; `empty` says whether the table has no record.
pub open spec fn add_column_plan(st: &State, read_only: bool, sound: Option<ErrorView>, table: Seq<char>, c: ColumnView, empty: bool) -> Result<PlanView, ErrorView> {
    if read_only {
        Err(ErrorView::ReadOnly)
    } else if sound is Some {
        Err(sound->0)
    } else {
        match st.table_view(table) {
            None => Err(ErrorView::TableNotFound(table)),
            Some(t) => if schema::column_of(t.columns, c.name) is Some {
                Err(ErrorView::InvalidArgument("column "@ + dotted(table, c.name) + " already exists"@))
            } else if c.default is Some {
                Ok(PlanView::Carry(IntentView::AddColumn { table, column: c, not_null: !c.nullable }))
            } else if !c.nullable && !empty {
                Err(
                    ErrorView::SchemaViolation(
                        "column "@ + dotted(table, c.name)
                            + " is NOT NULL: give it a DEFAULT so the records already stored can be backfilled"@,
                    ),
                )
            } else {
                Ok(
                    PlanView::Publish(
                        catalog::with_table(st.catalog@, table, TableView { columns: t.columns.push(c), ..t }),
                    ),
                )
            },
        }
    }
}

/// Whether a column can only be added to a table without records.
pub open spec fn asks_records(st: &State, read_only: bool, sound: Option<ErrorView>, table: Seq<char>, c: ColumnView) -> bool {
    &&& !read_only
    &&& sound is None
    &&& st.table_view(table) matches Some(t) && schema::column_of(t.columns, c.name) is None
    &&& c.default is None
    &&& !c.nullable
}

impl State {
    pub fn drop_column(&self, read_only: bool, table: &str, column: &str) -> (r: Result<AlterPlan, Error>)
        ensures
            planned(r) == drop_column_plan(self, read_only, table@, column@),
    {
        if read_only {
            return Err(Error::ReadOnly);
        }
        let schema = match self.catalog.table(table) {
            None => {
                return Err(table_not_found(table));
            },
            Some(t) => t,
        };
        if schema.column(column).is_none() {
            return Err(Error::ColumnNotFound { table: table.to_owned(), column: column.to_owned() });
        }
        if schema.columns.len() == 1 {
            return Err(
                Error::InvalidArgument(
                    column.to_owned().concat(" is the only column of ").concat(table).concat("; drop the table instead"),
                ),
            );
        }
        Ok(AlterPlan::Carry(DdlIntent::DropColumn { table: table.to_owned(), column: column.to_owned() }))
    }

    pub fn rename_table(&self, read_only: bool, table: &str, new_name: &str) -> (r: Result<AlterPlan, Error>)
        ensures
            planned(r) == rename_table_plan(self, read_only, table@, new_name@),
    {
        if read_only {
            return Err(Error::ReadOnly);
        }
        if self.catalog.table(table).is_none() {
            return Err(table_not_found(table));
        }
        if new_name.unicode_len() == 0 {
            return Err(invalid("table name must not be empty"));
        }
        if same_text(new_name, table) {
            return Ok(AlterPlan::Nothing);
        }
        if self.catalog.table(new_name).is_some() {
            return Err(Error::TableExists(new_name.to_owned()));
        }
        Ok(AlterPlan::Carry(DdlIntent::RenameTable { table: table.to_owned(), to: new_name.to_owned() }))
    }

    pub fn rename_column(&self, read_only: bool, table: &str, column: &str, new_name: &str) -> (r: Result<AlterPlan, Error>)
        ensures
            planned(r) == rename_column_plan(self, read_only, table@, column@, new_name@),
    {
        if read_only {
            return Err(Error::ReadOnly);
        }
        let schema = match self.catalog.table(table) {
            None => {
                return Err(table_not_found(table));
            },
            Some(t) => t,
        };
        if schema.column(column).is_none() {
            return Err(Error::ColumnNotFound { table: table.to_owned(), column: column.to_owned() });
        }
        if same_text(new_name, column) {
            return Ok(AlterPlan::Nothing);
        }
        if new_name.unicode_len() == 0 {
            return Err(invalid("column name must not be empty"));
        }
        if same_text(new_name, schema::ID_COLUMN) {
            return Err(
                Error::InvalidArgument(
                    "column name '".to_owned().concat(schema::ID_COLUMN).concat("' is reserved for the implicit primary key"),
                ),
            );
        }
        if schema.column(new_name).is_some() {
            return Err(
                Error::InvalidArgument("column ".to_owned().concat(dotted_text(table, new_name).as_str()).concat(" already exists")),
            );
        }
        Ok(
            AlterPlan::Carry(
                DdlIntent::RenameColumn { table: table.to_owned(), column: column.to_owned(), to: new_name.to_owned() },
            ),
        )
    }

    /// Whether a walk over a table comes to no record that it has now. One
    /// that cannot be read ends the walk.
    pub fn table_is_empty(&self, table: &str) -> (r: bool)
        requires
            self.wf(),
            self.table_view(table@) is Some,
        ensures
            exists|groups: Seq<GroupView>, fault: Option<ErrorView>|
                #[trigger] find::is_walk(self, self.table_view(table@)->0, None, groups, fault) && r == !shows_any(
                    self,
                    self.table_view(table@)->0,
                    groups,
                    fault,
                ),
    {
        proof {
            self.lemma_table(table@);
        }
        let ghost t = self.table_view(table@)->0;
        let Walk { groups, fault } = self.index.walk_table(table, None, None);
        let ghost gv = model::views(groups@);
        let ghost fv = fault_view(fault);
        assert(find::is_walk(self, t, None, gv, fv));
        let epoch = self.epoch(table);
        let mut i: usize = 0;
        let mut empty: bool = true;
        while empty && i < groups.len()
            invariant
                epoch == t.epoch,
                i <= groups@.len(),
                gv == model::views(groups@),
                empty ==> forall|j: int| 0 <= j < i ==> !#[trigger] derived::is_held(gv[j], t.epoch),
                !empty ==> exists|j: int| 0 <= j < gv.len() && #[trigger] derived::is_held(gv[j], t.epoch),
            decreases groups@.len() - i,
        {
            assert(gv[i as int] == groups@[i as int]@);
            if derived::group_held(&groups[i], epoch) {
                assert(derived::is_held(gv[i as int], t.epoch));
                empty = false;
            }
            i = i + 1;
        }
        assert(empty == !shows_any(self, t, gv, fv));
        empty
    }

    /// Add a column. Without a default it is there at once, and earlier records
    /// read it as null; with a default they are filled in steps. `sound` is what
    /// came of validating the column on its own.
    pub fn add_column(&self, read_only: bool, sound: Result<(), Error>, table: &str, column: Column) -> (r: Result<AlterPlan, Error>)
        requires
            self.wf(),
        ensures
            if asks_records(self, read_only, error_of(sound), table@, column@) {
                exists|groups: Seq<GroupView>, fault: Option<ErrorView>|
                    #[trigger] find::is_walk(self, self.table_view(table@)->0, None, groups, fault) && planned(r)
                        == add_column_plan(
                        self,
                        read_only,
                        error_of(sound),
                        table@,
                        column@,
                        !shows_any(self, self.table_view(table@)->0, groups, fault),
                    )
            } else {
                planned(r) == add_column_plan(self, read_only, error_of(sound), table@, column@, true)
            },
    {
        if read_only {
            return Err(Error::ReadOnly);
        }
        match sound {
            Ok(()) => {},
            Err(e) => {
                return Err(e);
            },
        }
        let i = match self.catalog.table_position(table) {
            None => {
                return Err(table_not_found(table));
            },
            Some(i) => i,
        };
        if self.catalog.tables[i].column(column.name.as_str()).is_some() {
            return Err(
                Error::InvalidArgument(
                    "column ".to_owned().concat(dotted_text(table, column.name.as_str()).as_str()).concat(" already exists"),
                ),
            );
        }
        if column.default.is_some() {
            let not_null = !column.nullable;
            return Ok(AlterPlan::Carry(DdlIntent::AddColumn { table: table.to_owned(), column, not_null }));
        }
        if !column.nullable {
            let empty = self.table_is_empty(table);
            if !empty {
                return Err(
                    Error::SchemaViolation(
                        "column ".to_owned().concat(dotted_text(table, column.name.as_str()).as_str()).concat(
                            " is NOT NULL: give it a DEFAULT so the records already stored can be backfilled",
                        ),
                    ),
                );
            }
        }
        let mut next = self.catalog.duplicate();
        let ghost t = self.table_view(table@)->0;
        assert(next.tables@.len() == next@.len());
        assert(next.tables@[i as int]@ == next@[i as int]);
        next.tables[i].columns.push(column);
        proof {
            let new = TableView { columns: t.columns.push(column@), ..t };
            assert(next.tables@[i as int]@.columns =~= new.columns);
            assert(next.tables@[i as int]@ =~= new);
            assert(next@ =~= catalog::with_table(self.catalog@, table@, new));
        }
        Ok(AlterPlan::Publish(next))
    }
}

// ---- Carrying a change out --------------------------------------------------

/// The rewrite of the segments that carries a change out, where it is one.
pub open spec fn rewrite_of(i: IntentView) -> Option<RewriteView> {
    match i {
        IntentView::RenameTable { table, to } => Some(RewriteView::RenameTable { from: table, to }),
        IntentView::RenameColumn { table, column, to } => Some(RewriteView::RenameColumn { table, from: column, to }),
        IntentView::DropColumn { table, column } => Some(RewriteView::DropColumn { table, column }),
        IntentView::AddColumn { .. } => None,
    }
}

impl DdlIntent {
    pub fn rewrite<'a>(&'a self) -> (r: Option<Rewrite<'a>>)
        ensures
            match rewrite_of(self@) {
                Some(rw) => r is Some && r->0@ == rw,
                None => r is None,
            },
    {
        match self {
            DdlIntent::RenameTable { table, to } => Some(Rewrite::RenameTable { from: table.as_str(), to: to.as_str() }),
            DdlIntent::RenameColumn { table, column, to } => Some(
                Rewrite::RenameColumn { table: table.as_str(), from: column.as_str(), to: to.as_str() },
            ),
            DdlIntent::DropColumn { table, column } => Some(
                Rewrite::DropColumn { table: table.as_str(), column: column.as_str() },
            ),
            DdlIntent::AddColumn { .. } => None,
        }
    }
}

/// A table in which a new column stands and may be null.
pub open spec fn column_begun(t: TableView, c: ColumnView) -> TableView {
    let open = ColumnView { nullable: true, ..c };
    match model::find(schema::column_names(t.columns), c.name) {
        Some(i) => TableView { columns: t.columns.update(i, open), ..t },
        None => TableView { columns: t.columns.push(open), ..t },
    }
}

/// A table in which a column may not be null.
pub open spec fn column_closed(t: TableView, name: Seq<char>) -> TableView {
    match model::find(schema::column_names(t.columns), name) {
        Some(i) => TableView { columns: t.columns.update(i, ColumnView { nullable: false, ..t.columns[i] }), ..t },
        None => t,
    }
}

/// The first step of adding a column: it is published as one that may be null.
pub fn begin_add_column(catalog: &Catalog, table: &str, column: &Column) -> (r: Result<Catalog, Error>)
    ensures
        match schema::table_of(catalog@, table@) {
            None => r is Err && r->Err_0@ == ErrorView::TableNotFound(table@),
            Some(t) => r is Ok && r->Ok_0@ == catalog::with_table(catalog@, table@, column_begun(t, column@)),
        },
{
    let i = match catalog.table_position(table) {
        None => {
            return Err(table_not_found(table));
        },
        Some(i) => i,
    };
    let mut next = catalog.duplicate();
    let ghost t = catalog@[i as int];
    assert(next.tables@.len() == next@.len());
    assert(next.tables@[i as int]@ == next@[i as int]);
    let mut open = column.duplicate();
    open.nullable = true;
    match next.tables[i].column_position(column.name.as_str()) {
        Some(k) => {
            next.tables[i].columns.set(k, open);
        },
        None => {
            next.tables[i].columns.push(open);
        },
    }
    proof {
        let new = column_begun(t, column@);
        assert(next.tables@[i as int]@.columns =~= new.columns);
        assert(next.tables@[i as int]@ =~= new);
        assert(next@ =~= catalog::with_table(catalog@, table@, new));
    }
    Ok(next)
}

/// The last step of adding a column: nulls are refused, once every record has a
/// value.
pub fn finish_add_column(catalog: &Catalog, table: &str, column: &str) -> (r: Result<Catalog, Error>)
    ensures
        match schema::table_of(catalog@, table@) {
            None => r is Err && r->Err_0@ == ErrorView::TableNotFound(table@),
            Some(t) => r is Ok && r->Ok_0@ == catalog::with_table(catalog@, table@, column_closed(t, column@)),
        },
{
    let i = match catalog.table_position(table) {
        None => {
            return Err(table_not_found(table));
        },
        Some(i) => i,
    };
    let mut next = catalog.duplicate();
    let ghost t = catalog@[i as int];
    assert(next.tables@.len() == next@.len());
    assert(next.tables@[i as int]@ == next@[i as int]);
    match next.tables[i].column_position(column) {
        Some(k) => {
            assert(next.tables@[i as int]@.columns[k as int] == next.tables@[i as int].columns@[k as int]@);
            next.tables[i].columns[k].nullable = false;
        },
        None => {},
    }
    proof {
        let new = column_closed(t, column@);
        assert(next.tables@[i as int]@.columns =~= new.columns);
        assert(next.tables@[i as int]@ =~= new);
        assert(next@ =~= catalog::with_table(catalog@, table@, new));
    }
    Ok(next)
}

// ---- Filling a new column ---------------------------------------------------

/// The records that are filled in one transaction.
pub fn fill_batch_rows(pool: usize) -> (r: usize)
    ensures
        r == (if pool / 1024 < 1 {
            1
        } else if pool / 1024 > 512 {
            512
        } else {
            pool / 1024
        }),
{
    let rows: usize = pool / 1024;
    if rows < 1 {
        1
    } else if rows > 512 {
        512
    } else {
        rows
    }
}

/// Whether the newest version of a record lacks a value for a column; only
/// records that the table has now are asked.
pub open spec fn lacks_value(st: &State, epoch: u64, g: GroupView, column: Seq<char>) -> Result<bool, ErrorView> {
    if !derived::is_held(g, epoch) {
        Ok(false)
    } else {
        match segment::payload_of(st.images(), g.versions.last().kind) {
            Err(e) => Err(e),
            Ok(None) => Ok(false),
            Ok(Some(p)) => match payload::needs_fill(p, encode_utf8(column)) {
                Err(m) => Err(ErrorView::Corrupt(m)),
                Ok(b) => Ok(b),
            },
        }
    }
}

/// The first ids, at most `limit`, of the first records of a walk that lack a
/// value.
pub open spec fn ids_lacking(st: &State, epoch: u64, groups: Seq<GroupView>, column: Seq<char>, limit: usize, n: int) -> Result<
    Seq<Seq<char>>,
    ErrorView,
>
    decreases n,
{
    if n <= 0 {
        Ok(Seq::empty())
    } else {
        match ids_lacking(st, epoch, groups, column, limit, n - 1) {
            Err(e) => Err(e),
            Ok(done) => if done.len() >= limit {
                Ok(done)
            } else {
                match lacks_value(st, epoch, groups[n - 1], column) {
                    Err(e) => Err(e),
                    Ok(false) => Ok(done),
                    Ok(true) => Ok(done.push(decode_utf8(groups[n - 1].id))),
                }
            },
        }
    }
}

proof fn lemma_lacking_prefix(st: &State, epoch: u64, groups: Seq<GroupView>, column: Seq<char>, limit: usize, n: int)
    requires
        0 <= n <= groups.len(),
    ensures
        ({
            let whole = ids_lacking(st, epoch, groups, column, limit, groups.len() as int);
            match ids_lacking(st, epoch, groups, column, limit, n) {
                Err(e) => whole == Err::<Seq<Seq<char>>, ErrorView>(e),
                Ok(done) => done.len() >= limit ==> whole == Ok::<Seq<Seq<char>>, ErrorView>(done),
            }
        }),
    decreases groups.len() - n,
{
    if n < groups.len() {
        lemma_lacking_prefix(st, epoch, groups, column, limit, n + 1);
    }
}

/// What looking for records to fill comes to.
pub open spec fn fill_answer(
    st: &State,
    t: TableView,
    column: Seq<char>,
    limit: usize,
    after: Option<Seq<char>>,
    r: Result<Seq<Seq<char>>, ErrorView>,
) -> bool {
    exists|groups: Seq<GroupView>, fault: Option<ErrorView>|
        #[trigger] find::is_walk(st, t, after, groups, fault) && r == (match ids_lacking(
            st,
            t.epoch,
            groups,
            column,
            limit,
            groups.len() as int,
        ) {
            Err(e) => Err(e),
            Ok(ids) => match fault {
                Some(e) => if ids.len() >= limit {
                    Ok(ids)
                } else {
                    Err(e)
                },
                None => Ok(ids),
            },
        })
}

pub open spec fn ids_result(r: Result<Vec<String>, Error>) -> Result<Seq<Seq<char>>, ErrorView> {
    match r {
        Ok(ids) => Ok(model::views(ids@)),
        Err(e) => Err(e@),
    }
}

fn group_lacks(st: &State, epoch: u64, g: &Group, column: &str) -> (r: Result<bool, Error>)
    ensures
        match lacks_value(st, epoch, g@, column@) {
            Ok(b) => r == Ok::<bool, Error>(b),
            Err(e) => r is Err && r->Err_0@ == e,
        },
{
    if !derived::group_held(g, epoch) {
        return Ok(false);
    }
    let n: usize = g.versions.len();
    assert(g@.versions.last() == g.versions@[n - 1]@);
    match payload_bytes(&st.segments, &g.versions[n - 1].kind) {
        Err(e) => Err(e),
        Ok(None) => Ok(false),
        Ok(Some(p)) => encoded_column_needs_fill(p.as_slice(), column),
    }
}

impl State {
    /// The next records after an id, in the order of their ids, whose stored
    /// form has no value for a column.
    pub fn ids_needing_fill(&self, table: &str, column: &str, limit: usize, after: Option<&str>) -> (r: Result<Vec<String>, Error>)
        requires
            self.wf(),
            self.table_view(table@) is Some,
            limit > 0,
        ensures
            fill_answer(self, self.table_view(table@)->0, column@, limit, reads::str_view(after), ids_result(r)),
    {
        proof {
            self.lemma_table(table@);
        }
        let ghost t = self.table_view(table@)->0;
        let Walk { groups, fault } = self.index.walk_table(table, after, None);
        let ghost gv = model::views(groups@);
        let ghost fv = fault_view(fault);
        let ghost from = reads::str_view(after);
        assert(find::is_walk(self, t, from, gv, fv));
        let epoch = self.epoch(table);
        let mut out: Vec<String> = Vec::new();
        let mut i: usize = 0;
        assert(model::views(out@) =~= Seq::<Seq<char>>::empty());
        while i < groups.len()
            invariant
                i <= groups@.len(),
                gv == model::views(groups@),
                self.table_view(table@) == Some(t),
                epoch == t.epoch,
                from == reads::str_view(after),
                find::is_walk(self, t, from, gv, fv),
                ids_lacking(self, t.epoch, gv, column@, limit, i as int) == Ok::<Seq<Seq<char>>, ErrorView>(model::views(out@)),
                out@.len() < limit,
            decreases groups@.len() - i,
        {
            let ghost before = model::views(out@);
            proof {
                assert(gv[i as int] == groups@[i as int]@);
                encode_utf8_decode_utf8(groups@[i as int].id@);
                lemma_lacking_prefix(self, t.epoch, gv, column@, limit, i + 1);
            }
            match group_lacks(self, epoch, &groups[i], column) {
                Err(e) => {
                    let done: Result<Vec<String>, Error> = Err(e);
                    assert(ids_result(done) == ids_lacking(self, t.epoch, gv, column@, limit, gv.len() as int));
                    return done;
                },
                Ok(false) => {},
                Ok(true) => {
                    out.push(groups[i].id.clone());
                    assert(model::views(out@) =~= before.push(decode_utf8(gv[i as int].id)));
                    if out.len() >= limit {
                        let done: Result<Vec<String>, Error> = Ok(out);
                        assert(ids_result(done) == ids_lacking(self, t.epoch, gv, column@, limit, gv.len() as int));
                        return done;
                    }
                },
            }
            i = i + 1;
        }
        match fault {
            Some(e) => {
                let done: Result<Vec<String>, Error> = Err(e);
                assert(ids_result(done) == Err::<Seq<Seq<char>>, ErrorView>(fv->0));
                done
            },
            None => Ok(out),
        }
    }
}

/// What staging the value of a column for a list of records comes to: each in
/// turn, and those that were deleted meanwhile passed over.
pub open spec fn filled(
    before: TxnView,
    st: &State,
    limit: usize,
    table: Seq<char>,
    ids: Seq<Seq<char>>,
    patch: RecordView,
    n: int,
    after: TxnView,
    error: Option<ErrorView>,
) -> bool
    decreases n,
{
    if n <= 0 {
        after == before && error is None
    } else {
        exists|mid: TxnView, step: Option<ErrorView>|
            filled(before, st, limit, table, ids, patch, n - 1, mid, None) && #[trigger] txn::update_outcome(
                mid,
                st,
                limit,
                table,
                ids[n - 1],
                patch,
                after,
                step,
            ) && error == (match step {
                Some(ErrorView::RecordNotFound { .. }) => None,
                other => other,
            })
    }
}

/// Stage the value of a new column for records that lack one.
pub fn fill_records(txn: &mut Txn, st: &State, limit: usize, table: &str, ids: &Vec<String>, patch: &Record) -> (r: Result<(), Error>)
    requires
        old(txn).wf(),
        st.wf(),
        patch.wf(),
    ensures
        final(txn).wf(),
        exists|n: int|
            0 <= n <= ids@.len() && #[trigger] filled(
                old(txn)@,
                st,
                limit,
                table@,
                model::views(ids@),
                patch@,
                n,
                final(txn)@,
                crate::error::error_of(r),
            ) && (r is Ok ==> n == ids@.len()),
{
    let ghost start = txn@;
    let ghost names = model::views(ids@);
    let mut i: usize = 0;
    while i < ids.len()
        invariant
            i <= ids@.len(),
            names == model::views(ids@),
            start == old(txn)@,
            txn.wf(),
            st.wf(),
            patch.wf(),
            filled(start, st, limit, table@, names, patch@, i as int, txn@, None),
        decreases ids@.len() - i,
    {
        let ghost mid = txn@;
        assert(names[(i + 1) - 1] == ids@[i as int]@);
        match txn.update(st, limit, table, ids[i].as_str(), patch.duplicate_map()) {
            Ok(_) => {
                assert(txn::update_outcome(mid, st, limit, table@, names[(i + 1) - 1], patch@, txn@, None));
            },
            Err(Error::RecordNotFound { table: a, id: b }) => {
                let ghost step = ErrorView::RecordNotFound { table: a@, id: b@ };
                assert(txn::update_outcome(mid, st, limit, table@, names[(i + 1) - 1], patch@, txn@, Some(step)));
            },
            Err(e) => {
                proof {
                    assert(txn::update_outcome(mid, st, limit, table@, names[(i + 1) - 1], patch@, txn@, Some(e@)));
                    assert(filled(start, st, limit, table@, names, patch@, i + 1, txn@, Some(e@)));
                }
                return Err(e);
            },
        }
        assert(filled(start, st, limit, table@, names, patch@, i + 1, txn@, None));
        i = i + 1;
    }
    Ok(())
}

/// How often filling a batch is tried again.
pub const FILL_RETRIES: usize = 3;

/// A batch that met another writer is filled again, a few times; `retries`
/// counts the tries after the first.
pub fn after_fill(retries: usize, outcome: Result<u64, Error>) -> (r: txn::Attempt)
    ensures
        match outcome {
            Ok(v) => r == txn::Attempt::Done(v),
            Err(Error::Conflict(m)) => if retries < FILL_RETRIES {
                r is Again
            } else {
                r == txn::Attempt::Failed(Error::Conflict(m))
            },
            Err(e) => r == txn::Attempt::Failed(e),
        },
{
    match outcome {
        Ok(v) => txn::Attempt::Done(v),
        Err(Error::Conflict(m)) => {
            if retries < FILL_RETRIES {
                txn::Attempt::Again
            } else {
                txn::Attempt::Failed(Error::Conflict(m))
            }
        },
        Err(e) => txn::Attempt::Failed(e),
    }
}

// ---- Publishing a catalog ---------------------------------------------------

/// Whether a table gives out identity values.
pub open spec fn gives_identities(tables: Seq<TableView>, table: Seq<char>) -> bool {
    schema::table_of(tables, table) matches Some(t) && exists|i: int| 0 <= i < t.columns.len() && (#[trigger] t.columns[i]).identity
}

fn table_gives_identities(catalog: &Catalog, table: &str) -> (r: bool)
    ensures
        r == gives_identities(catalog@, table@),
{
    match catalog.table(table) {
        None => false,
        Some(t) => {
            let mut i: usize = 0;
            while i < t.columns.len()
                invariant
                    i <= t.columns@.len(),
                    schema::table_of(catalog@, table@) == Some(t@),
                    forall|j: int| 0 <= j < i ==> !(#[trigger] t@.columns[j]).identity,
                decreases t.columns@.len() - i,
            {
                assert(t@.columns[i as int] == t.columns@[i as int]@);
                if t.columns[i].identity {
                    return true;
                }
                i = i + 1;
            }
            false
        },
    }
}

/// The marks of the tables that still give out identity values.
pub open spec fn kept_marks(marks: Map<Seq<u8>, Mark>, tables: Seq<TableView>, after: Map<Seq<u8>, Mark>) -> bool {
    forall|table: Seq<char>|
        {
            &&& (#[trigger] after.contains_key(encode_utf8(table)) <==> marks.contains_key(encode_utf8(table)) && gives_identities(
                tables,
                table,
            ))
            &&& after.contains_key(encode_utf8(table)) ==> after[encode_utf8(table)] == marks[encode_utf8(table)]
        }
}

fn keep_marks(marks: &CowMap<String, Mark>, catalog: &Catalog) -> (r: CowMap<String, Mark>)
    requires
        marks.wf(),
    ensures
        r.wf(),
        kept_marks(marks@, catalog@, r@),
{
    let ghost s = marks.pairs();
    let entries = marks.iter();
    proof {
        marks.lemma_wf();
    }
    let mut out: CowMap<String, Mark> = CowMap::new();
    let mut i: usize = 0;
    while i < entries.len()
        invariant
            marks.wf(),
            s == marks.pairs(),
            pairs::sorted(s),
            marks@ == pairs::to_map(s),
            i <= entries@.len() == s.len(),
            cow::entry_pairs(entries@) == s,
            out.wf(),
            forall|table: Seq<char>|
                #[trigger] out@.contains_key(encode_utf8(table)) ==> marks@.contains_key(encode_utf8(table)) && gives_identities(
                    catalog@,
                    table,
                ) && out@[encode_utf8(table)] == marks@[encode_utf8(table)],
            forall|table: Seq<char>, j: int|
                0 <= j < i && (#[trigger] s[j]).0 == #[trigger] encode_utf8(table) && gives_identities(catalog@, table)
                    ==> out@.contains_key(encode_utf8(table)),
        decreases entries@.len() - i,
    {
        let (name, mark) = entries[i];
        let ghost before = out@;
        proof {
            assert(cow::entry_pairs(entries@)[i as int] == (name.rank(), mark@));
            pairs::lemma_to_map_at(s, i as int);
        }
        if table_gives_identities(catalog, name.as_str()) {
            let _ = out.insert(name.clone(), *mark);
        }
        proof {
            assert forall|table: Seq<char>| #[trigger] out@.contains_key(encode_utf8(table)) implies marks@.contains_key(
                encode_utf8(table),
            ) && gives_identities(catalog@, table) && out@[encode_utf8(table)] == marks@[encode_utf8(table)] by {
                if encode_utf8(table) == encode_utf8(name@) {
                    crate::bytes::lemma_utf8_injective(table, name@);
                }
            }
            assert forall|table: Seq<char>, j: int|
                0 <= j < i + 1 && (#[trigger] s[j]).0 == #[trigger] encode_utf8(table) && gives_identities(
                    catalog@,
                    table,
                ) implies out@.contains_key(encode_utf8(table)) by {
                if j < i {
                    assert(before.contains_key(encode_utf8(table)));
                } else {
                    crate::bytes::lemma_utf8_injective(table, name@);
                }
            }
        }
        i = i + 1;
    }
    proof {
        assert forall|table: Seq<char>|
            {
                &&& (#[trigger] out@.contains_key(encode_utf8(table)) <==> marks@.contains_key(encode_utf8(table)) && gives_identities(
                    catalog@,
                    table,
                ))
                &&& out@.contains_key(encode_utf8(table)) ==> out@[encode_utf8(table)] == marks@[encode_utf8(table)]
            } by {
            if marks@.contains_key(encode_utf8(table)) && gives_identities(catalog@, table) {
                let j = pairs::index_of(s, encode_utf8(table));
                assert(s[j].0 == encode_utf8(table));
            }
        }
    }
    out
}

/// The manifest that publishes a catalog: nothing else changes, but the marks of
/// tables that no longer give out identity values are forgotten. `sound` is what
/// came of validating the catalog on its own; one that is not sound is refused.
pub fn catalog_generation(sound: Result<(), Error>, current: Manifest, next: &Catalog) -> (r: Result<Manifest, Error>)
    requires
        current.identity_high_water.wf(),
    ensures
        match r {
            Ok(m) => {
                &&& sound is Ok
                &&& m.format_version == crate::manifest::FORMAT_VERSION
                &&& m.committed_version == current.committed_version
                &&& m.segments == current.segments
                &&& m.wal_id == current.wal_id
                &&& m.identity_high_water.wf()
                &&& kept_marks(current.identity_high_water@, next@, m.identity_high_water@)
                &&& m.catalog is Some && m.catalog->0@ == next@
            },
            Err(e) => sound == Err::<(), Error>(e),
        },
{
    match sound {
        Ok(()) => {},
        Err(e) => {
            return Err(e);
        },
    }
    let marks = keep_marks(&current.identity_high_water, next);
    let m = Manifest {
        format_version: crate::manifest::FORMAT_VERSION,
        committed_version: current.committed_version,
        segments: current.segments,
        wal_id: current.wal_id,
        identity_high_water: marks,
        catalog: Some(next.duplicate()),
    };
    Ok(m)
}

// ---- Laws -------------------------------------------------------------------

/// Beginning to add a column a second time changes nothing.
pub proof fn lemma_begin_twice(t: TableView, c: ColumnView)
    ensures
        column_begun(column_begun(t, c), c) == column_begun(t, c),
{
    let once = column_begun(t, c);
    let names = schema::column_names(t.columns);
    let after = schema::column_names(once.columns);
    model::lemma_find(names, c.name);
    match model::find(names, c.name) {
        Some(i) => {
            assert(after =~= names);
        },
        None => {
            assert forall|j: int| 0 <= j < names.len() implies after[j] != c.name by {
                if names[j] == c.name {
                    assert(names.contains(c.name));
                }
            }
            model::lemma_find_is(after, c.name, names.len() as int);
        },
    }
    assert(column_begun(once, c).columns =~= once.columns);
}

} // verus!
