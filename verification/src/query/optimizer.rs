use vstd::prelude::*;
use crate::catalog::catalog::Catalog;
use crate::catalog::table::TableMetadata;
use crate::catalog::schema::{Schema, same_schema, clone_schema};
use crate::catalog::{CatalogError, catalog_error_text};
use crate::text::{call_text, debug_quoted};
use crate::query::executors::{
    Executor, Tuple, Value, views, clone_tuple, SeqScanExecutor, passes, predicate_ok,
    test_predicate, join_predicate_ok, join_rows, join_tuples,
};
use crate::query::index_scan::{IndexScanExecutor, has_key};

verus! {

broadcast use vstd::seq_lib::group_seq_properties;

/// The executor of a physical plan: a scan, or a filter or a nested loop join
/// over executors of sub-plans.
pub enum PlanExecutor<F, J> {
    SeqScan(SeqScanExecutor),
    IndexScan(IndexScanExecutor),
    Filter { child: Box<PlanExecutor<F, J>>, predicate: F },
    NestedLoopJoin {
        left: Box<PlanExecutor<F, J>>,
        right: Box<PlanExecutor<F, J>>,
        predicate: J,
        schema: Schema,
        results: Vec<Tuple>,
        cursor: usize,
    },
}

impl<F: Fn(&Tuple) -> bool, J: Fn(&Tuple, &Tuple) -> bool> PlanExecutor<F, J> {
    /// How deeply executors are nested.
    pub closed spec fn depth(&self) -> nat
        decreases self,
    {
        match self {
            PlanExecutor::Filter { child, .. } => child.depth() + 1,
            PlanExecutor::NestedLoopJoin { left, right, .. } => if left.depth() >= right.depth() {
                left.depth() + 1
            } else {
                right.depth() + 1
            },
            _ => 0,
        }
    }

    /// Every executor of the plan keeps its invariant and every predicate can
    /// be called on any tuples.
    pub closed spec fn plan_inv(&self) -> bool
        decreases self,
    {
        match self {
            PlanExecutor::SeqScan(e) => e.inv(),
            PlanExecutor::IndexScan(e) => e.inv(),
            PlanExecutor::Filter { child, predicate } => child.plan_inv() && predicate_ok(*predicate),
            PlanExecutor::NestedLoopJoin { left, right, predicate, results, cursor, .. } => {
                &&& left.plan_inv()
                &&& right.plan_inv()
                &&& join_predicate_ok(*predicate)
                &&& *cursor <= results@.len()
            },
        }
    }

    /// The tuples that the following calls of `next` yield.
    pub closed spec fn plan_pending(&self) -> Seq<Seq<Value>>
        decreases self,
    {
        match self {
            PlanExecutor::SeqScan(e) => e.pending(),
            PlanExecutor::IndexScan(e) => e.pending(),
            PlanExecutor::Filter { child, predicate } => child.plan_pending().filter(
                |t: Seq<Value>| passes(*predicate, t),
            ),
            PlanExecutor::NestedLoopJoin { results, cursor, .. } => views(results@).subrange(
                *cursor as int,
                results@.len() as int,
            ),
        }
    }

    /// The tuples yielded after `init`.
    pub closed spec fn plan_output(&self) -> Seq<Seq<Value>>
        decreases self,
    {
        match self {
            PlanExecutor::SeqScan(e) => e.output(),
            PlanExecutor::IndexScan(e) => e.output(),
            PlanExecutor::Filter { child, predicate } => child.plan_output().filter(
                |t: Seq<Value>| passes(*predicate, t),
            ),
            PlanExecutor::NestedLoopJoin { left, right, predicate, .. } => join_rows(
                left.plan_output(),
                right.plan_output(),
                *predicate,
            ),
        }
    }

    /// The schema of the tuples yielded.
    pub closed spec fn plan_schema(&self) -> Schema
        decreases self,
    {
        match self {
            PlanExecutor::SeqScan(e) => e.schema_view(),
            PlanExecutor::IndexScan(e) => e.schema_view(),
            PlanExecutor::Filter { child, .. } => child.plan_schema(),
            PlanExecutor::NestedLoopJoin { schema, .. } => *schema,
        }
    }

    fn plan_init(&mut self)
        requires
            old(self).plan_inv(),
        ensures
            final(self).plan_inv(),
            final(self).plan_output() == old(self).plan_output(),
            final(self).plan_pending() == old(self).plan_output(),
            final(self).plan_schema() == old(self).plan_schema(),
            final(self).depth() == old(self).depth(),
        decreases old(self).depth(),
    {
        match self {
            PlanExecutor::SeqScan(e) => e.init(),
            PlanExecutor::IndexScan(e) => e.init(),
            PlanExecutor::Filter { child, predicate } => {
                child.plan_init();
            },
            PlanExecutor::NestedLoopJoin { left, right, predicate, results, cursor, .. } => {
                left.plan_init();
                let lefts = left.plan_drain();
                right.plan_init();
                let rights = right.plan_drain();
                *results = join_tuples(&lefts, &rights, predicate);
                *cursor = 0;
                proof {
                    assert(views(results@).subrange(0, results@.len() as int) =~= views(results@));
                }
            },
        }
    }

    fn filter_next(child: &mut PlanExecutor<F, J>, predicate: &F) -> (r: Option<Tuple>)
        requires
            old(child).plan_inv(),
            predicate_ok(*predicate),
        ensures
            final(child).plan_inv(),
            final(child).plan_output() == old(child).plan_output(),
            final(child).plan_schema() == old(child).plan_schema(),
            final(child).depth() == old(child).depth(),
            ({
                let p = |t: Seq<Value>| passes(*predicate, t);
                let before = old(child).plan_pending().filter(p);
                &&& before.len() == 0 ==> r is None && final(child).plan_pending().filter(p) == before
                &&& before.len() > 0 ==> (r matches Some(t) && t@ == before[0]
                    && final(child).plan_pending().filter(p) == before.drop_first())
            }),
        decreases old(child).depth(), 2nat,
    {
        let ghost p = |t: Seq<Value>| passes(*predicate, t);
        loop
            invariant
                child.plan_inv(),
                predicate_ok(*predicate),
                p == (|t: Seq<Value>| passes(*predicate, t)),
                child.plan_output() == old(child).plan_output(),
                child.plan_schema() == old(child).plan_schema(),
                child.depth() == old(child).depth(),
                child.plan_pending().filter(p) == old(child).plan_pending().filter(p),
            decreases child.plan_pending().len(),
        {
            let ghost before = child.plan_pending();
            match child.plan_next() {
                Some(tuple) => {
                    proof {
                        assert(before =~= seq![tuple@] + before.drop_first());
                        before.drop_first().lemma_filter_prepend(tuple@, p);
                    }
                    if test_predicate(predicate, &tuple) {
                        return Some(tuple);
                    }
                },
                None => {
                    return None;
                },
            }
        }
    }

    fn plan_next(&mut self) -> (r: Option<Tuple>)
        requires
            old(self).plan_inv(),
        ensures
            final(self).plan_inv(),
            final(self).plan_output() == old(self).plan_output(),
            final(self).plan_schema() == old(self).plan_schema(),
            final(self).depth() == old(self).depth(),
            old(self).plan_pending().len() == 0 ==> r is None && final(self).plan_pending() == old(
                self,
            ).plan_pending(),
            old(self).plan_pending().len() > 0 ==> (r matches Some(t) && t@ == old(
                self,
            ).plan_pending()[0] && final(self).plan_pending() == old(self).plan_pending().drop_first()),
        decreases old(self).depth(), 1nat,
    {
        match self {
            PlanExecutor::SeqScan(e) => e.next(),
            PlanExecutor::IndexScan(e) => e.next(),
            PlanExecutor::Filter { child, predicate } => Self::filter_next(child, predicate),
            PlanExecutor::NestedLoopJoin { results, cursor, .. } => {
                if *cursor < results.len() {
                    let tuple = clone_tuple(&results[*cursor]);
                    *cursor = *cursor + 1;
                    proof {
                        assert(views(results@).subrange(*cursor as int, results@.len() as int)
                            =~= views(results@).subrange(*cursor - 1, results@.len() as int).drop_first());
                    }
                    Some(tuple)
                } else {
                    None
                }
            },
        }
    }

    /// Runs the executor to the end: the tuples that `next` would yield.
    fn plan_drain(&mut self) -> (r: Vec<Tuple>)
        requires
            old(self).plan_inv(),
        ensures
            final(self).plan_inv(),
            views(r@) == old(self).plan_pending(),
            final(self).plan_output() == old(self).plan_output(),
            final(self).plan_schema() == old(self).plan_schema(),
            final(self).depth() == old(self).depth(),
    {
        let mut out: Vec<Tuple> = Vec::new();
        let ghost start = self.plan_pending();
        loop
            invariant
                self.plan_inv(),
                self.plan_output() == old(self).plan_output(),
                self.plan_schema() == old(self).plan_schema(),
                self.depth() == old(self).depth(),
                start == old(self).plan_pending(),
                start == views(out@) + self.plan_pending(),
            decreases self.plan_pending().len(),
        {
            let ghost before = self.plan_pending();
            match self.plan_next() {
                Some(t) => {
                    out.push(t);
                    proof {
                        assert(views(out@) =~= views(out@).drop_last().push(t@));
                        assert(before =~= seq![t@] + before.drop_first());
                        assert(start =~= views(out@) + self.plan_pending());
                    }
                },
                None => {
                    assert(start =~= views(out@));
                    return out;
                },
            }
        }
    }

    fn plan_schema_ref(&self) -> (r: &Schema)
        requires
            self.plan_inv(),
        ensures
            *r == self.plan_schema(),
        decreases self.depth(),
    {
        match self {
            PlanExecutor::SeqScan(e) => e.get_output_schema(),
            PlanExecutor::IndexScan(e) => e.get_output_schema(),
            PlanExecutor::Filter { child, .. } => child.plan_schema_ref(),
            PlanExecutor::NestedLoopJoin { schema, .. } => schema,
        }
    }
}

impl<F: Fn(&Tuple) -> bool, J: Fn(&Tuple, &Tuple) -> bool> Executor for PlanExecutor<F, J> {
    closed spec fn inv(&self) -> bool {
        self.plan_inv()
    }

    closed spec fn pending(&self) -> Seq<Seq<Value>> {
        self.plan_pending()
    }

    closed spec fn output(&self) -> Seq<Seq<Value>> {
        self.plan_output()
    }

    closed spec fn schema_view(&self) -> Schema {
        self.plan_schema()
    }

    fn init(&mut self) {
        self.plan_init();
    }

    fn next(&mut self) -> (r: Option<Tuple>) {
        self.plan_next()
    }

    fn get_output_schema(&self) -> (r: &Schema) {
        self.plan_schema_ref()
    }
}

/// A logical query plan over named tables.
pub enum LogicalPlan<F, J> {
    SeqScan { table_name: String },
    IndexScan { table_name: String, key: i32 },
    NestedLoopJoin { left: Box<LogicalPlan<F, J>>, right: Box<LogicalPlan<F, J>>, predicate: J },
    /// `index_match`, when given, says that the predicate is an equality of
    /// the named column with the value.
    Filter { child: Box<LogicalPlan<F, J>>, predicate: F, index_match: Option<(String, i32)> },
}

/// Every predicate of the plan can be called on any tuples and answers by
/// their values alone.
pub open spec fn plan_predicates_ok<F: Fn(&Tuple) -> bool, J: Fn(&Tuple, &Tuple) -> bool>(plan: LogicalPlan<F, J>) -> bool
    decreases plan,
{
    match plan {
        LogicalPlan::NestedLoopJoin { left, right, predicate } => join_predicate_ok(predicate)
            && plan_predicates_ok(*left) && plan_predicates_ok(*right),
        LogicalPlan::Filter { child, predicate, .. } => predicate_ok(predicate) && plan_predicates_ok(
            *child,
        ),
        _ => true,
    }
}

/// The rows stored for the table `name`: those of the first entry of that
/// name, or none.
pub open spec fn table_rows(data: Seq<(String, Vec<Tuple>)>, name: Seq<char>) -> Seq<Seq<Value>>
    decreases data.len(),
{
    if data.len() == 0 {
        Seq::empty()
    } else if data[0].0@ == name {
        views(data[0].1@)
    } else {
        table_rows(data.drop_first(), name)
    }
}

/// A sequential scan of `name`: its rows and schema, if the catalog has it.
pub open spec fn scan_result(cat: Catalog, data: Seq<(String, Vec<Tuple>)>, name: Seq<char>) -> Option<(Seq<Seq<Value>>, Schema)> {
    if cat.has_table(name) {
        Some((table_rows(data, name), cat.table(name).schema))
    } else {
        None
    }
}

/// An index scan of `name` for `key` on the column of the table's first
/// index: the rows holding `key` there, if the table exists and has an index.
pub open spec fn index_scan_result(cat: Catalog, data: Seq<(String, Vec<Tuple>)>, name: Seq<char>, key: i32) -> Option<(Seq<Seq<Value>>, Schema)> {
    if cat.has_table(name) && cat.table(name).indexes@.len() > 0 {
        let col = cat.table(name).indexes@[0].column_index as int;
        Some(
            (
                table_rows(data, name).filter(|t: Seq<Value>| has_key(t, col, key)),
                cat.table(name).schema,
            ),
        )
    } else {
        None
    }
}

/// Whether some index of the table covers the column named `col`.
pub open spec fn has_index_on(cat: Catalog, name: Seq<char>, col: Seq<char>) -> bool {
    let t = cat.table(name);
    exists|k: int|
        0 <= k < t.indexes@.len() && #[trigger] t.indexes@[k].column_index < t.schema.columns@.len()
            && t.schema.columns@[t.indexes@[k].column_index as int].name@ == col
}

/// What the optimizer builds for `plan`: the rows its executor yields after
/// `init` and their schema, or `None` when it refuses the plan. A filter with
/// an index match right over a sequential scan of a table with an index on
/// that column becomes an index scan of the table for the value, which reads
/// the column of the table's first index.
pub open spec fn planned<F: Fn(&Tuple) -> bool, J: Fn(&Tuple, &Tuple) -> bool>(
    cat: Catalog,
    data: Seq<(String, Vec<Tuple>)>,
    plan: LogicalPlan<F, J>,
) -> Option<(Seq<Seq<Value>>, Schema)>
    decreases plan,
{
    match plan {
        LogicalPlan::SeqScan { table_name } => scan_result(cat, data, table_name@),
        LogicalPlan::IndexScan { table_name, key } => index_scan_result(cat, data, table_name@, key),
        LogicalPlan::NestedLoopJoin { left, right, predicate } => match planned(cat, data, *left) {
            Some(l) => match planned(cat, data, *right) {
                Some(r) => Some((join_rows(l.0, r.0, predicate), l.1)),
                None => None,
            },
            None => None,
        },
        LogicalPlan::Filter { child, predicate, index_match } => {
            let filtered = match planned(cat, data, *child) {
                Some(c) => Some((c.0.filter(|t: Seq<Value>| passes(predicate, t)), c.1)),
                None => None,
            };
            match *child {
                LogicalPlan::SeqScan { table_name } => match index_match {
                    Some((col, val)) => if !cat.has_table(table_name@) {
                        None
                    } else if has_index_on(cat, table_name@, col@) {
                        index_scan_result(cat, data, table_name@, val)
                    } else {
                        filtered
                    },
                    None => filtered,
                },
                _ => filtered,
            }
        },
    }
}

/// A filter that does not become an index scan (it has no index match, or
/// its child is not a sequential scan of a table with an index on the
/// matched column) yields exactly the rows of its child that the predicate
/// accepts, in the child's order and with the child's schema, and is refused
/// exactly when its child is.
pub proof fn lemma_filter_keeps_the_accepted_rows<F: Fn(&Tuple) -> bool, J: Fn(&Tuple, &Tuple) -> bool>(
    cat: Catalog,
    data: Seq<(String, Vec<Tuple>)>,
    child: LogicalPlan<F, J>,
    predicate: F,
    index_match: Option<(String, i32)>,
)
    requires
        match index_match {
            None => true,
            Some((col, _)) => match child {
                LogicalPlan::SeqScan { table_name } => !cat.has_table(table_name@) || !has_index_on(
                    cat,
                    table_name@,
                    col@,
                ),
                _ => true,
            },
        },
    ensures
        ({
            let p = planned(cat, data, LogicalPlan::Filter { child: Box::new(child), predicate, index_match });
            match planned(cat, data, child) {
                Some(c) => p == Some((c.0.filter(|t: Seq<Value>| passes(predicate, t)), c.1)),
                None => p is None,
            }
        }),
{
}

/// The message for a missing table.
pub open spec fn no_table_text(name: Seq<char>) -> Seq<char> {
    call_text("TableNotFound"@, debug_quoted(name))
}

/// The message for a table without an index.
pub open spec fn no_index_text(name: Seq<char>) -> Seq<char> {
    "No index found on "@ + name
}

/// The message with which the optimizer refuses `plan` (where `planned`
/// gives nothing): the first table, in plan order, that is missing or that
/// an index scan finds without an index.
pub open spec fn plan_error<F: Fn(&Tuple) -> bool, J: Fn(&Tuple, &Tuple) -> bool>(
    cat: Catalog,
    data: Seq<(String, Vec<Tuple>)>,
    plan: LogicalPlan<F, J>,
) -> Seq<char>
    decreases plan,
{
    match plan {
        LogicalPlan::SeqScan { table_name } => no_table_text(table_name@),
        LogicalPlan::IndexScan { table_name, .. } => if !cat.has_table(table_name@) {
            no_table_text(table_name@)
        } else {
            no_index_text(table_name@)
        },
        LogicalPlan::NestedLoopJoin { left, right, .. } => if planned(cat, data, *left) is None {
            plan_error(cat, data, *left)
        } else {
            plan_error(cat, data, *right)
        },
        LogicalPlan::Filter { child, .. } => plan_error(cat, data, *child),
    }
}

/// The message for a catalog error.
fn catalog_error_message(e: &CatalogError) -> (r: String)
    ensures
        r@ == catalog_error_text(*e),
{
    e.text()
}

/// The message for a table without an index.
fn no_index_message(table_name: &String) -> (r: String)
    ensures
        r@ == no_index_text(table_name@),
{
    let mut r = String::from_str("No index found on ");
    r.append(table_name.as_str());
    r
}

/// A copy of each tuple.
fn clone_tuples(ts: &Vec<Tuple>) -> (r: Vec<Tuple>)
    ensures
        views(r@) == views(ts@),
{
    let mut r: Vec<Tuple> = Vec::new();
    let mut i: usize = 0;
    while i < ts.len()
        invariant
            i <= ts@.len(),
            views(r@) == views(ts@).take(i as int),
        decreases ts@.len() - i,
    {
        let ghost before = views(r@);
        r.push(clone_tuple(&ts[i]));
        proof {
            assert(views(r@) =~= before.push(ts@[i as int]@));
            assert(views(ts@).take(i + 1) =~= views(ts@).take(i as int).push(ts@[i as int]@));
        }
        i = i + 1;
    }
    assert(views(ts@).take(ts@.len() as int) =~= views(ts@));
    r
}

/// Turns logical plans into executors, with the catalog's tables and the rows
/// stored for each table.
pub struct Optimizer<'a> {
    catalog: &'a Catalog,
    data: &'a Vec<(String, Vec<Tuple>)>,
}

impl<'a> Optimizer<'a> {
    /// The catalog.
    pub closed spec fn catalog_view(&self) -> Catalog {
        *self.catalog
    }

    /// The rows stored for each table.
    pub closed spec fn data_view(&self) -> Seq<(String, Vec<Tuple>)> {
        self.data@
    }

    /// An optimizer over `catalog` and the rows in `data`, one entry per table
    /// name.
    pub fn new(catalog: &'a Catalog, data: &'a Vec<(String, Vec<Tuple>)>) -> (r: Self)
        requires
            forall|i: int, j: int| 0 <= i < j < data@.len() ==> data@[i].0@ != data@[j].0@,
        ensures
            r.catalog_view() == *catalog,
            r.data_view() == data@,
    {
        Optimizer { catalog, data }
    }

    /// A copy of the rows stored for the table `name`.
    fn rows_of(&self, name: &String) -> (r: Vec<Tuple>)
        ensures
            views(r@) == table_rows(self.data@, name@),
    {
        let mut i: usize = 0;
        while i < self.data.len()
            invariant
                i <= self.data@.len(),
                table_rows(self.data@, name@) == table_rows(self.data@.skip(i as int), name@),
            decreases self.data@.len() - i,
        {
            proof {
                assert(self.data@.skip(i as int).drop_first() =~= self.data@.skip(i + 1));
            }
            if self.data[i].0 == *name {
                return clone_tuples(&self.data[i].1);
            }
            i = i + 1;
        }
        Vec::new()
    }

    /// A sequential scan of the table `table_name`.
    fn scan<F: Fn(&Tuple) -> bool, J: Fn(&Tuple, &Tuple) -> bool>(&self, table_name: &String) -> (r: Result<PlanExecutor<F, J>, String>)
        requires
            self.catalog_view().wf(),
        ensures
            match r {
                Ok(e) => scan_result(self.catalog_view(), self.data_view(), table_name@) matches Some(p)
                    && e.inv() && e.output() == p.0 && same_schema(e.schema_view(), p.1),
                Err(m) => scan_result(self.catalog_view(), self.data_view(), table_name@) is None && m@
                    == no_table_text(table_name@),
            },
    {
        let meta = match self.catalog.get_table(table_name.as_str()) {
            Ok(m) => m,
            Err(e) => {
                return Err(catalog_error_message(&e));
            },
        };
        let tuples = self.rows_of(table_name);
        let e = SeqScanExecutor::new(clone_schema(&meta.schema), tuples);
        Ok(PlanExecutor::SeqScan(e))
    }

    /// An index scan of the table `table_name` for `key`, on the column of its first index.
    fn index_scan<F: Fn(&Tuple) -> bool, J: Fn(&Tuple, &Tuple) -> bool>(&self, table_name: &String, key: i32) -> (r: Result<PlanExecutor<F, J>, String>)
        requires
            self.catalog_view().wf(),
        ensures
            match r {
                Ok(e) => index_scan_result(self.catalog_view(), self.data_view(), table_name@, key) matches Some(p)
                    && e.inv() && e.output() == p.0 && same_schema(e.schema_view(), p.1),
                Err(m) => index_scan_result(self.catalog_view(), self.data_view(), table_name@, key) is None
                    && m@ == (if !self.catalog_view().has_table(table_name@) {
                    no_table_text(table_name@)
                } else {
                    no_index_text(table_name@)
                }),
            },
    {
        let meta = match self.catalog.get_table(table_name.as_str()) {
            Ok(m) => m,
            Err(e) => {
                return Err(catalog_error_message(&e));
            },
        };
        if meta.indexes.len() == 0 {
            return Err(no_index_message(table_name));
        }
        let tuples = self.rows_of(table_name);
        let index_col_idx = meta.indexes[0].column_index;
        let e = IndexScanExecutor::new(clone_schema(&meta.schema), tuples, key, index_col_idx);
        proof {
            let p1 = |t: Seq<Value>| has_key(t, index_col_idx as int, key);
            let p2 = |t: Seq<Value>| has_key(t, meta.indexes@[0].column_index as int, key);
            assert(p1 =~= p2);
        }
        Ok(PlanExecutor::IndexScan(e))
    }

    /// Whether some index of the table covers the column named `col`.
    fn covers_column(meta: &TableMetadata, col: &String) -> (r: bool)
        ensures
            r == exists|k: int|
                0 <= k < meta.indexes@.len() && #[trigger] meta.indexes@[k].column_index
                    < meta.schema.columns@.len() && meta.schema.columns@[meta.indexes@[k].column_index as int].name@
                    == col@,
    {
        let mut k: usize = 0;
        while k < meta.indexes.len()
            invariant
                k <= meta.indexes@.len(),
                forall|j: int|
                    0 <= j < k ==> !(#[trigger] meta.indexes@[j].column_index < meta.schema.columns@.len()
                        && meta.schema.columns@[meta.indexes@[j].column_index as int].name@ == col@),
            decreases meta.indexes@.len() - k,
        {
            let c = meta.indexes[k].column_index;
            if c < meta.schema.columns.len() && meta.schema.columns[c].name == *col {
                return true;
            }
            k = k + 1;
        }
        false
    }

    /// Builds the executor of `plan`. A filter with an index match over a
    /// sequential scan of a table with an index on the matched column becomes
    /// an index scan of the table for the value (on the column of its first
    /// index); a join takes the schema of its left side.
    /// Fails when a table is missing or an index scan finds no index.
    pub fn optimize<F: Fn(&Tuple) -> bool, J: Fn(&Tuple, &Tuple) -> bool>(&self, plan: LogicalPlan<F, J>) -> (r: Result<PlanExecutor<F, J>, String>)
        requires
            self.catalog_view().wf(),
            plan_predicates_ok(plan),
        ensures
            match r {
                Ok(e) => planned(self.catalog_view(), self.data_view(), plan) matches Some(p) && e.inv()
                    && e.output() == p.0 && same_schema(e.schema_view(), p.1),
                Err(m) => planned(self.catalog_view(), self.data_view(), plan) is None && m@ == plan_error(
                    self.catalog_view(),
                    self.data_view(),
                    plan,
                ),
            },
            match plan {
                LogicalPlan::Filter { child, predicate, index_match: Some((col, val)) } => match *child {
                    LogicalPlan::SeqScan { table_name } => {
                        let c = self.catalog_view().table(table_name@).indexes@[0].column_index as int;
                        (forall|t: Seq<Value>| #[trigger] passes(predicate, t) == has_key(t, c, val))
                            && r is Ok ==> r->Ok_0.output() == table_rows(self.data_view(), table_name@).filter(
                            |t: Seq<Value>| passes(predicate, t),
                        )
                    },
                    _ => true,
                },
                _ => true,
            },
        decreases plan,
    {
        match plan {
            LogicalPlan::SeqScan { table_name } => self.scan(&table_name),
            LogicalPlan::IndexScan { table_name, key } => self.index_scan(&table_name, key),
            LogicalPlan::NestedLoopJoin { left, right, predicate } => {
                let left_plan = match self.optimize(*left) {
                    Ok(e) => e,
                    Err(m) => {
                        return Err(m);
                    },
                };
                let right_plan = match self.optimize(*right) {
                    Ok(e) => e,
                    Err(m) => {
                        return Err(m);
                    },
                };
                let schema = clone_schema(left_plan.plan_schema_ref());
                Ok(
                    PlanExecutor::NestedLoopJoin {
                        left: Box::new(left_plan),
                        right: Box::new(right_plan),
                        predicate,
                        schema,
                        results: Vec::new(),
                        cursor: 0,
                    },
                )
            },
            LogicalPlan::Filter { child, predicate, index_match } => {
                if let LogicalPlan::SeqScan { table_name } = &*child {
                    if let Some((col_name, val)) = &index_match {
                        let meta = match self.catalog.get_table(table_name.as_str()) {
                            Ok(m) => m,
                            Err(e) => {
                                let m = catalog_error_message(&e);
                                proof {
                                    assert(plan_error(self.catalog_view(), self.data_view(), *child) == no_table_text(table_name@));
                                    assert(m@ == no_table_text(table_name@));
                                }
                                return Err(m);
                            },
                        };
                        if Self::covers_column(meta, col_name) {
                            let r = self.index_scan(table_name, *val);
                            proof {
                                let c0 = meta.indexes@[0].column_index as int;
                                let p1 = |t: Seq<Value>| has_key(t, c0, *val);
                                let p3 = |t: Seq<Value>| passes(predicate, t);
                                if forall|t: Seq<Value>| #[trigger] passes(predicate, t) == has_key(t, c0, *val) {
                                    assert(p1 =~= p3);
                                }
                            }
                            return r;
                        }
                    }
                }
                let child_plan = match self.optimize(*child) {
                    Ok(e) => e,
                    Err(m) => {
                        return Err(m);
                    },
                };
                let ghost cp = child_plan;
                let e = PlanExecutor::Filter { child: Box::new(child_plan), predicate };
                proof {
                    let p1 = |t: Seq<Value>| passes(predicate, t);
                    assert(e.plan_output() == cp.plan_output().filter(p1));
                }
                Ok(e)
            },
        }
    }
}

} // verus!
