use vstd::prelude::*;
use crate::catalog::schema::Schema;

verus! {

broadcast use vstd::seq_lib::group_seq_properties;

/// A value stored in a column.
#[derive(Debug, Clone, PartialEq, PartialOrd)]
pub enum Value {
    Integer(i32),
    Varchar(String),
    Boolean(bool),
}

/// A row: one value per column.
pub type Tuple = Vec<Value>;

/// The values of each tuple.
pub open spec fn views(ts: Seq<Tuple>) -> Seq<Seq<Value>> {
    ts.map_values(|t: Tuple| t@)
}

/// A copy of a value.
pub fn clone_value(v: &Value) -> (r: Value)
    ensures
        r == *v,
{
    match v {
        Value::Integer(i) => Value::Integer(*i),
        Value::Varchar(s) => Value::Varchar(s.clone()),
        Value::Boolean(b) => Value::Boolean(*b),
    }
}

/// A copy of a tuple.
pub fn clone_tuple(t: &Tuple) -> (r: Tuple)
    ensures
        r@ == t@,
{
    let mut r: Tuple = Vec::new();
    let mut i: usize = 0;
    while i < t.len()
        invariant
            i <= t@.len(),
            r@ == t@.take(i as int),
        decreases t@.len() - i,
    {
        r.push(clone_value(&t[i]));
        i = i + 1;
        proof {
            assert(r@ =~= t@.take(i as int));
        }
    }
    assert(t@.take(t@.len() as int) =~= t@);
    r
}

/// A Volcano-style iterator over tuples.
///
/// `pending` is what the following calls of `next` yield, in order; `init`
/// (re)starts the executor, after which `pending` is `output`.
pub trait Executor {
    /// The executor's internal invariant.
    spec fn inv(&self) -> bool;

    /// The tuples that the following calls of `next` yield.
    spec fn pending(&self) -> Seq<Seq<Value>>;

    /// The tuples yielded after `init`.
    spec fn output(&self) -> Seq<Seq<Value>>;

    /// The schema of the tuples yielded.
    spec fn schema_view(&self) -> Schema;

    /// Initializes or resets the executor.
    fn init(&mut self)
        requires
            old(self).inv(),
        ensures
            final(self).inv(),
            final(self).output() == old(self).output(),
            final(self).pending() == old(self).output(),
            final(self).schema_view() == old(self).schema_view(),
    ;

    /// The next tuple, or `None` when there is none left.
    fn next(&mut self) -> (r: Option<Tuple>)
        requires
            old(self).inv(),
        ensures
            final(self).inv(),
            final(self).output() == old(self).output(),
            final(self).schema_view() == old(self).schema_view(),
            old(self).pending().len() == 0 ==> r is None && final(self).pending() == old(
                self,
            ).pending(),
            old(self).pending().len() > 0 ==> (r matches Some(t) && t@ == old(self).pending()[0]
                && final(self).pending() == old(self).pending().drop_first()),
    ;

    /// The schema of the tuples yielded.
    fn get_output_schema(&self) -> (r: &Schema)
        requires
            self.inv(),
        ensures
            *r == self.schema_view(),
    ;
}

/// A scan over a fixed list of tuples.
pub struct SeqScanExecutor {
    schema: Schema,
    tuples: Vec<Tuple>,
    cursor: usize,
}

impl SeqScanExecutor {
    /// A scan over `tuples`, positioned at the start.
    pub fn new(schema: Schema, tuples: Vec<Tuple>) -> (r: Self)
        ensures
            r.inv(),
            r.output() == views(tuples@),
            r.pending() == views(tuples@),
            r.schema_view() == schema,
    {
        proof {
            assert(views(tuples@).subrange(0, tuples@.len() as int) =~= views(tuples@));
        }
        SeqScanExecutor { schema, tuples, cursor: 0 }
    }
}

impl Executor for SeqScanExecutor {
    closed spec fn inv(&self) -> bool {
        self.cursor <= self.tuples@.len()
    }

    closed spec fn pending(&self) -> Seq<Seq<Value>> {
        views(self.tuples@).subrange(self.cursor as int, self.tuples@.len() as int)
    }

    closed spec fn output(&self) -> Seq<Seq<Value>> {
        views(self.tuples@)
    }

    closed spec fn schema_view(&self) -> Schema {
        self.schema
    }

    fn init(&mut self) {
        self.cursor = 0;
        proof {
            assert(views(self.tuples@).subrange(0, self.tuples@.len() as int) =~= views(self.tuples@));
        }
    }

    fn next(&mut self) -> (r: Option<Tuple>) {
        if self.cursor < self.tuples.len() {
            let tuple = clone_tuple(&self.tuples[self.cursor]);
            self.cursor = self.cursor + 1;
            proof {
                assert(views(self.tuples@).subrange(self.cursor as int, self.tuples@.len() as int)
                    =~= views(old(self).tuples@).subrange(old(self).cursor as int, self.tuples@.len() as int).drop_first());
            }
            Some(tuple)
        } else {
            None
        }
    }

    fn get_output_schema(&self) -> (r: &Schema) {
        &self.schema
    }
}

/// Whether `pred` accepts a tuple whose values are `t`.
pub open spec fn passes<P: Fn(&Tuple) -> bool>(pred: P, t: Seq<Value>) -> bool {
    exists|tt: Tuple| tt@ == t && #[trigger] pred.ensures((&tt,), true)
}

/// `pred` can be called on any tuple and its answer depends only on the
/// tuple's values.
pub open spec fn predicate_ok<P: Fn(&Tuple) -> bool>(pred: P) -> bool {
    &&& forall|t: &Tuple| #[trigger] pred.requires((t,))
    &&& forall|a: &Tuple, b: &Tuple, r1: bool, r2: bool|
        #![trigger pred.ensures((a,), r1), pred.ensures((b,), r2)]
        a@ == b@ && pred.ensures((a,), r1) && pred.ensures((b,), r2) ==> r1 == r2
}

/// Calls `pred`, whose answer is then `passes(pred, t@)`.
pub(crate) fn test_predicate<P: Fn(&Tuple) -> bool>(pred: &P, t: &Tuple) -> (r: bool)
    requires
        predicate_ok(*pred),
    ensures
        r == passes(*pred, t@),
{
    let r = pred(t);
    proof {
        if !r && passes(*pred, t@) {
            let tt = choose|tt: Tuple| tt@ == t@ && #[trigger] pred.ensures((&tt,), true);
            assert(pred.ensures((t,), r));
            assert(pred.ensures((&tt,), true));
        }
    }
    r
}

/// Yields the tuples of its child that the predicate accepts.
pub struct FilterExecutor<E: Executor, P: Fn(&Tuple) -> bool> {
    child: Box<E>,
    predicate: P,
}

impl<E: Executor, P: Fn(&Tuple) -> bool> FilterExecutor<E, P> {
    /// A filter over `child`.
    pub fn new(child: Box<E>, predicate: P) -> (r: Self)
        requires
            child.inv(),
            predicate_ok(predicate),
        ensures
            r.inv(),
            r.output() == child.output().filter(|t: Seq<Value>| passes(predicate, t)),
            r.pending() == child.pending().filter(|t: Seq<Value>| passes(predicate, t)),
            r.schema_view() == child.schema_view(),
    {
        FilterExecutor { child, predicate }
    }
}

impl<E: Executor, P: Fn(&Tuple) -> bool> Executor for FilterExecutor<E, P> {
    closed spec fn inv(&self) -> bool {
        &&& self.child.inv()
        &&& predicate_ok(self.predicate)
    }

    closed spec fn pending(&self) -> Seq<Seq<Value>> {
        self.child.pending().filter(|t: Seq<Value>| passes(self.predicate, t))
    }

    closed spec fn output(&self) -> Seq<Seq<Value>> {
        self.child.output().filter(|t: Seq<Value>| passes(self.predicate, t))
    }

    closed spec fn schema_view(&self) -> Schema {
        self.child.schema_view()
    }

    fn init(&mut self) {
        self.child.init();
    }

    fn next(&mut self) -> (r: Option<Tuple>) {
        let ghost p = |t: Seq<Value>| passes(self.predicate, t);
        loop
            invariant
                self.inv(),
                p == (|t: Seq<Value>| passes(self.predicate, t)),
                self.predicate == old(self).predicate,
                self.child.output() == old(self).child.output(),
                self.child.schema_view() == old(self).child.schema_view(),
                self.child.pending().filter(p) == old(self).child.pending().filter(p),
            decreases self.child.pending().len(),
        {
            let ghost before = self.child.pending();
            match self.child.next() {
                Some(tuple) => {
                    proof {
                        assert(before =~= seq![tuple@] + before.drop_first());
                        before.drop_first().lemma_filter_prepend(tuple@, p);
                    }
                    if test_predicate(&self.predicate, &tuple) {
                        return Some(tuple);
                    }
                },
                None => {
                    return None;
                },
            }
        }
    }

    fn get_output_schema(&self) -> (r: &Schema) {
        self.child.get_output_schema()
    }
}


/// Drains an executor: the tuples that its following calls of `next` yield.
pub fn drain<E: Executor>(e: &mut E) -> (r: Vec<Tuple>)
    requires
        old(e).inv(),
    ensures
        final(e).inv(),
        views(r@) == old(e).pending(),
        final(e).output() == old(e).output(),
        final(e).schema_view() == old(e).schema_view(),
{
    let mut out: Vec<Tuple> = Vec::new();
    let ghost start = e.pending();
    loop
        invariant
            e.inv(),
            e.output() == old(e).output(),
            e.schema_view() == old(e).schema_view(),
            start == old(e).pending(),
            start == views(out@) + e.pending(),
        decreases e.pending().len(),
    {
        let ghost before = e.pending();
        match e.next() {
            Some(t) => {
                out.push(t);
                proof {
                    assert(views(out@) =~= views(out@).drop_last().push(t@));
                    assert(before =~= seq![t@] + before.drop_first());
                    assert(start =~= views(out@) + e.pending());
                }
            },
            None => {
                assert(start =~= views(out@));
                return out;
            },
        }
    }
}

/// Whether `pred` accepts a pair of tuples whose values are `l` and `r`.
pub open spec fn joins<J: Fn(&Tuple, &Tuple) -> bool>(pred: J, l: Seq<Value>, r: Seq<Value>) -> bool {
    exists|a: Tuple, b: Tuple| a@ == l && b@ == r && #[trigger] pred.ensures((&a, &b), true)
}

/// `pred` can be called on any pair of tuples and its answer depends only on
/// the tuples' values.
pub open spec fn join_predicate_ok<J: Fn(&Tuple, &Tuple) -> bool>(pred: J) -> bool {
    &&& forall|a: &Tuple, b: &Tuple| #[trigger] pred.requires((a, b))
    &&& forall|a1: &Tuple, b1: &Tuple, a2: &Tuple, b2: &Tuple, r1: bool, r2: bool|
        #![trigger pred.ensures((a1, b1), r1), pred.ensures((a2, b2), r2)]
        a1@ == a2@ && b1@ == b2@ && pred.ensures((a1, b1), r1) && pred.ensures((a2, b2), r2)
            ==> r1 == r2
}

/// Calls `pred`, whose answer is then `joins(pred, a@, b@)`.
fn test_join_predicate<J: Fn(&Tuple, &Tuple) -> bool>(pred: &J, a: &Tuple, b: &Tuple) -> (r: bool)
    requires
        join_predicate_ok(*pred),
    ensures
        r == joins(*pred, a@, b@),
{
    let r = pred(a, b);
    proof {
        if !r && joins(*pred, a@, b@) {
            let (ta, tb) = choose|ta: Tuple, tb: Tuple|
                ta@ == a@ && tb@ == b@ && #[trigger] pred.ensures((&ta, &tb), true);
            assert(pred.ensures((a, b), r));
            assert(pred.ensures((&ta, &tb), true));
        }
    }
    r
}

/// The rows of `rs` that `pred` joins to `l`, each appended to `l`, in order.
pub open spec fn matches_of<J: Fn(&Tuple, &Tuple) -> bool>(pred: J, l: Seq<Value>, rs: Seq<Seq<Value>>) -> Seq<Seq<Value>> {
    rs.filter(|r: Seq<Value>| joins(pred, l, r)).map_values(|r: Seq<Value>| l + r)
}

/// The nested loop join of `ls` and `rs`: for each row of `ls` in order, the
/// rows of `rs` it joins to, appended to it.
pub open spec fn join_rows<J: Fn(&Tuple, &Tuple) -> bool>(ls: Seq<Seq<Value>>, rs: Seq<Seq<Value>>, pred: J) -> Seq<Seq<Value>>
    decreases ls.len(),
{
    if ls.len() == 0 {
        Seq::empty()
    } else {
        join_rows(ls.drop_last(), rs, pred) + matches_of(pred, ls.last(), rs)
    }
}

proof fn lemma_matches_push<J: Fn(&Tuple, &Tuple) -> bool>(pred: J, l: Seq<Value>, s: Seq<Seq<Value>>, x: Seq<Value>)
    ensures
        matches_of(pred, l, s.push(x)) == if joins(pred, l, x) {
            matches_of(pred, l, s).push(l + x)
        } else {
            matches_of(pred, l, s)
        },
{
    let p = |r: Seq<Value>| joins(pred, l, r);
    s.lemma_filter_push(x, p);
    if joins(pred, l, x) {
        assert(matches_of(pred, l, s.push(x)) =~= matches_of(pred, l, s).push(l + x));
    } else {
        assert(matches_of(pred, l, s.push(x)) =~= matches_of(pred, l, s));
    }
}

/// A tuple holding the values of `a` then those of `b`.
fn concat_tuple(a: &Tuple, b: &Tuple) -> (r: Tuple)
    ensures
        r@ == a@ + b@,
{
    let mut r = clone_tuple(a);
    let mut i: usize = 0;
    while i < b.len()
        invariant
            i <= b@.len(),
            r@ == a@ + b@.take(i as int),
        decreases b@.len() - i,
    {
        r.push(clone_value(&b[i]));
        i = i + 1;
        proof {
            assert(r@ =~= a@ + b@.take(i as int));
        }
    }
    assert(b@.take(b@.len() as int) =~= b@);
    r
}

/// Every pair of a left and a right tuple that `pred` accepts, concatenated,
/// the left tuples in order and for each the right tuples in order.
pub fn join_tuples<J: Fn(&Tuple, &Tuple) -> bool>(lefts: &Vec<Tuple>, rights: &Vec<Tuple>, pred: &J) -> (r: Vec<Tuple>)
    requires
        join_predicate_ok(*pred),
    ensures
        views(r@) == join_rows(views(lefts@), views(rights@), *pred),
{
    let ghost ls = views(lefts@);
    let ghost rs = views(rights@);
    let mut out: Vec<Tuple> = Vec::new();
    let mut i: usize = 0;
    while i < lefts.len()
        invariant
            i <= lefts@.len(),
            ls == views(lefts@),
            rs == views(rights@),
            join_predicate_ok(*pred),
            views(out@) == join_rows(ls.take(i as int), rs, *pred),
        decreases lefts@.len() - i,
    {
        let ghost before = views(out@);
        let mut j: usize = 0;
        while j < rights.len()
            invariant
                j <= rights@.len(),
                i < lefts@.len(),
                ls == views(lefts@),
                rs == views(rights@),
                join_predicate_ok(*pred),
                views(out@) == before + matches_of(*pred, ls[i as int], rs.take(j as int)),
            decreases rights@.len() - j,
        {
            proof {
                assert(rs.take(j + 1) =~= rs.take(j as int).push(rs[j as int]));
                lemma_matches_push(*pred, ls[i as int], rs.take(j as int), rs[j as int]);
            }
            let ghost out0 = views(out@);
            assert(ls[i as int] == lefts@[i as int]@);
            assert(rs[j as int] == rights@[j as int]@);
            if test_join_predicate(pred, &lefts[i], &rights[j]) {
                out.push(concat_tuple(&lefts[i], &rights[j]));
                proof {
                    assert(views(out@) =~= out0.push(lefts@[i as int]@ + rights@[j as int]@));
                    assert(views(out@) =~= before + matches_of(*pred, ls[i as int], rs.take(j + 1)));
                }
            } else {
                assert(views(out@) =~= before + matches_of(*pred, ls[i as int], rs.take(j + 1)));
            }
            j = j + 1;
        }
        proof {
            assert(rs.take(rs.len() as int) =~= rs);
            assert(ls.take(i + 1).drop_last() =~= ls.take(i as int));
        }
        i = i + 1;
    }
    assert(ls.take(ls.len() as int) =~= ls);
    out
}

/// Joins two children: every pair of a left and a right tuple that the
/// predicate accepts, concatenated. `init` runs both children to the end and
/// computes the pairs; `next` then yields them.
pub struct NestedLoopJoinExecutor<E: Executor, J: Fn(&Tuple, &Tuple) -> bool> {
    left: Box<E>,
    right: Box<E>,
    predicate: J,
    schema: Schema,
    results: Vec<Tuple>,
    cursor: usize,
}

impl<E: Executor, J: Fn(&Tuple, &Tuple) -> bool> NestedLoopJoinExecutor<E, J> {
    /// A join of `left` and `right` whose tuples are described by `schema`;
    /// nothing is pending until `init`.
    pub fn new(left: Box<E>, right: Box<E>, predicate: J, schema: Schema) -> (r: Self)
        requires
            left.inv(),
            right.inv(),
            join_predicate_ok(predicate),
        ensures
            r.inv(),
            r.output() == join_rows(left.output(), right.output(), predicate),
            r.pending() == Seq::<Seq<Value>>::empty(),
            r.schema_view() == schema,
    {
        let r = NestedLoopJoinExecutor { left, right, predicate, schema, results: Vec::new(), cursor: 0 };
        assert(r.pending() =~= Seq::<Seq<Value>>::empty());
        r
    }
}

impl<E: Executor, J: Fn(&Tuple, &Tuple) -> bool> Executor for NestedLoopJoinExecutor<E, J> {
    closed spec fn inv(&self) -> bool {
        &&& self.left.inv()
        &&& self.right.inv()
        &&& join_predicate_ok(self.predicate)
        &&& self.cursor <= self.results@.len()
    }

    closed spec fn pending(&self) -> Seq<Seq<Value>> {
        views(self.results@).subrange(self.cursor as int, self.results@.len() as int)
    }

    closed spec fn output(&self) -> Seq<Seq<Value>> {
        join_rows(self.left.output(), self.right.output(), self.predicate)
    }

    closed spec fn schema_view(&self) -> Schema {
        self.schema
    }

    fn init(&mut self) {
        self.left.init();
        let lefts = drain(&mut *self.left);
        self.right.init();
        let rights = drain(&mut *self.right);
        self.results = join_tuples(&lefts, &rights, &self.predicate);
        self.cursor = 0;
        proof {
            assert(views(self.results@).subrange(0, self.results@.len() as int) =~= views(self.results@));
        }
    }

    fn next(&mut self) -> (r: Option<Tuple>) {
        if self.cursor < self.results.len() {
            let tuple = clone_tuple(&self.results[self.cursor]);
            self.cursor = self.cursor + 1;
            proof {
                assert(views(self.results@).subrange(self.cursor as int, self.results@.len() as int)
                    =~= views(old(self).results@).subrange(old(self).cursor as int, self.results@.len() as int).drop_first());
            }
            Some(tuple)
        } else {
            None
        }
    }

    fn get_output_schema(&self) -> (r: &Schema) {
        &self.schema
    }
}

} // verus!
