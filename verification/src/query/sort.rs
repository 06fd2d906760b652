use vstd::prelude::*;
use vstd::string::StrSliceExecFns;
use crate::catalog::schema::Schema;
use crate::query::executors::{Executor, Tuple, Value, views, clone_tuple};

verus! {

broadcast use vstd::seq_lib::group_seq_properties;

/// Lexicographic order of character sequences by code point (the order of
/// strings by their UTF-8 bytes).
pub open spec fn chars_lt(a: Seq<char>, b: Seq<char>) -> bool
    decreases a.len(),
{
    if a.len() == 0 {
        b.len() > 0
    } else if b.len() == 0 {
        false
    } else if a[0] != b[0] {
        (a[0] as u32) < (b[0] as u32)
    } else {
        chars_lt(a.drop_first(), b.drop_first())
    }
}

/// The position of a value's variant: integers, then strings, then booleans.
pub open spec fn variant_rank(v: Value) -> int {
    match v {
        Value::Integer(_) => 0,
        Value::Varchar(_) => 1,
        Value::Boolean(_) => 2,
    }
}

/// The order of values: by variant, then integers numerically, strings
/// lexicographically, `false` before `true`.
pub open spec fn value_lt(a: Value, b: Value) -> bool {
    match (a, b) {
        (Value::Integer(x), Value::Integer(y)) => x < y,
        (Value::Varchar(x), Value::Varchar(y)) => chars_lt(x@, y@),
        (Value::Boolean(x), Value::Boolean(y)) => !x && y,
        _ => variant_rank(a) < variant_rank(b),
    }
}

/// Where a stable insertion puts `x` into `s`: after every element whose key
/// is not greater than `x`'s, scanning from the back.
pub open spec fn insert_point(s: Seq<Seq<Value>>, x: Seq<Value>, idx: int) -> int
    decreases s.len(),
{
    if s.len() == 0 {
        0
    } else if value_lt(x[idx], s.last()[idx]) {
        insert_point(s.drop_last(), x, idx)
    } else {
        s.len() as int
    }
}

/// `s` ordered by the value at position `idx`, keeping the input order of
/// tuples with equal values (a stable sort).
pub open spec fn stable_sorted(s: Seq<Seq<Value>>, idx: int) -> Seq<Seq<Value>>
    decreases s.len(),
{
    if s.len() == 0 {
        s
    } else {
        let r = stable_sorted(s.drop_last(), idx);
        let p = insert_point(r, s.last(), idx);
        r.take(p).push(s.last()) + r.skip(p)
    }
}

proof fn lemma_insert_point(s: Seq<Seq<Value>>, x: Seq<Value>, idx: int)
    ensures
        0 <= insert_point(s, x, idx) <= s.len(),
        forall|k: int| insert_point(s, x, idx) <= k < s.len() ==> value_lt(x[idx], #[trigger] s[k][idx]),
        insert_point(s, x, idx) > 0 ==> !value_lt(x[idx], s[insert_point(s, x, idx) - 1][idx]),
    decreases s.len(),
{
    if s.len() > 0 && value_lt(x[idx], s.last()[idx]) {
        lemma_insert_point(s.drop_last(), x, idx);
        assert forall|k: int| insert_point(s, x, idx) <= k < s.len() implies value_lt(x[idx], #[trigger] s[k][idx]) by {
            if k < s.len() - 1 {
                assert(s[k] == s.drop_last()[k]);
            }
        }
    }
}

proof fn lemma_stable_sorted_len(s: Seq<Seq<Value>>, idx: int)
    ensures
        stable_sorted(s, idx).len() == s.len(),
        forall|k: int| 0 <= k < stable_sorted(s, idx).len() ==> s.contains(#[trigger] stable_sorted(s, idx)[k]),
    decreases s.len(),
{
    if s.len() > 0 {
        lemma_stable_sorted_len(s.drop_last(), idx);
        let r = stable_sorted(s.drop_last(), idx);
        lemma_insert_point(r, s.last(), idx);
        let p = insert_point(r, s.last(), idx);
        let t = r.take(p).push(s.last()) + r.skip(p);
        assert forall|k: int| 0 <= k < t.len() implies s.contains(#[trigger] t[k]) by {
            if k < p {
                assert(t[k] == r[k]);
                assert(s.drop_last().contains(r[k]));
            } else if k == p {
                assert(s[s.len() - 1] == s.last());
            } else {
                assert(t[k] == r[k - 1]);
                assert(s.drop_last().contains(r[k - 1]));
            }
        }
    }
}

proof fn lemma_chars_lt_asym(a: Seq<char>, b: Seq<char>)
    ensures
        chars_lt(a, b) ==> !chars_lt(b, a),
    decreases a.len(),
{
    if a.len() > 0 && b.len() > 0 && a[0] == b[0] {
        lemma_chars_lt_asym(a.drop_first(), b.drop_first());
    }
}

proof fn lemma_chars_lt_split(a: Seq<char>, b: Seq<char>, c: Seq<char>)
    ensures
        chars_lt(a, c) ==> chars_lt(a, b) || chars_lt(b, c),
    decreases a.len(),
{
    if a.len() > 0 && b.len() > 0 && c.len() > 0 {
        let (x, y, z) = (a[0] as u32, b[0] as u32, c[0] as u32);
        vstd::utf8::char_u32_cast(a[0], x);
        vstd::utf8::char_u32_cast(b[0], y);
        vstd::utf8::char_u32_cast(c[0], z);
        assert(a[0] == b[0] <==> x == y);
        assert(b[0] == c[0] <==> y == z);
        assert(a[0] == c[0] <==> x == z);
        if a[0] == b[0] && b[0] == c[0] {
            lemma_chars_lt_split(a.drop_first(), b.drop_first(), c.drop_first());
        }
    }
}

/// The order of values is a strict weak order: never both ways, and a value
/// below another is below or above every third value.
proof fn lemma_value_lt_order(a: Value, b: Value, c: Value)
    ensures
        value_lt(a, b) ==> !value_lt(b, a),
        value_lt(a, c) ==> value_lt(a, b) || value_lt(b, c),
{
    match (a, b) {
        (Value::Varchar(x), Value::Varchar(y)) => {
            lemma_chars_lt_asym(x@, y@);
        },
        _ => {},
    }
    match (a, b, c) {
        (Value::Varchar(x), Value::Varchar(y), Value::Varchar(z)) => {
            lemma_chars_lt_split(x@, y@, z@);
        },
        _ => {},
    }
}

/// Neither value is below the other: they sort as equals.
pub open spec fn value_equiv(a: Value, b: Value) -> bool {
    !value_lt(a, b) && !value_lt(b, a)
}

/// The tuples of `s` whose value at position `idx` sorts as equal to `v`,
/// in their order in `s`.
pub open spec fn with_key(s: Seq<Seq<Value>>, idx: int, v: Value) -> Seq<Seq<Value>> {
    s.filter(|t: Seq<Value>| value_equiv(t[idx], v))
}

proof fn lemma_filter_none<A>(s: Seq<A>, pred: spec_fn(A) -> bool)
    requires
        forall|k: int| 0 <= k < s.len() ==> !pred(#[trigger] s[k]),
    ensures
        s.filter(pred) == Seq::<A>::empty(),
    decreases s.len(),
{
    reveal(Seq::filter);
    if s.len() > 0 {
        assert forall|k: int| 0 <= k < s.drop_last().len() implies !pred(#[trigger] s.drop_last()[k]) by {
            assert(s.drop_last()[k] == s[k]);
        }
        lemma_filter_none(s.drop_last(), pred);
        assert(!pred(s[s.len() - 1]));
    }
}

proof fn lemma_filter_push<A>(s: Seq<A>, x: A, pred: spec_fn(A) -> bool)
    ensures
        s.push(x).filter(pred) == if pred(x) {
            s.filter(pred).push(x)
        } else {
            s.filter(pred)
        },
{
    reveal(Seq::filter);
    assert(s.push(x).drop_last() =~= s);
}

/// The sort is stable: the tuples whose values at position `idx` sort as
/// equal come out in the order in which they went in.
pub proof fn lemma_stable_sorted_is_stable(s: Seq<Seq<Value>>, idx: int, v: Value)
    ensures
        with_key(stable_sorted(s, idx), idx, v) == with_key(s, idx, v),
    decreases s.len(),
{
    let pred = |t: Seq<Value>| value_equiv(t[idx], v);
    if s.len() == 0 {
        return;
    }
    let d = s.drop_last();
    let x = s.last();
    lemma_stable_sorted_is_stable(d, idx, v);
    lemma_stable_sorted_len(d, idx);
    let r = stable_sorted(d, idx);
    lemma_insert_point(r, x, idx);
    let p = insert_point(r, x, idx);
    let a = r.take(p);
    let b = r.skip(p);
    let t = a.push(x) + b;
    assert(stable_sorted(s, idx) == t);
    assert(s =~= d.push(x));
    lemma_filter_push(d, x, pred);
    lemma_filter_push(a, x, pred);
    Seq::filter_distributes_over_add(a.push(x), b, pred);
    Seq::filter_distributes_over_add(a, b, pred);
    assert(r =~= a + b);
    if pred(x) {
        assert forall|k: int| 0 <= k < b.len() implies !pred(#[trigger] b[k]) by {
            assert(b[k] == r[p + k]);
            assert(value_lt(x[idx], r[p + k][idx]));
            lemma_value_lt_order(x[idx], v, b[k][idx]);
        }
        lemma_filter_none(b, pred);
        assert(a.filter(pred).push(x) + b.filter(pred) =~= (a.filter(pred) + b.filter(pred)).push(x));
    }
}

/// No tuple comes before an earlier one by the value at position `idx`.
pub open spec fn sorted_by(s: Seq<Seq<Value>>, idx: int) -> bool {
    forall|i: int, j: int| 0 <= i < j < s.len() ==> !value_lt(#[trigger] s[j][idx], #[trigger] s[i][idx])
}

/// The sort's output is ordered by the value at position `idx` and holds
/// exactly the input's tuples.
pub proof fn lemma_stable_sorted_is_sorted_permutation(s: Seq<Seq<Value>>, idx: int)
    ensures
        sorted_by(stable_sorted(s, idx), idx),
        stable_sorted(s, idx).to_multiset() == s.to_multiset(),
    decreases s.len(),
{
    if s.len() == 0 {
        return;
    }
    let d = s.drop_last();
    let x = s.last();
    lemma_stable_sorted_is_sorted_permutation(d, idx);
    lemma_stable_sorted_len(d, idx);
    let r = stable_sorted(d, idx);
    lemma_insert_point(r, x, idx);
    let p = insert_point(r, x, idx);
    let t = r.take(p).push(x) + r.skip(p);
    assert(stable_sorted(s, idx) == t);
    assert forall|i: int, j: int| 0 <= i < j < t.len() implies !value_lt(#[trigger] t[j][idx], #[trigger] t[i][idx]) by {
        if j < p {
            assert(t[i] == r[i] && t[j] == r[j]);
        } else if j == p {
            assert(t[i] == r[i]);
            assert(t[j] == x);
            if i < p - 1 {
                assert(!value_lt(r[p - 1][idx], r[i][idx]));
            }
            lemma_value_lt_order(x[idx], r[p - 1][idx], r[i][idx]);
        } else if i < p {
            assert(t[i] == r[i] && t[j] == r[j - 1]);
        } else if i == p {
            assert(t[i] == x && t[j] == r[j - 1]);
            lemma_value_lt_order(x[idx], r[j - 1][idx], x[idx]);
        } else {
            assert(t[i] == r[i - 1] && t[j] == r[j - 1]);
        }
    }
    vstd::seq_lib::lemma_multiset_commutative(r.take(p).push(x), r.skip(p));
    vstd::seq_lib::lemma_multiset_commutative(r.take(p), r.skip(p));
    assert(r =~= r.take(p) + r.skip(p));
    r.take(p).to_multiset_ensures();
    d.to_multiset_ensures();
    assert(s =~= d.push(x));
    assert(t.to_multiset() =~= s.to_multiset());
}

/// Integers are ordered as signed numbers: `Integer(x)` comes before
/// `Integer(y)` exactly when `x < y`.
pub proof fn lemma_integers_order_numerically(x: i32, y: i32)
    ensures
        value_lt(Value::Integer(x), Value::Integer(y)) <==> x < y,
{
}

/// Strings are ordered by their first differing character, by code point;
/// when one is a prefix of the other, the shorter comes first.
pub proof fn lemma_strings_order_by_first_difference(a: Seq<char>, b: Seq<char>, k: int)
    requires
        0 <= k <= a.len(),
        k <= b.len(),
        a.take(k) == b.take(k),
        k < a.len() && k < b.len() ==> a[k] != b[k],
    ensures
        chars_lt(a, b) <==> (if k == a.len() || k == b.len() {
            a.len() < b.len()
        } else {
            (a[k] as u32) < (b[k] as u32)
        }),
    decreases k,
{
    if k > 0 {
        assert(a[0] == a.take(k)[0]);
        assert(b[0] == b.take(k)[0]);
        assert(a.drop_first().take(k - 1) =~= a.take(k).drop_first());
        assert(b.drop_first().take(k - 1) =~= b.take(k).drop_first());
        lemma_strings_order_by_first_difference(a.drop_first(), b.drop_first(), k - 1);
    }
}

/// Across kinds, integers come before strings and strings before booleans;
/// among booleans `false` comes before `true`; no value comes before itself.
pub proof fn lemma_value_order_of_kinds(a: Value, b: Value)
    ensures
        a is Integer && !(b is Integer) ==> value_lt(a, b),
        a is Varchar && b is Boolean ==> value_lt(a, b),
        value_lt(a, b) ==> !value_lt(b, a),
        a is Boolean && b is Boolean ==> (value_lt(a, b) <==> (!a->Boolean_0 && b->Boolean_0)),
{
    match (a, b) {
        (Value::Varchar(x), Value::Varchar(y)) => {
            lemma_chars_lt_asym(x@, y@);
        },
        _ => {},
    }
}

/// Sorting rows whose key is an integer puts the keys in ascending signed
/// order.
pub proof fn lemma_integer_keys_ascend(s: Seq<Seq<Value>>, idx: int)
    requires
        forall|k: int| 0 <= k < s.len() ==> idx < (#[trigger] s[k]).len() && s[k][idx] is Integer,
    ensures
        ({
            let t = stable_sorted(s, idx);
            forall|i: int, j: int|
                0 <= i < j < t.len() ==> (#[trigger] t[i][idx])->Integer_0 <= (#[trigger] t[j][idx])->Integer_0
        }),
{
    let t = stable_sorted(s, idx);
    lemma_stable_sorted_is_sorted_permutation(s, idx);
    assert forall|k: int| 0 <= k < t.len() implies #[trigger] t[k][idx] is Integer by {
        t.to_multiset_ensures();
        s.to_multiset_ensures();
        assert(t.to_multiset().count(t[k]) > 0);
        assert(s.contains(t[k]));
    }
    assert forall|i: int, j: int| 0 <= i < j < t.len() implies (#[trigger] t[i][idx])->Integer_0 <= (
    #[trigger] t[j][idx])->Integer_0 by {
        assert(!value_lt(t[j][idx], t[i][idx]));
        assert(t[i][idx] is Integer && t[j][idx] is Integer);
    }
}

/// Whether `a` comes before `b` in code-point order.
fn chars_less(a: &str, b: &str) -> (r: bool)
    ensures
        r == chars_lt(a@, b@),
{
    let la = a.unicode_len();
    let lb = b.unicode_len();
    let mut i: usize = 0;
    while i < la && i < lb
        invariant
            la == a@.len(),
            lb == b@.len(),
            i <= la,
            i <= lb,
            chars_lt(a@, b@) == chars_lt(a@.skip(i as int), b@.skip(i as int)),
        decreases la - i,
    {
        let ca = a.get_char(i);
        let cb = b.get_char(i);
        if ca != cb {
            return (ca as u32) < (cb as u32);
        }
        proof {
            assert(a@.skip(i as int).drop_first() =~= a@.skip(i + 1));
            assert(b@.skip(i as int).drop_first() =~= b@.skip(i + 1));
        }
        i = i + 1;
    }
    la - i == 0 && lb - i > 0
}

/// Whether `a` comes before `b` (see `value_lt`).
pub fn value_less(a: &Value, b: &Value) -> (r: bool)
    ensures
        r == value_lt(*a, *b),
{
    match (a, b) {
        (Value::Integer(x), Value::Integer(y)) => *x < *y,
        (Value::Varchar(x), Value::Varchar(y)) => chars_less(x.as_str(), y.as_str()),
        (Value::Boolean(x), Value::Boolean(y)) => !*x && *y,
        (Value::Integer(_), _) => true,
        (Value::Varchar(_), Value::Boolean(_)) => true,
        _ => false,
    }
}

/// Sorts by the value at a column, collecting the whole input first. The
/// tuples come out in `stable_sorted` order.
pub struct ExternalMergeSortExecutor<E: Executor> {
    child: Box<E>,
    sorted_tuples: Vec<Tuple>,
    cursor: usize,
    sort_idx: usize,
}

/// Every tuple of `s` has a value at `idx`, as comparing requires; with fewer
/// than two tuples nothing is compared.
pub open spec fn sortable(s: Seq<Seq<Value>>, idx: int) -> bool {
    s.len() >= 2 ==> forall|k: int| 0 <= k < s.len() ==> idx < #[trigger] s[k].len()
}

/// Inserts `tuple` into `sorted` where a stable insertion sort puts it.
fn insert_sorted(sorted: &mut Vec<Tuple>, tuple: Tuple, idx: usize)
    requires
        old(sorted)@.len() > 0 ==> idx < tuple@.len(),
        forall|k: int| 0 <= k < old(sorted)@.len() ==> idx < #[trigger] views(old(sorted)@)[k].len(),
    ensures
        ({
            let r = views(old(sorted)@);
            let p = insert_point(r, tuple@, idx as int);
            views(final(sorted)@) == r.take(p).push(tuple@) + r.skip(p)
        }),
{
    let ghost r = views(sorted@);
    let mut p = sorted.len();
    proof {
        assert(r.take(p as int) =~= r);
    }
    while p > 0 && value_less(&tuple[idx], &sorted[p - 1][idx])
        invariant
            p <= sorted@.len(),
            sorted@ == old(sorted)@,
            r == views(sorted@),
            old(sorted)@.len() > 0 ==> idx < tuple@.len(),
            forall|k: int| 0 <= k < r.len() ==> idx < #[trigger] r[k].len(),
            insert_point(r, tuple@, idx as int) == insert_point(r.take(p as int), tuple@, idx as int),
        decreases p,
    {
        proof {
            assert(r.take(p as int).drop_last() =~= r.take(p - 1));
            assert(r.take(p as int).last() == r[p - 1]);
            assert(sorted@[p - 1]@ == r[p - 1]);
        }
        p = p - 1;
    }
    proof {
        if p > 0 {
            assert(r.take(p as int).last() == r[p - 1]);
            assert(sorted@[p - 1]@ == r[p - 1]);
        }
        assert(insert_point(r, tuple@, idx as int) == p);
    }
    let ghost x = tuple@;
    sorted.insert(p, tuple);
    proof {
        assert(views(sorted@) =~= r.take(p as int).push(x) + r.skip(p as int));
    }
}

impl<E: Executor> ExternalMergeSortExecutor<E> {
    /// A sort of `child`'s tuples by column `sort_idx`; nothing is sorted
    /// before `init`.
    pub fn new(child: Box<E>, sort_idx: usize) -> (r: Self)
        requires
            child.inv(),
            sortable(child.output(), sort_idx as int),
        ensures
            r.inv(),
            r.output() == stable_sorted(child.output(), sort_idx as int),
            r.pending() == Seq::<Seq<Value>>::empty(),
            r.schema_view() == child.schema_view(),
    {
        ExternalMergeSortExecutor { child, sorted_tuples: Vec::new(), cursor: 0, sort_idx }
    }

    /// Reads all remaining tuples of the child and sorts them into
    /// `sorted_tuples` (stable insertion by the sort column).
    fn perform_external_merge_sort(&mut self)
        requires
            old(self).inv(),
            old(self).sorted_tuples@.len() == 0,
            old(self).child.pending() == old(self).child.output(),
        ensures
            final(self).inv(),
            final(self).child.output() == old(self).child.output(),
            final(self).child.schema_view() == old(self).child.schema_view(),
            final(self).sort_idx == old(self).sort_idx,
            views(final(self).sorted_tuples@) == stable_sorted(old(self).child.output(), old(self).sort_idx as int),
            final(self).cursor == old(self).cursor,
    {
        let idx = self.sort_idx;
        let ghost all = self.child.output();
        proof {
            assert(all.subrange(0, 0) =~= Seq::<Seq<Value>>::empty());
            assert(views(self.sorted_tuples@) =~= Seq::<Seq<Value>>::empty());
        }
        loop
            invariant
                self.child.inv(),
                self.child.output() == all,
                all == old(self).child.output(),
                idx == old(self).sort_idx,
                self.child.schema_view() == old(self).child.schema_view(),
                self.sort_idx == idx,
                self.cursor == old(self).cursor,
                self.cursor == 0,
                sortable(all, idx as int),
                all.subrange(0, all.len() - self.child.pending().len()) + self.child.pending() == all,
                self.child.pending().len() <= all.len(),
                views(self.sorted_tuples@) == stable_sorted(all.subrange(0, all.len() - self.child.pending().len()), idx as int),
            decreases self.child.pending().len(),
        {
            let ghost before = self.child.pending();
            let ghost done = all.subrange(0, all.len() - before.len());
            proof {
                lemma_stable_sorted_len(done, idx as int);
            }
            match self.child.next() {
                Some(tuple) => {
                    let ghost done2 = all.subrange(0, all.len() - self.child.pending().len());
                    proof {
                        assert(done2 =~= done.push(tuple@)) by {
                            assert(all =~= done + before);
                        }
                        assert(done2.drop_last() =~= done);
                        lemma_stable_sorted_len(done, idx as int);
                    }
                    proof {
                        if self.sorted_tuples@.len() > 0 {
                            assert(done.len() >= 1);
                            assert(all.len() >= 2);
                            assert(all[all.len() - before.len()] == tuple@);
                            assert forall|k: int| 0 <= k < self.sorted_tuples@.len() implies idx < #[trigger] views(self.sorted_tuples@)[k].len() by {
                                assert(done.contains(views(self.sorted_tuples@)[k]));
                            }
                        }
                    }
                    insert_sorted(&mut self.sorted_tuples, tuple, idx);
                },
                None => {
                    proof {
                        assert(all.subrange(0, all.len() as int) =~= all);
                    }
                    return;
                },
            }
        }
    }
}

impl<E: Executor> Executor for ExternalMergeSortExecutor<E> {
    closed spec fn inv(&self) -> bool {
        &&& self.child.inv()
        &&& self.cursor <= self.sorted_tuples@.len()
        &&& sortable(self.child.output(), self.sort_idx as int)
    }

    closed spec fn pending(&self) -> Seq<Seq<Value>> {
        views(self.sorted_tuples@).subrange(self.cursor as int, self.sorted_tuples@.len() as int)
    }

    closed spec fn output(&self) -> Seq<Seq<Value>> {
        stable_sorted(self.child.output(), self.sort_idx as int)
    }

    closed spec fn schema_view(&self) -> Schema {
        self.child.schema_view()
    }

    fn init(&mut self) {
        self.child.init();
        self.sorted_tuples.clear();
        self.cursor = 0;
        self.perform_external_merge_sort();
        proof {
            let v = views(self.sorted_tuples@);
            assert(v.subrange(0, v.len() as int) =~= v);
        }
    }

    fn next(&mut self) -> (r: Option<Tuple>) {
        if self.cursor < self.sorted_tuples.len() {
            let tuple = clone_tuple(&self.sorted_tuples[self.cursor]);
            self.cursor = self.cursor + 1;
            proof {
                assert(views(self.sorted_tuples@).subrange(self.cursor as int, self.sorted_tuples@.len() as int)
                    =~= views(old(self).sorted_tuples@).subrange(old(self).cursor as int, self.sorted_tuples@.len() as int).drop_first());
            }
            Some(tuple)
        } else {
            None
        }
    }

    fn get_output_schema(&self) -> (r: &Schema) {
        self.child.get_output_schema()
    }
}

} // verus!
