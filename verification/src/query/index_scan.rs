use vstd::prelude::*;
use crate::catalog::schema::Schema;
use crate::query::executors::{Executor, Tuple, Value, views, clone_tuple};

verus! {

broadcast use vstd::seq_lib::group_seq_properties;

/// Whether the tuple holds the integer `key` in column `idx`.
pub open spec fn has_key(t: Seq<Value>, idx: int, key: i32) -> bool {
    0 <= idx < t.len() && t[idx] == Value::Integer(key)
}

/// An index lookup, simulated over a list of tuples: yields the tuples whose
/// column `index_col_idx` is the integer `key`.
pub struct IndexScanExecutor {
    schema: Schema,
    tuples: Vec<Tuple>,
    key: i32,
    cursor: usize,
    index_col_idx: usize,
}

impl IndexScanExecutor {
    /// A lookup of `key` in column `index_col_idx` of `tuples`.
    pub fn new(schema: Schema, tuples: Vec<Tuple>, key: i32, index_col_idx: usize) -> (r: Self)
        ensures
            r.inv(),
            r.output() == views(tuples@).filter(|t: Seq<Value>| has_key(t, index_col_idx as int, key)),
            r.pending() == views(tuples@),
            r.schema_view() == schema,
    {
        proof {
            assert(views(tuples@).subrange(0, tuples@.len() as int) =~= views(tuples@));
        }
        IndexScanExecutor { schema, tuples, key, cursor: 0, index_col_idx }
    }
}

/// Whether the tuple holds the integer `key` in column `idx`.
fn tuple_has_key(t: &Tuple, idx: usize, key: i32) -> (r: bool)
    ensures
        r == has_key(t@, idx as int, key),
{
    if idx < t.len() {
        match &t[idx] {
            Value::Integer(v) => *v == key,
            _ => false,
        }
    } else {
        false
    }
}

impl Executor for IndexScanExecutor {
    closed spec fn inv(&self) -> bool {
        self.cursor <= self.tuples@.len()
    }

    closed spec fn pending(&self) -> Seq<Seq<Value>> {
        views(self.tuples@).subrange(self.cursor as int, self.tuples@.len() as int)
    }

    closed spec fn output(&self) -> Seq<Seq<Value>> {
        views(self.tuples@).filter(|t: Seq<Value>| has_key(t, self.index_col_idx as int, self.key))
    }

    closed spec fn schema_view(&self) -> Schema {
        self.schema
    }

    /// Restarts at the first tuple and keeps only the tuples holding the key.
    fn init(&mut self) {
        self.cursor = 0;
        let ghost p = |t: Seq<Value>| has_key(t, self.index_col_idx as int, self.key);
        let ghost all = views(self.tuples@);
        let mut kept: Vec<Tuple> = Vec::new();
        let mut i: usize = 0;
        while i < self.tuples.len()
            invariant
                i <= self.tuples@.len(),
                all == views(self.tuples@),
                p == (|t: Seq<Value>| has_key(t, self.index_col_idx as int, self.key)),
                views(kept@) == all.take(i as int).filter(p),
            decreases self.tuples@.len() - i,
        {
            proof {
                assert(all.take(i + 1) =~= all.take(i as int).push(all[i as int]));
                all.take(i as int).lemma_filter_push(all[i as int], p);
            }
            if tuple_has_key(&self.tuples[i], self.index_col_idx, self.key) {
                let t = clone_tuple(&self.tuples[i]);
                kept.push(t);
                proof {
                    assert(views(kept@) =~= views(kept@).drop_last().push(all[i as int]));
                }
            }
            i = i + 1;
        }
        proof {
            assert(all.take(self.tuples@.len() as int) =~= all);
            let f = views(kept@);
            assert(f.filter(p) =~= f) by {
                assert forall|j: int| 0 <= j < f.len() implies p(#[trigger] f[j]) by {
                    all.filter_lemma(p);
                }
                lemma_filter_all(f, p);
            }
            assert(f.subrange(0, f.len() as int) =~= f);
        }
        self.tuples = kept;
    }

    fn next(&mut self) -> (r: Option<Tuple>) {
        if self.cursor < self.tuples.len() {
            let tuple = clone_tuple(&self.tuples[self.cursor]);
            self.cursor = self.cursor + 1;
            proof {
                assert(views(self.tuples@).subrange(self.cursor as int, self.tuples@.len() as int)
                    =~= views(old(self).tuples@).subrange(old(self).cursor as int, self.tuples@.len() as int).drop_first());
            }
            Some(tuple)
        } else {
            None
        }
    }

    fn get_output_schema(&self) -> (r: &Schema) {
        &self.schema
    }
}

/// Filtering a sequence whose elements all pass leaves it unchanged.
proof fn lemma_filter_all(s: Seq<Seq<Value>>, p: spec_fn(Seq<Value>) -> bool)
    requires
        forall|j: int| 0 <= j < s.len() ==> p(#[trigger] s[j]),
    ensures
        s.filter(p) == s,
    decreases s.len(),
{
    if s.len() > 0 {
        lemma_filter_all(s.drop_last(), p);
        s.drop_last().lemma_filter_push(s.last(), p);
        assert(s.drop_last().push(s.last()) =~= s);
    } else {
        reveal(Seq::filter);
    }
}

} // verus!
