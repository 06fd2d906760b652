use vstd::prelude::*;
use crate::storage::PageId;

verus! {

broadcast use vstd::seq_lib::group_seq_properties;

/// Errors of a single B+ tree node.
#[derive(Debug)]
pub enum BTreeError {
    /// The node holds as many keys as it may.
    NodeFull,
}

/// The page id that refers to no page.
pub open spec fn invalid_page() -> PageId {
    PageId { file_id: u32::MAX, page_num: u32::MAX }
}

/// The page id that refers to no page.
pub fn invalid_page_id() -> (r: PageId)
    ensures
        r == invalid_page(),
{
    PageId { file_id: u32::MAX, page_num: u32::MAX }
}

/// The key type of the tree.
pub type KeyType = i32;

/// The value type of the tree (typically a record id).
pub type ValueType = u64;

/// The kind of a node.
#[derive(Debug, Clone, Copy, PartialEq, Eq, Structural)]
pub enum NodeType {
    Internal,
    Leaf,
}

impl NodeType {
    /// The byte that marks the node kind in a page: 1 internal, 2 leaf.
    pub fn as_u8(&self) -> (r: u8)
        ensures
            r == node_type_byte(*self),
    {
        match self {
            NodeType::Internal => 1,
            NodeType::Leaf => 2,
        }
    }
}

/// The byte that marks a node kind.
pub open spec fn node_type_byte(t: NodeType) -> u8 {
    match t {
        NodeType::Internal => 1,
        NodeType::Leaf => 2,
    }
}

/// The header of a node page.
#[derive(Debug, Clone, Copy)]
pub struct BTreePageHeader {
    /// `node_type_byte` of the node kind.
    pub node_type: u8,
    pub num_keys: u16,
    pub max_keys: u16,
    pub parent_page_id: PageId,
    /// The next leaf, for leaf chaining.
    pub next_page_id: PageId,
}

/// How many keys a node can physically hold.
pub const MAX_KEYS: usize = 340;

/// A leaf: `num_keys` keys in its first slots, each with its value.
pub struct LeafNode {
    pub header: BTreePageHeader,
    pub keys: Vec<KeyType>,
    pub values: Vec<ValueType>,
}

/// An internal node: `num_keys` separator keys and one more child.
pub struct InternalNode {
    pub header: BTreePageHeader,
    pub keys: Vec<KeyType>,
    pub children: Vec<PageId>,
}

/// The first position in `s` whose key is not below `key` (or `s.len()`).
pub open spec fn insert_pos(s: Seq<KeyType>, key: KeyType) -> int
    decreases s.len(),
{
    if s.len() == 0 {
        0
    } else if s[0] < key {
        1 + insert_pos(s.drop_first(), key)
    } else {
        0
    }
}

proof fn lemma_insert_pos(s: Seq<KeyType>, key: KeyType)
    ensures
        0 <= insert_pos(s, key) <= s.len(),
        forall|i: int| 0 <= i < insert_pos(s, key) ==> #[trigger] s[i] < key,
        insert_pos(s, key) < s.len() ==> s[insert_pos(s, key)] >= key,
    decreases s.len(),
{
    if s.len() > 0 && s[0] < key {
        lemma_insert_pos(s.drop_first(), key);
        assert forall|i: int| 0 <= i < insert_pos(s, key) implies #[trigger] s[i] < key by {
            if i > 0 {
                assert(s[i] == s.drop_first()[i - 1]);
            }
        }
    }
}

/// `s` is sorted in non-decreasing order.
pub open spec fn sorted(s: Seq<KeyType>) -> bool {
    forall|i: int, j: int| 0 <= i <= j < s.len() ==> s[i] <= s[j]
}

/// `s` with `x` put at position `i`, the elements from `i` on shifted right
/// by one within the fixed length of `s` (the last element drops out).
pub open spec fn shifted_in<T>(s: Seq<T>, i: int, n: int, x: T) -> Seq<T> {
    s.take(i).push(x) + s.subrange(i, n) + s.subrange(n + 1, s.len() as int)
}

/// The first `n` key–value pairs of a leaf, position by position.
pub open spec fn live_pairs(keys: Seq<KeyType>, values: Seq<ValueType>, n: int) -> Seq<(KeyType, ValueType)> {
    Seq::new(n as nat, |t: int| (keys[t], values[t]))
}

/// Inserting an element anywhere adds it once to the multiset.
pub proof fn lemma_insert_to_multiset<A>(s: Seq<A>, i: int, x: A)
    requires
        0 <= i <= s.len(),
    ensures
        s.insert(i, x).to_multiset() == s.to_multiset().insert(x),
{
    s.to_multiset_ensures();
    vstd::seq_lib::lemma_multiset_commutative(s.take(i).push(x), s.skip(i));
    vstd::seq_lib::lemma_multiset_commutative(s.take(i), s.skip(i));
    assert(s.insert(i, x) =~= s.take(i).push(x) + s.skip(i));
    assert(s =~= s.take(i) + s.skip(i));
    s.take(i).to_multiset_ensures();
}

impl LeafNode {
    /// The arrays have their fixed length.
    pub open spec fn wf(&self) -> bool {
        &&& self.keys@.len() == MAX_KEYS
        &&& self.values@.len() == MAX_KEYS
    }

    /// The keys in use.
    pub open spec fn live_keys(&self) -> Seq<KeyType> {
        self.keys@.take(self.header.num_keys as int)
    }

    /// An empty leaf that may hold up to `max_keys` keys, unlinked.
    pub fn new(max_keys: u16) -> (r: Self)
        ensures
            r.wf(),
            r.header.node_type == node_type_byte(NodeType::Leaf),
            r.header.num_keys == 0,
            r.header.max_keys == max_keys,
            r.header.parent_page_id == invalid_page(),
            r.header.next_page_id == invalid_page(),
            r.keys@ == Seq::new(MAX_KEYS as nat, |i: int| 0i32),
            r.values@ == Seq::new(MAX_KEYS as nat, |i: int| 0u64),
    {
        let mut keys: Vec<KeyType> = Vec::new();
        let mut values: Vec<ValueType> = Vec::new();
        let mut i: usize = 0;
        while i < MAX_KEYS
            invariant
                i <= MAX_KEYS,
                keys@ == Seq::new(i as nat, |k: int| 0i32),
                values@ == Seq::new(i as nat, |k: int| 0u64),
            decreases MAX_KEYS - i,
        {
            keys.push(0);
            values.push(0);
            i = i + 1;
            proof {
                assert(keys@ =~= Seq::new(i as nat, |k: int| 0i32));
                assert(values@ =~= Seq::new(i as nat, |k: int| 0u64));
            }
        }
        LeafNode {
            header: BTreePageHeader {
                node_type: NodeType::Leaf.as_u8(),
                num_keys: 0,
                max_keys,
                parent_page_id: invalid_page_id(),
                next_page_id: invalid_page_id(),
            },
            keys,
            values,
        }
    }

    /// Inserts the pair before the first key that is not below `key`; fails
    /// with `NodeFull` (leaf unchanged) when the leaf holds `max_keys` keys.
    pub fn insert(&mut self, key: KeyType, value: ValueType) -> (r: Result<(), BTreeError>)
        requires
            old(self).wf(),
            old(self).header.num_keys < old(self).header.max_keys ==> old(self).header.num_keys
                < MAX_KEYS,
        ensures
            final(self).wf(),
            ({
                let n = old(self).header.num_keys as int;
                let i = insert_pos(old(self).live_keys(), key);
                if old(self).header.num_keys >= old(self).header.max_keys {
                    &&& r matches Err(BTreeError::NodeFull)
                    &&& final(self).keys@ == old(self).keys@
                    &&& final(self).values@ == old(self).values@
                    &&& final(self).header == old(self).header
                } else {
                    &&& r is Ok
                    &&& final(self).keys@ == shifted_in(old(self).keys@, i, n, key)
                    &&& final(self).values@ == shifted_in(old(self).values@, i, n, value)
                    &&& final(self).header == BTreePageHeader {
                        num_keys: (n + 1) as u16,
                        ..old(self).header
                    }
                }
            }),
    {
        if self.header.num_keys >= self.header.max_keys {
            return Err(BTreeError::NodeFull);
        }
        let num_keys = self.header.num_keys as usize;
        let ghost live = self.live_keys();
        proof {
            lemma_insert_pos(live, key);
        }
        let mut idx: usize = 0;
        while idx < num_keys && self.keys[idx] < key
            invariant
                self.wf(),
                self.header == old(self).header,
                self.header.num_keys < self.header.max_keys,
                num_keys == self.header.num_keys,
                num_keys < MAX_KEYS,
                live == self.keys@.take(num_keys as int),
                idx <= insert_pos(live, key),
                0 <= insert_pos(live, key) <= num_keys,
                forall|i: int| 0 <= i < insert_pos(live, key) ==> #[trigger] live[i] < key,
                insert_pos(live, key) < num_keys ==> live[insert_pos(live, key)] >= key,
            decreases num_keys - idx,
        {
            idx = idx + 1;
        }
        proof {
            if idx < insert_pos(live, key) {
                assert(live[idx as int] == self.keys@[idx as int]);
            }
        }
        assert(idx == insert_pos(live, key));
        let ghost k0 = self.keys@;
        let ghost v0 = self.values@;
        // shift [idx, num_keys) one slot to the right, from the back
        let mut j: usize = num_keys;
        while j > idx
            invariant
                self.wf(),
                self.header == old(self).header,
                self.header.num_keys < self.header.max_keys,
                idx <= j <= num_keys,
                num_keys < MAX_KEYS,
                forall|t: int| 0 <= t <= j ==> #[trigger] self.keys@[t] == k0[t],
                forall|t: int| j < t <= num_keys ==> #[trigger] self.keys@[t] == k0[t - 1],
                forall|t: int| num_keys < t < MAX_KEYS ==> #[trigger] self.keys@[t] == k0[t],
                forall|t: int| 0 <= t <= j ==> #[trigger] self.values@[t] == v0[t],
                forall|t: int| j < t <= num_keys ==> #[trigger] self.values@[t] == v0[t - 1],
                forall|t: int| num_keys < t < MAX_KEYS ==> #[trigger] self.values@[t] == v0[t],
                k0.len() == MAX_KEYS,
                v0.len() == MAX_KEYS,
            decreases j - idx,
        {
            let kk = self.keys[j - 1];
            self.keys.set(j, kk);
            let vv = self.values[j - 1];
            self.values.set(j, vv);
            j = j - 1;
        }
        self.keys.set(idx, key);
        self.values.set(idx, value);
        self.header.num_keys = self.header.num_keys + 1;
        proof {
            assert(self.keys@ =~= shifted_in(k0, idx as int, num_keys as int, key));
            assert(self.values@ =~= shifted_in(v0, idx as int, num_keys as int, value));
        }
        Ok(())
    }

    /// Inserting into a leaf whose keys in use are sorted keeps them sorted;
    /// the keys and the key–value pairs in use become the old ones with the
    /// new key and the new pair added, and the slots past them keep what
    /// they held.
    pub proof fn lemma_insert_keeps_sorted(
        keys: Seq<KeyType>,
        values: Seq<ValueType>,
        n: int,
        key: KeyType,
        value: ValueType,
    )
        requires
            0 <= n < keys.len(),
            values.len() == keys.len(),
            sorted(keys.take(n)),
        ensures
            ({
                let i = insert_pos(keys.take(n), key);
                let k2 = shifted_in(keys, i, n, key);
                let v2 = shifted_in(values, i, n, value);
                &&& k2.len() == keys.len()
                &&& v2.len() == values.len()
                &&& sorted(k2.take(n + 1))
                &&& k2.take(n + 1).to_multiset() == keys.take(n).to_multiset().insert(key)
                &&& live_pairs(k2, v2, n + 1).to_multiset() == live_pairs(keys, values, n).to_multiset().insert(
                    (key, value),
                )
                &&& forall|t: int| n < t < keys.len() ==> #[trigger] k2[t] == keys[t] && v2[t] == values[t]
            }),
    {
        let live = keys.take(n);
        lemma_insert_pos(live, key);
        let i = insert_pos(live, key);
        let k2 = shifted_in(keys, i, n, key);
        let v2 = shifted_in(values, i, n, value);
        let after = k2.take(n + 1);
        assert(after =~= live.insert(i, key));
        assert forall|a: int, b: int| 0 <= a <= b < after.len() implies after[a] <= after[b] by {
            if a < i && b > i {
                assert(after[b] == live[b - 1]);
                if i < n {
                    assert(live[i] >= key);
                    assert(live[i] <= live[b - 1]);
                }
            } else if a < i && b == i {
            } else if a == i && b > i {
                assert(after[b] == live[b - 1]);
                assert(live[i] <= live[b - 1]);
            } else if a > i {
                assert(after[a] == live[a - 1]);
                assert(after[b] == live[b - 1]);
            }
        }
        lemma_insert_to_multiset(live, i, key);
        assert(live_pairs(k2, v2, n + 1) =~= live_pairs(keys, values, n).insert(i, (key, value)));
        lemma_insert_to_multiset(live_pairs(keys, values, n), i, (key, value));
    }
}

impl InternalNode {
    /// The arrays have their fixed length.
    pub open spec fn wf(&self) -> bool {
        &&& self.keys@.len() == MAX_KEYS
        &&& self.children@.len() == MAX_KEYS + 1
    }

    /// An empty internal node that may hold up to `max_keys` keys, unlinked.
    pub fn new(max_keys: u16) -> (r: Self)
        ensures
            r.wf(),
            r.header.node_type == node_type_byte(NodeType::Internal),
            r.header.num_keys == 0,
            r.header.max_keys == max_keys,
            r.header.parent_page_id == invalid_page(),
            r.header.next_page_id == invalid_page(),
            r.keys@ == Seq::new(MAX_KEYS as nat, |i: int| 0i32),
            r.children@ == Seq::new((MAX_KEYS + 1) as nat, |i: int| invalid_page()),
    {
        let mut keys: Vec<KeyType> = Vec::new();
        let mut children: Vec<PageId> = Vec::new();
        let mut i: usize = 0;
        while i < MAX_KEYS
            invariant
                i <= MAX_KEYS,
                keys@ == Seq::new(i as nat, |k: int| 0i32),
            decreases MAX_KEYS - i,
        {
            keys.push(0);
            i = i + 1;
            proof {
                assert(keys@ =~= Seq::new(i as nat, |k: int| 0i32));
            }
        }
        let mut i: usize = 0;
        while i < MAX_KEYS + 1
            invariant
                i <= MAX_KEYS + 1,
                children@ == Seq::new(i as nat, |k: int| invalid_page()),
            decreases MAX_KEYS + 1 - i,
        {
            children.push(invalid_page_id());
            i = i + 1;
            proof {
                assert(children@ =~= Seq::new(i as nat, |k: int| invalid_page()));
            }
        }
        InternalNode {
            header: BTreePageHeader {
                node_type: NodeType::Internal.as_u8(),
                num_keys: 0,
                max_keys,
                parent_page_id: invalid_page_id(),
                next_page_id: invalid_page_id(),
            },
            keys,
            children,
        }
    }
}

} // verus!
