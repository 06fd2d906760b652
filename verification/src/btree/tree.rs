use vstd::prelude::*;
use vstd::bytes::*;
use crate::btree::node::{KeyType, ValueType, NodeType, MAX_KEYS, node_type_byte, lemma_insert_to_multiset};
use crate::buffer::BufferError;
use crate::buffer::buffer_pool::{
    fetch_failed, BufferPoolManager, release, same_but, pins_can_grow, same_pins, images_kept, kept_image,
    images_stay, lemma_marking_keeps_images, lemma_writing_keeps_images,
};
use crate::buffer::replacer::ReplacementPolicy;
use crate::codec::{u16_at, u32_at, u64_at, write_at, read_u16, read_u32, read_u64, lemma_write_frame, lemma_write_read};
use crate::page::SlottedPage;
use crate::storage::{DiskManager, PageId};

verus! {

broadcast use vstd::seq_lib::group_seq_properties;

/// Errors of the B+ tree index.
#[derive(Debug)]
pub enum BTreeError {
    /// The buffer pool failed.
    BufferError(BufferError),
    /// The key is not in the tree.
    KeyNotFound,
    /// The key is in the tree already.
    DuplicateKey,
    /// The tree has no root page.
    Uninitialized,
    /// The leaf that should take the key is full; leaves are not split.
    NodeFull,
    /// A node counts more keys than it can hold, or the path from the root
    /// does not reach a leaf.
    Corrupted,
}

/// Where the keys of a node start in its page.
pub const KEYS_OFFSET: usize = 24;

/// Where the values of a leaf (or the children of an internal node) start.
pub const VALUES_OFFSET: usize = 1384;

/// The bytes a node takes at the start of its page.
pub const NODE_SIZE: usize = 4112;

// Node page layout: the node kind (1 byte) at 0, the key count (u16) at 2,
// the maximum key count (u16) at 4, the parent page id at 8 and the next
// leaf's page id at 16 (each a file id and a page number, u32), then
// `MAX_KEYS` keys (i32) from `KEYS_OFFSET`, then the values (u64) of a leaf
// or the `MAX_KEYS + 1` children (page ids) of an internal node from
// `VALUES_OFFSET`; all little endian.

/// Position of key `i`.
pub open spec fn key_pos(i: int) -> int {
    KEYS_OFFSET + 4 * i
}

/// Position of value (or child) `i`.
pub open spec fn value_pos(i: int) -> int {
    VALUES_OFFSET + 8 * i
}

/// The node kind byte.
pub open spec fn node_kind(s: Seq<u8>) -> u8 {
    s[0]
}

/// The number of keys in the node.
pub open spec fn node_count(s: Seq<u8>) -> u16 {
    u16_at(s, 2)
}

/// The most keys the node may hold, as recorded in it.
pub open spec fn node_max(s: Seq<u8>) -> u16 {
    u16_at(s, 4)
}

/// Key `i` of the node.
pub open spec fn node_key(s: Seq<u8>, i: int) -> i32 {
    u32_at(s, key_pos(i)) as i32
}

/// Value `i` of a leaf.
pub open spec fn leaf_value(s: Seq<u8>, i: int) -> u64 {
    u64_at(s, value_pos(i))
}

/// Child `i` of an internal node.
pub open spec fn node_child(s: Seq<u8>, i: int) -> PageId {
    PageId { file_id: u32_at(s, value_pos(i)), page_num: u32_at(s, value_pos(i) + 4) }
}

/// The keys in use.
pub open spec fn node_keys(s: Seq<u8>) -> Seq<i32> {
    Seq::new(node_count(s) as nat, |i: int| node_key(s, i))
}

/// The values in use of a leaf.
pub open spec fn leaf_values(s: Seq<u8>) -> Seq<u64> {
    Seq::new(node_count(s) as nat, |i: int| leaf_value(s, i))
}

/// The page holds a leaf.
pub open spec fn is_leaf(s: Seq<u8>) -> bool {
    node_kind(s) == node_type_byte(NodeType::Leaf)
}

/// The keys increase strictly.
pub open spec fn strictly_sorted(k: Seq<i32>) -> bool {
    forall|i: int, j: int| 0 <= i < j < k.len() ==> k[i] < k[j]
}

/// The first position whose key is above `key`, or the length: where a leaf
/// inserts `key`, and which child of an internal node leads to `key`.
pub open spec fn insert_index(k: Seq<i32>, key: i32) -> int
    decreases k.len(),
{
    if k.len() == 0 {
        0
    } else if k[0] > key {
        0
    } else {
        1 + insert_index(k.drop_first(), key)
    }
}

proof fn lemma_insert_index(k: Seq<i32>, key: i32)
    ensures
        0 <= insert_index(k, key) <= k.len(),
        forall|i: int| 0 <= i < insert_index(k, key) ==> #[trigger] k[i] <= key,
        insert_index(k, key) < k.len() ==> k[insert_index(k, key)] > key,
    decreases k.len(),
{
    if k.len() > 0 && k[0] <= key {
        lemma_insert_index(k.drop_first(), key);
        assert forall|i: int| 0 <= i < insert_index(k, key) implies #[trigger] k[i] <= key by {
            if i > 0 {
                assert(k[i] == k.drop_first()[i - 1]);
            }
        }
    }
}

/// The key–value pairs of a leaf, position by position.
pub open spec fn leaf_pairs(keys: Seq<i32>, values: Seq<u64>) -> Seq<(i32, u64)> {
    Seq::new(keys.len(), |i: int| (keys[i], values[i]))
}

/// A search finds what an insert put into a leaf: inserting a key that a
/// sorted leaf lacks at `insert_index` keeps the keys strictly increasing,
/// adds the key to them once, pairs it with the new value alone, and keeps
/// every key–value pair the leaf had.
pub proof fn lemma_leaf_insert(keys: Seq<i32>, values: Seq<u64>, key: i32, value: u64)
    requires
        strictly_sorted(keys),
        keys.len() == values.len(),
        !keys.contains(key),
    ensures
        ({
            let i = insert_index(keys, key);
            let k2 = keys.insert(i, key);
            let v2 = values.insert(i, value);
            &&& 0 <= i <= keys.len()
            &&& strictly_sorted(k2)
            &&& k2.contains(key)
            &&& forall|j: int| 0 <= j < k2.len() && k2[j] == key ==> v2[j] == value
            &&& k2.to_multiset() == keys.to_multiset().insert(key)
            &&& leaf_pairs(k2, v2).to_multiset() == leaf_pairs(keys, values).to_multiset().insert((key, value))
        }),
{
    lemma_insert_index(keys, key);
    let i = insert_index(keys, key);
    let k2 = keys.insert(i, key);
    assert(k2[i] == key);
    assert forall|a: int, b: int| 0 <= a < b < k2.len() implies k2[a] < k2[b] by {
        if a < i && b == i {
            assert(keys[a] <= key);
            assert(keys[a] != key);
        } else if a == i && b > i {
            assert(keys[b - 1] > key) by {
                assert(keys[i] > key);
            }
        } else if a < i && b > i {
            assert(k2[b] == keys[b - 1]);
        } else if a > i {
            assert(k2[a] == keys[a - 1]);
        }
    }
    assert forall|j: int| 0 <= j < k2.len() && k2[j] == key implies values.insert(i, value)[j] == value by {
        if j < i {
            assert(k2[j] == keys[j]);
            assert(keys.contains(keys[j]));
        } else if j > i {
            assert(k2[j] == keys[j - 1]);
            assert(keys.contains(keys[j - 1]));
        }
    }
    lemma_insert_to_multiset(keys, i, key);
    let v2 = values.insert(i, value);
    assert(leaf_pairs(k2, v2) =~= leaf_pairs(keys, values).insert(i, (key, value)));
    lemma_insert_to_multiset(leaf_pairs(keys, values), i, (key, value));
}

/// Key `i` of the node in `page`.
fn read_key<const PAGE_SIZE: usize>(page: &SlottedPage<PAGE_SIZE>, i: usize) -> (r: i32)
    requires
        page.wf(),
        NODE_SIZE <= PAGE_SIZE,
        i < MAX_KEYS,
    ensures
        r == node_key(page.bytes(), i as int),
{
    page.size_facts();
    read_u32(page.data(), KEYS_OFFSET + 4 * i) as i32
}

/// Value `i` of the leaf in `page`.
fn read_value<const PAGE_SIZE: usize>(page: &SlottedPage<PAGE_SIZE>, i: usize) -> (r: u64)
    requires
        page.wf(),
        NODE_SIZE <= PAGE_SIZE,
        i < MAX_KEYS,
    ensures
        r == leaf_value(page.bytes(), i as int),
{
    page.size_facts();
    read_u64(page.data(), VALUES_OFFSET + 8 * i)
}

/// Child `i` of the internal node in `page`.
fn read_child<const PAGE_SIZE: usize>(page: &SlottedPage<PAGE_SIZE>, i: usize) -> (r: PageId)
    requires
        page.wf(),
        NODE_SIZE <= PAGE_SIZE,
        i <= MAX_KEYS,
    ensures
        r == node_child(page.bytes(), i as int),
{
    page.size_facts();
    PageId {
        file_id: read_u32(page.data(), VALUES_OFFSET + 8 * i),
        page_num: read_u32(page.data(), VALUES_OFFSET + 8 * i + 4),
    }
}

/// The key count of the node in `page`.
fn read_count<const PAGE_SIZE: usize>(page: &SlottedPage<PAGE_SIZE>) -> (r: u16)
    requires
        page.wf(),
        NODE_SIZE <= PAGE_SIZE,
    ensures
        r == node_count(page.bytes()),
{
    page.size_facts();
    read_u16(page.data(), 2)
}

/// The maximum key count recorded in the node in `page`.
fn read_max<const PAGE_SIZE: usize>(page: &SlottedPage<PAGE_SIZE>) -> (r: u16)
    requires
        page.wf(),
        NODE_SIZE <= PAGE_SIZE,
    ensures
        r == node_max(page.bytes()),
{
    page.size_facts();
    read_u16(page.data(), 4)
}

/// Whether `page` holds a leaf.
fn read_is_leaf<const PAGE_SIZE: usize>(page: &SlottedPage<PAGE_SIZE>) -> (r: bool)
    requires
        page.wf(),
        NODE_SIZE <= PAGE_SIZE,
    ensures
        r == is_leaf(page.bytes()),
{
    page.size_facts();
    page.data()[0] == NodeType::Leaf.as_u8()
}

/// The position of `key` among the first `n` keys of the node, by binary
/// search; when those keys are sorted, `None` means that `key` is not there.
fn find_key<const PAGE_SIZE: usize>(page: &SlottedPage<PAGE_SIZE>, n: usize, key: i32) -> (r: Option<usize>)
    requires
        page.wf(),
        NODE_SIZE <= PAGE_SIZE,
        n <= MAX_KEYS,
    ensures
        r matches Some(i) ==> i < n && node_key(page.bytes(), i as int) == key,
        r is None && (forall|a: int, b: int|
            0 <= a <= b < n ==> node_key(page.bytes(), a) <= node_key(page.bytes(), b)) ==> forall|t: int|
            0 <= t < n ==> node_key(page.bytes(), t) != key,
{
    let ghost s = page.bytes();
    let mut lo: usize = 0;
    let mut hi: usize = n;
    while lo < hi
        invariant
            0 <= lo <= hi <= n,
            n <= MAX_KEYS,
            s == page.bytes(),
            page.wf(),
            NODE_SIZE <= PAGE_SIZE,
            (forall|a: int, b: int| 0 <= a <= b < n ==> node_key(s, a) <= node_key(s, b)) ==> (
            forall|t: int| (0 <= t < lo || hi <= t < n) ==> node_key(s, t) != key),
        decreases hi - lo,
    {
        let mid = lo + (hi - lo) / 2;
        let k = read_key(page, mid);
        if k == key {
            return Some(mid);
        } else if k < key {
            lo = mid + 1;
        } else {
            hi = mid;
        }
    }
    None
}

/// The first of the first `n` keys of the node that is above `key`, or `n`.
fn first_above<const PAGE_SIZE: usize>(page: &SlottedPage<PAGE_SIZE>, n: usize, key: i32) -> (r: usize)
    requires
        page.wf(),
        NODE_SIZE <= PAGE_SIZE,
        n <= MAX_KEYS,
        n <= node_count(page.bytes()),
    ensures
        r == insert_index(node_keys(page.bytes()).take(n as int), key),
        r <= n,
{
    let ghost k = node_keys(page.bytes()).take(n as int);
    proof {
        lemma_insert_index(k, key);
    }
    let mut i: usize = 0;
    while i < n
        invariant
            i <= n,
            n <= MAX_KEYS,
            n <= node_count(page.bytes()),
            page.wf(),
            NODE_SIZE <= PAGE_SIZE,
            k == node_keys(page.bytes()).take(n as int),
            i <= insert_index(k, key),
            0 <= insert_index(k, key) <= n,
            forall|t: int| 0 <= t < insert_index(k, key) ==> #[trigger] k[t] <= key,
            insert_index(k, key) < n ==> k[insert_index(k, key)] > key,
        decreases n - i,
    {
        if read_key(page, i) > key {
            assert(k[i as int] > key);
            return i;
        }
        i = i + 1;
    }
    i
}

/// Writes key `i` of the node.
fn write_key<const PAGE_SIZE: usize>(page: &mut SlottedPage<PAGE_SIZE>, i: usize, key: i32)
    requires
        old(page).wf(),
        NODE_SIZE <= PAGE_SIZE,
        i < MAX_KEYS,
    ensures
        final(page).wf(),
        final(page).bytes() == write_at(old(page).bytes(), key_pos(i as int), spec_u32_to_le_bytes(key as u32)),
        node_key(final(page).bytes(), i as int) == key,
{
    page.size_facts();
    let b = u32_to_le_bytes(key as u32);
    page.write_raw(KEYS_OFFSET + 4 * i, b.as_slice());
    proof {
        lemma_write_read(old(page).bytes(), key_pos(i as int));
        assert(((key as u32) as i32) == key) by (bit_vector);
    }
}

/// Writes value `i` of the leaf.
fn write_value<const PAGE_SIZE: usize>(page: &mut SlottedPage<PAGE_SIZE>, i: usize, value: u64)
    requires
        old(page).wf(),
        NODE_SIZE <= PAGE_SIZE,
        i < MAX_KEYS,
    ensures
        final(page).wf(),
        final(page).bytes() == write_at(old(page).bytes(), value_pos(i as int), spec_u64_to_le_bytes(value)),
        leaf_value(final(page).bytes(), i as int) == value,
{
    page.size_facts();
    let b = u64_to_le_bytes(value);
    page.write_raw(VALUES_OFFSET + 8 * i, b.as_slice());
    proof {
        lemma_write_read(old(page).bytes(), value_pos(i as int));
    }
}

/// Writes the key count of the node.
fn write_count<const PAGE_SIZE: usize>(page: &mut SlottedPage<PAGE_SIZE>, n: u16)
    requires
        old(page).wf(),
        NODE_SIZE <= PAGE_SIZE,
    ensures
        final(page).wf(),
        final(page).bytes() == write_at(old(page).bytes(), 2, spec_u16_to_le_bytes(n)),
        node_count(final(page).bytes()) == n,
{
    page.size_facts();
    let b = u16_to_le_bytes(n);
    page.write_raw(2, b.as_slice());
    proof {
        lemma_write_read(old(page).bytes(), 2);
    }
}

/// Inserts `key` and `value` at position `idx` of the first `n` entries of a
/// leaf, moving the entries from `idx` on one place up; the header is kept.
#[verifier::spinoff_prover]
fn leaf_insert_at<const PAGE_SIZE: usize>(page: &mut SlottedPage<PAGE_SIZE>, idx: usize, n: usize, key: i32, value: u64)
    requires
        old(page).wf(),
        NODE_SIZE <= PAGE_SIZE,
        idx <= n < MAX_KEYS,
    ensures
        final(page).wf(),
        node_kind(final(page).bytes()) == node_kind(old(page).bytes()),
        node_count(final(page).bytes()) == node_count(old(page).bytes()),
        node_max(final(page).bytes()) == node_max(old(page).bytes()),
        forall|t: int|
            0 <= t < idx ==> #[trigger] node_key(final(page).bytes(), t) == node_key(old(page).bytes(), t)
                && leaf_value(final(page).bytes(), t) == leaf_value(old(page).bytes(), t),
        node_key(final(page).bytes(), idx as int) == key,
        leaf_value(final(page).bytes(), idx as int) == value,
        forall|t: int|
            idx < t <= n ==> #[trigger] node_key(final(page).bytes(), t) == node_key(old(page).bytes(), t - 1)
                && leaf_value(final(page).bytes(), t) == leaf_value(old(page).bytes(), t - 1),
{
    page.size_facts();
    let ghost o = page.bytes();
    let mut j: usize = n;
    while j > idx
        invariant
            page.wf(),
            NODE_SIZE <= PAGE_SIZE,
            idx <= j <= n < MAX_KEYS,
            o.len() == PAGE_SIZE,
            page.bytes().len() == PAGE_SIZE,
            node_kind(page.bytes()) == node_kind(o),
            node_count(page.bytes()) == node_count(o),
            node_max(page.bytes()) == node_max(o),
            forall|t: int|
                0 <= t <= j ==> #[trigger] node_key(page.bytes(), t) == node_key(o, t) && leaf_value(
                    page.bytes(),
                    t,
                ) == leaf_value(o, t),
            forall|t: int|
                j < t <= n ==> #[trigger] node_key(page.bytes(), t) == node_key(o, t - 1) && leaf_value(
                    page.bytes(),
                    t,
                ) == leaf_value(o, t - 1),
        decreases j - idx,
    {
        let k = read_key(page, j - 1);
        let v = read_value(page, j - 1);
        let ghost s0 = page.bytes();
        write_key(page, j, k);
        let ghost s1 = page.bytes();
        write_value(page, j, v);
        let ghost s2 = page.bytes();
        proof {
            lemma_auto_spec_u32_to_from_le_bytes();
            lemma_auto_spec_u64_to_from_le_bytes();
            lemma_write_frame(s0, key_pos(j as int), spec_u32_to_le_bytes(k as u32));
            lemma_write_frame(s1, value_pos(j as int), spec_u64_to_le_bytes(v));
            assert forall|t: int| 0 <= t <= j - 1 implies #[trigger] node_key(s2, t) == node_key(o, t)
                && leaf_value(s2, t) == leaf_value(o, t) by {
                assert(node_key(s0, t) == node_key(o, t));
                assert(u32_at(s1, key_pos(t)) == u32_at(s0, key_pos(t)));
                assert(u32_at(s2, key_pos(t)) == u32_at(s1, key_pos(t)));
                assert(u64_at(s1, value_pos(t)) == u64_at(s0, value_pos(t)));
                assert(u64_at(s2, value_pos(t)) == u64_at(s1, value_pos(t)));
            }
            assert forall|t: int| j - 1 < t <= n implies #[trigger] node_key(s2, t) == node_key(o, t - 1)
                && leaf_value(s2, t) == leaf_value(o, t - 1) by {
                assert(node_key(s0, t) == node_key(o, t - 1) || t == j);
                if t > j {
                    assert(node_key(s0, t) == node_key(o, t - 1));
                    assert(u32_at(s1, key_pos(t)) == u32_at(s0, key_pos(t)));
                    assert(u32_at(s2, key_pos(t)) == u32_at(s1, key_pos(t)));
                    assert(u64_at(s1, value_pos(t)) == u64_at(s0, value_pos(t)));
                    assert(u64_at(s2, value_pos(t)) == u64_at(s1, value_pos(t)));
                } else {
                    assert(node_key(s0, t - 1) == node_key(o, t - 1));
                    assert(u32_at(s2, key_pos(t)) == u32_at(s1, key_pos(t)));
                }
            }
            assert(u16_at(s1, 2) == u16_at(s0, 2));
            assert(u16_at(s2, 2) == u16_at(s1, 2));
            assert(u16_at(s1, 4) == u16_at(s0, 4));
            assert(u16_at(s2, 4) == u16_at(s1, 4));
            assert(s1[0] == s0[0]);
            assert(s2[0] == s1[0]);
        }
        j = j - 1;
    }
    let ghost s0 = page.bytes();
    write_key(page, idx, key);
    let ghost s1 = page.bytes();
    write_value(page, idx, value);
    let ghost s2 = page.bytes();
    proof {
        lemma_auto_spec_u32_to_from_le_bytes();
        lemma_auto_spec_u64_to_from_le_bytes();
        lemma_write_frame(s0, key_pos(idx as int), spec_u32_to_le_bytes(key as u32));
        lemma_write_frame(s1, value_pos(idx as int), spec_u64_to_le_bytes(value));
        assert forall|t: int| 0 <= t < idx implies #[trigger] node_key(s2, t) == node_key(o, t) && leaf_value(s2, t)
            == leaf_value(o, t) by {
            assert(node_key(s0, t) == node_key(o, t));
            assert(u32_at(s1, key_pos(t)) == u32_at(s0, key_pos(t)));
            assert(u32_at(s2, key_pos(t)) == u32_at(s1, key_pos(t)));
            assert(u64_at(s1, value_pos(t)) == u64_at(s0, value_pos(t)));
            assert(u64_at(s2, value_pos(t)) == u64_at(s1, value_pos(t)));
        }
        assert forall|t: int| idx < t <= n implies #[trigger] node_key(s2, t) == node_key(o, t - 1) && leaf_value(
            s2,
            t,
        ) == leaf_value(o, t - 1) by {
            assert(node_key(s0, t) == node_key(o, t - 1));
            assert(u32_at(s1, key_pos(t)) == u32_at(s0, key_pos(t)));
            assert(u32_at(s2, key_pos(t)) == u32_at(s1, key_pos(t)));
            assert(u64_at(s1, value_pos(t)) == u64_at(s0, value_pos(t)));
            assert(u64_at(s2, value_pos(t)) == u64_at(s1, value_pos(t)));
        }
        assert(u32_at(s2, key_pos(idx as int)) == u32_at(s1, key_pos(idx as int)));
        assert(u16_at(s1, 2) == u16_at(s0, 2));
        assert(u16_at(s2, 2) == u16_at(s1, 2));
        assert(u16_at(s1, 4) == u16_at(s0, 4));
        assert(u16_at(s2, 4) == u16_at(s1, 4));
        assert(s1[0] == s0[0]);
        assert(s2[0] == s1[0]);
    }
}

/// Writes a `u32` at `pos` of the page.
fn write_u32_at<const PAGE_SIZE: usize>(page: &mut SlottedPage<PAGE_SIZE>, pos: usize, v: u32)
    requires
        old(page).wf(),
        pos + 4 <= PAGE_SIZE,
    ensures
        final(page).wf(),
        final(page).bytes() == write_at(old(page).bytes(), pos as int, spec_u32_to_le_bytes(v)),
{
    let b = u32_to_le_bytes(v);
    page.write_raw(pos, b.as_slice());
}

/// The leaf holds `key` with `value` among its keys in use.
pub open spec fn leaf_holds(s: Seq<u8>, key: i32, value: u64) -> bool {
    &&& is_leaf(s)
    &&& exists|i: int|
        0 <= i < node_count(s) && i < MAX_KEYS && #[trigger] node_key(s, i) == key && leaf_value(s, i)
            == value
}

/// Makes the page a leaf that holds `key` with `value` alone and may hold up
/// to `max_keys` keys, with no parent and no next leaf.
fn init_root_leaf<const PAGE_SIZE: usize>(page: &mut SlottedPage<PAGE_SIZE>, max_keys: u16, key: i32, value: u64)
    requires
        old(page).wf(),
        NODE_SIZE <= PAGE_SIZE,
    ensures
        final(page).wf(),
        is_leaf(final(page).bytes()),
        node_count(final(page).bytes()) == 1,
        node_max(final(page).bytes()) == max_keys,
        node_keys(final(page).bytes()) == seq![key],
        leaf_values(final(page).bytes()) == seq![value],
{
    page.size_facts();
    let kind = vec![NodeType::Leaf.as_u8()];
    page.write_raw(0, kind.as_slice());
    let ghost s0 = page.bytes();
    let m = u16_to_le_bytes(max_keys);
    page.write_raw(4, m.as_slice());
    let ghost s1 = page.bytes();
    write_u32_at(page, 8, u32::MAX);
    let ghost s2 = page.bytes();
    write_u32_at(page, 12, u32::MAX);
    let ghost s3 = page.bytes();
    write_u32_at(page, 16, u32::MAX);
    let ghost s4 = page.bytes();
    write_u32_at(page, 20, u32::MAX);
    let ghost s5 = page.bytes();
    write_key(page, 0, key);
    let ghost s6 = page.bytes();
    write_value(page, 0, value);
    let ghost s7 = page.bytes();
    write_count(page, 1);
    let ghost s8 = page.bytes();
    proof {
        lemma_auto_spec_u16_to_from_le_bytes();
        lemma_auto_spec_u32_to_from_le_bytes();
        lemma_auto_spec_u64_to_from_le_bytes();
        assert(s0[0] == node_type_byte(NodeType::Leaf));
        lemma_write_frame(s0, 4, spec_u16_to_le_bytes(max_keys));
        lemma_write_read(s0, 4);
        lemma_write_frame(s1, 8, spec_u32_to_le_bytes(u32::MAX));
        lemma_write_frame(s2, 12, spec_u32_to_le_bytes(u32::MAX));
        lemma_write_frame(s3, 16, spec_u32_to_le_bytes(u32::MAX));
        lemma_write_frame(s4, 20, spec_u32_to_le_bytes(u32::MAX));
        lemma_write_frame(s5, key_pos(0), spec_u32_to_le_bytes(key as u32));
        lemma_write_frame(s6, value_pos(0), spec_u64_to_le_bytes(value));
        lemma_write_frame(s7, 2, spec_u16_to_le_bytes(1u16));
        assert(s1[0] == s0[0]);
        assert(s2[0] == s1[0]);
        assert(s3[0] == s2[0]);
        assert(s4[0] == s3[0]);
        assert(s5[0] == s4[0]);
        assert(s6[0] == s5[0]);
        assert(s7[0] == s6[0]);
        assert(s8[0] == s7[0]);
        assert(u16_at(s1, 4) == max_keys);
        assert(u16_at(s2, 4) == u16_at(s1, 4));
        assert(u16_at(s3, 4) == u16_at(s2, 4));
        assert(u16_at(s4, 4) == u16_at(s3, 4));
        assert(u16_at(s5, 4) == u16_at(s4, 4));
        assert(u16_at(s6, 4) == u16_at(s5, 4));
        assert(u16_at(s7, 4) == u16_at(s6, 4));
        assert(u16_at(s8, 4) == u16_at(s7, 4));
        assert(u32_at(s7, key_pos(0)) == u32_at(s6, key_pos(0)));
        assert(u32_at(s8, key_pos(0)) == u32_at(s7, key_pos(0)));
        assert(u64_at(s8, value_pos(0)) == u64_at(s7, value_pos(0)));
        assert(node_keys(s8) =~= seq![key]);
        assert(leaf_values(s8) =~= seq![value]);
    }
}

/// The leaf that the path for `key` from page `p` reaches through pages of
/// `pool`, passing at most `n` internal nodes and taking in each the child at
/// `insert_index` of its keys. `None` when the path leaves the pool, passes a
/// page whose pin count cannot grow, or meets an internal node with more
/// than `MAX_KEYS` keys or beyond the `n` allowed.
pub open spec fn pool_leaf<const PAGE_SIZE: usize, D: DiskManager<PAGE_SIZE>, R: ReplacementPolicy>(
    pool: BufferPoolManager<PAGE_SIZE, D, R>,
    p: PageId,
    key: i32,
    n: nat,
) -> Option<PageId>
    decreases n,
{
    match pool.lookup(p) {
        None => None,
        Some(f) => {
            let s = pool.frame_view(f as int).bytes();
            if pool.pin_count(f as int) == u32::MAX {
                None
            } else if is_leaf(s) {
                Some(p)
            } else if n == 0 || node_count(s) > MAX_KEYS {
                None
            } else {
                pool_leaf(pool, node_child(s, insert_index(node_keys(s), key)), key, (n - 1) as nat)
            }
        },
    }
}

/// What `pool` shows of page `p`: the bytes of its frame when the page is in
/// the pool, else what the disk holds of it, if anything.
pub open spec fn page_image<const PAGE_SIZE: usize, D: DiskManager<PAGE_SIZE>, R: ReplacementPolicy>(
    pool: BufferPoolManager<PAGE_SIZE, D, R>,
    p: PageId,
) -> Option<Seq<u8>> {
    match pool.lookup(p) {
        Some(f) => Some(pool.frame_view(f as int).bytes()),
        None => if pool.disk_pages().contains_key(p) {
            Some(pool.disk_pages()[p])
        } else {
            None
        },
    }
}

/// The root `p` is a leaf kept on disk and not in the pool, with `s` its
/// bytes there.
pub open spec fn disk_leaf_root<const PAGE_SIZE: usize, D: DiskManager<PAGE_SIZE>, R: ReplacementPolicy>(
    pool: BufferPoolManager<PAGE_SIZE, D, R>,
    p: PageId,
) -> bool {
    &&& pool.lookup(p) is None
    &&& page_image(pool, p) is Some
    &&& is_leaf(page_image(pool, p)->0)
}

/// The leaf that the path for `key` from page `p` reaches through the pages'
/// kept images (`kept_image`), whether in memory or on disk, passing at most
/// `n` internal nodes and taking in each the child at `insert_index` of its
/// keys. `None` when the path meets a page with no kept image, or an
/// internal node with more than `MAX_KEYS` keys or beyond the `n` allowed.
pub open spec fn image_leaf<const PAGE_SIZE: usize, D: DiskManager<PAGE_SIZE>, R: ReplacementPolicy>(
    pool: BufferPoolManager<PAGE_SIZE, D, R>,
    p: PageId,
    key: i32,
    n: nat,
) -> Option<PageId>
    decreases n,
{
    match kept_image(pool, p) {
        None => None,
        Some(s) => if is_leaf(s) {
            Some(p)
        } else if n == 0 || node_count(s) > MAX_KEYS {
            None
        } else {
            image_leaf(pool, node_child(s, insert_index(node_keys(s), key)), key, (n - 1) as nat)
        },
    }
}

/// The path for `key` from `root` runs through kept images to a leaf, the
/// pool's clean frames agree with the disk, and every pin count can grow.
pub open spec fn image_path<const PAGE_SIZE: usize, D: DiskManager<PAGE_SIZE>, R: ReplacementPolicy>(
    pool: BufferPoolManager<PAGE_SIZE, D, R>,
    root: PageId,
    key: i32,
) -> bool {
    &&& images_kept(pool)
    &&& pins_can_grow(pool)
    &&& image_leaf(pool, root, key, u32::MAX as nat) is Some
}

/// Where the images stay, so does the path for a key.
pub proof fn lemma_image_leaf_stays<const PAGE_SIZE: usize, D: DiskManager<PAGE_SIZE>, R: ReplacementPolicy>(
    a: BufferPoolManager<PAGE_SIZE, D, R>,
    b: BufferPoolManager<PAGE_SIZE, D, R>,
    p: PageId,
    key: i32,
    n: nat,
)
    requires
        images_stay(a, b),
    ensures
        image_leaf(a, p, key, n) is Some ==> image_leaf(b, p, key, n) == image_leaf(a, p, key, n),
    decreases n,
{
    if let Some(s) = kept_image(a, p) {
        if !is_leaf(s) && n > 0 && node_count(s) <= MAX_KEYS {
            lemma_image_leaf_stays(a, b, node_child(s, insert_index(node_keys(s), key)), key, (n - 1) as nat);
        }
    }
}

/// The page a path ends in has a kept image, and it is a leaf.
pub proof fn lemma_image_leaf_ends_in_leaf<const PAGE_SIZE: usize, D: DiskManager<PAGE_SIZE>, R: ReplacementPolicy>(
    pool: BufferPoolManager<PAGE_SIZE, D, R>,
    p: PageId,
    key: i32,
    n: nat,
)
    ensures
        image_leaf(pool, p, key, n) is Some ==> {
            let x = image_leaf(pool, p, key, n)->0;
            kept_image(pool, x) is Some && is_leaf(kept_image(pool, x)->0)
        },
    decreases n,
{
    if let Some(s) = kept_image(pool, p) {
        if !is_leaf(s) && n > 0 && node_count(s) <= MAX_KEYS {
            lemma_image_leaf_ends_in_leaf(pool, node_child(s, insert_index(node_keys(s), key)), key, (n - 1) as nat);
        }
    }
}

/// Rewriting the leaf `x` that a path ends in, keeping it a leaf and every
/// other page's image, keeps the path.
pub proof fn lemma_image_leaf_rewritten<const PAGE_SIZE: usize, D: DiskManager<PAGE_SIZE>, R: ReplacementPolicy>(
    a: BufferPoolManager<PAGE_SIZE, D, R>,
    b: BufferPoolManager<PAGE_SIZE, D, R>,
    x: PageId,
    p: PageId,
    key: i32,
    n: nat,
)
    requires
        forall|q: PageId| q != x && #[trigger] kept_image(a, q) is Some ==> kept_image(b, q) == kept_image(a, q),
        kept_image(a, x) is Some && is_leaf(kept_image(a, x)->0),
        kept_image(b, x) is Some && is_leaf(kept_image(b, x)->0),
    ensures
        image_leaf(a, p, key, n) == Some(x) ==> image_leaf(b, p, key, n) == Some(x),
    decreases n,
{
    if p != x {
        if let Some(s) = kept_image(a, p) {
            if !is_leaf(s) && n > 0 && node_count(s) <= MAX_KEYS {
                lemma_image_leaf_rewritten(a, b, x, node_child(s, insert_index(node_keys(s), key)), key, (n - 1) as nat);
            }
        }
    }
}

/// The path for a key is the same in two pools that hold the same pages in
/// the same frames with the same pin counts and bytes, but for frame `f`,
/// which holds a leaf in both.
proof fn lemma_pool_leaf_stable<const PAGE_SIZE: usize, D: DiskManager<PAGE_SIZE>, R: ReplacementPolicy>(
    a: BufferPoolManager<PAGE_SIZE, D, R>,
    b: BufferPoolManager<PAGE_SIZE, D, R>,
    f: int,
    p: PageId,
    key: i32,
    n: nat,
)
    requires
        a.wf(),
        b.wf(),
        a.pool_size_view() == b.pool_size_view(),
        forall|g: int|
            0 <= g < a.pool_size_view() ==> {
                &&& #[trigger] b.frame_page(g) == a.frame_page(g)
                &&& b.pin_count(g) == a.pin_count(g)
                &&& g != f ==> b.frame_view(g) == a.frame_view(g)
            },
        0 <= f < a.pool_size_view() ==> is_leaf(a.frame_view(f).bytes()) && is_leaf(b.frame_view(f).bytes()),
    ensures
        pool_leaf(b, p, key, n) == pool_leaf(a, p, key, n),
    decreases n,
{
    a.lemma_lookup(p);
    b.lemma_lookup(p);
    if let Some(g) = a.lookup(p) {
        assert(b.frame_page(g as int) == Some(p));
        assert(b.lookup(p) == Some(g));
        if g as int != f {
            let s = a.frame_view(g as int).bytes();
            if n > 0 {
                lemma_pool_leaf_stable(a, b, f, node_child(s, insert_index(node_keys(s), key)), key, (n - 1) as nat);
            }
        }
    } else {
        if let Some(g) = b.lookup(p) {
            assert(a.frame_page(g as int) == Some(p));
        }
    }
}

/// Pinning frame `f` once and unpinning it again gives back every pin count.
proof fn lemma_pins_back<const PAGE_SIZE: usize, D: DiskManager<PAGE_SIZE>, R: ReplacementPolicy>(
    a: BufferPoolManager<PAGE_SIZE, D, R>,
    b: BufferPoolManager<PAGE_SIZE, D, R>,
    c: BufferPoolManager<PAGE_SIZE, D, R>,
    f: int,
)
    requires
        a.pool_size_view() == b.pool_size_view(),
        b.pin_count(f) == a.pin_count(f) + 1,
        forall|g: int| 0 <= g < a.pool_size_view() && g != f ==> #[trigger] b.pin_count(g) == a.pin_count(g),
        c.pin_count(f) == b.pin_count(f) - 1,
        forall|g: int| 0 <= g < a.pool_size_view() && g != f ==> #[trigger] c.pin_count(g) == b.pin_count(g),
    ensures
        same_pins(a, c),
{
    assert forall|g: int| 0 <= g < a.pool_size_view() implies #[trigger] c.pin_count(g) == a.pin_count(g) by {
        if g != f {
            assert(b.pin_count(g) == a.pin_count(g));
        }
    }
}

/// A leaf held in the pool, whose pin count can still grow, is the whole
/// path of its keys and shows its frame's bytes.
proof fn lemma_leaf_in_pool<const PAGE_SIZE: usize, D: DiskManager<PAGE_SIZE>, R: ReplacementPolicy>(
    pool: BufferPoolManager<PAGE_SIZE, D, R>,
    p: PageId,
    f: usize,
    key: i32,
)
    requires
        pool.lookup(p) == Some(f),
        pool.pin_count(f as int) < u32::MAX,
        is_leaf(pool.frame_view(f as int).bytes()),
    ensures
        pool_leaf(pool, p, key, u32::MAX as nat) == Some(p),
        page_image(pool, p) == Some(pool.frame_view(f as int).bytes()),
{
}

/// `b` holds the same pages as `a` in the same frames, with the same bytes
/// and pin counts, over the same disk.
spec fn same_frames<const PAGE_SIZE: usize, D: DiskManager<PAGE_SIZE>, R: ReplacementPolicy>(
    a: BufferPoolManager<PAGE_SIZE, D, R>,
    b: BufferPoolManager<PAGE_SIZE, D, R>,
) -> bool {
    &&& a.pool_size_view() == b.pool_size_view()
    &&& a.disk_pages() == b.disk_pages()
    &&& forall|g: int|
        0 <= g < a.pool_size_view() ==> {
            &&& #[trigger] b.frame_page(g) == a.frame_page(g)
            &&& b.frame_view(g) == a.frame_view(g)
            &&& b.pin_count(g) == a.pin_count(g)
        }
}

/// A B+ tree index from keys to values over pages of the buffer pool. A tree
/// made by this index is a single leaf: a full leaf is not split.
pub struct BTreeIndex {
    root_page_id: Option<PageId>,
}

impl BTreeIndex {
    /// The root page, if the tree has one.
    pub closed spec fn root(&self) -> Option<PageId> {
        self.root_page_id
    }

    /// An index whose root is `root_page_id` (none for an empty tree).
    pub fn new(root_page_id: Option<PageId>) -> (r: Self)
        ensures
            r.root() == root_page_id,
    {
        BTreeIndex { root_page_id }
    }

    /// Walks from the root to the leaf for `key`, which comes back pinned;
    /// every internal node on the way is unpinned again.
    fn find_leaf_page<const PAGE_SIZE: usize, D: DiskManager<PAGE_SIZE>, R: ReplacementPolicy>(
        &self,
        buffer_pool: &mut BufferPoolManager<PAGE_SIZE, D, R>,
        key: KeyType,
    ) -> (r: Result<Option<(usize, PageId)>, BTreeError>)
        requires
            old(buffer_pool).wf(),
            NODE_SIZE <= PAGE_SIZE,
        ensures
            final(buffer_pool).wf(),
            final(buffer_pool).pool_size_view() == old(buffer_pool).pool_size_view(),
            self.root() is None ==> (r matches Ok(None) && *final(buffer_pool) == *old(buffer_pool)),
            self.root() is Some ==> !(r matches Ok(None)),
            r matches Ok(Some((f, p))) ==> (f < old(buffer_pool).pool_size_view() && final(buffer_pool).lookup(p)
                == Some(f) && is_leaf(final(buffer_pool).frame_view(f as int).bytes())),
            pins_can_grow(*old(buffer_pool)) ==> match r {
                Ok(Some((f, _))) => {
                    &&& final(buffer_pool).pin_count(f as int) == old(buffer_pool).pin_count(f as int) + 1
                    &&& forall|g: int|
                        0 <= g < old(buffer_pool).pool_size_view() && g != f
                            ==> #[trigger] final(buffer_pool).pin_count(g) == old(buffer_pool).pin_count(g)
                },
                _ => same_pins(*old(buffer_pool), *final(buffer_pool)),
            },
            self.root() is Some && disk_leaf_root(*old(buffer_pool), self.root()->0) ==> match r {
                Ok(Some((f, p))) => p == self.root()->0 && final(buffer_pool).frame_view(f as int).bytes()
                    == page_image(*old(buffer_pool), p)->0,
                Ok(None) => false,
                Err(e) => e matches BTreeError::BufferError(b) && fetch_failed(*old(buffer_pool), b),
            },
            self.root() is Some && image_path(*old(buffer_pool), self.root()->0, key) ==> match r {
                Ok(Some((f, p))) => {
                    &&& p == image_leaf(*old(buffer_pool), self.root()->0, key, u32::MAX as nat)->0
                    &&& final(buffer_pool).frame_view(f as int).bytes() == kept_image(*old(buffer_pool), p)->0
                    &&& images_kept(*final(buffer_pool))
                    &&& images_stay(*old(buffer_pool), *final(buffer_pool))
                },
                Ok(None) => false,
                Err(e) => e matches BTreeError::BufferError(b) && !(b is PageNotFound),
            },
            self.root() is Some && pool_leaf(*old(buffer_pool), self.root()->0, key, u32::MAX as nat) is Some
                ==> ({
                let leaf = pool_leaf(*old(buffer_pool), self.root()->0, key, u32::MAX as nat)->0;
                let f = old(buffer_pool).lookup(leaf)->0;
                &&& r == Ok::<Option<(usize, PageId)>, BTreeError>(Some((f, leaf)))
                &&& forall|g: int|
                    0 <= g < old(buffer_pool).pool_size_view() ==> {
                        &&& #[trigger] final(buffer_pool).frame_page(g) == old(buffer_pool).frame_page(g)
                        &&& final(buffer_pool).frame_view(g) == old(buffer_pool).frame_view(g)
                        &&& g != f ==> final(buffer_pool).pin_count(g) == old(buffer_pool).pin_count(g)
                    }
                &&& final(buffer_pool).pin_count(f as int) == old(buffer_pool).pin_count(f as int) + 1
                &&& final(buffer_pool).disk_pages() == old(buffer_pool).disk_pages()
            }),
    {
        let mut curr = match self.root_page_id {
            Some(id) => id,
            None => {
                return Ok(None);
            },
        };
        let mut steps: u64 = 0;
        loop
            invariant
                buffer_pool.wf(),
                old(buffer_pool).wf(),
                buffer_pool.pool_size_view() == old(buffer_pool).pool_size_view(),
                NODE_SIZE <= PAGE_SIZE,
                steps <= u32::MAX,
                self.root() is Some,
                pins_can_grow(*old(buffer_pool)) ==> same_pins(*old(buffer_pool), *buffer_pool),
                steps == 0 ==> curr == self.root()->0 && *buffer_pool == *old(buffer_pool),
                disk_leaf_root(*old(buffer_pool), self.root()->0) ==> steps == 0,
                image_path(*old(buffer_pool), self.root()->0, key) ==> {
                    &&& images_kept(*buffer_pool)
                    &&& images_stay(*old(buffer_pool), *buffer_pool)
                    &&& image_leaf(*old(buffer_pool), self.root()->0, key, u32::MAX as nat) == image_leaf(
                        *old(buffer_pool),
                        curr,
                        key,
                        (u32::MAX - steps) as nat,
                    )
                },
                pool_leaf(*old(buffer_pool), self.root()->0, key, u32::MAX as nat) is Some ==> {
                    &&& same_frames(*old(buffer_pool), *buffer_pool)
                    &&& pool_leaf(*old(buffer_pool), self.root()->0, key, u32::MAX as nat) == pool_leaf(
                        *old(buffer_pool),
                        curr,
                        key,
                        (u32::MAX - steps) as nat,
                    )
                },
            decreases u32::MAX - steps,
        {
            let ghost on_path = pool_leaf(*old(buffer_pool), self.root()->0, key, u32::MAX as nat) is Some;
            let ghost ic = image_path(*old(buffer_pool), self.root()->0, key);
            let ghost img = kept_image(*old(buffer_pool), curr)->0;
            proof {
                if ic {
                    assert(kept_image(*old(buffer_pool), curr) is Some);
                }
            }
            let ghost before = *buffer_pool;
            let ghost f0 = old(buffer_pool).lookup(curr)->0;
            proof {
                if on_path {
                    old(buffer_pool).lemma_lookup(curr);
                    before.lemma_lookup(curr);
                    assert(before.frame_page(f0 as int) == Some(curr));
                    assert(before.lookup(curr) == Some(f0));
                }
            }
            let frame_id = match buffer_pool.fetch_page(curr) {
                Ok(f) => f,
                Err(e) => {
                    proof {
                        if disk_leaf_root(*old(buffer_pool), self.root()->0) {
                            assert(fetch_failed(*old(buffer_pool), e));
                        }
                        if pins_can_grow(*old(buffer_pool)) {
                            if e is StorageError {
                                let f = choose|f: int|
                                    0 <= f < before.pool_size_view() && buffer_pool.pin_count(f)
                                        == before.pin_count(f) && (buffer_pool.frame_page(f)
                                        == before.frame_page(f) || buffer_pool.frame_page(f) == Some(curr))
                                        && #[trigger] same_but(before, *buffer_pool, f);
                                assert forall|g: int| 0 <= g < old(buffer_pool).pool_size_view() implies #[trigger] buffer_pool.pin_count(g)
                                    == old(buffer_pool).pin_count(g) by {
                                    if g != f {
                                        assert(buffer_pool.frame_page(g) == before.frame_page(g));
                                    }
                                }
                            } else {
                                assert forall|g: int| 0 <= g < old(buffer_pool).pool_size_view() implies #[trigger] buffer_pool.pin_count(g)
                                    == old(buffer_pool).pin_count(g) by {
                                    assert(buffer_pool.frame_page(g) == before.frame_page(g));
                                }
                            }
                        }
                    }
                    return Err(BTreeError::BufferError(e));
                },
            };
            proof {
                if pins_can_grow(*old(buffer_pool)) {
                    assert(before.pin_count(frame_id as int) == old(buffer_pool).pin_count(frame_id as int));
                    assert(old(buffer_pool).pin_count(frame_id as int) < u32::MAX);
                    assert forall|g: int| 0 <= g < old(buffer_pool).pool_size_view() && g != frame_id implies #[trigger] buffer_pool.pin_count(g)
                        == old(buffer_pool).pin_count(g) by {
                        assert(buffer_pool.frame_page(g) == before.frame_page(g));
                    }
                }
                if on_path {
                    buffer_pool.lemma_lookup(curr);
                    if f0 != frame_id {
                        assert(buffer_pool.frame_page(f0 as int) == Some(curr));
                    }
                    assert(f0 == frame_id);
                    assert(buffer_pool.frame_view(f0 as int) == old(buffer_pool).frame_view(f0 as int));
                    assert(buffer_pool.pin_count(f0 as int) == old(buffer_pool).pin_count(f0 as int) + 1);
                }
            }
            proof {
                if ic {
                    before.lemma_fetch_keeps_images(*buffer_pool, curr, frame_id);
                    assert forall|p: PageId| #[trigger] kept_image(*old(buffer_pool), p) is Some implies kept_image(
                        *buffer_pool,
                        p,
                    ) == kept_image(*old(buffer_pool), p) by {
                        assert(kept_image(before, p) == kept_image(*old(buffer_pool), p));
                    }
                    assert(buffer_pool.frame_view(frame_id as int).bytes() == img);
                }
            }
            proof {
                if disk_leaf_root(*old(buffer_pool), self.root()->0) {
                    let o = *old(buffer_pool);
                    o.lemma_lookup(curr);
                    if let Some(q) = o.frame_page(frame_id as int) {
                        o.lemma_lookup(q);
                        assert(q != curr);
                    }
                    assert(before == o);
                    assert(o.lookup(curr) is None);
                    if o.is_dirty(frame_id as int) {
                        o.lemma_dirty_has_page(frame_id as int);
                    }
                    assert(buffer_pool.disk_pages()[curr] == o.disk_pages()[curr]);
                    assert(buffer_pool.disk_pages().contains_key(curr));
                    assert(buffer_pool.frame_view(frame_id as int).bytes() == buffer_pool.disk_pages()[curr]);
                    assert(buffer_pool.frame_view(frame_id as int).bytes() == page_image(o, curr)->0);
                }
            }
            let page = buffer_pool.read_page(frame_id);
            if read_is_leaf(page) {
                return Ok(Some((frame_id, curr)));
            }
            let n16 = read_count(page);
            if n16 as usize > MAX_KEYS {
                match release(buffer_pool, curr, false) {
                    Ok(()) => {},
                    Err(e) => {
                        return Err(BTreeError::BufferError(e));
                    },
                }
                return Err(BTreeError::Corrupted);
            }
            let child_idx = first_above(page, n16 as usize, key);
            let next = read_child(page, child_idx);
            proof {
                if ic {
                    assert(node_keys(img).take(n16 as int) =~= node_keys(img));
                    assert(steps < u32::MAX);
                    assert(image_leaf(*old(buffer_pool), curr, key, (u32::MAX - steps) as nat) == image_leaf(
                        *old(buffer_pool),
                        next,
                        key,
                        (u32::MAX - (steps + 1)) as nat,
                    ));
                }
                if on_path {
                    let sb = old(buffer_pool).frame_view(f0 as int).bytes();
                    assert(node_keys(sb).take(n16 as int) =~= node_keys(sb));
                    assert(steps < u32::MAX);
                    assert(pool_leaf(*old(buffer_pool), curr, key, (u32::MAX - steps) as nat) == pool_leaf(
                        *old(buffer_pool),
                        next,
                        key,
                        (u32::MAX - (steps + 1)) as nat,
                    ));
                }
            }
            let ghost mid = *buffer_pool;
            match release(buffer_pool, curr, false) {
                Ok(()) => {},
                Err(e) => {
                    proof {
                        if ic {
                            mid.lemma_lookup(curr);
                            assert(mid.lookup(curr) == Some(frame_id));
                        }
                    }
                    return Err(BTreeError::BufferError(e));
                },
            }
            proof {
                if ic {
                    lemma_marking_keeps_images(mid, *buffer_pool);
                    assert forall|p: PageId| #[trigger] kept_image(*old(buffer_pool), p) is Some implies kept_image(
                        *buffer_pool,
                        p,
                    ) == kept_image(*old(buffer_pool), p) by {
                        assert(kept_image(mid, p) == kept_image(*old(buffer_pool), p));
                    }
                }
                if on_path {
                    mid.lemma_lookup(curr);
                    assert(same_frames(*old(buffer_pool), *buffer_pool));
                }
            }
            if steps == u32::MAX as u64 {
                return Err(BTreeError::Corrupted);
            }
            curr = next;
            steps = steps + 1;
        }
    }

    /// Inserts `key` with `value`. An empty tree gets a new root leaf; else the
    /// key goes, in key order, into the leaf that the path from the root
    /// reaches, which must not hold the key already (`DuplicateKey`) and must
    /// have room (`NodeFull`: leaves are not split). Where the path runs
    /// through pages of the pool (`pool_leaf`), the outcome is stated exactly
    /// and the path stays the same. Where the root is a leaf kept on disk
    /// (`disk_leaf_root`), the outcome is stated exactly too, unless the
    /// pool cannot take the page or the disk fails (`fetch_failed`), and the
    /// root then stays in the pool. Where the path runs through the pages'
    /// kept images, in memory or on disk (`image_path`), the outcome is
    /// stated exactly unless the pool or the disk fails, and the path stays.
    #[verifier::rlimit(40)]
    pub fn insert<const PAGE_SIZE: usize, D: DiskManager<PAGE_SIZE>, R: ReplacementPolicy>(
        &mut self,
        buffer_pool: &mut BufferPoolManager<PAGE_SIZE, D, R>,
        key: KeyType,
        value: ValueType,
    ) -> (r: Result<(), BTreeError>)
        requires
            old(buffer_pool).wf(),
            NODE_SIZE <= PAGE_SIZE,
        ensures
            final(buffer_pool).wf(),
            final(buffer_pool).pool_size_view() == old(buffer_pool).pool_size_view(),
            old(self).root() is Some ==> final(self).root() == old(self).root(),
            r is Ok ==> final(self).root() is Some && exists|p: PageId|
                #[trigger] final(buffer_pool).lookup(p) is Some && leaf_holds(
                    final(buffer_pool).frame_view(final(buffer_pool).lookup(p)->0 as int).bytes(),
                    key,
                    value,
                ),
            old(self).root() is None && r is Ok ==> ({
                let p = final(self).root()->0;
                let f = final(buffer_pool).lookup(p)->0 as int;
                let t = final(buffer_pool).frame_view(f).bytes();
                &&& final(buffer_pool).lookup(p) is Some
                &&& is_leaf(t)
                &&& node_keys(t) == seq![key]
                &&& leaf_values(t) == seq![value]
                &&& node_max(t) == (PAGE_SIZE - KEYS_OFFSET) / 12
                &&& final(buffer_pool).pin_count(f) == old(buffer_pool).pin_count(f)
                &&& old(buffer_pool).pin_count(f) < u32::MAX
                &&& same_but(*old(buffer_pool), *final(buffer_pool), f)
                &&& final(buffer_pool).is_dirty(f)
            }),
            old(self).root() is None && r is Err ==> final(self).root() is None,
            old(self).root() is None && r is Ok && images_kept(*old(buffer_pool)) ==> images_kept(*final(buffer_pool)),
            pins_can_grow(*old(buffer_pool)) ==> same_pins(*old(buffer_pool), *final(buffer_pool)),
            (old(self).root() is None && r matches Err(BTreeError::BufferError(BufferError::NoFreeFrames))) ==> ((
            forall|g: int|
                0 <= g < old(buffer_pool).pool_size_view() ==> #[trigger] old(buffer_pool).frame_page(g) is Some)
                && (forall|c: usize|
                #[trigger] old(buffer_pool).replacer_view().candidates().contains(c) ==> old(
                    buffer_pool,
                ).replacer_view().is_pinned(c))) || (exists|g: int|
                0 <= g < old(buffer_pool).pool_size_view() && #[trigger] old(buffer_pool).pin_count(g)
                    == u32::MAX),
            ({
                let leaf = pool_leaf(*old(buffer_pool), old(self).root()->0, key, u32::MAX as nat);
                let f = old(buffer_pool).lookup(leaf->0)->0;
                let s = old(buffer_pool).frame_view(f as int).bytes();
                let ks = node_keys(s);
                let vs = leaf_values(s);
                let t = final(buffer_pool).frame_view(f as int).bytes();
                old(self).root() is Some && leaf is Some && node_count(s) > MAX_KEYS ==> (r matches Err(
                    BTreeError::Corrupted,
                ) && t == s)
            }),
            ({
                let leaf = pool_leaf(*old(buffer_pool), old(self).root()->0, key, u32::MAX as nat);
                let f = old(buffer_pool).lookup(leaf->0)->0;
                let s = old(buffer_pool).frame_view(f as int).bytes();
                let ks = node_keys(s);
                let vs = leaf_values(s);
                let t = final(buffer_pool).frame_view(f as int).bytes();
                old(self).root() is Some && leaf is Some && node_count(s) <= MAX_KEYS ==> {
                    &&& final(buffer_pool).lookup(leaf->0) == Some(f)
                    &&& pool_leaf(*final(buffer_pool), old(self).root()->0, key, u32::MAX as nat) == leaf
                    &&& final(buffer_pool).pin_count(f as int) == old(buffer_pool).pin_count(f as int)
                    &&& strictly_sorted(ks) && ks.contains(key) ==> (r matches Err(BTreeError::DuplicateKey)
                        && t == s)
                    &&& !ks.contains(key) && node_count(s) < node_max(s) && node_count(s) < MAX_KEYS ==> {
                        let i = insert_index(ks, key);
                        &&& r is Ok
                        &&& is_leaf(t)
                        &&& node_max(t) == node_max(s)
                        &&& node_keys(t) == ks.insert(i, key)
                        &&& leaf_values(t) == vs.insert(i, value)
                        &&& strictly_sorted(ks) ==> strictly_sorted(node_keys(t))
                    }
                    &&& !ks.contains(key) && !(node_count(s) < node_max(s) && node_count(s) < MAX_KEYS)
                        ==> (r matches Err(BTreeError::NodeFull) && t == s)
                }
            }),
            old(self).root() is Some && disk_leaf_root(*old(buffer_pool), old(self).root()->0) && pins_can_grow(
                *old(buffer_pool),
            ) ==> ({
                let root = old(self).root()->0;
                let s = page_image(*old(buffer_pool), root)->0;
                let ks = node_keys(s);
                let vs = leaf_values(s);
                let t = page_image(*final(buffer_pool), root)->0;
                match r {
                    Err(BTreeError::BufferError(e)) => fetch_failed(*old(buffer_pool), e),
                    _ => {
                        &&& final(buffer_pool).lookup(root) is Some
                        &&& pool_leaf(*final(buffer_pool), root, key, u32::MAX as nat) == Some(root)
                        &&& node_count(s) > MAX_KEYS ==> (r matches Err(BTreeError::Corrupted) && t == s)
                        &&& node_count(s) <= MAX_KEYS ==> {
                            &&& strictly_sorted(ks) && ks.contains(key) ==> (r matches Err(
                                BTreeError::DuplicateKey,
                            ) && t == s)
                            &&& !ks.contains(key) && node_count(s) < node_max(s) && node_count(s) < MAX_KEYS ==> {
                                let i = insert_index(ks, key);
                                &&& r is Ok
                                &&& node_max(t) == node_max(s)
                                &&& node_keys(t) == ks.insert(i, key)
                                &&& leaf_values(t) == vs.insert(i, value)
                                &&& strictly_sorted(ks) ==> strictly_sorted(node_keys(t))
                            }
                            &&& !ks.contains(key) && !(node_count(s) < node_max(s) && node_count(s) < MAX_KEYS)
                                ==> (r matches Err(BTreeError::NodeFull) && t == s)
                        }
                    },
                }
            }),
            old(self).root() is Some && image_path(*old(buffer_pool), old(self).root()->0, key) ==> ({
                let root = old(self).root()->0;
                let leaf = image_leaf(*old(buffer_pool), root, key, u32::MAX as nat)->0;
                let s = kept_image(*old(buffer_pool), leaf)->0;
                let ks = node_keys(s);
                let vs = leaf_values(s);
                let t = kept_image(*final(buffer_pool), leaf)->0;
                match r {
                    Err(BTreeError::BufferError(e)) => !(e is PageNotFound),
                    _ => {
                        &&& image_path(*final(buffer_pool), root, key)
                        &&& image_leaf(*final(buffer_pool), root, key, u32::MAX as nat) == Some(leaf)
                        &&& forall|q: PageId|
                            q != leaf && #[trigger] kept_image(*old(buffer_pool), q) is Some ==> kept_image(
                                *final(buffer_pool),
                                q,
                            ) == kept_image(*old(buffer_pool), q)
                        &&& node_count(s) > MAX_KEYS ==> (r matches Err(BTreeError::Corrupted) && t == s)
                        &&& node_count(s) <= MAX_KEYS ==> {
                            &&& strictly_sorted(ks) && ks.contains(key) ==> (r matches Err(
                                BTreeError::DuplicateKey,
                            ) && t == s)
                            &&& !ks.contains(key) && node_count(s) < node_max(s) && node_count(s) < MAX_KEYS ==> {
                                let i = insert_index(ks, key);
                                &&& r is Ok
                                &&& node_max(t) == node_max(s)
                                &&& node_keys(t) == ks.insert(i, key)
                                &&& leaf_values(t) == vs.insert(i, value)
                                &&& strictly_sorted(ks) ==> strictly_sorted(node_keys(t))
                            }
                            &&& !ks.contains(key) && !(node_count(s) < node_max(s) && node_count(s) < MAX_KEYS)
                                ==> (r matches Err(BTreeError::NodeFull) && t == s)
                        }
                    },
                }
            }),
    {
        if self.root_page_id.is_none() {
            let (frame_id, root_page_id) = match buffer_pool.new_page(0) {
                Ok(x) => x,
                Err(e) => {
                    proof {
                        if e is StorageError {
                            let f = choose|f: int|
                                0 <= f < old(buffer_pool).pool_size_view() && buffer_pool.pin_count(f)
                                    == old(buffer_pool).pin_count(f) && (buffer_pool.frame_page(f)
                                    == old(buffer_pool).frame_page(f) || old(buffer_pool).lookup(
                                    buffer_pool.frame_page(f)->0,
                                ) is None) && #[trigger] same_but(*old(buffer_pool), *buffer_pool, f);
                            assert forall|g: int| 0 <= g < old(buffer_pool).pool_size_view() implies #[trigger] buffer_pool.pin_count(g)
                                == old(buffer_pool).pin_count(g) by {
                                if g != f {
                                    assert(buffer_pool.frame_page(g) == old(buffer_pool).frame_page(g));
                                }
                            }
                        } else if e is NoFreeFrames {
                            assert forall|g: int| 0 <= g < old(buffer_pool).pool_size_view() implies #[trigger] buffer_pool.pin_count(g)
                                == old(buffer_pool).pin_count(g) by {
                                assert(buffer_pool.frame_page(g) == old(buffer_pool).frame_page(g));
                            }
                        }
                    }
                    return Err(BTreeError::BufferError(e));
                },
            };
            let ghost after_new = *buffer_pool;
            buffer_pool.read_page(frame_id).size_facts();
            let max_keys = ((PAGE_SIZE - KEYS_OFFSET) / 12) as u16;
            {
                let page = buffer_pool.write_page(frame_id);
                init_root_leaf(page, max_keys, key, value);
            }
            let ghost t0 = buffer_pool.frame_view(frame_id as int).bytes();
            assert(node_keys(t0) == seq![key]);
            assert(buffer_pool.lookup(root_page_id) == Some(frame_id));
            let ghost before_release = *buffer_pool;
            match release(buffer_pool, root_page_id, true) {
                Ok(()) => {},
                Err(e) => {
                    proof {
                        assert(before_release.frame_page(frame_id as int) == Some(root_page_id));
                        assert(old(buffer_pool).pin_count(frame_id as int) == u32::MAX);
                    }
                    return Err(BTreeError::BufferError(e));
                },
            }
            self.root_page_id = Some(root_page_id);
            proof {
                if images_kept(*old(buffer_pool)) {
                    assert(before_release.lookup(root_page_id) == Some(frame_id));
                    assert forall|g: int| 0 <= g < after_new.pool_size_view() implies {
                        &&& #[trigger] buffer_pool.frame_page(g) == after_new.frame_page(g)
                        &&& g != frame_id ==> buffer_pool.frame_view(g) == after_new.frame_view(g)
                        &&& after_new.is_dirty(g) ==> buffer_pool.is_dirty(g)
                    } by {
                        assert(before_release.frame_page(g) == after_new.frame_page(g));
                        if after_new.is_dirty(g) {
                            assert(before_release.is_dirty(g));
                        }
                    }
                    lemma_writing_keeps_images(after_new, *buffer_pool, frame_id as int);
                }
                assert(buffer_pool.frame_page(frame_id as int) == Some(root_page_id));
                assert forall|g: int| 0 <= g < old(buffer_pool).pool_size_view() && g != frame_id implies {
                    &&& #[trigger] buffer_pool.frame_page(g) == old(buffer_pool).frame_page(g)
                    &&& buffer_pool.frame_view(g) == old(buffer_pool).frame_view(g)
                    &&& buffer_pool.pin_count(g) == old(buffer_pool).pin_count(g)
                    &&& buffer_pool.is_dirty(g) == old(buffer_pool).is_dirty(g)
                } by {
                    assert(before_release.frame_page(g) == old(buffer_pool).frame_page(g));
                    assert(buffer_pool.pin_count(g) == before_release.pin_count(g));
                }
                assert(same_but(*old(buffer_pool), *buffer_pool, frame_id as int));
                buffer_pool.lemma_lookup(root_page_id);
                assert(buffer_pool.frame_view(frame_id as int).bytes() == t0);
                assert(buffer_pool.lookup(root_page_id) == Some(frame_id));
                let t = buffer_pool.frame_view(frame_id as int).bytes();
                assert(node_keys(t)[0] == node_key(t, 0));
                assert(leaf_values(t)[0] == leaf_value(t, 0));
                assert(node_key(t, 0) == key && leaf_value(t, 0) == value);
                assert(buffer_pool.lookup(root_page_id) is Some);
                assert forall|g: int| 0 <= g < old(buffer_pool).pool_size_view() implies #[trigger] buffer_pool.pin_count(g)
                    == old(buffer_pool).pin_count(g) by {
                    if g != frame_id {
                        assert(buffer_pool.frame_page(g) == old(buffer_pool).frame_page(g));
                    }
                }
            }
            return Ok(());
        }
        let ghost disk_case = disk_leaf_root(*old(buffer_pool), self.root()->0) && pins_can_grow(*old(buffer_pool));
        let ghost image_case = image_path(*old(buffer_pool), self.root()->0, key);
        let (leaf_frame, leaf_page_id) = match self.find_leaf_page(buffer_pool, key) {
            Ok(Some(x)) => x,
            Ok(None) => {
                return Err(BTreeError::Uninitialized);
            },
            Err(e) => {
                return Err(e);
            },
        };
        let ghost s = buffer_pool.frame_view(leaf_frame as int).bytes();
        let ghost after_find = *buffer_pool;
        proof {
            if pool_leaf(*old(buffer_pool), self.root()->0, key, u32::MAX as nat) is Some {
                assert(buffer_pool.frame_page(leaf_frame as int) == old(buffer_pool).frame_page(leaf_frame as int));
                assert(s == old(buffer_pool).frame_view(leaf_frame as int).bytes());
            }
        }
        let page = buffer_pool.read_page(leaf_frame);
        page.size_facts();
        let n16 = read_count(page);
        let max16 = read_max(page);
        if n16 as usize > MAX_KEYS {
            let ghost m = *buffer_pool;
            match release(buffer_pool, leaf_page_id, false) {
                Ok(()) => {},
                Err(e) => {
                    proof {
                        if pins_can_grow(*old(buffer_pool)) {
                            m.lemma_lookup(leaf_page_id);
                            assert(m.lookup(leaf_page_id) == Some(leaf_frame));
                        }
                    }
                    return Err(BTreeError::BufferError(e));
                },
            }
            proof {
                if pins_can_grow(*old(buffer_pool)) {
                    lemma_pins_back(*old(buffer_pool), m, *buffer_pool, leaf_frame as int);
                }
                if disk_case {
                    assert(buffer_pool.lookup(leaf_page_id) == Some(leaf_frame));
                    assert(buffer_pool.pin_count(leaf_frame as int) == old(buffer_pool).pin_count(leaf_frame as int));
                    lemma_leaf_in_pool(*buffer_pool, leaf_page_id, leaf_frame, key);
                }
                if image_case {
                    lemma_marking_keeps_images(m, *buffer_pool);
                    assert forall|p: PageId| #[trigger] kept_image(*old(buffer_pool), p) is Some implies kept_image(
                        *buffer_pool,
                        p,
                    ) == kept_image(*old(buffer_pool), p) by {
                        assert(kept_image(m, p) == kept_image(*old(buffer_pool), p));
                    }
                    lemma_image_leaf_stays(*old(buffer_pool), *buffer_pool, self.root()->0, key, u32::MAX as nat);
                    assert forall|g: int| 0 <= g < buffer_pool.pool_size_view() implies #[trigger] buffer_pool.pin_count(g)
                        < u32::MAX by {
                        assert(old(buffer_pool).pin_count(g) < u32::MAX);
                    }
                }
            }
            return Err(BTreeError::Corrupted);
        }
        let n = n16 as usize;
        let found = find_key(page, n, key);
        proof {
            let ks = node_keys(s);
            if found is None && strictly_sorted(ks) {
                assert forall|a: int, b: int| 0 <= a <= b < n implies node_key(s, a) <= node_key(s, b) by {
                    assert(ks[a] == node_key(s, a));
                    assert(ks[b] == node_key(s, b));
                }
                assert forall|t: int| 0 <= t < n implies node_key(s, t) != key by {
                    assert(ks[t] == node_key(s, t));
                }
                assert(!ks.contains(key));
            }
            if let Some(i) = found {
                assert(ks[i as int] == key);
            }
        }
        if found.is_some() {
            let ghost m = *buffer_pool;
            match release(buffer_pool, leaf_page_id, false) {
                Ok(()) => {},
                Err(e) => {
                    proof {
                        if pins_can_grow(*old(buffer_pool)) {
                            m.lemma_lookup(leaf_page_id);
                            assert(m.lookup(leaf_page_id) == Some(leaf_frame));
                        }
                    }
                    return Err(BTreeError::BufferError(e));
                },
            }
            proof {
                if pins_can_grow(*old(buffer_pool)) {
                    lemma_pins_back(*old(buffer_pool), m, *buffer_pool, leaf_frame as int);
                }
                if disk_case {
                    assert(buffer_pool.lookup(leaf_page_id) == Some(leaf_frame));
                    assert(buffer_pool.pin_count(leaf_frame as int) == old(buffer_pool).pin_count(leaf_frame as int));
                    lemma_leaf_in_pool(*buffer_pool, leaf_page_id, leaf_frame, key);
                }
                if image_case {
                    lemma_marking_keeps_images(m, *buffer_pool);
                    assert forall|p: PageId| #[trigger] kept_image(*old(buffer_pool), p) is Some implies kept_image(
                        *buffer_pool,
                        p,
                    ) == kept_image(*old(buffer_pool), p) by {
                        assert(kept_image(m, p) == kept_image(*old(buffer_pool), p));
                    }
                    lemma_image_leaf_stays(*old(buffer_pool), *buffer_pool, self.root()->0, key, u32::MAX as nat);
                    assert forall|g: int| 0 <= g < buffer_pool.pool_size_view() implies #[trigger] buffer_pool.pin_count(g)
                        < u32::MAX by {
                        assert(old(buffer_pool).pin_count(g) < u32::MAX);
                    }
                }
            }
            proof {
                if pool_leaf(*old(buffer_pool), self.root()->0, key, u32::MAX as nat) is Some {
                    lemma_pool_leaf_stable(*old(buffer_pool), *buffer_pool, leaf_frame as int, self.root()->0, key, u32::MAX as nat);
                }
            }
            return Err(BTreeError::DuplicateKey);
        }
        if n < max16 as usize && n < MAX_KEYS {
            let idx = first_above(page, n, key);
            let ghost pins = buffer_pool.pin_count(leaf_frame as int);
            {
                let pagem = buffer_pool.write_page(leaf_frame);
                leaf_insert_at(pagem, idx, n, key, value);
                pagem.size_facts();
                let ghost u = pagem.bytes();
                write_count(pagem, (n + 1) as u16);
                proof {
                    lemma_auto_spec_u16_to_from_le_bytes();
                    lemma_write_frame(u, 2, spec_u16_to_le_bytes((n + 1) as u16));
                    let t = pagem.bytes();
                    assert(t[0] == u[0]);
                    assert(u16_at(t, 4) == u16_at(u, 4));
                    assert forall|j: int| 0 <= j <= n implies #[trigger] node_key(t, j) == node_key(u, j)
                        && leaf_value(t, j) == leaf_value(u, j) by {
                        assert(u32_at(t, key_pos(j)) == u32_at(u, key_pos(j)));
                        assert(u64_at(t, value_pos(j)) == u64_at(u, value_pos(j)));
                    }
                    let ks = node_keys(s);
                    let vs = leaf_values(s);
                    assert(ks.take(n as int) =~= ks);
                    assert(node_keys(t) =~= ks.insert(idx as int, key)) by {
                        assert forall|j: int| 0 <= j <= n implies node_keys(t)[j] == ks.insert(idx as int, key)[j] by {
                            if j < idx {
                                assert(node_key(u, j) == node_key(s, j));
                            } else if j > idx {
                                assert(node_key(u, j) == node_key(s, j - 1));
                            }
                        }
                    }
                    assert(leaf_values(t) =~= vs.insert(idx as int, value)) by {
                        assert forall|j: int| 0 <= j <= n implies leaf_values(t)[j] == vs.insert(idx as int, value)[j] by {
                            if j < idx {
                                assert(node_key(u, j) == node_key(s, j));
                                assert(leaf_value(u, j) == leaf_value(s, j));
                            } else if j > idx {
                                assert(node_key(u, j) == node_key(s, j - 1));
                                assert(leaf_value(u, j) == leaf_value(s, j - 1));
                            }
                        }
                    }
                    assert(node_key(t, idx as int) == key && leaf_value(t, idx as int) == value);
                    if strictly_sorted(ks) {
                        lemma_leaf_insert(ks, vs, key, value);
                    }
                }
            }
            proof {
                buffer_pool.lemma_lookup(leaf_page_id);
            }
            assert(buffer_pool.pin_count(leaf_frame as int) == pins);
            assert(buffer_pool.lookup(leaf_page_id) == Some(leaf_frame));
            proof {
                assert forall|g: int| 0 <= g < after_find.pool_size_view() implies #[trigger] buffer_pool.pin_count(g)
                    == after_find.pin_count(g) by {
                    assert(buffer_pool.frame_page(g) == after_find.frame_page(g));
                }
            }
            let ghost m = *buffer_pool;
            match release(buffer_pool, leaf_page_id, true) {
                Ok(()) => {},
                Err(e) => {
                    proof {
                        if pins_can_grow(*old(buffer_pool)) {
                            m.lemma_lookup(leaf_page_id);
                            assert(m.lookup(leaf_page_id) == Some(leaf_frame));
                        }
                    }
                    return Err(BTreeError::BufferError(e));
                },
            }
            proof {
                if pins_can_grow(*old(buffer_pool)) {
                    lemma_pins_back(*old(buffer_pool), m, *buffer_pool, leaf_frame as int);
                }
                if disk_case {
                    assert(buffer_pool.lookup(leaf_page_id) == Some(leaf_frame));
                    assert(buffer_pool.pin_count(leaf_frame as int) == old(buffer_pool).pin_count(leaf_frame as int));
                    lemma_leaf_in_pool(*buffer_pool, leaf_page_id, leaf_frame, key);
                }
                if image_case {
                    let leaf = leaf_page_id;
                    assert(after_find.frame_page(leaf_frame as int) == Some(leaf)) by {
                        after_find.lemma_lookup(leaf);
                    }
                    assert forall|g: int| 0 <= g < after_find.pool_size_view() implies {
                        &&& #[trigger] buffer_pool.frame_page(g) == after_find.frame_page(g)
                        &&& g != leaf_frame ==> buffer_pool.frame_view(g) == after_find.frame_view(g)
                        &&& after_find.is_dirty(g) ==> buffer_pool.is_dirty(g)
                    } by {
                        assert(m.frame_page(g) == after_find.frame_page(g));
                        if after_find.is_dirty(g) {
                            assert(m.is_dirty(g));
                        }
                    }
                    lemma_writing_keeps_images(after_find, *buffer_pool, leaf_frame as int);
                    assert forall|q: PageId| q != leaf && #[trigger] kept_image(*old(buffer_pool), q) is Some implies kept_image(
                        *buffer_pool,
                        q,
                    ) == kept_image(*old(buffer_pool), q) by {
                        assert(kept_image(after_find, q) == kept_image(*old(buffer_pool), q));
                    }
                    lemma_image_leaf_ends_in_leaf(*old(buffer_pool), self.root()->0, key, u32::MAX as nat);
                    lemma_image_leaf_rewritten(*old(buffer_pool), *buffer_pool, leaf, self.root()->0, key, u32::MAX as nat);
                    assert forall|g: int| 0 <= g < buffer_pool.pool_size_view() implies #[trigger] buffer_pool.pin_count(g)
                        < u32::MAX by {
                        assert(old(buffer_pool).pin_count(g) < u32::MAX);
                    }
                }
            }
            proof {
                buffer_pool.lemma_lookup(leaf_page_id);
                assert(buffer_pool.lookup(leaf_page_id) is Some);
                if pool_leaf(*old(buffer_pool), self.root()->0, key, u32::MAX as nat) is Some {
                    lemma_pool_leaf_stable(*old(buffer_pool), *buffer_pool, leaf_frame as int, self.root()->0, key, u32::MAX as nat);
                }
            }
            Ok(())
        } else {
            let ghost m = *buffer_pool;
            match release(buffer_pool, leaf_page_id, false) {
                Ok(()) => {},
                Err(e) => {
                    proof {
                        if pins_can_grow(*old(buffer_pool)) {
                            m.lemma_lookup(leaf_page_id);
                            assert(m.lookup(leaf_page_id) == Some(leaf_frame));
                        }
                    }
                    return Err(BTreeError::BufferError(e));
                },
            }
            proof {
                if pins_can_grow(*old(buffer_pool)) {
                    lemma_pins_back(*old(buffer_pool), m, *buffer_pool, leaf_frame as int);
                }
                if disk_case {
                    assert(buffer_pool.lookup(leaf_page_id) == Some(leaf_frame));
                    assert(buffer_pool.pin_count(leaf_frame as int) == old(buffer_pool).pin_count(leaf_frame as int));
                    lemma_leaf_in_pool(*buffer_pool, leaf_page_id, leaf_frame, key);
                }
                if image_case {
                    lemma_marking_keeps_images(m, *buffer_pool);
                    assert forall|p: PageId| #[trigger] kept_image(*old(buffer_pool), p) is Some implies kept_image(
                        *buffer_pool,
                        p,
                    ) == kept_image(*old(buffer_pool), p) by {
                        assert(kept_image(m, p) == kept_image(*old(buffer_pool), p));
                    }
                    lemma_image_leaf_stays(*old(buffer_pool), *buffer_pool, self.root()->0, key, u32::MAX as nat);
                    assert forall|g: int| 0 <= g < buffer_pool.pool_size_view() implies #[trigger] buffer_pool.pin_count(g)
                        < u32::MAX by {
                        assert(old(buffer_pool).pin_count(g) < u32::MAX);
                    }
                }
            }
            proof {
                if pool_leaf(*old(buffer_pool), self.root()->0, key, u32::MAX as nat) is Some {
                    lemma_pool_leaf_stable(*old(buffer_pool), *buffer_pool, leaf_frame as int, self.root()->0, key, u32::MAX as nat);
                }
            }
            Err(BTreeError::NodeFull)
        }
    }

    /// The value of `key`, found by binary search in the leaf that the path
    /// from the root reaches; `KeyNotFound` when the tree is empty or the
    /// leaf lacks the key. Where the path runs through pages of the pool
    /// (`pool_leaf`), the outcome is stated exactly and the pool's pages are
    /// left as they were. Where the root is a leaf kept on disk
    /// (`disk_leaf_root`), the outcome is stated exactly too, unless the
    /// pool cannot take the page or the disk fails (`fetch_failed`), and the
    /// root then stays in the pool with the bytes read. Where the path runs
    /// through the pages' kept images, in memory or on disk (`image_path`),
    /// the outcome is stated exactly unless the pool or the disk fails, and
    /// the images stay.
    pub fn search<const PAGE_SIZE: usize, D: DiskManager<PAGE_SIZE>, R: ReplacementPolicy>(
        &self,
        buffer_pool: &mut BufferPoolManager<PAGE_SIZE, D, R>,
        key: KeyType,
    ) -> (r: Result<ValueType, BTreeError>)
        requires
            old(buffer_pool).wf(),
            NODE_SIZE <= PAGE_SIZE,
        ensures
            final(buffer_pool).wf(),
            final(buffer_pool).pool_size_view() == old(buffer_pool).pool_size_view(),
            self.root() is None ==> r matches Err(BTreeError::KeyNotFound),
            pins_can_grow(*old(buffer_pool)) ==> same_pins(*old(buffer_pool), *final(buffer_pool)),
            r matches Ok(v) ==> (exists|p: PageId|
                #[trigger] final(buffer_pool).lookup(p) is Some && leaf_holds(
                    final(buffer_pool).frame_view(final(buffer_pool).lookup(p)->0 as int).bytes(),
                    key,
                    v,
                )),
            ({
                let leaf = pool_leaf(*old(buffer_pool), self.root()->0, key, u32::MAX as nat);
                let f = old(buffer_pool).lookup(leaf->0)->0;
                let s = old(buffer_pool).frame_view(f as int).bytes();
                self.root() is Some && leaf is Some && node_count(s) > MAX_KEYS ==> r matches Err(
                    BTreeError::Corrupted,
                )
            }),
            ({
                let leaf = pool_leaf(*old(buffer_pool), self.root()->0, key, u32::MAX as nat);
                let f = old(buffer_pool).lookup(leaf->0)->0;
                let s = old(buffer_pool).frame_view(f as int).bytes();
                let ks = node_keys(s);
                let vs = leaf_values(s);
                self.root() is Some && leaf is Some && node_count(s) <= MAX_KEYS ==> {
                    &&& final(buffer_pool).lookup(leaf->0) == Some(f)
                    &&& final(buffer_pool).pin_count(f as int) == old(buffer_pool).pin_count(f as int)
                    &&& final(buffer_pool).frame_view(f as int) == old(buffer_pool).frame_view(f as int)
                    &&& pool_leaf(*final(buffer_pool), self.root()->0, key, u32::MAX as nat) == leaf
                    &&& forall|g: int|
                        0 <= g < old(buffer_pool).pool_size_view() ==> {
                            &&& #[trigger] final(buffer_pool).frame_page(g) == old(buffer_pool).frame_page(g)
                            &&& final(buffer_pool).frame_view(g) == old(buffer_pool).frame_view(g)
                            &&& final(buffer_pool).pin_count(g) == old(buffer_pool).pin_count(g)
                        }
                    &&& r matches Ok(v) ==> (exists|i: int| 0 <= i < ks.len() && ks[i] == key && vs[i] == v)
                    &&& strictly_sorted(ks) && ks.contains(key) ==> r is Ok
                    &&& !ks.contains(key) ==> r matches Err(BTreeError::KeyNotFound)
                }
            }),
            self.root() is Some && disk_leaf_root(*old(buffer_pool), self.root()->0) && pins_can_grow(
                *old(buffer_pool),
            ) ==> ({
                let root = self.root()->0;
                let s = page_image(*old(buffer_pool), root)->0;
                let ks = node_keys(s);
                let vs = leaf_values(s);
                match r {
                    Err(BTreeError::BufferError(e)) => fetch_failed(*old(buffer_pool), e),
                    _ => {
                        &&& final(buffer_pool).lookup(root) is Some
                        &&& page_image(*final(buffer_pool), root) == Some(s)
                        &&& pool_leaf(*final(buffer_pool), root, key, u32::MAX as nat) == Some(root)
                        &&& node_count(s) > MAX_KEYS ==> (r matches Err(BTreeError::Corrupted))
                        &&& node_count(s) <= MAX_KEYS ==> {
                            &&& r matches Ok(v) ==> (exists|i: int| 0 <= i < ks.len() && ks[i] == key && vs[i] == v)
                            &&& strictly_sorted(ks) && ks.contains(key) ==> r is Ok
                            &&& !ks.contains(key) ==> (r matches Err(BTreeError::KeyNotFound))
                        }
                    },
                }
            }),
            self.root() is Some && image_path(*old(buffer_pool), self.root()->0, key) ==> ({
                let root = self.root()->0;
                let leaf = image_leaf(*old(buffer_pool), root, key, u32::MAX as nat)->0;
                let s = kept_image(*old(buffer_pool), leaf)->0;
                let ks = node_keys(s);
                let vs = leaf_values(s);
                match r {
                    Err(BTreeError::BufferError(e)) => !(e is PageNotFound),
                    _ => {
                        &&& image_path(*final(buffer_pool), root, key)
                        &&& image_leaf(*final(buffer_pool), root, key, u32::MAX as nat) == Some(leaf)
                        &&& images_stay(*old(buffer_pool), *final(buffer_pool))
                        &&& node_count(s) > MAX_KEYS ==> (r matches Err(BTreeError::Corrupted))
                        &&& node_count(s) <= MAX_KEYS ==> {
                            &&& r matches Ok(v) ==> (exists|i: int| 0 <= i < ks.len() && ks[i] == key && vs[i] == v)
                            &&& strictly_sorted(ks) && ks.contains(key) ==> r is Ok
                            &&& !ks.contains(key) ==> (r matches Err(BTreeError::KeyNotFound))
                        }
                    },
                }
            }),
    {
        let ghost image_case = self.root() is Some && image_path(*old(buffer_pool), self.root()->0, key);
        let ghost disk_case = self.root() is Some && disk_leaf_root(*old(buffer_pool), self.root()->0)
            && pins_can_grow(*old(buffer_pool));
        let (leaf_frame, page_id) = match self.find_leaf_page(buffer_pool, key) {
            Ok(Some(x)) => x,
            Ok(None) => {
                return Err(BTreeError::KeyNotFound);
            },
            Err(e) => {
                return Err(e);
            },
        };
        let ghost s = buffer_pool.frame_view(leaf_frame as int).bytes();
        let page = buffer_pool.read_page(leaf_frame);
        let n16 = read_count(page);
        let found = if n16 as usize <= MAX_KEYS {
            find_key(page, n16 as usize, key)
        } else {
            None
        };
        let found_val = match found {
            Some(i) => Some(read_value(page, i)),
            None => None,
        };
        proof {
            let ks = node_keys(s);
            let vs = leaf_values(s);
            if let Some(i) = found {
                assert(ks[i as int] == key && vs[i as int] == leaf_value(s, i as int));
            }
            if n16 as usize <= MAX_KEYS && found_val is None && strictly_sorted(ks) {
                assert forall|a: int, b: int| 0 <= a <= b < n16 implies node_key(s, a) <= node_key(s, b) by {
                    assert(ks[a] == node_key(s, a));
                    assert(ks[b] == node_key(s, b));
                }
                assert forall|t: int| 0 <= t < n16 implies node_key(s, t) != key by {
                    assert(ks[t] == node_key(s, t));
                }
                assert(!ks.contains(key));
            }
        }
        let ghost m = *buffer_pool;
        match release(buffer_pool, page_id, false) {
            Ok(()) => {},
            Err(e) => {
                proof {
                    if pins_can_grow(*old(buffer_pool)) {
                        m.lemma_lookup(page_id);
                        assert(m.lookup(page_id) == Some(leaf_frame));
                    }
                }
                return Err(BTreeError::BufferError(e));
            },
        }
        proof {
            if image_case {
                let root = self.root()->0;
                lemma_marking_keeps_images(m, *buffer_pool);
                assert forall|p: PageId| #[trigger] kept_image(*old(buffer_pool), p) is Some implies kept_image(
                    *buffer_pool,
                    p,
                ) == kept_image(*old(buffer_pool), p) by {
                    assert(kept_image(m, p) == kept_image(*old(buffer_pool), p));
                }
                lemma_image_leaf_stays(*old(buffer_pool), *buffer_pool, root, key, u32::MAX as nat);
                assert forall|g: int| 0 <= g < buffer_pool.pool_size_view() implies #[trigger] buffer_pool.pin_count(g)
                    < u32::MAX by {
                    assert(old(buffer_pool).pin_count(g) < u32::MAX);
                }
            }
            if disk_case {
                let root = self.root()->0;
                assert(page_id == root);
                assert(buffer_pool.lookup(root) == Some(leaf_frame));
                assert(buffer_pool.frame_view(leaf_frame as int) == m.frame_view(leaf_frame as int));
                assert(buffer_pool.pin_count(leaf_frame as int) == old(buffer_pool).pin_count(leaf_frame as int));
                assert(page_image(*buffer_pool, root) == Some(s));
                assert(pool_leaf(*buffer_pool, root, key, u32::MAX as nat) == Some(root));
            }
            buffer_pool.lemma_lookup(page_id);
            if pool_leaf(*old(buffer_pool), self.root()->0, key, u32::MAX as nat) is Some {
                lemma_pool_leaf_stable(*old(buffer_pool), *buffer_pool, leaf_frame as int, self.root()->0, key, u32::MAX as nat);
            }
        }
        if n16 as usize > MAX_KEYS {
            return Err(BTreeError::Corrupted);
        }
        match found_val {
            Some(v) => Ok(v),
            None => Err(BTreeError::KeyNotFound),
        }
    }
}

} // verus!
