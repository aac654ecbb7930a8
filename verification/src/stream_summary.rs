//! The stream summary: the lines that a Space-Saving run over a stream
//! tracks, with a bucket of lines for each count, kept in an ordered map so
//! that the least count is found without a scan of the items.
//!
//! The tracked lines stand in a vector that holds no line twice; a line is
//! found by a scan of it. Every item keeps the handle of its node in the
//! bucket of its count, so that moving it to the next bucket takes no
//! search in the bucket.

use crate::double_linked_list::{DoublyLinkedList, NodeLink};
use crate::space_saving::{
    bucket_push, bucket_remove, least_count, lemma_count_bounds, lemma_empty_inv, lemma_offer_inv,
    lemma_offer_step, lemma_position, lemma_sum, lemma_totals_of_permutation, lemma_victim,
    summary_of, total_count, total_known, Entry, Summary,
};
use std::collections::BTreeMap;
use vstd::prelude::*;

verus! {

/// One tracked line.
pub struct Item {
    /// The line.
    pub data: String,
    /// The handle of the node that holds the line in the bucket of its
    /// count.
    pub bucket_node: NodeLink<String>,
    /// How much of `count` may be owed to the line that this one replaced:
    /// the count of that line, and 0 for a line that replaced none.
    pub epsilon: usize,
    /// The estimated number of occurrences.
    pub count: usize,
}

/// Why a summary could not be built.
#[derive(Debug, Clone, Copy, PartialEq, Eq)]
pub enum StreamSummaryError {
    /// A summary has to have room for one line at least.
    ZeroCapacity,
}

/// Stream Summary structure.
///
/// It estimates the most frequent lines of a stream while it keeps no more
/// than a fixed number of them in memory.
pub struct StreamSummary {
    monitored_items: Vec<Item>,
    buckets: BTreeMap<usize, DoublyLinkedList<String>>,
    capacity: usize,
    stream: Ghost<Seq<Seq<char>>>,
}

impl View for Item {
    type V = Entry;

    open spec fn view(&self) -> Entry {
        Entry { line: self.data@, count: self.count as nat, epsilon: self.epsilon as nat }
    }
}

/// What the items of a sequence keep, each of its line.
pub open spec fn entries_of(items: Seq<&Item>) -> Seq<Entry> {
    Seq::new(items.len(), |i: int| items[i]@)
}

/// No entry has a higher count than one in front of it.
pub open spec fn descending(entries: Seq<Entry>) -> bool {
    forall|i: int, j: int|
        0 <= i <= j < entries.len() ==> (#[trigger] entries[i]).count >= (
        #[trigger] entries[j]).count
}

/// The lines that a list of strings holds.
pub open spec fn lines_of(list: Seq<String>) -> Seq<Seq<char>> {
    Seq::new(list.len(), |p: int| list[p]@)
}

/// The buckets of lines that a map of lists holds.
spec fn bucket_lines(buckets: Map<usize, DoublyLinkedList<String>>) -> Map<nat, Seq<Seq<char>>> {
    Map::new(
        |f: nat| f <= usize::MAX && buckets.contains_key(f as usize),
        |f: nat| lines_of(buckets[f as usize]@),
    )
}

/// Every list of the map is well formed.
spec fn lists_wf(buckets: Map<usize, DoublyLinkedList<String>>) -> bool {
    forall|f: usize| #[trigger] buckets.contains_key(f) ==> buckets[f].wf()
}

/// `node` is the handle of a node of bucket `f`, and the node holds `line`.
spec fn node_holds(
    buckets: Map<usize, DoublyLinkedList<String>>,
    f: usize,
    node: NodeLink<String>,
    line: Seq<char>,
) -> bool {
    &&& buckets.contains_key(f)
    &&& buckets[f].handles().contains(node)
    &&& buckets[f]@[buckets[f].handles().index_of(node)]@ == line
}

proof fn lemma_bucket_lines_insert(
    buckets: Map<usize, DoublyLinkedList<String>>,
    f: usize,
    list: DoublyLinkedList<String>,
)
    ensures
        bucket_lines(buckets.insert(f, list)) == bucket_lines(buckets).insert(
            f as nat,
            lines_of(list@),
        ),
{
    let left = bucket_lines(buckets.insert(f, list));
    let right = bucket_lines(buckets).insert(f as nat, lines_of(list@));
    assert forall|g: nat| left.contains_key(g) == right.contains_key(g) && (left.contains_key(g)
        ==> left[g] == right[g]) by {
        if g <= usize::MAX && g as usize != f {
            assert(buckets.insert(f, list).contains_key(g as usize) == buckets.contains_key(
                g as usize,
            ));
        }
    }
    assert(left =~= right);
}

proof fn lemma_bucket_lines_remove(buckets: Map<usize, DoublyLinkedList<String>>, f: usize)
    ensures
        bucket_lines(buckets.remove(f)) == bucket_lines(buckets).remove(f as nat),
{
    let left = bucket_lines(buckets.remove(f));
    let right = bucket_lines(buckets).remove(f as nat);
    assert forall|g: nat| left.contains_key(g) == right.contains_key(g) && (left.contains_key(g)
        ==> left[g] == right[g]) by {
        if g <= usize::MAX && g as usize != f {
            assert(buckets.remove(f).contains_key(g as usize) == buckets.contains_key(g as usize));
        }
    }
    assert(left =~= right);
}

/// Where an entry stands in a sequence without duplicates, there
/// `index_of` finds it.
proof fn lemma_index_of<H>(s: Seq<H>, i: int)
    requires
        s.no_duplicates(),
        0 <= i < s.len(),
    ensures
        s.contains(s[i]),
        s.index_of(s[i]) == i,
{
    let k = s.index_of(s[i]);
    assert(s[k] == s[i]);
}

/// Appends `data` to the bucket of count `bucket`, which is made if it is
/// not there, and gives the handle of the new node.
fn push_item_to_bucket(
    buckets: &mut BTreeMap<usize, DoublyLinkedList<String>>,
    bucket: usize,
    data: &String,
) -> (node: NodeLink<String>)
    requires
        lists_wf(old(buckets)@),
    ensures
        lists_wf(final(buckets)@),
        bucket_lines(final(buckets)@) == bucket_push(
            bucket_lines(old(buckets)@),
            bucket as nat,
            data@,
        ),
        node_holds(final(buckets)@, bucket, node, data@),
        forall|f: usize, h: NodeLink<String>, l: Seq<char>| #[trigger]
            node_holds(old(buckets)@, f, h, l) ==> node_holds(final(buckets)@, f, h, l),
{
    let ghost before = buckets@;
    let mut list = match buckets.remove(&bucket) {
        Some(list) => list,
        None => DoublyLinkedList::new(),
    };
    let ghost old_list = list;
    let node = list.push_back(data);
    proof {
        list.lemma_handles();
        old_list.lemma_handles();
        assert(list@ =~= old_list@.push(*data));
        assert(lines_of(list@) =~= lines_of(old_list@).push(data@));
        if !before.contains_key(bucket) {
            assert(lines_of(list@) =~= seq![data@]);
        }
        lemma_bucket_lines_remove(before, bucket);
        lemma_bucket_lines_insert(before.remove(bucket), bucket, list);
        assert(bucket_lines(before.remove(bucket)).insert(bucket as nat, lines_of(list@))
            =~= bucket_push(bucket_lines(before), bucket as nat, data@));
        lemma_index_of(list.handles(), list.handles().len() - 1);
    }
    buckets.insert(bucket, list);
    proof {
        assert forall|f: usize, h: NodeLink<String>, l: Seq<char>| #[trigger]
            node_holds(before, f, h, l) implies node_holds(buckets@, f, h, l) by {
            if f == bucket {
                let p = old_list.handles().index_of(h);
                assert(old_list.handles()[p] == h);
                assert(list.handles()[p] == h);
                lemma_index_of(list.handles(), p);
            }
        }
    }
    node
}

/// What is left of the handles of a list when entry `at` has gone still
/// finds every other handle, one place further up if it stood behind.
proof fn lemma_index_after_remove<H>(s: Seq<H>, at: int, h: H)
    requires
        s.no_duplicates(),
        0 <= at < s.len(),
        s.contains(h),
        h != s[at],
    ensures
        s.remove(at).contains(h),
        s.remove(at).index_of(h) == if s.index_of(h) < at {
            s.index_of(h)
        } else {
            s.index_of(h) - 1
        },
{
    let p = s.index_of(h);
    assert(s[p] == h);
    let q = if p < at {
        p
    } else {
        p - 1
    };
    let rest = s.remove(at);
    assert(rest[q] == h);
    assert forall|x: int, y: int|
        0 <= x < rest.len() && 0 <= y < rest.len() && x != y implies rest[x] != rest[y] by {
        let x0 = if x < at {
            x
        } else {
            x + 1
        };
        let y0 = if y < at {
            y
        } else {
            y + 1
        };
        assert(s[x0] != s[y0]);
    }
    lemma_index_of(rest, q);
}

/// Puts back what is left of a bucket that an entry was taken from, if
/// anything is left: empty buckets are not kept.
fn keep_bucket(
    buckets: &mut BTreeMap<usize, DoublyLinkedList<String>>,
    bucket: usize,
    list: DoublyLinkedList<String>,
    before: Ghost<Map<usize, DoublyLinkedList<String>>>,
    at: Ghost<int>,
)
    requires
        lists_wf(before@),
        before@.contains_key(bucket),
        old(buckets)@ == before@.remove(bucket),
        0 <= at@ < before@[bucket]@.len(),
        list.wf(),
        list@ == before@[bucket]@.remove(at@),
        list.handles() == before@[bucket].handles().remove(at@),
    ensures
        lists_wf(final(buckets)@),
        bucket_lines(final(buckets)@) == bucket_remove(bucket_lines(before@), bucket as nat, at@),
        forall|f: usize, h: NodeLink<String>, l: Seq<char>| #[trigger]
            node_holds(before@, f, h, l) && !(f == bucket && h == before@[bucket].handles()[at@])
                ==> node_holds(final(buckets)@, f, h, l),
{
    let ghost old_list = before@[bucket];
    proof {
        old_list.lemma_handles();
        list.lemma_handles();
        lemma_bucket_lines_remove(before@, bucket);
        assert(lines_of(list@) =~= lines_of(old_list@).remove(at@));
    }
    if !list.empty() {
        proof {
            lemma_bucket_lines_insert(before@.remove(bucket), bucket, list);
            assert(bucket_lines(before@.remove(bucket)).insert(bucket as nat, lines_of(list@))
                =~= bucket_remove(bucket_lines(before@), bucket as nat, at@));
        }
        buckets.insert(bucket, list);
    }
    proof {
        let gone = old_list.handles()[at@];
        assert forall|f: usize, h: NodeLink<String>, l: Seq<char>| #[trigger]
            node_holds(before@, f, h, l) && !(f == bucket && h == gone) implies node_holds(
            buckets@,
            f,
            h,
            l,
        ) by {
            if f == bucket {
                lemma_index_after_remove(old_list.handles(), at@, h);
            }
        }
    }
}

/// Takes the node of `node` out of the bucket of count `bucket`.
fn take_from_bucket(
    buckets: &mut BTreeMap<usize, DoublyLinkedList<String>>,
    bucket: usize,
    node: &NodeLink<String>,
)
    requires
        lists_wf(old(buckets)@),
        old(buckets)@.contains_key(bucket),
        old(buckets)@[bucket].handles().contains(*node),
    ensures
        lists_wf(final(buckets)@),
        bucket_lines(final(buckets)@) == bucket_remove(
            bucket_lines(old(buckets)@),
            bucket as nat,
            old(buckets)@[bucket].handles().index_of(*node),
        ),
        forall|f: usize, h: NodeLink<String>, l: Seq<char>| #[trigger]
            node_holds(old(buckets)@, f, h, l) && !(f == bucket && h == *node) ==> node_holds(
                final(buckets)@,
                f,
                h,
                l,
            ),
{
    let ghost before = buckets@;
    let ghost at = before[bucket].handles().index_of(*node);
    proof {
        before[bucket].lemma_handles();
    }
    let mut list = buckets.remove(&bucket).unwrap();
    list.remove(node);
    keep_bucket(buckets, bucket, list, Ghost(before), Ghost(at));
}

/// Takes the head of the bucket of count `bucket`, and gives its line.
fn pop_from_bucket(buckets: &mut BTreeMap<usize, DoublyLinkedList<String>>, bucket: usize) -> (line:
    String)
    requires
        lists_wf(old(buckets)@),
        old(buckets)@.contains_key(bucket),
        old(buckets)@[bucket]@.len() > 0,
    ensures
        lists_wf(final(buckets)@),
        line == old(buckets)@[bucket]@[0],
        bucket_lines(final(buckets)@) == bucket_remove(
            bucket_lines(old(buckets)@),
            bucket as nat,
            0,
        ),
        forall|f: usize, h: NodeLink<String>, l: Seq<char>| #[trigger]
            node_holds(old(buckets)@, f, h, l) && !(f == bucket && h == old(
                buckets,
            )@[bucket].handles()[0]) ==> node_holds(final(buckets)@, f, h, l),
{
    let ghost before = buckets@;
    proof {
        before[bucket].lemma_handles();
    }
    let mut list = buckets.remove(&bucket).unwrap();
    let line = list.pop_front().unwrap();
    proof {
        assert(before[bucket]@.drop_first() =~= before[bucket]@.remove(0));
        assert(before[bucket].handles().drop_first() =~= before[bucket].handles().remove(0));
    }
    keep_bucket(buckets, bucket, list, Ghost(before), Ghost(0));
    line
}

/// The least count that has a bucket.
fn least_bucket(buckets: &BTreeMap<usize, DoublyLinkedList<String>>) -> (least: Option<usize>)
    ensures
        buckets@.len() == 0 ==> least is None,
        buckets@.len() > 0 ==> least is Some && buckets@.contains_key(least.unwrap())
            && forall|f: usize| buckets@.contains_key(f) ==> least.unwrap() <= f,
{
    let mut least: Option<usize> = None;
    for key in keys: buckets.keys()
        invariant
            keys.index() == 0 ==> least is None,
            keys.index() > 0 ==> least is Some && buckets@.contains_key(least.unwrap())
                && forall|j: int| 0 <= j < keys.index() ==> least.unwrap() <= *keys.seq()[j],
    {
        least = match least {
            Some(found) => if *key < found {
                Some(*key)
            } else {
                Some(found)
            },
            None => Some(*key),
        };
    }
    least
}

/// Merges two sequences of items that are in descending order of count
/// into one; of two items of the same count, the one of `left` comes first.
fn merge_by_count<'a>(left: Vec<&'a Item>, right: Vec<&'a Item>) -> (merged: Vec<&'a Item>)
    requires
        descending(entries_of(left@)),
        descending(entries_of(right@)),
        left@.len() + right@.len() <= usize::MAX,
    ensures
        merged@.len() == left@.len() + right@.len(),
        descending(entries_of(merged@)),
        entries_of(merged@).to_multiset() == entries_of(left@).to_multiset().add(
            entries_of(right@).to_multiset(),
        ),
{
    let mut merged: Vec<&'a Item> = Vec::new();
    let mut i: usize = 0;
    let mut j: usize = 0;
    proof {
        broadcast use vstd::multiset::group_multiset_axioms;

        let none = Seq::<Entry>::empty();
        assert(entries_of(left@.take(0)) =~= none);
        assert(entries_of(right@.take(0)) =~= none);
        assert(entries_of(merged@) =~= none);
        vstd::seq_lib::to_multiset_len(none);
        vstd::multiset::lemma_multiset_empty_len(none.to_multiset());
        assert(none.to_multiset().add(none.to_multiset()) =~= none.to_multiset());
    }
    while i < left.len() || j < right.len()
        invariant
            i <= left@.len(),
            j <= right@.len(),
            left@.len() + right@.len() <= usize::MAX,
            merged@.len() == i + j,
            descending(entries_of(left@)),
            descending(entries_of(right@)),
            descending(entries_of(merged@)),
            entries_of(merged@).to_multiset() == entries_of(left@.take(i as int)).to_multiset().add(
                entries_of(right@.take(j as int)).to_multiset(),
            ),
            forall|k: int|
                0 <= k < merged@.len() && i < left@.len() ==> (#[trigger] entries_of(
                    merged@,
                )[k]).count >= entries_of(left@)[i as int].count,
            forall|k: int|
                0 <= k < merged@.len() && j < right@.len() ==> (#[trigger] entries_of(
                    merged@,
                )[k]).count >= entries_of(right@)[j as int].count,
        decreases left@.len() - i + right@.len() - j,
    {
        let ghost before = merged@;
        let ghost seen_left = entries_of(left@.take(i as int));
        let ghost seen_right = entries_of(right@.take(j as int));
        let from_left = if j >= right.len() {
            true
        } else if i >= left.len() {
            false
        } else {
            left[i].count >= right[j].count
        };
        if from_left {
            let item = left[i];
            merged.push(item);
            proof {
                assert(entries_of(left@)[i as int] == item@);
                assert(entries_of(merged@) =~= entries_of(before).push(item@));
                assert(entries_of(left@.take(i + 1)) =~= seen_left.push(item@));
                vstd::seq_lib::to_multiset_build(entries_of(before), item@);
                vstd::seq_lib::to_multiset_build(seen_left, item@);
                assert(seen_left.to_multiset().insert(item@).add(seen_right.to_multiset())
                    =~= seen_left.to_multiset().add(seen_right.to_multiset()).insert(item@));
                if i + 1 < left@.len() {
                    assert(entries_of(left@)[i as int].count >= entries_of(left@)[i + 1].count);
                }
            }
            i = i + 1;
        } else {
            let item = right[j];
            merged.push(item);
            proof {
                assert(entries_of(right@)[j as int] == item@);
                assert(entries_of(merged@) =~= entries_of(before).push(item@));
                assert(entries_of(right@.take(j + 1)) =~= seen_right.push(item@));
                vstd::seq_lib::to_multiset_build(entries_of(before), item@);
                vstd::seq_lib::to_multiset_build(seen_right, item@);
                assert(seen_left.to_multiset().add(seen_right.to_multiset().insert(item@))
                    =~= seen_left.to_multiset().add(seen_right.to_multiset()).insert(item@));
                if j + 1 < right@.len() {
                    assert(entries_of(right@)[j as int].count >= entries_of(right@)[j + 1].count);
                }
            }
            j = j + 1;
        }
    }
    proof {
        assert(left@.take(i as int) =~= left@);
        assert(right@.take(j as int) =~= right@);
    }
    merged
}

/// Sorts items into descending order of count, by merging sorted halves.
fn sort_by_count<'a>(items: Vec<&'a Item>) -> (sorted: Vec<&'a Item>)
    ensures
        sorted@.len() == items@.len(),
        descending(entries_of(sorted@)),
        entries_of(sorted@).to_multiset() == entries_of(items@).to_multiset(),
    decreases items@.len(),
{
    if items.len() <= 1 {
        return items;
    }
    let ghost whole = items@;
    let mut left = items;
    let middle = left.len() / 2;
    let right = left.split_off(middle);
    proof {
        assert(entries_of(whole) =~= entries_of(left@) + entries_of(right@));
        vstd::seq_lib::lemma_multiset_commutative(entries_of(left@), entries_of(right@));
    }
    let left = sort_by_count(left);
    let right = sort_by_count(right);
    merge_by_count(left, right)
}

/// Where among `items` the line `line` is tracked, if it is.
fn find_item(items: &Vec<Item>, line: &String) -> (found: Option<usize>)
    ensures
        match found {
            Some(i) => i < items@.len() && items@[i as int].data@ == line@,
            None => forall|k: int| 0 <= k < items@.len() ==> (#[trigger] items@[k]).data@ != line@,
        },
{
    let mut i: usize = 0;
    while i < items.len()
        invariant
            i <= items@.len(),
            forall|k: int| 0 <= k < i ==> (#[trigger] items@[k]).data@ != line@,
        decreases items@.len() - i,
    {
        if items[i].data == *line {
            return Some(i);
        }
        i = i + 1;
    }
    None
}

impl Clone for Item {
    fn clone(&self) -> (item: Self)
        ensures
            item == *self,
    {
        Item {
            data: self.data.clone(),
            bucket_node: self.bucket_node.clone(),
            epsilon: self.epsilon,
            count: self.count,
        }
    }
}

impl Item {
    fn new(data: &str, node: NodeLink<String>) -> (item: Item)
        ensures
            item.data@ == data@,
            item.bucket_node == node,
            item.epsilon == 0,
            item.count == 1,
    {
        Item { data: data.to_owned(), epsilon: 0, bucket_node: node, count: 1 }
    }
}

impl View for StreamSummary {
    type V = Summary;

    closed spec fn view(&self) -> Summary {
        Summary {
            capacity: self.capacity as nat,
            items: Seq::new(self.monitored_items@.len(), |i: int| self.monitored_items@[i]@),
            buckets: bucket_lines(self.buckets@),
            stream: self.stream@,
        }
    }
}

impl StreamSummary {
    /// Item `i` holds the handle of the node that holds its line, in the
    /// bucket of its count.
    spec fn linked(&self, i: int) -> bool {
        let item = self.monitored_items@[i];
        node_holds(self.buckets@, item.count, item.bucket_node, item.data@)
    }

    /// The summary is the one that offering its stream, line by line, to an
    /// empty summary of its capacity gives, and every item has its node.
    pub closed spec fn wf(&self) -> bool {
        &&& self@.inv()
        &&& self@ == summary_of(self@.capacity, self@.stream)
        &&& lists_wf(self.buckets@)
        &&& forall|i: int| 0 <= i < self.monitored_items@.len() ==> #[trigger] self.linked(i)
    }

    /// A well-formed summary is the summary of the stream that it has seen,
    /// and so meets the invariant of the algorithm.
    pub proof fn lemma_inv(&self)
        requires
            self.wf(),
        ensures
            self@.capacity >= 1,
            self@ == summary_of(self@.capacity, self@.stream),
            self@.inv(),
    {
    }

    /// The tracked items, as the summary holds them.
    pub closed spec fn items(&self) -> Seq<Item> {
        self.monitored_items@
    }

    /// The list that is the bucket of each count that has one.
    pub closed spec fn lists(&self) -> Map<usize, DoublyLinkedList<String>> {
        self.buckets@
    }

    /// The state of the summary holds just what the items keep, in their
    /// order, and a bucket of lines for just the counts that have a list.
    pub proof fn lemma_items(&self)
        ensures
            self.items().len() == self@.items.len(),
            forall|i: int| 0 <= i < self.items().len() ==> (#[trigger] self.items()[i])@
                == self@.items[i],
            forall|f: usize| #[trigger]
                self.lists().contains_key(f) <==> self@.buckets.contains_key(f as nat),
            forall|f: nat| #[trigger] self@.buckets.contains_key(f) ==> f <= usize::MAX,
    {
    }

    /// Bucket consistency, for the items: the bucket of the count of an item
    /// is there, and the handle that the item keeps is that of a node of
    /// this bucket, which holds the line of the item.
    pub proof fn lemma_item_in_bucket(&self, i: int)
        requires
            self.wf(),
            0 <= i < self.items().len(),
        ensures
            self.lists().contains_key(self.items()[i].count),
            ({
                let item = self.items()[i];
                let list = self.lists()[item.count];
                &&& list.wf()
                &&& list.handles().contains(item.bucket_node)
                &&& list@[list.handles().index_of(item.bucket_node)]@ == item.data@
            }),
    {
        assert(self.linked(i));
    }

    /// Bucket consistency, for the buckets: no bucket is empty, and the
    /// lines of a bucket are just the lines that the state of the summary
    /// has for that count.
    pub proof fn lemma_bucket_not_empty(&self, f: usize)
        requires
            self.wf(),
            self.lists().contains_key(f),
        ensures
            self.lists()[f].wf(),
            self.lists()[f]@.len() > 0,
            self@.buckets.contains_key(f as nat),
            self@.buckets[f as nat] == lines_of(self.lists()[f]@),
    {
        assert(self@.buckets.contains_key(f as nat));
    }

    /// The node of item `i` stands in its bucket where the line stands in
    /// the bucket of lines.
    proof fn lemma_linked(&self, i: int)
        requires
            self.wf(),
            0 <= i < self.monitored_items@.len(),
        ensures
            self.linked(i),
            self@.items[i] == self.monitored_items@[i]@,
            self@.monitors(self.monitored_items@[i].data@),
            self@.position(self.monitored_items@[i].data@) == i,
            self.buckets@[self.monitored_items@[i].count].handles().index_of(
                self.monitored_items@[i].bucket_node,
            ) == self@.buckets[self.monitored_items@[i].count as nat].index_of(
                self.monitored_items@[i].data@,
            ),
            self.monitored_items@[i].count <= self@.stream.len(),
            self.monitored_items@[i].epsilon < self.monitored_items@[i].count,
    {
        let item = self.monitored_items@[i];
        assert(self.linked(i));
        lemma_position(self@, i);
        lemma_count_bounds(self@, i);
        assert(self@.items[i].epsilon < self@.items[i].count);
        let at = self.buckets@[item.count].handles().index_of(item.bucket_node);
        let bucket = self@.buckets[item.count as nat];
        assert(self@.buckets.contains_key(self@.items[i].count));
        assert(bucket.no_duplicates());
        self.buckets@[item.count].lemma_handles();
        assert(bucket[at] == item.data@);
        lemma_index_of(bucket, at);
    }

    /// Counts one more occurrence of the line of item `i`.
    fn promote(&mut self, i: usize) -> (count: usize)
        requires
            old(self).wf(),
            i < old(self).monitored_items@.len(),
            old(self)@.stream.len() < usize::MAX,
        ensures
            final(self).wf(),
            final(self)@ == old(self)@.offer(old(self).monitored_items@[i as int].data@),
            count == old(self)@.offer_count(old(self).monitored_items@[i as int].data@),
    {
        let ghost before = *self;
        let ghost line = self.monitored_items@[i as int].data@;
        proof {
            self.lemma_linked(i as int);
        }
        let count = self.monitored_items[i].count;
        let next_count = count + 1;
        take_from_bucket(&mut self.buckets, count, &self.monitored_items[i].bucket_node);
        let ghost taken = self.buckets@;
        let data = &self.monitored_items[i].data;
        let node = push_item_to_bucket(&mut self.buckets, next_count, data);
        self.monitored_items[i].count = next_count;
        self.monitored_items[i].bucket_node = node;
        proof {
            self.stream = Ghost(before.stream@.push(line));
            assert(self@.items =~= before@.offer(line).items);
            assert(self@ == before@.offer(line));
            lemma_offer_inv(before@, line);
            lemma_offer_step(before@, line);
            assert forall|k: int|
                0 <= k < self.monitored_items@.len() implies #[trigger] self.linked(k) by {
                if k != i {
                    before.lemma_linked(k);
                    let other = before.monitored_items@[k];
                    assert(self.monitored_items@[k] == other);
                    let node = other.bucket_node;
                    assert(node_holds(before.buckets@, other.count, node, other.data@));
                    assert(node_holds(taken, other.count, node, other.data@));
                }
            }
        }
        next_count
    }

    /// Takes in a line that is not tracked, while there is room.
    fn take_in(&mut self, data: &str)
        requires
            old(self).wf(),
            !old(self)@.monitors(data@),
            old(self).monitored_items@.len() < old(self).capacity,
        ensures
            final(self).wf(),
            final(self)@ == old(self)@.offer(data@),
    {
        let ghost before = *self;
        let line = data.to_owned();
        let node = push_item_to_bucket(&mut self.buckets, 1, &line);
        let item = Item::new(data, node);
        self.monitored_items.push(item);
        proof {
            self.stream = Ghost(before.stream@.push(data@));
            assert(self@.items =~= before@.offer(data@).items);
            assert(self@ == before@.offer(data@));
            lemma_offer_inv(before@, data@);
            lemma_offer_step(before@, data@);
            assert forall|k: int|
                0 <= k < self.monitored_items@.len() implies #[trigger] self.linked(k) by {
                if k < before.monitored_items@.len() {
                    assert(before.linked(k));
                    let other = before.monitored_items@[k];
                    let node = other.bucket_node;
                    assert(node_holds(before.buckets@, other.count, node, other.data@));
                }
            }
        }
    }

    /// Takes in a line that is not tracked when there is no room: the line
    /// at the head of the least bucket gives way to it.
    fn replace(&mut self, data: &str)
        requires
            old(self).wf(),
            !old(self)@.monitors(data@),
            old(self).monitored_items@.len() >= old(self).capacity,
            old(self)@.stream.len() < usize::MAX,
        ensures
            final(self).wf(),
            final(self)@ == old(self)@.offer(data@),
    {
        let ghost before = *self;
        let ghost v0 = lemma_victim(before@);
        let ghost least = least_count(before@.buckets);
        proof {
            before.lemma_linked(0);
            assert(self.buckets@.dom().contains(self.monitored_items@[0].count));
        }
        let min_bucket = least_bucket(&self.buckets).unwrap();
        assert(min_bucket == least) by {
            assert(before@.buckets.contains_key(min_bucket as nat));
            assert(least <= usize::MAX && self.buckets@.contains_key(least as usize));
        }
        proof {
            before.lemma_linked(v0);
        }
        let victim = pop_from_bucket(&mut self.buckets, min_bucket);
        let ghost popped = self.buckets@;
        assert(self.monitored_items@[v0].data@ == victim@);
        let v = find_item(&self.monitored_items, &victim).unwrap();
        assert(v == v0) by {
            lemma_position(before@, v as int);
        }
        let new_count = self.monitored_items[v].count + 1;
        let new_epsilon = self.monitored_items[v].count;
        let line = data.to_owned();
        let new_node = push_item_to_bucket(&mut self.buckets, new_count, &line);
        let item = Item {
            data: line,
            bucket_node: new_node,
            epsilon: new_epsilon,
            count: new_count,
        };
        self.monitored_items.set(v, item);
        proof {
            self.stream = Ghost(before.stream@.push(data@));
            assert(self@.items =~= before@.offer(data@).items);
            assert(self@ == before@.offer(data@));
            lemma_offer_inv(before@, data@);
            lemma_offer_step(before@, data@);
            assert forall|k: int|
                0 <= k < self.monitored_items@.len() implies #[trigger] self.linked(k) by {
                if k != v {
                    before.lemma_linked(k);
                    let other = before.monitored_items@[k];
                    assert(self.monitored_items@[k] == other);
                    let node = other.bucket_node;
                    assert(node_holds(before.buckets@, other.count, node, other.data@));
                    if other.count == min_bucket && other.bucket_node
                        == before.buckets@[min_bucket].handles()[0] {
                        before.buckets@[min_bucket].lemma_handles();
                        lemma_index_of(before.buckets@[min_bucket].handles(), 0);
                    }
                    assert(node_holds(popped, other.count, node, other.data@));
                }
            }
        }
    }

    /// A summary that tracks up to 1000 lines.
    pub fn new() -> (summary: Self)
        ensures
            summary.wf(),
            summary@ == Summary::empty(1000),
            summary@.inv(),
    {
        let summary = StreamSummary {
            monitored_items: Vec::new(),
            buckets: BTreeMap::new(),
            capacity: 1000,
            stream: Ghost(Seq::empty()),
        };
        proof {
            assert(summary@.items =~= Seq::<Entry>::empty());
            assert(summary@.buckets =~= Map::<nat, Seq<Seq<char>>>::empty());
            lemma_empty_inv(1000);
        }
        summary
    }

    /// A summary that tracks up to `capacity` lines; refused when
    /// `capacity` is 0.
    pub fn with_capacity(capacity: usize) -> (r: Result<Self, StreamSummaryError>)
        ensures
            capacity >= 1 ==> r is Ok && r->Ok_0.wf() && r->Ok_0@.inv(),
            capacity >= 1 ==> r is Ok && r->Ok_0@ == Summary::empty(capacity as nat),
            capacity == 0 ==> r is Err && r->Err_0 == StreamSummaryError::ZeroCapacity,
    {
        if capacity == 0 {
            return Err(StreamSummaryError::ZeroCapacity);
        }
        let summary = StreamSummary {
            monitored_items: Vec::new(),
            buckets: BTreeMap::new(),
            capacity,
            stream: Ghost(Seq::empty()),
        };
        proof {
            assert(summary@.items =~= Seq::<Entry>::empty());
            assert(summary@.buckets =~= Map::<nat, Seq<Seq<char>>>::empty());
            lemma_empty_inv(capacity as nat);
        }
        Ok(summary)
    }

    /// Every tracked line, the most frequent first; lines of the same count
    /// stand in the order in which the summary holds them.
    pub fn estimate_top(&self) -> (top: Vec<&Item>)
        requires
            self.wf(),
        ensures
            top@.len() == self@.items.len(),
            top@.len() <= self@.capacity,
            entries_of(top@).to_multiset() == self@.items.to_multiset(),
            forall|entry: Entry|
                self@.items.contains(entry) <==> #[trigger] entries_of(top@).contains(entry),
            forall|i: int|
                0 <= i < top@.len() ==> (#[trigger] top@[i]).count >= 1 && top@[i].epsilon
                    < top@[i].count,
            total_count(entries_of(top@)) == self@.stream.len(),
            total_known(entries_of(top@)) <= self@.stream.len(),
            descending(entries_of(top@)),
    {
        let ghost items = self@.items;
        let mut top: Vec<&Item> = Vec::new();
        let mut i: usize = 0;
        while i < self.monitored_items.len()
            invariant
                i <= self.monitored_items@.len(),
                top@.len() == i,
                forall|k: int| 0 <= k < i ==> top@[k]@ == self@.items[k],
            decreases self.monitored_items@.len() - i,
        {
            top.push(&self.monitored_items[i]);
            i = i + 1;
        }
        proof {
            assert(entries_of(top@) =~= items);
        }
        let top = sort_by_count(top);
        proof {
            let sorted = entries_of(top@);
            lemma_totals_of_permutation(sorted, items);
            lemma_sum(self@);
            assert forall|entry: Entry| items.contains(entry) <==> #[trigger] sorted.contains(
                entry,
            ) by {
                vstd::seq_lib::to_multiset_contains(items, entry);
                vstd::seq_lib::to_multiset_contains(sorted, entry);
            }
            assert forall|i: int| 0 <= i < top@.len() implies (#[trigger] top@[i]).count >= 1
                && top@[i].epsilon < top@[i].count by {
                assert(sorted[i] == top@[i]@);
                assert(sorted.contains(sorted[i]));
                let k = choose|k: int| 0 <= k < items.len() && items[k] == sorted[i];
                assert(items[k].count >= 1);
            }
        }
        top
    }

    /// Observes one occurrence of `data`, and gives the count that the
    /// summary now has for it if it was tracked already, and 1 if it has
    /// come in with this call.
    pub fn offer(&mut self, data: &str) -> (count: usize)
        requires
            old(self).wf(),
            old(self)@.stream.len() < usize::MAX,
        ensures
            final(self).wf(),
            final(self)@ == old(self)@.offer(data@),
            count == old(self)@.offer_count(data@),
            final(self)@.inv(),
            final(self)@.capacity == old(self)@.capacity,
            final(self)@.stream == old(self)@.stream.push(data@),
            final(self)@.monitors(data@),
            old(self)@.items.len() <= final(self)@.items.len() <= old(self)@.items.len() + 1,
            final(self)@.items.len() <= final(self)@.capacity,
    {
        proof {
            lemma_offer_step(self@, data@);
        }
        let line = data.to_owned();
        match find_item(&self.monitored_items, &line) {
            Some(i) => {
                proof {
                    self.lemma_linked(i as int);
                }
                self.promote(i)
            },
            None => {
                assert(!self@.monitors(data@));
                if self.monitored_items.len() >= self.capacity {
                    self.replace(data);
                } else {
                    self.take_in(data);
                }
                1
            },
        }
    }
}

} // verus!
