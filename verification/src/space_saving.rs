//! The Space-Saving algorithm as a function on mathematical values: what a
//! stream summary holds, what one more line does to it, and what holds of
//! every summary that offers have built.

use vstd::prelude::*;

verus! {

/// What a summary keeps of one tracked line.
pub struct Entry {
    /// The line.
    pub line: Seq<char>,
    /// The estimated number of occurrences.
    pub count: nat,
    /// How much of `count` may be owed to the line that this one replaced:
    /// the count of that line, and 0 for a line that replaced none.
    pub epsilon: nat,
}

/// The state of a stream summary.
pub struct Summary {
    /// How many lines are tracked at most.
    pub capacity: nat,
    /// The tracked lines, no line twice.
    pub items: Seq<Entry>,
    /// For each count that some tracked line has, the lines with that
    /// count, in the order in which they reached it.
    pub buckets: Map<nat, Seq<Seq<char>>>,
    /// The lines offered so far.
    pub stream: Seq<Seq<char>>,
}

/// How often `line` occurs in `stream`.
pub open spec fn occurrences(stream: Seq<Seq<char>>, line: Seq<char>) -> nat
    decreases stream.len(),
{
    if stream.len() == 0 {
        0
    } else {
        occurrences(stream.drop_last(), line) + if stream.last() == line {
            1nat
        } else {
            0nat
        }
    }
}

/// The sum of the counts of `items`.
pub open spec fn total_count(items: Seq<Entry>) -> nat
    decreases items.len(),
{
    if items.len() == 0 {
        0
    } else {
        total_count(items.drop_last()) + items.last().count
    }
}

/// The sum of `count - epsilon` over `items`: the occurrences that the
/// summary has seen of the very lines it tracks.
pub open spec fn total_known(items: Seq<Entry>) -> nat
    decreases items.len(),
{
    if items.len() == 0 {
        0
    } else {
        total_known(items.drop_last()) + (items.last().count - items.last().epsilon) as nat
    }
}

/// `m` is the smallest count that has a bucket.
pub open spec fn is_least(buckets: Map<nat, Seq<Seq<char>>>, m: nat) -> bool {
    &&& buckets.contains_key(m)
    &&& forall|f: nat| buckets.contains_key(f) ==> m <= f
}

/// The smallest count that has a bucket.
pub open spec fn least_count(buckets: Map<nat, Seq<Seq<char>>>) -> nat {
    choose|m: nat| is_least(buckets, m)
}

/// The buckets after `line` has been appended to the bucket of count `f`,
/// which is made if it was not there.
pub open spec fn bucket_push(buckets: Map<nat, Seq<Seq<char>>>, f: nat, line: Seq<char>) -> Map<
    nat,
    Seq<Seq<char>>,
> {
    buckets.insert(
        f,
        if buckets.contains_key(f) {
            buckets[f].push(line)
        } else {
            seq![line]
        },
    )
}

/// The buckets after entry `at` of the bucket of count `f` has been taken
/// out; a bucket left empty goes.
pub open spec fn bucket_remove(buckets: Map<nat, Seq<Seq<char>>>, f: nat, at: int) -> Map<
    nat,
    Seq<Seq<char>>,
> {
    if buckets[f].len() == 1 {
        buckets.remove(f)
    } else {
        buckets.insert(f, buckets[f].remove(at))
    }
}

impl Summary {
    /// The summary of capacity `capacity` that has seen nothing.
    pub open spec fn empty(capacity: nat) -> Summary {
        Summary { capacity, items: Seq::empty(), buckets: Map::empty(), stream: Seq::empty() }
    }

    /// `line` is tracked, with count `f`.
    pub open spec fn monitors_with(self, line: Seq<char>, f: nat) -> bool {
        exists|i: int|
            0 <= i < self.items.len() && (#[trigger] self.items[i]).line == line
                && self.items[i].count == f
    }

    /// `line` is tracked.
    pub open spec fn monitors(self, line: Seq<char>) -> bool {
        exists|i: int| 0 <= i < self.items.len() && (#[trigger] self.items[i]).line == line
    }

    /// Some tracked line has count `f`.
    pub open spec fn has_count(self, f: nat) -> bool {
        exists|i: int| 0 <= i < self.items.len() && (#[trigger] self.items[i]).count == f
    }

    /// Where among the items a tracked line stands.
    pub open spec fn position(self, line: Seq<char>) -> int {
        choose|i: int| 0 <= i < self.items.len() && (#[trigger] self.items[i]).line == line
    }

    /// The most that an untracked line can have occurred: nothing while
    /// there is room, else the least count.
    pub open spec fn floor(self) -> nat {
        if self.items.len() < self.capacity {
            0
        } else {
            least_count(self.buckets)
        }
    }

    /// The summary after one more occurrence of `line`.
    ///
    /// A tracked line moves from the bucket of its count to the end of the
    /// next one. An untracked one comes in with count 1 while there is room;
    /// when there is none, it takes the place of the line at the head of the
    /// least bucket, with that line's count raised by one, and with that
    /// line's count as its epsilon: what it may owe to the line it replaced.
    pub open spec fn offer(self, line: Seq<char>) -> Summary {
        if self.monitors(line) {
            let i = self.position(line);
            let e = self.items[i];
            let at = self.buckets[e.count].index_of(line);
            Summary {
                capacity: self.capacity,
                items: self.items.update(
                    i,
                    Entry { line, count: e.count + 1, epsilon: e.epsilon },
                ),
                buckets: bucket_push(bucket_remove(self.buckets, e.count, at), e.count + 1, line),
                stream: self.stream.push(line),
            }
        } else if self.items.len() < self.capacity {
            Summary {
                capacity: self.capacity,
                items: self.items.push(Entry { line, count: 1, epsilon: 0 }),
                buckets: bucket_push(self.buckets, 1, line),
                stream: self.stream.push(line),
            }
        } else {
            let least = least_count(self.buckets);
            let v = self.position(self.buckets[least][0]);
            let e = self.items[v];
            Summary {
                capacity: self.capacity,
                items: self.items.update(
                    v,
                    Entry { line, count: e.count + 1, epsilon: e.count },
                ),
                buckets: bucket_push(bucket_remove(self.buckets, least, 0), e.count + 1, line),
                stream: self.stream.push(line),
            }
        }
    }

    /// What offering `line` reports: the new count of a tracked line, and 1
    /// for a line that comes in.
    pub open spec fn offer_count(self, line: Seq<char>) -> nat {
        if self.monitors(line) {
            self.items[self.position(line)].count + 1
        } else {
            1
        }
    }

    /// No line is tracked twice.
    pub open spec fn distinct(self) -> bool {
        forall|i: int, j: int|
            0 <= i < self.items.len() && 0 <= j < self.items.len() && i != j ==> (
            #[trigger] self.items[i]).line != (#[trigger] self.items[j]).line
    }

    /// Every count is at least 1 and above its epsilon.
    pub open spec fn counts_valid(self) -> bool {
        forall|i: int|
            0 <= i < self.items.len() ==> (#[trigger] self.items[i]).count >= 1
                && self.items[i].epsilon < self.items[i].count
    }

    /// Every tracked line is in the bucket of its count.
    pub open spec fn items_in_buckets(self) -> bool {
        forall|i: int|
            0 <= i < self.items.len() ==> self.buckets.contains_key(
                (#[trigger] self.items[i]).count,
            ) && self.buckets[self.items[i].count].contains(self.items[i].line)
    }

    /// No bucket is empty or holds a line twice, and every line in the
    /// bucket of a count is tracked with that count.
    pub open spec fn buckets_hold_items(self) -> bool {
        &&& forall|f: nat| #[trigger]
            self.buckets.contains_key(f) ==> self.buckets[f].len() > 0
                && self.buckets[f].no_duplicates()
        &&& forall|f: nat, p: int|
            self.buckets.contains_key(f) && 0 <= p < self.buckets[f].len() ==> self.monitors_with(
                #[trigger] self.buckets[f][p],
                f,
            )
    }

    /// No tracked line has occurred more often than its count says.
    pub open spec fn counts_cover_stream(self) -> bool {
        forall|i: int|
            0 <= i < self.items.len() ==> occurrences(
                self.stream,
                (#[trigger] self.items[i]).line,
            ) <= self.items[i].count
    }

    /// Every tracked line has occurred as often, at least, as its count is
    /// above its epsilon.
    pub open spec fn epsilons_cover_excess(self) -> bool {
        forall|i: int|
            0 <= i < self.items.len() ==> (#[trigger] self.items[i]).count - self.items[i].epsilon
                <= occurrences(self.stream, self.items[i].line)
    }

    /// No untracked line has occurred more often than `floor()`.
    pub open spec fn others_are_rare(self) -> bool {
        forall|line: Seq<char>|
            !self.monitors(line) ==> #[trigger] occurrences(self.stream, line) <= self.floor()
    }

    /// The items and the buckets fit together.
    pub open spec fn structure(self) -> bool {
        &&& self.capacity >= 1
        &&& self.items.len() <= self.capacity
        &&& self.distinct()
        &&& self.counts_valid()
        &&& self.items_in_buckets()
        &&& self.buckets_hold_items()
    }

    /// What holds of every summary that offers have built from an empty one.
    pub open spec fn inv(self) -> bool {
        &&& self.structure()
        &&& total_count(self.items) == self.stream.len()
        &&& self.counts_cover_stream()
        &&& self.epsilons_cover_excess()
        &&& self.others_are_rare()
    }

    /// The summary in which item `j` has given way to `entry`, whose line
    /// has gone from the bucket of the old count to the end of the next.
    spec fn moved(self, j: int, entry: Entry) -> Summary {
        let e = self.items[j];
        let at = self.buckets[e.count].index_of(e.line);
        Summary {
            capacity: self.capacity,
            items: self.items.update(j, entry),
            buckets: bucket_push(bucket_remove(self.buckets, e.count, at), entry.count, entry.line),
            stream: self.stream.push(entry.line),
        }
    }
}

/// A map with a bucket has a least count, which no count with a bucket is
/// below.
pub proof fn lemma_least_count(buckets: Map<nat, Seq<Seq<char>>>, f: nat)
    requires
        buckets.contains_key(f),
    ensures
        is_least(buckets, least_count(buckets)),
        least_count(buckets) <= f,
    decreases f,
{
    if forall|g: nat| buckets.contains_key(g) ==> f <= g {
        assert(is_least(buckets, f));
    } else {
        let g = choose|g: nat| buckets.contains_key(g) && g < f;
        lemma_least_count(buckets, g);
    }
}

proof fn lemma_occurrences_push(stream: Seq<Seq<char>>, line: Seq<char>, other: Seq<char>)
    ensures
        occurrences(stream.push(line), other) == occurrences(stream, other) + if line == other {
            1nat
        } else {
            0nat
        },
{
    assert(stream.push(line).drop_last() =~= stream);
}

proof fn lemma_total_count_push(items: Seq<Entry>, entry: Entry)
    ensures
        total_count(items.push(entry)) == total_count(items) + entry.count,
{
    assert(items.push(entry).drop_last() =~= items);
}

proof fn lemma_total_count_update(items: Seq<Entry>, j: int, entry: Entry)
    requires
        0 <= j < items.len(),
    ensures
        total_count(items.update(j, entry)) + items[j].count == total_count(items) + entry.count,
    decreases items.len(),
{
    let updated = items.update(j, entry);
    if j == items.len() - 1 {
        assert(updated.drop_last() =~= items.drop_last());
    } else {
        lemma_total_count_update(items.drop_last(), j, entry);
        assert(updated.drop_last() =~= items.drop_last().update(j, entry));
    }
}

proof fn lemma_total_count_floor(items: Seq<Entry>, least: nat)
    requires
        forall|i: int| 0 <= i < items.len() ==> (#[trigger] items[i]).count >= least,
    ensures
        total_count(items) >= least * items.len(),
    decreases items.len(),
{
    if items.len() > 0 {
        let rest = items.drop_last();
        assert forall|i: int| 0 <= i < rest.len() implies (#[trigger] rest[i]).count >= least by {
            assert(rest[i] == items[i]);
        }
        lemma_total_count_floor(rest, least);
        assert(items[items.len() - 1].count >= least);
        assert(least * items.len() == least * rest.len() + least) by (nonlinear_arith)
            requires
                items.len() == rest.len() + 1,
        ;
    }
}

proof fn lemma_total_known(items: Seq<Entry>)
    requires
        forall|i: int| 0 <= i < items.len() ==> (#[trigger] items[i]).epsilon <= items[i].count,
    ensures
        total_known(items) <= total_count(items),
    decreases items.len(),
{
    if items.len() > 0 {
        let rest = items.drop_last();
        assert forall|i: int| 0 <= i < rest.len() implies (#[trigger] rest[i]).epsilon
            <= rest[i].count by {
            assert(rest[i] == items[i]);
        }
        lemma_total_known(rest);
        assert(items[items.len() - 1].epsilon <= items[items.len() - 1].count);
    }
}

/// Where a monitored line stands, there it is, and nowhere else.
pub proof fn lemma_position(s: Summary, i: int)
    requires
        s.distinct(),
        0 <= i < s.items.len(),
    ensures
        s.monitors(s.items[i].line),
        s.monitors_with(s.items[i].line, s.items[i].count),
        s.position(s.items[i].line) == i,
{
    let line = s.items[i].line;
    let k = s.position(line);
    assert(s.items[k].line == line);
}

/// The line at entry `p` of bucket `f` is an item with count `f`.
proof fn lemma_bucket_entry(s: Summary, f: nat, p: int) -> (i: int)
    requires
        s.distinct(),
        s.buckets_hold_items(),
        s.buckets.contains_key(f),
        0 <= p < s.buckets[f].len(),
    ensures
        0 <= i < s.items.len(),
        s.items[i].line == s.buckets[f][p],
        s.items[i].count == f,
        s.position(s.buckets[f][p]) == i,
        s.monitors(s.buckets[f][p]),
{
    let line = s.buckets[f][p];
    assert(s.monitors_with(line, f));
    let i = choose|i: int|
        0 <= i < s.items.len() && (#[trigger] s.items[i]).line == line && s.items[i].count == f;
    lemma_position(s, i);
    i
}

/// Moving an item up by one count keeps the items and the buckets
/// together.
proof fn lemma_moved_structure(s: Summary, j: int, entry: Entry)
    requires
        s.structure(),
        0 <= j < s.items.len(),
        entry.count == s.items[j].count + 1,
        entry.epsilon < entry.count,
        entry.line == s.items[j].line || !s.monitors(entry.line),
    ensures
        s.moved(j, entry).structure(),
        s.moved(j, entry).buckets.contains_key(entry.count),
        forall|f: nat| #[trigger]
            s.moved(j, entry).buckets.contains_key(f) ==> s.buckets.contains_key(f) || f
                == entry.count,
{
    let t = s.moved(j, entry);
    let old = s.items[j];
    let c = old.count;
    let b = s.buckets[c];
    let at = b.index_of(old.line);
    let b1 = bucket_remove(s.buckets, c, at);
    let b2 = t.buckets;
    assert(s.buckets.contains_key(old.count) && b.contains(old.line));
    assert(b[at] == old.line);
    lemma_position(s, j);
    // the new line is in no bucket of the count above
    let up = entry.count;
    assert forall|p: int|
        s.buckets.contains_key(up) && 0 <= p < s.buckets[up].len() implies (
    #[trigger] s.buckets[up][p]) != entry.line by {
        let i = lemma_bucket_entry(s, up, p);
    }
    let items = t.items;
    assert forall|i: int, k: int|
        0 <= i < items.len() && 0 <= k < items.len() && i != k implies (#[trigger] items[i]).line
        != (#[trigger] items[k]).line by {
        if i != j {
            lemma_position(s, i);
        }
        if k != j {
            lemma_position(s, k);
        }
        assert(s.items[i].line != s.items[k].line);
    }
    assert forall|i: int| 0 <= i < t.items.len() implies (#[trigger] t.items[i]).count >= 1
        && t.items[i].epsilon < t.items[i].count by {
        if i != j {
            assert(s.items[i].count >= 1);
        }
    }
    assert forall|i: int| 0 <= i < t.items.len() implies b2.contains_key(
        (#[trigger] t.items[i]).count,
    ) && b2[t.items[i].count].contains(t.items[i].line) by {
        if i == j {
            let bucket = b2[entry.count];
            assert(bucket[bucket.len() - 1] == entry.line);
        } else {
            let e = s.items[i];
            assert(s.buckets.contains_key(e.count) && s.buckets[e.count].contains(e.line));
            let p = s.buckets[e.count].index_of(e.line);
            assert(e.line != old.line);
            if e.count == c {
                let q = if p < at {
                    p
                } else {
                    p - 1
                };
                assert(b.remove(at)[q] == e.line);
                assert(b2[c] == b.remove(at));
            } else if e.count == c + 1 {
                assert(b2[e.count][p] == e.line);
            } else {
                assert(b2[e.count] == s.buckets[e.count]);
            }
        }
    }
    assert forall|f: nat| #[trigger] b2.contains_key(f) implies b2[f].len() > 0
        && b2[f].no_duplicates() by {
        if f == c + 1 {
            if s.buckets.contains_key(f) {
                assert(b1[f] == s.buckets[f]);
                assert(s.buckets[f].no_duplicates());
            }
        } else if f == c {
            assert(b.no_duplicates());
            let rest = b.remove(at);
            assert forall|x: int, y: int|
                0 <= x < rest.len() && 0 <= y < rest.len() && x != y implies rest[x] != rest[y] by {
                let x0 = if x < at {
                    x
                } else {
                    x + 1
                };
                let y0 = if y < at {
                    y
                } else {
                    y + 1
                };
                assert(b[x0] != b[y0]);
            }
        } else {
            assert(s.buckets.contains_key(f));
        }
    }
    assert forall|f: nat, p: int|
        b2.contains_key(f) && 0 <= p < b2[f].len() implies t.monitors_with(
        #[trigger] b2[f][p],
        f,
    ) by {
        let line = b2[f][p];
        if f == c + 1 && p == b2[f].len() - 1 {
            assert(t.items[j].line == line && t.items[j].count == f);
        } else {
            let was = if f == c && p >= at {
                p + 1
            } else {
                p
            };
            assert(s.buckets.contains_key(f));
            assert(s.buckets[f][was] == line);
            let i = lemma_bucket_entry(s, f, was);
            if f == c {
                assert(b[was] != b[at]);
            }
            assert(i != j);
            assert(t.items[i].line == line && t.items[i].count == f);
        }
    }
}

/// Taking in a new line while there is room keeps the items and the
/// buckets together.
proof fn lemma_admitted_structure(s: Summary, line: Seq<char>)
    requires
        s.structure(),
        !s.monitors(line),
        s.items.len() < s.capacity,
    ensures
        s.offer(line).structure(),
        forall|f: nat| #[trigger]
            s.offer(line).buckets.contains_key(f) ==> s.buckets.contains_key(f) || f == 1,
{
    let t = s.offer(line);
    let n = s.items.len() as int;
    let b2 = t.buckets;
    assert forall|p: int|
        s.buckets.contains_key(1) && 0 <= p < s.buckets[1].len() implies (
    #[trigger] s.buckets[1][p]) != line by {
        let i = lemma_bucket_entry(s, 1, p);
    }
    let items = t.items;
    assert forall|i: int, k: int|
        0 <= i < items.len() && 0 <= k < items.len() && i != k implies (#[trigger] items[i]).line
        != (#[trigger] items[k]).line by {
        if i != n {
            lemma_position(s, i);
        }
        if k != n {
            lemma_position(s, k);
        }
        if i != n && k != n {
            assert(s.items[i].line != s.items[k].line);
        }
    }
    assert forall|i: int| 0 <= i < t.items.len() implies (#[trigger] t.items[i]).count >= 1
        && t.items[i].epsilon < t.items[i].count by {
        if i != n {
            assert(s.items[i].count >= 1);
        }
    }
    assert forall|i: int| 0 <= i < t.items.len() implies b2.contains_key(
        (#[trigger] t.items[i]).count,
    ) && b2[t.items[i].count].contains(t.items[i].line) by {
        if i == n {
            let bucket = b2[1];
            assert(bucket[bucket.len() - 1] == line);
        } else {
            let e = s.items[i];
            assert(s.buckets.contains_key(e.count) && s.buckets[e.count].contains(e.line));
            let p = s.buckets[e.count].index_of(e.line);
            if e.count == 1 {
                assert(b2[1][p] == e.line);
            } else {
                assert(b2[e.count] == s.buckets[e.count]);
            }
        }
    }
    assert forall|f: nat| #[trigger] b2.contains_key(f) implies b2[f].len() > 0
        && b2[f].no_duplicates() by {
        if f == 1 {
            if s.buckets.contains_key(f) {
                assert(s.buckets[f].no_duplicates());
            }
        } else {
            assert(s.buckets.contains_key(f));
        }
    }
    assert forall|f: nat, p: int|
        b2.contains_key(f) && 0 <= p < b2[f].len() implies t.monitors_with(
        #[trigger] b2[f][p],
        f,
    ) by {
        let x = b2[f][p];
        if f == 1 && p == b2[f].len() - 1 {
            assert(t.items[n].line == x && t.items[n].count == f);
        } else {
            assert(s.buckets.contains_key(f));
            assert(s.buckets[f][p] == x);
            let i = lemma_bucket_entry(s, f, p);
            assert(t.items[i].line == x && t.items[i].count == f);
        }
    }
}

/// The least count does not fall when the only new bucket is that of a
/// count above an old one.
proof fn lemma_least_rises(s: Summary, t: Summary, c: nat)
    requires
        s.buckets.contains_key(c),
        t.buckets.contains_key(c + 1),
        forall|f: nat| #[trigger]
            t.buckets.contains_key(f) ==> s.buckets.contains_key(f) || f == c + 1,
    ensures
        least_count(s.buckets) <= least_count(t.buckets),
        is_least(t.buckets, least_count(t.buckets)),
        is_least(s.buckets, least_count(s.buckets)),
{
    lemma_least_count(s.buckets, c);
    lemma_least_count(t.buckets, (c + 1) as nat);
    assert(t.buckets.contains_key(least_count(t.buckets)));
}

/// Moving an item up by one count, for a line that has just occurred,
/// keeps the whole invariant.
proof fn lemma_moved_inv(s: Summary, j: int, entry: Entry)
    requires
        s.inv(),
        0 <= j < s.items.len(),
        entry.count == s.items[j].count + 1,
        entry.epsilon < entry.count,
        entry.line == s.items[j].line || (!s.monitors(entry.line) && s.items.len() >= s.capacity
            && s.items[j].count == least_count(s.buckets)),
        entry.count - entry.epsilon <= occurrences(s.stream, entry.line) + 1,
    ensures
        s.moved(j, entry).inv(),
{
    let t = s.moved(j, entry);
    let old = s.items[j];
    let line = entry.line;
    lemma_moved_structure(s, j, entry);
    lemma_total_count_update(s.items, j, entry);
    lemma_position(s, j);
    assert(s.buckets.contains_key(old.count));
    lemma_least_rises(s, t, old.count);
    assert forall|i: int| 0 <= i < t.items.len() implies occurrences(
        t.stream,
        (#[trigger] t.items[i]).line,
    ) <= t.items[i].count by {
        lemma_occurrences_push(s.stream, line, t.items[i].line);
        if i == j {
            if line != old.line {
                assert(occurrences(s.stream, line) <= s.floor());
            } else {
                assert(occurrences(s.stream, s.items[j].line) <= s.items[j].count);
            }
        } else {
            lemma_position(s, i);
            assert(occurrences(s.stream, s.items[i].line) <= s.items[i].count);
            assert(t.items[i].line != line);
        }
    }
    assert forall|i: int| 0 <= i < t.items.len() implies (#[trigger] t.items[i]).count
        - t.items[i].epsilon <= occurrences(t.stream, t.items[i].line) by {
        lemma_occurrences_push(s.stream, line, t.items[i].line);
        if i != j {
            assert(s.items[i].count - s.items[i].epsilon <= occurrences(
                s.stream,
                s.items[i].line,
            ));
        }
    }
    assert forall|x: Seq<char>| !t.monitors(x) implies #[trigger] occurrences(t.stream, x)
        <= t.floor() by {
        lemma_occurrences_push(s.stream, line, x);
        assert(t.items[j].line == line);
        assert(x != line);
        if s.monitors(x) {
            let i = s.position(x);
            if i != j {
                assert(t.items[i].line == x);
            }
            assert(x == old.line);
            assert(occurrences(s.stream, s.items[j].line) <= s.items[j].count);
        } else {
            assert(occurrences(s.stream, x) <= s.floor());
        }
    }
}

/// Taking in a new line while there is room keeps the whole invariant.
proof fn lemma_admitted_inv(s: Summary, line: Seq<char>)
    requires
        s.inv(),
        !s.monitors(line),
        s.items.len() < s.capacity,
    ensures
        s.offer(line).inv(),
{
    let t = s.offer(line);
    let n = s.items.len() as int;
    lemma_admitted_structure(s, line);
    lemma_total_count_push(s.items, Entry { line, count: 1, epsilon: 0 });
    assert forall|i: int| 0 <= i < t.items.len() implies occurrences(
        t.stream,
        (#[trigger] t.items[i]).line,
    ) <= t.items[i].count by {
        lemma_occurrences_push(s.stream, line, t.items[i].line);
        if i == n {
            assert(occurrences(s.stream, line) <= s.floor());
        } else {
            lemma_position(s, i);
            assert(occurrences(s.stream, s.items[i].line) <= s.items[i].count);
        }
    }
    assert forall|i: int| 0 <= i < t.items.len() implies (#[trigger] t.items[i]).count
        - t.items[i].epsilon <= occurrences(t.stream, t.items[i].line) by {
        lemma_occurrences_push(s.stream, line, t.items[i].line);
        if i != n {
            assert(s.items[i].count - s.items[i].epsilon <= occurrences(
                s.stream,
                s.items[i].line,
            ));
        }
    }
    assert forall|x: Seq<char>| !t.monitors(x) implies #[trigger] occurrences(t.stream, x)
        <= t.floor() by {
        lemma_occurrences_push(s.stream, line, x);
        assert(t.items[n].line == line);
        assert(x != line);
        if s.monitors(x) {
            let i = s.position(x);
            assert(t.items[i].line == x);
        }
        assert(occurrences(s.stream, x) <= s.floor());
    }
}

/// The line at the head of the least bucket is an item with the least
/// count.
pub proof fn lemma_victim(s: Summary) -> (v: int)
    requires
        s.structure(),
        s.items.len() > 0,
    ensures
        is_least(s.buckets, least_count(s.buckets)),
        v == s.position(s.buckets[least_count(s.buckets)][0]),
        0 <= v < s.items.len(),
        s.items[v].line == s.buckets[least_count(s.buckets)][0],
        s.items[v].count == least_count(s.buckets),
        s.buckets[least_count(s.buckets)].index_of(s.items[v].line) == 0,
{
    assert(s.buckets.contains_key(s.items[0].count));
    lemma_least_count(s.buckets, s.items[0].count);
    let least = least_count(s.buckets);
    let v = lemma_bucket_entry(s, least, 0);
    let bucket = s.buckets[least];
    assert(bucket.no_duplicates());
    let at = bucket.index_of(bucket[0]);
    assert(bucket[at] == bucket[0]);
    v
}

/// One more line keeps the invariant.
pub proof fn lemma_offer_inv(s: Summary, line: Seq<char>)
    requires
        s.inv(),
    ensures
        s.offer(line).inv(),
{
    if s.monitors(line) {
        let i = s.position(line);
        let e = s.items[i];
        let entry = Entry { line, count: e.count + 1, epsilon: e.epsilon };
        assert(e.epsilon < e.count);
        assert(e.count - e.epsilon <= occurrences(s.stream, e.line));
        lemma_moved_inv(s, i, entry);
        assert(s.offer(line) == s.moved(i, entry));
    } else if s.items.len() < s.capacity {
        lemma_admitted_inv(s, line);
    } else {
        let v = lemma_victim(s);
        let e = s.items[v];
        let entry = Entry { line, count: e.count + 1, epsilon: e.count };
        lemma_moved_inv(s, v, entry);
        assert(s.offer(line) == s.moved(v, entry));
    }
}

/// The empty summary meets the invariant.
pub proof fn lemma_empty_inv(capacity: nat)
    requires
        capacity >= 1,
    ensures
        Summary::empty(capacity).inv(),
{
}

/// The summary of capacity `capacity` after the lines of `stream` have been
/// offered to an empty one, one by one.
pub open spec fn summary_of(capacity: nat, stream: Seq<Seq<char>>) -> Summary
    decreases stream.len(),
{
    if stream.len() == 0 {
        Summary::empty(capacity)
    } else {
        summary_of(capacity, stream.drop_last()).offer(stream.last())
    }
}

/// Whatever the stream, the summary of it meets the invariant, and has seen
/// that stream.
pub proof fn lemma_summary_of(capacity: nat, stream: Seq<Seq<char>>)
    requires
        capacity >= 1,
    ensures
        summary_of(capacity, stream).inv(),
        summary_of(capacity, stream).stream == stream,
        summary_of(capacity, stream).capacity == capacity,
    decreases stream.len(),
{
    if stream.len() == 0 {
        lemma_empty_inv(capacity);
        assert(summary_of(capacity, stream).stream =~= stream);
    } else {
        lemma_summary_of(capacity, stream.drop_last());
        lemma_offer_inv(summary_of(capacity, stream.drop_last()), stream.last());
        assert(stream.drop_last().push(stream.last()) =~= stream);
    }
}

/// Whatever the capacity and however long the stream, the summary of the
/// stream tracks no more lines than its capacity, every count is at least 1
/// and above its epsilon, the counts add up to the length of the stream, the
/// sum of `count - epsilon` is no more than that, every tracked line is in
/// the bucket of its count, and no bucket is empty or holds a line that is
/// not tracked with its count.
pub proof fn lemma_every_summary(capacity: nat, stream: Seq<Seq<char>>)
    requires
        capacity >= 1,
    ensures
        summary_of(capacity, stream).items.len() <= capacity,
        summary_of(capacity, stream).counts_valid(),
        total_count(summary_of(capacity, stream).items) == stream.len(),
        total_known(summary_of(capacity, stream).items) <= stream.len(),
        summary_of(capacity, stream).items_in_buckets(),
        summary_of(capacity, stream).buckets_hold_items(),
        summary_of(capacity, stream).counts_cover_stream(),
        summary_of(capacity, stream).epsilons_cover_excess(),
{
    lemma_summary_of(capacity, stream);
    lemma_sum(summary_of(capacity, stream));
}

/// Whatever the capacity and however long the stream, a line that makes up
/// more than one part in `capacity` of the stream is tracked by the summary
/// of the stream.
pub proof fn lemma_every_heavy_hitter(capacity: nat, stream: Seq<Seq<char>>, line: Seq<char>)
    requires
        capacity >= 1,
        occurrences(stream, line) * capacity > stream.len(),
    ensures
        summary_of(capacity, stream).monitors(line),
{
    lemma_summary_of(capacity, stream);
    lemma_heavy_hitter(summary_of(capacity, stream), line);
}

/// Capacity: a summary never tracks more lines than its capacity.
pub proof fn lemma_capacity(s: Summary)
    requires
        s.inv(),
    ensures
        s.items.len() <= s.capacity,
{
}

/// Counts: every tracked line has a count of at least 1, and no epsilon
/// above its count.
pub proof fn lemma_counts(s: Summary, i: int)
    requires
        s.inv(),
        0 <= i < s.items.len(),
    ensures
        s.items[i].count >= 1,
        s.items[i].count >= s.items[i].epsilon,
{
}

/// Sum: the counts of the tracked lines add up to the number of lines
/// offered, so the sum of `count - epsilon` over them is no more than that.
pub proof fn lemma_sum(s: Summary)
    requires
        s.inv(),
    ensures
        total_count(s.items) == s.stream.len(),
        total_known(s.items) <= s.stream.len(),
{
    assert forall|i: int| 0 <= i < s.items.len() implies (#[trigger] s.items[i]).epsilon
        <= s.items[i].count by {
        assert(s.items[i].count >= 1);
    }
    lemma_total_known(s.items);
}

proof fn lemma_totals_without(items: Seq<Entry>, k: int)
    requires
        0 <= k < items.len(),
    ensures
        total_count(items) == total_count(items.remove(k)) + items[k].count,
        total_known(items) == total_known(items.remove(k)) + (items[k].count
            - items[k].epsilon) as nat,
    decreases items.len(),
{
    let rest = items.remove(k);
    if k == items.len() - 1 {
        assert(rest =~= items.drop_last());
    } else {
        lemma_totals_without(items.drop_last(), k);
        assert(rest.drop_last() =~= items.drop_last().remove(k));
        assert(rest.last() == items.last());
    }
}

/// The sums over tracked lines do not depend on the order in which the
/// lines stand.
pub proof fn lemma_totals_of_permutation(a: Seq<Entry>, b: Seq<Entry>)
    requires
        a.to_multiset() == b.to_multiset(),
    ensures
        total_count(a) == total_count(b),
        total_known(a) == total_known(b),
    decreases a.len(),
{
    vstd::seq_lib::to_multiset_len(a);
    vstd::seq_lib::to_multiset_len(b);
    if a.len() > 0 {
        let last = a.len() - 1;
        let x = a[last];
        assert(a.contains(x));
        vstd::seq_lib::to_multiset_contains(a, x);
        vstd::seq_lib::to_multiset_contains(b, x);
        let k = b.index_of(x);
        assert(b[k] == x);
        vstd::seq_lib::to_multiset_remove(a, last);
        vstd::seq_lib::to_multiset_remove(b, k);
        assert(a.remove(last) =~= a.drop_last());
        lemma_totals_of_permutation(a.drop_last(), b.remove(k));
        lemma_totals_without(b, k);
    }
}

/// Heavy hitters: a line that makes up more than one part in `capacity` of
/// the stream is tracked.
pub proof fn lemma_heavy_hitter(s: Summary, line: Seq<char>)
    requires
        s.inv(),
        occurrences(s.stream, line) * s.capacity > s.stream.len(),
    ensures
        s.monitors(line),
{
    if !s.monitors(line) {
        let seen = occurrences(s.stream, line);
        assert(seen <= s.floor());
        if s.items.len() < s.capacity {
            assert(seen * s.capacity == 0) by (nonlinear_arith)
                requires
                    seen == 0,
            ;
        } else {
            let least = least_count(s.buckets);
            assert(s.buckets.contains_key(s.items[0].count));
            lemma_least_count(s.buckets, s.items[0].count);
            assert forall|i: int| 0 <= i < s.items.len() implies (#[trigger] s.items[i]).count
                >= least by {
                assert(s.buckets.contains_key(s.items[i].count));
            }
            lemma_total_count_floor(s.items, least);
            assert(seen * s.capacity <= least * s.items.len()) by (nonlinear_arith)
                requires
                    seen <= least,
                    s.capacity == s.items.len(),
            ;
        }
    }
}

/// Error bounds: a tracked line has occurred no more often than its count
/// says, and no less often than its count less its epsilon.
pub proof fn lemma_count_bounds(s: Summary, i: int)
    requires
        s.inv(),
        0 <= i < s.items.len(),
    ensures
        s.items[i].count - s.items[i].epsilon <= occurrences(s.stream, s.items[i].line),
        occurrences(s.stream, s.items[i].line) <= s.items[i].count,
        s.items[i].count <= s.stream.len(),
{
    lemma_total_count_at_least(s.items, i);
}

/// One offer keeps the capacity, adds the line to the stream, and adds one
/// tracked line at most, never beyond the capacity.
pub proof fn lemma_offer_step(s: Summary, line: Seq<char>)
    requires
        s.inv(),
    ensures
        s.offer(line).capacity == s.capacity,
        s.offer(line).stream == s.stream.push(line),
        s.items.len() <= s.offer(line).items.len() <= s.items.len() + 1,
        s.offer(line).items.len() <= s.capacity,
        s.offer(line).monitors(line),
        s == summary_of(s.capacity, s.stream) ==> s.offer(line) == summary_of(
            s.capacity,
            s.stream.push(line),
        ),
{
    let t = s.offer(line);
    assert(s.stream.push(line).drop_last() =~= s.stream);
    if s.monitors(line) {
        assert(t.items[s.position(line)].line == line);
    } else if s.items.len() < s.capacity {
        assert(t.items[s.items.len() as int].line == line);
    } else {
        let v = lemma_victim(s);
        assert(t.items[v].line == line);
    }
}

/// Where epsilons come from: one more occurrence of a tracked line changes
/// no epsilon; a line that comes in while there is room has epsilon 0; a line
/// that replaces another has the count of that one as its epsilon, which is
/// the least count there was, and no other epsilon changes.
pub proof fn lemma_offer_epsilons(s: Summary, line: Seq<char>, i: int)
    requires
        s.inv(),
        0 <= i < s.offer(line).items.len(),
    ensures
        s.monitors(line) ==> s.offer(line).items[i].epsilon == s.items[i].epsilon && s.offer(
            line,
        ).items[i].line == s.items[i].line,
        !s.monitors(line) && s.offer(line).items[i].line != line ==> i < s.items.len() && s.offer(
            line,
        ).items[i] == s.items[i],
        !s.monitors(line) && s.offer(line).items[i].line == line && s.items.len() < s.capacity
            ==> s.offer(line).items[i] == (Entry { line, count: 1, epsilon: 0 }),
        !s.monitors(line) && s.offer(line).items[i].line == line && s.items.len() >= s.capacity
            ==> s.offer(line).items[i] == (Entry {
            line,
            count: least_count(s.buckets) + 1,
            epsilon: least_count(s.buckets),
        }),
{
    if s.monitors(line) {
        let k = s.position(line);
        assert(s.items[k].line == line);
    } else if s.items.len() >= s.capacity {
        let v = lemma_victim(s);
    }
}

proof fn lemma_total_count_at_least(items: Seq<Entry>, i: int)
    requires
        0 <= i < items.len(),
    ensures
        items[i].count <= total_count(items),
    decreases items.len(),
{
    if i < items.len() - 1 {
        lemma_total_count_at_least(items.drop_last(), i);
    }
}

/// Buckets: every tracked line is in the bucket of its count, no bucket is
/// empty, a bucket holds only lines tracked with its count, and a count has
/// a bucket exactly when some tracked line has that count.
pub proof fn lemma_buckets(s: Summary)
    requires
        s.inv(),
    ensures
        s.items_in_buckets(),
        s.buckets_hold_items(),
        forall|f: nat| #[trigger] s.buckets.contains_key(f) <==> s.has_count(f),
{
    assert forall|f: nat| #[trigger] s.buckets.contains_key(f) <==> s.has_count(f) by {
        if s.buckets.contains_key(f) {
            let i = lemma_bucket_entry(s, f, 0);
            assert(s.items[i].count == f);
        }
        if s.has_count(f) {
            let i = choose|i: int| 0 <= i < s.items.len() && (#[trigger] s.items[i]).count == f;
            assert(s.buckets.contains_key(s.items[i].count));
        }
    }
}

/// A tracked line stands in the bucket of its count and in no other, and
/// there only once.
pub proof fn lemma_line_in_one_bucket(s: Summary, i: int, f: nat, p: int)
    requires
        s.inv(),
        0 <= i < s.items.len(),
        s.buckets.contains_key(f),
        0 <= p < s.buckets[f].len(),
        s.buckets[f][p] == s.items[i].line,
    ensures
        f == s.items[i].count,
        p == s.buckets[f].index_of(s.items[i].line),
{
    let k = lemma_bucket_entry(s, f, p);
    lemma_position(s, i);
    let bucket = s.buckets[f];
    assert(bucket.no_duplicates());
    let q = bucket.index_of(s.items[i].line);
    assert(bucket[q] == bucket[p]);
}

} // verus!
