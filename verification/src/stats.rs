//! Statistics for command counting.
//!
//! The table keeps a running total and a per-command count keyed by the
//! uppercased command name, so that `get` and `GET` coalesce. Both counters
//! wrap at the 64-bit bound. The table's abstract content is a
//! `StatsModel`; every method says exactly how it changes or reads it.

use vstd::prelude::*;
use vstd::multiset::Multiset;
use vstd::utf8::is_ascii_chars;
use crate::text::ascii_upper;
use crate::text::upper_of;
use crate::text::uppercase_text;

verus! {

/// Abstract content of the statistics table.
pub struct StatsModel {
    /// How many commands were recorded.
    pub total: u64,
    /// Count per uppercased command name.
    pub counts: Map<Seq<char>, u64>,
}

/// The count a model holds for a key; zero when the key is absent.
pub open spec fn model_count(m: StatsModel, key: Seq<char>) -> u64 {
    if m.counts.dom().contains(key) {
        m.counts[key]
    } else {
        0
    }
}

/// A 64-bit increment that wraps at the bound.
pub open spec fn wrap_inc(x: u64) -> u64 {
    if x == u64::MAX {
        0
    } else {
        (x + 1) as u64
    }
}

/// One recording: the total and the key's count each go up by one.
pub open spec fn spec_record(m: StatsModel, key: Seq<char>) -> StatsModel {
    StatsModel {
        total: wrap_inc(m.total),
        counts: m.counts.insert(key, wrap_inc(model_count(m, key))),
    }
}

/// Recording a sequence of keys, in order.
pub open spec fn spec_record_all(m: StatsModel, keys: Seq<Seq<char>>) -> StatsModel
    decreases keys.len(),
{
    if keys.len() == 0 {
        m
    } else {
        spec_record_all(spec_record(m, keys[0]), keys.skip(1))
    }
}

/// Recording one more key after a sequence records it last.
pub proof fn lemma_record_all_snoc(m: StatsModel, keys: Seq<Seq<char>>, key: Seq<char>)
    ensures
        spec_record_all(m, keys.push(key)) == spec_record(spec_record_all(m, keys), key),
    decreases keys.len(),
{
    if keys.len() == 0 {
        assert(keys.push(key)[0] == key);
        assert(keys.push(key).skip(1) =~= Seq::<Seq<char>>::empty());
        assert(spec_record_all(spec_record(m, key), Seq::<Seq<char>>::empty()) == spec_record(
            m,
            key,
        ));
        assert(spec_record_all(m, Seq::<Seq<char>>::empty()) == m);
    } else {
        assert(keys.push(key)[0] == keys[0]);
        assert(keys.push(key).skip(1) =~= keys.skip(1).push(key));
        lemma_record_all_snoc(spec_record(m, keys[0]), keys.skip(1), key);
    }
}

/// The table an association list stands for.
pub open spec fn counts_of(entries: Seq<(String, u64)>) -> Map<Seq<char>, u64>
    decreases entries.len(),
{
    if entries.len() == 0 {
        Map::empty()
    } else {
        counts_of(entries.drop_last()).insert(entries.last().0@, entries.last().1)
    }
}

/// Each key of the list stands at most once.
pub open spec fn distinct_keys(entries: Seq<(String, u64)>) -> bool {
    forall|i: int, j: int|
        0 <= i < j < entries.len() ==> entries[i].0@ != entries[j].0@
}

/// A key that stands nowhere in the list is absent from its table.
proof fn lemma_counts_of_absent(entries: Seq<(String, u64)>, key: Seq<char>)
    requires
        forall|i: int| 0 <= i < entries.len() ==> entries[i].0@ != key,
    ensures
        !counts_of(entries).dom().contains(key),
    decreases entries.len(),
{
    if entries.len() > 0 {
        lemma_counts_of_absent(entries.drop_last(), key);
    }
}

/// A key that stands in the list maps to its listed count.
proof fn lemma_counts_of_found(entries: Seq<(String, u64)>, i: int)
    requires
        distinct_keys(entries),
        0 <= i < entries.len(),
    ensures
        counts_of(entries).dom().contains(entries[i].0@),
        counts_of(entries)[entries[i].0@] == entries[i].1,
    decreases entries.len(),
{
    if i == entries.len() - 1 {
    } else {
        assert(entries.drop_last()[i] == entries[i]);
        lemma_counts_of_found(entries.drop_last(), i);
    }
}

/// Replacing the count at one slot replaces it in the table.
proof fn lemma_counts_of_update(entries: Seq<(String, u64)>, i: int, e: (String, u64))
    requires
        distinct_keys(entries),
        0 <= i < entries.len(),
        e.0@ == entries[i].0@,
    ensures
        counts_of(entries.update(i, e)) == counts_of(entries).insert(entries[i].0@, e.1),
    decreases entries.len(),
{
    let upd = entries.update(i, e);
    if i == entries.len() - 1 {
        assert(upd.drop_last() =~= entries.drop_last());
        assert(upd.last() == e);
        assert(counts_of(entries.drop_last()).insert(entries[i].0@, e.1) =~= counts_of(
            entries,
        ).insert(entries[i].0@, e.1));
    } else {
        assert(upd.drop_last() =~= entries.drop_last().update(i, e));
        assert(upd.last() == entries.last());
        assert(entries.drop_last()[i] == entries[i]);
        lemma_counts_of_update(entries.drop_last(), i, e);
        assert(counts_of(entries.drop_last()).insert(entries[i].0@, e.1).insert(
            entries.last().0@,
            entries.last().1,
        ) =~= counts_of(entries.drop_last()).insert(entries.last().0@, entries.last().1).insert(
            entries[i].0@,
            e.1,
        )) by {
            assert(entries[i].0@ != entries.last().0@);
        }
    }
}

/// Removing one slot removes exactly its key from the table.
proof fn lemma_counts_of_remove(entries: Seq<(String, u64)>, i: int)
    requires
        distinct_keys(entries),
        0 <= i < entries.len(),
    ensures
        counts_of(entries) == counts_of(entries.remove(i)).insert(entries[i].0@, entries[i].1),
    decreases entries.len(),
{
    if i == entries.len() - 1 {
        assert(entries.remove(i) =~= entries.drop_last());
    } else {
        let dl = entries.drop_last();
        assert(entries.remove(i).drop_last() =~= dl.remove(i));
        assert(entries.remove(i).last() == entries.last());
        assert(dl[i] == entries[i]);
        lemma_counts_of_remove(dl, i);
        assert(counts_of(dl.remove(i)).insert(entries[i].0@, entries[i].1).insert(
            entries.last().0@,
            entries.last().1,
        ) =~= counts_of(dl.remove(i)).insert(entries.last().0@, entries.last().1).insert(
            entries[i].0@,
            entries[i].1,
        )) by {
            assert(entries[i].0@ != entries.last().0@);
        }
    }
}

/// Reordering the slots changes neither the keys' uniqueness nor the
/// table they stand for.
proof fn lemma_counts_of_permutation(a: Seq<(String, u64)>, b: Seq<(String, u64)>)
    requires
        distinct_keys(a),
        a.to_multiset() == b.to_multiset(),
    ensures
        distinct_keys(b),
        counts_of(a) == counts_of(b),
    decreases a.len(),
{
    broadcast use vstd::seq_lib::group_to_multiset_ensures;
    broadcast use vstd::multiset::group_multiset_axioms;

    vstd::seq_lib::to_multiset_len(a);
    vstd::seq_lib::to_multiset_len(b);
    assert(a.len() == b.len());
    if a.len() == 0 {
        assert(b =~= Seq::<(String, u64)>::empty());
    } else {
        assert forall|p: int, q: int| 0 <= p < q < b.len() implies #[trigger] b[p].0@
            != #[trigger] b[q].0@ by {
            assert(b.contains(b[p]) && b.contains(b[q]));
            vstd::seq_lib::to_multiset_contains(b, b[p]);
            vstd::seq_lib::to_multiset_contains(b, b[q]);
            vstd::seq_lib::to_multiset_contains(a, b[p]);
            vstd::seq_lib::to_multiset_contains(a, b[q]);
            assert(b.to_multiset().count(b[p]) > 0);
            assert(b.to_multiset().count(b[q]) > 0);
            assert(a.to_multiset().count(b[p]) > 0);
            assert(a.to_multiset().count(b[q]) > 0);
            assert(a.contains(b[p]));
            assert(a.contains(b[q]));
            let ip = choose|ip: int| 0 <= ip < a.len() && a[ip] == b[p];
            let iq = choose|iq: int| 0 <= iq < a.len() && a[iq] == b[q];
            if b[p].0@ == b[q].0@ {
                if ip != iq {
                    assert(a[ip].0@ != a[iq].0@);
                } else {
                    // The very same pair stands twice in `b`, so twice in
                    // the shared multiset, so at two slots of `a` too.
                    let x = b[p];
                    assert(b.remove(p)[q - 1] == x);
                    assert(b.remove(p).contains(x));
                    vstd::seq_lib::to_multiset_remove(b, p);
                    vstd::seq_lib::to_multiset_contains(b.remove(p), x);
                    assert(b.remove(p).to_multiset() =~= b.to_multiset().remove(x));
                    assert(b.remove(p).to_multiset().count(x) > 0);
                    assert(b.to_multiset().count(x) >= 2);
                    vstd::seq_lib::to_multiset_remove(a, ip);
                    vstd::seq_lib::to_multiset_contains(a.remove(ip), x);
                    assert(a.remove(ip).to_multiset() =~= a.to_multiset().remove(x));
                    assert(a.remove(ip).to_multiset().count(x) > 0);
                    assert(a.remove(ip).contains(x));
                    let ir = choose|ir: int| 0 <= ir < a.remove(ip).len() && a.remove(ip)[ir]
                        == x;
                    if ir < ip {
                        assert(a[ir] == x);
                        assert(a[ir].0@ != a[ip].0@);
                    } else {
                        assert(a[ir + 1] == x);
                        assert(a[ip].0@ != a[ir + 1].0@);
                    }
                }
            }
        }
        let x = a.last();
        assert(a.contains(x));
        vstd::seq_lib::to_multiset_contains(a, x);
        vstd::seq_lib::to_multiset_contains(b, x);
        assert(a.to_multiset().count(x) > 0);
        assert(b.to_multiset().count(x) > 0);
        assert(b.contains(x));
        let j = choose|j: int| 0 <= j < b.len() && b[j] == x;
        let b2 = b.remove(j);
        vstd::seq_lib::to_multiset_remove(b, j);
        assert(b2.to_multiset() =~= b.to_multiset().remove(x));
        let a2 = a.drop_last();
        assert(a =~= a2.push(x));
        vstd::seq_lib::to_multiset_build(a2, x);
        assert(a2.push(x).to_multiset() =~= a2.to_multiset().insert(x));
        assert(a2.to_multiset() =~= b2.to_multiset());
        assert(distinct_keys(a2));
        lemma_counts_of_permutation(a2, b2);
        lemma_counts_of_remove(b, j);
        assert(counts_of(a) == counts_of(a2).insert(x.0@, x.1));
    }
}

/// The slots are ordered by weakly descending count.
pub open spec fn sorted_by_count_desc(entries: Seq<(String, u64)>) -> bool {
    forall|i: int, j: int|
        0 <= i <= j < entries.len() ==> #[trigger] entries[i].1 >= #[trigger] entries[j].1
}

/// Command statistics: a running total and per-command counts keyed by
/// uppercased command name.
pub struct Stats {
    total_commands: u64,
    command_counts: Vec<(String, u64)>,
}

impl View for Stats {
    type V = StatsModel;

    closed spec fn view(&self) -> StatsModel {
        StatsModel { total: self.total_commands, counts: counts_of(self.command_counts@) }
    }
}

impl Stats {
    /// Each command name has at most one slot in the table.
    pub closed spec fn wf(self) -> bool {
        distinct_keys(self.command_counts@)
    }

    /// An empty table.
    pub fn new() -> (r: Stats)
        ensures
            r.wf(),
            r@.total == 0,
            r@.counts == Map::<Seq<char>, u64>::empty(),
    {
        Stats { total_commands: 0, command_counts: Vec::new() }
    }

    /// Record one command: the total and the count under the uppercased
    /// name each go up by one (wrapping at the 64-bit bound).
    pub fn record_command(&mut self, command: &str)
        requires
            old(self).wf(),
        ensures
            final(self).wf(),
            final(self)@ == spec_record(old(self)@, upper_of(command@)),
            is_ascii_chars(command@) ==> final(self)@ == spec_record(
                old(self)@,
                ascii_upper(command@),
            ),
    {
        let upper = uppercase_text(command);
        if self.total_commands == u64::MAX {
            self.total_commands = 0;
        } else {
            self.total_commands = self.total_commands + 1;
        }
        let n = self.command_counts.len();
        let mut i: usize = 0;
        let mut found = false;
        while i < n && !found
            invariant
                n == self.command_counts@.len(),
                i <= n,
                forall|j: int| 0 <= j < i ==> self.command_counts@[j].0@ != upper@,
                found ==> i < n && self.command_counts@[i as int].0@ == upper@,
            decreases n - i, if found { 0int } else { 1int },
        {
            if self.command_counts[i].0 == upper {
                found = true;
            } else {
                i += 1;
            }
        }
        if found {
            proof {
                lemma_counts_of_found(self.command_counts@, i as int);
            }
            let cnt = self.command_counts[i].1;
            let nc = if cnt == u64::MAX {
                0
            } else {
                cnt + 1
            };
            let ghost before = self.command_counts@;
            let slot = &mut self.command_counts[i];
            slot.1 = nc;
            proof {
                assert(self.command_counts@ =~= before.update(
                    i as int,
                    self.command_counts@[i as int],
                ));
                assert(self.command_counts@[i as int].0@ == upper@);
                lemma_counts_of_update(before, i as int, self.command_counts@[i as int]);
            }
        } else {
            proof {
                lemma_counts_of_absent(self.command_counts@, upper@);
            }
            let ghost before = self.command_counts@;
            self.command_counts.push((upper, 1));
            proof {
                assert(self.command_counts@.drop_last() =~= before);
            }
        }
    }

    /// The running total.
    pub fn total(&self) -> (r: u64)
        ensures
            r == self@.total,
    {
        self.total_commands
    }

    /// A point-in-time copy of the per-command table.
    pub fn command_counts(&self) -> (r: Vec<(String, u64)>)
        requires
            self.wf(),
        ensures
            counts_of(r@) == self@.counts,
            distinct_keys(r@),
    {
        let n = self.command_counts.len();
        let mut r: Vec<(String, u64)> = Vec::new();
        let mut i: usize = 0;
        while i < n
            invariant
                n == self.command_counts@.len(),
                i <= n,
                r@ =~= self.command_counts@.take(i as int),
            decreases n - i,
        {
            let e = &self.command_counts[i];
            let name = e.0.clone();
            let cnt = e.1;
            r.push((name, cnt));
            proof {
                assert(r@ =~= self.command_counts@.take(i + 1));
            }
            i += 1;
        }
        proof {
            assert(r@ =~= self.command_counts@);
        }
        r
    }

    /// A point-in-time copy of the per-command table, sorted by
    /// descending count, for reporting.
    pub fn sorted_command_counts(&self) -> (r: Vec<(String, u64)>)
        requires
            self.wf(),
        ensures
            counts_of(r@) == self@.counts,
            distinct_keys(r@),
            sorted_by_count_desc(r@),
    {
        let mut rem = self.command_counts();
        let ghost orig = rem@;
        let mut out: Vec<(String, u64)> = Vec::new();
        proof {
            broadcast use vstd::seq_lib::group_to_multiset_ensures;

            assert(out@.to_multiset() =~= Multiset::<(String, u64)>::empty());
            assert(out@.to_multiset().add(rem@.to_multiset()) =~= orig.to_multiset());
        }
        while rem.len() > 0
            invariant
                distinct_keys(orig),
                counts_of(orig) == self@.counts,
                out@.to_multiset().add(rem@.to_multiset()) == orig.to_multiset(),
                sorted_by_count_desc(out@),
                forall|i: int, j: int|
                    0 <= i < out@.len() && 0 <= j < rem@.len() ==> #[trigger] out@[i].1
                        >= #[trigger] rem@[j].1,
            decreases rem@.len(),
        {
            let n = rem.len();
            let mut m: usize = 0;
            let mut i: usize = 1;
            while i < n
                invariant
                    n == rem@.len(),
                    m < i <= n,
                    forall|j: int| 0 <= j < i ==> rem@[j].1 <= rem@[m as int].1,
                decreases n - i,
            {
                if rem[i].1 > rem[m].1 {
                    m = i;
                }
                i += 1;
            }
            let ghost rem_before = rem@;
            let e = rem.remove(m);
            let ghost out_before = out@;
            out.push(e);
            proof {
                broadcast use vstd::seq_lib::group_to_multiset_ensures;

                assert(rem@.to_multiset() =~= rem_before.to_multiset().remove(e));
                assert(out@.to_multiset() =~= out_before.to_multiset().insert(e));
                assert(out@.to_multiset().add(rem@.to_multiset()) =~= orig.to_multiset());
                assert forall|j: int| 0 <= j < rem@.len() implies #[trigger] rem@[j].1
                    <= e.1 by {
                    if j < m {
                        assert(rem@[j] == rem_before[j]);
                    } else {
                        assert(rem@[j] == rem_before[j + 1]);
                    }
                }
            }
        }
        proof {
            broadcast use vstd::seq_lib::group_to_multiset_ensures;

            assert(rem@ =~= Seq::<(String, u64)>::empty());
            assert(rem@.to_multiset() =~= Multiset::<(String, u64)>::empty());
            assert(out@.to_multiset() =~= orig.to_multiset());
            lemma_counts_of_permutation(orig, out@);
        }
        out
    }
}

/// Counting is idempotent under letter case: recording `get`, `GET` and
/// `Get` adds three to the one shared key `GET` and three to the total.
/// Stated away from the 64-bit wrap bound of either counter.
pub proof fn lemma_case_insensitive_counting(m: StatsModel)
    requires
        m.total + 3 <= u64::MAX,
        model_count(m, "GET"@) + 3 <= u64::MAX,
    ensures
        ({
            let m3 = spec_record(
                spec_record(spec_record(m, ascii_upper("get"@)), ascii_upper("GET"@)),
                ascii_upper("Get"@),
            );
            &&& m3.total == m.total + 3
            &&& model_count(m3, "GET"@) == model_count(m, "GET"@) + 3
        }),
{
    reveal_strlit("get");
    reveal_strlit("GET");
    reveal_strlit("Get");
    assert(ascii_upper("get"@) =~= "GET"@);
    assert(ascii_upper("GET"@) =~= "GET"@);
    assert(ascii_upper("Get"@) =~= "GET"@);
}

} // verus!
