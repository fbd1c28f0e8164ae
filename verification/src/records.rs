//! Runs of records as mathematical sequences: order, the map a run stands
//! for, and the bytes it takes.

use vstd::prelude::*;
use crate::codec::{values_fit, MAX_VALUE_LEN};

verus! {

/// Whether the keys of `recs` rise strictly, so that no key occurs twice.
pub open spec fn ascending(recs: Seq<(u64, Seq<u8>)>) -> bool {
    forall|i: int, j: int| 0 <= i < j < recs.len() ==> recs[i].0 < recs[j].0
}

/// Whether some record of `recs` has the key `k`.
pub open spec fn holds(recs: Seq<(u64, Seq<u8>)>, k: u64) -> bool {
    exists|i: int| 0 <= i < recs.len() && (#[trigger] recs[i]).0 == k
}

/// The map that results from writing the records of `recs` one after the
/// other into `base`: of two records with one key the later one stays.
pub open spec fn pour(base: Map<u64, Seq<u8>>, recs: Seq<(u64, Seq<u8>)>) -> Map<u64, Seq<u8>>
    decreases recs.len(),
{
    if recs.len() == 0 {
        base
    } else {
        pour(base, recs.drop_last()).insert(recs.last().0, recs.last().1)
    }
}

/// The map that a run of records stands for.
pub open spec fn to_map(recs: Seq<(u64, Seq<u8>)>) -> Map<u64, Seq<u8>> {
    pour(Map::empty(), recs)
}

/// The bytes that `recs` take in a segment: for each record eight for the
/// key, four for the length and the value itself.
pub open spec fn total_size(recs: Seq<(u64, Seq<u8>)>) -> nat
    decreases recs.len(),
{
    if recs.len() == 0 {
        0
    } else {
        total_size(recs.drop_last()) + 12 + recs.last().1.len()
    }
}

/// A key is in the poured map if it was in the base or some record has it.
pub proof fn lemma_pour_contains(base: Map<u64, Seq<u8>>, recs: Seq<(u64, Seq<u8>)>, k: u64)
    ensures
        pour(base, recs).contains_key(k) <==> base.contains_key(k) || holds(recs, k),
    decreases recs.len(),
{
    if recs.len() > 0 {
        let init = recs.drop_last();
        lemma_pour_contains(base, init, k);
        if holds(init, k) {
            let i = choose|i: int| 0 <= i < init.len() && (#[trigger] init[i]).0 == k;
            assert(recs[i].0 == k);
        }
        if holds(recs, k) {
            let i = choose|i: int| 0 <= i < recs.len() && (#[trigger] recs[i]).0 == k;
            if i < init.len() {
                assert(init[i].0 == k);
            }
        }
        if recs.last().0 == k {
            assert(recs[recs.len() - 1].0 == k);
        }
    }
}

/// Pouring leaves a key that no record has as the base had it.
pub proof fn lemma_pour_other(base: Map<u64, Seq<u8>>, recs: Seq<(u64, Seq<u8>)>, k: u64)
    requires
        !holds(recs, k),
    ensures
        pour(base, recs).contains_key(k) == base.contains_key(k),
        base.contains_key(k) ==> pour(base, recs)[k] == base[k],
    decreases recs.len(),
{
    if recs.len() > 0 {
        let init = recs.drop_last();
        assert(recs[recs.len() - 1].0 != k);
        assert(!holds(init, k)) by {
            if holds(init, k) {
                let i = choose|i: int| 0 <= i < init.len() && (#[trigger] init[i]).0 == k;
                assert(recs[i].0 == k);
            }
        }
        lemma_pour_other(base, init, k);
    }
}

/// The poured map gives a key the value of the last record that has it.
pub proof fn lemma_pour_last_wins(base: Map<u64, Seq<u8>>, recs: Seq<(u64, Seq<u8>)>, i: int)
    requires
        0 <= i < recs.len(),
        forall|j: int| i < j < recs.len() ==> (#[trigger] recs[j]).0 != recs[i].0,
    ensures
        pour(base, recs).contains_key(recs[i].0),
        pour(base, recs)[recs[i].0] == recs[i].1,
    decreases recs.len(),
{
    let init = recs.drop_last();
    if i < recs.len() - 1 {
        assert(recs[recs.len() - 1].0 != recs[i].0);
        assert(init[i] == recs[i]);
        assert forall|j: int| i < j < init.len() implies (#[trigger] init[j]).0 != init[i].0 by {
            assert(init[j] == recs[j]);
        }
        lemma_pour_last_wins(base, init, i);
    }
}

/// In a rising run each key stands for the value beside it.
pub proof fn lemma_to_map_index(recs: Seq<(u64, Seq<u8>)>, i: int)
    requires
        ascending(recs),
        0 <= i < recs.len(),
    ensures
        to_map(recs).contains_key(recs[i].0),
        to_map(recs)[recs[i].0] == recs[i].1,
{
    lemma_pour_last_wins(Map::empty(), recs, i);
}

/// The keys of the map of a run are the keys of its records.
pub proof fn lemma_to_map_contains(recs: Seq<(u64, Seq<u8>)>, k: u64)
    ensures
        to_map(recs).contains_key(k) <==> holds(recs, k),
{
    lemma_pour_contains(Map::empty(), recs, k);
}

/// Two rising runs that stand for one map are one run.
pub proof fn lemma_ascending_unique(a: Seq<(u64, Seq<u8>)>, b: Seq<(u64, Seq<u8>)>)
    requires
        ascending(a),
        ascending(b),
        to_map(a) == to_map(b),
    ensures
        a == b,
    decreases a.len(),
{
    if a.len() == 0 {
        if b.len() > 0 {
            lemma_to_map_index(b, 0);
            lemma_to_map_contains(a, b[0].0);
        }
        assert(a =~= b);
    } else {
        let x = a.last();
        lemma_to_map_index(a, a.len() - 1);
        lemma_to_map_contains(b, x.0);
        let j = choose|j: int| 0 <= j < b.len() && (#[trigger] b[j]).0 == x.0;
        lemma_to_map_index(b, j);
        // The greatest key of `a` is the greatest key of `b`.
        if j < b.len() - 1 {
            let y = b.last();
            lemma_to_map_index(b, b.len() - 1);
            lemma_to_map_contains(a, y.0);
            let i = choose|i: int| 0 <= i < a.len() && (#[trigger] a[i]).0 == y.0;
            assert(a[i].0 <= x.0);
            assert(b[j].0 < y.0);
        }
        assert(j == b.len() - 1);
        assert(b.last() == x);
        lemma_ascending_init(a);
        lemma_ascending_init(b);
        let ma = to_map(a.drop_last());
        let mb = to_map(b.drop_last());
        assert forall|k: u64| #[trigger] ma.dom().contains(k) == mb.dom().contains(k) by {
            lemma_init_map(a, k);
            lemma_init_map(b, k);
        }
        assert forall|k: u64| #[trigger] ma.dom().contains(k) implies ma[k] == mb[k] by {
            lemma_init_map(a, k);
            lemma_init_map(b, k);
        }
        assert(ma =~= mb);
        lemma_ascending_unique(a.drop_last(), b.drop_last());
        assert(a =~= a.drop_last().push(x));
        assert(b =~= b.drop_last().push(x));
    }
}

/// A rising run without its last record still rises.
pub proof fn lemma_ascending_init(recs: Seq<(u64, Seq<u8>)>)
    requires
        ascending(recs),
        recs.len() > 0,
    ensures
        ascending(recs.drop_last()),
{
    let init = recs.drop_last();
    assert forall|i: int, j: int| 0 <= i < j < init.len() implies init[i].0 < init[j].0 by {
        assert(init[i] == recs[i]);
        assert(init[j] == recs[j]);
    }
}

/// The map of a rising run without its last record is the map of the run
/// without the last key.
pub proof fn lemma_init_map(recs: Seq<(u64, Seq<u8>)>, k: u64)
    requires
        ascending(recs),
        recs.len() > 0,
    ensures
        to_map(recs.drop_last()).contains_key(k) <==> to_map(recs).contains_key(k) && k
            != recs.last().0,
        to_map(recs.drop_last()).contains_key(k) ==> to_map(recs.drop_last())[k] == to_map(
            recs,
        )[k],
{
    let init = recs.drop_last();
    lemma_to_map_contains(init, k);
    if holds(init, k) {
        let i = choose|i: int| 0 <= i < init.len() && (#[trigger] init[i]).0 == k;
        assert(init[i] == recs[i]);
        assert(recs[i].0 < recs[recs.len() - 1].0);
    }
}

/// A record put into a rising run at its place adds its key to the map.
pub proof fn lemma_to_map_insert(recs: Seq<(u64, Seq<u8>)>, at: int, k: u64, v: Seq<u8>)
    requires
        0 <= at <= recs.len(),
        !holds(recs, k),
    ensures
        to_map(recs.insert(at, (k, v))) == to_map(recs).insert(k, v),
    decreases recs.len() - at,
{
    let grown = recs.insert(at, (k, v));
    if at == recs.len() {
        assert(grown.drop_last() =~= recs);
        assert(grown.last() == (k, v));
    } else {
        let init = recs.drop_last();
        let last = recs.last();
        assert(grown.drop_last() =~= init.insert(at, (k, v)));
        assert(grown.last() == last);
        assert(recs[recs.len() - 1].0 != k);
        assert(!holds(init, k)) by {
            if holds(init, k) {
                let i = choose|i: int| 0 <= i < init.len() && (#[trigger] init[i]).0 == k;
                assert(recs[i].0 == k);
            }
        }
        lemma_to_map_insert(init, at, k, v);
        assert(to_map(init).insert(k, v).insert(last.0, last.1) =~= to_map(init).insert(
            last.0,
            last.1,
        ).insert(k, v));
    }
}

/// A new value for a key of a rising run changes that key of the map.
pub proof fn lemma_to_map_update(recs: Seq<(u64, Seq<u8>)>, at: int, v: Seq<u8>)
    requires
        ascending(recs),
        0 <= at < recs.len(),
    ensures
        to_map(recs.update(at, (recs[at].0, v))) == to_map(recs).insert(recs[at].0, v),
    decreases recs.len(),
{
    let k = recs[at].0;
    let changed = recs.update(at, (k, v));
    let init = recs.drop_last();
    let last = recs.last();
    if at == recs.len() - 1 {
        assert(changed.drop_last() =~= init);
        assert(to_map(init).insert(k, recs[at].1).insert(k, v) =~= to_map(init).insert(k, v));
    } else {
        lemma_ascending_init(recs);
        assert(init[at] == recs[at]);
        lemma_to_map_update(init, at, v);
        assert(changed.drop_last() =~= init.update(at, (k, v)));
        assert(changed.last() == last);
        assert(recs[at].0 < recs[recs.len() - 1].0);
        assert(to_map(init).insert(k, v).insert(last.0, last.1) =~= to_map(init).insert(
            last.0,
            last.1,
        ).insert(k, v));
    }
}

/// A record put into a run adds its twelve bytes and its value to the size.
pub proof fn lemma_total_size_insert(recs: Seq<(u64, Seq<u8>)>, at: int, k: u64, v: Seq<u8>)
    requires
        0 <= at <= recs.len(),
    ensures
        total_size(recs.insert(at, (k, v))) == total_size(recs) + 12 + v.len(),
    decreases recs.len() - at,
{
    let grown = recs.insert(at, (k, v));
    if at == recs.len() {
        assert(grown.drop_last() =~= recs);
    } else {
        let init = recs.drop_last();
        assert(grown.drop_last() =~= init.insert(at, (k, v)));
        assert(grown.last() == recs.last());
        lemma_total_size_insert(init, at, k, v);
    }
}

/// A new value for a record changes the size by the difference of the two
/// values.
pub proof fn lemma_total_size_update(recs: Seq<(u64, Seq<u8>)>, at: int, v: Seq<u8>)
    requires
        0 <= at < recs.len(),
    ensures
        total_size(recs.update(at, (recs[at].0, v))) + recs[at].1.len() == total_size(recs)
            + v.len(),
        total_size(recs) >= 12 + recs[at].1.len(),
    decreases recs.len(),
{
    let changed = recs.update(at, (recs[at].0, v));
    let init = recs.drop_last();
    if at == recs.len() - 1 {
        assert(changed.drop_last() =~= init);
    } else {
        assert(init[at] == recs[at]);
        lemma_total_size_update(init, at, v);
        assert(changed.drop_last() =~= init.update(at, (recs[at].0, v)));
        assert(changed.last() == recs.last());
    }
}

/// A run of values that fit the length prefix takes at most 2^32 + 11 bytes
/// for each record.
pub proof fn lemma_total_size_bound(recs: Seq<(u64, Seq<u8>)>)
    requires
        values_fit(recs),
    ensures
        total_size(recs) <= recs.len() * 0x1_0000_000B,
    decreases recs.len(),
{
    if recs.len() > 0 {
        let init = recs.drop_last();
        assert forall|i: int| 0 <= i < init.len() implies (#[trigger] init[i]).1.len()
            <= MAX_VALUE_LEN by {
            assert(init[i] == recs[i]);
        }
        lemma_total_size_bound(init);
        assert(recs[recs.len() - 1].1.len() <= 0xFFFF_FFFF);
        assert(init.len() * 0x1_0000_000B + 0x1_0000_000B == recs.len() * 0x1_0000_000B)
            by (nonlinear_arith)
            requires
                init.len() + 1 == recs.len(),
        ;
    }
}

/// The rising run that stands for `m`.
pub open spec fn run_of(m: Map<u64, Seq<u8>>) -> Seq<(u64, Seq<u8>)> {
    choose|r: Seq<(u64, Seq<u8>)>| ascending(r) && to_map(r) == m
}

/// The rising run of the map of a rising run is that run.
pub proof fn lemma_run_of(recs: Seq<(u64, Seq<u8>)>)
    requires
        ascending(recs),
    ensures
        run_of(to_map(recs)) == recs,
{
    let r = run_of(to_map(recs));
    assert(ascending(recs) && to_map(recs) == to_map(recs));
    lemma_ascending_unique(r, recs);
}

/// The number of records of a rising run whose key is below `k`.
pub open spec fn rank(recs: Seq<(u64, Seq<u8>)>, k: u64) -> int
    decreases recs.len(),
{
    if recs.len() == 0 {
        0
    } else if recs.last().0 < k {
        recs.len() as int
    } else {
        rank(recs.drop_last(), k)
    }
}

/// The rising run after `v` is stored under `k`: a new value for the
/// record that has the key, or a new record at its place.
pub open spec fn put_run(recs: Seq<(u64, Seq<u8>)>, k: u64, v: Seq<u8>) -> Seq<(u64, Seq<u8>)> {
    let at = rank(recs, k);
    if at < recs.len() && recs[at].0 == k {
        recs.update(at, (k, v))
    } else {
        recs.insert(at, (k, v))
    }
}

/// The byte count after `v` is stored under `k`: an old value gives way
/// to the new one, a new key adds its twelve bytes and the value.
pub open spec fn account(size: nat, m: Map<u64, Seq<u8>>, k: u64, v: Seq<u8>) -> int {
    if m.contains_key(k) {
        size - m[k].len() + v.len()
    } else {
        (size + 12 + v.len()) as int
    }
}

/// The rank of `k` parts a rising run into the keys below `k` and the
/// others.
pub proof fn lemma_rank(recs: Seq<(u64, Seq<u8>)>, k: u64)
    requires
        ascending(recs),
    ensures
        0 <= rank(recs, k) <= recs.len(),
        forall|i: int| 0 <= i < rank(recs, k) ==> (#[trigger] recs[i]).0 < k,
        forall|i: int| rank(recs, k) <= i < recs.len() ==> (#[trigger] recs[i]).0 >= k,
    decreases recs.len(),
{
    if recs.len() == 0 {
    } else if recs.last().0 < k {
        assert forall|i: int| 0 <= i < recs.len() implies (#[trigger] recs[i]).0 < k by {
            if i < recs.len() - 1 {
                assert(recs[i].0 < recs[recs.len() - 1].0);
            }
        }
    } else {
        let init = recs.drop_last();
        lemma_ascending_init(recs);
        lemma_rank(init, k);
        assert forall|i: int| 0 <= i < rank(recs, k) implies (#[trigger] recs[i]).0 < k by {
            assert(init[i] == recs[i]);
        }
        assert forall|i: int| rank(recs, k) <= i < recs.len() implies (#[trigger] recs[i]).0
            >= k by {
            if i < recs.len() - 1 {
                assert(init[i] == recs[i]);
            }
        }
    }
}

/// Storing into a rising run gives a rising run that stands for the map
/// with the new pair, and changes the byte count as `account` says.
pub proof fn lemma_put_run(recs: Seq<(u64, Seq<u8>)>, k: u64, v: Seq<u8>)
    requires
        ascending(recs),
    ensures
        ascending(put_run(recs, k, v)),
        to_map(put_run(recs, k, v)) == to_map(recs).insert(k, v),
        total_size(put_run(recs, k, v)) == account(total_size(recs), to_map(recs), k, v),
        values_fit(recs) && v.len() <= MAX_VALUE_LEN ==> values_fit(put_run(recs, k, v)),
{
    let at = rank(recs, k);
    let after = put_run(recs, k, v);
    lemma_rank(recs, k);
    lemma_to_map_contains(recs, k);
    if at < recs.len() && recs[at].0 == k {
        lemma_to_map_index(recs, at);
        lemma_to_map_update(recs, at, v);
        lemma_total_size_update(recs, at, v);
        assert forall|i: int, j: int| 0 <= i < j < after.len() implies after[i].0
            < after[j].0 by {
            assert(recs[i].0 < recs[j].0);
        }
        if values_fit(recs) && v.len() <= MAX_VALUE_LEN {
            assert forall|i: int| 0 <= i < after.len() implies (#[trigger] after[i]).1.len()
                <= MAX_VALUE_LEN by {
                if i != at {
                    assert(after[i] == recs[i]);
                }
            }
        }
    } else {
        assert(!holds(recs, k)) by {
            if holds(recs, k) {
                let i = choose|i: int| 0 <= i < recs.len() && (#[trigger] recs[i]).0 == k;
                if i > at {
                    assert(recs[at].0 < recs[i].0);
                }
            }
        }
        lemma_to_map_insert(recs, at, k, v);
        lemma_total_size_insert(recs, at, k, v);
        assert forall|i: int, j: int| 0 <= i < j < after.len() implies after[i].0
            < after[j].0 by {
            let a = if i < at {
                i
            } else {
                i - 1
            };
            let b = if j < at {
                j
            } else {
                j - 1
            };
            if i != at && j != at {
                assert(after[i] == recs[a]);
                assert(after[j] == recs[b]);
                assert(recs[a].0 < recs[b].0);
            } else if i == at {
                assert(after[j] == recs[b]);
                assert(recs[b].0 >= k);
                assert(recs[b].0 != k);
            } else {
                assert(after[i] == recs[a]);
            }
        }
        if values_fit(recs) && v.len() <= MAX_VALUE_LEN {
            assert forall|i: int| 0 <= i < after.len() implies (#[trigger] after[i]).1.len()
                <= MAX_VALUE_LEN by {
                if i < at {
                    assert(after[i] == recs[i]);
                } else if i > at {
                    assert(after[i] == recs[i - 1]);
                }
            }
        }
    }
}

/// The byte count that a memtable reports after the inserts `ops`, made in
/// order into an empty memtable, each counted as `account` says.
pub open spec fn accounted(ops: Seq<(u64, Seq<u8>)>) -> int
    decreases ops.len(),
{
    if ops.len() == 0 {
        0
    } else {
        account(
            accounted(ops.drop_last()) as nat,
            to_map(ops.drop_last()),
            ops.last().0,
            ops.last().1,
        )
    }
}

/// Size accounting: after any inserts without a flush, the reported byte
/// count is the sum, over the keys held, of twelve and the length of the
/// value held under the key.
pub proof fn lemma_size_accounting(ops: Seq<(u64, Seq<u8>)>)
    ensures
        ascending(run_of(to_map(ops))),
        to_map(run_of(to_map(ops))) == to_map(ops),
        accounted(ops) == total_size(run_of(to_map(ops))),
    decreases ops.len(),
{
    if ops.len() == 0 {
        lemma_run_of(Seq::<(u64, Seq<u8>)>::empty());
        assert(ops =~= Seq::<(u64, Seq<u8>)>::empty());
    } else {
        let init = ops.drop_last();
        lemma_size_accounting(init);
        let run = run_of(to_map(init));
        lemma_put_run(run, ops.last().0, ops.last().1);
        lemma_run_of(put_run(run, ops.last().0, ops.last().1));
    }
}

} // verus!
