//! Ordering a circuit's RAMs from the smallest to the largest, so that the
//! balancing moves small RAMs first.
use vstd::prelude::*;
use crate::ram::RamMapping;

verus! {

/// The bits a logical RAM holds.
pub open spec fn capacity(m: RamMapping) -> nat {
    (m.logical_depth as nat) * (m.logical_width as nat)
}

/// `m` placed into `sorted` after every RAM that holds at most as many bits.
pub open spec fn insert_by_capacity(sorted: Seq<RamMapping>, m: RamMapping) -> Seq<RamMapping>
    decreases sorted.len(),
{
    if sorted.len() == 0 {
        seq![m]
    } else if capacity(sorted.last()) <= capacity(m) {
        sorted.push(m)
    } else {
        insert_by_capacity(sorted.drop_last(), m).push(sorted.last())
    }
}

/// `rams` ordered from the smallest capacity to the largest, RAMs of equal
/// capacity in the order given (a stable sort).
pub open spec fn sorted_by_capacity(rams: Seq<RamMapping>) -> Seq<RamMapping>
    decreases rams.len(),
{
    if rams.len() == 0 {
        rams
    } else {
        insert_by_capacity(sorted_by_capacity(rams.drop_last()), rams.last())
    }
}

proof fn lemma_insert_len(sorted: Seq<RamMapping>, m: RamMapping)
    ensures
        insert_by_capacity(sorted, m).len() == sorted.len() + 1,
    decreases sorted.len(),
{
    if sorted.len() > 0 && capacity(sorted.last()) > capacity(m) {
        lemma_insert_len(sorted.drop_last(), m);
    }
}

proof fn lemma_sorted_len(rams: Seq<RamMapping>)
    ensures
        sorted_by_capacity(rams).len() == rams.len(),
    decreases rams.len(),
{
    if rams.len() > 0 {
        lemma_sorted_len(rams.drop_last());
        lemma_insert_len(sorted_by_capacity(rams.drop_last()), rams.last());
    }
}

/// The capacity that a RAM is sorted by, without overflow.
fn capacity_exec(m: &RamMapping) -> (c: u64)
    ensures
        c == capacity(*m),
{
    assert((m.logical_depth as u64) * (m.logical_width as u64) <= 0xffff_ffffu64 * 0xffff_ffffu64)
        by (nonlinear_arith);
    (m.logical_depth as u64) * (m.logical_width as u64)
}

/// Sorts the mappings by the capacity of their logical RAM, smallest first,
/// keeping RAMs of equal capacity in their order.
pub fn sort_by_capacity(rams: &mut Vec<RamMapping>)
    ensures
        final(rams)@ == sorted_by_capacity(old(rams)@),
{
    let ghost orig = rams@;
    let n = rams.len();
    let mut i: usize = 0;
    while i < n
        invariant
            n == orig.len(),
            rams@.len() == n,
            i <= n,
            rams@.take(i as int) == sorted_by_capacity(orig.take(i as int)),
            rams@.skip(i as int) == orig.skip(i as int),
        decreases n - i,
    {
        let ghost prefix = rams@.take(i as int);
        let ghost m = orig[i as int];
        assert(rams@[i as int] == m) by {
            assert(rams@.skip(i as int)[0] == orig.skip(i as int)[0]);
        }
        proof {
            lemma_sorted_len(orig.take(i as int));
            assert(orig.take(i + 1).drop_last() =~= orig.take(i as int));
            assert(orig.take(i + 1).last() == m);
            assert(prefix.take(i as int) =~= prefix);
            assert(prefix.skip(i as int) =~= Seq::<RamMapping>::empty());
        }
        assert forall|k: int| 0 <= k < n - i - 1 implies #[trigger] rams@.skip(i + 1)[k] == orig.skip(
            i + 1,
        )[k] by {
            assert(rams@.skip(i as int)[k + 1] == orig.skip(i as int)[k + 1]);
        }
        assert(rams@.skip(i + 1) =~= orig.skip(i + 1));
        let key = capacity_exec(&rams[i]);
        let mut j: usize = i;
        while j > 0 && capacity_exec(&rams[j - 1]) > key
            invariant
                rams@.len() == n,
                0 <= j <= i < n,
                prefix.len() == i,
                key == capacity(m),
                rams@.take(i + 1) =~= prefix.take(j as int) + seq![m] + prefix.skip(j as int),
                rams@.skip(i + 1) == orig.skip(i + 1),
                insert_by_capacity(prefix, m) == insert_by_capacity(prefix.take(j as int), m)
                    + prefix.skip(j as int),
            decreases j,
        {
            let a = rams[j - 1];
            let b = rams[j];
            proof {
                let pj = prefix.take(j as int);
                let cur = prefix.take(j as int) + seq![m] + prefix.skip(j as int);
                assert(rams@[j - 1] == rams@.take(i + 1)[j - 1]);
                assert(rams@[j as int] == rams@.take(i + 1)[j as int]);
                assert(cur[j - 1] == prefix[j - 1]);
                assert(cur[j as int] == m);
                assert(a == prefix[j - 1]);
                assert(b == m);
                assert(pj.last() == prefix[j - 1]);
                assert(pj.drop_last() =~= prefix.take(j - 1));
                assert(prefix.skip(j - 1) =~= seq![prefix[j - 1]] + prefix.skip(j as int));
                assert(insert_by_capacity(pj, m) == insert_by_capacity(prefix.take(j - 1), m).push(
                    prefix[j - 1],
                ));
                assert(insert_by_capacity(prefix.take(j - 1), m).push(prefix[j - 1])
                    + prefix.skip(j as int) =~= insert_by_capacity(prefix.take(j - 1), m)
                    + prefix.skip(j - 1));
            }
            let ghost before = rams@;
            rams[j - 1] = b;
            rams[j] = a;
            proof {
                let target = prefix.take(j - 1) + seq![m] + prefix.skip(j - 1);
                let old_cur = prefix.take(j as int) + seq![m] + prefix.skip(j as int);
                assert forall|k: int| 0 <= k <= i implies #[trigger] rams@.take(i + 1)[k]
                    == target[k] by {
                    assert(before.take(i + 1)[k] == old_cur[k]);
                    if k < j - 1 {
                        assert(target[k] == prefix[k]);
                        assert(old_cur[k] == prefix[k]);
                    } else if k == j - 1 {
                    } else if k == j {
                        assert(target[k] == prefix[j - 1]);
                    } else {
                        assert(target[k] == prefix[k - 1]);
                        assert(old_cur[k] == prefix[k - 1]);
                    }
                }
                assert(rams@.take(i + 1) =~= target);
                assert(rams@.skip(i + 1) =~= before.skip(i + 1));
            }
            j = j - 1;
        }
        proof {
            let pj = prefix.take(j as int);
            if j > 0 {
                assert(pj.last() == prefix[j - 1]);
                let cur = prefix.take(j as int) + seq![m] + prefix.skip(j as int);
                assert(rams@[j - 1] == rams@.take(i + 1)[j - 1]);
                assert(cur[j - 1] == prefix[j - 1]);
                assert(rams@[j - 1] == prefix[j - 1]);
                assert(insert_by_capacity(pj, m) == pj.push(m));
            } else {
                assert(pj =~= Seq::<RamMapping>::empty());
                assert(insert_by_capacity(pj, m) == seq![m]);
            }
            assert(rams@.take(i + 1) =~= insert_by_capacity(prefix, m));
            assert(rams@.skip(i + 1) =~= orig.skip(i + 1));
        }
        i = i + 1;
    }
    assert(rams@.take(n as int) =~= rams@);
    assert(orig.take(n as int) =~= orig);
}

/// The RAMs of capacity `c`.
pub open spec fn with_capacity(c: nat) -> spec_fn(RamMapping) -> bool {
    |m: RamMapping| capacity(m) == c
}

proof fn lemma_insert_filter(sorted: Seq<RamMapping>, m: RamMapping, c: nat)
    ensures
        insert_by_capacity(sorted, m).filter(with_capacity(c)) == if capacity(m) == c {
            sorted.filter(with_capacity(c)).push(m)
        } else {
            sorted.filter(with_capacity(c))
        },
    decreases sorted.len(),
{
    let p = with_capacity(c);
    broadcast use Seq::lemma_filter_push;

    if sorted.len() == 0 {
        assert(seq![m] =~= sorted.push(m));
    } else if capacity(sorted.last()) <= capacity(m) {
    } else {
        let init = sorted.drop_last();
        lemma_insert_filter(init, m, c);
        assert(init.push(sorted.last()) =~= sorted);
    }
}

proof fn lemma_insert_multiset(sorted: Seq<RamMapping>, m: RamMapping)
    ensures
        insert_by_capacity(sorted, m).to_multiset() == sorted.to_multiset().insert(m),
    decreases sorted.len(),
{
    broadcast use vstd::seq_lib::to_multiset_build;

    if sorted.len() == 0 {
        assert(seq![m] =~= sorted.push(m));
    } else if capacity(sorted.last()) <= capacity(m) {
    } else {
        let init = sorted.drop_last();
        lemma_insert_multiset(init, m);
        assert(init.push(sorted.last()) =~= sorted);
        assert(init.to_multiset().insert(m).insert(sorted.last()) =~= init.to_multiset().insert(
            sorted.last(),
        ).insert(m));
    }
}

proof fn lemma_insert_ascending(sorted: Seq<RamMapping>, m: RamMapping)
    requires
        forall|i: int, j: int|
            0 <= i <= j < sorted.len() ==> capacity(sorted[i]) <= capacity(sorted[j]),
    ensures
        ({
            let r = insert_by_capacity(sorted, m);
            &&& forall|i: int, j: int| 0 <= i <= j < r.len() ==> capacity(r[i]) <= capacity(r[j])
            &&& forall|i: int|
                0 <= i < r.len() ==> capacity(#[trigger] r[i]) <= capacity(m) || (sorted.len() > 0
                    && capacity(r[i]) <= capacity(sorted.last()))
        }),
    decreases sorted.len(),
{
    lemma_insert_len(sorted, m);
    if sorted.len() == 0 {
    } else if capacity(sorted.last()) <= capacity(m) {
        let r = sorted.push(m);
        assert forall|i: int| 0 <= i < r.len() implies capacity(#[trigger] r[i]) <= capacity(m)
            || capacity(r[i]) <= capacity(sorted.last()) by {
            if i < sorted.len() {
                assert(capacity(sorted[i]) <= capacity(sorted[sorted.len() - 1]));
            }
        }
    } else {
        let init = sorted.drop_last();
        lemma_insert_ascending(init, m);
        let r0 = insert_by_capacity(init, m);
        let r = r0.push(sorted.last());
        assert forall|i: int| 0 <= i < r0.len() implies capacity(#[trigger] r0[i]) <= capacity(
            sorted.last(),
        ) by {
            if init.len() > 0 {
                assert(capacity(init.last()) <= capacity(sorted[sorted.len() - 1])) by {
                    assert(init.last() == sorted[init.len() - 1]);
                }
            }
        }
        assert forall|i: int, j: int| 0 <= i <= j < r.len() implies capacity(r[i]) <= capacity(
            r[j],
        ) by {
            if j == r.len() - 1 {
                if i < r0.len() {
                    assert(capacity(r0[i]) <= capacity(sorted.last()));
                }
            } else {
                assert(r[i] == r0[i] && r[j] == r0[j]);
            }
        }
        assert forall|i: int| 0 <= i < r.len() implies capacity(#[trigger] r[i]) <= capacity(m) || (
        sorted.len() > 0 && capacity(r[i]) <= capacity(sorted.last())) by {
            if i < r0.len() {
                assert(r[i] == r0[i]);
            }
        }
    }
}

/// Sorting by capacity orders the RAMs from the smallest to the largest,
/// keeps every RAM (as a multiset), and keeps RAMs of equal capacity in
/// the order given.
pub proof fn lemma_sorted_by_capacity(rams: Seq<RamMapping>)
    ensures
        ({
            let s = sorted_by_capacity(rams);
            &&& s.len() == rams.len()
            &&& forall|i: int, j: int| 0 <= i <= j < s.len() ==> capacity(s[i]) <= capacity(s[j])
            &&& s.to_multiset() == rams.to_multiset()
            &&& forall|c: nat| #[trigger] s.filter(with_capacity(c)) == rams.filter(with_capacity(c))
        }),
    decreases rams.len(),
{
    broadcast use vstd::seq_lib::to_multiset_build;
    broadcast use Seq::lemma_filter_push;

    lemma_sorted_len(rams);
    if rams.len() == 0 {
    } else {
        let init = rams.drop_last();
        lemma_sorted_by_capacity(init);
        let si = sorted_by_capacity(init);
        lemma_insert_ascending(si, rams.last());
        lemma_insert_multiset(si, rams.last());
        assert(init.push(rams.last()) =~= rams);
        assert forall|c: nat| #[trigger] sorted_by_capacity(rams).filter(with_capacity(c))
            == rams.filter(with_capacity(c)) by {
            lemma_insert_filter(si, rams.last(), c);
        }
    }
}

} // verus!
