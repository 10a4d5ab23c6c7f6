//! The arithmetic model of settling a party: sums over sequences of
//! balances, the split of members into debtors and creditors, and the
//! greedy matching of debtors to creditors, with the lemmas about them.
use vstd::prelude::*;

verus! {

/// Sum of a sequence of integers.
pub open spec fn seq_sum(s: Seq<int>) -> int
    decreases s.len(),
{
    if s.len() == 0 {
        0
    } else {
        seq_sum(s.drop_last()) + s.last()
    }
}

pub open spec fn abs(x: int) -> int {
    if x < 0 {
        -x
    } else {
        x
    }
}

/// Sum of the absolute values of a sequence of integers.
pub open spec fn abs_sum(s: Seq<int>) -> int
    decreases s.len(),
{
    if s.len() == 0 {
        0
    } else {
        abs_sum(s.drop_last()) + abs(s.last())
    }
}

/// Every element of `s` moved by `c`.
pub open spec fn shift(s: Seq<int>, c: int) -> Seq<int> {
    s.map_values(|x: int| x + c)
}

/// Every element of `s` multiplied by `f`.
pub open spec fn scale(s: Seq<int>, f: int) -> Seq<int> {
    s.map_values(|x: int| f * x)
}

/// Indices of the members whose balance is negative, in order: the members
/// who owe money.
pub open spec fn debtors(bal: Seq<int>) -> Seq<int>
    decreases bal.len(),
{
    if bal.len() == 0 {
        Seq::empty()
    } else if bal.last() < 0 {
        debtors(bal.drop_last()).push(bal.len() - 1)
    } else {
        debtors(bal.drop_last())
    }
}

/// Indices of the members whose balance is positive, in order: the
/// members who are owed money.
pub open spec fn creditors(bal: Seq<int>) -> Seq<int>
    decreases bal.len(),
{
    if bal.len() == 0 {
        Seq::empty()
    } else if bal.last() > 0 {
        creditors(bal.drop_last()).push(bal.len() - 1)
    } else {
        creditors(bal.drop_last())
    }
}

/// The amount that the first waiting debtor `d` pays to the first waiting
/// creditor `c`: the smaller of what `d` owes and what `c` is owed.
pub open spec fn step_amount(bal: Seq<int>, d: int, c: int) -> int {
    let debt = abs(bal[d]);
    let credit = abs(bal[c]);
    if debt < credit {
        debt
    } else {
        credit
    }
}

/// The balances after the first waiting debtor pays the first waiting creditor.
pub open spec fn step_balances(bal: Seq<int>, ds: Seq<int>, cs: Seq<int>) -> Seq<int> {
    let d = ds[0];
    let c = cs[0];
    let amount = step_amount(bal, d, c);
    bal.update(d, bal[d] + amount).update(c, bal[c] - amount)
}

/// The debtors still waiting after one payment: the debtor leaves the
/// queue once it has paid all it owed.
pub open spec fn step_debtors(bal: Seq<int>, ds: Seq<int>, cs: Seq<int>) -> Seq<int> {
    if step_amount(bal, ds[0], cs[0]) == abs(bal[ds[0]]) {
        ds.drop_first()
    } else {
        ds
    }
}

/// The creditors still waiting after one payment: the creditor leaves the
/// queue once it has received all it was owed.
pub open spec fn step_creditors(bal: Seq<int>, ds: Seq<int>, cs: Seq<int>) -> Seq<int> {
    if step_amount(bal, ds[0], cs[0]) == abs(bal[cs[0]]) {
        cs.drop_first()
    } else {
        cs
    }
}

/// The greedy settlement: while a debtor and a creditor are waiting, the
/// first waiting debtor pays the first waiting creditor the smaller of the
/// two outstanding amounts. Returns the payments made, each as
/// (payer index, payee index, amount), and the balances at the end.
pub open spec fn settle(bal: Seq<int>, ds: Seq<int>, cs: Seq<int>) -> (Seq<(int, int, int)>, Seq<int>)
    decreases ds.len() + cs.len(),
{
    if ds.len() == 0 || cs.len() == 0 {
        (Seq::empty(), bal)
    } else {
        let rest = settle(
            step_balances(bal, ds, cs),
            step_debtors(bal, ds, cs),
            step_creditors(bal, ds, cs),
        );
        (seq![(ds[0], cs[0], step_amount(bal, ds[0], cs[0]))] + rest.0, rest.1)
    }
}

/// What member `k` paid, less what it received, over a list of payments
/// (payer index, payee index, amount).
pub open spec fn net_paid(steps: Seq<(int, int, int)>, k: int) -> int
    decreases steps.len(),
{
    if steps.len() == 0 {
        0
    } else {
        let t = steps[0];
        (if t.0 == k {
            t.2
        } else {
            0
        }) - (if t.1 == k {
            t.2
        } else {
            0
        }) + net_paid(steps.drop_first(), k)
    }
}

/// The queues of waiting debtors and creditors are consistent with the
/// balances: waiting debtors owe, waiting creditors are owed, nobody waits
/// twice, and whoever waits in neither queue is even.
pub open spec fn queues_ok(bal: Seq<int>, ds: Seq<int>, cs: Seq<int>) -> bool {
    &&& forall|a: int| 0 <= a < ds.len() ==> 0 <= #[trigger] ds[a] < bal.len() && bal[ds[a]] < 0
    &&& forall|b: int| 0 <= b < cs.len() ==> 0 <= #[trigger] cs[b] < bal.len() && bal[cs[b]] > 0
    &&& forall|a: int, a2: int| 0 <= a < a2 < ds.len() ==> ds[a] != ds[a2]
    &&& forall|b: int, b2: int| 0 <= b < b2 < cs.len() ==> cs[b] != cs[b2]
    &&& forall|k: int|
        0 <= k < bal.len() && !ds.contains(k) && !cs.contains(k) ==> #[trigger] bal[k] == 0
}

pub proof fn lemma_sum_shift(s: Seq<int>, c: int)
    ensures
        seq_sum(shift(s, c)) == seq_sum(s) + s.len() * c,
        shift(s, c).len() == s.len(),
    decreases s.len(),
{
    if s.len() > 0 {
        assert(shift(s, c).drop_last() =~= shift(s.drop_last(), c));
        lemma_sum_shift(s.drop_last(), c);
        let n = s.len() as int;
        assert((n - 1) * c + c == n * c) by (nonlinear_arith);
    }
}

pub proof fn lemma_sum_scale(s: Seq<int>, f: int)
    ensures
        seq_sum(scale(s, f)) == f * seq_sum(s),
        scale(s, f).len() == s.len(),
    decreases s.len(),
{
    if s.len() > 0 {
        assert(scale(s, f).drop_last() =~= scale(s.drop_last(), f));
        lemma_sum_scale(s.drop_last(), f);
        let a = seq_sum(s.drop_last());
        let b = s.last();
        assert(f * a + f * b == f * (a + b)) by (nonlinear_arith);
    }
}

pub proof fn lemma_sum_update(s: Seq<int>, i: int, v: int)
    requires
        0 <= i < s.len(),
    ensures
        seq_sum(s.update(i, v)) == seq_sum(s) - s[i] + v,
    decreases s.len(),
{
    if i < s.len() - 1 {
        assert(s.update(i, v).drop_last() =~= s.drop_last().update(i, v));
        lemma_sum_update(s.drop_last(), i, v);
    } else {
        assert(s.update(i, v).drop_last() =~= s.drop_last());
    }
}

pub proof fn lemma_sum_nonneg(s: Seq<int>)
    requires
        forall|k: int| 0 <= k < s.len() ==> s[k] >= 0,
    ensures
        seq_sum(s) >= 0,
    decreases s.len(),
{
    if s.len() > 0 {
        lemma_sum_nonneg(s.drop_last());
    }
}

/// Non-negative numbers that add up to at most zero are all zero.
pub proof fn lemma_nonneg_sum_zero(s: Seq<int>)
    requires
        forall|k: int| 0 <= k < s.len() ==> s[k] >= 0,
        seq_sum(s) <= 0,
    ensures
        forall|k: int| 0 <= k < s.len() ==> s[k] == 0,
    decreases s.len(),
{
    if s.len() > 0 {
        lemma_sum_nonneg(s.drop_last());
        lemma_nonneg_sum_zero(s.drop_last());
        assert forall|k: int| 0 <= k < s.len() implies s[k] == 0 by {
            if k < s.len() - 1 {
                assert(s.drop_last()[k] == s[k]);
            }
        }
    }
}

/// Non-positive numbers that add up to at least zero are all zero.
pub proof fn lemma_nonpos_sum_zero(s: Seq<int>)
    requires
        forall|k: int| 0 <= k < s.len() ==> s[k] <= 0,
        seq_sum(s) >= 0,
    ensures
        forall|k: int| 0 <= k < s.len() ==> s[k] == 0,
    decreases s.len(),
{
    if s.len() > 0 {
        lemma_nonpos_sum_zero_aux(s.drop_last());
        lemma_nonpos_sum_zero(s.drop_last());
        assert forall|k: int| 0 <= k < s.len() implies s[k] == 0 by {
            if k < s.len() - 1 {
                assert(s.drop_last()[k] == s[k]);
            }
        }
    }
}

proof fn lemma_nonpos_sum_zero_aux(s: Seq<int>)
    requires
        forall|k: int| 0 <= k < s.len() ==> s[k] <= 0,
    ensures
        seq_sum(s) <= 0,
    decreases s.len(),
{
    if s.len() > 0 {
        lemma_nonpos_sum_zero_aux(s.drop_last());
    }
}

/// The sum of a sequence is bounded by the sum of its absolute values.
pub proof fn lemma_sum_abs_bound(s: Seq<int>)
    ensures
        abs(seq_sum(s)) <= abs_sum(s),
        abs_sum(s) >= 0,
    decreases s.len(),
{
    if s.len() > 0 {
        lemma_sum_abs_bound(s.drop_last());
    }
}

/// The absolute sum of a prefix is at most that of the whole sequence.
pub proof fn lemma_abs_sum_prefix(s: Seq<int>, k: int)
    requires
        0 <= k <= s.len(),
    ensures
        abs_sum(s.take(k)) <= abs_sum(s),
    decreases s.len() - k,
{
    if k < s.len() {
        lemma_abs_sum_prefix(s, k + 1);
        assert(s.take(k + 1).drop_last() =~= s.take(k));
    } else {
        assert(s.take(k) =~= s);
    }
}

/// What the split into debtors and creditors holds.
pub proof fn lemma_split(bal: Seq<int>)
    ensures
        forall|a: int|
            0 <= a < debtors(bal).len() ==> 0 <= #[trigger] debtors(bal)[a] < bal.len()
                && bal[debtors(bal)[a]] < 0,
        forall|b: int|
            0 <= b < creditors(bal).len() ==> 0 <= #[trigger] creditors(bal)[b] < bal.len()
                && bal[creditors(bal)[b]] > 0,
        forall|a: int, a2: int|
            0 <= a < a2 < debtors(bal).len() ==> debtors(bal)[a] < debtors(bal)[a2],
        forall|b: int, b2: int|
            0 <= b < b2 < creditors(bal).len() ==> creditors(bal)[b] < creditors(bal)[b2],
        forall|k: int| 0 <= k < bal.len() && bal[k] < 0 ==> #[trigger] debtors(bal).contains(k),
        forall|k: int| 0 <= k < bal.len() && bal[k] > 0 ==> #[trigger] creditors(bal).contains(k),
    decreases bal.len(),
{
    if bal.len() > 0 {
        let prev = bal.drop_last();
        lemma_split(prev);
        let n = bal.len() - 1;
        assert forall|k: int| 0 <= k < bal.len() && bal[k] < 0 implies #[trigger] debtors(
            bal,
        ).contains(k) by {
            if k < n {
                assert(prev[k] == bal[k]);
                assert(debtors(prev).contains(k));
                let a = choose|a: int| 0 <= a < debtors(prev).len() && debtors(prev)[a] == k;
                assert(debtors(bal)[a] == k);
            } else {
                assert(debtors(bal)[debtors(bal).len() - 1] == k);
            }
        }
        assert forall|k: int| 0 <= k < bal.len() && bal[k] > 0 implies #[trigger] creditors(
            bal,
        ).contains(k) by {
            if k < n {
                assert(prev[k] == bal[k]);
                assert(creditors(prev).contains(k));
                let b = choose|b: int| 0 <= b < creditors(prev).len() && creditors(prev)[b] == k;
                assert(creditors(bal)[b] == k);
            } else {
                assert(creditors(bal)[creditors(bal).len() - 1] == k);
            }
        }
    }
}

/// The queues that the split starts from are consistent with the balances.
pub proof fn lemma_split_queues_ok(bal: Seq<int>)
    ensures
        queues_ok(bal, debtors(bal), creditors(bal)),
{
    lemma_split(bal);
    let ds = debtors(bal);
    let cs = creditors(bal);
    assert forall|k: int|
        0 <= k < bal.len() && !ds.contains(k) && !cs.contains(k) implies #[trigger] bal[k] == 0 by {
        if bal[k] < 0 {
            assert(ds.contains(k));
        } else if bal[k] > 0 {
            assert(cs.contains(k));
        }
    }
}

/// One payment keeps the queues consistent, keeps the sum of the balances,
/// and moves the two balances involved towards zero without crossing it.
pub proof fn lemma_step(bal: Seq<int>, ds: Seq<int>, cs: Seq<int>)
    requires
        queues_ok(bal, ds, cs),
        ds.len() > 0,
        cs.len() > 0,
    ensures
        ({
            let next = step_balances(bal, ds, cs);
            let d = ds[0];
            let c = cs[0];
            let amount = step_amount(bal, d, c);
            &&& d != c
            &&& 0 < amount
            &&& next.len() == bal.len()
            &&& next[d] == bal[d] + amount
            &&& next[c] == bal[c] - amount
            &&& bal[d] <= next[d] <= 0
            &&& 0 <= next[c] <= bal[c]
            &&& forall|k: int| 0 <= k < bal.len() && k != d && k != c ==> next[k] == bal[k]
            &&& seq_sum(next) == seq_sum(bal)
            &&& (next[d] == 0 <==> amount == abs(bal[d]))
            &&& (next[c] == 0 <==> amount == abs(bal[c]))
            &&& queues_ok(next, step_debtors(bal, ds, cs), step_creditors(bal, ds, cs))
            &&& forall|a: int|
                0 <= a < step_debtors(bal, ds, cs).len() ==> ds.contains(
                    #[trigger] step_debtors(bal, ds, cs)[a],
                )
            &&& forall|b: int|
                0 <= b < step_creditors(bal, ds, cs).len() ==> cs.contains(
                    #[trigger] step_creditors(bal, ds, cs)[b],
                )
        }),
{
    let next = step_balances(bal, ds, cs);
    let d = ds[0];
    let c = cs[0];
    let amount = step_amount(bal, d, c);
    assert(bal[d] < 0 && bal[c] > 0);
    let mid = bal.update(d, bal[d] + amount);
    lemma_sum_update(bal, d, bal[d] + amount);
    lemma_sum_update(mid, c, bal[c] - amount);
    let ds2 = step_debtors(bal, ds, cs);
    let cs2 = step_creditors(bal, ds, cs);
    assert forall|a: int| 0 <= a < ds2.len() implies ds.contains(#[trigger] ds2[a]) by {
        if ds2 != ds {
            assert(ds2[a] == ds[a + 1]);
        }
        assert(ds[if ds2 == ds { a } else { a + 1 }] == ds2[a]);
    }
    assert forall|b: int| 0 <= b < cs2.len() implies cs.contains(#[trigger] cs2[b]) by {
        assert(cs[if cs2 == cs { b } else { b + 1 }] == cs2[b]);
    }
    // Waiting debtors still owe.
    assert forall|a: int| 0 <= a < ds2.len() implies 0 <= #[trigger] ds2[a] < next.len()
        && next[ds2[a]] < 0 by {
        let a0 = if ds2 == ds { a } else { a + 1 };
        assert(ds[a0] == ds2[a]);
        if a0 != 0 {
            assert(ds[a0] != ds[0]);
        }
    }
    assert forall|b: int| 0 <= b < cs2.len() implies 0 <= #[trigger] cs2[b] < next.len()
        && next[cs2[b]] > 0 by {
        let b0 = if cs2 == cs { b } else { b + 1 };
        assert(cs[b0] == cs2[b]);
        if b0 != 0 {
            assert(cs[b0] != cs[0]);
        }
    }
    assert forall|a: int, a2: int| 0 <= a < a2 < ds2.len() implies ds2[a] != ds2[a2] by {
        if ds2 != ds {
            assert(ds2[a] == ds[a + 1] && ds2[a2] == ds[a2 + 1]);
        }
    }
    assert forall|b: int, b2: int| 0 <= b < b2 < cs2.len() implies cs2[b] != cs2[b2] by {
        if cs2 != cs {
            assert(cs2[b] == cs[b + 1] && cs2[b2] == cs[b2 + 1]);
        }
    }
    assert forall|k: int|
        0 <= k < next.len() && !ds2.contains(k) && !cs2.contains(k) implies #[trigger] next[k]
        == 0 by {
        if k != d && k != c {
            if ds.contains(k) {
                let a = choose|a: int| 0 <= a < ds.len() && ds[a] == k;
                assert(a != 0);
                assert(ds2[a - 1] == k);
            }
            if cs.contains(k) {
                let b = choose|b: int| 0 <= b < cs.len() && cs[b] == k;
                assert(b != 0);
                assert(cs2[b - 1] == k);
            }
        } else if k == d {
            if ds2 == ds {
                assert(ds2[0] == k);
            }
        } else {
            if cs2 == cs {
                assert(cs2[0] == k);
            }
        }
    }
}

/// What the greedy settlement achieves, starting from consistent queues
/// whose balances add up to a non-negative amount: every debtor ends even,
/// every creditor ends between even and its starting credit, the sum of the
/// balances is kept, and every payment is a non-negative amount from a
/// waiting debtor to a waiting creditor.
pub proof fn lemma_settle(bal: Seq<int>, ds: Seq<int>, cs: Seq<int>)
    requires
        queues_ok(bal, ds, cs),
        seq_sum(bal) >= 0,
    ensures
        ({
            let (steps, fin) = settle(bal, ds, cs);
            &&& fin.len() == bal.len()
            &&& seq_sum(fin) == seq_sum(bal)
            &&& forall|k: int| 0 <= k < fin.len() ==> 0 <= #[trigger] fin[k]
            &&& forall|k: int| 0 <= k < fin.len() && bal[k] <= 0 ==> #[trigger] fin[k] == 0
            &&& forall|k: int| 0 <= k < fin.len() && bal[k] > 0 ==> #[trigger] fin[k] <= bal[k]
            &&& forall|t: int|
                0 <= t < steps.len() ==> ds.contains((#[trigger] steps[t]).0) && cs.contains(
                    steps[t].1,
                ) && steps[t].2 > 0
        }),
    decreases ds.len() + cs.len(),
{
    if ds.len() == 0 {
        assert forall|k: int| 0 <= k < bal.len() implies 0 <= #[trigger] bal[k] by {
            if cs.contains(k) {
                let b = choose|b: int| 0 <= b < cs.len() && cs[b] == k;
                assert(bal[cs[b]] > 0);
            }
        }
    } else if cs.len() == 0 {
        assert forall|k: int| 0 <= k < bal.len() implies #[trigger] bal[k] <= 0 by {
            if ds.contains(k) {
                let a = choose|a: int| 0 <= a < ds.len() && ds[a] == k;
                assert(bal[ds[a]] <= 0);
            }
        }
        lemma_nonpos_sum_zero(bal);
    } else {
        lemma_step(bal, ds, cs);
        let next = step_balances(bal, ds, cs);
        let ds2 = step_debtors(bal, ds, cs);
        let cs2 = step_creditors(bal, ds, cs);
        lemma_settle(next, ds2, cs2);
        let (steps, fin) = settle(bal, ds, cs);
        let rest = settle(next, ds2, cs2);
        assert forall|k: int| 0 <= k < fin.len() && bal[k] <= 0 implies #[trigger] fin[k] == 0 by {
            assert(next[k] <= 0);
        }
        assert forall|k: int| 0 <= k < fin.len() && bal[k] > 0 implies #[trigger] fin[k]
            <= bal[k] by {
            assert(next[k] <= bal[k]);
            if next[k] <= 0 {
                assert(fin[k] == 0);
            }
        }
        assert forall|t: int| 0 <= t < steps.len() implies ds.contains((#[trigger] steps[t]).0)
            && cs.contains(steps[t].1) && steps[t].2 > 0 by {
            if t == 0 {
                assert(ds[0] == steps[t].0);
                assert(cs[0] == steps[t].1);
            } else {
                assert(steps[t] == rest.0[t - 1]);
            }
        }
    }
}

/// The payments of the greedy settlement account for every change of a
/// balance: each balance ends at its start plus what its owner paid, less
/// what its owner received.
pub proof fn lemma_settle_net(bal: Seq<int>, ds: Seq<int>, cs: Seq<int>)
    requires
        queues_ok(bal, ds, cs),
    ensures
        ({
            let (steps, fin) = settle(bal, ds, cs);
            &&& fin.len() == bal.len()
            &&& forall|k: int|
                0 <= k < bal.len() ==> #[trigger] fin[k] == bal[k] + net_paid(steps, k)
        }),
    decreases ds.len() + cs.len(),
{
    if ds.len() > 0 && cs.len() > 0 {
        lemma_step(bal, ds, cs);
        let next = step_balances(bal, ds, cs);
        let ds2 = step_debtors(bal, ds, cs);
        let cs2 = step_creditors(bal, ds, cs);
        lemma_settle_net(next, ds2, cs2);
        let (steps, fin) = settle(bal, ds, cs);
        let rest = settle(next, ds2, cs2);
        assert(steps.drop_first() =~= rest.0);
        assert forall|k: int| 0 <= k < bal.len() implies #[trigger] fin[k] == bal[k] + net_paid(
            steps,
            k,
        ) by {
            assert(fin[k] == next[k] + net_paid(rest.0, k));
        }
    }
}

/// No member is both a debtor and a creditor, so together they are at
/// most as many as the balances.
pub proof fn lemma_split_count(bal: Seq<int>)
    ensures
        debtors(bal).len() + creditors(bal).len() <= bal.len(),
    decreases bal.len(),
{
    if bal.len() > 0 {
        lemma_split_count(bal.drop_last());
    }
}

/// Every payment of the greedy settlement sends a debtor or a creditor out
/// of its queue, so it makes fewer payments than there are people waiting.
pub proof fn lemma_settle_count(bal: Seq<int>, ds: Seq<int>, cs: Seq<int>)
    requires
        queues_ok(bal, ds, cs),
    ensures
        settle(bal, ds, cs).0.len() == 0 || settle(bal, ds, cs).0.len() < ds.len() + cs.len(),
    decreases ds.len() + cs.len(),
{
    if ds.len() > 0 && cs.len() > 0 {
        lemma_step(bal, ds, cs);
        let ds2 = step_debtors(bal, ds, cs);
        let cs2 = step_creditors(bal, ds, cs);
        lemma_settle_count(step_balances(bal, ds, cs), ds2, cs2);
        assert(ds2.len() + cs2.len() < ds.len() + cs.len());
    }
}

} // verus!
