//! Properties that relate the operations of a party to one another.
use vstd::prelude::*;

use crate::domain::party::{
    add_expense_spec, add_member_spec, amounts, avg_units, balances, evaluate_spec,
    law_settlement_equalizes, lemma_member_index, limit, lock_spec, rescale_factor,
    rescaled_members, settled_members, settlement, spents, total_spent, unit_limit, ExpenseView,
    MemberView, PartyError, PartyState, PartyView,
};
use crate::domain::settlement::{
    abs, abs_sum, debtors, lemma_split, lemma_sum_update, seq_sum,
};

verus! {

/// Once a party is locked, it takes no new member and no new expense, and
/// cannot be locked again; each refusal leaves the party as it was.
pub proof fn law_locked_party_refuses_changes(p: PartyView, id: Seq<char>, e: ExpenseView)
    requires
        lock_spec(p).1 is Ok,
    ensures
        ({
            let q = lock_spec(p).0;
            &&& q.members == p.members
            &&& add_member_spec(q, id) == (q, Err::<(), PartyError>(PartyError::PartyLocked))
            &&& add_expense_spec(q, id, e) == (q, Err::<(), PartyError>(PartyError::PartyLocked))
            &&& lock_spec(q) == (q, Err::<(), PartyError>(PartyError::InvalidTransition))
        }),
{
}

/// A collecting party takes a member once: after the member was added, it
/// is in the party and adding it again is refused with
/// `MemberAlreadyExists`, leaving the party unchanged.
pub proof fn law_member_added_once(p: PartyView, id: Seq<char>)
    requires
        p.state == PartyState::Collecting,
    ensures
        ({
            let q = add_member_spec(p, id).0;
            &&& q.has_member(id)
            &&& add_member_spec(q, id) == (q, Err::<(), PartyError>(PartyError::MemberAlreadyExists))
        }),
{
    let q = add_member_spec(p, id).0;
    if p.has_member(id) {
        let k = p.member_index(id);
        assert(q.members[k].id == id);
    } else {
        assert(q.members[p.members.len() as int].id == id);
    }
}

/// Recording an expense in a collecting, well-formed party makes its
/// author a member, raises what the author spent by the amount (counted in
/// the party's parts of a cent), leaves every other member as it was, and
/// raises what the party spent together by the amount.
pub proof fn law_expense_accumulates(p: PartyView, id: Seq<char>, e: ExpenseView)
    requires
        p.wf(),
        p.state == PartyState::Collecting,
    ensures
        ({
            let q = add_expense_spec(p, id, e).0;
            let k = q.member_index(id);
            &&& add_expense_spec(p, id, e).1 is Ok
            &&& q.has_member(id)
            &&& p.has_member(id) ==> k == p.member_index(id) && q.members.len() == p.members.len()
                && q.members[k].spent() == p.members[k].spent() + p.unit * e.amount
            &&& !p.has_member(id) ==> k == p.members.len() && q.members.len() == p.members.len() + 1
                && q.members[k].spent() == p.unit * e.amount
            &&& forall|j: int|
                0 <= j < p.members.len() && j != k ==> #[trigger] q.members[j] == p.members[j]
            &&& total_spent(q.members) == total_spent(p.members) + p.unit * e.amount
        }),
{
    let q = add_expense_spec(p, id, e).0;
    if p.has_member(id) {
        let k = p.member_index(id);
        let m = p.members[k];
        assert(amounts(m.expenses.push(e)).drop_last() =~= amounts(m.expenses));
        let before = seq_sum(amounts(m.expenses));
        assert(m.unit == p.unit);
        assert(m.unit * (before + e.amount) == m.unit * before + m.unit * e.amount)
            by (nonlinear_arith);
        assert(q.members[k].spent() == m.spent() + p.unit * e.amount);
        assert(q.members[k].id == id);
        let j = q.member_index(id);
        if j != k {
            assert(p.members[j].id == q.members[j].id);
            if j < k {
                assert(p.members[j].id != p.members[k].id);
            } else {
                assert(p.members[k].id != p.members[j].id);
            }
        }
        assert(spents(q.members) =~= spents(p.members).update(k, m.spent() + p.unit * e.amount));
        lemma_sum_update(spents(p.members), k, m.spent() + p.unit * e.amount);
    } else {
        let n = p.members.len() as int;
        assert(q.members[n].id == id);
        assert(amounts(seq![e]).drop_last() =~= Seq::<int>::empty());
        assert(amounts(seq![e]).last() == e.amount);
        assert(seq_sum(Seq::<int>::empty()) == 0);
        assert(seq_sum(amounts(seq![e]).drop_last()) == 0);
        assert(seq_sum(amounts(seq![e])) == e.amount);
        assert(q.members[n].expenses == seq![e]);
        assert(q.members[n].spent() == 0 + p.unit * e.amount);
        let j = q.member_index(id);
        if j != n {
            assert(p.members[j].id == q.members[j].id);
        }
        assert(spents(q.members).drop_last() =~= spents(p.members));
    }
}

/// Settling a party a second time makes no payment and changes nothing:
/// after a settlement every member is at the average already.
pub proof fn law_settling_twice_changes_nothing(p: PartyView)
    ensures
        settlement(evaluate_spec(p).members).0.len() == 0,
        evaluate_spec(evaluate_spec(p)) == evaluate_spec(p),
{
    let ms = p.members;
    let n = ms.len() as int;
    law_settlement_equalizes(ms);
    let after = settled_members(ms);
    let a = avg_units(ms);
    if n > 0 {
        assert(total_spent(after) == n * a) by (nonlinear_arith)
            requires
                total_spent(after) == total_spent(ms) * rescale_factor(ms),
                a * n == total_spent(ms) * rescale_factor(ms),
        ;
        vstd::arithmetic::div_mod::lemma_fundamental_div_mod_converse(total_spent(after), n, a, 0);
        assert(rescale_factor(after) == 1);
        assert(avg_units(after) == a);
    } else {
        assert(after =~= ms);
    }
    let r = rescaled_members(after);
    assert forall|k: int| 0 <= k < after.len() implies #[trigger] r[k] == after[k] by {
        assert(r[k] == after[k].rescaled(1));
    }
    assert(r =~= after);
    let bal = balances(after);
    assert forall|k: int| 0 <= k < after.len() implies #[trigger] bal[k] == 0 by {
        assert(spents(r)[k] == r[k].spent());
    }
    lemma_split(bal);
    if debtors(bal).len() > 0 {
        assert(bal[debtors(bal)[0]] < 0);
    }
    assert(settled_members(after) =~= after);
}

/// The member that recording an expense leaves under `id`.
pub open spec fn recorded_member(p: PartyView, id: Seq<char>, e: ExpenseView) -> MemberView {
    if p.has_member(id) {
        let m = p.members[p.member_index(id)];
        MemberView { expenses: m.expenses.push(e), ..m }
    } else {
        MemberView { expenses: seq![e], ..MemberView::fresh(id, p.unit) }
    }
}

/// Recording an expense keeps the ids apart, puts the expense last among
/// those of its author, and leaves every other member where it was found
/// under its id.
pub proof fn lemma_record_expense(p: PartyView, id: Seq<char>, e: ExpenseView)
    requires
        p.ids_unique(),
    ensures
        ({
            let q = p.record_expense(id, e);
            &&& q.ids_unique()
            &&& q.state == p.state
            &&& q.has_member(id)
            &&& q.members[q.member_index(id)] == recorded_member(p, id, e)
            &&& q.members.len() == p.members.len() + if p.has_member(id) {
                0int
            } else {
                1int
            }
            &&& forall|x: Seq<char>|
                x != id ==> (q.has_member(x) <==> p.has_member(x)) && (p.has_member(x)
                    ==> q.members[q.member_index(x)] == p.members[p.member_index(x)])
        }),
{
    let q = p.record_expense(id, e);
    let n = p.members.len() as int;
    let k = if p.has_member(id) {
        p.member_index(id)
    } else {
        n
    };
    assert(q.members[k].id == id);
    assert forall|a: int, b: int| 0 <= a < b < q.members.len() implies q.members[a].id
        != q.members[b].id by {
        if b == n {
            if q.members[a].id == id {
                assert(p.members[a].id == id);
            }
        } else {
            assert(q.members[a].id == p.members[a].id);
            assert(q.members[b].id == p.members[b].id);
        }
    }
    lemma_member_index(q, id, k);
    assert forall|x: Seq<char>| x != id implies (q.has_member(x) <==> p.has_member(x)) && (
    p.has_member(x) ==> q.members[q.member_index(x)] == p.members[p.member_index(x)]) by {
        if p.has_member(x) {
            let j = p.member_index(x);
            assert(q.members[j] == p.members[j]);
            lemma_member_index(q, x, j);
        }
        if q.has_member(x) {
            let j = q.member_index(x);
            assert(p.members[j].id == x);
        }
    }
}

/// Expenses of two different members recorded in either order leave the
/// same members under every id (the order in which new members joined may
/// differ).
pub proof fn law_expenses_commute(
    p: PartyView,
    a: Seq<char>,
    e1: ExpenseView,
    b: Seq<char>,
    e2: ExpenseView,
)
    requires
        p.ids_unique(),
        p.state == PartyState::Collecting,
        a != b,
    ensures
        ({
            let q1 = add_expense_spec(add_expense_spec(p, a, e1).0, b, e2).0;
            let q2 = add_expense_spec(add_expense_spec(p, b, e2).0, a, e1).0;
            &&& q1.members.len() == q2.members.len()
            &&& forall|x: Seq<char>|
                #![trigger q1.has_member(x)]
                #![trigger q2.has_member(x)]
                (q1.has_member(x) <==> q2.has_member(x)) && (q1.has_member(x)
                    ==> q1.members[q1.member_index(x)] == q2.members[q2.member_index(x)])
        }),
{
    let pa = p.record_expense(a, e1);
    let pb = p.record_expense(b, e2);
    lemma_record_expense(p, a, e1);
    lemma_record_expense(p, b, e2);
    lemma_record_expense(pa, b, e2);
    lemma_record_expense(pb, a, e1);
    let q1 = pa.record_expense(b, e2);
    let q2 = pb.record_expense(a, e1);
    assert(pa.has_member(b) == p.has_member(b));
    assert(pb.has_member(a) == p.has_member(a));
    assert(recorded_member(pa, b, e2) == recorded_member(p, b, e2));
    assert(recorded_member(pb, a, e1) == recorded_member(p, a, e1));
}

/// After an expense has been recorded for `id` in a collecting party, `id`
/// is a member whose last expense is the one recorded, and adding `id` as
/// a member is refused with `MemberAlreadyExists`.
pub proof fn law_expense_then_member(p: PartyView, id: Seq<char>, e: ExpenseView)
    requires
        p.ids_unique(),
        p.state == PartyState::Collecting,
    ensures
        ({
            let q = add_expense_spec(p, id, e).0;
            &&& q.has_member(id)
            &&& q.members[q.member_index(id)].expenses.last() == e
            &&& add_member_spec(q, id) == (q, Err::<(), PartyError>(PartyError::MemberAlreadyExists))
        }),
{
    lemma_record_expense(p, id, e);
}

/// No operation gives two members the same id.
pub proof fn law_ids_stay_unique(p: PartyView, id: Seq<char>, e: ExpenseView)
    requires
        p.ids_unique(),
    ensures
        add_member_spec(p, id).0.ids_unique(),
        add_expense_spec(p, id, e).0.ids_unique(),
        lock_spec(p).0.ids_unique(),
        (PartyView { members: settled_members(p.members), ..p }).ids_unique(),
{
    lemma_record_expense(p, id, e);
    let q = add_member_spec(p, id).0;
    if p.state == PartyState::Collecting && !p.has_member(id) {
        let n = p.members.len() as int;
        assert forall|a: int, b: int| 0 <= a < b < q.members.len() implies q.members[a].id
            != q.members[b].id by {
            if b == n && q.members[a].id == id {
                assert(p.members[a].id == id);
            }
        }
    }
}

/// Locking succeeds exactly on a collecting party, whatever its members
/// spent, and changes nothing but the state; any other party refuses the
/// transition and stays as it was.
pub proof fn law_lock_succeeds_exactly_when_collecting(p: PartyView)
    ensures
        (lock_spec(p).1 is Ok) <==> p.state == PartyState::Collecting,
        p.state == PartyState::Collecting ==> lock_spec(p).0.state == PartyState::Locked
            && lock_spec(p).0.members == p.members && lock_spec(p).0.unit == p.unit,
        p.state != PartyState::Collecting ==> lock_spec(p) == (p, Err::<(), PartyError>(
            PartyError::InvalidTransition,
        )),
{
}

/// In a well-formed party an expense is within range exactly when the
/// party with the expense recorded is still well-formed: acceptance
/// depends on nothing but the bounds on the author's amounts.
pub proof fn law_expense_fits_exactly_when_in_range(p: PartyView, id: Seq<char>, e: ExpenseView)
    requires
        p.wf(),
    ensures
        p.expense_fits(id, e.amount) <==> p.record_expense(id, e).wf(),
{
    let q = p.record_expense(id, e);
    let a = e.amount;
    let u = p.unit;
    lemma_record_expense(p, id, e);
    let n = p.members.len() as int;
    let k = if p.has_member(id) {
        p.member_index(id)
    } else {
        n
    };
    assert(q.members[k].id == id);
    assert(q.members[k].unit == u);
    assert(forall|j: int| 0 <= j < n && j != k ==> #[trigger] q.members[j] == p.members[j]);
    let before_abs = if p.has_member(id) {
        abs_sum(amounts(p.members[k].expenses))
    } else {
        0
    };
    let before_spent = if p.has_member(id) {
        p.members[k].spent()
    } else {
        0
    };
    if p.has_member(id) {
        let m = p.members[k];
        assert(q.members[k].expenses == m.expenses.push(e));
        assert(amounts(m.expenses.push(e)).drop_last() =~= amounts(m.expenses));
        let before = seq_sum(amounts(m.expenses));
        assert(m.unit * (before + a) == m.unit * before + m.unit * a) by (nonlinear_arith);
        assert(q.members[k].spent() == m.spent() + u * a);
        assert(abs_sum(amounts(q.members[k].expenses)) == abs_sum(amounts(m.expenses)) + abs(a));
    } else {
        assert(q.members[k].expenses == seq![e]);
        assert(amounts(seq![e]).drop_last() =~= Seq::<int>::empty());
        assert(amounts(seq![e]).last() == a);
        assert(seq_sum(Seq::<int>::empty()) == 0);
        assert(abs_sum(Seq::<int>::empty()) == 0);
        assert(q.members[k].to_transfer == 0);
        assert(q.members[k].spent() == 0 + u * a);
        assert(abs_sum(amounts(q.members[k].expenses)) == abs(a));
        assert(abs(u * a) <= limit() * u <==> abs(a) <= limit()) by (nonlinear_arith)
            requires
                u >= 1,
        ;
    }
    assert(abs_sum(amounts(q.members[k].expenses)) == before_abs + abs(a));
    assert(q.members[k].spent() == before_spent + u * a);
    if q.wf() {
        assert(q.members[k].unit == q.unit);
    }
    if p.expense_fits(id, a) {
        assert forall|j: int| 0 <= j < q.members.len() implies (#[trigger] q.members[j]).unit
            == q.unit && abs_sum(amounts(q.members[j].expenses)) <= limit() && abs(
            q.members[j].spent(),
        ) <= limit() * q.unit by {
            if j != k {
                assert(q.members[j] == p.members[j]);
            }
        }
    }
}

/// A new member joins a collecting party last, having spent nothing, and
/// every earlier member stays where it was; the party's state and parts of
/// a cent do not change.
pub proof fn law_new_member_joins_last(p: PartyView, id: Seq<char>)
    requires
        p.state == PartyState::Collecting,
        !p.has_member(id),
    ensures
        ({
            let (q, r) = add_member_spec(p, id);
            let n = p.members.len() as int;
            &&& r is Ok
            &&& q.state == p.state
            &&& q.unit == p.unit
            &&& q.members.len() == n + 1
            &&& forall|k: int| 0 <= k < n ==> #[trigger] q.members[k] == p.members[k]
            &&& q.members[n].id == id
            &&& q.members[n].unit == p.unit
            &&& q.members[n].spent() == 0
            &&& q.members[n].expenses.len() == 0
        }),
{
    let q = add_member_spec(p, id).0;
    let n = p.members.len() as int;
    assert(amounts(q.members[n].expenses) =~= Seq::<int>::empty());
}

/// Every party that counts whole cents and has at most `UNIT_LIMIT`
/// members can be settled within machine integers.
pub proof fn law_whole_cent_parties_can_settle(p: PartyView)
    requires
        p.unit == 1,
        p.members.len() <= unit_limit(),
    ensures
        p.can_settle(),
{
}

} // verus!
