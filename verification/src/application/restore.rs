//! Rebuilding a party from what was stored of it: its members in the order
//! in which they joined, its expenses in the order in which they were
//! recorded, and the state it was in.
use vstd::prelude::*;

use crate::domain::party::{
    add_member_spec, amounts, lemma_member_index, limit, opt_string_view, spents, total_spent,
    ExpenseView, MemberExpense, MemberView, Party, PartyState, PartyView,
};
use crate::domain::settlement::{abs, abs_sum, lemma_sum_abs_bound, lemma_sum_update, seq_sum};

verus! {

/// The party with the given members added in order (an id given twice is
/// added once).
pub open spec fn members_replayed(ids: Seq<Seq<char>>) -> PartyView
    decreases ids.len(),
{
    if ids.len() == 0 {
        PartyView { members: Seq::empty(), state: PartyState::Collecting, unit: 1 }
    } else {
        add_member_spec(members_replayed(ids.drop_last()), ids.last()).0
    }
}

/// The party with the given expenses recorded in order, each as (position
/// of its author among `ids`, amount, description); none when an expense
/// names no member or takes its author beyond the amount limit.
pub open spec fn expenses_replayed(
    p: PartyView,
    ids: Seq<Seq<char>>,
    es: Seq<(int, int, Option<Seq<char>>)>,
) -> Option<PartyView>
    decreases es.len(),
{
    if es.len() == 0 {
        Some(p)
    } else {
        match expenses_replayed(p, ids, es.drop_last()) {
            None => None,
            Some(q) => {
                let (i, amount, description) = es.last();
                if 0 <= i < ids.len() && q.expense_fits(ids[i], amount) {
                    Some(q.record_expense(ids[i], ExpenseView { amount, description }))
                } else {
                    None
                }
            },
        }
    }
}

/// The stored party rebuilt: members first, then expenses, then the state.
pub open spec fn party_rebuilt(
    ids: Seq<Seq<char>>,
    es: Seq<(int, int, Option<Seq<char>>)>,
    state: PartyState,
) -> Option<PartyView> {
    match expenses_replayed(members_replayed(ids), ids, es) {
        None => None,
        Some(q) => Some(PartyView { state, ..q }),
    }
}

pub open spec fn ids_view(ids: Seq<String>) -> Seq<Seq<char>> {
    ids.map_values(|s: String| s@)
}

pub open spec fn expenses_view(es: Seq<(usize, i64, Option<String>)>) -> Seq<
    (int, int, Option<Seq<char>>),
> {
    es.map_values(
        |e: (usize, i64, Option<String>)| (e.0 as int, e.1 as int, opt_string_view(e.2)),
    )
}

/// The stored expenses that name the member `id`, in the order in which
/// they were recorded.
pub open spec fn stored_expenses_of(
    ids: Seq<Seq<char>>,
    es: Seq<(int, int, Option<Seq<char>>)>,
    id: Seq<char>,
) -> Seq<ExpenseView>
    decreases es.len(),
{
    if es.len() == 0 {
        Seq::empty()
    } else {
        let rest = stored_expenses_of(ids, es.drop_last(), id);
        let (i, amount, description) = es.last();
        if 0 <= i < ids.len() && ids[i] == id {
            rest.push(ExpenseView { amount, description })
        } else {
            rest
        }
    }
}

/// The amounts of the stored expenses.
pub open spec fn stored_amounts(es: Seq<(int, int, Option<Seq<char>>)>) -> Seq<int> {
    es.map_values(|e: (int, int, Option<Seq<char>>)| e.1)
}

/// Adding the members one by one gives a collecting party, counting whole
/// cents, of fresh members with distinct ids, one for each id given.
proof fn lemma_members_replayed(ids: Seq<Seq<char>>)
    ensures
        ({
            let p = members_replayed(ids);
            &&& p.ids_unique()
            &&& p.unit == 1
            &&& p.state == PartyState::Collecting
            &&& forall|i: int| 0 <= i < ids.len() ==> p.has_member(#[trigger] ids[i])
            &&& forall|k: int|
                0 <= k < p.members.len() ==> (#[trigger] p.members[k]) == MemberView::fresh(
                    p.members[k].id,
                    1,
                ) && exists|i: int| 0 <= i < ids.len() && ids[i] == p.members[k].id
        }),
    decreases ids.len(),
{
    if ids.len() > 0 {
        let prev = ids.drop_last();
        lemma_members_replayed(prev);
        let p0 = members_replayed(prev);
        let p = members_replayed(ids);
        let x = ids.last();
        let n = p0.members.len() as int;
        if !p0.has_member(x) {
            assert(p.members == p0.members.push(MemberView::fresh(x, 1)));
            assert forall|a: int, b: int| 0 <= a < b < p.members.len() implies p.members[a].id
                != p.members[b].id by {
                if b == n {
                    assert(p.members[a] == p0.members[a]);
                    if p0.members[a].id == x {
                        assert(p0.has_member(x));
                    }
                } else {
                    assert(p.members[a] == p0.members[a]);
                    assert(p.members[b] == p0.members[b]);
                }
            }
            assert(p.members[n].id == x);
        }
        assert forall|i: int| 0 <= i < ids.len() implies p.has_member(#[trigger] ids[i]) by {
            if i < ids.len() - 1 {
                assert(prev[i] == ids[i]);
                assert(p0.has_member(prev[i]));
                let k = p0.member_index(prev[i]);
                assert(p.members[k] == p0.members[k]);
            } else if !p0.has_member(x) {
                assert(p.members[n].id == x);
            }
        }
        assert forall|k: int| 0 <= k < p.members.len() implies (#[trigger] p.members[k])
            == MemberView::fresh(p.members[k].id, 1) && exists|i: int|
            0 <= i < ids.len() && ids[i] == p.members[k].id by {
            if k < n {
                assert(p.members[k] == p0.members[k]);
                let i = choose|i: int| 0 <= i < prev.len() && prev[i] == p0.members[k].id;
                assert(ids[i] == prev[i]);
            } else {
                assert(ids[ids.len() - 1] == p.members[k].id);
            }
        }
    }
}

/// Members join in the order in which their ids first occur: every
/// occurrence of a later member's id comes after an occurrence of an
/// earlier member's id.
proof fn lemma_members_replayed_order(ids: Seq<Seq<char>>)
    ensures
        ({
            let p = members_replayed(ids);
            forall|k1: int, k2: int, i2: int|
                #![trigger p.members[k1], p.members[k2], ids[i2]]
                0 <= k1 < k2 < p.members.len() && 0 <= i2 < ids.len() && ids[i2]
                    == p.members[k2].id ==> ids.take(i2).contains(p.members[k1].id)
        }),
    decreases ids.len(),
{
    if ids.len() > 0 {
        let prev = ids.drop_last();
        lemma_members_replayed(prev);
        lemma_members_replayed_order(prev);
        let p0 = members_replayed(prev);
        let p = members_replayed(ids);
        let x = ids.last();
        let n = p0.members.len() as int;
        let last = ids.len() - 1;
        if p0.has_member(x) {
            assert(p == p0);
        } else {
            assert(p.members == p0.members.push(MemberView::fresh(x, 1)));
        }
        assert forall|k1: int, k2: int, i2: int|
            #![trigger p.members[k1], p.members[k2], ids[i2]]
            0 <= k1 < k2 < p.members.len() && 0 <= i2 < ids.len() && ids[i2] == p.members[k2].id
                implies ids.take(i2).contains(p.members[k1].id) by {
            assert(p.members[k1] == p0.members[k1]);
            if k2 < n {
                assert(p.members[k2] == p0.members[k2]);
                let i2p = if i2 < last {
                    i2
                } else {
                    choose|i: int| 0 <= i < prev.len() && prev[i] == p0.members[k2].id
                };
                assert(prev[i2p] == p0.members[k2].id);
                let i1 = choose|i1: int| 0 <= i1 < i2p && prev.take(i2p)[i1] == p0.members[k1].id;
                assert(ids.take(i2)[i1] == prev.take(i2p)[i1]);
            } else {
                assert(!p0.has_member(x) && p.members[k2].id == x);
                if i2 < last {
                    assert(prev[i2] == ids[i2]);
                    assert(p0.has_member(prev[i2]));
                }
                let i1 = choose|i: int| 0 <= i < prev.len() && prev[i] == p0.members[k1].id;
                assert(ids.take(i2)[i1] == prev[i1]);
            }
        }
    } else {
        assert(members_replayed(ids).members.len() == 0);
    }
}

/// The sums of a member's amounts after one more expense.
proof fn lemma_amounts_push(s: Seq<ExpenseView>, e: ExpenseView)
    ensures
        seq_sum(amounts(s.push(e))) == seq_sum(amounts(s)) + e.amount,
        abs_sum(amounts(s.push(e))) == abs_sum(amounts(s)) + abs(e.amount),
        abs(seq_sum(amounts(s))) <= abs_sum(amounts(s)),
        abs_sum(amounts(s)) >= 0,
{
    assert(amounts(s.push(e)).drop_last() =~= amounts(s));
    lemma_sum_abs_bound(amounts(s));
}

/// A sum of zeros is zero.
proof fn lemma_sum_zeros(s: Seq<int>)
    requires
        forall|k: int| 0 <= k < s.len() ==> s[k] == 0,
    ensures
        seq_sum(s) == 0,
    decreases s.len(),
{
    if s.len() > 0 {
        lemma_sum_zeros(s.drop_last());
    }
}

/// Whether every stored expense names a member and keeps each member's
/// sum of absolute amounts within the limit.
spec fn replayable(
    p: PartyView,
    ids: Seq<Seq<char>>,
    es: Seq<(int, int, Option<Seq<char>>)>,
) -> bool {
    &&& forall|j: int| 0 <= j < es.len() ==> 0 <= (#[trigger] es[j]).0 < ids.len()
    &&& forall|k: int|
        0 <= k < p.members.len() ==> abs_sum(
            amounts(stored_expenses_of(ids, es, (#[trigger] p.members[k]).id)),
        ) <= limit()
}

/// Replaying stored expenses on fresh members succeeds exactly when every
/// expense names a member and every member's amounts stay within the
/// limit; each member then holds exactly the stored expenses naming it.
proof fn lemma_expenses_replayed(
    p: PartyView,
    ids: Seq<Seq<char>>,
    es: Seq<(int, int, Option<Seq<char>>)>,
)
    requires
        p.ids_unique(),
        p.unit == 1,
        forall|i: int| 0 <= i < ids.len() ==> p.has_member(#[trigger] ids[i]),
        forall|k: int|
            0 <= k < p.members.len() ==> (#[trigger] p.members[k]).to_transfer == 0
                && p.members[k].unit == 1 && p.members[k].expenses == Seq::<ExpenseView>::empty(),
    ensures
        (expenses_replayed(p, ids, es) is Some) <==> replayable(p, ids, es),
        expenses_replayed(p, ids, es) matches Some(q) ==> {
            &&& q.state == p.state
            &&& q.unit == 1
            &&& q.members.len() == p.members.len()
            &&& forall|k: int|
                0 <= k < p.members.len() ==> #[trigger] q.members[k] == (MemberView {
                    expenses: stored_expenses_of(ids, es, p.members[k].id),
                    ..p.members[k]
                })
            &&& total_spent(q.members) == total_spent(p.members) + seq_sum(stored_amounts(es))
        },
    decreases es.len(),
{
    if es.len() == 0 {
        let q = p;
        assert forall|k: int| 0 <= k < p.members.len() implies #[trigger] q.members[k] == (
        MemberView { expenses: stored_expenses_of(ids, es, p.members[k].id), ..p.members[k] }) by {
        }
        assert(stored_amounts(es) =~= Seq::<int>::empty());
        assert forall|k: int| 0 <= k < p.members.len() implies abs_sum(
            amounts(stored_expenses_of(ids, es, (#[trigger] p.members[k]).id)),
        ) <= limit() by {
            assert(amounts(Seq::<ExpenseView>::empty()) =~= Seq::<int>::empty());
        }
    } else {
        let es1 = es.drop_last();
        lemma_expenses_replayed(p, ids, es1);
        let (i, a, d) = es.last();
        let e = ExpenseView { amount: a, description: d };
        let valid = 0 <= i < ids.len();
        assert forall|x: Seq<char>|
            #![trigger stored_expenses_of(ids, es, x)]
            stored_expenses_of(ids, es, x) == if valid && ids[i] == x {
                stored_expenses_of(ids, es1, x).push(e)
            } else {
                stored_expenses_of(ids, es1, x)
            } by {}
        assert forall|x: Seq<char>| #![trigger stored_expenses_of(ids, es, x)]
            abs_sum(amounts(stored_expenses_of(ids, es, x))) >= abs_sum(
                amounts(stored_expenses_of(ids, es1, x)),
            ) by {
            lemma_amounts_push(stored_expenses_of(ids, es1, x), e);
        }
        assert(stored_amounts(es).drop_last() =~= stored_amounts(es1));
        if replayable(p, ids, es) {
            assert forall|j: int| 0 <= j < es1.len() implies 0 <= (#[trigger] es1[j]).0
                < ids.len() by {
                assert(es1[j] == es[j]);
            }
            assert forall|k: int| 0 <= k < p.members.len() implies abs_sum(
                amounts(stored_expenses_of(ids, es1, (#[trigger] p.members[k]).id)),
            ) <= limit() by {
                assert(abs_sum(amounts(stored_expenses_of(ids, es, p.members[k].id))) <= limit());
            }
            assert(replayable(p, ids, es1));
        }
        match expenses_replayed(p, ids, es1) {
            None => {},
            Some(q1) => {
                if !valid {
                    assert(!(0 <= es[es.len() - 1].0 < ids.len()));
                } else {
                    let x = ids[i];
                    assert(p.has_member(x));
                    let k0 = p.member_index(x);
                    assert(p.members[k0].id == x);
                    assert(q1.members[k0] == (MemberView {
                        expenses: stored_expenses_of(ids, es1, x),
                        ..p.members[k0]
                    }));
                    assert forall|a1: int, b1: int| 0 <= a1 < b1 < q1.members.len() implies
                        q1.members[a1].id != q1.members[b1].id by {
                        assert(q1.members[a1].id == p.members[a1].id);
                        assert(q1.members[b1].id == p.members[b1].id);
                    }
                    lemma_member_index(q1, x, k0);
                    let m1 = q1.members[k0];
                    let s1 = stored_expenses_of(ids, es1, x);
                    lemma_amounts_push(s1, e);
                    assert(m1.spent() == seq_sum(amounts(s1)));
                    assert(stored_expenses_of(ids, es, x) == s1.push(e));
                    if q1.expense_fits(x, a) {
                        let q = q1.record_expense(x, e);
                        assert(expenses_replayed(p, ids, es) == Some(q));
                        assert(q.members == q1.members.update(
                            k0,
                            MemberView { expenses: s1.push(e), ..m1 },
                        ));
                        assert forall|k: int| 0 <= k < p.members.len() implies #[trigger] q.members[k]
                            == (MemberView {
                            expenses: stored_expenses_of(ids, es, p.members[k].id),
                            ..p.members[k]
                        }) by {
                            if k != k0 {
                                assert(p.members[k].id != x);
                                assert(q.members[k] == q1.members[k]);
                            }
                        }
                        assert(m1.unit == 1 && m1.to_transfer == 0);
                        assert(q.members[k0].expenses == s1.push(e));
                        assert(q.members[k0].unit == 1 && q.members[k0].to_transfer == 0);
                        assert(q.members[k0].spent() == seq_sum(amounts(s1.push(e))));
                        assert(q.members[k0].spent() == m1.spent() + a);
                        assert(spents(q.members) =~= spents(q1.members).update(k0, m1.spent() + a));
                        lemma_sum_update(spents(q1.members), k0, m1.spent() + a);
                        assert forall|j: int| 0 <= j < es.len() implies 0 <= (#[trigger] es[j]).0
                            < ids.len() by {
                            if j < es1.len() {
                                assert(es1[j] == es[j]);
                            }
                        }
                        assert forall|k: int| 0 <= k < p.members.len() implies abs_sum(
                            amounts(stored_expenses_of(ids, es, (#[trigger] p.members[k]).id)),
                        ) <= limit() by {
                            if k != k0 {
                                assert(p.members[k].id != x);
                            }
                        }
                    } else {
                        assert(abs_sum(amounts(stored_expenses_of(ids, es, p.members[k0].id)))
                            > limit());
                    }
                }
            },
        }
    }
}

/// A stored party is rebuilt exactly when every stored expense names one
/// of the stored members and no member's expenses add up, in absolute
/// amounts, beyond the limit. The rebuilt party is in the stored state,
/// counts whole cents, has a member for each stored id and no other, in
/// the order in which the ids first occur, and gives each member exactly
/// the stored expenses naming it, in order, so that together the members
/// spent the sum of all stored amounts.
pub proof fn law_rebuilt_party_keeps_what_was_stored(
    ids: Seq<Seq<char>>,
    es: Seq<(int, int, Option<Seq<char>>)>,
    state: PartyState,
)
    ensures
        (party_rebuilt(ids, es, state) is Some) <==> ((forall|j: int|
            0 <= j < es.len() ==> 0 <= (#[trigger] es[j]).0 < ids.len()) && forall|i: int|
            0 <= i < ids.len() ==> abs_sum(amounts(stored_expenses_of(ids, es, #[trigger] ids[i])))
                <= limit()),
        party_rebuilt(ids, es, state) matches Some(q) ==> {
            &&& q.state == state
            &&& q.unit == 1
            &&& forall|i: int| 0 <= i < ids.len() ==> q.has_member(#[trigger] ids[i])
            &&& forall|k: int|
                0 <= k < q.members.len() ==> exists|i: int|
                    0 <= i < ids.len() && ids[i] == (#[trigger] q.members[k]).id
            &&& forall|k: int|
                0 <= k < q.members.len() ==> (#[trigger] q.members[k]).to_transfer == 0
                    && q.members[k].expenses == stored_expenses_of(ids, es, q.members[k].id)
            &&& total_spent(q.members) == seq_sum(stored_amounts(es))
            &&& forall|k1: int, k2: int, i2: int|
                #![trigger q.members[k1], q.members[k2], ids[i2]]
                0 <= k1 < k2 < q.members.len() && 0 <= i2 < ids.len() && ids[i2]
                    == q.members[k2].id ==> ids.take(i2).contains(q.members[k1].id)
        },
{
    let p = members_replayed(ids);
    lemma_members_replayed(ids);
    lemma_members_replayed_order(ids);
    assert forall|k: int| 0 <= k < p.members.len() implies (#[trigger] p.members[k]).to_transfer
        == 0 && p.members[k].unit == 1 && p.members[k].expenses == Seq::<ExpenseView>::empty() by {
        assert(p.members[k] == MemberView::fresh(p.members[k].id, 1));
    }
    lemma_expenses_replayed(p, ids, es);
    let bounded_ids = forall|i: int|
        0 <= i < ids.len() ==> abs_sum(amounts(stored_expenses_of(ids, es, #[trigger] ids[i])))
            <= limit();
    let bounded_members = forall|k: int|
        0 <= k < p.members.len() ==> abs_sum(
            amounts(stored_expenses_of(ids, es, (#[trigger] p.members[k]).id)),
        ) <= limit();
    if bounded_ids {
        assert forall|k: int| 0 <= k < p.members.len() implies abs_sum(
            amounts(stored_expenses_of(ids, es, (#[trigger] p.members[k]).id)),
        ) <= limit() by {
            let i = choose|i: int| 0 <= i < ids.len() && ids[i] == p.members[k].id;
            assert(abs_sum(amounts(stored_expenses_of(ids, es, ids[i]))) <= limit());
        }
    }
    if bounded_members {
        assert forall|i: int| 0 <= i < ids.len() implies abs_sum(
            amounts(stored_expenses_of(ids, es, #[trigger] ids[i])),
        ) <= limit() by {
            assert(p.has_member(ids[i]));
            let k = p.member_index(ids[i]);
            assert(p.members[k].id == ids[i]);
        }
    }
    assert(bounded_ids <==> bounded_members);
    match expenses_replayed(p, ids, es) {
        None => {},
        Some(q0) => {
            let q = PartyView { state, ..q0 };
            assert(party_rebuilt(ids, es, state) == Some(q));
            assert forall|k: int| 0 <= k < p.members.len() implies #[trigger] spents(p.members)[k]
                == 0 by {
                assert(p.members[k] == MemberView::fresh(p.members[k].id, 1));
                assert(amounts(Seq::<ExpenseView>::empty()) =~= Seq::<int>::empty());
            }
            lemma_sum_zeros(spents(p.members));
            assert forall|k: int| 0 <= k < q.members.len() implies (#[trigger] q.members[k]).id
                == p.members[k].id by {
                assert(q.members[k] == q0.members[k]);
            }
            assert forall|i: int| 0 <= i < ids.len() implies q.has_member(#[trigger] ids[i]) by {
                assert(p.has_member(ids[i]));
                let k = p.member_index(ids[i]);
                assert(q.members[k].id == p.members[k].id);
            }
            assert forall|k: int| 0 <= k < q.members.len() implies exists|i: int|
                0 <= i < ids.len() && ids[i] == (#[trigger] q.members[k]).id by {
                assert(q.members[k].id == p.members[k].id);
                assert(p.members[k] == MemberView::fresh(p.members[k].id, 1));
            }
            assert forall|k1: int, k2: int, i2: int|
                #![trigger q.members[k1], q.members[k2], ids[i2]]
                0 <= k1 < k2 < q.members.len() && 0 <= i2 < ids.len() && ids[i2]
                    == q.members[k2].id implies ids.take(i2).contains(q.members[k1].id) by {
                assert(q.members[k1].id == p.members[k1].id);
                assert(q.members[k2].id == p.members[k2].id);
            }
        },
    }
}

/// Adding members leaves a party collecting.
proof fn lemma_members_replayed_collecting(ids: Seq<Seq<char>>)
    ensures
        members_replayed(ids).state == PartyState::Collecting,
    decreases ids.len(),
{
    if ids.len() > 0 {
        lemma_members_replayed_collecting(ids.drop_last());
    }
}

/// Once an expense cannot be replayed, no longer list of expenses can be.
proof fn lemma_replay_stays_none(
    p: PartyView,
    ids: Seq<Seq<char>>,
    es: Seq<(int, int, Option<Seq<char>>)>,
    k: int,
)
    requires
        0 <= k <= es.len(),
        expenses_replayed(p, ids, es.take(k)) is None,
    ensures
        expenses_replayed(p, ids, es) is None,
    decreases es.len() - k,
{
    if k < es.len() {
        assert(es.take(k + 1).drop_last() =~= es.take(k));
        lemma_replay_stays_none(p, ids, es, k + 1);
    } else {
        assert(es.take(k) =~= es);
    }
}

/// Rebuilds a stored party: adds the members `ids` in order, records the
/// expenses in order (each naming its author by position in `ids`), and
/// puts the party in the stored `state`. None when an expense names no
/// member or would take its author beyond the amount limit.
pub fn rebuild_party(
    ids: &Vec<String>,
    expenses: &Vec<(usize, i64, Option<String>)>,
    state: PartyState,
) -> (r: Option<Party>)
    ensures
        match r {
            Some(p) => party_rebuilt(ids_view(ids@), expenses_view(expenses@), state) == Some(p@),
            None => party_rebuilt(ids_view(ids@), expenses_view(expenses@), state) is None,
        },
{
    let ghost iv = ids_view(ids@);
    let ghost ev = expenses_view(expenses@);
    let mut party = Party::new();
    let mut k: usize = 0;
    while k < ids.len()
        invariant
            k <= ids.len(),
            iv == ids_view(ids@),
            party@ == members_replayed(iv.take(k as int)),
        decreases ids.len() - k,
    {
        assert(iv.take(k + 1).drop_last() =~= iv.take(k as int));
        let _ = party.add_member(ids[k].as_str());
        k = k + 1;
    }
    assert(iv.take(ids.len() as int) =~= iv);
    let ghost start = party@;
    assert(ev.take(0) =~= Seq::<(int, int, Option<Seq<char>>)>::empty());
    assert(expenses_replayed(start, iv, ev.take(0)) == Some(start));
    proof {
        lemma_members_replayed_collecting(iv);
    }
    let mut j: usize = 0;
    while j < expenses.len()
        invariant
            j <= expenses.len(),
            iv == ids_view(ids@),
            ev == expenses_view(expenses@),
            start == members_replayed(iv),
            expenses_replayed(start, iv, ev.take(j as int)) == Some(party@),
            party@.state == PartyState::Collecting,
        decreases expenses.len() - j,
    {
        assert(ev.take(j + 1).drop_last() =~= ev.take(j as int));
        let author = expenses[j].0;
        let amount = expenses[j].1;
        if author >= ids.len() {
            proof {
                lemma_replay_stays_none(start, iv, ev, j + 1);
            }
            return None;
        }
        if !party.can_record_expense(ids[author].as_str(), amount) {
            proof {
                lemma_replay_stays_none(start, iv, ev, j + 1);
            }
            return None;
        }
        let description = match &expenses[j].2 {
            Some(d) => Some(d.clone()),
            None => None,
        };
        assert(opt_string_view(description) == ev[j as int].2);
        let _ = party.add_expense(ids[author].as_str(), MemberExpense::new(amount, description));
        j = j + 1;
    }
    assert(ev.take(expenses.len() as int) =~= ev);
    party.restore_state(state);
    Some(party)
}

} // verus!
