//! The commands that the bot carries out, and the decision of finishing a
//! party.
use vstd::prelude::*;

use crate::domain::party::{
    evaluate_spec, law_settlement_equalizes, lock_spec, rescale_factor, total_spent, transfers_of,
    Party, PartyError, PartyState, PartyView, Transfer,
};

verus! {

/// Start a party in a chat, with its owner as the first member.
pub struct StartPartyCommand {
    pub chat_id: i64,
    pub owner_telegram_id: i64,
    pub owner_slug: String,
}

/// Include a member in the party of a chat.
pub struct IncludeMemberCommand {
    pub chat_id: i64,
    pub member_telegram_id: i64,
    pub member_slug: String,
}

/// Record an expense of a member in the party of a chat.
pub struct AddExpenseCommand {
    pub chat_id: i64,
    pub member_telegram_id: i64,
    pub member_slug: String,
    pub amount_cents: i64,
    pub description: Option<String>,
}

/// Finish the party of a chat: lock it and work out the transfers.
pub struct FinishPartyCommand {
    pub chat_id: i64,
}

/// Finishing a collecting party always locks it, whatever its members
/// spent, and settles it: every member ends at exactly the average, that
/// is, what each spent (in the settled party's parts of a cent) times the
/// number of members is the total (in the party's parts) times the factor
/// by which the parts were refined.
pub proof fn law_finishing_a_collecting_party(p: PartyView)
    requires
        p.state == PartyState::Collecting,
    ensures
        lock_spec(p).1 is Ok,
        ({
            let q = evaluate_spec(lock_spec(p).0);
            let n = p.members.len() as int;
            let f = rescale_factor(p.members);
            &&& q.state == PartyState::Locked
            &&& q.members.len() == p.members.len()
            &&& q.unit == p.unit * f
            &&& forall|k: int|
                0 <= k < n ==> (#[trigger] q.members[k]).id == p.members[k].id
                    && q.members[k].spent() * n == total_spent(p.members) * f
        }),
{
    law_settlement_equalizes(p.members);
}

/// Finishes a party: locks it, then settles it. A party that cannot be
/// locked is left as it was and the refusal is returned.
pub fn finish_party(party: &mut Party) -> (r: Result<Vec<Transfer>, PartyError>)
    requires
        old(party)@.can_settle(),
    ensures
        final(party).wf(),
        match r {
            Err(e) => lock_spec(old(party)@).1 == Err::<(), PartyError>(e) && final(party)@ == old(
                party,
            )@,
            Ok(transfers) => {
                &&& lock_spec(old(party)@).1 is Ok
                &&& final(party)@ == evaluate_spec(lock_spec(old(party)@).0)
                &&& final(party)@.state == PartyState::Locked
                &&& transfers_of(transfers@, old(party)@.members, final(party)@.unit)
            },
        },
{
    match party.lock() {
        Err(e) => Err(e),
        Ok(()) => Ok(party.evaluate()),
    }
}

/// Why an expense is not taken.
#[derive(Clone, Copy, Debug, PartialEq, Eq, Structural)]
pub enum ExpenseRefusal {
    /// The party refuses it (it is locked or settled).
    Party(PartyError),
    /// It would take its author beyond the amount limit.
    AmountOutOfRange,
}

/// How an accepted expense is recorded.
#[derive(Clone, Copy, Debug, PartialEq, Eq, Structural)]
pub struct ExpensePlan {
    /// The author is not yet a member and is included first.
    pub include_member_first: bool,
}

/// Decides an expense of `amount_cents` by `member_slug` before it is
/// stored: refused by a locked or settled party, refused when it would take
/// the author beyond the amount limit, and otherwise taken, with the author
/// included first when not yet a member.
pub fn plan_add_expense(party: &Party, member_slug: &str, amount_cents: i64) -> (r: Result<
    ExpensePlan,
    ExpenseRefusal,
>)
    ensures
        r == match party@.state {
            PartyState::Locked => Err(ExpenseRefusal::Party(PartyError::PartyLocked)),
            PartyState::Settled => Err(ExpenseRefusal::Party(PartyError::AlreadySettled)),
            PartyState::Collecting => if !party@.expense_fits(member_slug@, amount_cents as int) {
                Err(ExpenseRefusal::AmountOutOfRange)
            } else {
                Ok(ExpensePlan { include_member_first: !party@.has_member(member_slug@) })
            },
        },
{
    match party.state() {
        PartyState::Locked => Err(ExpenseRefusal::Party(PartyError::PartyLocked)),
        PartyState::Settled => Err(ExpenseRefusal::Party(PartyError::AlreadySettled)),
        PartyState::Collecting => {
            if !party.can_record_expense(member_slug, amount_cents) {
                Err(ExpenseRefusal::AmountOutOfRange)
            } else {
                Ok(ExpensePlan { include_member_first: !party.is_member(member_slug) })
            }
        },
    }
}

} // verus!
