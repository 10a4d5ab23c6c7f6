use splitty::application::commands::{
    finish_party, plan_add_expense, ExpensePlan, ExpenseRefusal,
};
use splitty::application::restore::rebuild_party;
use splitty::application::error::{party_or_not_found, ApplicationError};
use splitty::domain::party::{
    Cents, MemberExpense, Party, PartyError, PartyMember, PartyState, Transfer, AMOUNT_LIMIT,
};
use splitty::transport::command::split_paid_args;

fn expense(amount: i64) -> MemberExpense {
    MemberExpense::new(amount, None)
}

fn transfer(from: &str, to: &str, amount: i64) -> Transfer {
    Transfer { from_id: from.to_string(), to_id: to.to_string(), amount: Cents::whole(amount) }
}

fn transfer_parts(from: &str, to: &str, units: i128, per_cent: u64) -> Transfer {
    Transfer {
        from_id: from.to_string(),
        to_id: to.to_string(),
        amount: Cents::from_fraction(units, per_cent),
    }
}

#[test]
fn members_equalized_expenses_2() {
    let mut party = Party::new();

    party
        .add_expense(
            "alice",
            MemberExpense::new(200, None),
        )
        .unwrap();
    party
        .add_expense(
            "alice",
            MemberExpense::new(300, None),
        )
        .unwrap();
    party
        .add_expense(
            "bob",
            MemberExpense::new(300, None),
        )
        .unwrap();

    let transfers = party.evaluate();
    assert_eq!(transfers.len(), 1);
    assert_eq!(
        Transfer {
            from_id: "bob".to_string(),
            to_id: "alice".to_string(),
            amount: Cents::whole(100)
        },
        transfers[0]
    );
}

#[test]
fn members_equalized_expenses_3() {
    let mut party = Party::new();

    party
        .add_expense(
            "alice",
            MemberExpense::new(200, None),
        )
        .unwrap();
    party
        .add_expense(
            "bob",
            MemberExpense::new(300, None),
        )
        .unwrap();
    party
        .add_expense(
            "charlie",
            MemberExpense::new(400, None),
        )
        .unwrap();

    let transfers = party.evaluate();
    assert_eq!(transfers.len(), 1);
    assert_eq!(
        Transfer {
            from_id: "alice".to_string(),
            to_id: "charlie".to_string(),
            amount: Cents::whole(100)
        },
        transfers[0]
    );
}

#[test]
fn new_party_is_collecting_and_settles_to_nothing() {
    let mut party = Party::new();
    assert_eq!(party.state(), PartyState::Collecting);
    assert!(party.evaluate().is_empty());
}

#[test]
fn member_cannot_be_added_twice() {
    let mut party = Party::new();
    assert_eq!(party.add_member("alice"), Ok(()));
    assert_eq!(party.add_member("alice"), Err(PartyError::MemberAlreadyExists));
    assert_eq!(party.add_member("bob"), Ok(()));
}

#[test]
fn locked_party_refuses_changes() {
    let mut party = Party::new();
    party.add_expense("alice", expense(100)).unwrap();
    assert_eq!(party.lock(), Ok(()));
    assert_eq!(party.state(), PartyState::Locked);
    assert_eq!(party.add_member("bob"), Err(PartyError::PartyLocked));
    assert_eq!(party.add_expense("bob", expense(5)), Err(PartyError::PartyLocked));
    assert_eq!(party.lock(), Err(PartyError::InvalidTransition));
}

#[test]
fn member_without_expenses_pays_the_average() {
    let mut party = Party::new();
    party.add_member("carol").unwrap();
    party.add_expense("dave", expense(90)).unwrap();
    let transfers = party.evaluate();
    assert_eq!(transfers, vec![transfer("carol", "dave", 45)]);
}

#[test]
fn uneven_total_is_split_exactly() {
    let mut party = Party::new();
    party.add_expense("alice", expense(100)).unwrap();
    party.add_member("bob").unwrap();
    party.add_member("charlie").unwrap();
    // every member ends at 100/3 cents
    let transfers = party.evaluate();
    assert_eq!(
        transfers,
        vec![transfer_parts("bob", "alice", 100, 3), transfer_parts("charlie", "alice", 100, 3)]
    );
}

#[test]
fn even_member_takes_no_part_in_the_settlement() {
    let mut party = Party::new();
    party.add_expense("bob", expense(300)).unwrap();
    party.add_expense("alice", expense(200)).unwrap();
    party.add_expense("charlie", expense(400)).unwrap();
    let transfers = party.evaluate();
    assert_eq!(transfers, vec![transfer("alice", "charlie", 100)]);
}

#[test]
fn several_debtors_and_creditors() {
    let mut party = Party::new();
    party.add_expense("a", expense(1000)).unwrap();
    party.add_expense("b", expense(0)).unwrap();
    party.add_expense("c", expense(700)).unwrap();
    party.add_expense("d", expense(100)).unwrap();
    party.add_expense("e", expense(200)).unwrap();
    // average 400: a +600, b -400, c +300, d -300, e -200
    let transfers = party.evaluate();
    assert_eq!(
        transfers,
        vec![
            transfer("b", "a", 400),
            transfer("d", "a", 200),
            transfer("d", "c", 100),
            transfer("e", "c", 200),
        ]
    );
}

#[test]
fn negative_expenses_settle_exactly() {
    let mut party = Party::new();
    party.add_expense("alice", expense(-100)).unwrap();
    party.add_member("bob").unwrap();
    party.add_member("charlie").unwrap();
    // every member ends at -100/3 cents
    let transfers = party.evaluate();
    assert_eq!(
        transfers,
        vec![transfer_parts("alice", "bob", 100, 3), transfer_parts("alice", "charlie", 100, 3)]
    );
}

#[test]
fn settling_twice_makes_no_payment() {
    let mut party = Party::new();
    party.add_expense("alice", expense(200)).unwrap();
    party.add_expense("bob", expense(400)).unwrap();
    assert_eq!(party.evaluate(), vec![transfer("alice", "bob", 100)]);
    assert!(party.evaluate().is_empty());
}

#[test]
fn expenses_accumulate_per_member() {
    let mut party = Party::new();
    party.add_expense("alice", expense(100)).unwrap();
    party.add_expense("alice", expense(50)).unwrap();
    party.add_expense("bob", expense(50)).unwrap();
    assert_eq!(party.add_member("alice"), Err(PartyError::MemberAlreadyExists));
    assert_eq!(party.evaluate(), vec![transfer("bob", "alice", 50)]);
}

#[test]
fn expense_limits_are_reported() {
    let mut party = Party::new();
    assert!(party.can_record_expense("alice", AMOUNT_LIMIT));
    assert!(!party.can_record_expense("alice", i64::MIN));
    assert!(party.can_record_expense("alice", -AMOUNT_LIMIT));
    party.add_expense("alice", expense(AMOUNT_LIMIT - 10)).unwrap();
    assert!(party.can_record_expense("alice", 10));
    assert!(!party.can_record_expense("alice", 11));
    assert!(!party.can_record_expense("alice", -11));
    assert!(party.can_record_expense("bob", 11));
}

#[test]
fn member_spending_and_transfers() {
    let mut member = PartyMember::new("alice");
    assert_eq!(member.id(), "alice");
    assert_eq!(member.spent(), Cents::whole(0));
    member.add_to_transfer(25);
    assert_eq!(member.spent(), Cents::whole(25));
    member.add_to_transfer(-40);
    assert_eq!(member.spent(), Cents::whole(-15));
}

#[test]
fn member_expense_accessors() {
    let e = MemberExpense::new(1250, Some("pizza".to_string()));
    assert_eq!(e.expense(), 1250);
    assert_eq!(e.description(), Some("pizza"));
    assert_eq!(MemberExpense::new(1, None).description(), None);
}

#[test]
fn finishing_locks_and_settles() {
    let mut party = Party::new();
    party.add_expense("alice", expense(300)).unwrap();
    party.add_expense("bob", expense(100)).unwrap();
    let transfers = finish_party(&mut party).unwrap();
    assert_eq!(transfers, vec![transfer("bob", "alice", 100)]);
    assert_eq!(party.state(), PartyState::Locked);
    assert_eq!(finish_party(&mut party), Err(PartyError::InvalidTransition));
}

#[test]
fn error_messages() {
    assert_eq!(PartyError::InvalidTransition.message(), "invalid state transition");
    assert_eq!(PartyError::PartyLocked.message(), "party locked");
    assert_eq!(PartyError::AlreadySettled.message(), "already settled");
    assert_eq!(PartyError::MemberAlreadyExists.message(), "member already exists");
    assert_eq!(ApplicationError::NoPartyFound.message(), "no party found");
}

#[test]
fn missing_party_is_an_error() {
    assert_eq!(party_or_not_found(Some(7)), Ok(7));
    assert_eq!(party_or_not_found::<i32>(None), Err(ApplicationError::NoPartyFound));
}

#[test]
fn paid_arguments_split_at_the_first_space() {
    assert_eq!(
        split_paid_args("12.5 pizza and beer"),
        ("12.5".to_string(), Some("pizza and beer".to_string()))
    );
    assert_eq!(split_paid_args("10"), ("10".to_string(), None));
    assert_eq!(split_paid_args("10 "), ("10".to_string(), Some(String::new())));
    assert_eq!(split_paid_args(""), (String::new(), None));
    assert_eq!(split_paid_args(" x"), (String::new(), Some("x".to_string())));
}

#[test]
fn settling_an_uneven_party_twice_makes_no_payment() {
    let mut party = Party::new();
    party.add_expense("alice", expense(100)).unwrap();
    party.add_member("bob").unwrap();
    party.add_member("charlie").unwrap();
    assert_eq!(party.evaluate().len(), 2);
    assert!(party.evaluate().is_empty());
}

#[test]
fn expenses_of_two_members_commute() {
    let mut first = Party::new();
    first.add_expense("alice", expense(100)).unwrap();
    first.add_expense("bob", expense(300)).unwrap();
    let mut second = Party::new();
    second.add_expense("bob", expense(300)).unwrap();
    second.add_expense("alice", expense(100)).unwrap();
    assert_eq!(first.evaluate(), vec![transfer("alice", "bob", 100)]);
    assert_eq!(second.evaluate(), vec![transfer("alice", "bob", 100)]);
}

#[test]
fn member_recorded_by_an_expense_cannot_be_added() {
    let mut party = Party::new();
    assert!(!party.is_member("alice"));
    party.add_expense("alice", expense(10)).unwrap();
    assert!(party.is_member("alice"));
    assert_eq!(party.add_member("alice"), Err(PartyError::MemberAlreadyExists));
}

#[test]
fn stored_party_is_rebuilt() {
    let ids = vec!["alice".to_string(), "bob".to_string()];
    let expenses = vec![(0usize, 200i64, Some("pizza".to_string())), (1usize, 400i64, None)];
    let mut party = rebuild_party(&ids, &expenses, PartyState::Collecting).unwrap();
    assert_eq!(party.state(), PartyState::Collecting);
    assert!(party.is_member("alice") && party.is_member("bob"));
    assert_eq!(party.evaluate(), vec![transfer("alice", "bob", 100)]);
}

#[test]
fn stored_locked_party_stays_locked() {
    let ids = vec!["alice".to_string()];
    let mut party = rebuild_party(&ids, &vec![], PartyState::Locked).unwrap();
    assert_eq!(party.state(), PartyState::Locked);
    assert_eq!(party.add_expense("alice", expense(1)), Err(PartyError::PartyLocked));
}

#[test]
fn stored_party_with_bad_expenses_is_not_rebuilt() {
    let ids = vec!["alice".to_string()];
    assert!(rebuild_party(&ids, &vec![(1usize, 5i64, None)], PartyState::Collecting).is_none());
    let over = vec![(0usize, AMOUNT_LIMIT, None), (0usize, 1i64, None)];
    assert!(rebuild_party(&ids, &over, PartyState::Collecting).is_none());
    let duplicated = vec!["alice".to_string(), "alice".to_string()];
    assert!(rebuild_party(&duplicated, &vec![(1usize, 5i64, None)], PartyState::Collecting).is_some());
}

#[test]
fn expense_plans() {
    let mut party = Party::new();
    party.add_member("alice").unwrap();
    assert_eq!(
        plan_add_expense(&party, "alice", 10),
        Ok(ExpensePlan { include_member_first: false })
    );
    assert_eq!(
        plan_add_expense(&party, "bob", 10),
        Ok(ExpensePlan { include_member_first: true })
    );
    assert_eq!(
        plan_add_expense(&party, "bob", i64::MIN),
        Err(ExpenseRefusal::AmountOutOfRange)
    );
    party.lock().unwrap();
    assert_eq!(
        plan_add_expense(&party, "alice", 10),
        Err(ExpenseRefusal::Party(PartyError::PartyLocked))
    );
}

#[test]
fn exact_amounts_are_kept_in_lowest_terms() {
    assert_eq!(Cents::from_fraction(200, 2), Cents::whole(100));
    let c = Cents::from_fraction(-6, 4);
    assert_eq!((c.units(), c.per_cent()), (-3, 2));
    let d = Cents::from_fraction(7, 3);
    assert_eq!((d.units(), d.per_cent()), (7, 3));
    assert_eq!(Cents::from_fraction(0, 5), Cents::whole(0));
}

#[test]
fn settlement_within_machine_integers() {
    let mut party = Party::new();
    assert!(party.can_evaluate());
    party.add_expense("alice", expense(1)).unwrap();
    party.add_member("bob").unwrap();
    assert!(party.can_evaluate());
    // 1 cent between two members: each ends at half a cent
    assert_eq!(party.evaluate(), vec![transfer_parts("bob", "alice", 1, 2)]);
    assert!(party.evaluate().is_empty());
}

#[test]
fn stored_settled_party_keeps_its_state() {
    let ids = vec!["alice".to_string()];
    let mut party = rebuild_party(&ids, &vec![(0usize, 5i64, None)], PartyState::Settled).unwrap();
    assert_eq!(party.state(), PartyState::Settled);
    assert_eq!(party.add_member("bob"), Err(PartyError::AlreadySettled));
    assert_eq!(party.add_expense("alice", expense(1)), Err(PartyError::AlreadySettled));
}

#[test]
fn paid_transfers_bring_every_member_to_the_average() {
    let spent = [("a", 100i64), ("b", 0i64), ("c", 0i64), ("d", 1i64)];
    let mut party = Party::new();
    for (id, amount) in spent {
        party.add_expense(id, expense(amount)).unwrap();
    }
    let transfers = party.evaluate();
    assert_eq!(transfers.len(), 3);
    // counted in quarters of a cent, every member ends at 101
    for (id, amount) in spent {
        let mut quarters: i128 = (amount as i128) * 4;
        for t in &transfers {
            let per_cent = t.amount.per_cent() as i128;
            assert_eq!(t.amount.units() * 4 % per_cent, 0);
            let q = t.amount.units() * 4 / per_cent;
            if t.from_id == id {
                quarters += q;
            }
            if t.to_id == id {
                quarters -= q;
            }
        }
        assert_eq!(quarters, 101);
    }
}
