# splitty

A Telegram bot that splits the expenses of a party between its members.

- `src/` is the verified library:
  - `domain/party.rs`: parties, members, expenses and transfers, with the
    view of each type that the contracts speak of, and the operations
    (adding members and expenses, locking, settling).
  - `domain/settlement.rs`: the arithmetic model of a settlement (sums,
    balances, the split into debtors and creditors, the greedy matching)
    and its lemmas.
  - `domain/laws.rs`: properties that relate the operations to one another.
  - `application/`: the commands of the bot, the decision on an expense,
    finishing a party, rebuilding a stored party, and the error of a chat
    without a party.
  - `transport/command.rs`: the commands of the bot and how the argument
    of `/paid` is read.
- `app/` is the program around it: Telegram, Postgres, and the conversion
  of typed decimal amounts to cents.
- `tests/` runs the library on concrete parties.

Expenses are whole cents; settling is exact. Members count what they spent
in parts of a cent (`Cents` is an exact fraction of a cent in lowest
terms): when the total does not divide by the number of members, the party
counts a cent in as many parts as it has members, so that after the
transfers every member has spent exactly the total divided by the number of
members. Members who spent exactly the average take part in no transfer.
Every party keeps its members' ids apart, each member's expenses within
`AMOUNT_LIMIT` cents and the parts of a cent within `UNIT_LIMIT` (a type
invariant), so that all its sums fit in machine integers; `can_evaluate`
says whether a party can still be settled within them.
