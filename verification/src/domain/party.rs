//! A party: its members, what each of them paid, the state it is in, and
//! the transfers that even out what the members spent.
use vstd::prelude::*;

use vstd::arithmetic::div_mod::{
    lemma_fundamental_div_mod, lemma_mod_bound, lemma_mod_multiples_basic, lemma_mod_pos_bound,
    lemma_small_mod,
};

use crate::domain::settlement::{
    abs, abs_sum, creditors, debtors, lemma_abs_sum_prefix, lemma_nonneg_sum_zero, lemma_settle,
    lemma_settle_count, lemma_settle_net, lemma_split, lemma_split_count, lemma_split_queues_ok,
    lemma_step, lemma_sum_abs_bound, lemma_sum_scale, lemma_sum_shift, net_paid, queues_ok, scale,
    seq_sum, settle, shift, step_amount, step_balances, step_creditors, step_debtors,
};

verus! {

/// The largest magnitude, in cents, that the sum of a member's expenses and
/// what a member has spent may reach: `i64::MAX`, the range of an expense.
pub const AMOUNT_LIMIT: i64 = 9_223_372_036_854_775_807;

/// The largest number of parts a cent may be counted in (see
/// `MemberView::unit`): `2^62`, so that every sum the party computes in
/// parts of a cent fits in an `i128`.
pub const UNIT_LIMIT: u64 = 4_611_686_018_427_387_904;

pub open spec fn unit_limit() -> int {
    UNIT_LIMIT as int
}

/// The states of a party.
///
/// - Collecting: members add expenses.
/// - Locked: the host has locked the party; no more expenses are taken.
/// - Settled: the payments have been confirmed.
#[derive(Clone, Copy, Debug, PartialEq, Eq, Structural)]
pub enum PartyState {
    Collecting,
    Locked,
    Settled,
}

/// Why a change to a party was refused.
#[derive(Clone, Copy, Debug, PartialEq, Eq, Structural)]
pub enum PartyError {
    /// The party cannot move to the requested state.
    InvalidTransition,
    /// The party is locked.
    PartyLocked,
    /// The party is already settled.
    AlreadySettled,
    /// A member with this id is already in the party.
    MemberAlreadyExists,
}

impl PartyError {
    /// The human-readable message of the error.
    pub fn message(&self) -> (m: &'static str)
        ensures
            m@ == match self {
                PartyError::InvalidTransition => "invalid state transition"@,
                PartyError::PartyLocked => "party locked"@,
                PartyError::AlreadySettled => "already settled"@,
                PartyError::MemberAlreadyExists => "member already exists"@,
            },
    {
        match self {
            PartyError::InvalidTransition => "invalid state transition",
            PartyError::PartyLocked => "party locked",
            PartyError::AlreadySettled => "already settled",
            PartyError::MemberAlreadyExists => "member already exists",
        }
    }
}

/// An expense as the contracts see it: its amount in cents and its
/// optional description.
pub struct ExpenseView {
    pub amount: int,
    pub description: Option<Seq<char>>,
}

/// A member as the contracts see it.
pub struct MemberView {
    pub id: Seq<char>,
    /// How many parts a cent is counted in for this member: its transfers
    /// are counted in `1 / unit` of a cent, so that a settlement can bring
    /// every member to an average that is not a whole number of cents.
    pub unit: int,
    /// What the member has paid or received in transfers, in `1 / unit` of
    /// a cent: paying raises it, receiving lowers it.
    pub to_transfer: int,
    pub expenses: Seq<ExpenseView>,
}

/// A party as the contracts see it: its members in the order in which
/// they joined, its state, and the parts in which its members count a cent.
pub struct PartyView {
    pub members: Seq<MemberView>,
    pub state: PartyState,
    pub unit: int,
}

pub open spec fn limit() -> int {
    AMOUNT_LIMIT as int
}

pub open spec fn opt_string_view(o: Option<String>) -> Option<Seq<char>> {
    match o {
        Some(s) => Some(s@),
        None => None,
    }
}

/// The amounts of a list of expenses.
pub open spec fn amounts(es: Seq<ExpenseView>) -> Seq<int> {
    es.map_values(|e: ExpenseView| e.amount)
}

impl MemberView {
    pub open spec fn fresh(id: Seq<char>, unit: int) -> MemberView {
        MemberView { id, unit, to_transfer: 0, expenses: Seq::empty() }
    }

    /// What the member spent, in `1 / unit` of a cent: its expenses plus
    /// what it transferred.
    pub open spec fn spent(self) -> int {
        self.to_transfer + self.unit * seq_sum(amounts(self.expenses))
    }

    /// The member's amounts are within the range in which its arithmetic
    /// is carried out.
    pub open spec fn bounded(self) -> bool {
        &&& 1 <= self.unit <= unit_limit()
        &&& abs_sum(amounts(self.expenses)) <= limit()
        &&& abs(self.to_transfer) <= 2 * limit() * self.unit
    }

    /// The same member counting a cent in `f` times as many parts.
    pub open spec fn rescaled(self, f: int) -> MemberView {
        MemberView { unit: self.unit * f, to_transfer: self.to_transfer * f, ..self }
    }
}

/// The exact value of an amount counted in parts of a cent: `(units, per)`
/// stands for `units / per` cents, and equals `amount / unit` cents.
pub open spec fn same_value(c: (int, int), amount: int, unit: int) -> bool {
    &&& c.1 > 0
    &&& c.0 * unit == amount * c.1
}

/// `d` divides both `x` and `y`.
pub open spec fn divides_both(d: int, x: int, y: int) -> bool {
    x % d == 0 && y % d == 0
}

/// A fraction `c.0 / c.1` in lowest terms: no number above one divides
/// both its numerator and its denominator.
pub open spec fn lowest_terms(c: (int, int)) -> bool {
    forall|d: int| d > 1 ==> !#[trigger] divides_both(d, abs(c.0), c.1)
}

/// What each member spent, in parts of a cent.
pub open spec fn spents(ms: Seq<MemberView>) -> Seq<int> {
    ms.map_values(|m: MemberView| m.spent())
}

/// What all members spent together, in parts of a cent.
pub open spec fn total_spent(ms: Seq<MemberView>) -> int {
    seq_sum(spents(ms))
}

/// How many times finer a settlement counts a cent: once when the total
/// divides evenly among the members, and as many times as there are
/// members otherwise, so that the average is a whole number of parts.
pub open spec fn rescale_factor(ms: Seq<MemberView>) -> int {
    if ms.len() > 0 && total_spent(ms) % (ms.len() as int) != 0 {
        ms.len() as int
    } else {
        1
    }
}

/// The members counting a cent in `rescale_factor` times as many parts.
pub open spec fn rescaled_members(ms: Seq<MemberView>) -> Seq<MemberView> {
    ms.map_values(|m: MemberView| m.rescaled(rescale_factor(ms)))
}

/// The exact average of what the members spent, in the parts of a cent
/// that the settlement counts in; zero for a party without members.
pub open spec fn avg_units(ms: Seq<MemberView>) -> int {
    if ms.len() == 0 {
        0
    } else if total_spent(ms) % (ms.len() as int) == 0 {
        total_spent(ms) / (ms.len() as int)
    } else {
        total_spent(ms)
    }
}

/// How far each member's spending lies above the exact average: positive
/// for a member who is owed money, negative for one who owes.
pub open spec fn balances(ms: Seq<MemberView>) -> Seq<int> {
    shift(spents(rescaled_members(ms)), -avg_units(ms))
}

/// The greedy settlement of the party's balances: the debtors, in the
/// order in which they joined, pay the creditors, in the order in which
/// they joined.
pub open spec fn settlement(ms: Seq<MemberView>) -> (Seq<(int, int, int)>, Seq<int>) {
    let bal = balances(ms);
    settle(bal, debtors(bal), creditors(bal))
}

/// The members after the settlement: counted in the settlement's parts of
/// a cent, each one's transfers account for the change of its balance.
pub open spec fn settled_members(ms: Seq<MemberView>) -> Seq<MemberView> {
    let r = rescaled_members(ms);
    let bal = balances(ms);
    let fin = settlement(ms).1;
    Seq::new(
        ms.len(),
        |k: int| MemberView { to_transfer: r[k].to_transfer + fin[k] - bal[k], ..r[k] },
    )
}

/// The transfers of the settlement, as (payer id, payee id, amount in the
/// settlement's parts of a cent).
pub open spec fn settlement_transfers(ms: Seq<MemberView>) -> Seq<(Seq<char>, Seq<char>, int)> {
    settlement(ms).0.map_values(|t: (int, int, int)| (ms[t.0].id, ms[t.1].id, t.2))
}

/// The transfers returned for a settlement of `ms`: the settlement's
/// payments in order, between different members, each a positive exact
/// amount worth the payment counted in `unit` parts of a cent.
pub open spec fn transfers_of(transfers: Seq<Transfer>, ms: Seq<MemberView>, unit: int) -> bool {
    &&& transfers.len() == settlement_transfers(ms).len()
    &&& forall|t: int|
        0 <= t < transfers.len() ==> {
            let s = #[trigger] settlement_transfers(ms)[t];
            &&& transfers[t].from_id@ == s.0
            &&& transfers[t].to_id@ == s.1
            &&& same_value(transfers[t].amount@, s.2, unit)
            &&& lowest_terms(transfers[t].amount@)
            &&& transfers[t].amount@.0 > 0
            &&& transfers[t].from_id@ != transfers[t].to_id@
        }
}

impl PartyView {
    pub open spec fn has_member(self, id: Seq<char>) -> bool {
        exists|k: int| 0 <= k < self.members.len() && #[trigger] self.members[k].id == id
    }

    /// The position of the member with the given id.
    pub open spec fn member_index(self, id: Seq<char>) -> int {
        choose|k: int| 0 <= k < self.members.len() && #[trigger] self.members[k].id == id
    }

    /// No two members share an id.
    pub open spec fn ids_unique(self) -> bool {
        forall|a: int, b: int|
            0 <= a < b < self.members.len() ==> self.members[a].id != self.members[b].id
    }

    /// No two members share an id, every member counts a cent in the
    /// party's parts, and every member's amounts are within the range in
    /// which the party's arithmetic is carried out.
    pub open spec fn wf(self) -> bool {
        &&& self.ids_unique()
        &&& 1 <= self.unit <= unit_limit()
        &&& forall|k: int|
            0 <= k < self.members.len() ==> (#[trigger] self.members[k]).unit == self.unit
                && abs_sum(amounts(self.members[k].expenses)) <= limit() && abs(
                self.members[k].spent(),
            ) <= limit() * self.unit
    }

    /// An expense of `amount` cents by `id` keeps the party within its range.
    pub open spec fn expense_fits(self, id: Seq<char>, amount: int) -> bool {
        if self.has_member(id) {
            let m = self.members[self.member_index(id)];
            &&& abs_sum(amounts(m.expenses)) + abs(amount) <= limit()
            &&& abs(m.spent() + self.unit * amount) <= limit() * self.unit
        } else {
            abs(amount) <= limit()
        }
    }

    /// The party with the expense recorded for the member `id`, who joins
    /// at the end if not yet a member.
    pub open spec fn record_expense(self, id: Seq<char>, e: ExpenseView) -> PartyView {
        if self.has_member(id) {
            let k = self.member_index(id);
            PartyView {
                members: self.members.update(
                    k,
                    MemberView { expenses: self.members[k].expenses.push(e), ..self.members[k] },
                ),
                ..self
            }
        } else {
            PartyView {
                members: self.members.push(
                    MemberView { expenses: seq![e], ..MemberView::fresh(id, self.unit) },
                ),
                ..self
            }
        }
    }

    /// Settling keeps within machine integers: the parts of a cent after
    /// settling fit in a `u64` whatever the total.
    pub open spec fn can_settle(self) -> bool {
        self.unit * self.members.len() <= unit_limit()
    }
}

/// Adding a member: refused once the party is locked or settled, or when
/// the id is taken; otherwise the member joins at the end.
pub open spec fn add_member_spec(p: PartyView, id: Seq<char>) -> (PartyView, Result<(), PartyError>) {
    match p.state {
        PartyState::Locked => (p, Err(PartyError::PartyLocked)),
        PartyState::Settled => (p, Err(PartyError::AlreadySettled)),
        PartyState::Collecting => if p.has_member(id) {
            (p, Err(PartyError::MemberAlreadyExists))
        } else {
            (PartyView { members: p.members.push(MemberView::fresh(id, p.unit)), ..p }, Ok(()))
        },
    }
}

/// Adding an expense: refused once the party is locked or settled;
/// otherwise recorded for the member, who joins if needed.
pub open spec fn add_expense_spec(p: PartyView, id: Seq<char>, e: ExpenseView) -> (
    PartyView,
    Result<(), PartyError>,
) {
    match p.state {
        PartyState::Locked => (p, Err(PartyError::PartyLocked)),
        PartyState::Settled => (p, Err(PartyError::AlreadySettled)),
        PartyState::Collecting => (p.record_expense(id, e), Ok(())),
    }
}

/// Locking: only a collecting party can be locked.
pub open spec fn lock_spec(p: PartyView) -> (PartyView, Result<(), PartyError>) {
    match p.state {
        PartyState::Collecting => (PartyView { state: PartyState::Locked, ..p }, Ok(())),
        _ => (p, Err(PartyError::InvalidTransition)),
    }
}

/// The party after settling: its members settled, counting a cent in the
/// settlement's parts.
pub open spec fn evaluate_spec(p: PartyView) -> PartyView {
    PartyView {
        members: settled_members(p.members),
        unit: p.unit * rescale_factor(p.members),
        ..p
    }
}

/// An expense of a member.
pub struct MemberExpense {
    expense: i64,
    description: Option<String>,
}

impl View for MemberExpense {
    type V = ExpenseView;

    closed spec fn view(&self) -> ExpenseView {
        ExpenseView { amount: self.expense as int, description: opt_string_view(self.description) }
    }
}

impl MemberExpense {
    /// An expense of `expense` cents with an optional description.
    pub fn new(expense: i64, description: Option<String>) -> (e: Self)
        ensures
            e@ == (ExpenseView { amount: expense as int, description: opt_string_view(description) }),
    {
        MemberExpense { expense, description }
    }

    pub fn description(&self) -> (d: Option<&str>)
        ensures
            d is Some <==> self@.description is Some,
            d is Some ==> d->0@ == self@.description->0,
    {
        match &self.description {
            Some(s) => Some(s.as_str()),
            None => None,
        }
    }

    /// The amount in cents.
    pub fn expense(&self) -> (a: i64)
        ensures
            a as int == self@.amount,
    {
        self.expense
    }
}

/// `u` times an amount within `l` is within `u * l`.
pub proof fn lemma_mul_abs_bound(u: int, x: int, l: int)
    requires
        u >= 0,
        abs(x) <= l,
    ensures
        abs(u * x) <= u * l,
{
    if x >= 0 {
        assert(u * x <= u * l) by (nonlinear_arith)
            requires
                u >= 0,
                x <= l,
        ;
        assert(u * x >= 0) by (nonlinear_arith)
            requires
                u >= 0,
                x >= 0,
        ;
    } else {
        assert(u * (-x) <= u * l) by (nonlinear_arith)
            requires
                u >= 0,
                -x <= l,
        ;
        assert(u * x == -(u * (-x))) by (nonlinear_arith);
        assert(u * (-x) >= 0) by (nonlinear_arith)
            requires
                u >= 0,
                -x >= 0,
        ;
    }
}

/// Multiples of the limit by up to `UNIT_LIMIT` parts of a cent stay
/// inside `i128`.
pub proof fn lemma_lu_bounds(u: int)
    requires
        0 <= u <= unit_limit(),
    ensures
        0 <= limit() * u,
        2 * limit() * u == 2 * (limit() * u),
        4 * limit() * u == 4 * (limit() * u),
        4 * (limit() * u) < 0x8000_0000_0000_0000_0000_0000_0000_0000,
{
    assert(limit() == 9_223_372_036_854_775_807);
    assert(unit_limit() == 0x4000_0000_0000_0000);
    assert(0 <= limit() * u <= 9_223_372_036_854_775_807 * 0x4000_0000_0000_0000)
        by (nonlinear_arith)
        requires
            limit() == 9_223_372_036_854_775_807,
            0 <= u <= 0x4000_0000_0000_0000,
    ;
    assert(2 * limit() * u == 2 * (limit() * u)) by (nonlinear_arith);
    assert(4 * limit() * u == 4 * (limit() * u)) by (nonlinear_arith);
}

/// One step of Euclid's algorithm keeps the common divisors.
proof fn lemma_common_divisors_step(a: int, b: int, d: int)
    requires
        a >= 0,
        b > 0,
        d > 0,
    ensures
        divides_both(d, b, a % b) <==> divides_both(d, a, b),
{
    lemma_fundamental_div_mod(a, b);
    let q = a / b;
    let r = a % b;
    if divides_both(d, a, b) {
        lemma_fundamental_div_mod(a, d);
        lemma_fundamental_div_mod(b, d);
        let x = a / d;
        let y = b / d;
        assert(r == (x - y * q) * d) by (nonlinear_arith)
            requires
                a == d * x,
                b == d * y,
                a == b * q + r,
        ;
        lemma_mod_multiples_basic(x - y * q, d);
    }
    if divides_both(d, b, r) {
        lemma_fundamental_div_mod(b, d);
        lemma_fundamental_div_mod(r, d);
        let y = b / d;
        let z = r / d;
        assert(a == (y * q + z) * d) by (nonlinear_arith)
            requires
                b == d * y,
                r == d * z,
                a == b * q + r,
        ;
        lemma_mod_multiples_basic(y * q + z, d);
    }
}

/// Dividing numerator and denominator by a greatest common divisor (a
/// common divisor that every common divisor divides) leaves a fraction in
/// lowest terms.
proof fn lemma_divided_by_gcd(m: int, n: int, g: int, q: int, p: int)
    requires
        g > 0,
        m == g * q,
        n == g * p,
        forall|d: int| d > 0 && #[trigger] divides_both(d, m, n) ==> g % d == 0,
    ensures
        forall|d: int| d > 1 ==> !#[trigger] divides_both(d, q, p),
{
    assert forall|d: int| d > 1 implies !#[trigger] divides_both(d, q, p) by {
        if divides_both(d, q, p) {
            lemma_fundamental_div_mod(q, d);
            lemma_fundamental_div_mod(p, d);
            let x = q / d;
            let y = p / d;
            let gd = g * d;
            assert(gd > 0 && m == x * gd && n == y * gd) by (nonlinear_arith)
                requires
                    g > 0,
                    d > 1,
                    gd == g * d,
                    q == d * x,
                    p == d * y,
                    m == g * q,
                    n == g * p,
            ;
            lemma_mod_multiples_basic(x, gd);
            lemma_mod_multiples_basic(y, gd);
            assert(divides_both(gd, m, n));
            lemma_fundamental_div_mod(g, gd);
            let w = g / gd;
            assert(false) by (nonlinear_arith)
                requires
                    g > 0,
                    d > 1,
                    gd == g * d,
                    g == gd * w + 0,
            ;
        }
    }
}

/// The greatest common divisor of `m` and `n`, by Euclid's algorithm.
pub open spec fn gcd(m: int, n: int) -> int
    decreases n,
    when m >= 0 && n >= 0
{
    if n <= 0 {
        m
    } else {
        gcd(n, m % n)
    }
}

/// The common divisors of `m` and `n` are exactly the divisors of their
/// greatest common divisor, which is positive unless both are zero.
proof fn lemma_gcd_divisors(m: int, n: int)
    requires
        m >= 0,
        n >= 0,
    ensures
        m > 0 || n > 0 ==> gcd(m, n) > 0,
        gcd(m, n) >= 0,
        forall|d: int| d > 0 ==> (#[trigger] divides_both(d, m, n) <==> gcd(m, n) % d == 0),
    decreases n,
{
    if n > 0 {
        lemma_mod_pos_bound(m, n);
        lemma_gcd_divisors(n, m % n);
        assert forall|d: int| d > 0 implies (#[trigger] divides_both(d, m, n) <==> gcd(m, n) % d
            == 0) by {
            lemma_common_divisors_step(m, n, d);
            assert(divides_both(d, n, m % n) <==> gcd(n, m % n) % d == 0);
        }
    } else {
        assert forall|d: int| d > 0 implies (#[trigger] divides_both(d, m, n) <==> gcd(m, n) % d
            == 0) by {
            lemma_mod_multiples_basic(0, d);
        }
    }
}

/// Scaling both numbers scales their greatest common divisor.
proof fn lemma_gcd_scale(k: int, m: int, n: int)
    requires
        k > 0,
        m >= 0,
        n >= 0,
    ensures
        gcd(k * m, k * n) == k * gcd(m, n),
    decreases n,
{
    assert(k * m >= 0 && k * n >= 0) by (nonlinear_arith)
        requires
            k > 0,
            m >= 0,
            n >= 0,
    ;
    if n > 0 {
        assert(k * n > 0) by (nonlinear_arith)
            requires
                k > 0,
                n > 0,
        ;
        lemma_fundamental_div_mod(m, n);
        lemma_mod_pos_bound(m, n);
        let q = m / n;
        let r = m % n;
        assert(k * m == q * (k * n) + k * r && 0 <= k * r < k * n) by (nonlinear_arith)
            requires
                k > 0,
                m == n * q + r,
                0 <= r < n,
        ;
        vstd::arithmetic::div_mod::lemma_fundamental_div_mod_converse(k * m, k * n, q, k * r);
        lemma_gcd_scale(k, n, r);
        assert(gcd(m, n) == gcd(n, r));
        assert(gcd(k * m, k * n) == gcd(k * n, (k * m) % (k * n)));
    } else {
        assert(k * n == 0) by (nonlinear_arith)
            requires
                n == 0,
        ;
        assert(gcd(k * m, k * n) == k * m);
    }
}

/// Two fractions in lowest terms with positive denominators that stand for
/// the same amount are the same fraction: an amount has one form in lowest
/// terms, so equal amounts compare equal.
pub proof fn law_equal_amounts_have_one_lowest_form(c1: (int, int), c2: (int, int))
    requires
        c1.1 > 0,
        c2.1 > 0,
        lowest_terms(c1),
        lowest_terms(c2),
        c1.0 * c2.1 == c2.0 * c1.1,
    ensures
        c1 == c2,
{
    let (a, b) = c1;
    let (x, y) = c2;
    let aa = abs(a);
    let xa = abs(x);
    assert(aa * y == xa * b) by (nonlinear_arith)
        requires
            a * y == x * b,
            b > 0,
            y > 0,
            aa == abs(a),
            xa == abs(x),
    ;
    // Each denominator divides the other.
    lemma_gcd_divisors(aa, b);
    lemma_gcd_divisors(xa, y);
    let g1 = gcd(aa, b);
    let g2 = gcd(xa, y);
    lemma_mod_multiples_basic(1, g1);
    lemma_mod_multiples_basic(1, g2);
    assert(divides_both(g1, aa, b));
    assert(divides_both(g2, xa, y));
    assert(g1 == 1);
    assert(g2 == 1);
    lemma_gcd_scale(y, aa, b);
    lemma_gcd_scale(b, xa, y);
    assert(y * aa == aa * y && y * b == b * y && b * xa == xa * b && b * y == y * b)
        by (nonlinear_arith);
    lemma_gcd_divisors(aa * y, b * y);
    lemma_gcd_divisors(xa * b, y * b);
    lemma_mod_multiples_basic(xa, b);
    lemma_mod_multiples_basic(y, b);
    lemma_mod_multiples_basic(aa, y);
    lemma_mod_multiples_basic(b, y);
    assert(divides_both(b, aa * y, b * y));
    assert(divides_both(y, xa * b, y * b));
    assert(y % b == 0);
    assert(b % y == 0);
    lemma_fundamental_div_mod(y, b);
    lemma_fundamental_div_mod(b, y);
    let s1 = y / b;
    let t1 = b / y;
    assert(b == y) by (nonlinear_arith)
        requires
            b > 0,
            y > 0,
            y == b * s1 + 0,
            b == y * t1 + 0,
    ;
    assert(aa == xa) by (nonlinear_arith)
        requires
            aa * y == xa * b,
            b == y,
            y > 0,
    ;
    assert(a == x) by (nonlinear_arith)
        requires
            a * y == x * b,
            b == y,
            y > 0,
    ;
}

/// An exact amount of money: `units / per_cent` cents, kept in lowest
/// terms so that equal amounts compare equal.
#[derive(Clone, Copy, Debug, PartialEq, Eq)]
pub struct Cents {
    units: i128,
    per_cent: u64,
}

impl View for Cents {
    type V = (int, int);

    closed spec fn view(&self) -> (int, int) {
        (self.units as int, self.per_cent as int)
    }
}

impl Cents {
    /// A whole number of cents.
    pub fn whole(cents: i64) -> (c: Cents)
        ensures
            c@ == (cents as int, 1int),
    {
        Cents { units: cents as i128, per_cent: 1 }
    }

    /// The numerator: the amount counts this many parts of a cent.
    pub fn units(&self) -> (u: i128)
        ensures
            u as int == self@.0,
    {
        self.units
    }

    /// The denominator: how many parts a cent is counted in.
    pub fn per_cent(&self) -> (p: u64)
        ensures
            p as int == self@.1,
    {
        self.per_cent
    }

    /// The amount `units / per_cent` cents, reduced to lowest terms.
    pub fn from_fraction(units: i128, per_cent: u64) -> (c: Cents)
        requires
            per_cent > 0,
        ensures
            same_value(c@, units as int, per_cent as int),
            lowest_terms(c@),
    {
        let mag: u128 = if units < 0 {
            ((0 - (units + 1)) as u128) + 1
        } else {
            units as u128
        };
        assert(mag as int == abs(units as int));
        let per = per_cent as u128;
        let mut a: u128 = mag;
        let mut b: u128 = per;
        while b != 0
            invariant
                a > 0 || b > 0,
                forall|d: int|
                    d > 0 ==> (#[trigger] divides_both(d, a as int, b as int) <==> divides_both(
                        d,
                        mag as int,
                        per as int,
                    )),
            decreases b,
        {
            proof {
                assert forall|d: int| d > 0 implies (#[trigger] divides_both(
                    d,
                    b as int,
                    (a % b) as int,
                ) <==> divides_both(d, mag as int, per as int)) by {
                    lemma_common_divisors_step(a as int, b as int, d);
                    assert(divides_both(d, a as int, b as int) <==> divides_both(
                        d,
                        mag as int,
                        per as int,
                    ));
                }
            }
            let r = a % b;
            a = b;
            b = r;
        }
        let g = a;
        proof {
            assert forall|d: int| d > 0 && #[trigger] divides_both(d, mag as int, per as int)
                implies (g as int) % d == 0 by {
                assert(divides_both(d, g as int, b as int));
            }
            lemma_mod_multiples_basic(1, g as int);
            lemma_mod_multiples_basic(0, g as int);
            assert(divides_both(g as int, g as int, 0));
            assert(divides_both(g as int, mag as int, per as int));
        }
        if g > 1 && mag % g == 0 && per % g == 0 {
            let q = mag / g;
            let p = per / g;
            proof {
                lemma_fundamental_div_mod(mag as int, g as int);
                lemma_fundamental_div_mod(per as int, g as int);
                assert(mag == g * q && per == g * p);
                assert(q <= mag && p <= per && (q < mag || mag == 0)) by (nonlinear_arith)
                    requires
                        mag == g * q,
                        per == g * p,
                        g > 1,
                        q >= 0,
                        p >= 0,
                ;
            }
            let u: i128 = if units < 0 {
                0 - (q as i128)
            } else {
                q as i128
            };
            proof {
                assert(u as int * per_cent as int == units as int * p as int) by (nonlinear_arith)
                    requires
                        mag == g * q,
                        per == g * p,
                        per == per_cent,
                        mag as int == abs(units as int),
                        u as int == (if units < 0 {
                            -(q as int)
                        } else {
                            q as int
                        }),
                ;
                assert(p > 0) by (nonlinear_arith)
                    requires
                        per == g * p,
                        per > 0,
                        p >= 0,
                ;
                lemma_divided_by_gcd(mag as int, per as int, g as int, q as int, p as int);
                assert(abs(u as int) == q as int);
            }
            Cents { units: u, per_cent: p as u64 }
        } else {
            proof {
                assert(g > 0);
                assert(mag % g == 0 && per % g == 0);
                assert(g == 1);
                assert forall|d: int| d > 1 implies !#[trigger] divides_both(
                    d,
                    abs(units as int),
                    per_cent as int,
                ) by {
                    if divides_both(d, abs(units as int), per_cent as int) {
                        assert(divides_both(d, mag as int, per as int));
                        lemma_small_mod(1, d as nat);
                    }
                }
            }
            Cents { units, per_cent }
        }
    }
}

/// A member of a party.
pub struct PartyMember {
    id: String,
    unit: u64,
    to_transfer: i128,
    expenses: Vec<MemberExpense>,
}

impl View for PartyMember {
    type V = MemberView;

    closed spec fn view(&self) -> MemberView {
        MemberView {
            id: self.id@,
            unit: self.unit as int,
            to_transfer: self.to_transfer as int,
            expenses: self.expenses@.map_values(|e: MemberExpense| e@),
        }
    }
}

impl PartyMember {
    /// A member with no expenses and no transfers, counting whole cents.
    pub fn new(id: &str) -> (m: Self)
        ensures
            m@ == MemberView::fresh(id@, 1),
            m@.bounded(),
    {
        Self::with_unit(id, 1)
    }

    fn with_unit(id: &str, unit: u64) -> (m: Self)
        requires
            1 <= unit <= unit_limit(),
        ensures
            m@ == MemberView::fresh(id@, unit as int),
            m@.bounded(),
    {
        let m = PartyMember { id: id.to_owned(), unit, to_transfer: 0, expenses: Vec::new() };
        assert(m@.expenses =~= Seq::<ExpenseView>::empty());
        assert(amounts(m@.expenses) =~= Seq::<int>::empty());
        m
    }

    pub fn id(&self) -> (id: &str)
        ensures
            id@ == self@.id,
    {
        self.id.as_str()
    }

    /// What the member spent, in its parts of a cent.
    fn spent_units(&self) -> (s: i128)
        requires
            self@.bounded(),
        ensures
            s as int == self@.spent(),
    {
        let ghost amts = amounts(self@.expenses);
        let ghost u = self.unit as int;
        proof {
            lemma_sum_abs_bound(amts);
        }
        let mut sum: i128 = self.to_transfer;
        let mut k: usize = 0;
        assert(amts.take(0) =~= Seq::<int>::empty());
        while k < self.expenses.len()
            invariant
                k <= self.expenses.len(),
                amts == amounts(self@.expenses),
                amts.len() == self.expenses.len(),
                u == self.unit,
                self@.bounded(),
                sum == self.to_transfer + u * seq_sum(amts.take(k as int)),
            decreases self.expenses.len() - k,
        {
            let ghost before = seq_sum(amts.take(k as int));
            proof {
                assert(amts.take(k + 1).drop_last() =~= amts.take(k as int));
                assert(amts[k as int] == self.expenses[k as int]@.amount);
                lemma_abs_sum_prefix(amts, k + 1);
                lemma_sum_abs_bound(amts.take(k + 1));
                lemma_mul_abs_bound(u, seq_sum(amts.take(k + 1)), limit());
                lemma_abs_sum_prefix(amts, k as int);
                lemma_sum_abs_bound(amts.take(k as int));
                lemma_mul_abs_bound(u, before, limit());
                assert(u * before + u * amts[k as int] == u * (before + amts[k as int]))
                    by (nonlinear_arith);
                assert(abs(amts[k as int]) <= abs_sum(amts.take(k + 1)));
                lemma_mul_abs_bound(u, amts[k as int], limit());
                lemma_lu_bounds(u);
            }
            sum = sum + (self.unit as i128) * (self.expenses[k].expense as i128);
            k = k + 1;
        }
        assert(amts.take(k as int) =~= amts);
        sum
    }

    /// What the member spent: what it transferred plus all its expenses,
    /// as an exact amount.
    pub fn spent(&self) -> (c: Cents)
        requires
            self@.bounded(),
        ensures
            same_value(c@, self@.spent(), self@.unit),
            lowest_terms(c@),
    {
        let s = self.spent_units();
        Cents::from_fraction(s, self.unit)
    }

    /// Records a transfer of whole cents: paying `amount` raises what the
    /// member spent, receiving (a negative `amount`) lowers it.
    pub fn add_to_transfer(&mut self, amount: i64)
        requires
            old(self)@.bounded(),
            abs(old(self)@.to_transfer + old(self)@.unit * amount) <= 2 * limit() * old(
                self,
            )@.unit,
        ensures
            final(self)@ == (MemberView {
                to_transfer: old(self)@.to_transfer + old(self)@.unit * amount,
                ..old(self)@
            }),
            final(self)@.bounded(),
    {
        let ghost u = self.unit as int;
        proof {
            lemma_lu_bounds(u);
        }
        self.to_transfer = self.to_transfer + (self.unit as i128) * (amount as i128);
    }

    /// Records a transfer counted in the member's parts of a cent.
    fn add_units(&mut self, units: i128)
        requires
            i128::MIN <= old(self)@.to_transfer + units <= i128::MAX,
        ensures
            final(self)@ == (MemberView { to_transfer: old(self)@.to_transfer + units, ..old(self)@ }),
    {
        self.to_transfer = self.to_transfer + units;
    }

    /// Counts a cent in `f` times as many parts.
    fn rescale(&mut self, f: u64)
        requires
            old(self)@.bounded(),
            f >= 1,
            old(self)@.unit * f <= unit_limit(),
        ensures
            final(self)@ == old(self)@.rescaled(f as int),
            final(self)@.bounded(),
    {
        let ghost u = self.unit as int;
        let ghost t = self.to_transfer as int;
        proof {
            assert(abs(t * f) <= 2 * limit() * (u * f)) by (nonlinear_arith)
                requires
                    abs(t) <= 2 * limit() * u,
                    f >= 1,
                    u >= 1,
                    limit() >= 0,
            ;
            assert(u * f >= 1) by (nonlinear_arith)
                requires
                    u >= 1,
                    f >= 1,
            ;
            lemma_lu_bounds(u * f);
        }
        self.unit = self.unit * f;
        self.to_transfer = self.to_transfer * (f as i128);
    }

    fn record(&mut self, expense: MemberExpense)
        ensures
            final(self)@ == (MemberView {
                expenses: old(self)@.expenses.push(expense@),
                ..old(self)@
            }),
    {
        self.expenses.push(expense);
        assert(self@.expenses =~= old(self)@.expenses.push(expense@));
    }

    /// The sum of the absolute values of the member's expenses.
    fn expenses_abs(&self) -> (t: i64)
        requires
            self@.bounded(),
        ensures
            t as int == abs_sum(amounts(self@.expenses)),
    {
        let ghost amts = amounts(self@.expenses);
        let mut sum: i64 = 0;
        let mut k: usize = 0;
        while k < self.expenses.len()
            invariant
                k <= self.expenses.len(),
                amts == amounts(self@.expenses),
                amts.len() == self.expenses.len(),
                self@.bounded(),
                sum == abs_sum(amts.take(k as int)),
            decreases self.expenses.len() - k,
        {
            proof {
                assert(amts.take(k + 1).drop_last() =~= amts.take(k as int));
                assert(amts[k as int] == self.expenses[k as int]@.amount);
                lemma_abs_sum_prefix(amts, k + 1);
                lemma_sum_abs_bound(amts.take(k + 1));
            }
            let e = self.expenses[k].expense;
            if e < 0 {
                sum = sum - e;
            } else {
                sum = sum + e;
            }
            k = k + 1;
        }
        assert(amts.take(k as int) =~= amts);
        sum
    }
}

/// A payment that evens out the party: `from_id` pays `amount` to `to_id`.
#[derive(Debug, PartialEq)]
pub struct Transfer {
    pub from_id: String,
    pub to_id: String,
    pub amount: Cents,
}

impl View for Transfer {
    type V = (Seq<char>, Seq<char>, (int, int));

    open spec fn view(&self) -> (Seq<char>, Seq<char>, (int, int)) {
        (self.from_id@, self.to_id@, self.amount@)
    }
}

/// The members, by position, who owe money and who are owed money.
struct MembersSplit {
    creditors: Vec<usize>,
    debtors: Vec<usize>,
}

pub open spec fn positions(v: Seq<usize>) -> Seq<int> {
    v.map_values(|x: usize| x as int)
}

/// The members as the contracts see them.
pub open spec fn member_views(v: Seq<PartyMember>) -> Seq<MemberView> {
    v.map_values(|m: PartyMember| m@)
}

/// A collecting party with the given members: how the helpers that work on
/// the members alone speak of them.
spec fn roster(v: Seq<PartyMember>) -> PartyView {
    PartyView { members: member_views(v), state: PartyState::Collecting, unit: 1 }
}

/// A party: its members, in the order in which they joined, its state, and
/// the parts in which its members count a cent.
pub struct Party {
    members: Vec<PartyMember>,
    state: PartyState,
    unit: u64,
}

impl View for Party {
    type V = PartyView;

    closed spec fn view(&self) -> PartyView {
        PartyView { members: member_views(self.members@), state: self.state, unit: self.unit as int }
    }
}

/// A member of a well-formed party has its amounts within range.
proof fn lemma_member_bounded(p: PartyView, k: int)
    requires
        p.wf(),
        0 <= k < p.members.len(),
    ensures
        p.members[k].bounded(),
{
    let m = p.members[k];
    lemma_sum_abs_bound(amounts(m.expenses));
    lemma_mul_abs_bound(m.unit, seq_sum(amounts(m.expenses)), limit());
    assert(limit() * m.unit == limit() * p.unit);
    assert(2 * limit() * m.unit == limit() * m.unit + limit() * m.unit) by (nonlinear_arith);
}

/// When no two members share an id, the member found under an id is the
/// one that `member_index` names.
pub proof fn lemma_member_index(p: PartyView, id: Seq<char>, k: int)
    requires
        p.ids_unique(),
        0 <= k < p.members.len(),
        p.members[k].id == id,
    ensures
        p.has_member(id),
        p.member_index(id) == k,
{
    assert(p.members[k].id == id);
    let j = p.member_index(id);
    if j < k {
        assert(p.members[j].id != p.members[k].id);
    } else if j > k {
        assert(p.members[k].id != p.members[j].id);
    }
}

/// `t` divides evenly by `n` exactly when its magnitude does, and then the
/// quotient is the magnitude's quotient with the sign of `t`.
proof fn lemma_exact_div(t: int, n: int)
    requires
        n > 0,
    ensures
        (abs(t) % n == 0) == (t % n == 0),
        t % n == 0 ==> t / n == (if t < 0 {
            -(abs(t) / n)
        } else {
            abs(t) / n
        }),
        t % n == 0 ==> t == n * (t / n),
{
    lemma_fundamental_div_mod(t, n);
    lemma_mod_bound(t, n);
    if t < 0 {
        let a = -t;
        lemma_fundamental_div_mod(a, n);
        lemma_mod_pos_bound(a, n);
        if a % n == 0 {
            let q = a / n;
            assert(t == (-q) * n + 0) by (nonlinear_arith)
                requires
                    a == n * q + 0,
                    t == -a,
            ;
            vstd::arithmetic::div_mod::lemma_fundamental_div_mod_converse(t, n, -q, 0);
        }
        if t % n == 0 {
            let q = t / n;
            assert(a == (-q) * n + 0) by (nonlinear_arith)
                requires
                    t == n * q + 0,
                    t == -a,
            ;
            vstd::arithmetic::div_mod::lemma_fundamental_div_mod_converse(a, n, -q, 0);
        }
    }
}

impl Party {
    /// Every party is well formed: no two members share an id, every member
    /// counts a cent in the party's parts, and every member's amounts are
    /// within the limit.
    #[verifier::type_invariant]
    spec fn inv(self) -> bool {
        self@.wf()
    }

    /// The party is well formed: see `PartyView::wf`. It always is.
    pub open spec fn wf(&self) -> bool {
        self@.wf()
    }

    /// A collecting party without members, counting whole cents.
    pub fn new() -> (p: Self)
        ensures
            p@ == (PartyView { members: Seq::empty(), state: PartyState::Collecting, unit: 1 }),
            p.wf(),
    {
        let p = Party { state: PartyState::Collecting, members: Vec::new(), unit: 1 };
        assert(p@.members =~= Seq::<MemberView>::empty());
        p
    }

    /// The state of the party.
    pub fn state(&self) -> (s: PartyState)
        ensures
            s == self@.state,
            self.wf(),
    {
        proof {
            use_type_invariant(self);
        }
        self.state
    }

    /// The position of the member with the given id, if there is one.
    fn find_member(members: &Vec<PartyMember>, member_id: &str) -> (r: Option<usize>)
        ensures
            match r {
                Some(k) => k < members@.len() && member_views(members@)[k as int].id == member_id@,
                None => !roster(members@).has_member(member_id@),
            },
    {
        let key = member_id.to_owned();
        let mut k: usize = 0;
        while k < members.len()
            invariant
                k <= members.len(),
                key@ == member_id@,
                forall|j: int| 0 <= j < k ==> member_views(members@)[j].id != member_id@,
            decreases members.len() - k,
        {
            assert(member_views(members@)[k as int] == members@[k as int]@);
            if members[k].id == key {
                return Some(k);
            }
            k = k + 1;
        }
        None
    }

    /// The position of the member with the given id; a new member, counting
    /// a cent in `unit` parts, joins at the end when there is none.
    fn get_member_or_create(members: &mut Vec<PartyMember>, member_id: &str, unit: u64) -> (k:
        usize)
        requires
            roster(old(members)@).ids_unique(),
            1 <= unit <= unit_limit(),
        ensures
            roster(old(members)@).has_member(member_id@) ==> member_views(final(members)@)
                == member_views(old(members)@) && k == roster(old(members)@).member_index(
                member_id@,
            ),
            !roster(old(members)@).has_member(member_id@) ==> member_views(final(members)@)
                == member_views(old(members)@).push(MemberView::fresh(member_id@, unit as int))
                && k == old(members)@.len(),
            k < final(members)@.len(),
    {
        match Self::find_member(members, member_id) {
            Some(k) => {
                proof {
                    lemma_member_index(roster(members@), member_id@, k as int);
                }
                k
            },
            None => {
                members.push(PartyMember::with_unit(member_id, unit));
                assert(member_views(members@) =~= member_views(old(members)@).push(
                    MemberView::fresh(member_id@, unit as int),
                ));
                members.len() - 1
            },
        }
    }

    /// Adds a member with no expenses; refused once the party is locked or
    /// settled, or when a member with this id exists.
    pub fn add_member(&mut self, member_id: &str) -> (r: Result<(), PartyError>)
        ensures
            (final(self)@, r) == add_member_spec(old(self)@, member_id@),
            final(self).wf(),
    {
        proof {
            use_type_invariant(&*self);
            assert(roster(self.members@).members == self@.members);
        }
        match self.state {
            PartyState::Locked => return Err(PartyError::PartyLocked),
            PartyState::Settled => return Err(PartyError::AlreadySettled),
            _ => {},
        };
        if let Some(_) = Self::find_member(&self.members, member_id) {
            return Err(PartyError::MemberAlreadyExists);
        }
        let mut members: Vec<PartyMember> = Vec::new();
        std::mem::swap(&mut members, &mut self.members);
        members.push(PartyMember::with_unit(member_id, self.unit));
        let ghost ms = member_views(members@);
        assert(ms =~= old(self)@.members.push(MemberView::fresh(member_id@, self.unit as int)));
        proof {
            let n = ms.len() - 1;
            assert(amounts(ms[n].expenses) =~= Seq::<int>::empty());
            assert(ms[n].spent() == 0) by (nonlinear_arith)
                requires
                    ms[n].spent() == 0 + ms[n].unit * seq_sum(amounts(ms[n].expenses)),
                    seq_sum(amounts(ms[n].expenses)) == 0,
            ;
            lemma_lu_bounds(self.unit as int);
            assert forall|a: int, b: int| 0 <= a < b < ms.len() implies ms[a].id != ms[b].id by {
                if b == n {
                    if ms[a].id == ms[b].id {
                        assert(old(self)@.members[a].id == member_id@);
                    }
                }
            }
        }
        self.members = members;
        Ok(())
    }

    /// Records an expense of the member `member_id`, who joins the party if
    /// not yet a member; refused once the party is locked or settled.
    pub fn add_expense(&mut self, member_id: &str, expense: MemberExpense) -> (r: Result<
        (),
        PartyError,
    >)
        requires
            old(self)@.state == PartyState::Collecting ==> old(self)@.expense_fits(
                member_id@,
                expense@.amount,
            ),
        ensures
            (final(self)@, r) == add_expense_spec(old(self)@, member_id@, expense@),
            final(self).wf(),
    {
        proof {
            use_type_invariant(&*self);
        }
        match self.state {
            PartyState::Locked => return Err(PartyError::PartyLocked),
            PartyState::Settled => return Err(PartyError::AlreadySettled),
            _ => {},
        };
        let ghost e = expense@;
        let ghost had = old(self)@.has_member(member_id@);
        let ghost u = self.unit as int;
        let mut members: Vec<PartyMember> = Vec::new();
        std::mem::swap(&mut members, &mut self.members);
        assert(roster(members@).members == old(self)@.members);
        let k = Self::get_member_or_create(&mut members, member_id, self.unit);
        let ghost mid = member_views(members@);
        members[k].record(expense);
        proof {
            let ms = member_views(members@);
            let target = old(self)@.record_expense(member_id@, e);
            assert(ms =~= mid.update(
                k as int,
                MemberView { expenses: mid[k as int].expenses.push(e), ..mid[k as int] },
            ));
            assert(ms =~= target.members);
            let mk = mid[k as int];
            assert(amounts(mk.expenses.push(e)) =~= amounts(mk.expenses).push(e.amount));
            assert(amounts(mk.expenses.push(e)).drop_last() =~= amounts(mk.expenses));
            if !had {
                assert(amounts(mk.expenses) =~= Seq::<int>::empty());
            }
            assert forall|a: int, b: int| 0 <= a < b < ms.len() implies ms[a].id != ms[b].id by {
                if !had && b == ms.len() - 1 {
                    if ms[a].id == ms[b].id {
                        assert(old(self)@.members[a].id == member_id@);
                    }
                }
            }
            assert forall|j: int| 0 <= j < ms.len() implies (#[trigger] ms[j]).unit == u
                && abs_sum(amounts(ms[j].expenses)) <= limit() && abs(ms[j].spent()) <= limit() * u by {
                if j != k {
                    assert(ms[j] == old(self)@.members[j]);
                } else {
                    let pushed = amounts(mk.expenses.push(e));
                    let before = seq_sum(amounts(mk.expenses));
                    assert(pushed.last() == e.amount);
                    assert(abs_sum(pushed) == abs_sum(amounts(mk.expenses)) + abs(e.amount));
                    assert(seq_sum(pushed) == before + e.amount);
                    assert(u * (before + e.amount) == u * before + u * e.amount) by (nonlinear_arith);
                    assert(ms[j].spent() == mk.spent() + u * e.amount);
                    if !had {
                        lemma_mul_abs_bound(u, e.amount, limit());
                        assert(mk.spent() == 0) by (nonlinear_arith)
                            requires
                                mk.spent() == 0 + u * before,
                                before == 0,
                        ;
                        assert(limit() * u == u * limit()) by (nonlinear_arith);
                    }
                }
            }
        }
        self.members = members;
        Ok(())
    }

    /// Puts the party in a state it was stored in.
    pub(crate) fn restore_state(&mut self, state: PartyState)
        ensures
            final(self)@ == (PartyView { state, ..old(self)@ }),
    {
        proof {
            use_type_invariant(&*self);
            assert((PartyView { state, ..old(self)@ }).wf());
        }
        self.state = state;
        assert(self@.members =~= old(self)@.members);
    }

    /// Whether `member_id` is a member of the party.
    pub fn is_member(&self, member_id: &str) -> (r: bool)
        ensures
            r == self@.has_member(member_id@),
    {
        proof {
            assert(roster(self.members@).members == self@.members);
        }
        match Self::find_member(&self.members, member_id) {
            Some(_) => true,
            None => false,
        }
    }

    /// Whether an expense of `amount` cents by `member_id` keeps the party
    /// within the range of its arithmetic, as `add_expense` requires of a
    /// collecting party.
    pub fn can_record_expense(&self, member_id: &str, amount: i64) -> (r: bool)
        ensures
            r == self@.expense_fits(member_id@, amount as int),
    {
        proof {
            use_type_invariant(self);
            assert(roster(self.members@).members == self@.members);
            lemma_lu_bounds(self.unit as int);
        }
        let a: i128 = if amount < 0 {
            0 - (amount as i128)
        } else {
            amount as i128
        };
        if a > AMOUNT_LIMIT as i128 {
            proof {
                if self@.has_member(member_id@) {
                    let m = self@.members[self@.member_index(member_id@)];
                    lemma_sum_abs_bound(amounts(m.expenses));
                }
            }
            return false;
        }
        let lu = (AMOUNT_LIMIT as i128) * (self.unit as i128);
        match Self::find_member(&self.members, member_id) {
            Some(k) => {
                proof {
                    lemma_member_index(self@, member_id@, k as int);
                    lemma_member_bounded(self@, k as int);
                    assert(self.members@[k as int]@ == self@.members[k as int]);
                    lemma_mul_abs_bound(self.unit as int, amount as int, limit());
                    assert(limit() * self.unit == self.unit * limit()) by (nonlinear_arith);
                }
                let m = &self.members[k];
                let t = m.expenses_abs() as i128;
                let s = m.spent_units() + (self.unit as i128) * (amount as i128);
                let s_abs = if s < 0 {
                    0 - s
                } else {
                    s
                };
                t + a <= AMOUNT_LIMIT as i128 && s_abs <= lu
            },
            None => true,
        }
    }

    /// Locks a collecting party; any other state refuses the transition.
    pub fn lock(&mut self) -> (r: Result<(), PartyError>)
        ensures
            (final(self)@, r) == lock_spec(old(self)@),
            final(self).wf(),
    {
        proof {
            use_type_invariant(&*self);
        }
        match self.state {
            PartyState::Collecting => {
                assert((PartyView { state: PartyState::Locked, ..old(self)@ }).wf());
                self.state = PartyState::Locked;
                assert(self@.members =~= old(self)@.members);
                Ok(())
            },
            _ => Err(PartyError::InvalidTransition),
        }
    }

    /// Whether the party can be settled within machine integers: see
    /// `PartyView::can_settle`.
    pub fn can_evaluate(&self) -> (r: bool)
        ensures
            r == self@.can_settle(),
    {
        let u = self.unit as u128;
        let n = self.members.len() as u128;
        assert(u * n <= 0xffff_ffff_ffff_ffff * 0xffff_ffff_ffff_ffff) by (nonlinear_arith)
            requires
                u <= 0xffff_ffff_ffff_ffff,
                n <= 0xffff_ffff_ffff_ffff,
        ;
        u * n <= UNIT_LIMIT as u128
    }

    /// What all members spent together, in the party's parts of a cent.
    fn spent_total(&self) -> (t: i128)
        requires
            self.wf(),
            self@.can_settle(),
        ensures
            t as int == total_spent(self@.members),
            abs(t as int) <= limit() * (self@.unit * self@.members.len()),
    {
        let n = self.members.len();
        let ghost ms = self@.members;
        let ghost sp = spents(ms);
        let ghost u = self.unit as int;
        proof {
            lemma_lu_bounds(u * n);
        }
        let mut total: i128 = 0;
        let mut k: usize = 0;
        assert(sp.take(0) =~= Seq::<int>::empty());
        while k < n
            invariant
                k <= n,
                n == self.members.len(),
                ms == self@.members,
                sp == spents(ms),
                u == self.unit,
                self.wf(),
                self@.can_settle(),
                total == seq_sum(sp.take(k as int)),
                abs(total as int) <= limit() * (u * k),
                4 * (limit() * (u * n)) < 0x8000_0000_0000_0000_0000_0000_0000_0000,
            decreases n - k,
        {
            proof {
                assert(sp.take(k + 1).drop_last() =~= sp.take(k as int));
                assert(self.members@[k as int]@ == ms[k as int]);
                lemma_member_bounded(self@, k as int);
                assert(limit() * (u * (k + 1)) == limit() * (u * k) + limit() * u)
                    by (nonlinear_arith);
                assert(limit() * (u * (k + 1)) <= limit() * (u * n)) by (nonlinear_arith)
                    requires
                        k + 1 <= n,
                        u >= 0,
                        limit() >= 0,
                ;
                assert(limit() * u >= 0) by (nonlinear_arith)
                    requires
                        u >= 0,
                        limit() >= 0,
                ;
            }
            let s = self.members[k].spent_units();
            total = total + s;
            k = k + 1;
        }
        assert(sp.take(n as int) =~= sp);
        total
    }

    /// The members who owe money and those who are owed money, each in the
    /// order in which they joined, for balances measured from `avg`.
    fn split_members(members: &Vec<PartyMember>, avg: i128, Ghost(u): Ghost<int>) -> (split:
        MembersSplit)
        requires
            1 <= u <= unit_limit(),
            abs(avg as int) <= limit() * u,
            forall|k: int|
                0 <= k < members@.len() ==> (#[trigger] member_views(members@)[k]).bounded()
                    && abs(member_views(members@)[k].spent()) <= limit() * u,
        ensures
            positions(split.debtors@) == debtors(shift(spents(member_views(members@)), -avg)),
            positions(split.creditors@) == creditors(shift(spents(member_views(members@)), -avg)),
    {
        let mut creditor_pos: Vec<usize> = Vec::new();
        let mut debtor_pos: Vec<usize> = Vec::new();
        let ghost ms = member_views(members@);
        let ghost bal = shift(spents(ms), -avg);
        proof {
            lemma_lu_bounds(u);
        }
        let n = members.len();
        let mut k: usize = 0;
        while k < n
            invariant
                k <= n,
                n == members.len(),
                ms == member_views(members@),
                bal == shift(spents(ms), -avg),
                bal.len() == n,
                1 <= u <= unit_limit(),
                abs(avg as int) <= limit() * u,
                4 * (limit() * u) < 0x8000_0000_0000_0000_0000_0000_0000_0000,
                forall|j: int|
                    0 <= j < n ==> (#[trigger] ms[j]).bounded() && abs(ms[j].spent()) <= limit() * u,
                positions(debtor_pos@) == debtors(bal.take(k as int)),
                positions(creditor_pos@) == creditors(bal.take(k as int)),
            decreases n - k,
        {
            proof {
                assert(bal.take(k + 1).drop_last() =~= bal.take(k as int));
                assert(members@[k as int]@ == ms[k as int]);
                assert(ms[k as int].bounded());
            }
            let member_spent = members[k].spent_units();
            let balance = member_spent - avg;
            assert(bal[k as int] == balance);
            if balance > 0 {
                creditor_pos.push(k);
                assert(positions(creditor_pos@) =~= creditors(bal.take(k as int)).push(k as int));
            } else if balance < 0 {
                debtor_pos.push(k);
                assert(positions(debtor_pos@) =~= debtors(bal.take(k as int)).push(k as int));
            }
            k = k + 1;
        }
        assert(bal.take(n as int) =~= bal);
        MembersSplit { creditors: creditor_pos, debtors: debtor_pos }
    }
}

/// A member counting a cent in `f` times as many parts has spent `f` times
/// as many parts.
proof fn lemma_rescaled_spent(m: MemberView, f: int)
    ensures
        m.rescaled(f).spent() == f * m.spent(),
{
    let e = seq_sum(amounts(m.expenses));
    assert(m.to_transfer * f + (m.unit * f) * e == f * (m.to_transfer + m.unit * e))
        by (nonlinear_arith);
}

/// What the settlement of a party achieves. Counting a cent in the
/// settlement's parts, every member afterwards has spent exactly the
/// average of what the members spent (`spent * n == total * f`); what the
/// members spent together keeps its value; and every payment is a positive
/// amount from a member who had spent less than the average to one who had
/// spent more.
pub proof fn law_settlement_equalizes(ms: Seq<MemberView>)
    ensures
        ({
            let after = settled_members(ms);
            let f = rescale_factor(ms);
            let avg = avg_units(ms);
            let n = ms.len() as int;
            let r = rescaled_members(ms);
            let steps = settlement(ms).0;
            &&& f >= 1
            &&& after.len() == ms.len()
            &&& forall|k: int|
                0 <= k < ms.len() ==> (#[trigger] after[k]).id == ms[k].id && after[k].expenses
                    == ms[k].expenses && after[k].unit == ms[k].unit * f
            &&& forall|k: int| 0 <= k < ms.len() ==> (#[trigger] after[k]).spent() == avg
            &&& forall|k: int|
                0 <= k < ms.len() ==> (#[trigger] after[k]).spent() * n == total_spent(ms) * f
            &&& avg * n == total_spent(ms) * f
            &&& total_spent(after) == total_spent(ms) * f
            &&& forall|k: int| 0 <= k < ms.len() ==> (#[trigger] r[k]).spent() == f * ms[k].spent()
            &&& forall|t: int|
                0 <= t < steps.len() ==> 0 <= (#[trigger] steps[t]).0 < n && 0 <= steps[t].1 < n
                    && steps[t].0 != steps[t].1 && r[steps[t].0].spent() < avg < r[steps[t].1].spent()
                    && steps[t].2 > 0
        }),
{
    let n = ms.len() as int;
    let f = rescale_factor(ms);
    let avg = avg_units(ms);
    let total = total_spent(ms);
    let r = rescaled_members(ms);
    let bal = balances(ms);
    let ds = debtors(bal);
    let cs = creditors(bal);
    assert forall|k: int| 0 <= k < ms.len() implies (#[trigger] r[k]).spent() == f * ms[k].spent() by {
        lemma_rescaled_spent(ms[k], f);
    }
    assert(spents(r) =~= scale(spents(ms), f));
    lemma_sum_scale(spents(ms), f);
    lemma_sum_shift(spents(r), -avg);
    if n > 0 {
        lemma_fundamental_div_mod(total, n);
        if total % n == 0 {
            assert(avg * n == total * f) by (nonlinear_arith)
                requires
                    f == 1,
                    avg == total / n,
                    total == n * (total / n) + 0,
            ;
        } else {
            assert(avg * n == total * f) by (nonlinear_arith)
                requires
                    f == n,
                    avg == total,
            ;
        }
        assert(seq_sum(bal) == 0) by (nonlinear_arith)
            requires
                seq_sum(bal) == f * total + n * (-avg),
                avg * n == total * f,
        ;
    } else {
        assert(seq_sum(bal) == 0);
    }
    lemma_split(bal);
    lemma_split_queues_ok(bal);
    lemma_settle(bal, ds, cs);
    let fin = settlement(ms).1;
    lemma_nonneg_sum_zero(fin);
    let after = settled_members(ms);
    assert forall|k: int| 0 <= k < ms.len() implies (#[trigger] after[k]).spent() == avg by {
        assert(bal[k] == spents(r)[k] - avg);
        assert(spents(r)[k] == r[k].spent());
        assert(fin[k] == 0);
    }
    assert forall|k: int| 0 <= k < ms.len() implies (#[trigger] after[k]).spent() * n == total * f by {
        assert(after[k].spent() == avg);
    }
    assert(spents(after) =~= shift(fin, avg));
    lemma_sum_shift(fin, avg);
    assert(n * avg == avg * n) by (nonlinear_arith);
    let steps = settlement(ms).0;
    assert forall|t: int| 0 <= t < steps.len() implies 0 <= (#[trigger] steps[t]).0 < n && 0
        <= steps[t].1 < n && steps[t].0 != steps[t].1 && r[steps[t].0].spent() < avg
        < r[steps[t].1].spent() && steps[t].2 > 0 by {
        let a = choose|a: int| 0 <= a < ds.len() && ds[a] == steps[t].0;
        let b = choose|b: int| 0 <= b < cs.len() && cs[b] == steps[t].1;
        assert(bal[ds[a]] < 0);
        assert(bal[cs[b]] > 0);
        assert(spents(r)[steps[t].0] == r[steps[t].0].spent());
        assert(spents(r)[steps[t].1] == r[steps[t].1].spent());
    }
}

/// The greedy settlement makes fewer payments than the party has members:
/// each payment settles a debtor or a creditor completely.
pub proof fn law_fewer_payments_than_members(ms: Seq<MemberView>)
    ensures
        settlement(ms).0.len() == 0 || settlement(ms).0.len() < ms.len(),
{
    let bal = balances(ms);
    lemma_split_queues_ok(bal);
    lemma_split_count(bal);
    lemma_settle_count(bal, debtors(bal), creditors(bal));
    assert(bal.len() == ms.len());
}

/// Paying the settlement's transfers is what turns the members, counted
/// in the settlement's parts of a cent, into the settled members: each
/// member's transfers, and so what it spent, grow by what it paid and
/// shrink by what it received.
pub proof fn law_transfers_account(ms: Seq<MemberView>)
    ensures
        ({
            let r = rescaled_members(ms);
            let after = settled_members(ms);
            let steps = settlement(ms).0;
            &&& after.len() == ms.len()
            &&& forall|k: int|
                0 <= k < ms.len() ==> (#[trigger] after[k]).to_transfer == r[k].to_transfer
                    + net_paid(steps, k) && after[k].spent() == r[k].spent() + net_paid(steps, k)
        }),
{
    let bal = balances(ms);
    lemma_split_queues_ok(bal);
    lemma_settle_net(bal, debtors(bal), creditors(bal));
}

/// A member whose expenses and spending are within the limit is within
/// the range of its arithmetic.
proof fn lemma_member_in_range(m: MemberView)
    requires
        1 <= m.unit <= unit_limit(),
        abs_sum(amounts(m.expenses)) <= limit(),
        abs(m.spent()) <= limit() * m.unit,
    ensures
        m.bounded(),
{
    lemma_sum_abs_bound(amounts(m.expenses));
    lemma_mul_abs_bound(m.unit, seq_sum(amounts(m.expenses)), limit());
    lemma_lu_bounds(m.unit);
    assert(m.unit * limit() == limit() * m.unit) by (nonlinear_arith);
}

impl Party {
    /// The exact average of what the members spent and the factor by which
    /// the settlement refines the parts of a cent.
    fn average_and_factor(&self) -> (res: (i128, u64))
        requires
            self.wf(),
            self@.can_settle(),
            self@.members.len() > 0,
        ensures
            res.0 as int == avg_units(self@.members),
            res.1 as int == rescale_factor(self@.members),
            1 <= self@.unit * res.1 <= unit_limit(),
            abs(res.0 as int) <= limit() * (self@.unit * res.1),
            res.0 as int * (self@.members.len() as int) == total_spent(self@.members) * res.1,
    {
        let ghost ms = self@.members;
        let ghost u = self.unit as int;
        let n = self.members.len();
        let total = self.spent_total();
        let ghost f = rescale_factor(ms);
        proof {
            lemma_exact_div(total as int, n as int);
            lemma_lu_bounds(u * n);
            law_settlement_equalizes(ms);
        }
        let nu = n as u128;
        let mag: u128 = if total < 0 {
            (0 - total) as u128
        } else {
            total as u128
        };
        let factor: u64;
        let avg: i128;
        if mag % nu == 0 {
            let q = (mag / nu) as i128;
            avg = if total < 0 {
                0 - q
            } else {
                q
            };
            factor = 1;
        } else {
            avg = total;
            factor = n as u64;
        }
        proof {
            assert(factor as int == f && avg as int == avg_units(ms));
            assert(1 <= u * f <= u * n) by (nonlinear_arith)
                requires
                    1 <= f <= n,
                    u >= 1,
            ;
            assert(abs(avg as int) <= limit() * (u * f)) by (nonlinear_arith)
                requires
                    avg * n == total * f,
                    abs(total as int) <= limit() * (u * n),
                    n > 0,
                    f >= 1,
                    limit() >= 0,
            ;
        }
        (avg, factor)
    }

    /// Counts a cent in `factor` times as many parts for every member.
    fn rescale_members(members: &mut Vec<PartyMember>, factor: u64, Ghost(p): Ghost<PartyView>)
        requires
            p.wf(),
            member_views(old(members)@) == p.members,
            factor as int == rescale_factor(p.members),
            p.unit * factor <= unit_limit(),
        ensures
            member_views(final(members)@) == rescaled_members(p.members),
    {
        let ghost ms = p.members;
        let ghost r = rescaled_members(ms);
        let n = members.len();
        let mut k: usize = 0;
        while k < n
            invariant
                k <= n,
                members@.len() == n,
                ms.len() == n,
                ms == p.members,
                p.wf(),
                factor as int == rescale_factor(ms),
                factor >= 1,
                p.unit * factor <= unit_limit(),
                r == rescaled_members(ms),
                forall|j: int| 0 <= j < k ==> (#[trigger] member_views(members@)[j]) == r[j],
                forall|j: int| k <= j < n ==> (#[trigger] member_views(members@)[j]) == ms[j],
            decreases n - k,
        {
            proof {
                lemma_member_bounded(p, k as int);
                assert(members@[k as int]@ == member_views(members@)[k as int]);
                assert(r[k as int] == ms[k as int].rescaled(factor as int));
                assert(ms[k as int].unit == p.unit);
            }
            let ghost before = member_views(members@);
            members[k].rescale(factor);
            proof {
                assert(member_views(members@) =~= before.update(k as int, r[k as int]));
            }
            k = k + 1;
        }
        assert(member_views(members@) =~= r);
    }

    /// Pays off the balances of the rescaled members greedily, recording
    /// each payment on the two members and returning it.
    #[verifier::rlimit(80)]
    fn pay_off(members: &mut Vec<PartyMember>, avg: i128, new_unit: u64, Ghost(ms): Ghost<
        Seq<MemberView>,
    >) -> (transfers: Vec<Transfer>)
        requires
            (PartyView { members: ms, state: PartyState::Collecting, unit: 1 }).ids_unique(),
            member_views(old(members)@) == rescaled_members(ms),
            avg as int == avg_units(ms),
            1 <= new_unit <= unit_limit(),
            abs(avg as int) <= limit() * new_unit,
            forall|k: int|
                0 <= k < ms.len() ==> (#[trigger] rescaled_members(ms)[k]).bounded() && abs(
                    rescaled_members(ms)[k].spent(),
                ) <= limit() * new_unit && abs_sum(amounts(rescaled_members(ms)[k].expenses))
                    <= limit() && rescaled_members(ms)[k].unit == new_unit,
        ensures
            member_views(final(members)@) == settled_members(ms),
            transfers@.len() == settlement(ms).0.len(),
            forall|t: int|
                0 <= t < transfers@.len() ==> (#[trigger] transfers@[t]).from_id@ == ms[settlement(
                    ms,
                ).0[t].0].id && transfers@[t].to_id@ == ms[settlement(ms).0[t].1].id && same_value(
                    transfers@[t].amount@,
                    settlement(ms).0[t].2,
                    new_unit as int,
                ) && transfers@[t].amount@.0 > 0 && lowest_terms(transfers@[t].amount@)
                    && transfers@[t].from_id@ != transfers@[t].to_id@,
    {
        let ghost r = rescaled_members(ms);
        let ghost nu_g = new_unit as int;
        let n = members.len();
        proof {
            lemma_lu_bounds(nu_g);
            law_settlement_equalizes(ms);
        }
        let split = Self::split_members(&*members, avg, Ghost(nu_g));
        let debtor_pos = split.debtors;
        let creditor_pos = split.creditors;
        let mut transfers: Vec<Transfer> = Vec::new();
        let ghost bal0 = balances(ms);
        let ghost ds = debtors(bal0);
        let ghost cs = creditors(bal0);
        let ghost mut bal = bal0;
        let ghost mut done: Seq<(int, int, int)> = Seq::empty();
        proof {
            assert(bal0 == shift(spents(member_views(members@)), -avg));
            lemma_split(bal0);
            lemma_split_queues_ok(bal0);
            assert(ds.skip(0) =~= ds);
            assert(cs.skip(0) =~= cs);
            assert forall|k: int| 0 <= k < n implies bal[k] == (#[trigger] member_views(
                members@,
            )[k]).spent() - avg by {
                assert(spents(r)[k] == r[k].spent());
            }
        }
        let mut i: usize = 0;
        let mut j: usize = 0;
        while i < debtor_pos.len() && j < creditor_pos.len()
            invariant
                positions(debtor_pos@) == ds,
                positions(creditor_pos@) == cs,
                i <= ds.len(),
                j <= cs.len(),
                (PartyView { members: ms, state: PartyState::Collecting, unit: 1 }).ids_unique(),
                r == rescaled_members(ms),
                r.len() == n,
                ms.len() == n,
                bal0 == balances(ms),
                ds == debtors(bal0),
                cs == creditors(bal0),
                avg == avg_units(ms),
                1 <= nu_g <= unit_limit(),
                nu_g == new_unit,
                abs(avg as int) <= limit() * nu_g,
                4 * (limit() * nu_g) < 0x8000_0000_0000_0000_0000_0000_0000_0000,
                forall|k: int|
                    0 <= k < n ==> (#[trigger] r[k]).bounded() && abs(r[k].spent()) <= limit()
                        * nu_g && abs_sum(amounts(r[k].expenses)) <= limit() && r[k].unit == nu_g,
                member_views(members@).len() == n,
                bal.len() == n,
                forall|k: int|
                    0 <= k < n ==> (#[trigger] member_views(members@)[k]).id == r[k].id
                        && member_views(members@)[k].expenses == r[k].expenses
                        && member_views(members@)[k].unit == r[k].unit,
                forall|k: int|
                    0 <= k < n ==> bal[k] == (#[trigger] member_views(members@)[k]).spent() - avg,
                forall|k: int| 0 <= k < n && bal0[k] <= 0 ==> bal0[k] <= #[trigger] bal[k] <= 0,
                forall|k: int| 0 <= k < n && bal0[k] > 0 ==> 0 <= #[trigger] bal[k] <= bal0[k],
                queues_ok(bal, ds.skip(i as int), cs.skip(j as int)),
                settlement(ms).0 == done + settle(bal, ds.skip(i as int), cs.skip(j as int)).0,
                settlement(ms).1 == settle(bal, ds.skip(i as int), cs.skip(j as int)).1,
                transfers@.len() == done.len(),
                forall|t: int|
                    0 <= t < done.len() ==> (#[trigger] transfers@[t]).from_id@ == ms[done[t].0].id
                        && transfers@[t].to_id@ == ms[done[t].1].id && same_value(
                        transfers@[t].amount@,
                        done[t].2,
                        nu_g,
                    ) && transfers@[t].amount@.0 > 0 && lowest_terms(transfers@[t].amount@),
                forall|t: int|
                    0 <= t < done.len() ==> (#[trigger] done[t]).2 > 0 && 0 <= done[t].0 < n && 0
                        <= done[t].1 < n && done[t].0 != done[t].1,
            decreases (debtor_pos.len() - i) + (creditor_pos.len() - j),
        {
            let ghost dq = ds.skip(i as int);
            let ghost cq = cs.skip(j as int);
            let d = debtor_pos[i];
            let c = creditor_pos[j];
            let ghost next = step_balances(bal, dq, cq);
            let ghost dq2 = step_debtors(bal, dq, cq);
            let ghost cq2 = step_creditors(bal, dq, cq);
            proof {
                assert(dq[0] == ds[i as int]);
                assert(cq[0] == cs[j as int]);
                assert(positions(debtor_pos@)[i as int] == d as int);
                assert(positions(creditor_pos@)[j as int] == c as int);
                lemma_step(bal, dq, cq);
                assert(members@[d as int]@ == member_views(members@)[d as int]);
                assert(members@[c as int]@ == member_views(members@)[c as int]);
                assert(bal0[d as int] == spents(r)[d as int] - avg);
                assert(bal0[c as int] == spents(r)[c as int] - avg);
                assert(spents(r)[d as int] == r[d as int].spent());
                assert(spents(r)[c as int] == r[c as int].spent());
                assert(r[d as int].bounded() && r[c as int].bounded());
                lemma_member_in_range(member_views(members@)[d as int]);
                lemma_member_in_range(member_views(members@)[c as int]);
            }
            let debt_balance = members[d].spent_units() - avg;
            let debt = if debt_balance < 0 {
                -debt_balance
            } else {
                debt_balance
            };
            let credit_balance = members[c].spent_units() - avg;
            let credit = if credit_balance < 0 {
                -credit_balance
            } else {
                credit_balance
            };
            let amount = match debt < credit {
                true => debt,
                false => credit,
            };
            assert(amount == step_amount(bal, d as int, c as int));
            let exact = Cents::from_fraction(amount, new_unit);
            proof {
                assert(exact@.0 > 0) by (nonlinear_arith)
                    requires
                        exact@.0 * nu_g == amount * exact@.1,
                        exact@.1 > 0,
                        amount > 0,
                        nu_g > 0,
                ;
            }
            transfers.push(
                Transfer { from_id: members[d].id.clone(), to_id: members[c].id.clone(), amount: exact },
            );
            let ghost before = member_views(members@);
            members[d].add_units(amount);
            members[c].add_units(-amount);
            proof {
                assert(member_views(members@) =~= before.update(
                    d as int,
                    MemberView { to_transfer: before[d as int].to_transfer + amount, ..before[d as int] },
                ).update(
                    c as int,
                    MemberView { to_transfer: before[c as int].to_transfer - amount, ..before[c as int] },
                ));
                assert(members@[d as int]@ == member_views(members@)[d as int]);
                assert(members@[c as int]@ == member_views(members@)[c as int]);
                assert(member_views(members@)[d as int].spent() == before[d as int].spent() + amount);
                assert(member_views(members@)[c as int].spent() == before[c as int].spent() - amount);
                lemma_member_in_range(member_views(members@)[d as int]);
                lemma_member_in_range(member_views(members@)[c as int]);
            }
            let debt_after = members[d].spent_units() - avg;
            let credit_after = members[c].spent_units() - avg;
            proof {
                assert(debt_after == next[d as int]);
                assert(credit_after == next[c as int]);
                let step = (d as int, c as int, amount as int);
                let rest = settle(next, dq2, cq2);
                assert(settle(bal, dq, cq).0 == seq![step] + rest.0);
                assert(done.push(step) + rest.0 =~= done + (seq![step] + rest.0));
                done = done.push(step);
                bal = next;
            }
            if debt_after == 0 {
                i = i + 1;
            }
            if credit_after == 0 {
                j = j + 1;
            }
            proof {
                assert(dq2 =~= ds.skip(i as int));
                assert(cq2 =~= cs.skip(j as int));
                assert forall|k: int| 0 <= k < n implies bal[k] == (#[trigger] member_views(
                    members@,
                )[k]).spent() - avg by {
                    if k != d && k != c {
                        assert(member_views(members@)[k] == before[k]);
                    }
                }
            }
        }
        proof {
            assert(settle(bal, ds.skip(i as int), cs.skip(j as int)).0 =~= Seq::<
                (int, int, int),
            >::empty());
            assert(done + Seq::<(int, int, int)>::empty() =~= done);
            let after = settled_members(ms);
            assert forall|k: int| 0 <= k < n implies (#[trigger] member_views(members@)[k])
                == after[k] by {
                assert(bal0[k] == spents(r)[k] - avg);
                assert(spents(r)[k] == r[k].spent());
            }
            assert(member_views(members@) =~= after);
            assert forall|t: int| 0 <= t < transfers@.len() implies transfers@[t].from_id@
                != transfers@[t].to_id@ by {
                let pv = PartyView { members: ms, state: PartyState::Collecting, unit: 1 };
                assert(pv.members == ms);
                if done[t].0 < done[t].1 {
                    assert(pv.members[done[t].0].id != pv.members[done[t].1].id);
                } else {
                    assert(pv.members[done[t].1].id != pv.members[done[t].0].id);
                }
            }
        }
        transfers
    }

    /// Settles the party exactly: the members who spent less than the
    /// average pay those who spent more, each payment going from the first
    /// member still owing to the first member still owed (in the order in
    /// which they joined) and being the smaller of the two outstanding
    /// amounts. When the total does not divide evenly among the members,
    /// the party first counts a cent in as many parts as it has members,
    /// so that every member ends at exactly the average. The payments are
    /// recorded on the members and returned as exact amounts.
    pub fn evaluate(&mut self) -> (transfers: Vec<Transfer>)
        requires
            old(self)@.can_settle(),
        ensures
            final(self)@ == evaluate_spec(old(self)@),
            final(self).wf(),
            transfers_of(transfers@, old(self)@.members, final(self)@.unit),
            forall|k: int|
                0 <= k < final(self)@.members.len() ==> (#[trigger] final(self)@.members[k]).spent()
                    * (old(self)@.members.len() as int) == total_spent(old(self)@.members)
                    * rescale_factor(old(self)@.members),
            total_spent(final(self)@.members) == total_spent(old(self)@.members) * rescale_factor(
                old(self)@.members,
            ),
    {
        proof {
            use_type_invariant(&*self);
            law_settlement_equalizes(self@.members);
        }
        let ghost ms = self@.members;
        let ghost u = self.unit as int;
        let n = self.members.len();
        if n == 0 {
            assert(settled_members(ms) =~= ms);
            assert(self@ == evaluate_spec(old(self)@));
            return Vec::new();
        }
        let (avg, factor) = self.average_and_factor();
        let ghost f = factor as int;
        let new_unit = self.unit * factor;
        let ghost nu_g = new_unit as int;
        let ghost r = rescaled_members(ms);
        proof {
            lemma_lu_bounds(nu_g);
            assert forall|j: int| 0 <= j < n implies (#[trigger] r[j]).bounded() && abs(r[j].spent())
                <= limit() * nu_g && abs_sum(amounts(r[j].expenses)) <= limit() && r[j].unit
                == nu_g by {
                assert(r[j] == ms[j].rescaled(f));
                lemma_member_bounded(old(self)@, j);
                assert(abs(r[j].spent()) <= limit() * nu_g) by (nonlinear_arith)
                    requires
                        r[j].spent() == f * ms[j].spent(),
                        abs(ms[j].spent()) <= limit() * u,
                        f >= 1,
                        nu_g == u * f,
                        limit() >= 0,
                ;
                assert(abs(r[j].to_transfer) <= 2 * limit() * nu_g) by (nonlinear_arith)
                    requires
                        r[j].to_transfer == ms[j].to_transfer * f,
                        abs(ms[j].to_transfer) <= 2 * limit() * u,
                        f >= 1,
                        nu_g == u * f,
                        limit() >= 0,
                ;
            }
            assert(nu_g / f == u) by (nonlinear_arith)
                requires
                    nu_g == u * f,
                    f >= 1,
            ;
        }
        let mut members: Vec<PartyMember> = Vec::new();
        std::mem::swap(&mut members, &mut self.members);
        Self::rescale_members(&mut members, factor, Ghost(old(self)@));
        let transfers = Self::pay_off(&mut members, avg, new_unit, Ghost(ms));
        proof {
            let after = settled_members(ms);
            assert forall|a: int, b: int| 0 <= a < b < n implies after[a].id != after[b].id by {
                assert(after[a].id == ms[a].id);
                assert(after[b].id == ms[b].id);
            }
            assert forall|k: int| 0 <= k < n implies (#[trigger] after[k]).unit == nu_g && abs_sum(
                amounts(after[k].expenses),
            ) <= limit() && abs(after[k].spent()) <= limit() * nu_g by {
                assert(after[k].spent() == avg);
            }
            assert(settlement_transfers(ms).len() == settlement(ms).0.len());
        }
        self.unit = new_unit;
        self.members = members;
        transfers
    }
}

} // verus!
