use vstd::prelude::*;

verus! {

use crate::common::{ClientId, PaymentCommand, TransactionId};
use crate::engine::{
    client_or_zero, dispute_applies, settle_applies, step, step_chargeback, step_dispute,
    step_resolve, run_seq, ClientModel, EngineModel, TransactionStatus,
};
use crate::error::EngineError;
use vstd::set::fold::{is_fun_commutative, lemma_fold_empty, lemma_fold_insert};

/// What one client contributes to the ledger's total funds: its available
/// plus held balance (zero for a client that was never referenced).
pub open spec fn funds_of(clients: Map<ClientId, ClientModel>, c: ClientId) -> int {
    client_or_zero(clients, c).available + client_or_zero(clients, c).held
}

/// The summand function of [`total_funds`], as a fold step.
pub open spec fn funds_step(clients: Map<ClientId, ClientModel>) -> spec_fn(int, ClientId) -> int {
    |acc: int, c: ClientId| acc + funds_of(clients, c)
}

/// The sum of `available + held` over every client of the ledger.
pub open spec fn total_funds(m: EngineModel) -> int {
    m.clients.dom().fold(0, funds_step(m.clients))
}

/// Whether a withdrawal command for `client` over `amount` passes the
/// eligibility guard and actually moves money.
pub open spec fn withdrawal_applies(m: EngineModel, client: ClientId, amount: int) -> bool {
    &&& m.clients.contains_key(client)
    &&& !(!m.clients[client].locked && m.clients[client].available < amount)
}

/// A command sequence that holds only deposits and withdrawals, i.e. no
/// dispute, resolve or chargeback.
pub open spec fn only_money_moves(cmds: Seq<PaymentCommand>) -> bool {
    forall|i: int|
        0 <= i < cmds.len() ==> (cmds[i] is Deposit || cmds[i] is Withdrawal)
}

/// The sum of the amounts of all deposit commands of the sequence.
pub open spec fn deposits_sum(cmds: Seq<PaymentCommand>) -> int
    decreases cmds.len(),
{
    if cmds.len() == 0 {
        0
    } else {
        (match cmds[0] {
            PaymentCommand::Deposit { client, tx, amount } => amount as int,
            _ => 0,
        }) + deposits_sum(cmds.drop_first())
    }
}

/// The sum of the amounts of the withdrawal commands that are accepted
/// (pass the eligibility guard) when the sequence is replayed from `m`.
pub open spec fn accepted_withdrawals_sum(m: EngineModel, cmds: Seq<PaymentCommand>) -> int
    decreases cmds.len(),
{
    if cmds.len() == 0 {
        0
    } else {
        let w = match cmds[0] {
            PaymentCommand::Withdrawal { client, tx, amount } => if withdrawal_applies(
                m,
                client,
                amount as int,
            ) {
                amount as int
            } else {
                0
            },
            _ => 0,
        };
        match step(m, cmds[0]) {
            Ok(m1) => w + accepted_withdrawals_sum(m1, cmds.drop_first()),
            Err(e) => w,
        }
    }
}

proof fn lemma_fold_pointwise<A>(
    s: Set<A>,
    z: int,
    f1: spec_fn(int, A) -> int,
    f2: spec_fn(int, A) -> int,
)
    requires
        s.finite(),
        is_fun_commutative(f1),
        is_fun_commutative(f2),
        forall|b: int, a: A| s.contains(a) ==> #[trigger] f1(b, a) == #[trigger] f2(b, a),
    ensures
        s.fold(z, f1) == s.fold(z, f2),
    decreases s.len(),
{
    if s.len() == 0 {
        assert(s =~= Set::<A>::empty());
        lemma_fold_empty(z, f1);
        lemma_fold_empty(z, f2);
    } else {
        let a = s.choose();
        assert(s.contains(a));
        let s0 = s.remove(a);
        lemma_fold_pointwise(s0, z, f1, f2);
        assert(s0.insert(a) =~= s);
        lemma_fold_insert(s0, z, f1, a);
        lemma_fold_insert(s0, z, f2, a);
    }
}

proof fn lemma_funds_step_commutative(clients: Map<ClientId, ClientModel>)
    ensures
        is_fun_commutative(funds_step(clients)),
{
    let f = funds_step(clients);
    assert forall|a1: ClientId, a2: ClientId, b: int| #[trigger]
        f(f(b, a2), a1) == f(f(b, a1), a2) by {}
}

/// Inserting a client record changes the total funds by the difference
/// between the new record's funds and the old (or zero) record's funds.
proof fn lemma_total_funds_insert(m: EngineModel, k: ClientId, v: ClientModel)
    requires
        m.clients.dom().finite(),
    ensures
        ({
            let m2 = EngineModel { clients: m.clients.insert(k, v), ..m };
            total_funds(m2) == total_funds(m) - funds_of(m.clients, k) + (v.available + v.held)
        }),
{
    let clients2 = m.clients.insert(k, v);
    let m2 = EngineModel { clients: clients2, ..m };
    let f1 = funds_step(m.clients);
    let f2 = funds_step(clients2);
    lemma_funds_step_commutative(m.clients);
    lemma_funds_step_commutative(clients2);
    if m.clients.dom().contains(k) {
        let s0 = m.clients.dom().remove(k);
        assert(s0.insert(k) =~= m.clients.dom());
        assert(clients2.dom() =~= s0.insert(k));
        assert forall|b: int, a: ClientId| s0.contains(a) implies #[trigger] f1(b, a)
            == #[trigger] f2(b, a) by {
            assert(client_or_zero(clients2, a) == client_or_zero(m.clients, a));
        }
        lemma_fold_pointwise(s0, 0, f1, f2);
        lemma_fold_insert(s0, 0, f1, k);
        lemma_fold_insert(s0, 0, f2, k);
        assert(total_funds(m) == s0.fold(0, f1) + funds_of(m.clients, k));
        assert(total_funds(m2) == s0.fold(0, f2) + funds_of(clients2, k));
        assert(funds_of(clients2, k) == v.available + v.held);
    } else {
        let s0 = m.clients.dom();
        assert(clients2.dom() =~= s0.insert(k));
        assert forall|b: int, a: ClientId| s0.contains(a) implies #[trigger] f1(b, a)
            == #[trigger] f2(b, a) by {
            assert(client_or_zero(clients2, a) == client_or_zero(m.clients, a));
        }
        lemma_fold_pointwise(s0, 0, f1, f2);
        lemma_fold_insert(s0, 0, f2, k);
        assert(total_funds(m2) == s0.fold(0, f2) + funds_of(clients2, k));
        assert(funds_of(m.clients, k) == 0);
        assert(funds_of(clients2, k) == v.available + v.held);
    }
}

/// One deposit or withdrawal changes the total funds by exactly its flow:
/// `+amount` for a deposit, `-amount` for an accepted withdrawal, nothing
/// for a withdrawal that no-ops.
proof fn lemma_step_flow(m: EngineModel, cmd: PaymentCommand)
    requires
        m.clients.dom().finite(),
        cmd is Deposit || cmd is Withdrawal,
    ensures
        step(m, cmd) is Ok,
        step(m, cmd)->Ok_0.clients.dom().finite(),
        total_funds(step(m, cmd)->Ok_0) == total_funds(m) + (match cmd {
            PaymentCommand::Deposit { client, tx, amount } => amount as int,
            PaymentCommand::Withdrawal { client, tx, amount } => if withdrawal_applies(
                m,
                client,
                amount as int,
            ) {
                -(amount as int)
            } else {
                0
            },
            _ => 0,
        }),
{
    match cmd {
        PaymentCommand::Deposit { client, tx, amount } => {
            let cd = client_or_zero(m.clients, client);
            lemma_total_funds_insert(
                m,
                client,
                ClientModel { available: cd.available + amount, ..cd },
            );
            let m1 = step(m, cmd)->Ok_0;
            assert(total_funds(m1) == total_funds(
                EngineModel { clients: m1.clients, ..m },
            )) by {
                assert(m1.clients == EngineModel { clients: m1.clients, ..m }.clients);
            }
        },
        PaymentCommand::Withdrawal { client, tx, amount } => {
            if !m.clients.contains_key(client) {
                lemma_total_funds_insert(m, client, crate::engine::zero_client());
                let m1 = step(m, cmd)->Ok_0;
                assert(total_funds(m1) == total_funds(
                    EngineModel { clients: m1.clients, ..m },
                )) by {
                    assert(m1.clients == EngineModel { clients: m1.clients, ..m }.clients);
                }
            } else if withdrawal_applies(m, client, amount as int) {
                let cd = m.clients[client];
                lemma_total_funds_insert(
                    m,
                    client,
                    ClientModel { available: cd.available - amount, ..cd },
                );
                let m1 = step(m, cmd)->Ok_0;
                assert(total_funds(m1) == total_funds(
                    EngineModel { clients: m1.clients, ..m },
                )) by {
                    assert(m1.clients == EngineModel { clients: m1.clients, ..m }.clients);
                }
            }
        },
        _ => {},
    }
}

/// Money conservation: replaying a command sequence that holds no dispute,
/// resolve or chargeback never fails, and the sum of every client's total
/// (available plus held) changes by exactly the sum of all deposit amounts
/// minus the sum of the accepted withdrawal amounts.
pub proof fn lemma_money_conservation(m: EngineModel, cmds: Seq<PaymentCommand>)
    requires
        m.clients.dom().finite(),
        only_money_moves(cmds),
    ensures
        run_seq(m, cmds) is Ok,
        total_funds(run_seq(m, cmds)->Ok_0) == total_funds(m) + deposits_sum(cmds)
            - accepted_withdrawals_sum(m, cmds),
    decreases cmds.len(),
{
    if cmds.len() == 0 {
    } else {
        assert(cmds[0] is Deposit || cmds[0] is Withdrawal);
        lemma_step_flow(m, cmds[0]);
        let m1 = step(m, cmds[0])->Ok_0;
        assert(only_money_moves(cmds.drop_first())) by {
            assert forall|i: int|
                0 <= i < cmds.drop_first().len() implies (cmds.drop_first()[i] is Deposit
                || cmds.drop_first()[i] is Withdrawal) by {
                assert(cmds.drop_first()[i] == cmds[i + 1]);
            }
        }
        lemma_money_conservation(m1, cmds.drop_first());
    }
}

/// Dispute/resolve round-trip: for a disputable transaction, disputing and
/// then resolving it returns every client's available, held and locked
/// state to exactly what it was before the dispute.
pub proof fn lemma_dispute_resolve_round_trip(m: EngineModel, client: ClientId, tx: TransactionId)
    requires
        dispute_applies(m, client, tx),
    ensures
        step_dispute(m, client, tx) is Ok,
        step_resolve(step_dispute(m, client, tx)->Ok_0, client, tx) is Ok,
        ({
            let m2 = step_resolve(step_dispute(m, client, tx)->Ok_0, client, tx)->Ok_0;
            forall|c: ClientId|
                #![auto]
                client_or_zero(m2.clients, c) == client_or_zero(m.clients, c)
        }),
{
    let m1 = step_dispute(m, client, tx)->Ok_0;
    let m2 = step_resolve(m1, client, tx)->Ok_0;
    assert forall|c: ClientId| #![auto]
        client_or_zero(m2.clients, c) == client_or_zero(m.clients, c) by {
        if c == client {
            assert(client_or_zero(m2.clients, c) =~= client_or_zero(m.clients, c));
        }
    }
}

/// A successful chargeback locks the owning client's account.
pub proof fn lemma_chargeback_locks(m: EngineModel, client: ClientId, tx: TransactionId)
    requires
        settle_applies(m, client, tx),
    ensures
        step_chargeback(m, client, tx) is Ok,
        client_or_zero(step_chargeback(m, client, tx)->Ok_0.clients, client).locked,
{
}

/// No single command unlocks an account: whatever command is applied, a
/// locked client stays locked.
pub proof fn lemma_locked_is_permanent_step(m: EngineModel, cmd: PaymentCommand, c: ClientId)
    requires
        client_or_zero(m.clients, c).locked,
        step(m, cmd) is Ok,
    ensures
        client_or_zero(step(m, cmd)->Ok_0.clients, c).locked,
{
}

/// A chargeback freezes the account for the rest of the run: a locked
/// client is still locked after any further command sequence is replayed
/// (and since every prefix of a run is a run, at every point in between).
pub proof fn lemma_locked_stays_locked(m: EngineModel, cmds: Seq<PaymentCommand>, c: ClientId)
    requires
        client_or_zero(m.clients, c).locked,
        run_seq(m, cmds) is Ok,
    ensures
        client_or_zero(run_seq(m, cmds)->Ok_0.clients, c).locked,
    decreases cmds.len(),
{
    if cmds.len() == 0 {
    } else {
        match step(m, cmds[0]) {
            Ok(m1) => {
                lemma_locked_is_permanent_step(m, cmds[0], c);
                lemma_locked_stays_locked(m1, cmds.drop_first(), c);
            },
            Err(e) => {},
        }
    }
}

/// Chargeback freezes exactly once: a successful chargeback locks the
/// owning client, and the lock survives any sequence of further commands
/// that the run applies after it.
pub proof fn lemma_chargeback_freezes_run(
    m: EngineModel,
    client: ClientId,
    tx: TransactionId,
    rest: Seq<PaymentCommand>,
)
    requires
        settle_applies(m, client, tx),
        run_seq(step_chargeback(m, client, tx)->Ok_0, rest) is Ok,
    ensures
        step_chargeback(m, client, tx) is Ok,
        client_or_zero(
            run_seq(step_chargeback(m, client, tx)->Ok_0, rest)->Ok_0.clients,
            client,
        ).locked,
{
    lemma_chargeback_locks(m, client, tx);
    lemma_locked_stays_locked(step_chargeback(m, client, tx)->Ok_0, rest, client);
}

/// No double-hold: disputing a transaction that is already disputed is a
/// complete no-op; in particular it neither decreases available nor
/// increases held funds again.
pub proof fn lemma_no_double_hold(m: EngineModel, client: ClientId, tx: TransactionId)
    requires
        m.transactions.contains_key(tx),
        m.transactions[tx].status == TransactionStatus::Disputed,
    ensures
        step_dispute(m, client, tx) == Ok::<EngineModel, EngineError>(m),
{
}

/// Idempotent no-ops: a resolve or chargeback that references a transaction
/// that is absent or not currently disputed returns success and changes no
/// balance and no status.
pub proof fn lemma_settle_noop(m: EngineModel, client: ClientId, tx: TransactionId)
    requires
        !m.transactions.contains_key(tx) || m.transactions[tx].status
            != TransactionStatus::Disputed,
    ensures
        step_resolve(m, client, tx) == Ok::<EngineModel, EngineError>(m),
        step_chargeback(m, client, tx) == Ok::<EngineModel, EngineError>(m),
{
}

} // verus!
