use vstd::prelude::*;

use std::collections::HashMap;

verus! {

broadcast use vstd::std_specs::hash::group_hash_axioms;

use crate::common::{ClientId, PaymentCommand, TransactionId};
use crate::error::{EngineError, RuntimeError};

/// Balance record of one client account. `available` and `held` are
/// fixed-point amounts in ten-thousandths of a currency unit; the total is
/// never stored, always computed as their sum.
#[derive(Debug, Clone, Copy, PartialEq, Eq, Structural)]
pub struct ClientData {
    pub available: i64,
    pub held: i64,
    pub locked: bool,
}

/// Mathematical value of a [`ClientData`]: the same record over unbounded
/// integers.
#[verifier::ext_equal]
pub struct ClientModel {
    pub available: int,
    pub held: int,
    pub locked: bool,
}

impl View for ClientData {
    type V = ClientModel;

    open spec fn view(&self) -> ClientModel {
        ClientModel {
            available: self.available as int,
            held: self.held as int,
            locked: self.locked,
        }
    }
}

/// Dispute lifecycle status of a transaction.
#[derive(Debug, Clone, Copy, PartialEq, Eq, Structural)]
pub enum TransactionStatus {
    Normal,
    Disputed,
    Resolved,
    Chargebacked,
}

/// Record of a deposit or withdrawal. `amount` is the signed ledger effect,
/// not a magnitude: positive for a deposit, negative for a withdrawal, so
/// the dispute arithmetic is one formula for both.
#[derive(Debug, Clone, Copy, PartialEq, Eq, Structural)]
pub struct TransactionData {
    pub client: ClientId,
    pub amount: i64,
    pub status: TransactionStatus,
}

/// Mathematical value of a [`TransactionData`].
#[verifier::ext_equal]
pub struct TxModel {
    pub client: ClientId,
    pub amount: int,
    pub status: TransactionStatus,
}

impl View for TransactionData {
    type V = TxModel;

    open spec fn view(&self) -> TxModel {
        TxModel { client: self.client, amount: self.amount as int, status: self.status }
    }
}

/// Mathematical state of the whole engine: the client ledger and the
/// transaction log, as maps.
#[verifier::ext_equal]
pub struct EngineModel {
    pub clients: Map<ClientId, ClientModel>,
    pub transactions: Map<TransactionId, TxModel>,
}

/// The model of a freshly created engine: both maps empty.
pub open spec fn empty_model() -> EngineModel {
    EngineModel { clients: Map::empty(), transactions: Map::empty() }
}

/// The all-zero balance record a client starts with.
pub open spec fn zero_client() -> ClientModel {
    ClientModel { available: 0, held: 0, locked: false }
}

/// The balance record of `c`, or the all-zero record if `c` has never been
/// referenced. This mirrors the ledger's lazy get-or-create lookup.
pub open spec fn client_or_zero(clients: Map<ClientId, ClientModel>, c: ClientId) -> ClientModel {
    if clients.contains_key(c) {
        clients[c]
    } else {
        zero_client()
    }
}

/// Whether `x` is representable as an `i64`.
pub open spec fn fits_i64(x: int) -> bool {
    i64::MIN <= x <= i64::MAX
}

/// Effect of a deposit: the transaction record is created or overwritten
/// unconditionally and `amount` is added to the client's available funds.
pub open spec fn step_deposit(m: EngineModel, client: ClientId, tx: TransactionId, amount: int) -> EngineModel {
    let cd = client_or_zero(m.clients, client);
    EngineModel {
        clients: m.clients.insert(
            client,
            ClientModel { available: cd.available + amount, ..cd },
        ),
        transactions: m.transactions.insert(
            tx,
            TxModel { client, amount, status: TransactionStatus::Normal },
        ),
    }
}

/// Effect of a withdrawal. The eligibility lookup creates the client record
/// if absent; a client that did not yet exist, or an unlocked client with
/// insufficient available funds, makes the command a silent no-op. The exact
/// guard `!locked && available < amount` is a deliberate part of the
/// behaviour: a locked account is not stopped by it. On success the
/// transaction record stores the amount negated.
pub open spec fn step_withdrawal(m: EngineModel, client: ClientId, tx: TransactionId, amount: int) -> EngineModel {
    if !m.clients.contains_key(client) {
        EngineModel { clients: m.clients.insert(client, zero_client()), ..m }
    } else {
        let cd = m.clients[client];
        if !cd.locked && cd.available < amount {
            m
        } else {
            EngineModel {
                clients: m.clients.insert(
                    client,
                    ClientModel { available: cd.available - amount, ..cd },
                ),
                transactions: m.transactions.insert(
                    tx,
                    TxModel { client, amount: -amount, status: TransactionStatus::Normal },
                ),
            }
        }
    }
}

/// A dispute applies when the transaction exists, is not already disputed,
/// and is owned by the claiming client.
pub open spec fn dispute_applies(m: EngineModel, client: ClientId, tx: TransactionId) -> bool {
    &&& m.transactions.contains_key(tx)
    &&& m.transactions[tx].status != TransactionStatus::Disputed
    &&& m.transactions[tx].client == client
}

/// Effect of a dispute: an absent or already-disputed transaction is a
/// silent no-op; a wrong claimed owner is the mismatch error; otherwise the
/// transaction's amount moves from available to held and the status becomes
/// `Disputed`.
pub open spec fn step_dispute(m: EngineModel, client: ClientId, tx: TransactionId) -> Result<EngineModel, EngineError> {
    if !m.transactions.contains_key(tx) {
        Ok(m)
    } else {
        let td = m.transactions[tx];
        if td.status == TransactionStatus::Disputed {
            Ok(m)
        } else if td.client != client {
            Err(EngineError::ClientIdMismatch(client, td.client))
        } else {
            let cd = client_or_zero(m.clients, client);
            Ok(EngineModel {
                clients: m.clients.insert(
                    client,
                    ClientModel {
                        available: cd.available - td.amount,
                        held: cd.held + td.amount,
                        locked: cd.locked,
                    },
                ),
                transactions: m.transactions.insert(
                    tx,
                    TxModel { status: TransactionStatus::Disputed, ..td },
                ),
            })
        }
    }
}

/// A resolve or chargeback applies when the transaction exists, is currently
/// disputed, and is owned by the claiming client.
pub open spec fn settle_applies(m: EngineModel, client: ClientId, tx: TransactionId) -> bool {
    &&& m.transactions.contains_key(tx)
    &&& m.transactions[tx].status == TransactionStatus::Disputed
    &&& m.transactions[tx].client == client
}

/// Effect of a resolve: the exact inverse of the dispute transfer, with the
/// status moving to `Resolved`. Absent or non-disputed transactions are
/// silent no-ops.
pub open spec fn step_resolve(m: EngineModel, client: ClientId, tx: TransactionId) -> Result<EngineModel, EngineError> {
    if !m.transactions.contains_key(tx) {
        Ok(m)
    } else {
        let td = m.transactions[tx];
        if td.status != TransactionStatus::Disputed {
            Ok(m)
        } else if td.client != client {
            Err(EngineError::ClientIdMismatch(client, td.client))
        } else {
            let cd = client_or_zero(m.clients, client);
            Ok(EngineModel {
                clients: m.clients.insert(
                    client,
                    ClientModel {
                        available: cd.available + td.amount,
                        held: cd.held - td.amount,
                        locked: cd.locked,
                    },
                ),
                transactions: m.transactions.insert(
                    tx,
                    TxModel { status: TransactionStatus::Resolved, ..td },
                ),
            })
        }
    }
}

/// Effect of a chargeback: the held funds leave the ledger, the account is
/// locked permanently, and the status moves to `Chargebacked`. Available
/// funds are untouched. Absent or non-disputed transactions are silent
/// no-ops.
pub open spec fn step_chargeback(m: EngineModel, client: ClientId, tx: TransactionId) -> Result<EngineModel, EngineError> {
    if !m.transactions.contains_key(tx) {
        Ok(m)
    } else {
        let td = m.transactions[tx];
        if td.status != TransactionStatus::Disputed {
            Ok(m)
        } else if td.client != client {
            Err(EngineError::ClientIdMismatch(client, td.client))
        } else {
            let cd = client_or_zero(m.clients, client);
            Ok(EngineModel {
                clients: m.clients.insert(
                    client,
                    ClientModel {
                        available: cd.available,
                        held: cd.held - td.amount,
                        locked: true,
                    },
                ),
                transactions: m.transactions.insert(
                    tx,
                    TxModel { status: TransactionStatus::Chargebacked, ..td },
                ),
            })
        }
    }
}

/// The transition relation of the ledger: what one command does to the
/// engine state, or the single consistency error it can raise. This is the
/// specification [`PaymentsEngine::run_command`] is proved against.
pub open spec fn step(m: EngineModel, cmd: PaymentCommand) -> Result<EngineModel, EngineError> {
    match cmd {
        PaymentCommand::Deposit { client, tx, amount } => Ok(
            step_deposit(m, client, tx, amount as int),
        ),
        PaymentCommand::Withdrawal { client, tx, amount } => Ok(
            step_withdrawal(m, client, tx, amount as int),
        ),
        PaymentCommand::Dispute { client, tx } => step_dispute(m, client, tx),
        PaymentCommand::Resolve { client, tx } => step_resolve(m, client, tx),
        PaymentCommand::Chargeback { client, tx } => step_chargeback(m, client, tx),
    }
}

/// The machine-limit side condition of one command: every balance the
/// command writes must be representable as an `i64`. This holds of any run
/// whose amounts stay within realistic bounds; it is forced by the fixed
/// width of the balance fields, not by the ledger rules.
pub open spec fn cmd_fits(m: EngineModel, cmd: PaymentCommand) -> bool {
    match cmd {
        PaymentCommand::Deposit { client, tx, amount } => fits_i64(
            client_or_zero(m.clients, client).available + amount,
        ),
        PaymentCommand::Withdrawal { client, tx, amount } => {
            let applies = m.clients.contains_key(client) && {
                let cd = m.clients[client];
                !(!cd.locked && cd.available < amount)
            };
            applies ==> {
                let cd = m.clients[client];
                fits_i64(cd.available - amount) && fits_i64(-(amount as int))
            }
        },
        PaymentCommand::Dispute { client, tx } => dispute_applies(m, client, tx) ==> {
            let td = m.transactions[tx];
            let cd = client_or_zero(m.clients, client);
            fits_i64(cd.available - td.amount) && fits_i64(cd.held + td.amount)
        },
        PaymentCommand::Resolve { client, tx } => settle_applies(m, client, tx) ==> {
            let td = m.transactions[tx];
            let cd = client_or_zero(m.clients, client);
            fits_i64(cd.available + td.amount) && fits_i64(cd.held - td.amount)
        },
        PaymentCommand::Chargeback { client, tx } => settle_applies(m, client, tx) ==> {
            let td = m.transactions[tx];
            let cd = client_or_zero(m.clients, client);
            fits_i64(cd.held - td.amount)
        },
    }
}

/// Replaying a whole command sequence: the final model, or the 0-based index
/// of the first failing command with its error. Commands strictly before a
/// failing one are applied; the failing one changes nothing.
pub open spec fn run_seq(m: EngineModel, cmds: Seq<PaymentCommand>) -> Result<EngineModel, (int, EngineError)>
    decreases cmds.len(),
{
    if cmds.len() == 0 {
        Ok(m)
    } else {
        match step(m, cmds[0]) {
            Ok(m1) => match run_seq(m1, cmds.drop_first()) {
                Ok(m2) => Ok(m2),
                Err((i, e)) => Err((i + 1, e)),
            },
            Err(e) => Err((0, e)),
        }
    }
}

/// The machine-limit side condition of a whole sequence: every command of
/// the run satisfies [`cmd_fits`] in the state it is applied to.
pub open spec fn seq_fits(m: EngineModel, cmds: Seq<PaymentCommand>) -> bool
    decreases cmds.len(),
{
    cmds.len() == 0 || (cmd_fits(m, cmds[0]) && match step(m, cmds[0]) {
        Ok(m1) => seq_fits(m1, cmds.drop_first()),
        Err(e) => true,
    })
}

proof fn lemma_map_values_insert<K, V, W>(m: Map<K, V>, f: spec_fn(V) -> W, k: K, v: V)
    ensures
        m.insert(k, v).map_values(f) == m.map_values(f).insert(k, f(v)),
{
    assert(m.insert(k, v).map_values(f) =~= m.map_values(f).insert(k, f(v)));
}

proof fn lemma_map_values_contains<K, V, W>(m: Map<K, V>, f: spec_fn(V) -> W, k: K)
    ensures
        m.map_values(f).contains_key(k) <==> m.contains_key(k),
{
}

/// The payments engine: the client ledger and the transaction log, together
/// with the order in which clients were first referenced (used only to hand
/// out a deterministic snapshot).
pub struct PaymentsEngine {
    clients: HashMap<ClientId, ClientData>,
    transactions: HashMap<TransactionId, TransactionData>,
    client_order: Vec<ClientId>,
}

impl View for PaymentsEngine {
    type V = EngineModel;

    closed spec fn view(&self) -> EngineModel {
        EngineModel {
            clients: self.clients@.map_values(|c: ClientData| c@),
            transactions: self.transactions@.map_values(|t: TransactionData| t@),
        }
    }
}

impl PaymentsEngine {
    /// Internal well-formedness: `client_order` lists exactly the clients of
    /// the ledger, each once, in order of first reference.
    pub closed spec fn wf(&self) -> bool {
        &&& self.client_order@.no_duplicates()
        &&& forall|c: ClientId|
            #![auto]
            self.clients@.contains_key(c) <==> self.client_order@.contains(c)
    }

    /// A fresh engine: no clients, no transactions.
    pub fn new() -> (e: Self)
        ensures
            e@ == empty_model(),
            e.wf(),
    {
        let e = PaymentsEngine {
            clients: HashMap::new(),
            transactions: HashMap::new(),
            client_order: Vec::new(),
        };
        proof {
            assert(e@.clients =~= empty_model().clients);
            assert(e@.transactions =~= empty_model().transactions);
            assert(e@ =~= empty_model());
        }
        e
    }

    /// Looks up a client's balance record, inserting the all-zero record
    /// first if the client was never referenced, and returns a copy of it.
    /// (The record itself lives in the ledger; mutations go through
    /// [`Self::run_command`].)
    pub fn get_client_mut(&mut self, client: ClientId) -> (r: ClientData)
        requires
            old(self).wf(),
        ensures
            final(self).wf(),
            r@ == client_or_zero(old(self)@.clients, client),
            final(self)@.clients == old(self)@.clients.insert(client, r@),
            final(self)@.transactions == old(self)@.transactions,
    {
        if !self.clients.contains_key(&client) {
            let zero = ClientData { available: 0, held: 0, locked: false };
            self.clients.insert(client, zero);
            self.client_order.push(client);
            proof {
                lemma_map_values_insert(
                    old(self).clients@,
                    |c: ClientData| c@,
                    client,
                    zero,
                );
                let ghost ord0 = old(self).client_order@;
                let ghost ord1 = self.client_order@;
                assert(ord1 =~= ord0.push(client));
                assert forall|c: ClientId|
                    self.clients@.contains_key(c) <==> #[trigger] ord1.contains(c) by {
                    if c == client {
                        assert(ord1[ord1.len() - 1] == client);
                    } else {
                        if ord0.contains(c) {
                            let i = choose|i: int| 0 <= i < ord0.len() && ord0[i] == c;
                            assert(ord1[i] == c);
                        } else if ord1.contains(c) {
                            let i = choose|i: int| 0 <= i < ord1.len() && ord1[i] == c;
                            assert(ord0[i] == c);
                        }
                    }
                }
                assert(ord1.no_duplicates()) by {
                    assert forall|i: int, j: int|
                        0 <= i < ord1.len() && 0 <= j < ord1.len() && i != j implies ord1[i]
                        != ord1[j] by {
                        if i == ord1.len() - 1 && j < ord1.len() - 1 {
                            assert(ord0[j] == ord1[j]);
                            assert(ord0.contains(ord0[j]));
                        } else if j == ord1.len() - 1 && i < ord1.len() - 1 {
                            assert(ord0[i] == ord1[i]);
                            assert(ord0.contains(ord0[i]));
                        }
                    }
                }
            }
            zero
        } else {
            let r = *self.clients.get(&client).unwrap();
            proof {
                assert(self@.clients =~= old(self)@.clients.insert(client, r@));
            }
            r
        }
    }

    /// Applies one command to the ledger: exactly the transition relation
    /// [`step`], including the silent-no-op policy and the single
    /// `ClientIdMismatch` error, which leaves the state unchanged.
    pub fn run_command(&mut self, command: PaymentCommand) -> (r: Result<(), EngineError>)
        requires
            old(self).wf(),
            cmd_fits(old(self)@, command),
        ensures
            final(self).wf(),
            match step(old(self)@, command) {
                Ok(m1) => r == Ok::<(), EngineError>(()) && final(self)@ == m1,
                Err(e) => r == Err::<(), EngineError>(e) && final(self)@ == old(self)@,
            },
    {
        let ghost m0 = self@;
        match command {
            PaymentCommand::Deposit { client, tx, amount } => {
                let transaction = TransactionData {
                    client,
                    amount,
                    status: TransactionStatus::Normal,
                };
                self.transactions.insert(tx, transaction);
                proof {
                    lemma_map_values_insert(
                        old(self).transactions@,
                        |t: TransactionData| t@,
                        tx,
                        transaction,
                    );
                }
                let cd = self.get_client_mut(client);
                let ncd = ClientData {
                    available: cd.available + amount,
                    held: cd.held,
                    locked: cd.locked,
                };
                let ghost pre = self.clients@;
                self.clients.insert(client, ncd);
                proof {
                    lemma_map_values_insert(pre, |c: ClientData| c@, client, ncd);
                    assert(self@.clients =~= step_deposit(m0, client, tx, amount as int).clients);
                    assert(self@ =~~= step_deposit(m0, client, tx, amount as int));
                    lemma_map_values_contains(pre, |c: ClientData| c@, client);
                    assert(pre.contains_key(client));
                    assert forall|c: ClientId|
                        self.clients@.contains_key(c) <==> #[trigger] self.client_order@.contains(
                            c,
                        ) by {}
                }
                Ok(())
            },
            PaymentCommand::Withdrawal { client, tx, amount } => {
                let existed = self.clients.contains_key(&client);
                let cd = self.get_client_mut(client);
                if !existed {
                    proof {
                        assert(self@.clients =~= step_withdrawal(
                            m0,
                            client,
                            tx,
                            amount as int,
                        ).clients);
                        assert(self@ =~~= step_withdrawal(m0, client, tx, amount as int));
                    }
                    return Ok(());
                }
                if !cd.locked && cd.available < amount {
                    proof {
                        assert(self@.clients =~= m0.clients);
                        assert(self@ =~~= m0);
                    }
                    return Ok(());
                }
                let ncd = ClientData {
                    available: cd.available - amount,
                    held: cd.held,
                    locked: cd.locked,
                };
                let ghost pre = self.clients@;
                self.clients.insert(client, ncd);
                let transaction = TransactionData {
                    client,
                    amount: -amount,
                    status: TransactionStatus::Normal,
                };
                let ghost pret = self.transactions@;
                self.transactions.insert(tx, transaction);
                proof {
                    lemma_map_values_insert(pre, |c: ClientData| c@, client, ncd);
                    lemma_map_values_insert(pret, |t: TransactionData| t@, tx, transaction);
                    assert(self@.clients =~= step_withdrawal(
                        m0,
                        client,
                        tx,
                        amount as int,
                    ).clients);
                    assert(self@.transactions =~= step_withdrawal(
                        m0,
                        client,
                        tx,
                        amount as int,
                    ).transactions);
                    assert(self@ =~~= step_withdrawal(m0, client, tx, amount as int));
                    lemma_map_values_contains(pre, |c: ClientData| c@, client);
                    assert(pre.contains_key(client));
                    assert forall|c: ClientId|
                        self.clients@.contains_key(c) <==> #[trigger] self.client_order@.contains(
                            c,
                        ) by {}
                }
                Ok(())
            },
            PaymentCommand::Dispute { client, tx } => {
                let td = match self.transactions.get(&tx) {
                    None => {
                        return Ok(());
                    },
                    Some(td0) => *td0,
                };
                if td.status == TransactionStatus::Disputed {
                    return Ok(());
                }
                if td.client != client {
                    return Err(EngineError::ClientIdMismatch(client, td.client));
                }
                let ntd = TransactionData {
                    client: td.client,
                    amount: td.amount,
                    status: TransactionStatus::Disputed,
                };
                let ghost pret = self.transactions@;
                self.transactions.insert(tx, ntd);
                proof {
                    lemma_map_values_insert(pret, |t: TransactionData| t@, tx, ntd);
                }
                let cd = self.get_client_mut(client);
                let ncd = ClientData {
                    available: cd.available - td.amount,
                    held: cd.held + td.amount,
                    locked: cd.locked,
                };
                let ghost pre = self.clients@;
                self.clients.insert(client, ncd);
                proof {
                    lemma_map_values_insert(pre, |c: ClientData| c@, client, ncd);
                    assert(self@.clients =~= step_dispute(m0, client, tx)->Ok_0.clients);
                    assert(self@ =~~= step_dispute(m0, client, tx)->Ok_0);
                    lemma_map_values_contains(pre, |c: ClientData| c@, client);
                    assert(pre.contains_key(client));
                    assert forall|c: ClientId|
                        self.clients@.contains_key(c) <==> #[trigger] self.client_order@.contains(
                            c,
                        ) by {}
                }
                Ok(())
            },
            PaymentCommand::Resolve { client, tx } => {
                let td = match self.transactions.get(&tx) {
                    None => {
                        return Ok(());
                    },
                    Some(td0) => *td0,
                };
                if td.status != TransactionStatus::Disputed {
                    return Ok(());
                }
                if td.client != client {
                    return Err(EngineError::ClientIdMismatch(client, td.client));
                }
                let ntd = TransactionData {
                    client: td.client,
                    amount: td.amount,
                    status: TransactionStatus::Resolved,
                };
                let ghost pret = self.transactions@;
                self.transactions.insert(tx, ntd);
                proof {
                    lemma_map_values_insert(pret, |t: TransactionData| t@, tx, ntd);
                }
                let cd = self.get_client_mut(client);
                let ncd = ClientData {
                    available: cd.available + td.amount,
                    held: cd.held - td.amount,
                    locked: cd.locked,
                };
                let ghost pre = self.clients@;
                self.clients.insert(client, ncd);
                proof {
                    lemma_map_values_insert(pre, |c: ClientData| c@, client, ncd);
                    assert(self@.clients =~= step_resolve(m0, client, tx)->Ok_0.clients);
                    assert(self@ =~~= step_resolve(m0, client, tx)->Ok_0);
                    lemma_map_values_contains(pre, |c: ClientData| c@, client);
                    assert(pre.contains_key(client));
                    assert forall|c: ClientId|
                        self.clients@.contains_key(c) <==> #[trigger] self.client_order@.contains(
                            c,
                        ) by {}
                }
                Ok(())
            },
            PaymentCommand::Chargeback { client, tx } => {
                let td = match self.transactions.get(&tx) {
                    None => {
                        return Ok(());
                    },
                    Some(td0) => *td0,
                };
                if td.status != TransactionStatus::Disputed {
                    return Ok(());
                }
                if td.client != client {
                    return Err(EngineError::ClientIdMismatch(client, td.client));
                }
                let ntd = TransactionData {
                    client: td.client,
                    amount: td.amount,
                    status: TransactionStatus::Chargebacked,
                };
                let ghost pret = self.transactions@;
                self.transactions.insert(tx, ntd);
                proof {
                    lemma_map_values_insert(pret, |t: TransactionData| t@, tx, ntd);
                }
                let cd = self.get_client_mut(client);
                let ncd = ClientData {
                    available: cd.available,
                    held: cd.held - td.amount,
                    locked: true,
                };
                let ghost pre = self.clients@;
                self.clients.insert(client, ncd);
                proof {
                    lemma_map_values_insert(pre, |c: ClientData| c@, client, ncd);
                    assert(self@.clients =~= step_chargeback(m0, client, tx)->Ok_0.clients);
                    assert(self@ =~~= step_chargeback(m0, client, tx)->Ok_0);
                    lemma_map_values_contains(pre, |c: ClientData| c@, client);
                    assert(pre.contains_key(client));
                    assert forall|c: ClientId|
                        self.clients@.contains_key(c) <==> #[trigger] self.client_order@.contains(
                            c,
                        ) by {}
                }
                Ok(())
            },
        }
    }
}

/// How appending one command to a replayed sequence relates to replaying the
/// sequence and then stepping once; the error index of a step that fails at
/// the end is the sequence's length.
proof fn lemma_run_seq_push(m: EngineModel, s: Seq<PaymentCommand>, c: PaymentCommand)
    ensures
        run_seq(m, s.push(c)) == match run_seq(m, s) {
            Ok(mm) => match step(mm, c) {
                Ok(m2) => Ok::<EngineModel, (int, EngineError)>(m2),
                Err(e) => Err::<EngineModel, (int, EngineError)>((s.len() as int, e)),
            },
            Err(ie) => Err::<EngineModel, (int, EngineError)>(ie),
        },
    decreases s.len(),
{
    if s.len() == 0 {
        assert(s.push(c)[0] == c);
        assert(s.push(c).drop_first() =~= s);
        assert(run_seq(m, s) == Ok::<EngineModel, (int, EngineError)>(m));
        match step(m, c) {
            Ok(m2) => {
                assert(run_seq(m2, s) == Ok::<EngineModel, (int, EngineError)>(m2));
                assert(run_seq(m, s.push(c)) == Ok::<EngineModel, (int, EngineError)>(m2));
            },
            Err(e) => {
                assert(run_seq(m, s.push(c)) == Err::<EngineModel, (int, EngineError)>((0, e)));
            },
        }
    } else {
        assert(s.push(c)[0] == s[0]);
        assert(s.push(c).drop_first() =~= s.drop_first().push(c));
        match step(m, s[0]) {
            Ok(m1) => {
                lemma_run_seq_push(m1, s.drop_first(), c);
                assert(run_seq(m, s.push(c)) == match run_seq(m1, s.drop_first().push(c)) {
                    Ok(m2) => Ok::<EngineModel, (int, EngineError)>(m2),
                    Err((j, e)) => Err::<EngineModel, (int, EngineError)>((j + 1, e)),
                });
                assert(run_seq(m, s) == match run_seq(m1, s.drop_first()) {
                    Ok(m2) => Ok::<EngineModel, (int, EngineError)>(m2),
                    Err((j, e)) => Err::<EngineModel, (int, EngineError)>((j + 1, e)),
                });
                assert(s.drop_first().len() as int + 1 == s.len() as int);
                match run_seq(m1, s.drop_first()) {
                    Ok(mm) => {
                        match step(mm, c) {
                            Ok(m2) => {
                                assert(run_seq(m, s.push(c)) == Ok::<
                                    EngineModel,
                                    (int, EngineError),
                                >(m2));
                            },
                            Err(e) => {
                                assert(run_seq(m1, s.drop_first().push(c)) == Err::<
                                    EngineModel,
                                    (int, EngineError),
                                >((s.drop_first().len() as int, e)));
                                assert(run_seq(m, s.push(c)) == Err::<
                                    EngineModel,
                                    (int, EngineError),
                                >((s.len() as int, e)));
                            },
                        }
                    },
                    Err((j, e)) => {
                        assert(run_seq(m, s.push(c)) == Err::<EngineModel, (int, EngineError)>(
                            (j + 1, e),
                        ));
                        assert(run_seq(m, s) == Err::<EngineModel, (int, EngineError)>(
                            (j + 1, e),
                        ));
                    },
                }
            },
            Err(e) => {
                assert(run_seq(m, s.push(c)) == Err::<EngineModel, (int, EngineError)>((0, e)));
                assert(run_seq(m, s) == Err::<EngineModel, (int, EngineError)>((0, e)));
            },
        }
    }
}

impl ClientData {
    /// The client's total funds, `available + held`. It is derived, never
    /// stored; the `i128` result cannot overflow.
    pub fn total(&self) -> (r: i128)
        ensures
            r == self@.available + self@.held,
    {
        (self.available as i128) + (self.held as i128)
    }
}

impl Default for ClientData {
    /// A fresh client record: all-zero balance, not locked.
    fn default() -> (r: Self)
        ensures
            r@ == zero_client(),
    {
        ClientData { available: 0, held: 0, locked: false }
    }
}

impl Default for PaymentsEngine {
    /// Same as [`PaymentsEngine::new`].
    fn default() -> (r: Self)
        ensures
            r@ == empty_model(),
            r.wf(),
    {
        PaymentsEngine::new()
    }
}

impl PaymentsEngine {
    /// Runs a whole command log in order, stopping at the first consistency
    /// error. The error is tagged with the 1-based line of the offending
    /// command in the external tabular format, where row 1 is the header and
    /// command index `i` is row `i + 2`; balances then reflect exactly the
    /// commands strictly before the failing one.
    pub fn run_commands(&mut self, commands: &[PaymentCommand]) -> (r: Result<(), RuntimeError>)
        requires
            old(self).wf(),
            seq_fits(old(self)@, commands@),
            commands@.len() + 2 <= usize::MAX,
        ensures
            final(self).wf(),
            match run_seq(old(self)@, commands@) {
                Ok(mf) => r == Ok::<(), RuntimeError>(()) && final(self)@ == mf,
                Err((i, e)) => {
                    &&& r == Err::<(), RuntimeError>(RuntimeError((i + 2) as usize, e))
                    &&& run_seq(old(self)@, commands@.take(i)) == Ok::<
                        EngineModel,
                        (int, EngineError),
                    >(final(self)@)
                },
            },
    {
        let ghost m0 = self@;
        let ghost cs = commands@;
        proof {
            assert(cs.skip(0) =~= cs);
            assert(cs.take(0) =~= Seq::<PaymentCommand>::empty());
        }
        let mut i: usize = 0;
        while i < commands.len()
            invariant
                self.wf(),
                i <= cs.len(),
                m0 == old(self)@,
                cs == commands@,
                cs.len() + 2 <= usize::MAX,
                seq_fits(self@, cs.skip(i as int)),
                run_seq(m0, cs.take(i as int)) == Ok::<EngineModel, (int, EngineError)>(self@),
                match run_seq(self@, cs.skip(i as int)) {
                    Ok(mf) => run_seq(m0, cs) == Ok::<EngineModel, (int, EngineError)>(mf),
                    Err((j, e)) => run_seq(m0, cs) == Err::<EngineModel, (int, EngineError)>(
                        (i + j, e),
                    ),
                },
            decreases cs.len() - i,
        {
            let cmd = commands[i];
            proof {
                assert(cs.skip(i as int)[0] == cs[i as int]);
                assert(cmd_fits(self@, cmd));
            }
            match self.run_command(cmd) {
                Ok(u) => {
                    proof {
                        assert(cs.skip(i as int).drop_first() =~= cs.skip(i as int + 1));
                        assert(cs.take(i as int).push(cs[i as int]) =~= cs.take(i as int + 1));
                        lemma_run_seq_push(m0, cs.take(i as int), cs[i as int]);
                        assert(cs.take(i as int).len() == i as int);
                    }
                    i += 1;
                },
                Err(e) => {
                    proof {
                        assert(run_seq(self@, cs.skip(i as int)) == Err::<
                            EngineModel,
                            (int, EngineError),
                        >((0, e)));
                        assert(run_seq(m0, cs) == Err::<EngineModel, (int, EngineError)>(
                            (i as int, e),
                        ));
                        assert(run_seq(m0, cs.take(i as int)) == Ok::<
                            EngineModel,
                            (int, EngineError),
                        >(self@));
                    }
                    return Err(RuntimeError(i + 2, e));
                },
            }
        }
        proof {
            assert(cs.skip(cs.len() as int) =~= Seq::<PaymentCommand>::empty());
            assert(run_seq(self@, cs.skip(i as int)) == Ok::<EngineModel, (int, EngineError)>(
                self@,
            ));
        }
        Ok(())
    }

    /// Looks up a client's balance record without creating it.
    pub fn get_client(&self, client: ClientId) -> (r: Option<ClientData>)
        ensures
            match r {
                Some(cd) => self@.clients.contains_key(client) && cd@ == self@.clients[client],
                None => !self@.clients.contains_key(client),
            },
    {
        proof {
            lemma_map_values_contains(self.clients@, |c: ClientData| c@, client);
        }
        match self.clients.get(&client) {
            Some(cd) => Some(*cd),
            None => None,
        }
    }

    /// Looks up a transaction record.
    pub fn get_transaction(&self, tx: TransactionId) -> (r: Option<TransactionData>)
        ensures
            match r {
                Some(td) => self@.transactions.contains_key(tx) && td@ == self@.transactions[tx],
                None => !self@.transactions.contains_key(tx),
            },
    {
        proof {
            lemma_map_values_contains(self.transactions@, |t: TransactionData| t@, tx);
        }
        match self.transactions.get(&tx) {
            Some(td) => Some(*td),
            None => None,
        }
    }

    /// Every client the ledger has ever created, in order of first
    /// reference, each exactly once.
    pub fn client_ids(&self) -> (r: Vec<ClientId>)
        requires
            self.wf(),
        ensures
            r@ == self.ids_in_order(),
            r@.no_duplicates(),
            forall|c: ClientId| #![auto] r@.contains(c) <==> self@.clients.contains_key(c),
    {
        let mut r: Vec<ClientId> = Vec::new();
        let mut i: usize = 0;
        while i < self.client_order.len()
            invariant
                i <= self.client_order@.len(),
                r@ == self.client_order@.take(i as int),
            decreases self.client_order@.len() - i,
        {
            r.push(self.client_order[i]);
            proof {
                assert(r@ =~= self.client_order@.take(i as int + 1));
            }
            i += 1;
        }
        proof {
            assert(r@ =~= self.client_order@);
            assert forall|c: ClientId| #![auto]
                r@.contains(c) <==> self@.clients.contains_key(c) by {
                lemma_map_values_contains(self.clients@, |cd: ClientData| cd@, c);
            }
        }
        r
    }
}


// ---------------------------------------------------------------------------
// The balances report, as delimited text.
// ---------------------------------------------------------------------------

/// The digit character of `d` (0 to 9).
pub open spec fn digit_char_of(d: int) -> char {
    if d == 0 {
        '0'
    } else if d == 1 {
        '1'
    } else if d == 2 {
        '2'
    } else if d == 3 {
        '3'
    } else if d == 4 {
        '4'
    } else if d == 5 {
        '5'
    } else if d == 6 {
        '6'
    } else if d == 7 {
        '7'
    } else if d == 8 {
        '8'
    } else {
        '9'
    }
}

/// The decimal digits of `n`, most significant first.
pub open spec fn dec_str(n: int) -> Seq<char>
    decreases n,
{
    if n < 10 {
        seq![digit_char_of(n)]
    } else {
        dec_str(n / 10).push(digit_char_of(n % 10))
    }
}

/// A four-digit fraction with its trailing zeros removed.
pub open spec fn trim_zeros(s: Seq<char>) -> Seq<char>
    decreases s.len(),
{
    if s.len() > 0 && s.last() == '0' {
        trim_zeros(s.drop_last())
    } else {
        s
    }
}

/// The fraction digits of `f` (ten-thousandths, `0 < f < 10000`) as they
/// are printed: four zero-padded digits with trailing zeros removed.
pub open spec fn frac_str(f: int) -> Seq<char> {
    trim_zeros(
        seq![
            digit_char_of(f / 1000 % 10),
            digit_char_of(f / 100 % 10),
            digit_char_of(f / 10 % 10),
            digit_char_of(f % 10),
        ],
    )
}

/// The report text of a fixed-point amount: an optional minus sign, the
/// whole part, and the fraction after a dot when it is nonzero.
pub open spec fn fixed_str(v: int) -> Seq<char> {
    let sgn = if v < 0 {
        "-"@
    } else {
        ""@
    };
    let mag = if v < 0 {
        -v
    } else {
        v
    };
    if mag % 10000 == 0 {
        sgn + dec_str(mag / 10000)
    } else {
        sgn + dec_str(mag / 10000) + "."@ + frac_str(mag % 10000)
    }
}

/// The report text of a lock flag.
pub open spec fn bool_str(b: bool) -> Seq<char> {
    if b {
        "true"@
    } else {
        "false"@
    }
}

/// One report row: client id, available, held, total and the lock flag,
/// separated by commas.
pub open spec fn client_row_str(id: ClientId, cd: ClientModel) -> Seq<char> {
    dec_str(id as int) + ","@ + fixed_str(cd.available) + ","@ + fixed_str(cd.held) + ","@
        + fixed_str(cd.available + cd.held) + ","@ + bool_str(cd.locked)
}

/// The report rows of the given clients, in the given order, each preceded
/// by a newline.
pub open spec fn report_str(clients: Map<ClientId, ClientModel>, ids: Seq<ClientId>) -> Seq<char>
    decreases ids.len(),
{
    if ids.len() == 0 {
        Seq::empty()
    } else {
        report_str(clients, ids.drop_last()) + "\n"@ + client_row_str(
            ids.last(),
            client_or_zero(clients, ids.last()),
        )
    }
}

fn digit_str(d: u128) -> (r: &'static str)
    requires
        d < 10,
    ensures
        r@ == seq![digit_char_of(d as int)],
{
    proof {
        reveal_strlit("0");
        reveal_strlit("1");
        reveal_strlit("2");
        reveal_strlit("3");
        reveal_strlit("4");
        reveal_strlit("5");
        reveal_strlit("6");
        reveal_strlit("7");
        reveal_strlit("8");
        reveal_strlit("9");
    }
    let r = match d {
        0 => "0",
        1 => "1",
        2 => "2",
        3 => "3",
        4 => "4",
        5 => "5",
        6 => "6",
        7 => "7",
        8 => "8",
        _ => "9",
    };
    proof {
        assert(r@ =~= seq![digit_char_of(d as int)]);
    }
    r
}

fn nat_to_string(n: u128) -> (r: String)
    ensures
        r@ == dec_str(n as int),
    decreases n,
{
    if n < 10 {
        digit_str(n).to_owned()
    } else {
        let q = n / 10;
        let d = n % 10;
        let pre = nat_to_string(q);
        let r = pre.concat(digit_str(d));
        proof {
            assert(dec_str(q as int).push(digit_char_of(d as int)) =~= dec_str(q as int) + seq![
                digit_char_of(d as int),
            ]);
        }
        r
    }
}

fn fixed_to_string(v: i128) -> (r: String)
    requires
        v > i128::MIN,
    ensures
        r@ == fixed_str(v as int),
{
    let neg = v < 0;
    let mag = if neg {
        (-v) as u128
    } else {
        v as u128
    };
    let ip = mag / 10000;
    let f = mag % 10000;
    let mut r = if neg {
        "-".to_owned()
    } else {
        "".to_owned()
    };
    r = r.concat(nat_to_string(ip).as_str());
    if f == 0 {
        return r;
    }
    r = r.concat(".");
    let d3 = f / 1000;
    let d2 = f / 100 % 10;
    let d1 = f / 10 % 10;
    let d0 = f % 10;
    let ghost four = seq![
        digit_char_of(d3 as int),
        digit_char_of(d2 as int),
        digit_char_of(d1 as int),
        digit_char_of(d0 as int),
    ];
    r = r.concat(digit_str(d3));
    if d0 != 0 {
        r = r.concat(digit_str(d2));
        r = r.concat(digit_str(d1));
        r = r.concat(digit_str(d0));
        proof {
            assert(trim_zeros(four) =~= four);
        }
    } else if d1 != 0 {
        r = r.concat(digit_str(d2));
        r = r.concat(digit_str(d1));
        proof {
            assert(four.drop_last() =~= four.take(3));
            assert(trim_zeros(four.take(3)) =~= four.take(3));
            assert(trim_zeros(four) =~= four.take(3));
        }
    } else if d2 != 0 {
        r = r.concat(digit_str(d2));
        proof {
            assert(four.drop_last() =~= four.take(3));
            assert(four.take(3).drop_last() =~= four.take(2));
            assert(trim_zeros(four.take(2)) =~= four.take(2));
            assert(trim_zeros(four.take(3)) =~= four.take(2));
            assert(trim_zeros(four) =~= four.take(2));
        }
    } else {
        proof {
            assert(d3 != 0);
            assert(four.drop_last() =~= four.take(3));
            assert(four.take(3).drop_last() =~= four.take(2));
            assert(four.take(2).drop_last() =~= four.take(1));
            assert(trim_zeros(four.take(1)) =~= four.take(1));
            assert(trim_zeros(four.take(2)) =~= four.take(1));
            assert(trim_zeros(four.take(3)) =~= four.take(1));
            assert(trim_zeros(four) =~= four.take(1));
        }
    }
    proof {
        assert(r@ =~= fixed_str(v as int));
    }
    r
}

impl ClientData {
    /// The client's report row: its id, balances and lock flag as
    /// comma-separated text.
    pub fn to_csv_string(&self, id: ClientId) -> (r: String)
        ensures
            r@ == client_row_str(id, self@),
    {
        let mut r = nat_to_string(id as u128);
        r = r.concat(",");
        r = r.concat(fixed_to_string(self.available as i128).as_str());
        r = r.concat(",");
        r = r.concat(fixed_to_string(self.held as i128).as_str());
        r = r.concat(",");
        r = r.concat(fixed_to_string(self.available as i128 + self.held as i128).as_str());
        r = r.concat(",");
        if self.locked {
            r = r.concat("true");
        } else {
            r = r.concat("false");
        }
        proof {
            assert(r@ =~= client_row_str(id, self@));
        }
        r
    }
}

impl PaymentsEngine {
    /// The clients of the ledger in order of first reference: the order the
    /// unsorted report uses.
    pub closed spec fn ids_in_order(&self) -> Seq<ClientId> {
        self.client_order@
    }

    /// The balances report: a header row, then one row per client ever
    /// referenced, in order of first reference.
    #[verifier::loop_isolation(false)]
    #[verifier::rlimit(50)]
    pub fn to_csv_string(&self) -> (r: String)
        requires
            self.wf(),
        ensures
            r@ == "client,available,held,total,locked"@ + report_str(
                self@.clients,
                self.ids_in_order(),
            ),
    {
        let mut r = "client,available,held,total,locked".to_owned();
        let mut i: usize = 0;
        while i < self.client_order.len()
            invariant
                i <= self.client_order@.len(),
                r@ == "client,available,held,total,locked"@ + report_str(
                    self@.clients,
                    self.client_order@.take(i as int),
                ),
            decreases self.client_order@.len() - i,
        {
            let id = self.client_order[i];
            proof {
                lemma_map_values_contains(self.clients@, |cd: ClientData| cd@, id);
                assert(self.client_order@.contains(id)) by {
                    assert(self.client_order@[i as int] == id);
                }
            }
            let cd = *self.clients.get(&id).unwrap();
            let row = cd.to_csv_string(id);
            r = r.concat("\n");
            r = r.concat(row.as_str());
            proof {
                let taken = self.client_order@.take(i as int + 1);
                assert(taken.drop_last() =~= self.client_order@.take(i as int));
                assert(taken.last() == id);
                assert(cd@ == client_or_zero(self@.clients, id));
            }
            i += 1;
        }
        proof {
            assert(self.client_order@.take(self.client_order@.len() as int) =~= self
                .client_order@);
        }
        r
    }

    /// The clients of the ledger in strictly increasing id order.
    #[verifier::loop_isolation(false)]
    pub fn client_ids_sorted(&self) -> (r: Vec<ClientId>)
        ensures
            forall|i: int, j: int| 0 <= i < j < r@.len() ==> r@[i] < r@[j],
            forall|c: ClientId| #![auto] r@.contains(c) <==> self@.clients.contains_key(c),
    {
        let mut r: Vec<ClientId> = Vec::new();
        let mut v: u32 = 0;
        while v < 65536
            invariant
                v <= 65536,
                forall|i: int, j: int| 0 <= i < j < r@.len() ==> r@[i] < r@[j],
                forall|i: int| #![auto] 0 <= i < r@.len() ==> (r@[i] as u32) < v,
                forall|c: ClientId|
                    #![auto]
                    r@.contains(c) <==> (self@.clients.contains_key(c) && (c as u32) < v),
            decreases 65536 - v,
        {
            let id = v as u16;
            proof {
                lemma_map_values_contains(self.clients@, |cd: ClientData| cd@, id);
            }
            if self.clients.contains_key(&id) {
                let ghost r0 = r@;
                r.push(id);
                proof {
                    assert forall|c: ClientId| #![auto]
                        r@.contains(c) <==> (self@.clients.contains_key(c) && (c as u32) < v
                            + 1) by {
                        if c == id {
                            assert(r@[r@.len() - 1] == id);
                        } else {
                            if r0.contains(c) {
                                let i = choose|i: int| 0 <= i < r0.len() && r0[i] == c;
                                assert(r@[i] == c);
                            } else if r@.contains(c) {
                                let i = choose|i: int| 0 <= i < r@.len() && r@[i] == c;
                                assert(r0[i] == c);
                            }
                        }
                    }
                }
            }
            v += 1;
        }
        r
    }

    /// The balances report with its rows in increasing client id order, for
    /// deterministic comparisons.
    #[verifier::loop_isolation(false)]
    #[verifier::rlimit(50)]
    pub fn to_csv_string_sorted(&self) -> (r: String)
        ensures
            exists|ids: Seq<ClientId>|
                (forall|i: int, j: int| 0 <= i < j < ids.len() ==> ids[i] < ids[j])
                    && (forall|c: ClientId| #![auto]
                    ids.contains(c) <==> self@.clients.contains_key(c)) && r@
                    == "client,available,held,total,locked"@ + report_str(self@.clients, ids),
    {
        let ids = self.client_ids_sorted();
        let mut r = "client,available,held,total,locked".to_owned();
        let mut i: usize = 0;
        while i < ids.len()
            invariant
                i <= ids@.len(),
                r@ == "client,available,held,total,locked"@ + report_str(
                    self@.clients,
                    ids@.take(i as int),
                ),
            decreases ids@.len() - i,
        {
            let id = ids[i];
            proof {
                lemma_map_values_contains(self.clients@, |cd: ClientData| cd@, id);
                assert(ids@.contains(id)) by {
                    assert(ids@[i as int] == id);
                }
            }
            let cd = *self.clients.get(&id).unwrap();
            let row = cd.to_csv_string(id);
            r = r.concat("\n");
            r = r.concat(row.as_str());
            proof {
                let taken = ids@.take(i as int + 1);
                assert(taken.drop_last() =~= ids@.take(i as int));
                assert(taken.last() == id);
                assert(cd@ == client_or_zero(self@.clients, id));
            }
            i += 1;
        }
        proof {
            assert(ids@.take(ids@.len() as int) =~= ids@);
        }
        r
    }
}

} // verus!
