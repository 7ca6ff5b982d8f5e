//! The chain sync round: deposit detection, checkpoint advance, publish
//! decisions, and cooperative cancellation.
//!
//! The loop around a node client lives with the caller, which blocks on the
//! network; every decision of a round is made here, over plain data read
//! from one emitted block. For each block the caller hands over the block's
//! transactions with, per output, whether the wallet owns its script and the
//! address it resolves to; this module decides what is detected, that the
//! checkpoint advances past the block, and whether — and with exactly what
//! payload — one deposit event is published for it. Cancellation is a
//! single-shot handle observed only at round boundaries, so an in-flight
//! block always completes.
use vstd::prelude::*;

use crate::events::ChainEvent;

verus! {

/// Ways a sync round fails; the loop ends and restarting the sync is the
/// recovery path.
#[derive(Debug, Clone, Copy, PartialEq, Eq, Structural)]
pub enum SyncError {
    /// The node could not be reached for chain info.
    NodeUnreachable,
    /// The block emitter failed mid-round.
    EmitterFailed,
    /// Applying a block to the wallet state failed.
    ApplyFailed,
    /// Persisting the wallet state after an apply failed; the in-memory and
    /// durable views may diverge, which is worse than a failed apply.
    PersistFailed,
}

/// One transaction output as the detection pass reads it: whether the
/// wallet's ledger claims its script, the address the script resolves to (if
/// it resolves), and its value in satoshis.
pub struct OutputInfo {
    pub owned: bool,
    pub address: Option<String>,
    pub amount_sats: u64,
}

/// One transaction of an emitted block.
pub struct TxInfo {
    pub txid: String,
    pub outputs: Vec<OutputInfo>,
}

/// One emitted block: its height and its transactions.
pub struct BlockInfo {
    pub height: u32,
    pub txs: Vec<TxInfo>,
}

/// The deposits one output contributes: its address, amount and containing
/// transaction id when the wallet owns it and the address resolves, nothing
/// otherwise.
pub open spec fn spec_output_deposit(txid: Seq<char>, out: OutputInfo) -> Seq<
    (Seq<char>, u64, Seq<char>),
> {
    if out.owned && out.address is Some {
        seq![(out.address->Some_0@, out.amount_sats, txid)]
    } else {
        Seq::empty()
    }
}

/// The deposits of a run of outputs of one transaction, in output order.
pub open spec fn spec_outputs_deposits(txid: Seq<char>, outs: Seq<OutputInfo>) -> Seq<
    (Seq<char>, u64, Seq<char>),
>
    decreases outs.len(),
{
    if outs.len() == 0 {
        Seq::empty()
    } else {
        spec_output_deposit(txid, outs[0]) + spec_outputs_deposits(txid, outs.drop_first())
    }
}

/// The deposits of a run of transactions, in transaction then output order.
pub open spec fn spec_txs_deposits(txs: Seq<TxInfo>) -> Seq<(Seq<char>, u64, Seq<char>)>
    decreases txs.len(),
{
    if txs.len() == 0 {
        Seq::empty()
    } else {
        spec_outputs_deposits(txs[0].txid@, txs[0].outputs@) + spec_txs_deposits(txs.drop_first())
    }
}

/// The wallet-owned deposits of one block, in block order.
pub open spec fn spec_block_deposits(block: BlockInfo) -> Seq<(Seq<char>, u64, Seq<char>)> {
    spec_txs_deposits(block.txs@)
}

/// The detection pass: collect, in block order, one entry per wallet-owned
/// output whose address resolves — the address, the amount in satoshis, and
/// the containing transaction's id.
pub fn detect_deposits(block: &BlockInfo) -> (deps: Vec<(String, u64, String)>)
    ensures
        deps.deep_view() == spec_block_deposits(*block),
{
    let mut deps: Vec<(String, u64, String)> = Vec::new();
    proof {
        assert(block.txs@.skip(0) =~= block.txs@);
        assert(deps.deep_view() =~= Seq::<(Seq<char>, u64, Seq<char>)>::empty());
    }
    let mut i: usize = 0;
    while i < block.txs.len()
        invariant
            i <= block.txs@.len(),
            deps.deep_view() + spec_txs_deposits(block.txs@.skip(i as int)) == spec_block_deposits(
                *block,
            ),
        decreases block.txs@.len() - i,
    {
        let tx = &block.txs[i];
        proof {
            assert(block.txs@.skip(i as int)[0] == block.txs@[i as int]);
            assert(block.txs@.skip(i as int).drop_first() =~= block.txs@.skip(i as int + 1));
            assert(spec_txs_deposits(block.txs@.skip(i as int)) == spec_outputs_deposits(
                tx.txid@,
                tx.outputs@,
            ) + spec_txs_deposits(block.txs@.skip(i as int + 1)));
            assert(tx.outputs@.skip(0) =~= tx.outputs@);
            assert(deps.deep_view() + spec_outputs_deposits(tx.txid@, tx.outputs@.skip(0))
                + spec_txs_deposits(block.txs@.skip(i as int + 1)) =~= deps.deep_view()
                + spec_txs_deposits(block.txs@.skip(i as int)));
        }
        let mut j: usize = 0;
        while j < tx.outputs.len()
            invariant
                i < block.txs@.len(),
                j <= tx.outputs@.len(),
                tx == &block.txs@[i as int],
                deps.deep_view() + spec_outputs_deposits(tx.txid@, tx.outputs@.skip(j as int))
                    + spec_txs_deposits(block.txs@.skip(i as int + 1)) == spec_block_deposits(
                    *block,
                ),
            decreases tx.outputs@.len() - j,
        {
            let out = &tx.outputs[j];
            let ghost before = deps.deep_view();
            proof {
                assert(tx.outputs@.skip(j as int)[0] == tx.outputs@[j as int]);
                assert(tx.outputs@.skip(j as int).drop_first() =~= tx.outputs@.skip(j as int + 1));
                assert(spec_outputs_deposits(tx.txid@, tx.outputs@.skip(j as int))
                    == spec_output_deposit(tx.txid@, tx.outputs@[j as int])
                    + spec_outputs_deposits(tx.txid@, tx.outputs@.skip(j as int + 1)));
            }
            if out.owned {
                match &out.address {
                    Some(address) => {
                        deps.push((address.clone(), out.amount_sats, tx.txid.clone()));
                        proof {
                            assert(deps.deep_view() =~= before + spec_output_deposit(
                                tx.txid@,
                                tx.outputs@[j as int],
                            ));
                        }
                    },
                    None => {},
                }
            }
            proof {
                assert(deps.deep_view() + spec_outputs_deposits(
                    tx.txid@,
                    tx.outputs@.skip(j as int + 1),
                ) + spec_txs_deposits(block.txs@.skip(i as int + 1)) =~= before
                    + spec_outputs_deposits(tx.txid@, tx.outputs@.skip(j as int))
                    + spec_txs_deposits(block.txs@.skip(i as int + 1)));
            }
            j += 1;
        }
        proof {
            assert(tx.outputs@.skip(tx.outputs@.len() as int) =~= Seq::<OutputInfo>::empty());
            assert(deps.deep_view() + spec_txs_deposits(block.txs@.skip(i as int + 1))
                =~= deps.deep_view() + spec_outputs_deposits(
                tx.txid@,
                tx.outputs@.skip(tx.outputs@.len() as int),
            ) + spec_txs_deposits(block.txs@.skip(i as int + 1)));
        }
        i += 1;
    }
    proof {
        assert(block.txs@.skip(block.txs@.len() as int) =~= Seq::<TxInfo>::empty());
        assert(deps.deep_view() =~= spec_block_deposits(*block));
    }
    deps
}

/// The state one sync session carries between steps: the wallet's chain
/// position as last advanced here, and whether cancellation has been
/// observed.
#[derive(Debug, Clone, Copy, PartialEq, Eq, Structural)]
pub struct SyncSession {
    pub checkpoint: u32,
    pub stopped: bool,
}

/// A session after one block is processed: the checkpoint stands at the
/// block's height; nothing else changes.
pub open spec fn spec_after_block(s: SyncSession, block: BlockInfo) -> SyncSession {
    SyncSession { checkpoint: block.height, stopped: s.stopped }
}

/// A session after a round boundary: stopped once the signal has been seen
/// there, and stopped for good; the checkpoint is untouched.
pub open spec fn spec_after_boundary(s: SyncSession, stop_requested: bool) -> SyncSession {
    SyncSession { checkpoint: s.checkpoint, stopped: s.stopped || stop_requested }
}

/// What one processed block instructs the caller to do, after the apply and
/// persist for that block have succeeded: publish the one deposit event
/// carried here, if any.
pub struct BlockOutcome {
    pub height: u32,
    pub event: Option<ChainEvent>,
}

impl SyncSession {
    /// A session starting from the wallet's current checkpoint height.
    pub fn start(checkpoint: u32) -> (s: Self)
        ensures
            s == (SyncSession { checkpoint, stopped: false }),
    {
        SyncSession { checkpoint, stopped: false }
    }

    /// Process one emitted block: run the detection pass, advance the
    /// checkpoint past the block, and decide the publish. Exactly one
    /// `NewDeposits` event is produced when the block holds at least one
    /// wallet-owned output, carrying the block's full deposit list; a block
    /// with none produces no event, but the checkpoint advances all the
    /// same. A stopped session processes no further block.
    pub fn process_block(&mut self, block: &BlockInfo) -> (outcome: BlockOutcome)
        requires
            !old(self).stopped,
            old(self).checkpoint < block.height,
        ensures
            *final(self) == spec_after_block(*old(self), *block),
            outcome.height == block.height,
            (outcome.event is None) <==> spec_block_deposits(*block).len() == 0,
            outcome.event matches Some(e) ==> (e matches ChainEvent::NewDeposits { deposits }
                && deposits.deep_view() == spec_block_deposits(*block)),
    {
        let deps = detect_deposits(block);
        let event = if deps.len() == 0 {
            None
        } else {
            Some(ChainEvent::NewDeposits { deposits: deps })
        };
        self.checkpoint = block.height;
        BlockOutcome { height: block.height, event }
    }

    /// Observe the cancellation signal at a round boundary — the only point
    /// where the loop may stop. Returns whether the loop continues into the
    /// next round; once stopped, a session stays stopped and never
    /// continues.
    pub fn round_boundary(&mut self, stop_requested: bool) -> (cont: bool)
        ensures
            *final(self) == spec_after_boundary(*old(self), stop_requested),
            cont == !final(self).stopped,
    {
        if stop_requested {
            self.stopped = true;
        }
        !self.stopped
    }
}

/// The cancellation capability for one running sync loop: a single-shot
/// signal, consumed by its first send.
#[derive(Debug, Clone, Copy, PartialEq, Eq, Structural)]
pub struct SyncHandle {
    pub signaled: bool,
}

/// The handle after a stop is requested through it.
pub open spec fn spec_after_stop(h: SyncHandle) -> SyncHandle {
    SyncHandle { signaled: true }
}

/// Whether a stop request through the handle actually fires a signal.
pub open spec fn spec_stop_fires(h: SyncHandle) -> bool {
    !h.signaled
}

impl SyncHandle {
    /// A fresh handle for a newly launched loop.
    pub fn new() -> (h: Self)
        ensures
            h == (SyncHandle { signaled: false }),
    {
        SyncHandle { signaled: false }
    }

    /// Request the loop to stop. Only the first request on a handle fires
    /// the signal; every later one is a no-op.
    pub fn stop_sync(&mut self) -> (fired: bool)
        ensures
            *final(self) == spec_after_stop(*old(self)),
            fired == spec_stop_fires(*old(self)),
    {
        let fired = !self.signaled;
        self.signaled = true;
        fired
    }
}

/// Stopping twice is safe and only the first request has an effect: after
/// one stop the handle is consumed, a second request fires nothing and
/// leaves the handle as it was.
pub proof fn lemma_stop_sync_single_shot(h: SyncHandle)
    ensures
        !spec_stop_fires(spec_after_stop(h)),
        spec_after_stop(spec_after_stop(h)) == spec_after_stop(h),
{
}

/// A session over a run of round boundaries with the given signal readings.
pub open spec fn spec_run_boundaries(s: SyncSession, signals: Seq<bool>) -> SyncSession
    decreases signals.len(),
{
    if signals.len() == 0 {
        s
    } else {
        spec_run_boundaries(spec_after_boundary(s, signals[0]), signals.drop_first())
    }
}

/// Cancellation is permanent: a session that has observed the stop signal is
/// unchanged by any further round boundaries — no boundary lets it continue,
/// so no further block is processed and no further persist or publish is
/// instructed once the in-flight round has completed.
pub proof fn lemma_cancellation_is_permanent(s: SyncSession, signals: Seq<bool>)
    requires
        s.stopped,
    ensures
        spec_run_boundaries(s, signals) == s,
    decreases signals.len(),
{
    if signals.len() > 0 {
        assert(spec_after_boundary(s, signals[0]) == s);
        lemma_cancellation_is_permanent(s, signals.drop_first());
    }
}

/// The deposit events one round publishes for a run of emitted blocks: one
/// `(height, deposits)` entry per block with at least one wallet-owned
/// output, in emission order, skipping blocks with none.
pub open spec fn spec_published_deposits(blocks: Seq<BlockInfo>) -> Seq<(u32, Seq<(Seq<char>, u64, Seq<char>)>)>
    decreases blocks.len(),
{
    if blocks.len() == 0 {
        Seq::empty()
    } else {
        let rest = spec_published_deposits(blocks.drop_first());
        if spec_block_deposits(blocks[0]).len() > 0 {
            seq![(blocks[0].height, spec_block_deposits(blocks[0]))] + rest
        } else {
            rest
        }
    }
}

/// Sync ordering: over blocks emitted in strictly increasing height order,
/// the published deposit events are one per depositing block, in the same
/// height order, each carrying exactly the wallet-owned outputs of its
/// block; and when every block deposits, there is exactly one event per
/// block.
pub proof fn lemma_deposit_events_follow_blocks(blocks: Seq<BlockInfo>)
    requires
        forall|i: int, j: int|
            0 <= i < j < blocks.len() ==> #[trigger] blocks[i].height < #[trigger] blocks[j].height,
    ensures
        spec_published_deposits(blocks).len() <= blocks.len(),
        forall|i: int, j: int|
            0 <= i < j < spec_published_deposits(blocks).len()
                ==> #[trigger] spec_published_deposits(blocks)[i].0
                < #[trigger] spec_published_deposits(blocks)[j].0,
        forall|i: int|
            0 <= i < spec_published_deposits(blocks).len() ==> exists|k: int|
                0 <= k < blocks.len() && #[trigger] spec_published_deposits(blocks)[i] == (
                blocks[k].height,
                spec_block_deposits(blocks[k]),
                ) && spec_block_deposits(blocks[k]).len() > 0,
        (forall|k: int| 0 <= k < blocks.len() ==> #[trigger] spec_block_deposits(
            blocks[k],
        ).len() > 0) ==> (spec_published_deposits(blocks).len() == blocks.len() && forall|i: int|
            0 <= i < blocks.len() ==> #[trigger] spec_published_deposits(blocks)[i] == (
            blocks[i].height,
            spec_block_deposits(blocks[i]),
            )),
    decreases blocks.len(),
{
    if blocks.len() > 0 {
        let tail = blocks.drop_first();
        assert forall|i: int, j: int| 0 <= i < j < tail.len() implies #[trigger] tail[i].height
            < #[trigger] tail[j].height by {
            assert(tail[i] == blocks[i + 1]);
            assert(tail[j] == blocks[j + 1]);
        }
        lemma_deposit_events_follow_blocks(tail);
        let events = spec_published_deposits(blocks);
        let rest = spec_published_deposits(tail);
        assert forall|i: int|
            0 <= i < events.len() implies exists|k: int|
            0 <= k < blocks.len() && #[trigger] events[i] == (
            blocks[k].height,
            spec_block_deposits(blocks[k]),
            ) && spec_block_deposits(blocks[k]).len() > 0 by {
            if spec_block_deposits(blocks[0]).len() > 0 && i == 0 {
                assert(events[0] == (blocks[0].height, spec_block_deposits(blocks[0])));
            } else {
                let ri = if spec_block_deposits(blocks[0]).len() > 0 {
                    i - 1
                } else {
                    i
                };
                assert(events[i] == rest[ri]);
                let k0 = choose|k0: int|
                    0 <= k0 < tail.len() && #[trigger] rest[ri] == (
                    tail[k0].height,
                    spec_block_deposits(tail[k0]),
                    ) && spec_block_deposits(tail[k0]).len() > 0;
                assert(tail[k0] == blocks[k0 + 1]);
                assert(events[i] == (
                    blocks[k0 + 1].height,
                    spec_block_deposits(blocks[k0 + 1]),
                ) && spec_block_deposits(blocks[k0 + 1]).len() > 0);
            }
        }
        assert forall|i: int, j: int| 0 <= i < j < events.len() implies #[trigger] events[i].0
            < #[trigger] events[j].0 by {
            if spec_block_deposits(blocks[0]).len() > 0 {
                if i == 0 {
                    assert(events[j] == rest[j - 1]);
                    let k0 = choose|k0: int|
                        0 <= k0 < tail.len() && #[trigger] rest[j - 1] == (
                        tail[k0].height,
                        spec_block_deposits(tail[k0]),
                        ) && spec_block_deposits(tail[k0]).len() > 0;
                    assert(tail[k0] == blocks[k0 + 1]);
                    assert(blocks[0].height < blocks[k0 + 1].height);
                } else {
                    assert(events[i] == rest[i - 1]);
                    assert(events[j] == rest[j - 1]);
                }
            } else {
                assert(events[i] == rest[i]);
                assert(events[j] == rest[j]);
            }
        }
        if forall|k: int| 0 <= k < blocks.len() ==> #[trigger] spec_block_deposits(
            blocks[k],
        ).len() > 0 {
            assert forall|k: int| 0 <= k < tail.len() implies #[trigger] spec_block_deposits(
                tail[k],
            ).len() > 0 by {
                assert(tail[k] == blocks[k + 1]);
            }
            assert(spec_block_deposits(blocks[0]).len() > 0);
            assert(events.len() == blocks.len());
            assert forall|i: int| 0 <= i < blocks.len() implies #[trigger] events[i] == (
                blocks[i].height,
                spec_block_deposits(blocks[i]),
            ) by {
                if i > 0 {
                    assert(events[i] == rest[i - 1]);
                    assert(tail[i - 1] == blocks[i]);
                }
            }
        }
    }
}

/// A block with zero wallet-owned outputs publishes nothing, yet the
/// checkpoint still advances past it.
pub proof fn lemma_quiet_block_advances(s: SyncSession, block: BlockInfo)
    requires
        spec_block_deposits(block).len() == 0,
    ensures
        spec_after_block(s, block).checkpoint == block.height,
        spec_published_deposits(seq![block]).len() == 0,
{
    assert(seq![block].drop_first() =~= Seq::<BlockInfo>::empty());
    assert(seq![block][0] == block);
    assert(spec_published_deposits(seq![block].drop_first()).len() == 0);
}

} // verus!
