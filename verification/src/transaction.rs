//! What the mempool reads of a transaction and of an accepted block.
//!
//! The bytes of a transaction are laid out and parsed by the chain's own type
//! crate. The mempool stores them as they are, and reads a parsed transaction
//! only through the fields below.

use crate::bytes::bytes_equal;
use vstd::prelude::*;

verus! {

/// Sentinel for transactions with no byte-local sequence dependency.
///
/// `u32::MAX` is no valid block sequence, so it is a safe in-memory marker for
/// "do not expire by anchor/window sequence".
pub const NO_EXPIRY_SEQUENCE: u32 = 0xFFFF_FFFF;

/// An input of a complex transaction.
#[derive(Copy, Clone, Debug)]
pub enum TransactionInput {
    /// Draws on the balance of a node, anchored at a block sequence.
    Balance { anchor_sequence: u32, initializer: u32 },
    /// Spends an output of an earlier transaction.
    Utxo,
}

/// An output of a complex transaction.
#[derive(Copy, Clone, Debug)]
pub enum TransactionOutput {
    /// Pays to the balance of a node.
    Balance { receiver: u32 },
    /// Leaves an output for a later transaction to spend.
    Utxo,
}

/// The fields of a parsed transaction, by kind.
#[derive(Debug)]
pub enum TransactionBody {
    /// Moves `amount` from one node to another.
    NodeTransfer { anchor_sequence: u32, initializer: u32, amount: u64 },
    /// Registers a new node at a price that the initializer pays.
    Registration { initializer: u32, registration_price: u64 },
    /// Any number of inputs and outputs.
    Complex { inputs: Vec<TransactionInput>, outputs: Vec<TransactionOutput> },
    /// A transaction of none of the kinds above.
    Unrecognized,
}

/// The fields of a parsed transaction as mathematics.
#[verifier::ext_equal]
pub ghost enum BodyView {
    NodeTransfer { anchor_sequence: u32, initializer: u32, amount: u64 },
    Registration { initializer: u32, registration_price: u64 },
    Complex { inputs: Seq<TransactionInput>, outputs: Seq<TransactionOutput> },
    Unrecognized,
}

impl View for TransactionBody {
    type V = BodyView;

    open spec fn view(&self) -> BodyView {
        match *self {
            TransactionBody::NodeTransfer { anchor_sequence, initializer, amount } =>
                BodyView::NodeTransfer { anchor_sequence, initializer, amount },
            TransactionBody::Registration { initializer, registration_price } =>
                BodyView::Registration { initializer, registration_price },
            TransactionBody::Complex { inputs, outputs } => BodyView::Complex {
                inputs: inputs@,
                outputs: outputs@,
            },
            TransactionBody::Unrecognized => BodyView::Unrecognized,
        }
    }
}

/// A parsed transaction: its serialized bytes and what they say.
#[derive(Debug)]
pub struct TransactionView<'a> {
    /// The serialized transaction.
    pub bytes: &'a [u8],
    /// What parsing the bytes gave.
    pub body: TransactionBody,
}

impl<'a> TransactionView<'a> {
    /// Every transaction is serialized with a tag of its kind, so a parsed one
    /// is never empty.
    pub open spec fn wf(self) -> bool {
        self.bytes@.len() > 0
    }
}

/// What the mempool reads of a block: the serialized transactions in it, or
/// `None` for a block that carries no transactions by its type.
#[derive(Debug)]
pub struct BlockView<'a> {
    pub transactions: Option<&'a [&'a [u8]]>,
}

impl<'a> BlockView<'a> {
    /// The serialized transactions of the block.
    pub open spec fn accepted(self) -> Set<Seq<u8>> {
        match self.transactions {
            Some(list) => Set::new(|bytes: Seq<u8>| lists(list@, bytes)),
            None => Set::empty(),
        }
    }
}

/// `bytes` is one of the listed byte strings.
pub open spec fn lists(list: Seq<&[u8]>, bytes: Seq<u8>) -> bool {
    exists|i: int| 0 <= i < list.len() && #[trigger] list[i]@ == bytes
}

/// Whether `bytes` is one of the listed byte strings.
pub(crate) fn is_listed(list: &[&[u8]], bytes: &[u8]) -> (listed: bool)
    ensures
        listed == lists(list@, bytes@),
{
    let mut i: usize = 0;
    while i < list.len()
        invariant
            i <= list@.len(),
            forall|j: int| 0 <= j < i ==> #[trigger] list@[j]@ != bytes@,
        decreases list@.len() - i,
    {
        if bytes_equal(list[i], bytes) {
            return true;
        }
        i += 1;
    }
    false
}

/// The smaller of two sequences.
pub open spec fn min_sequence(a: u32, b: u32) -> u32 {
    if a < b {
        a
    } else {
        b
    }
}

/// The smallest anchor among the balance inputs, or `NO_EXPIRY_SEQUENCE` where
/// there is no balance input.
pub open spec fn oldest_anchor(inputs: Seq<TransactionInput>) -> u32
    decreases inputs.len(),
{
    if inputs.len() == 0 {
        NO_EXPIRY_SEQUENCE
    } else {
        let older = oldest_anchor(inputs.drop_last());
        match inputs.last() {
            TransactionInput::Balance { anchor_sequence, .. } => min_sequence(
                older,
                anchor_sequence,
            ),
            TransactionInput::Utxo => older,
        }
    }
}

/// The block sequence that a transaction depends on.
pub open spec fn expiry_sequence(body: BodyView) -> u32 {
    match body {
        BodyView::NodeTransfer { anchor_sequence, .. } => anchor_sequence,
        BodyView::Registration { .. } => NO_EXPIRY_SEQUENCE,
        BodyView::Complex { inputs, .. } => oldest_anchor(inputs),
        BodyView::Unrecognized => NO_EXPIRY_SEQUENCE,
    }
}

/// The input draws on the balance of `node`.
pub open spec fn drawn_from(input: TransactionInput, node: u32) -> bool {
    input matches TransactionInput::Balance { initializer, .. } && initializer == node
}

/// The output pays to the balance of `node`.
pub open spec fn paid_to(output: TransactionOutput, node: u32) -> bool {
    output matches TransactionOutput::Balance { receiver } && receiver == node
}

/// Some input draws on the balance of `node`.
pub open spec fn some_drawn_from(inputs: Seq<TransactionInput>, node: u32) -> bool {
    exists|i: int| 0 <= i < inputs.len() && drawn_from(#[trigger] inputs[i], node)
}

/// Some output pays to the balance of `node`.
pub open spec fn some_paid_to(outputs: Seq<TransactionOutput>, node: u32) -> bool {
    exists|i: int| 0 <= i < outputs.len() && paid_to(#[trigger] outputs[i], node)
}

/// A transaction belongs to a node that initiates it. A complex transaction has
/// at least one input and either draws on the node's balance or pays to it.
pub open spec fn is_own(body: BodyView, node: u32) -> bool {
    match body {
        BodyView::NodeTransfer { initializer, .. } => initializer == node,
        BodyView::Registration { initializer, .. } => initializer == node,
        BodyView::Complex { inputs, outputs } => {
            &&& inputs.len() > 0
            &&& some_drawn_from(inputs, node) || some_paid_to(outputs, node)
        },
        BodyView::Unrecognized => false,
    }
}

/// No balance input has an older anchor than the oldest one, and one of them has
/// it unless it is `NO_EXPIRY_SEQUENCE`.
pub proof fn lemma_oldest_anchor(inputs: Seq<TransactionInput>)
    ensures
        forall|i: int|
            0 <= i < inputs.len() ==> (#[trigger] inputs[i] matches TransactionInput::Balance {
                anchor_sequence,
                ..
            } ==> oldest_anchor(inputs) <= anchor_sequence),
        oldest_anchor(inputs) == u32::MAX || exists|i: int|
            0 <= i < inputs.len() && (#[trigger] inputs[i] matches TransactionInput::Balance {
                anchor_sequence,
                ..
            } && oldest_anchor(inputs) == anchor_sequence),
    decreases inputs.len(),
{
    if inputs.len() > 0 {
        let front = inputs.drop_last();
        lemma_oldest_anchor(front);
        let older = oldest_anchor(front);
        let sequence = oldest_anchor(inputs);
        assert forall|i: int| 0 <= i < inputs.len() implies (
        #[trigger] inputs[i] matches TransactionInput::Balance { anchor_sequence, .. } ==> sequence
            <= anchor_sequence) by {
            if i < front.len() {
                assert(front[i] == inputs[i]);
            }
        }
        if sequence != u32::MAX {
            if sequence == older {
                let i = choose|i: int|
                    0 <= i < front.len() && (
                    #[trigger] front[i] matches TransactionInput::Balance { anchor_sequence, .. }
                        && older == anchor_sequence);
                assert(inputs[i] == front[i]);
            } else {
                assert(inputs[inputs.len() - 1] == inputs.last());
            }
        }
    }
}

/// Computes the byte-local sequence dependency used for window-expiry removal.
///
/// Node transfers carry a direct anchor. Registrations carry none and do not
/// expire by this marker. Complex transactions may have several balance inputs,
/// and the smallest anchor among them is enough to decide whether any such input
/// has fallen before the active-chain tail. The block of a UTXO input is not
/// known from the bytes, so UTXO-only and zero-input complex transactions have
/// [`NO_EXPIRY_SEQUENCE`].
pub fn transaction_expiry_sequence(tx: &TransactionView<'_>) -> (sequence: u32)
    ensures
        sequence == expiry_sequence(tx.body@),
        match tx.body {
            TransactionBody::NodeTransfer { anchor_sequence, .. } => sequence == anchor_sequence,
            TransactionBody::Registration { .. } => sequence == u32::MAX,
            TransactionBody::Unrecognized => sequence == u32::MAX,
            TransactionBody::Complex { inputs, .. } => {
                &&& forall|i: int|
                    0 <= i < inputs@.len() ==> (
                    #[trigger] inputs@[i] matches TransactionInput::Balance {
                        anchor_sequence,
                        ..
                    } ==> sequence <= anchor_sequence)
                &&& sequence == u32::MAX || exists|i: int|
                    0 <= i < inputs@.len() && (
                    #[trigger] inputs@[i] matches TransactionInput::Balance {
                        anchor_sequence,
                        ..
                    } && sequence == anchor_sequence)
            },
        },
{
    match &tx.body {
        TransactionBody::NodeTransfer { anchor_sequence, .. } => *anchor_sequence,
        TransactionBody::Registration { .. } => NO_EXPIRY_SEQUENCE,
        TransactionBody::Unrecognized => NO_EXPIRY_SEQUENCE,
        TransactionBody::Complex { inputs, .. } => {
            let mut oldest: u32 = NO_EXPIRY_SEQUENCE;
            let mut i: usize = 0;
            while i < inputs.len()
                invariant
                    i <= inputs@.len(),
                    oldest == oldest_anchor(inputs@.take(i as int)),
                decreases inputs@.len() - i,
            {
                if let TransactionInput::Balance { anchor_sequence, .. } = inputs[i] {
                    if anchor_sequence < oldest {
                        oldest = anchor_sequence;
                    }
                }
                assert(inputs@.take(i + 1).drop_last() =~= inputs@.take(i as int));
                i += 1;
            }
            assert(inputs@.take(inputs@.len() as int) =~= inputs@);
            proof {
                lemma_oldest_anchor(inputs@);
            }
            oldest
        },
    }
}

/// Whether any balance input is drawn from `node`.
fn any_drawn_from(inputs: &[TransactionInput], node: u32) -> (any: bool)
    ensures
        any == some_drawn_from(inputs@, node),
{
    let mut i: usize = 0;
    while i < inputs.len()
        invariant
            i <= inputs@.len(),
            forall|j: int| 0 <= j < i ==> !drawn_from(#[trigger] inputs@[j], node),
        decreases inputs@.len() - i,
    {
        if let TransactionInput::Balance { initializer, .. } = inputs[i] {
            if initializer == node {
                assert(drawn_from(inputs@[i as int], node));
                return true;
            }
        }
        i += 1;
    }
    false
}

/// Whether any balance output is paid to `node`.
fn any_paid_to(outputs: &[TransactionOutput], node: u32) -> (any: bool)
    ensures
        any == some_paid_to(outputs@, node),
{
    let mut i: usize = 0;
    while i < outputs.len()
        invariant
            i <= outputs@.len(),
            forall|j: int| 0 <= j < i ==> !paid_to(#[trigger] outputs@[j], node),
        decreases outputs@.len() - i,
    {
        if let TransactionOutput::Balance { receiver } = outputs[i] {
            if receiver == node {
                assert(paid_to(outputs@[i as int], node));
                return true;
            }
        }
        i += 1;
    }
    false
}

/// Classifies whether `tx` is own from the local node's perspective.
///
/// - node transfer, registration: own when `own_node_id` initiates it;
/// - complex: own when it has at least one input and any balance input is drawn
///   from `own_node_id` or any balance output is paid to it;
/// - UTXO-only and zero-input complex transactions are not own.
pub fn is_own_transaction(tx: &TransactionView<'_>, own_node_id: u32) -> (own: bool)
    ensures
        own == is_own(tx.body@, own_node_id),
        match tx.body {
            TransactionBody::NodeTransfer { initializer, .. } => own == (initializer
                == own_node_id),
            TransactionBody::Registration { initializer, .. } => own == (initializer
                == own_node_id),
            TransactionBody::Unrecognized => !own,
            TransactionBody::Complex { inputs, outputs } => own == (inputs@.len() > 0 && ((exists|
                i: int,
            |
                0 <= i < inputs@.len() && (
                #[trigger] inputs@[i] matches TransactionInput::Balance { initializer, .. }
                    && initializer == own_node_id)) || (exists|i: int|
                0 <= i < outputs@.len() && (
                #[trigger] outputs@[i] matches TransactionOutput::Balance { receiver } && receiver
                    == own_node_id)))),
        },
{
    match &tx.body {
        TransactionBody::NodeTransfer { initializer, .. } => *initializer == own_node_id,
        TransactionBody::Registration { initializer, .. } => *initializer == own_node_id,
        TransactionBody::Unrecognized => false,
        TransactionBody::Complex { inputs, outputs } => {
            inputs.len() != 0 && (any_drawn_from(inputs, own_node_id) || any_paid_to(
                outputs,
                own_node_id,
            ))
        },
    }
}

} // verus!
