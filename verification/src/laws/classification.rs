//! Laws of how transactions are classified on admission.

use crate::transaction::{
    TransactionBody, TransactionInput, TransactionOutput, TransactionView, NO_EXPIRY_SEQUENCE,
};
use vstd::prelude::*;
#[allow(unused_imports)]
use crate::transaction::{expiry_sequence, is_own, lemma_oldest_anchor, BodyView};

verus! {

/// The expiry sequence of a complex transaction is the smallest anchor of its
/// balance inputs: none is smaller, and one of them has it unless it is
/// [`NO_EXPIRY_SEQUENCE`].
pub proof fn law_expiry_is_the_oldest_anchor(
    inputs: Seq<TransactionInput>,
    outputs: Seq<TransactionOutput>,
)
    ensures
        ({
            let sequence = expiry_sequence(BodyView::Complex { inputs, outputs });
            &&& forall|i: int|
                0 <= i < inputs.len() ==> (#[trigger] inputs[i] matches TransactionInput::Balance {
                    anchor_sequence,
                    ..
                } ==> sequence <= anchor_sequence)
            &&& sequence == u32::MAX || exists|i: int|
                0 <= i < inputs.len() && (#[trigger] inputs[i] matches TransactionInput::Balance {
                    anchor_sequence,
                    ..
                } && sequence == anchor_sequence)
        }),
{
    lemma_oldest_anchor(inputs);
}

/// A complex transaction without balance inputs does not expire by sequence.
pub proof fn law_no_balance_input_no_expiry(
    inputs: Seq<TransactionInput>,
    outputs: Seq<TransactionOutput>,
)
    requires
        forall|i: int| 0 <= i < inputs.len() ==> #[trigger] inputs[i] is Utxo,
    ensures
        expiry_sequence(BodyView::Complex { inputs, outputs }) == u32::MAX,
{
    law_expiry_is_the_oldest_anchor(inputs, outputs);
}

/// A complex transaction without inputs, or without balance inputs and balance
/// outputs, belongs to no node.
pub proof fn law_no_balance_no_owner(
    inputs: Seq<TransactionInput>,
    outputs: Seq<TransactionOutput>,
    node: u32,
)
    requires
        inputs.len() == 0 || {
            &&& forall|i: int| 0 <= i < inputs.len() ==> #[trigger] inputs[i] is Utxo
            &&& forall|i: int| 0 <= i < outputs.len() ==> #[trigger] outputs[i] is Utxo
        },
    ensures
        !is_own(BodyView::Complex { inputs, outputs }, node),
{
}

/// A complex transaction that draws on a node's balance belongs to that node.
pub proof fn law_balance_input_makes_own(
    inputs: Seq<TransactionInput>,
    outputs: Seq<TransactionOutput>,
    node: u32,
)
    requires
        exists|i: int|
            0 <= i < inputs.len() && (
            #[trigger] inputs[i] matches TransactionInput::Balance { initializer, .. }
                && initializer == node),
    ensures
        is_own(BodyView::Complex { inputs, outputs }, node),
{
}

/// A complex transaction that has an input and pays to a node's balance belongs
/// to that node.
pub proof fn law_balance_output_makes_own(
    inputs: Seq<TransactionInput>,
    outputs: Seq<TransactionOutput>,
    node: u32,
)
    requires
        inputs.len() > 0,
        exists|i: int|
            0 <= i < outputs.len() && (
            #[trigger] outputs[i] matches TransactionOutput::Balance { receiver } && receiver
                == node),
    ensures
        is_own(BodyView::Complex { inputs, outputs }, node),
{
}

/// A complex transaction belongs to no node whose balance it neither draws on
/// nor pays to.
pub proof fn law_stranger_does_not_own(
    inputs: Seq<TransactionInput>,
    outputs: Seq<TransactionOutput>,
    node: u32,
)
    requires
        forall|i: int|
            0 <= i < inputs.len() ==> (
            #[trigger] inputs[i] matches TransactionInput::Balance { initializer, .. }
                ==> initializer != node),
        forall|i: int|
            0 <= i < outputs.len() ==> (
            #[trigger] outputs[i] matches TransactionOutput::Balance { receiver } ==> receiver
                != node),
    ensures
        !is_own(BodyView::Complex { inputs, outputs }, node),
{
}

/// Node transfers and registrations belong to their initializer and to nobody
/// else. A node transfer expires by its anchor, a registration never.
pub proof fn law_initializer_owns(
    anchor_sequence: u32,
    initializer: u32,
    amount: u64,
    node: u32,
)
    ensures
        ({
            let transfer = BodyView::NodeTransfer { anchor_sequence, initializer, amount };
            let registration = BodyView::Registration { initializer, registration_price: amount };
            &&& is_own(transfer, node) == (initializer == node)
            &&& is_own(registration, node) == (initializer == node)
            &&& expiry_sequence(transfer) == anchor_sequence
            &&& expiry_sequence(registration) == u32::MAX
        }),
{
}

/// A parsed body and its mathematical form have the same fields.
pub proof fn law_body_shows_every_field(body: TransactionBody)
    ensures
        match body {
            TransactionBody::NodeTransfer { anchor_sequence, initializer, amount } => body@ == (
            BodyView::NodeTransfer { anchor_sequence, initializer, amount }),
            TransactionBody::Registration { initializer, registration_price } => body@ == (
            BodyView::Registration { initializer, registration_price }),
            TransactionBody::Complex { inputs, outputs } => body@ == (BodyView::Complex {
                inputs: inputs@,
                outputs: outputs@,
            }),
            TransactionBody::Unrecognized => body@ == BodyView::Unrecognized,
        },
{
}

/// A transaction may be offered for admission exactly where it has bytes, and
/// the sequence that stands for no expiry is the largest.
pub proof fn law_every_transaction_with_bytes_is_valid(tx: TransactionView<'_>)
    ensures
        tx.wf() <==> tx.bytes@.len() > 0,
        NO_EXPIRY_SEQUENCE == u32::MAX,
{
}

} // verus!
