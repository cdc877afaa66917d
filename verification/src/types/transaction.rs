//! Transactions: inputs that spend earlier outputs, and the outputs they
//! create.

use vstd::prelude::*;
use crate::codec::{enc_bytes, enc_u128, enc_u256, enc_u64, put_bytes, put_u128, put_u256, put_u64};
use crate::crypto::{PublicKey, Signature};
use crate::sha256::spec_hash;

verus! {

/// What a [`TransactionInput`] stands for.
pub struct InputView {
    pub prev_transaction_output_hash: crate::sha256::Hash,
    pub signature: Seq<u8>,
}

/// What a [`TransactionOutput`] stands for.
pub struct OutputView {
    pub value: u64,
    pub unique_id: u128,
    pub pubkey: Seq<u8>,
}

/// What a [`Transaction`] stands for.
pub struct TransactionView {
    pub inputs: Seq<InputView>,
    pub outputs: Seq<OutputView>,
}

impl InputView {
    /// The bytes that stand for the input in a digest.
    pub open spec fn encoding(self) -> Seq<u8> {
        enc_u256(self.prev_transaction_output_hash.0) + enc_bytes(self.signature)
    }
}

impl OutputView {
    /// The bytes that stand for the output in a digest.
    pub open spec fn encoding(self) -> Seq<u8> {
        enc_u64(self.value) + enc_u128(self.unique_id) + enc_bytes(self.pubkey)
    }

    /// The digest of the output.
    pub open spec fn digest(self) -> crate::sha256::Hash {
        spec_hash(self.encoding())
    }
}

/// The encodings of the inputs, one after the other.
pub open spec fn encode_inputs(inputs: Seq<InputView>) -> Seq<u8>
    decreases inputs.len(),
{
    if inputs.len() == 0 {
        Seq::empty()
    } else {
        encode_inputs(inputs.drop_last()) + inputs.last().encoding()
    }
}

/// The encodings of the outputs, one after the other.
pub open spec fn encode_outputs(outputs: Seq<OutputView>) -> Seq<u8>
    decreases outputs.len(),
{
    if outputs.len() == 0 {
        Seq::empty()
    } else {
        encode_outputs(outputs.drop_last()) + outputs.last().encoding()
    }
}

/// The sum of the values of the outputs.
pub open spec fn outputs_value(outputs: Seq<OutputView>) -> nat
    decreases outputs.len(),
{
    if outputs.len() == 0 {
        0
    } else {
        outputs_value(outputs.drop_last()) + outputs.last().value as nat
    }
}

/// The sum over a prefix of the outputs is at most the sum over all.
pub proof fn lemma_outputs_value_prefix(outputs: Seq<OutputView>, n: int)
    requires
        0 <= n <= outputs.len(),
    ensures
        outputs_value(outputs.take(n)) <= outputs_value(outputs),
    decreases outputs.len(),
{
    if n == outputs.len() {
        assert(outputs.take(n) =~= outputs);
    } else {
        lemma_outputs_value_prefix(outputs.drop_last(), n);
        assert(outputs.drop_last().take(n) =~= outputs.take(n));
    }
}

impl TransactionView {
    /// The bytes that stand for the transaction in a digest: the number of
    /// inputs, the inputs, the number of outputs, the outputs.
    pub open spec fn encoding(self) -> Seq<u8> {
        enc_u64(self.inputs.len() as u64) + encode_inputs(self.inputs) + enc_u64(
            self.outputs.len() as u64,
        ) + encode_outputs(self.outputs)
    }

    /// The digest of the transaction, under which its outputs are recorded.
    pub open spec fn digest(self) -> crate::sha256::Hash {
        spec_hash(self.encoding())
    }
}

/// A reference to an earlier output, with the signature that authorises
/// spending it.
#[derive(Debug, PartialEq, Eq)]
pub struct TransactionInput {
    /// The digest of the transaction under which the output was recorded.
    pub prev_transaction_output_hash: crate::sha256::Hash,
    pub signature: Signature,
}

impl View for TransactionInput {
    type V = InputView;

    open spec fn view(&self) -> InputView {
        InputView {
            prev_transaction_output_hash: self.prev_transaction_output_hash,
            signature: self.signature@,
        }
    }
}

impl Clone for TransactionInput {
    fn clone(&self) -> (r: Self)
        ensures
            r@ == self@,
    {
        TransactionInput {
            prev_transaction_output_hash: self.prev_transaction_output_hash,
            signature: self.signature.clone(),
        }
    }
}

impl TransactionInput {
    /// Appends the encoding of the input.
    pub fn encode_into(&self, out: &mut Vec<u8>)
        ensures
            final(out)@ == old(out)@ + self@.encoding(),
    {
        put_u256(out, &self.prev_transaction_output_hash.0);
        put_bytes(out, self.signature.bytes.as_slice());
        proof {
            assert(out@ =~= old(out)@ + self@.encoding());
        }
    }
}

/// An amount, made spendable by the owner of a public key.
#[derive(Debug, PartialEq, Eq)]
pub struct TransactionOutput {
    pub value: u64,
    /// Tells apart two outputs of the same value and owner.
    pub unique_id: u128,
    pub pubkey: PublicKey,
}

impl View for TransactionOutput {
    type V = OutputView;

    open spec fn view(&self) -> OutputView {
        OutputView { value: self.value, unique_id: self.unique_id, pubkey: self.pubkey@ }
    }
}

impl Clone for TransactionOutput {
    fn clone(&self) -> (r: Self)
        ensures
            r@ == self@,
    {
        TransactionOutput {
            value: self.value,
            unique_id: self.unique_id,
            pubkey: self.pubkey.clone(),
        }
    }
}

impl TransactionOutput {
    /// Appends the encoding of the output.
    pub fn encode_into(&self, out: &mut Vec<u8>)
        ensures
            final(out)@ == old(out)@ + self@.encoding(),
    {
        put_u64(out, self.value);
        put_u128(out, self.unique_id);
        put_bytes(out, self.pubkey.bytes.as_slice());
        proof {
            assert(out@ =~= old(out)@ + self@.encoding());
        }
    }

    /// The digest of the output.
    pub fn hash(&self) -> (h: crate::sha256::Hash)
        ensures
            h == self@.digest(),
    {
        let mut bytes: Vec<u8> = Vec::new();
        self.encode_into(&mut bytes);
        proof {
            assert(bytes@ =~= self@.encoding());
        }
        crate::sha256::Hash::hash(bytes.as_slice())
    }
}

/// The views of a list of inputs.
pub open spec fn input_views(inputs: Seq<TransactionInput>) -> Seq<InputView> {
    inputs.map_values(|i: TransactionInput| i@)
}

/// The views of a list of outputs.
pub open spec fn output_views(outputs: Seq<TransactionOutput>) -> Seq<OutputView> {
    outputs.map_values(|o: TransactionOutput| o@)
}

/// An ordered list of inputs and an ordered list of outputs.
#[derive(Debug, PartialEq, Eq)]
pub struct Transaction {
    pub inputs: Vec<TransactionInput>,
    pub outputs: Vec<TransactionOutput>,
}

impl View for Transaction {
    type V = TransactionView;

    open spec fn view(&self) -> TransactionView {
        TransactionView { inputs: input_views(self.inputs@), outputs: output_views(self.outputs@) }
    }
}

impl Clone for Transaction {
    fn clone(&self) -> (r: Self)
        ensures
            r@ == self@,
    {
        let mut inputs: Vec<TransactionInput> = Vec::new();
        let mut i: usize = 0;
        while i < self.inputs.len()
            invariant
                i <= self.inputs@.len(),
                inputs@.len() == i,
                input_views(inputs@) == input_views(self.inputs@).take(i as int),
            decreases self.inputs@.len() - i,
        {
            let ghost before = inputs@;
            let input = self.inputs[i].clone();
            inputs.push(input);
            proof {
                let want = input_views(self.inputs@).take(i + 1);
                assert forall|k: int| 0 <= k < want.len() implies input_views(inputs@)[k]
                    == want[k] by {
                    if k < i {
                        assert(input_views(before)[k] == input_views(self.inputs@).take(i as int)[k]);
                    }
                }
                assert(input_views(inputs@) =~= want);
            }
            i += 1;
        }
        let mut outputs: Vec<TransactionOutput> = Vec::new();
        let mut j: usize = 0;
        while j < self.outputs.len()
            invariant
                j <= self.outputs@.len(),
                outputs@.len() == j,
                output_views(outputs@) == output_views(self.outputs@).take(j as int),
            decreases self.outputs@.len() - j,
        {
            let ghost before = outputs@;
            let output = self.outputs[j].clone();
            outputs.push(output);
            proof {
                let want = output_views(self.outputs@).take(j + 1);
                assert forall|k: int| 0 <= k < want.len() implies output_views(outputs@)[k]
                    == want[k] by {
                    if k < j {
                        assert(output_views(before)[k] == output_views(self.outputs@).take(
                            j as int,
                        )[k]);
                    }
                }
                assert(output_views(outputs@) =~= want);
            }
            j += 1;
        }
        proof {
            assert(input_views(self.inputs@).take(i as int) =~= input_views(self.inputs@));
            assert(output_views(self.outputs@).take(j as int) =~= output_views(self.outputs@));
        }
        Transaction { inputs, outputs }
    }
}

impl Transaction {
    /// A transaction from its inputs and outputs.
    pub fn new(inputs: Vec<TransactionInput>, outputs: Vec<TransactionOutput>) -> (t: Transaction)
        ensures
            t.inputs == inputs,
            t.outputs == outputs,
    {
        Transaction { inputs, outputs }
    }

    /// Appends the encoding of the transaction.
    pub fn encode_into(&self, out: &mut Vec<u8>)
        ensures
            final(out)@ == old(out)@ + self@.encoding(),
    {
        let ghost start = out@;
        put_u64(out, self.inputs.len() as u64);
        let ghost head = out@;
        let mut i: usize = 0;
        proof {
            assert(out@ =~= head + encode_inputs(self@.inputs.take(0)));
        }
        while i < self.inputs.len()
            invariant
                i <= self.inputs@.len(),
                out@ == head + encode_inputs(self@.inputs.take(i as int)),
            decreases self.inputs@.len() - i,
        {
            self.inputs[i].encode_into(out);
            proof {
                let next = self@.inputs.take(i + 1);
                assert(next.drop_last() =~= self@.inputs.take(i as int));
                assert(next.last() == self.inputs@[i as int]@);
                assert(out@ =~= head + encode_inputs(next));
            }
            i += 1;
        }
        proof {
            assert(self@.inputs.take(i as int) =~= self@.inputs);
        }
        put_u64(out, self.outputs.len() as u64);
        let ghost middle = out@;
        let mut j: usize = 0;
        proof {
            assert(out@ =~= middle + encode_outputs(self@.outputs.take(0)));
        }
        while j < self.outputs.len()
            invariant
                j <= self.outputs@.len(),
                out@ == middle + encode_outputs(self@.outputs.take(j as int)),
            decreases self.outputs@.len() - j,
        {
            self.outputs[j].encode_into(out);
            proof {
                let next = self@.outputs.take(j + 1);
                assert(next.drop_last() =~= self@.outputs.take(j as int));
                assert(next.last() == self.outputs@[j as int]@);
                assert(out@ =~= middle + encode_outputs(next));
            }
            j += 1;
        }
        proof {
            assert(self@.outputs.take(j as int) =~= self@.outputs);
            assert(out@ =~= start + self@.encoding());
        }
    }

    /// The digest of the transaction.
    pub fn hash(&self) -> (h: crate::sha256::Hash)
        ensures
            h == self@.digest(),
    {
        let mut bytes: Vec<u8> = Vec::new();
        self.encode_into(&mut bytes);
        proof {
            assert(bytes@ =~= self@.encoding());
        }
        crate::sha256::Hash::hash(bytes.as_slice())
    }

    /// The sum of the values of the outputs.
    pub fn outputs_total(&self) -> (total: u128)
        ensures
            total == outputs_value(self@.outputs),
    {
        let mut sum: u128 = 0;
        let mut j: usize = 0;
        while j < self.outputs.len()
            invariant
                j <= self.outputs@.len(),
                sum == outputs_value(self@.outputs.take(j as int)),
                sum <= j * u64::MAX,
            decreases self.outputs@.len() - j,
        {
            proof {
                let next = self@.outputs.take(j + 1);
                assert(next.drop_last() =~= self@.outputs.take(j as int));
                assert(next.last() == self.outputs@[j as int]@);
            }
            sum = sum + self.outputs[j].value as u128;
            j += 1;
        }
        proof {
            assert(self@.outputs.take(j as int) =~= self@.outputs);
        }
        sum
    }
}

} // verus!
