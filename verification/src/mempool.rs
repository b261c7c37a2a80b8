//! The encrypted mempool: a first-in first-out queue of encrypted transactions
//! that consensus orders blindly, and batch decryption once they are ordered.
use vstd::prelude::*;

use std::collections::VecDeque;

use crate::crypto::{ThresholdScheme, derived_key, lagrange_secret, shares_small, xor_stream};
use crate::types::{EncryptedTx, EncryptedTxView, etx_views};

verus! {

/// Encrypted transactions waiting to be proposed, oldest first.
pub struct EncryptedMempool {
    queue: VecDeque<EncryptedTx>,
}

impl View for EncryptedMempool {
    type V = Seq<EncryptedTxView>;

    closed spec fn view(&self) -> Seq<EncryptedTxView> {
        etx_views(self.queue@)
    }
}

impl EncryptedMempool {
    /// An empty mempool.
    pub fn new() -> (m: Self)
        ensures
            m@ == Seq::<EncryptedTxView>::empty(),
    {
        let m = EncryptedMempool { queue: VecDeque::new() };
        proof { assert(m@ =~= Seq::<EncryptedTxView>::empty()); }
        m
    }

    /// Queues `enc_tx` behind the others.
    pub fn submit(&mut self, enc_tx: EncryptedTx)
        ensures
            final(self)@ == old(self)@.push(enc_tx@),
    {
        self.queue.push_back(enc_tx);
        proof { assert(self@ =~= old(self)@.push(enc_tx@)); }
    }

    /// How many transactions wait.
    pub fn len(&self) -> (n: usize)
        ensures
            n == self@.len(),
    {
        self.queue.len()
    }

    /// Whether none wait.
    pub fn is_empty(&self) -> (b: bool)
        ensures
            b == (self@.len() == 0),
    {
        self.queue.len() == 0
    }

    /// Takes the oldest `max_txs` transactions (all of them if fewer wait), in
    /// queue order, for a proposal made without seeing their plaintext.
    pub fn drain_batch(&mut self, max_txs: usize) -> (batch: Vec<EncryptedTx>)
        ensures
            etx_views(batch@) == old(self)@.take(if max_txs < old(self)@.len() { max_txs as int } else { old(self)@.len() as int }),
            final(self)@ == old(self)@.skip(if max_txs < old(self)@.len() { max_txs as int } else { old(self)@.len() as int }),
    {
        let ghost q0 = self.queue@;
        let count = if max_txs < self.queue.len() { max_txs } else { self.queue.len() };
        let mut batch: Vec<EncryptedTx> = Vec::new();
        for i in 0..count
            invariant
                count <= q0.len(),
                batch@ == q0.subrange(0, i as int),
                self.queue@ == q0.subrange(i as int, q0.len() as int),
        {
            match self.queue.pop_front() {
                Some(tx) => {
                    batch.push(tx);
                    proof { assert(batch@ =~= q0.subrange(0, i + 1)); }
                },
                None => {},
            }
            proof { assert(self.queue@ =~= q0.subrange(i + 1, q0.len() as int)); }
        }
        proof {
            assert(etx_views(batch@) =~= etx_views(q0).take(count as int));
            assert(etx_views(self.queue@) =~= etx_views(q0).skip(count as int));
        }
        batch
    }

    /// Decrypts the ordered transactions one by one with the threshold shares,
    /// giving each one's serialized plaintext; fails with "no shares" as soon as
    /// one cannot be decrypted.
    pub fn decrypt_ordered_batch(ordered_enc_txs: &[EncryptedTx], shares: &[(i128, i128)]) -> (r: Result<Vec<Vec<u8>>, &'static str>)
        requires
            shares_small(shares@),
        ensures
            r is Err <==> (ordered_enc_txs@.len() > 0 && shares@.len() == 0),
            r matches Err(e) ==> e@ == "no shares"@,
            r matches Ok(p) ==> p@.len() == ordered_enc_txs@.len() && forall|i: int| 0 <= i < p@.len() ==>
                (#[trigger] p@[i])@ == xor_stream(ordered_enc_txs@[i].ciphertext@, derived_key(lagrange_secret(shares@) as i128)),
    {
        let mut decrypted: Vec<Vec<u8>> = Vec::new();
        let n = ordered_enc_txs.len();
        for i in 0..n
            invariant
                n == ordered_enc_txs@.len(),
                shares_small(shares@),
                n > 0 ==> shares@.len() > 0 || i == 0,
                decrypted@.len() == i,
                forall|j: int| 0 <= j < i ==>
                    (#[trigger] decrypted@[j])@ == xor_stream(ordered_enc_txs@[j].ciphertext@, derived_key(lagrange_secret(shares@) as i128)),
        {
            match ThresholdScheme::decrypt_with_shares(shares, &ordered_enc_txs[i]) {
                Ok(p) => { decrypted.push(p); },
                Err(e) => { return Err(e); },
            }
        }
        Ok(decrypted)
    }
}

} // verus!
