//! What of a key a filter over a table is built of.

use crate::key::{FullKey, FullKeyView};
use vstd::prelude::*;

verus! {

/// The part of a key that is put into the filter of a table.
#[derive(Debug, Clone, Copy, PartialEq, Eq, Structural)]
pub enum FilterKeyExtractorImpl {
    /// The whole table key.
    FullKey,
    /// Nothing: the table gets no filter that could tell keys apart.
    Dummy,
    /// The first bytes of the table key, as many as given; the whole table
    /// key where it is shorter.
    FixedLength(usize),
}

impl FilterKeyExtractorImpl {
    /// What the extractor takes from `key`.
    pub open spec fn extracted(self, key: FullKeyView) -> Seq<u8> {
        match self {
            FilterKeyExtractorImpl::FullKey => key.user_key.table_key,
            FilterKeyExtractorImpl::Dummy => Seq::empty(),
            FilterKeyExtractorImpl::FixedLength(n) => if n <= key.user_key.table_key.len() {
                key.user_key.table_key.take(n as int)
            } else {
                key.user_key.table_key
            },
        }
    }

    /// What the extractor takes from `key`.
    pub fn extract(&self, key: &FullKey) -> (r: Vec<u8>)
        ensures
            r@ == self.extracted(key@),
    {
        let table_key = key.user_key.table_key.as_slice();
        let n: usize = match self {
            FilterKeyExtractorImpl::FullKey => table_key.len(),
            FilterKeyExtractorImpl::Dummy => 0,
            FilterKeyExtractorImpl::FixedLength(n) => if *n <= table_key.len() {
                *n
            } else {
                table_key.len()
            },
        };
        let mut r: Vec<u8> = Vec::new();
        let mut i: usize = 0;
        while i < n
            invariant
                i <= n <= table_key@.len(),
                r@ == table_key@.take(i as int),
            decreases n - i,
        {
            r.push(table_key[i]);
            proof {
                crate::seqs::lemma_take_step(table_key@, i as int);
                assert(table_key@.take(i + 1).take(i as int) =~= table_key@.take(i as int));
            }
            i = i + 1;
        }
        proof {
            crate::seqs::lemma_take_all(table_key@);
            assert(table_key@.take(0) =~= Seq::<u8>::empty());
        }
        r
    }
}

} // verus!
