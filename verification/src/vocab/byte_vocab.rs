//! The byte-level fallback alphabet: one token for every byte value.

use vstd::prelude::*;

verus! {

/// The token of each span's byte, in order.
pub open spec fn byte_tokens(table: Seq<u32>, span: Seq<u8>) -> Seq<u32> {
    Seq::new(span.len(), |i: int| table[span[i] as int])
}

/// A total map from byte values to tokens.
pub struct ByteMapVocab {
    table: Vec<u32>,
}

impl ByteMapVocab {
    /// The token of each byte value, by value: 256 entries.
    pub closed spec fn table(&self) -> Seq<u32> {
        self.table@
    }

    /// Every byte value has a token.
    pub open spec fn wf(&self) -> bool {
        self.table().len() == 256
    }

    /// A byte vocabulary over `table`, which must give all 256 byte values a
    /// token; `None` where it does not.
    pub fn from_table(table: Vec<u32>) -> (r: Option<Self>)
        ensures
            r is Some <==> table@.len() == 256,
            r matches Some(v) ==> v.wf() && v.table() == table@,
    {
        if table.len() == 256 {
            Some(ByteMapVocab { table })
        } else {
            None
        }
    }

    /// The token of byte `b`.
    pub fn get_token(&self, b: u8) -> (t: u32)
        requires
            self.wf(),
        ensures
            t == self.table()[b as int],
    {
        self.table[b as usize]
    }

    /// Appends one token per byte of `span` to `tokens`.
    pub fn append_tokens(&self, span: &[u8], tokens: &mut Vec<u32>)
        requires
            self.wf(),
        ensures
            final(tokens)@ == old(tokens)@ + byte_tokens(self.table(), span@),
    {
        let ghost before = tokens@;
        let mut i: usize = 0;
        while i < span.len()
            invariant
                i <= span.len(),
                self.wf(),
                tokens@ == before + byte_tokens(self.table(), span@.take(i as int)),
            decreases span.len() - i,
        {
            tokens.push(self.table[span[i] as usize]);
            proof {
                assert(byte_tokens(self.table(), span@.take(i + 1)) =~= byte_tokens(
                    self.table(),
                    span@.take(i as int),
                ).push(self.table()[span@[i as int] as int]));
            }
            i += 1;
        }
        proof {
            assert(span@.take(i as int) =~= span@);
        }
    }
}

} // verus!
