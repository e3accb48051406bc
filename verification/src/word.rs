//! The validated five-letter word type: exactly five ASCII lowercase
//! letters, constructed only through checked factories.

use vstd::prelude::*;
use vstd::string::StringSliceAdditionalSpecFns;

verus! {

/// A byte is an ASCII lowercase letter.
pub open spec fn is_lower_byte(b: u8) -> bool {
    97 <= b <= 122
}

/// A byte sequence forms a legal word: exactly five lowercase letters.
pub open spec fn wf_word(s: Seq<u8>) -> bool {
    s.len() == 5 && forall|i: int| 0 <= i < 5 ==> is_lower_byte(#[trigger] s[i])
}

/// Why a string was rejected as a word.
#[derive(Clone, Copy, Debug, PartialEq, Eq, Structural)]
pub enum WordError {
    /// The input is not exactly five bytes long.
    Length,
    /// The input holds a byte outside the lowercase letters.
    Charset,
}

/// A word of exactly five ASCII lowercase letters.
#[derive(Debug)]
pub struct Word {
    bytes: Vec<u8>,
}

impl View for Word {
    type V = Seq<u8>;

    closed spec fn view(&self) -> Seq<u8> {
        self.bytes@
    }
}

impl Word {
    /// Every word value is well formed: recover this about any held
    /// `Word` with `use_type_invariant`.
    #[verifier::type_invariant]
    pub open spec fn inv(self) -> bool {
        wf_word(self@)
    }

    /// Checked factory from raw bytes: succeeds exactly on five
    /// lowercase letters, and says which rule was broken otherwise.
    pub fn from_bytes(b: &[u8]) -> (r: Result<Word, WordError>)
        ensures
            match r {
                Ok(w) => w@ == b@ && wf_word(b@),
                Err(WordError::Length) => b@.len() != 5,
                Err(WordError::Charset) => b@.len() == 5 && !wf_word(b@),
            },
    {
        if b.len() != 5 {
            return Err(WordError::Length);
        }
        let mut bytes: Vec<u8> = Vec::new();
        let mut i: usize = 0;
        while i < 5
            invariant
                i <= 5,
                b@.len() == 5,
                bytes@ == b@.subrange(0, i as int),
                forall|j: int| 0 <= j < i ==> is_lower_byte(#[trigger] b@[j]),
            decreases 5 - i,
        {
            let c = *vstd::slice::slice_index_get(b, i);
            if c < 97 || c > 122 {
                return Err(WordError::Charset);
            }
            bytes.push(c);
            proof {
                assert(bytes@ =~= b@.subrange(0, i + 1));
            }
            i = i + 1;
        }
        proof {
            assert(bytes@ =~= b@);
        }
        Ok(Word { bytes })
    }

    /// Checked factory from a string slice, judged on its UTF-8 bytes.
    pub fn new(s: &str) -> (r: Result<Word, WordError>)
        ensures
            match r {
                Ok(w) => w@ == s.spec_bytes() && wf_word(s.spec_bytes()),
                Err(WordError::Length) => s.spec_bytes().len() != 5,
                Err(WordError::Charset) => s.spec_bytes().len() == 5 && !wf_word(s.spec_bytes()),
            },
    {
        Word::from_bytes(s.as_bytes())
    }

    /// The letter at a position.
    pub fn letter(&self, i: usize) -> (b: u8)
        requires
            i < 5,
        ensures
            b == self@[i as int],
            is_lower_byte(b),
    {
        proof {
            use_type_invariant(self);
        }
        self.bytes[i]
    }

    /// Word equality goes by the letters.
    pub fn same(&self, other: &Word) -> (r: bool)
        ensures
            r == (self@ == other@),
    {
        proof {
            use_type_invariant(self);
            use_type_invariant(other);
        }
        let mut i: usize = 0;
        while i < 5
            invariant
                i <= 5,
                wf_word(self@),
                wf_word(other@),
                forall|j: int| 0 <= j < i ==> self@[j] == other@[j],
            decreases 5 - i,
        {
            if self.bytes[i] != other.bytes[i] {
                return false;
            }
            i = i + 1;
        }
        proof {
            assert(self@ =~= other@);
        }
        true
    }

    /// The letters of the word, as plain bytes.
    pub fn to_bytes(&self) -> (r: Vec<u8>)
        ensures
            r@ == self@,
            wf_word(self@),
    {
        proof {
            use_type_invariant(self);
        }
        let mut r: Vec<u8> = Vec::new();
        let mut i: usize = 0;
        while i < 5
            invariant
                i <= 5,
                wf_word(self@),
                r@ == self@.subrange(0, i as int),
            decreases 5 - i,
        {
            r.push(self.bytes[i]);
            proof {
                assert(r@ =~= self@.subrange(0, i + 1));
            }
            i = i + 1;
        }
        proof {
            assert(r@ =~= self@);
        }
        r
    }
}

impl Clone for Word {
    /// A clone carries the same letters.
    fn clone(&self) -> (r: Word)
        ensures
            r@ == self@,
    {
        proof {
            use_type_invariant(self);
        }
        Word { bytes: self.bytes.clone() }
    }
}

} // verus!
