//! Abstract interfaces for systematic error-correcting codes: codes whose
//! codewords embed the message symbols verbatim. Callers implement these for
//! their own code families; the library states only the interface.

use vstd::prelude::*;

verus! {

/// A systematic code, or a family thereof.
pub trait SystematicCodeOrFamily: Sized {

}

/// A systematic code with fixed message and codeword lengths.
pub trait SystematicCode: SystematicCodeOrFamily {
    /// The number of message symbols a codeword embeds.
    fn message_len(&self) -> usize;

    /// The total number of symbols in a codeword.
    fn codeword_len(&self) -> usize;

    /// The number of parity symbols: what the codeword adds to the message.
    fn parity_len(&self) -> usize;
}

/// A systematic code that is also linear.
pub trait SystematicLinearCode: SystematicCode {

}

/// A family of systematic codes.
pub trait SystematicCodeFamily: SystematicCodeOrFamily {

}

} // verus!
