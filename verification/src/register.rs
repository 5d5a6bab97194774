use vstd::prelude::*;

verus! {

/// Why a register could not be read or written.
#[derive(Clone, Copy, Debug, PartialEq, Eq, Structural)]
pub enum RegisterError {
    /// A word held a value that the field's type has no variant for.
    ConversionError,
    /// A field held a value that has no encoding in the register.
    InvalidConfiguration,
}

pub type RegisterResult<T> = Result<T, RegisterError>;

/// A register of a device: where it lives, how many words it spans, and the
/// value it holds after reset.
pub trait Register<WORD>: Sized {
    const ADDRESS: WORD;

    const LENGTH: usize;

    /// The value the register holds after reset.
    spec fn spec_reset_value() -> Self;

    fn reset_value() -> (r: Self)
        ensures
            r == Self::spec_reset_value(),
    ;
}

/// Register is readable
pub trait ReadableRegister<WORD, T: Register<WORD> = Self>: Register<WORD> + Sized {
    /// What a buffer of `LENGTH` words decodes to.
    spec fn spec_from_bytes(buffer: Seq<WORD>) -> RegisterResult<Self>;

    /// Convert buffer into type.
    fn from_bytes(buffer: &[WORD]) -> (r: RegisterResult<Self>)
        requires
            buffer@.len() == Self::LENGTH,
        ensures
            r == Self::spec_from_bytes(buffer@),
    ;
}

/// Register is writeable
pub trait WriteableRegister<WORD, T: Register<WORD> = Self>: Register<WORD> + Sized {
    /// The words that encode the register, or why it cannot be encoded.
    spec fn spec_into_bytes(&self) -> RegisterResult<Seq<WORD>>;

    fn into_bytes(&self) -> (r: RegisterResult<Vec<WORD>>)
        ensures
            match r {
                Ok(words) => self.spec_into_bytes() == Ok::<Seq<WORD>, RegisterError>(words@)
                    && words@.len() == Self::LENGTH,
                Err(e) => self.spec_into_bytes() == Err::<Seq<WORD>, RegisterError>(e),
            },
    ;
}

} // verus!
