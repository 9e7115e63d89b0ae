use vstd::prelude::*;

verus! {

/// Why an archive, an entry or a compressed stream was refused.
#[derive(Clone, Copy, Debug, PartialEq, Eq, Structural)]
pub enum ErrorKind {
    /// The bytes break a rule of the format.
    InvalidData,
    /// The bytes end before the format says they may.
    UnexpectedEof,
    /// The bytes ask for a method or a feature that is not implemented.
    Unsupported,
}

/// The mathematical content of a decoder's answer.
pub open spec fn bytes_of(r: Result<Vec<u8>, ErrorKind>) -> Result<Seq<u8>, ErrorKind> {
    match r {
        Ok(v) => Ok(v@),
        Err(e) => Err(e),
    }
}

/// Put `head` in front of what a decoder goes on to yield.
pub open spec fn after(head: Seq<u8>, tail: Result<Seq<u8>, ErrorKind>) -> Result<Seq<u8>, ErrorKind> {
    match tail {
        Ok(t) => Ok(head + t),
        Err(e) => Err(e),
    }
}

/// Nothing put in front changes nothing.
pub proof fn after_nothing(r: Result<Seq<u8>, ErrorKind>)
    ensures
        after(Seq::<u8>::empty(), r) == r,
{
    match r {
        Ok(t) => {
            assert(Seq::<u8>::empty() + t =~= t);
        },
        Err(e) => {},
    }
}

/// What is put in front in two steps may be put there in one.
pub proof fn after_after(a: Seq<u8>, b: Seq<u8>, r: Result<Seq<u8>, ErrorKind>)
    ensures
        after(a, after(b, r)) == after(a + b, r),
{
    match r {
        Ok(t) => {
            assert(a + (b + t) =~= (a + b) + t);
        },
        Err(e) => {},
    }
}

/// Append `b` one by one is to append it as a whole.
pub proof fn after_push(a: Seq<u8>, b: u8, r: Result<Seq<u8>, ErrorKind>)
    ensures
        after(a, after(seq![b], r)) == after(a.push(b), r),
{
    after_after(a, seq![b], r);
    assert(a + seq![b] =~= a.push(b));
}

} // verus!
