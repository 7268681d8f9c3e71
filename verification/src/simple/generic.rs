use crate::simple::common::{decr, decrunch_bad_code, decrunch_buffer, decrunch_final_buffer, decrunched};
use crate::simple::DecrunchError;
use vstd::prelude::*;

verus! {

/// The Proto flags used for decompressing, as a type parameter.
#[derive(Copy, Clone, Debug)]
pub struct GenProto<const P: u8>;

impl GenProto<0> {
    pub const P9: GenProto<9> = GenProto;
    pub const P13: GenProto<13> = GenProto;
    pub const P25: GenProto<25> = GenProto;
    pub const P29: GenProto<29> = GenProto;
    pub const P41: GenProto<41> = GenProto;
    pub const P45: GenProto<45> = GenProto;
    pub const P57: GenProto<57> = GenProto;
    pub const P61: GenProto<61> = GenProto;
}

impl<const P: u8> GenProto<P> {
    /// Convert to the number of a proto.
    pub fn to_num(self) -> (n: u8)
        ensures
            n == P,
    {
        P
    }
}

/// Decrunch data.
///
/// The data is read from `src` and written to the end of `dst`; the part of
/// `dst` that holds it is returned. See [simple](crate::simple) for more information.
///
/// # Errors
///
/// See [`DecrunchError`] for possible errors (though `DecrunchError::BufferTooBig` will never returned).
/// After an error `dst` holds what was written into its tail before it
/// (see [`crate::simple::common::decrunch_final_buffer`]).
pub fn decrunch<'a, const P: u8>(proto: GenProto<P>, src: &[u8], dst: &'a mut [u8]) -> (r: Result<
    &'a mut [u8],
    DecrunchError,
>)
    requires
        !decrunch_bad_code(P, src@, old(dst)@),
    ensures
        match r {
            Ok(tail) => decrunch_buffer(P, src@, old(dst)@) matches Ok((out, n)) && tail@
                == out.subrange(out.len() - n, out.len() as int) && final(dst)@ == out.subrange(
                0,
                out.len() - n,
            ) + final(tail)@,
            Err(e) => decrunched(P, src@, old(dst)@) == Err::<Seq<u8>, DecrunchError>(e) && final(dst)@
                == decrunch_final_buffer(P, src@, old(dst)@),
        },
{
    decr(P, src, dst)
}

/// Decrunch data.
///
/// The output buffer must be the exact size of the decrunched data.
///
/// # Errors
///
/// See [`DecrunchError`] for possible errors, will return `DecrunchError::BufferTooBig` when the
/// size of the decompressed data smaller than the size of the destination; `dst` then holds
/// the data at its end. After another error `dst` holds what was written into its tail
/// before it.
pub fn decrunch_exact<const P: u8>(proto: GenProto<P>, src: &[u8], dst: &mut [u8]) -> (r: Result<
    (),
    DecrunchError,
>)
    requires
        !decrunch_bad_code(P, src@, old(dst)@),
    ensures
        match decrunched(P, src@, old(dst)@) {
            Ok(data) => if data.len() == old(dst)@.len() {
                r is Ok && final(dst)@ == data
            } else {
                r == Err::<(), DecrunchError>(DecrunchError::BufferTooBig)
            },
            Err(e) => r == Err::<(), DecrunchError>(e),
        },
        final(dst)@ == decrunch_final_buffer(P, src@, old(dst)@),
{
    let dst_len = dst.len();
    match decr(P, src, dst) {
        Ok(tail) => {
            let ghost t = tail@;
            if tail.len() == dst_len {
                proof {
                    let (out, n) = decrunch_buffer(P, src@, old(dst)@).unwrap();
                    assert(out.subrange(0, out.len() - n) + t =~= out.subrange(out.len() - n, out.len() as int));
                }
                Ok(())
            } else {
                Err(DecrunchError::BufferTooBig)
            }
        },
        Err(e) => Err(e),
    }
}

} // verus!
