use crate::simple::common::{decr, decrunch_bad_code, decrunch_buffer, decrunch_final_buffer, decrunched};
use crate::simple::DecrunchError;
use vstd::prelude::*;

verus! {

/// Error returned by trying to convert an unsupported number into [`DynProto`].
#[derive(Clone, Copy, Debug, PartialEq, Eq, Structural)]
pub struct InvalidProtoError;

/// The Proto flags used for decompressing.
#[derive(Clone, Copy, Debug, PartialEq, Eq, Structural)]
pub enum DynProto {
    P9,
    P13,
    P25,
    P29,
    P41,
    P45,
    P57,
    P61,
}

/// The protos that the simple decrunchers support: 9 with any of the flags
/// 4, 16 and 32 added.
pub open spec fn is_supported_proto(value: u8) -> bool {
    (value | 4 | 16 | 32) == 61
}

impl DynProto {
    /// The number of the proto.
    pub open spec fn num(self) -> u8 {
        match self {
            DynProto::P9 => 9,
            DynProto::P13 => 13,
            DynProto::P25 => 25,
            DynProto::P29 => 29,
            DynProto::P41 => 41,
            DynProto::P45 => 45,
            DynProto::P57 => 57,
            DynProto::P61 => 61,
        }
    }

    /// The proto of a supported number.
    pub open spec fn of_num(value: u8) -> DynProto {
        if value == 13 {
            DynProto::P13
        } else if value == 25 {
            DynProto::P25
        } else if value == 29 {
            DynProto::P29
        } else if value == 41 {
            DynProto::P41
        } else if value == 45 {
            DynProto::P45
        } else if value == 57 {
            DynProto::P57
        } else if value == 61 {
            DynProto::P61
        } else {
            DynProto::P9
        }
    }

    /// The result of converting `value`: its proto when it is supported.
    pub open spec fn try_of_num(value: u8) -> Result<DynProto, InvalidProtoError> {
        if is_supported_proto(value) {
            Ok(DynProto::of_num(value))
        } else {
            Err(InvalidProtoError)
        }
    }

    /// Convert from the number of a proto.
    ///
    /// # Errors
    ///
    /// Will return [`InvalidProtoError`] when an unsupported number is used.
    pub fn from_num(value: u8) -> (r: Result<Self, InvalidProtoError>)
        ensures
            r is Ok <==> is_supported_proto(value),
            r matches Ok(p) ==> p.num() == value,
            r == Self::try_of_num(value),
    {
        proof {
            assert((value | 4 | 16 | 32) == 61 <==> (value == 9 || value == 13 || value == 25 || value == 29
                || value == 41 || value == 45 || value == 57 || value == 61)) by (bit_vector);
        }
        match value {
            9 => Ok(DynProto::P9),
            13 => Ok(DynProto::P13),
            25 => Ok(DynProto::P25),
            29 => Ok(DynProto::P29),
            41 => Ok(DynProto::P41),
            45 => Ok(DynProto::P45),
            57 => Ok(DynProto::P57),
            61 => Ok(DynProto::P61),
            _ => Err(InvalidProtoError),
        }
    }

    /// Convert to the number of a proto.
    pub fn to_num(self) -> (n: u8)
        ensures
            n == self.num(),
            is_supported_proto(n),
    {
        let n: u8 = match self {
            DynProto::P9 => 9,
            DynProto::P13 => 13,
            DynProto::P25 => 25,
            DynProto::P29 => 29,
            DynProto::P41 => 41,
            DynProto::P45 => 45,
            DynProto::P57 => 57,
            DynProto::P61 => 61,
        };
        proof {
            assert((n == 9 || n == 13 || n == 25 || n == 29 || n == 41 || n == 45 || n == 57 || n == 61)
                ==> (n | 4 | 16 | 32) == 61) by (bit_vector);
        }
        n
    }
}

impl TryFrom<u8> for DynProto {
    type Error = InvalidProtoError;

    /// Convert from the number of a proto (see [`DynProto::from_num`]).
    fn try_from(value: u8) -> (r: Result<Self, Self::Error>) {
        DynProto::from_num(value)
    }
}

impl vstd::std_specs::convert::TryFromSpecImpl<u8> for DynProto {
    open spec fn obeys_try_from_spec() -> bool {
        true
    }

    open spec fn try_from_spec(v: u8) -> Result<Self, InvalidProtoError> {
        DynProto::try_of_num(v)
    }
}

impl From<DynProto> for u8 {
    /// The number of a proto (see [`DynProto::to_num`]).
    fn from(value: DynProto) -> (r: Self) {
        value.to_num()
    }
}

impl vstd::std_specs::convert::FromSpecImpl<DynProto> for u8 {
    open spec fn obeys_from_spec() -> bool {
        true
    }

    open spec fn from_spec(v: DynProto) -> Self {
        v.num()
    }
}

/// Every proto has a supported number, and no two protos share one: so
/// `from_num` gives back the proto whose number `to_num` gave.
pub proof fn lemma_proto_num_roundtrip(p: DynProto)
    ensures
        is_supported_proto(p.num()),
        forall|q: DynProto| #[trigger] q.num() == p.num() ==> q == p,
{
    let n = p.num();
    assert((n == 9 || n == 13 || n == 25 || n == 29 || n == 41 || n == 45 || n == 57 || n == 61)
        ==> (n | 4 | 16 | 32) == 61) by (bit_vector);
}

/// Each named proto stands for the number in its name, and each supported
/// number converts to the proto named after it and back.
pub proof fn law_proto_names()
    ensures
        DynProto::P9.num() == 9,
        DynProto::P13.num() == 13,
        DynProto::P25.num() == 25,
        DynProto::P29.num() == 29,
        DynProto::P41.num() == 41,
        DynProto::P45.num() == 45,
        DynProto::P57.num() == 57,
        DynProto::P61.num() == 61,
        forall|p: DynProto| #[trigger] DynProto::try_of_num(p.num()) == Ok::<DynProto, InvalidProtoError>(p),
        forall|v: u8| (#[trigger] DynProto::try_of_num(v)) is Ok ==> DynProto::try_of_num(v)->Ok_0.num() == v,
{
    assert forall|p: DynProto| #[trigger] DynProto::try_of_num(p.num()) == Ok::<DynProto, InvalidProtoError>(p) by {
        let n = p.num();
        assert((n == 9 || n == 13 || n == 25 || n == 29 || n == 41 || n == 45 || n == 57 || n == 61) ==> (n | 4
            | 16 | 32) == 61) by (bit_vector);
    }
    assert forall|v: u8| (#[trigger] DynProto::try_of_num(v)) is Ok implies DynProto::try_of_num(v)->Ok_0.num() == v by {
        assert((v | 4 | 16 | 32) == 61 ==> (v == 9 || v == 13 || v == 25 || v == 29 || v == 41 || v == 45 || v
            == 57 || v == 61)) by (bit_vector);
    }
}

/// Decrunch data.
///
/// The data is read from `src` and written to the end of `dst`; the part of
/// `dst` that holds it is returned. See [simple](crate::simple) for more information.
///
/// # Errors
///
/// See [`DecrunchError`] for possible errors (though `DecrunchError::BufferTooBig` will never returned).
/// After an error `dst` holds what was written into its tail before it
/// (see [`crate::simple::common::decrunch_final_buffer`]).
pub fn decrunch<'a>(proto: DynProto, src: &[u8], dst: &'a mut [u8]) -> (r: Result<&'a mut [u8], DecrunchError>)
    requires
        !decrunch_bad_code(proto.num(), src@, old(dst)@),
    ensures
        match r {
            Ok(tail) => decrunch_buffer(proto.num(), src@, old(dst)@) matches Ok((out, n))
                && tail@ == out.subrange(out.len() - n, out.len() as int)
                && final(dst)@ == out.subrange(0, out.len() - n) + final(tail)@,
            Err(e) => decrunched(proto.num(), src@, old(dst)@) == Err::<Seq<u8>, DecrunchError>(e) && final(dst)@
                == decrunch_final_buffer(proto.num(), src@, old(dst)@),
        },
{
    decr(proto.to_num(), src, dst)
}

/// Decrunch data.
///
/// The output buffer must be the exact size of the decrunched data.
///
/// # Errors
///
/// See [`DecrunchError`] for possible errors, will return `DecrunchError::BufferTooBig` when the
/// size of the decompressed data smaller than the size of the destination; `dst` then holds
/// the data at its end. After another error `dst` holds what was written into its tail
/// before it.
pub fn decrunch_exact(proto: DynProto, src: &[u8], dst: &mut [u8]) -> (r: Result<(), DecrunchError>)
    requires
        !decrunch_bad_code(proto.num(), src@, old(dst)@),
    ensures
        match decrunched(proto.num(), src@, old(dst)@) {
            Ok(data) => if data.len() == old(dst)@.len() {
                r is Ok && final(dst)@ == data
            } else {
                r == Err::<(), DecrunchError>(DecrunchError::BufferTooBig)
            },
            Err(e) => r == Err::<(), DecrunchError>(e),
        },
        final(dst)@ == decrunch_final_buffer(proto.num(), src@, old(dst)@),
{
    let dst_len = dst.len();
    match decr(proto.to_num(), src, dst) {
        Ok(tail) => {
            let ghost t = tail@;
            if tail.len() == dst_len {
                proof {
                    let (out, n) = decrunch_buffer(proto.num(), src@, old(dst)@).unwrap();
                    assert(out.subrange(0, out.len() - n) + t =~= out.subrange(out.len() - n, out.len() as int));
                }
                Ok(())
            } else {
                Err(DecrunchError::BufferTooBig)
            }
        },
        Err(e) => Err(e),
    }
}

} // verus!
