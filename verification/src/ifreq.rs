//! The request by which a program attaches to a TUN or TAP interface: the name
//! of the interface in a field of fixed size, and flags.
use crate::text::{from_utf8_lossy, lossy_text};
use vstd::prelude::*;
use vstd::utf8::{decode_utf8, encode_utf8, encode_utf8_decode_utf8, encode_utf8_valid_utf8};

verus! {

/// How many bytes the name of an interface takes at most, with the zero byte
/// behind it.
pub const IFNAMSIZ: usize = 16;

/// The TUN device that programs use where none is named.
pub const DEFAULT_TUN_NAME: &'static str = "tun144";

/// The TAP device that programs use where none is named.
pub const DEFAULT_TAP_NAME: &'static str = "tap144";

/// Why a text is no name of an interface.
#[derive(Debug, Clone, Copy, PartialEq, Eq, Structural)]
pub enum InterfaceNameError {
    Empty,
    ContainsNul,
    TooLong,
}

/// Why the bytes of a text are no name of an interface, if they are none.
pub open spec fn name_rejection(name: Seq<u8>) -> Option<InterfaceNameError> {
    if name.len() == 0 {
        Some(InterfaceNameError::Empty)
    } else if name.contains(0) {
        Some(InterfaceNameError::ContainsNul)
    } else if name.len() >= IFNAMSIZ {
        Some(InterfaceNameError::TooLong)
    } else {
        None
    }
}

/// The bytes in front of the first zero byte.
pub open spec fn before_nul(bytes: Seq<u8>) -> Seq<u8>
    decreases bytes.len(),
{
    if bytes.len() == 0 || bytes[0] == 0 {
        Seq::empty()
    } else {
        seq![bytes[0]] + before_nul(bytes.drop_first())
    }
}

/// A request to attach to an interface.
#[derive(Debug, Clone, Copy)]
pub struct IfReq {
    pub ifr_name: [u8; 16],
    pub ifr_flags: i16,
}

impl IfReq {
    /// Whether the name stands in its field, with zero bytes behind it.
    pub open spec fn is_named(self, name: Seq<u8>) -> bool {
        &&& name.len() < 16
        &&& self.ifr_name@.take(name.len() as int) == name
        &&& forall|i: int| name.len() <= i < 16 ==> self.ifr_name[i] == 0
    }

    pub fn new(name: &str, flags: i16) -> (result: Result<Self, InterfaceNameError>)
        ensures
            match result {
                Ok(request) => {
                    &&& name_rejection(encode_utf8(name@)) is None
                    &&& request.is_named(encode_utf8(name@))
                    &&& request.ifr_flags == flags
                },
                Err(error) => name_rejection(encode_utf8(name@)) == Some(error),
            },
    {
        if let Err(error) = validate_interface_name(name) {
            return Err(error);
        }
        let bytes = name.as_bytes();
        let mut ifr_name: [u8; 16] = [0; 16];
        let mut index: usize = 0;
        while index < bytes.len()
            invariant
                index <= bytes@.len() < 16,
                forall|i: int| 0 <= i < index ==> ifr_name[i] == bytes@[i],
                forall|i: int| index <= i < 16 ==> ifr_name[i] == 0,
            decreases bytes@.len() - index,
        {
            ifr_name[index] = bytes[index];
            index = index + 1;
        }
        assert(ifr_name@.take(bytes@.len() as int) =~= bytes@);
        Ok(Self { ifr_name, ifr_flags: flags })
    }
}

/// Says why a text is no name of an interface, if it is none.
pub fn validate_interface_name(name: &str) -> (result: Result<(), InterfaceNameError>)
    ensures
        match result {
            Ok(_) => name_rejection(encode_utf8(name@)) is None,
            Err(error) => name_rejection(encode_utf8(name@)) == Some(error),
        },
{
    let bytes = name.as_bytes();
    if bytes.len() == 0 {
        return Err(InterfaceNameError::Empty);
    }
    let mut index: usize = 0;
    while index < bytes.len()
        invariant
            bytes@ == encode_utf8(name@),
            bytes@.len() > 0,
            index <= bytes@.len(),
            forall|i: int| 0 <= i < index ==> bytes@[i] != 0,
        decreases bytes@.len() - index,
    {
        if bytes[index] == 0 {
            assert(bytes@.contains(0));
            return Err(InterfaceNameError::ContainsNul);
        }
        index = index + 1;
    }
    if bytes.len() >= IFNAMSIZ {
        return Err(InterfaceNameError::TooLong);
    }
    Ok(())
}

/// The name in the field of a request.
pub fn ifreq_name_to_string(name: &[u8; 16]) -> (text: String)
    ensures
        text@ == lossy_text(before_nul(name@)),
        vstd::utf8::valid_utf8(before_nul(name@)) ==> text@ == decode_utf8(before_nul(name@)),
{
    let mut bytes: Vec<u8> = Vec::new();
    let mut index: usize = 0;
    assert(name@.skip(0) =~= name@);
    assert(bytes@ + before_nul(name@) =~= before_nul(name@));
    while index < 16 && name[index] != 0
        invariant
            index <= 16,
            bytes@ + before_nul(name@.skip(index as int)) == before_nul(name@),
        decreases 16 - index,
    {
        let ghost rest = name@.skip(index as int);
        let ghost before = bytes@;
        assert(rest[0] == name@[index as int]);
        assert(rest.drop_first() =~= name@.skip(index + 1));
        bytes.push(name[index]);
        assert(bytes@ + before_nul(rest.drop_first()) =~= before + before_nul(rest));
        index = index + 1;
    }
    proof {
        let rest = name@.skip(index as int);
        if index < 16 {
            assert(rest[0] == 0);
        }
        assert(before_nul(rest) =~= Seq::empty());
        assert(bytes@ =~= before_nul(name@));
    }
    from_utf8_lossy(bytes.as_slice())
}

/// The name that a request was made with is found in it again.
pub proof fn law_name_round_trip(request: IfReq, name: Seq<char>)
    requires
        name_rejection(encode_utf8(name)) is None,
        request.is_named(encode_utf8(name)),
    ensures
        before_nul(request.ifr_name@) == encode_utf8(name),
        vstd::utf8::valid_utf8(before_nul(request.ifr_name@)),
        decode_utf8(before_nul(request.ifr_name@)) == name,
{
    let bytes = encode_utf8(name);
    assert(request.ifr_name@ =~= bytes + request.ifr_name@.skip(bytes.len() as int));
    assert forall|i: int| 0 <= i < bytes.len() implies bytes[i] != 0 by {
        if bytes[i] == 0 {
            assert(bytes.contains(0));
        }
    }
    lemma_before_nul(bytes, request.ifr_name@.skip(bytes.len() as int));
    encode_utf8_valid_utf8(name);
    encode_utf8_decode_utf8(name);
}

proof fn lemma_before_nul(bytes: Seq<u8>, rest: Seq<u8>)
    requires
        forall|i: int| 0 <= i < bytes.len() ==> bytes[i] != 0,
        rest.len() > 0 ==> rest[0] == 0,
    ensures
        before_nul(bytes + rest) == bytes,
    decreases bytes.len(),
{
    let all = bytes + rest;
    if bytes.len() == 0 {
        assert(all =~= rest);
        assert(before_nul(all) =~= bytes);
    } else {
        assert(all.drop_first() =~= bytes.drop_first() + rest);
        lemma_before_nul(bytes.drop_first(), rest);
        assert(before_nul(all) =~= bytes);
    }
}

/// Which names are refused, and why: the empty one, those with a zero byte, and
/// those of 16 bytes or more. What is wrong first is what is told.
pub proof fn law_which_names_are_refused(name: Seq<u8>)
    ensures
        name_rejection(name) == Some(InterfaceNameError::Empty) <==> name.len() == 0,
        name_rejection(name) == Some(InterfaceNameError::ContainsNul) <==> exists|i: int|
            0 <= i < name.len() && #[trigger] name[i] == 0,
        name_rejection(name) == Some(InterfaceNameError::TooLong) <==> name.len() >= 16 && forall|
            i: int,
        |
            0 <= i < name.len() ==> #[trigger] name[i] != 0,
{
    if name.contains(0) {
        let i = name.index_of(0);
        assert(name[i] == 0);
    }
}

/// The name in a field is what stands in front of the first zero byte, or all of
/// it where there is none.
pub proof fn law_name_ends_at_zero(bytes: Seq<u8>)
    ensures
        before_nul(bytes).len() <= bytes.len(),
        before_nul(bytes) == bytes.take(before_nul(bytes).len() as int),
        forall|i: int| 0 <= i < before_nul(bytes).len() ==> #[trigger] bytes[i] != 0,
        before_nul(bytes).len() < bytes.len() ==> bytes[before_nul(bytes).len() as int] == 0,
    decreases bytes.len(),
{
    if bytes.len() == 0 || bytes[0] == 0 {
        assert(before_nul(bytes) =~= bytes.take(0));
    } else {
        let rest = bytes.drop_first();
        law_name_ends_at_zero(rest);
        let found = before_nul(bytes);
        assert(found =~= bytes.take(found.len() as int)) by {
            assert forall|i: int| 0 <= i < found.len() implies found[i] == bytes[i] by {
                if i > 0 {
                    assert(before_nul(rest)[i - 1] == rest.take(before_nul(rest).len() as int)[i
                        - 1]);
                }
            }
        }
        assert forall|i: int| 0 <= i < found.len() implies #[trigger] bytes[i] != 0 by {
            if i > 0 {
                assert(rest[i - 1] != 0);
            }
        }
    }
}

/// Where the name of a request stands: its bytes first, and zero bytes behind.
pub proof fn law_where_the_name_stands(request: IfReq, name: Seq<u8>, i: int)
    requires
        request.is_named(name),
        0 <= i < 16,
    ensures
        i < name.len() ==> request.ifr_name[i] == name[i],
        i >= name.len() ==> request.ifr_name[i] == 0,
        name.len() < 16,
{
    if i < name.len() {
        assert(request.ifr_name@.take(name.len() as int)[i] == name[i]);
    }
}

} // verus!
