//! Serialization of decision values.
//!
//! A cached value must carry a canonical-serialization capability: an exact
//! specification of its stored bytes, an exact specification of what any
//! byte string decodes to, and a proof that decoding inverts encoding.
//! Malformed stored bytes decode to nothing, which the cache treats as a
//! miss, never as a fault.

use vstd::prelude::*;

verus! {

/// The canonical-serialization capability a decision value needs before the
/// cache can store it.
pub trait CacheValue: Sized {
    /// The stored bytes of this value.
    spec fn enc(&self) -> Seq<u8>;

    /// What a stored byte string decodes to, if anything.
    spec fn dec(bytes: Seq<u8>) -> Option<Self>;

    /// Round trip: decoding an encoded value yields that value back.
    proof fn lemma_round_trip(&self)
        ensures
            Self::dec(self.enc()) == Some(*self),
    ;

    fn encode(&self) -> (r: Vec<u8>)
        ensures
            r@ == self.enc(),
    ;

    fn decode(bytes: &[u8]) -> (r: Option<Self>)
        ensures
            r == Self::dec(bytes@),
    ;
}

/// The stored bytes of `true`.
pub open spec fn true_bytes() -> Seq<u8> {
    seq![116u8, 114u8, 117u8, 101u8]
}

/// The stored bytes of `false`.
pub open spec fn false_bytes() -> Seq<u8> {
    seq![102u8, 97u8, 108u8, 115u8, 101u8]
}

impl CacheValue for bool {
    open spec fn enc(&self) -> Seq<u8> {
        if *self {
            true_bytes()
        } else {
            false_bytes()
        }
    }

    open spec fn dec(bytes: Seq<u8>) -> Option<bool> {
        if bytes == true_bytes() {
            Some(true)
        } else if bytes == false_bytes() {
            Some(false)
        } else {
            None
        }
    }

    proof fn lemma_round_trip(&self) {
        assert(true_bytes() != false_bytes());
    }

    fn encode(&self) -> (r: Vec<u8>) {
        let mut out: Vec<u8> = Vec::new();
        if *self {
            out.push(116);
            out.push(114);
            out.push(117);
            out.push(101);
            proof {
                assert(out@ =~= true_bytes());
            }
        } else {
            out.push(102);
            out.push(97);
            out.push(108);
            out.push(115);
            out.push(101);
            proof {
                assert(out@ =~= false_bytes());
            }
        }
        out
    }

    fn decode(bytes: &[u8]) -> (r: Option<bool>) {
        if bytes.len() == 4 && bytes[0] == 116 && bytes[1] == 114 && bytes[2] == 117 && bytes[3]
            == 101 {
            proof {
                assert(bytes@ =~= true_bytes());
            }
            Some(true)
        } else if bytes.len() == 5 && bytes[0] == 102 && bytes[1] == 97 && bytes[2] == 108
            && bytes[3] == 115 && bytes[4] == 101 {
            proof {
                assert(bytes@ =~= false_bytes());
            }
            Some(false)
        } else {
            proof {
                if bytes@ == true_bytes() {
                    assert(bytes@.len() == 4);
                    assert(bytes@[0] == 116u8 && bytes@[1] == 114u8 && bytes@[2] == 117u8
                        && bytes@[3] == 101u8);
                    assert(false);
                }
                if bytes@ == false_bytes() {
                    assert(bytes@.len() == 5);
                    assert(bytes@[0] == 102u8 && bytes@[1] == 97u8 && bytes@[2] == 108u8
                        && bytes@[3] == 115u8 && bytes@[4] == 101u8);
                    assert(false);
                }
            }
            None
        }
    }
}

/// What a point read's outcome decodes to: a present, well-formed value, and
/// nothing otherwise.  Every read path of the cache funnels the store's
/// response through this function, so an absent entry, a lost entry and an
/// undecodable entry all resolve to a miss.
pub fn decode_response<V: CacheValue>(resp: Option<Vec<u8>>) -> (r: Option<V>)
    ensures
        r == match resp {
            Some(b) => V::dec(b@),
            None => None::<V>,
        },
{
    match resp {
        Some(b) => V::decode(b.as_slice()),
        None => None,
    }
}

} // verus!
