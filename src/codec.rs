//! The wire form of a Bracha protocol message and the MAC that
//! authenticates it: a tag byte, then the instance id, the origin and the
//! payload length as 8 little-endian bytes each, then the payload.
use vstd::prelude::*;
use crate::bracha::{Msg, MsgView, Phase, ProtMsg};
use crate::merkle::{do_hash, sha256};

verus! {

/// `x` as 8 little-endian bytes.
pub open spec fn le8(x: u64) -> Seq<u8> {
    seq![
        (x & 0xff) as u8,
        ((x >> 8) & 0xff) as u8,
        ((x >> 16) & 0xff) as u8,
        ((x >> 24) & 0xff) as u8,
        ((x >> 32) & 0xff) as u8,
        ((x >> 40) & 0xff) as u8,
        ((x >> 48) & 0xff) as u8,
        ((x >> 56) & 0xff) as u8,
    ]
}

pub open spec fn tag_of(p: Phase) -> u8 {
    match p {
        Phase::Init => 0,
        Phase::Echo => 1,
        Phase::Ready => 2,
    }
}

/// The bytes of a message.
pub open spec fn encoding(m: MsgView) -> Seq<u8> {
    seq![tag_of(m.phase)] + le8(m.instance as u64) + le8(m.origin as u64) + le8(m.content.len() as u64) + m.content
}

/// The MAC of `bytes` under `key`.
pub open spec fn mac_of(key: Seq<u8>, bytes: Seq<u8>) -> Seq<u8> {
    sha256(key + bytes)
}

fn put_le8(out: &mut Vec<u8>, x: u64)
    ensures
        final(out)@ == old(out)@ + le8(x),
{
    out.push((x & 0xff) as u8);
    out.push(((x >> 8) & 0xff) as u8);
    out.push(((x >> 16) & 0xff) as u8);
    out.push(((x >> 24) & 0xff) as u8);
    out.push(((x >> 32) & 0xff) as u8);
    out.push(((x >> 40) & 0xff) as u8);
    out.push(((x >> 48) & 0xff) as u8);
    out.push(((x >> 56) & 0xff) as u8);
    assert(final(out)@ =~= old(out)@ + le8(x));
}

/// The number whose little-endian bytes start at `at`.
fn get_le8(b: &[u8], at: usize) -> (r: u64)
    requires
        at + 8 <= b@.len(),
    ensures
        le8(r) == b@.subrange(at as int, at + 8),
{
    let b0 = b[at] as u64;
    let b1 = b[at + 1] as u64;
    let b2 = b[at + 2] as u64;
    let b3 = b[at + 3] as u64;
    let b4 = b[at + 4] as u64;
    let b5 = b[at + 5] as u64;
    let b6 = b[at + 6] as u64;
    let b7 = b[at + 7] as u64;
    let r: u64 = b0 | (b1 << 8) | (b2 << 16) | (b3 << 24) | (b4 << 32) | (b5 << 40) | (b6 << 48) | (b7 << 56);
    assert(
        (r & 0xff) == b0 && ((r >> 8) & 0xff) == b1 && ((r >> 16) & 0xff) == b2 && ((r >> 24) & 0xff) == b3
        && ((r >> 32) & 0xff) == b4 && ((r >> 40) & 0xff) == b5 && ((r >> 48) & 0xff) == b6 && ((r >> 56) & 0xff) == b7
    ) by (bit_vector)
        requires
            b0 < 256, b1 < 256, b2 < 256, b3 < 256, b4 < 256, b5 < 256, b6 < 256, b7 < 256,
            r == b0 | (b1 << 8) | (b2 << 16) | (b3 << 24) | (b4 << 32) | (b5 << 40) | (b6 << 48) | (b7 << 56);
    assert(le8(r) =~= b@.subrange(at as int, at + 8));
    r
}

proof fn lemma_le8_injective(x: u64, y: u64)
    requires
        le8(x) == le8(y),
    ensures
        x == y,
{
    assert(le8(x)[0] == le8(y)[0] && le8(x)[1] == le8(y)[1] && le8(x)[2] == le8(y)[2] && le8(x)[3] == le8(y)[3]);
    assert(le8(x)[4] == le8(y)[4] && le8(x)[5] == le8(y)[5] && le8(x)[6] == le8(y)[6] && le8(x)[7] == le8(y)[7]);
    let (a0, a1, a2, a3, a4, a5, a6, a7) = ((x & 0xff) as u8, ((x >> 8) & 0xff) as u8, ((x >> 16) & 0xff) as u8,
        ((x >> 24) & 0xff) as u8, ((x >> 32) & 0xff) as u8, ((x >> 40) & 0xff) as u8, ((x >> 48) & 0xff) as u8,
        ((x >> 56) & 0xff) as u8);
    assert(x == (a0 as u64) | ((a1 as u64) << 8) | ((a2 as u64) << 16) | ((a3 as u64) << 24) | ((a4 as u64) << 32)
        | ((a5 as u64) << 40) | ((a6 as u64) << 48) | ((a7 as u64) << 56)) by (bit_vector)
        requires
            a0 == (x & 0xff) as u8, a1 == ((x >> 8) & 0xff) as u8, a2 == ((x >> 16) & 0xff) as u8,
            a3 == ((x >> 24) & 0xff) as u8, a4 == ((x >> 32) & 0xff) as u8, a5 == ((x >> 40) & 0xff) as u8,
            a6 == ((x >> 48) & 0xff) as u8, a7 == ((x >> 56) & 0xff) as u8;
    assert(y == (a0 as u64) | ((a1 as u64) << 8) | ((a2 as u64) << 16) | ((a3 as u64) << 24) | ((a4 as u64) << 32)
        | ((a5 as u64) << 40) | ((a6 as u64) << 48) | ((a7 as u64) << 56)) by (bit_vector)
        requires
            a0 == (y & 0xff) as u8, a1 == ((y >> 8) & 0xff) as u8, a2 == ((y >> 16) & 0xff) as u8,
            a3 == ((y >> 24) & 0xff) as u8, a4 == ((y >> 32) & 0xff) as u8, a5 == ((y >> 40) & 0xff) as u8,
            a6 == ((y >> 48) & 0xff) as u8, a7 == ((y >> 56) & 0xff) as u8;
}

/// The bytes of `m`.
pub fn encode(m: &ProtMsg) -> (r: Vec<u8>)
    ensures
        r@ == encoding(m@),
{
    let (tag, msg, id): (u8, &Msg, usize) = match m {
        ProtMsg::Init(msg, id) => (0u8, msg, *id),
        ProtMsg::Echo(msg, id) => (1u8, msg, *id),
        ProtMsg::Ready(msg, id) => (2u8, msg, *id),
    };
    let mut out: Vec<u8> = Vec::new();
    out.push(tag);
    put_le8(&mut out, id as u64);
    put_le8(&mut out, msg.origin as u64);
    put_le8(&mut out, msg.content.len() as u64);
    let mut i: usize = 0;
    let ghost head = out@;
    while i < msg.content.len()
        invariant
            i <= msg.content.len(),
            out@ == head + msg.content@.take(i as int),
        decreases msg.content.len() - i,
    {
        out.push(msg.content[i]);
        assert(out@ =~= head + msg.content@.take(i + 1));
        i = i + 1;
    }
    assert(msg.content@.take(i as int) =~= msg.content@);
    assert(out@ =~= encoding(m@));
    out
}

/// The message that `b` encodes, if it is one.
pub fn decode(b: &[u8]) -> (r: Option<ProtMsg>)
    ensures
        r matches Some(m) ==> encoding(m@) == b@,
        forall|v: MsgView| #[trigger] encoding(v) == b@ ==> (r matches Some(m) && m@ == v),
{
    if b.len() < 25 {
        proof {
            assert forall|v: MsgView| #[trigger] encoding(v) == b@ implies false by {}
        }
        return None;
    }
    let tag = b[0];
    let id = get_le8(b, 1);
    let origin = get_le8(b, 9);
    let len = get_le8(b, 17);
    proof {
        assert forall|v: MsgView| #[trigger] encoding(v) == b@ implies tag == tag_of(v.phase) && id == v.instance as u64
            && origin == v.origin as u64 && len == v.content.len() as u64 && b@.subrange(25, b@.len() as int) == v.content by {
            let e = encoding(v);
            assert(e[0] == tag_of(v.phase));
            assert(e.subrange(1, 9) =~= le8(v.instance as u64));
            assert(e.subrange(9, 17) =~= le8(v.origin as u64));
            assert(e.subrange(17, 25) =~= le8(v.content.len() as u64));
            assert(e.subrange(25, e.len() as int) =~= v.content);
            lemma_le8_injective(id, v.instance as u64);
            lemma_le8_injective(origin, v.origin as u64);
            lemma_le8_injective(len, v.content.len() as u64);
        }
    }
    if tag > 2 || len != (b.len() - 25) as u64 || id > usize::MAX as u64 || origin > usize::MAX as u64 {
        return None;
    }
    let mut content: Vec<u8> = Vec::new();
    let mut i: usize = 25;
    while i < b.len()
        invariant
            25 <= i <= b@.len(),
            content@ == b@.subrange(25, i as int),
        decreases b.len() - i,
    {
        content.push(b[i]);
        assert(content@ =~= b@.subrange(25, i + 1));
        i = i + 1;
    }
    let msg = Msg { content, origin: origin as usize };
    let id = id as usize;
    let m = if tag == 0 {
        ProtMsg::Init(msg, id)
    } else if tag == 1 {
        ProtMsg::Echo(msg, id)
    } else {
        ProtMsg::Ready(msg, id)
    };
    proof {
        assert(b@.subrange(1, 9) == le8(id as u64));
        assert(encoding(m@) =~= b@);
        assert forall|v: MsgView| #[trigger] encoding(v) == b@ implies m@ == v by {
            assert(v.phase == m@.phase);
        }
    }
    Some(m)
}

/// A protocol message, its sender, and the MAC over its bytes under the key
/// that the sender shares with the receiver.
pub struct WrapperMsg {
    pub protmsg: ProtMsg,
    pub sender: usize,
    pub mac: Vec<u8>,
}

impl WrapperMsg {
    pub fn new(protmsg: ProtMsg, sender: usize, key: &[u8]) -> (r: WrapperMsg)
        ensures
            r.protmsg@ == protmsg@,
            r.sender == sender,
            r.mac@ == mac_of(key@, encoding(protmsg@)),
    {
        let mac = Self::mac(&protmsg, key);
        WrapperMsg { protmsg, sender, mac }
    }

    fn mac(protmsg: &ProtMsg, key: &[u8]) -> (r: Vec<u8>)
        ensures
            r@ == mac_of(key@, encoding(protmsg@)),
    {
        let mut bytes: Vec<u8> = Vec::new();
        let mut i: usize = 0;
        while i < key.len()
            invariant
                i <= key@.len(),
                bytes@ == key@.take(i as int),
            decreases key.len() - i,
        {
            bytes.push(key[i]);
            assert(bytes@ =~= key@.take(i + 1));
            i = i + 1;
        }
        let mut body = encode(protmsg);
        bytes.append(&mut body);
        assert(key@.take(key@.len() as int) =~= key@);
        do_hash(bytes.as_slice())
    }

    /// The MAC matches the message under `key`; a receiver drops the wrapper
    /// otherwise.
    pub fn check_mac(&self, key: &[u8]) -> (r: bool)
        ensures
            r == (self.mac@ == mac_of(key@, encoding(self.protmsg@))),
    {
        let expected = Self::mac(&self.protmsg, key);
        crate::votes::same_bytes(&expected, &self.mac)
    }
}

} // verus!
