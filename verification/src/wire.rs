//! The wire format of the synchronization protocol: handshake packets and
//! input packets, encoded so that every peer interprets them identically.
//! An input packet carries one player's inputs for a contiguous range of
//! recent frames (redundant retransmission against drops) and piggybacks an
//! acknowledgment of the highest frame received from the addressee.

use vstd::prelude::*;

use crate::bytes::lemma_u32_inverse;
use crate::bytes::lemma_word_at;
use crate::bytes::push_u32;
use crate::bytes::read_u32;
use crate::bytes::u32_from_le;
use crate::bytes::u32_le_bytes;

verus! {

/// Wire tag of a handshake request.
pub const TAG_SYNC_REQUEST: u8 = 1;

/// Wire tag of a handshake reply.
pub const TAG_SYNC_REPLY: u8 = 2;

/// Wire tag of an input packet.
pub const TAG_INPUT: u8 = 3;

/// Most frames one input packet may carry: the sliding retransmission window.
pub const MAX_INPUT_SPAN: u32 = 32;

/// Bytes before the input payload of an input packet.
pub const INPUT_HEADER_BYTES: usize = 17;

/// Mathematical content of a [`Packet`].
#[verifier::ext_equal]
pub enum PacketModel {
    SyncRequest { token: u32 },
    SyncReply { token: u32 },
    Input { player: u32, start_frame: u32, ack_frame: u32, inputs: Seq<u8> },
}

impl PacketModel {
    pub open spec fn wf(self) -> bool {
        match self {
            PacketModel::SyncRequest { .. } => true,
            PacketModel::SyncReply { .. } => true,
            PacketModel::Input { start_frame, inputs, .. } => {
                &&& 1 <= inputs.len() <= MAX_INPUT_SPAN
                &&& start_frame + inputs.len() <= u32::MAX
            },
        }
    }
}

/// One protocol datagram.
pub enum Packet {
    SyncRequest { token: u32 },
    SyncReply { token: u32 },
    Input { player: u32, start_frame: u32, ack_frame: u32, inputs: Vec<u8> },
}

impl View for Packet {
    type V = PacketModel;

    open spec fn view(&self) -> PacketModel {
        match self {
            Packet::SyncRequest { token } => PacketModel::SyncRequest { token: *token },
            Packet::SyncReply { token } => PacketModel::SyncReply { token: *token },
            Packet::Input { player, start_frame, ack_frame, inputs } => PacketModel::Input {
                player: *player,
                start_frame: *start_frame,
                ack_frame: *ack_frame,
                inputs: inputs@,
            },
        }
    }
}

/// The bytes of one packet: a tag byte, the header words, and for input
/// packets the input run prefixed by its length.
pub open spec fn encode_packet(m: PacketModel) -> Seq<u8> {
    match m {
        PacketModel::SyncRequest { token } => seq![TAG_SYNC_REQUEST] + u32_le_bytes(token),
        PacketModel::SyncReply { token } => seq![TAG_SYNC_REPLY] + u32_le_bytes(token),
        PacketModel::Input { player, start_frame, ack_frame, inputs } => seq![TAG_INPUT]
            + u32_le_bytes(player) + u32_le_bytes(start_frame) + u32_le_bytes(ack_frame)
            + u32_le_bytes(inputs.len() as u32) + inputs,
    }
}

/// Two well-formed packets with the same encoding are the same packet.
pub proof fn lemma_encode_packet_injective(m1: PacketModel, m2: PacketModel)
    requires
        m1.wf(),
        m2.wf(),
        encode_packet(m1) == encode_packet(m2),
    ensures
        m1 == m2,
{
    let buf = encode_packet(m1);
    assert(buf[0] == encode_packet(m2)[0]);
    match (m1, m2) {
        (PacketModel::SyncRequest { token: t1 }, PacketModel::SyncRequest { token: t2 }) => {
            assert(buf.subrange(1, 5) =~= u32_le_bytes(t1));
            assert(encode_packet(m2).subrange(1, 5) =~= u32_le_bytes(t2));
            lemma_word_at(buf, 1, t1);
            lemma_word_at(buf, 1, t2);
        },
        (PacketModel::SyncReply { token: t1 }, PacketModel::SyncReply { token: t2 }) => {
            assert(buf.subrange(1, 5) =~= u32_le_bytes(t1));
            assert(encode_packet(m2).subrange(1, 5) =~= u32_le_bytes(t2));
            lemma_word_at(buf, 1, t1);
            lemma_word_at(buf, 1, t2);
        },
        (
            PacketModel::Input { player: p1, start_frame: s1, ack_frame: a1, inputs: i1 },
            PacketModel::Input { player: p2, start_frame: s2, ack_frame: a2, inputs: i2 },
        ) => {
            lemma_input_packet_structure(p1, s1, a1, i1);
            lemma_input_packet_structure(p2, s2, a2, i2);
            lemma_word_at(buf, 1, p1);
            lemma_word_at(buf, 1, p2);
            lemma_word_at(buf, 5, s1);
            lemma_word_at(buf, 5, s2);
            lemma_word_at(buf, 9, a1);
            lemma_word_at(buf, 9, a2);
            lemma_word_at(buf, 13, i1.len() as u32);
            lemma_word_at(buf, 13, i2.len() as u32);
            assert(i1.len() == i2.len());
            assert(i1 =~= i2);
        },
        _ => {
            assert(false);
        },
    }
}

/// Where each piece of an input packet sits.
pub proof fn lemma_input_packet_structure(player: u32, start_frame: u32, ack_frame: u32, inputs: Seq<u8>)
    ensures
        ({
            let m = PacketModel::Input { player, start_frame, ack_frame, inputs };
            let buf = encode_packet(m);
            &&& buf.len() == INPUT_HEADER_BYTES + inputs.len()
            &&& buf[0] == TAG_INPUT
            &&& buf.subrange(1, 5) == u32_le_bytes(player)
            &&& buf.subrange(5, 9) == u32_le_bytes(start_frame)
            &&& buf.subrange(9, 13) == u32_le_bytes(ack_frame)
            &&& buf.subrange(13, 17) == u32_le_bytes(inputs.len() as u32)
            &&& buf.subrange(17, buf.len() as int) == inputs
        }),
{
    let m = PacketModel::Input { player, start_frame, ack_frame, inputs };
    let buf = encode_packet(m);
    assert(buf.subrange(1, 5) =~= u32_le_bytes(player));
    assert(buf.subrange(5, 9) =~= u32_le_bytes(start_frame));
    assert(buf.subrange(9, 13) =~= u32_le_bytes(ack_frame));
    assert(buf.subrange(13, 17) =~= u32_le_bytes(inputs.len() as u32));
    assert(buf.subrange(17, buf.len() as int) =~= inputs);
}

/// Serializes one packet; an exact function of the packet value.
pub fn encode(p: &Packet) -> (out: Vec<u8>)
    requires
        p@.wf(),
    ensures
        out@ == encode_packet(p@),
{
    let mut out: Vec<u8> = Vec::new();
    match p {
        Packet::SyncRequest { token } => {
            out.push(TAG_SYNC_REQUEST);
            push_u32(&mut out, *token);
            proof {
                assert(out@ =~= encode_packet(p@));
            }
        },
        Packet::SyncReply { token } => {
            out.push(TAG_SYNC_REPLY);
            push_u32(&mut out, *token);
            proof {
                assert(out@ =~= encode_packet(p@));
            }
        },
        Packet::Input { player, start_frame, ack_frame, inputs } => {
            out.push(TAG_INPUT);
            push_u32(&mut out, *player);
            push_u32(&mut out, *start_frame);
            push_u32(&mut out, *ack_frame);
            push_u32(&mut out, inputs.len() as u32);
            let ghost head = out@;
            let n = inputs.len();
            let mut k: usize = 0;
            while k < n
                invariant
                    0 <= k <= n,
                    n == inputs@.len(),
                    out@ == head + inputs@.take(k as int),
                decreases n - k,
            {
                out.push(inputs[k]);
                proof {
                    assert(out@ =~= head + inputs@.take(k + 1));
                }
                k = k + 1;
            }
            proof {
                assert(inputs@.take(n as int) =~= inputs@);
                assert(out@ =~= encode_packet(p@));
            }
        },
    }
    out
}

/// Parses one datagram. Success happens exactly on the encodings of
/// well-formed packets — then the packet that was encoded comes back — and
/// anything else (a corrupt or foreign datagram) is rejected, to be absorbed
/// silently by the caller.
pub fn decode(buf: &Vec<u8>) -> (r: Option<Packet>)
    ensures
        r matches Some(p) ==> p@.wf() && encode_packet(p@) == buf@,
        forall|m: PacketModel|
            m.wf() && buf@ == #[trigger] encode_packet(m) ==> (r matches Some(p) && p@ == m),
{
    let total = buf.len();
    if total < 5 {
        return None;
    }
    let tag = buf[0];
    if tag == TAG_SYNC_REQUEST || tag == TAG_SYNC_REPLY {
        if total != 5 {
            return None;
        }
        let token = read_u32(buf, 1);
        let p = if tag == TAG_SYNC_REQUEST {
            Packet::SyncRequest { token }
        } else {
            Packet::SyncReply { token }
        };
        proof {
            lemma_u32_inverse(buf@[1], buf@[2], buf@[3], buf@[4]);
            assert(encode_packet(p@) =~= buf@);
            assert forall|m: PacketModel| m.wf() && buf@ == encode_packet(m) implies p@ == m by {
                lemma_encode_packet_injective(p@, m);
            }
        }
        return Some(p);
    }
    if tag != TAG_INPUT {
        proof {
            assert forall|m: PacketModel| m.wf() && buf@ == encode_packet(m) implies false by {
                if m is Input {
                    lemma_input_packet_structure(m->player, m->start_frame, m->ack_frame, m->Input_inputs);
                }
            }
        }
        return None;
    }
    if total < INPUT_HEADER_BYTES + 1 {
        proof {
            assert forall|m: PacketModel| m.wf() && buf@ == encode_packet(m) implies false by {
                if m is Input {
                    lemma_input_packet_structure(m->player, m->start_frame, m->ack_frame, m->Input_inputs);
                }
            }
        }
        return None;
    }
    let player = read_u32(buf, 1);
    let start_frame = read_u32(buf, 5);
    let ack_frame = read_u32(buf, 9);
    let n = read_u32(buf, 13);
    if n == 0 || n > MAX_INPUT_SPAN || start_frame as u64 + n as u64 > u32::MAX as u64 || total
        as u64 != INPUT_HEADER_BYTES as u64 + n as u64 {
        proof {
            assert forall|m: PacketModel| m.wf() && buf@ == encode_packet(m) implies false by {
                if m is Input {
                    lemma_input_packet_structure(m->player, m->start_frame, m->ack_frame, m->Input_inputs);
                    lemma_word_at(buf@, 5, m->start_frame);
                    lemma_word_at(buf@, 13, m->Input_inputs.len() as u32);
                }
            }
        }
        return None;
    }
    let n_us = n as usize;
    let mut inputs: Vec<u8> = Vec::new();
    let mut k: usize = 0;
    while k < n_us
        invariant
            0 <= k <= n_us,
            total == buf@.len(),
            total == INPUT_HEADER_BYTES + n_us,
            inputs@.len() == k,
            inputs@ == buf@.subrange(INPUT_HEADER_BYTES as int, INPUT_HEADER_BYTES + k),
        decreases n_us - k,
    {
        inputs.push(buf[INPUT_HEADER_BYTES + k]);
        proof {
            assert(inputs@ =~= buf@.subrange(INPUT_HEADER_BYTES as int, INPUT_HEADER_BYTES + k + 1));
        }
        k = k + 1;
    }
    let p = Packet::Input { player, start_frame, ack_frame, inputs };
    proof {
        lemma_u32_inverse(buf@[1], buf@[2], buf@[3], buf@[4]);
        lemma_u32_inverse(buf@[5], buf@[6], buf@[7], buf@[8]);
        lemma_u32_inverse(buf@[9], buf@[10], buf@[11], buf@[12]);
        lemma_u32_inverse(buf@[13], buf@[14], buf@[15], buf@[16]);
        assert(p@.wf());
        assert(encode_packet(p@) =~= buf@);
        assert forall|m: PacketModel| m.wf() && buf@ == encode_packet(m) implies p@ == m by {
            lemma_encode_packet_injective(p@, m);
        }
    }
    Some(p)
}

} // verus!
