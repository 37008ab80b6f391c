//! Art-Net target resolution and transport framing: DMX data packets, frame
//! fragmentation into universes, the per-frame send plan, and the discovery
//! protocol's poll and poll-reply packets.
//!
//! The UDP sends themselves happen at the process edge; everything here is
//! byte-exact framing and parsing over plain values.

use vstd::prelude::*;

verus! {

/// The protocol's well-known UDP port.
pub const PORT: u16 = 6454;

/// An IPv4 address as four plain octets.
#[derive(Clone, Copy, PartialEq, Eq, Structural, Debug)]
pub struct Ipv4 {
    pub a: u8,
    pub b: u8,
    pub c: u8,
    pub d: u8,
}

/// A destination: an IPv4 address and a UDP port.
#[derive(Clone, Copy, PartialEq, Eq, Structural, Debug)]
pub struct SockAddr {
    pub ip: Ipv4,
    pub port: u16,
}

/// The subnet broadcast destination on the protocol's well-known port.
pub fn broadcast_addr() -> (r: SockAddr)
    ensures
        r == (SockAddr { ip: Ipv4 { a: 255, b: 255, c: 255, d: 255 }, port: 6454u16 }),
{
    SockAddr { ip: Ipv4 { a: 255, b: 255, c: 255, d: 255 }, port: PORT }
}

/// The 8-byte packet identifier: the protocol name, NUL-terminated.
pub open spec fn packet_id() -> Seq<u8> {
    seq![65u8, 114u8, 116u8, 45u8, 78u8, 101u8, 116u8, 0u8]
}

/// A DMX data packet: identifier; data opcode (little-endian); protocol
/// version 14 (big-endian); sequence and physical fields disabled; the
/// universe (low byte first); the channel count (high byte first); then the
/// channel data itself.
pub open spec fn dmx_packet_spec(universe: u16, data: Seq<u8>) -> Seq<u8> {
    packet_id() + seq![
        0u8, 0x50u8,
        0u8, 14u8,
        0u8, 0u8,
        (universe as int % 256) as u8, (universe as int / 256) as u8,
        (data.len() as int / 256) as u8, (data.len() as int % 256) as u8,
    ] + data
}

/// Wrap up to one universe of channel data in a DMX data packet.
pub fn dmx_packet(universe: u16, data: &Vec<u8>) -> (p: Vec<u8>)
    requires
        universe < 0x8000,
        data@.len() <= 512,
    ensures
        p@ == dmx_packet_spec(universe, data@),
{
    let len = data.len() as u16;
    let mut p: Vec<u8> = Vec::new();
    p.push(65);
    p.push(114);
    p.push(116);
    p.push(45);
    p.push(78);
    p.push(101);
    p.push(116);
    p.push(0);
    p.push(0);
    p.push(0x50);
    p.push(0);
    p.push(14);
    p.push(0);
    p.push(0);
    p.push((universe % 256) as u8);
    p.push((universe / 256) as u8);
    p.push((len / 256) as u8);
    p.push((len % 256) as u8);
    let mut i: usize = 0;
    while i < data.len()
        invariant
            i <= data@.len(),
            p@.len() == 18 + i,
            p@ == dmx_packet_spec(universe, data@).take(18 + i),
            data@.len() <= 512,
            universe < 0x8000,
            p@.len() <= dmx_packet_spec(universe, data@).len(),
        decreases data@.len() - i,
    {
        proof {
            assert(dmx_packet_spec(universe, data@)[18 + i] == data@[i as int]);
            assert(dmx_packet_spec(universe, data@).take(18 + i + 1)
                =~= dmx_packet_spec(universe, data@).take(18 + i).push(data@[i as int]));
        }
        p.push(data[i]);
        i = i + 1;
    }
    proof {
        assert(dmx_packet_spec(universe, data@).take(18 + data@.len() as int)
            =~= dmx_packet_spec(universe, data@));
    }
    p
}

/// Different universes give packets with different universe tags: the tag
/// bytes of the header pin the chunk's index, so every packet of one frame
/// is distinct and deterministic.
pub proof fn lemma_universe_tags_distinct(u1: u16, d1: Seq<u8>, u2: u16, d2: Seq<u8>)
    requires
        u1 != u2,
    ensures
        dmx_packet_spec(u1, d1) != dmx_packet_spec(u2, d2),
{
    let p1 = dmx_packet_spec(u1, d1);
    let p2 = dmx_packet_spec(u2, d2);
    assert(p1[14] == (u1 as int % 256) as u8 && p1[15] == (u1 as int / 256) as u8);
    assert(p2[14] == (u2 as int % 256) as u8 && p2[15] == (u2 as int / 256) as u8);
    if p1[14] == p2[14] && p1[15] == p2[15] {
        assert(u1 as int % 256 == u2 as int % 256 && u1 as int / 256 == u2 as int / 256);
        vstd::arithmetic::div_mod::lemma_fundamental_div_mod(u1 as int, 256);
        vstd::arithmetic::div_mod::lemma_fundamental_div_mod(u2 as int, 256);
        assert(false);
    }
}

/// How many universes a frame of `len` channel bytes occupies: one packet
/// per started block of 512.
pub open spec fn num_universes(len: int) -> int {
    (len + 511) / 512
}

/// The channel bytes of universe `k`: the `k`-th 512-byte block of the frame
/// (the last block may be shorter).
pub open spec fn universe_data(frame: Seq<u8>, k: int) -> Seq<u8> {
    frame.subrange(512 * k, if 512 * (k + 1) <= frame.len() { 512 * (k + 1) } else { frame.len() as int })
}

/// Split a frame's channel bytes into protocol packets: universe `k` carries
/// the `k`-th 512-byte block, so exactly `ceil(len / 512)` packets result and
/// each is tagged with a distinct universe index derived from chunk order.
pub fn fragment_frame(frame: &Vec<u8>) -> (packets: Vec<Vec<u8>>)
    requires
        frame@.len() <= 512 * 0x8000,
    ensures
        packets@.len() == num_universes(frame@.len() as int),
        forall|k: int| 0 <= k < packets@.len()
            ==> #[trigger] packets@[k]@ == dmx_packet_spec(k as u16, universe_data(frame@, k)),
{
    let ghost flen = frame@.len() as int;
    let mut packets: Vec<Vec<u8>> = Vec::new();
    let mut start: usize = 0;
    let mut k: usize = 0;
    proof {
        assert(num_universes(flen) <= 0x8000 && num_universes(flen) >= 0) by (nonlinear_arith)
            requires 0 <= flen <= 512 * 0x8000 && num_universes(flen) == (flen + 511) / 512;
    }
    while start < frame.len()
        invariant
            flen == frame@.len(),
            flen <= 512 * 0x8000,
            num_universes(flen) <= 0x8000,
            start == 512 * k,
            packets@.len() == k,
            k <= num_universes(flen),
            forall|m: int| 0 <= m < k
                ==> #[trigger] packets@[m]@ == dmx_packet_spec(m as u16, universe_data(frame@, m)),
        decreases num_universes(flen) - k,
    {
        proof {
            assert(k < num_universes(flen)) by (nonlinear_arith)
                requires 512 * k < flen && num_universes(flen) == (flen + 511) / 512;
        }
        let end = if frame.len() - start < 512 {
            frame.len()
        } else {
            start + 512
        };
        let mut chunk: Vec<u8> = Vec::new();
        let mut i: usize = start;
        while i < end
            invariant
                start <= i <= end <= frame@.len(),
                chunk@ == frame@.subrange(start as int, i as int),
            decreases end - i,
        {
            proof {
                assert(frame@.subrange(start as int, i + 1)
                    =~= frame@.subrange(start as int, i as int).push(frame@[i as int]));
            }
            chunk.push(frame[i]);
            i = i + 1;
        }
        proof {
            assert(chunk@ =~= universe_data(frame@, k as int));
        }
        let packet = dmx_packet(k as u16, &chunk);
        packets.push(packet);
        k = k + 1;
        start = if end < start + 512 {
            proof {
                assert(k >= num_universes(flen)) by (nonlinear_arith)
                    requires 512 * k > flen && num_universes(flen) == (flen + 511) / 512
                        && flen >= 0;
            }
            k * 512
        } else {
            end
        };
    }
    proof {
        assert(k == num_universes(flen)) by (nonlinear_arith)
            requires
                512 * k >= flen && k <= num_universes(flen)
                    && num_universes(flen) == (flen + 511) / 512;
    }
    packets
}

/// The sends one frame requires: every packet of the fragmented frame to
/// every destination, packets in universe order and, within one universe,
/// destinations in listed order. Zero destinations (an empty or all-invalid
/// list file) yield an empty plan, not an error.
pub fn send_plan(targets: &Vec<SockAddr>, frame: &Vec<u8>) -> (plan: Vec<(SockAddr, Vec<u8>)>)
    requires
        frame@.len() <= 512 * 0x8000,
    ensures
        plan@.len() == num_universes(frame@.len() as int) * targets@.len(),
        forall|k: int, t: int|
            0 <= k < num_universes(frame@.len() as int) && 0 <= t < targets@.len()
                ==> #[trigger] plan@[k * targets@.len() + t]
                    == (targets@[t], plan@[k * targets@.len() + t].1)
                    && plan@[k * targets@.len() + t].1@
                        == dmx_packet_spec(k as u16, universe_data(frame@, k)),
{
    let packets = fragment_frame(frame);
    let ghost nu = num_universes(frame@.len() as int);
    let ghost nt = targets@.len() as int;
    let mut plan: Vec<(SockAddr, Vec<u8>)> = Vec::new();
    let mut k: usize = 0;
    proof {
        assert(nu * nt <= 0x8000 * nt) by (nonlinear_arith)
            requires nu <= 0x8000 && nt >= 0 && nu >= 0;
    }
    while k < packets.len()
        invariant
            packets@.len() == nu,
            nu <= 0x8000,
            nt == targets@.len(),
            frame@.len() <= 512 * 0x8000,
            forall|m: int| 0 <= m < nu
                ==> #[trigger] packets@[m]@ == dmx_packet_spec(m as u16, universe_data(frame@, m)),
            k <= nu,
            plan@.len() == k * nt,
            forall|m: int, t: int| 0 <= m < k && 0 <= t < nt
                ==> #[trigger] plan@[m * nt + t] == (targets@[t], plan@[m * nt + t].1)
                    && plan@[m * nt + t].1@ == dmx_packet_spec(m as u16, universe_data(frame@, m)),
        decreases packets@.len() - k,
    {
        let mut t: usize = 0;
        while t < targets.len()
            invariant
                packets@.len() == nu,
                nt == targets@.len(),
                frame@.len() <= 512 * 0x8000,
                forall|m: int| 0 <= m < nu
                    ==> #[trigger] packets@[m]@
                        == dmx_packet_spec(m as u16, universe_data(frame@, m)),
                k < nu,
                t <= nt,
                plan@.len() == k * nt + t,
                forall|m: int, t0: int| 0 <= m < k && 0 <= t0 < nt
                    ==> #[trigger] plan@[m * nt + t0] == (targets@[t0], plan@[m * nt + t0].1)
                        && plan@[m * nt + t0].1@
                            == dmx_packet_spec(m as u16, universe_data(frame@, m)),
                forall|t0: int| 0 <= t0 < t
                    ==> #[trigger] plan@[k * nt + t0] == (targets@[t0], plan@[k * nt + t0].1)
                        && plan@[k * nt + t0].1@
                            == dmx_packet_spec(k as u16, universe_data(frame@, k as int)),
            decreases nt - t,
        {
            let src = &packets[k];
            let mut packet: Vec<u8> = Vec::new();
            let mut i: usize = 0;
            while i < src.len()
                invariant
                    i <= src@.len(),
                    packet@ == src@.take(i as int),
                decreases src@.len() - i,
            {
                proof {
                    assert(src@.take(i + 1) =~= src@.take(i as int).push(src@[i as int]));
                }
                packet.push(src[i]);
                i = i + 1;
            }
            proof {
                assert(src@.take(src@.len() as int) =~= src@);
            }
            let dest = targets[t];
            plan.push((dest, packet));
            t = t + 1;
            proof {
                assert forall|m: int, t0: int| 0 <= m < k && 0 <= t0 < nt
                    implies #[trigger] plan@[m * nt + t0] == (targets@[t0], plan@[m * nt + t0].1)
                        && plan@[m * nt + t0].1@
                            == dmx_packet_spec(m as u16, universe_data(frame@, m)) by {
                    lemma_row_index(m, t0, k as int, nt);
                }
            }
        }
        k = k + 1;
        proof {
            assert(k * nt == (k - 1) * nt + nt) by (nonlinear_arith);
            assert forall|m: int, t0: int| 0 <= m < k && 0 <= t0 < nt
                implies #[trigger] plan@[m * nt + t0] == (targets@[t0], plan@[m * nt + t0].1)
                    && plan@[m * nt + t0].1@
                        == dmx_packet_spec(m as u16, universe_data(frame@, m)) by {
                if m == k - 1 {
                    assert(m * nt + t0 == (k - 1) * nt + t0);
                    assert(plan@[(k - 1) * nt + t0] == (targets@[t0], plan@[(k - 1) * nt + t0].1));
                } else {
                    lemma_row_index(m, t0, k - 1, nt);
                }
            }
        }
    }
    proof {
        assert(nu * nt == packets@.len() * nt);
    }
    plan
}

/// A cell of row `m` lies before row `k` whenever `m < k`.
proof fn lemma_row_index(m: int, t0: int, k: int, nt: int)
    requires
        0 <= m < k,
        0 <= t0 < nt,
    ensures
        m * nt + t0 < k * nt,
{
    assert(m * nt + t0 < k * nt) by (nonlinear_arith)
        requires 0 <= m < k && 0 <= t0 < nt;
}

/// The first error among the per-destination send outcomes of one frame,
/// if any: a failed send must not stop the remaining sends, so errors are
/// collected and only the first is surfaced once all sends were attempted.
pub fn first_send_error(outcomes: &Vec<Option<i32>>) -> (r: Option<i32>)
    ensures
        match r {
            Some(code) => exists|k: int|
                0 <= k < outcomes@.len() && #[trigger] outcomes@[k] == Some(code)
                    && (forall|m: int| 0 <= m < k ==> #[trigger] outcomes@[m] is None),
            None => forall|k: int| 0 <= k < outcomes@.len()
                ==> #[trigger] outcomes@[k] is None,
        },
{
    let mut k: usize = 0;
    while k < outcomes.len()
        invariant
            k <= outcomes@.len(),
            forall|m: int| 0 <= m < k ==> #[trigger] outcomes@[m] is None,
        decreases outcomes@.len() - k,
    {
        match outcomes[k] {
            Some(code) => {
                return Some(code);
            },
            None => {},
        }
        k = k + 1;
    }
    None
}

/// The discovery poll packet: identifier, poll opcode (little-endian),
/// protocol version 14, then a zeroed flags byte and lowest priority.
pub open spec fn poll_packet_spec() -> Seq<u8> {
    packet_id() + seq![0u8, 0x20u8, 0u8, 14u8, 0u8, 0u8]
}

/// Build the discovery poll packet that is broadcast to enumerate nodes.
pub fn poll_packet() -> (p: Vec<u8>)
    ensures
        p@ == poll_packet_spec(),
{
    let mut p: Vec<u8> = Vec::new();
    p.push(65);
    p.push(114);
    p.push(116);
    p.push(45);
    p.push(78);
    p.push(101);
    p.push(116);
    p.push(0);
    p.push(0);
    p.push(0x20);
    p.push(0);
    p.push(14);
    p.push(0);
    p.push(0);
    proof {
        assert(p@ =~= poll_packet_spec());
    }
    p
}

/// Whether a received packet is a discovery reply: long enough to carry the
/// short-name field, the protocol identifier, and the reply opcode
/// (little-endian).
pub open spec fn is_poll_reply(p: Seq<u8>) -> bool {
    &&& p.len() >= 44
    &&& p.subrange(0, 8) == packet_id()
    &&& p[8] == 0u8
    &&& p[9] == 0x21u8
}

/// Index of the first NUL in a byte sequence, or its length if none.
pub open spec fn first_nul(s: Seq<u8>) -> int
    decreases s.len(),
{
    if s.len() == 0 {
        0
    } else if s[0] == 0 {
        0
    } else {
        1 + first_nul(s.skip(1))
    }
}

/// `first_nul` really is the first NUL: everything before it is non-NUL,
/// it lies within the sequence or just past it, and it points at a NUL
/// whenever one exists.
pub proof fn lemma_first_nul(s: Seq<u8>)
    ensures
        0 <= first_nul(s) <= s.len(),
        forall|i: int| 0 <= i < first_nul(s) ==> s[i] != 0,
        first_nul(s) < s.len() ==> s[first_nul(s)] == 0,
    decreases s.len(),
{
    if s.len() > 0 && s[0] != 0 {
        lemma_first_nul(s.skip(1));
        assert forall|i: int| 0 <= i < first_nul(s) implies s[i] != 0 by {
            if i > 0 {
                assert(s.skip(1)[i - 1] == s[i]);
            }
        }
        if first_nul(s) < s.len() {
            assert(s.skip(1)[first_nul(s) - 1] == s[first_nul(s)]);
        }
    }
}

/// The short-name field of a discovery reply: the 18 bytes at offset 26.
pub open spec fn reply_name_field(p: Seq<u8>) -> Seq<u8> {
    p.subrange(26, 44)
}

/// Extract a node's short name from a received packet: `None` unless the
/// packet is a discovery reply, else the name field up to its first NUL
/// (possibly empty). The responder's address comes from the transport, not
/// from the payload.
pub fn poll_reply_name(packet: &Vec<u8>) -> (r: Option<Vec<u8>>)
    ensures
        match r {
            Some(name) => is_poll_reply(packet@)
                && name@ == reply_name_field(packet@).take(first_nul(reply_name_field(packet@))),
            None => !is_poll_reply(packet@),
        },
{
    if packet.len() < 44 {
        return None;
    }
    let id = [65u8, 114u8, 116u8, 45u8, 78u8, 101u8, 116u8, 0u8];
    let mut i: usize = 0;
    while i < 8
        invariant
            packet@.len() >= 44,
            i <= 8,
            id@ == packet_id(),
            forall|m: int| 0 <= m < i ==> packet@[m] == packet_id()[m],
        decreases 8 - i,
    {
        if packet[i] != id[i] {
            proof {
                assert(packet@.subrange(0, 8) != packet_id());
            }
            return None;
        }
        i = i + 1;
    }
    proof {
        assert(packet@.subrange(0, 8) =~= packet_id());
    }
    if packet[8] != 0 || packet[9] != 0x21 {
        return None;
    }
    let ghost field = reply_name_field(packet@);
    proof {
        lemma_first_nul(field);
    }
    let mut name: Vec<u8> = Vec::new();
    let mut j: usize = 26;
    while j < 44
        invariant
            packet@.len() >= 44,
            is_poll_reply(packet@),
            26 <= j <= 44,
            field == reply_name_field(packet@),
            0 <= first_nul(field) <= 18,
            forall|m: int| 0 <= m < first_nul(field) ==> field[m] != 0,
            first_nul(field) < 18 ==> field[first_nul(field)] == 0,
            forall|m: int| 26 <= m < j ==> #[trigger] packet@[m] != 0,
            j - 26 <= first_nul(field),
            name@ == field.take(j - 26),
        decreases 44 - j,
    {
        let c = packet[j];
        if c == 0 {
            proof {
                assert(field[j - 26] == 0);
                assert(first_nul(field) == j - 26);
            }
            return Some(name);
        }
        proof {
            assert(field[j - 26] == packet@[j as int]);
            assert(field.take(j - 26 + 1) =~= field.take(j - 26).push(field[j - 26]));
            assert(j - 26 + 1 <= first_nul(field));
        }
        name.push(c);
        j = j + 1;
    }
    proof {
        assert(first_nul(field) == 18);
        assert(field.take(18) =~= name@);
    }
    Some(name)
}


/// Whether a byte is a decimal digit.
pub open spec fn is_digit(c: u8) -> bool {
    48 <= c <= 57
}

/// How many decimal digits stand at position `from` and after.
pub open spec fn digits_len(s: Seq<u8>, from: int) -> int
    decreases s.len() - from,
{
    if from < 0 || from >= s.len() {
        0
    } else if is_digit(s[from]) {
        1 + digits_len(s, from + 1)
    } else {
        0
    }
}

/// The value of the `len` digits standing at position `from`.
pub open spec fn digits_val(s: Seq<u8>, from: int, len: int) -> int
    decreases len,
{
    if len <= 0 {
        0
    } else {
        digits_val(s, from, len - 1) * 10 + (s[from + len - 1] - 48)
    }
}

/// Whether the digit run at position `from` is a valid dotted-decimal
/// octet: one to three digits, no leading zero, value at most 255.
pub open spec fn octet_ok(s: Seq<u8>, from: int, len: int) -> bool {
    &&& 1 <= len <= 3
    &&& (len > 1 ==> s[from] != 48)
    &&& digits_val(s, from, len) <= 255
}

/// The dotted-decimal IPv4 address a line holds, if any: four valid octets
/// separated by single dots, with nothing before, between, or after.
pub open spec fn parse_ipv4_spec(s: Seq<u8>) -> Option<Ipv4> {
    let l0 = digits_len(s, 0);
    let p1 = l0 + 1;
    let l1 = digits_len(s, p1);
    let p2 = p1 + l1 + 1;
    let l2 = digits_len(s, p2);
    let p3 = p2 + l2 + 1;
    let l3 = digits_len(s, p3);
    if octet_ok(s, 0, l0) && l0 < s.len() && s[l0] == 46
        && octet_ok(s, p1, l1) && p1 + l1 < s.len() && s[p1 + l1] == 46
        && octet_ok(s, p2, l2) && p2 + l2 < s.len() && s[p2 + l2] == 46
        && octet_ok(s, p3, l3) && p3 + l3 == s.len() {
        Some(Ipv4 {
            a: digits_val(s, 0, l0) as u8,
            b: digits_val(s, p1, l1) as u8,
            c: digits_val(s, p2, l2) as u8,
            d: digits_val(s, p3, l3) as u8,
        })
    } else {
        None
    }
}

/// The digit run at `from` consists of digits and stops at the first
/// non-digit (or the end).
proof fn lemma_digits_len(s: Seq<u8>, from: int)
    requires
        0 <= from <= s.len(),
    ensures
        0 <= digits_len(s, from),
        from + digits_len(s, from) <= s.len(),
        forall|i: int| from <= i < from + digits_len(s, from) ==> is_digit(#[trigger] s[i]),
        from + digits_len(s, from) < s.len() ==> !is_digit(s[from + digits_len(s, from)]),
    decreases s.len() - from,
{
    if from < s.len() && is_digit(s[from]) {
        lemma_digits_len(s, from + 1);
    }
}

/// Count the decimal digits standing at position `from`.
fn scan_digits(s: &Vec<u8>, from: usize) -> (n: usize)
    requires
        from <= s@.len(),
    ensures
        n == digits_len(s@, from as int),
{
    proof {
        lemma_digits_len(s@, from as int);
    }
    let mut j: usize = from;
    while j < s.len() && s[j] >= 48 && s[j] <= 57
        invariant
            from <= j <= s@.len(),
            forall|i: int| from <= i < j ==> is_digit(#[trigger] s@[i]),
            j - from <= digits_len(s@, from as int),
            0 <= digits_len(s@, from as int),
            from + digits_len(s@, from as int) <= s@.len(),
            forall|i: int| from <= i < from + digits_len(s@, from as int)
                ==> is_digit(#[trigger] s@[i]),
            from + digits_len(s@, from as int) < s@.len()
                ==> !is_digit(s@[from + digits_len(s@, from as int)]),
        decreases s@.len() - j,
    {
        j = j + 1;
    }
    proof {
        if j - from < digits_len(s@, from as int) {
            assert(is_digit(s@[j as int]));
            assert(false);
        }
    }
    j - from
}

/// Read the value of the one-to-three-digit run standing at `from`.
fn read_octet(s: &Vec<u8>, from: usize, len: usize) -> (v: u16)
    requires
        1 <= len <= 3,
        from + len <= s@.len(),
        forall|i: int| from <= i < from + len ==> is_digit(#[trigger] s@[i]),
    ensures
        v == digits_val(s@, from as int, len as int),
        v <= 999,
{
    proof {
        assert(is_digit(s@[from as int]));
        assert(digits_val(s@, from as int, 0) == 0);
        assert(digits_val(s@, from as int, 1)
            == digits_val(s@, from as int, 0) * 10 + (s@[from as int] - 48));
    }
    let _n = s.len();
    let d0 = (s[from] - 48) as u16;
    if len == 1 {
        d0
    } else if len == 2 {
        proof {
            assert(is_digit(s@[from as int + 1]));
            assert(digits_val(s@, from as int, 2)
                == digits_val(s@, from as int, 1) * 10 + (s@[from as int + 1] - 48));
        }
        let d1 = (s[from + 1] - 48) as u16;
        d0 * 10 + d1
    } else {
        proof {
            assert(is_digit(s@[from as int + 1]));
            assert(is_digit(s@[from as int + 2]));
            assert(digits_val(s@, from as int, 2)
                == digits_val(s@, from as int, 1) * 10 + (s@[from as int + 1] - 48));
            assert(digits_val(s@, from as int, 3)
                == digits_val(s@, from as int, 2) * 10 + (s@[from as int + 2] - 48));
        }
        let d1 = (s[from + 1] - 48) as u16;
        let d2 = (s[from + 2] - 48) as u16;
        (d0 * 10 + d1) * 10 + d2
    }
}

/// Parse one line as a dotted-decimal IPv4 address; `None` on anything
/// malformed, exactly as `parse_ipv4_spec` says.
pub fn parse_ipv4(s: &Vec<u8>) -> (r: Option<Ipv4>)
    ensures
        r == parse_ipv4_spec(s@),
{
    proof {
        lemma_digits_len(s@, 0);
    }
    let l0 = scan_digits(s, 0);
    if !(1 <= l0 && l0 <= 3) || (l0 > 1 && s[0] == 48) {
        return None;
    }
    let v0 = read_octet(s, 0, l0);
    if v0 > 255 {
        return None;
    }
    if !(l0 < s.len()) || s[l0] != 46 {
        return None;
    }
    let p1 = l0 + 1;
    proof {
        lemma_digits_len(s@, p1 as int);
    }
    let l1 = scan_digits(s, p1);
    if !(1 <= l1 && l1 <= 3) || (l1 > 1 && s[p1] == 48) {
        return None;
    }
    let v1 = read_octet(s, p1, l1);
    if v1 > 255 {
        return None;
    }
    if !(p1 + l1 < s.len()) || s[p1 + l1] != 46 {
        return None;
    }
    let p2 = p1 + l1 + 1;
    proof {
        lemma_digits_len(s@, p2 as int);
    }
    let l2 = scan_digits(s, p2);
    if !(1 <= l2 && l2 <= 3) || (l2 > 1 && s[p2] == 48) {
        return None;
    }
    let v2 = read_octet(s, p2, l2);
    if v2 > 255 {
        return None;
    }
    if !(p2 + l2 < s.len()) || s[p2 + l2] != 46 {
        return None;
    }
    let p3 = p2 + l2 + 1;
    proof {
        lemma_digits_len(s@, p3 as int);
    }
    let l3 = scan_digits(s, p3);
    if !(1 <= l3 && l3 <= 3) || (l3 > 1 && s[p3] == 48) {
        return None;
    }
    let v3 = read_octet(s, p3, l3);
    if v3 > 255 {
        return None;
    }
    if p3 + l3 != s.len() {
        return None;
    }
    Some(Ipv4 { a: v0 as u8, b: v1 as u8, c: v2 as u8, d: v3 as u8 })
}



/// The addresses already seen during one discovery scan. Replies are not
/// deduplicated by the scanner — a node may answer a poll more than once —
/// so the consumer tracks which addresses are new.
pub struct Discovered {
    pub seen: Vec<SockAddr>,
}

impl Discovered {
    /// An empty scan: nothing seen yet.
    pub fn new() -> (d: Discovered)
        ensures
            d.seen@ == Seq::<SockAddr>::empty(),
    {
        Discovered { seen: Vec::new() }
    }

    /// Record one reply's address; true exactly when it was not seen
    /// before, so the caller reports each node once.
    pub fn note(&mut self, addr: SockAddr) -> (fresh: bool)
        ensures
            fresh == !old(self).seen@.contains(addr),
            final(self).seen@ == if old(self).seen@.contains(addr) {
                old(self).seen@
            } else {
                old(self).seen@.push(addr)
            },
    {
        let mut k: usize = 0;
        while k < self.seen.len()
            invariant
                k <= self.seen@.len(),
                forall|m: int| 0 <= m < k ==> #[trigger] self.seen@[m] != addr,
        decreases self.seen@.len() - k,
        {
            if self.seen[k] == addr {
                proof {
                    assert(self.seen@.contains(addr));
                }
                return false;
            }
            k = k + 1;
        }
        proof {
            assert(!self.seen@.contains(addr));
        }
        self.seen.push(addr);
        true
    }
}

/// Index of the first line feed in a byte sequence, or its length if none.
pub open spec fn first_newline(s: Seq<u8>) -> int
    decreases s.len(),
{
    if s.len() == 0 {
        0
    } else if s[0] == 10 {
        0
    } else {
        1 + first_newline(s.skip(1))
    }
}

/// `first_newline` really is the first line feed: everything before it is
/// not one, and it points at one whenever the sequence holds any.
pub proof fn lemma_first_newline(s: Seq<u8>)
    ensures
        0 <= first_newline(s) <= s.len(),
        forall|i: int| 0 <= i < first_newline(s) ==> s[i] != 10,
        first_newline(s) < s.len() ==> s[first_newline(s)] == 10,
    decreases s.len(),
{
    if s.len() > 0 && s[0] != 10 {
        lemma_first_newline(s.skip(1));
        assert forall|i: int| 0 <= i < first_newline(s) implies s[i] != 10 by {
            if i > 0 {
                assert(s.skip(1)[i - 1] == s[i]);
            }
        }
        if first_newline(s) < s.len() {
            assert(s.skip(1)[first_newline(s) - 1] == s[first_newline(s)]);
        }
    }
}

/// The lines of a text: the segments between line feeds. A text without a
/// final line feed still ends in a line; one with a final line feed ends in
/// an extra empty line, which no address parse accepts.
pub open spec fn split_lines(s: Seq<u8>) -> Seq<Seq<u8>>
    decreases s.len()
        via split_lines_decreases
{
    let p = first_newline(s);
    if p == s.len() {
        seq![s]
    } else {
        seq![s.take(p)] + split_lines(s.skip(p + 1))
    }
}

#[via_fn]
proof fn split_lines_decreases(s: Seq<u8>) {
    lemma_first_newline(s);
}

/// A line with its carriage return stripped, so that files with either line
/// ending are read alike.
pub open spec fn strip_cr(line: Seq<u8>) -> Seq<u8> {
    if line.len() > 0 && line[line.len() - 1] == 13 {
        line.take(line.len() - 1)
    } else {
        line
    }
}

/// The destinations a list of lines names: each line that parses as an IPv4
/// address, on the protocol's well-known port, in file order; blank and
/// malformed lines are skipped, not fatal.
pub open spec fn targets_of_lines(lines: Seq<Seq<u8>>) -> Seq<SockAddr>
    decreases lines.len(),
{
    if lines.len() == 0 {
        Seq::empty()
    } else {
        let rest = targets_of_lines(lines.skip(1));
        match parse_ipv4_spec(strip_cr(lines[0])) {
            Some(ip) => seq![SockAddr { ip, port: 6454u16 }] + rest,
            None => rest,
        }
    }
}

/// Read a line-per-address list file's contents into the destination set it
/// names. Re-reading the file on every frame write is the caller's duty;
/// this turns one snapshot of its bytes into addresses.
pub fn parse_target_list(content: &Vec<u8>) -> (targets: Vec<SockAddr>)
    ensures
        targets@ == targets_of_lines(split_lines(content@)),
{
    let mut targets: Vec<SockAddr> = Vec::new();
    let mut pos: usize = 0;
    let mut done: bool = false;
    proof {
        assert(content@.skip(0) =~= content@);
        assert(targets@ + targets_of_lines(split_lines(content@))
            =~= targets_of_lines(split_lines(content@)));
    }
    while !done
        invariant
            pos <= content@.len(),
            !done ==> targets@ + targets_of_lines(split_lines(content@.skip(pos as int)))
                == targets_of_lines(split_lines(content@)),
            done ==> targets@ == targets_of_lines(split_lines(content@)),
        decreases content@.len() - pos + (if done { 0int } else { 1int }),
    {
        let ghost rest = content@.skip(pos as int);
        proof {
            lemma_first_newline(rest);
        }
        let mut e: usize = pos;
        while e < content.len() && content[e] != 10
            invariant
                pos <= e <= content@.len(),
                rest == content@.skip(pos as int),
                forall|i: int| pos <= i < e ==> #[trigger] content@[i] != 10,
            decreases content@.len() - e,
        {
            e = e + 1;
        }
        proof {
            assert forall|i: int| 0 <= i < e - pos implies rest[i] != 10 by {
                assert(rest[i] == content@[pos + i]);
            }
            if e < content@.len() {
                assert(rest[e - pos] == content@[e as int]);
            }
            assert(first_newline(rest) == e - pos) by {
                if first_newline(rest) < e - pos {
                    assert(rest[first_newline(rest)] != 10);
                }
            }
        }
        let mut line: Vec<u8> = Vec::new();
        let mut i: usize = pos;
        let stop = if e > pos && content[e - 1] == 13 {
            e - 1
        } else {
            e
        };
        while i < stop
            invariant
                pos <= i <= stop <= content@.len(),
                line@ == content@.subrange(pos as int, i as int),
            decreases stop - i,
        {
            proof {
                assert(content@.subrange(pos as int, i + 1)
                    =~= content@.subrange(pos as int, i as int).push(content@[i as int]));
            }
            line.push(content[i]);
            i = i + 1;
        }
        proof {
            assert(rest.take(e - pos) =~= content@.subrange(pos as int, e as int));
            assert(line@ =~= strip_cr(rest.take(e - pos)));
        }
        let ghost before = targets@;
        let parsed = parse_ipv4(&line);
        match parsed {
            Some(ip) => {
                targets.push(SockAddr { ip, port: PORT });
            },
            None => {},
        }
        if e == content.len() {
            proof {
                let lines = seq![rest];
                assert(rest.take(e - pos) =~= rest);
                assert(split_lines(rest) =~= lines);
                assert(lines[0] == rest);
                assert(lines.skip(1) =~= Seq::<Seq<u8>>::empty());
                assert(targets_of_lines(Seq::<Seq<u8>>::empty()) =~= Seq::<SockAddr>::empty());
                if parse_ipv4_spec(strip_cr(rest)) is Some {
                    let ip = parse_ipv4_spec(strip_cr(rest))->Some_0;
                    let addr = SockAddr { ip, port: 6454u16 };
                    assert(targets_of_lines(lines) =~= seq![addr]);
                    assert(targets@ =~= before + seq![addr]);
                } else {
                    assert(targets_of_lines(lines) =~= Seq::<SockAddr>::empty());
                    assert(targets@ =~= before + targets_of_lines(lines));
                }
                assert(targets@ == targets_of_lines(split_lines(content@)));
            }
            done = true;
        } else {
            proof {
                let tail = content@.skip(e + 1);
                let first = rest.take(e - pos);
                let lines = seq![first] + split_lines(tail);
                assert(rest.skip(e - pos + 1) =~= tail);
                assert(split_lines(rest) == lines);
                assert(lines[0] == first);
                assert(lines.skip(1) =~= split_lines(tail));
                if parse_ipv4_spec(strip_cr(first)) is Some {
                    let ip = parse_ipv4_spec(strip_cr(first))->Some_0;
                    let addr = SockAddr { ip, port: 6454u16 };
                    assert(targets_of_lines(lines)
                        =~= seq![addr] + targets_of_lines(split_lines(tail)));
                    assert(targets@ =~= before + seq![addr]);
                    assert(targets@ + targets_of_lines(split_lines(tail))
                        =~= before + targets_of_lines(split_lines(rest)));
                } else {
                    assert(targets_of_lines(lines) =~= targets_of_lines(split_lines(tail)));
                    assert(targets@ + targets_of_lines(split_lines(tail))
                        =~= before + targets_of_lines(split_lines(rest)));
                }
            }
            pos = e + 1;
        }
    }
    targets
}


}
