//! mDNS name encoding, query matching and A-record answers (RFC 6762).

use vstd::prelude::*;
use vstd::string::StringSliceAdditionalSpecFns;

verus! {

// ── Wire-format model ────────────────────────────────────────────────────────

/// The single length byte written in front of a label of `n` bytes: the
/// label length truncated to one byte.
pub open spec fn label_len_byte(n: nat) -> u8 {
    (n % 256) as u8
}

/// DNS wire format of `hostname.domain`: two length-prefixed labels and the
/// terminating zero byte.
pub open spec fn mdns_name(hostname: Seq<u8>, domain: Seq<u8>) -> Seq<u8> {
    seq![label_len_byte(hostname.len())] + hostname + seq![label_len_byte(domain.len())] + domain
        + seq![0u8]
}

/// The value of two bytes read in big-endian order.
pub open spec fn be_u16(hi: u8, lo: u8) -> int {
    hi * 256 + lo
}

/// Big-endian bytes of a 16-bit value.
pub open spec fn be16_bytes(v: u16) -> Seq<u8> {
    seq![(v / 256) as u8, (v % 256) as u8]
}

/// Big-endian bytes of a 32-bit value.
pub open spec fn be32_bytes(v: u32) -> Seq<u8> {
    seq![
        (v / 0x100_0000) as u8,
        ((v / 0x1_0000) % 256) as u8,
        ((v / 256) % 256) as u8,
        (v % 256) as u8,
    ]
}

/// ASCII lower-casing of one byte; every other byte is left as it is.
pub open spec fn ascii_lower(b: u8) -> u8 {
    if 65 <= b <= 90 {
        (b + 32) as u8
    } else {
        b
    }
}

/// `query` starts with `encoded`, comparing bytes without regard to ASCII case.
pub open spec fn names_match(query: Seq<u8>, encoded: Seq<u8>) -> bool {
    &&& query.len() >= encoded.len()
    &&& forall|i: int| 0 <= i < encoded.len() ==> ascii_lower(#[trigger] query[i]) == ascii_lower(
        encoded[i],
    )
}

/// Where the DNS name starting at `pos` ends: after its zero label, or after
/// the two bytes of a compression pointer (a length byte with both top bits
/// set). `None` when the name runs past the end of the packet.
pub open spec fn name_end(pkt: Seq<u8>, pos: int) -> Option<int>
    decreases pkt.len() - pos,
{
    if pos < 0 || pos >= pkt.len() {
        None
    } else if pkt[pos] == 0 {
        Some(pos + 1)
    } else if pkt[pos] >= 0xC0 {
        Some(pos + 2)
    } else if pos + 1 + pkt[pos] > pkt.len() {
        None
    } else {
        name_end(pkt, pos + 1 + pkt[pos])
    }
}

/// Scans `count` questions starting at `pos` and yields the first of our two
/// names that an A (1) or ANY (255) question asks for, checking the friendly
/// name before the unique one. `None` when no question asks for one of them,
/// or when the packet ends inside a question.
pub open spec fn answer_name(
    pkt: Seq<u8>,
    pos: int,
    count: nat,
    friendly_enc: Seq<u8>,
    unique_enc: Seq<u8>,
) -> Option<Seq<u8>>
    decreases count,
{
    if count == 0 {
        None
    } else {
        match name_end(pkt, pos) {
            None => None,
            Some(p) => if p + 4 > pkt.len() {
                None
            } else {
                let qtype = be_u16(pkt[p], pkt[p + 1]);
                if qtype != 1 && qtype != 255 {
                    answer_name(pkt, p + 4, (count - 1) as nat, friendly_enc, unique_enc)
                } else if names_match(pkt.skip(pos), friendly_enc) {
                    Some(friendly_enc)
                } else if names_match(pkt.skip(pos), unique_enc) {
                    Some(unique_enc)
                } else {
                    answer_name(pkt, p + 4, (count - 1) as nat, friendly_enc, unique_enc)
                }
            },
        }
    }
}

/// The name an mDNS packet must be answered for: `None` for packets shorter
/// than a header, for responses (QR bit set), and for queries that ask for
/// neither of our names.
pub open spec fn query_answer_name(
    pkt: Seq<u8>,
    friendly_enc: Seq<u8>,
    unique_enc: Seq<u8>,
) -> Option<Seq<u8>> {
    if pkt.len() < 12 {
        None
    } else if pkt[2] >= 0x80 {
        None
    } else {
        answer_name(pkt, 12, be_u16(pkt[4], pkt[5]) as nat, friendly_enc, unique_enc)
    }
}

/// The message ID of a packet of at least two bytes.
pub open spec fn message_id(pkt: Seq<u8>) -> u16 {
    be_u16(pkt[0], pkt[1]) as u16
}

/// An mDNS response with one A record: header (QR and AA set, no
/// questions, one answer), then `name`, TYPE A, CLASS IN with the
/// cache-flush bit, the TTL, RDLENGTH 4 and the address.
pub open spec fn a_record_answer(msg_id: u16, name: Seq<u8>, ip: Seq<u8>, ttl: u32) -> Seq<u8> {
    be16_bytes(msg_id) + seq![0x84u8, 0x00u8, 0u8, 0u8, 0u8, 1u8, 0u8, 0u8, 0u8, 0u8] + name
        + seq![0u8, 1u8, 0x80u8, 0x01u8] + be32_bytes(ttl) + seq![0u8, 4u8] + ip
}

/// The TTL, in seconds, of the answers to queries.
pub open spec fn query_answer_ttl() -> u32 {
    120
}

// ── Buffer writing ───────────────────────────────────────────────────────────

/// Copies `src` into `buf` starting at `pos`.
fn copy_into(buf: &mut [u8], pos: usize, src: &[u8])
    requires
        pos + src@.len() <= old(buf)@.len(),
    ensures
        final(buf)@ == old(buf)@.take(pos as int) + src@ + old(buf)@.skip(pos + src@.len()),
{
    let n = src.len();
    let mut i: usize = 0;
    while i < n
        invariant
            n == src@.len(),
            i <= n,
            pos + n <= buf@.len(),
            buf@.len() == buf.len(),
            buf@.len() == old(buf)@.len(),
            buf@ == old(buf)@.take(pos as int) + src@.take(i as int) + old(buf)@.skip(pos + i),
        decreases n - i,
    {
        buf[pos + i] = src[i];
        i = i + 1;
        assert(buf@ =~= old(buf)@.take(pos as int) + src@.take(i as int) + old(buf)@.skip(pos + i));
    }
    assert(src@.take(n as int) =~= src@);
}

/// Writing `x` right after the already written `out` extends `out` by `x`.
proof fn lemma_extend_written(b: Seq<u8>, orig: Seq<u8>, out: Seq<u8>, x: Seq<u8>)
    requires
        b == out + orig.skip(out.len() as int),
        b.len() == orig.len(),
        out.len() + x.len() <= orig.len(),
    ensures
        b.take(out.len() as int) + x + b.skip((out.len() + x.len()) as int) == (out + x) + orig.skip(
            (out.len() + x.len()) as int,
        ),
{
    assert(b.take(out.len() as int) =~= out);
    assert(b.skip((out.len() + x.len()) as int) =~= orig.skip((out.len() + x.len()) as int));
    assert(b.take(out.len() as int) + x + b.skip((out.len() + x.len()) as int) =~= (out + x) + orig.skip(
        (out.len() + x.len()) as int,
    ));
}

/// Appends `x` at `pos`, where the bytes written so far are `out`.
fn put(buf: &mut [u8], pos: usize, x: &[u8], Ghost(orig): Ghost<Seq<u8>>, Ghost(out): Ghost<Seq<u8>>)
    requires
        old(buf)@ == out + orig.skip(out.len() as int),
        old(buf)@.len() == orig.len(),
        pos == out.len(),
        out.len() + x@.len() <= orig.len(),
    ensures
        final(buf)@ == (out + x@) + orig.skip((out.len() + x@.len()) as int),
{
    proof {
        lemma_extend_written(old(buf)@, orig, out, x@);
    }
    copy_into(buf, pos, x);
}

// ── Public API ───────────────────────────────────────────────────────────────

/// Encode `hostname.domain` into DNS wire format (length-prefixed labels + NUL)
/// at the start of `buf`. Returns the number of bytes written.
pub fn encode_mdns_name(buf: &mut [u8], hostname: &str, domain: &str) -> (n: usize)
    requires
        hostname.spec_bytes().len() + domain.spec_bytes().len() + 3 <= old(buf)@.len(),
    ensures
        n == mdns_name(hostname.spec_bytes(), domain.spec_bytes()).len(),
        n == hostname.spec_bytes().len() + domain.spec_bytes().len() + 3,
        final(buf)@ == mdns_name(hostname.spec_bytes(), domain.spec_bytes()) + old(buf)@.skip(
            n as int,
        ),
        ({
            let h = hostname.spec_bytes();
            let d = domain.spec_bytes();
            let hl = h.len() as int;
            let dl = d.len() as int;
            &&& final(buf)@.len() == old(buf)@.len()
            &&& final(buf)@[0] == (hl % 256) as u8
            &&& final(buf)@.subrange(1, 1 + hl) == h
            &&& final(buf)@[1 + hl] == (dl % 256) as u8
            &&& final(buf)@.subrange(2 + hl, 2 + hl + dl) == d
            &&& final(buf)@[2 + hl + dl] == 0
            &&& final(buf)@.skip(3 + hl + dl) == old(buf)@.skip(3 + hl + dl)
        }),
{
    proof {
        lemma_mdns_name_layout(hostname.spec_bytes(), domain.spec_bytes());
    }
    let h = hostname.as_bytes();
    let d = domain.as_bytes();
    let ghost enc = mdns_name(h@, d@);
    let mut pos: usize = 0;
    buf[pos] = (h.len() % 256) as u8;
    pos = pos + 1;
    copy_into(buf, pos, h);
    pos = pos + h.len();
    buf[pos] = (d.len() % 256) as u8;
    pos = pos + 1;
    copy_into(buf, pos, d);
    pos = pos + d.len();
    buf[pos] = 0;
    assert(buf@ =~= enc + old(buf)@.skip(pos + 1));
    pos + 1
}

/// ASCII lower-casing of one byte.
fn to_ascii_lower(b: u8) -> (r: u8)
    ensures
        r == ascii_lower(b),
{
    if 65 <= b && b <= 90 {
        b + 32
    } else {
        b
    }
}

/// Case-insensitive comparison of the leading bytes of `query` with `encoded`.
pub fn names_equal_prefix(query: &[u8], encoded: &[u8]) -> (r: bool)
    ensures
        r == names_match(query@, encoded@),
{
    if query.len() < encoded.len() {
        return false;
    }
    let n = encoded.len();
    let mut i: usize = 0;
    while i < n
        invariant
            n == encoded@.len(),
            n <= query@.len(),
            i <= n,
            forall|j: int| 0 <= j < i ==> ascii_lower(#[trigger] query@[j]) == ascii_lower(
                encoded@[j],
            ),
        decreases n - i,
    {
        if to_ascii_lower(query[i]) != to_ascii_lower(encoded[i]) {
            return false;
        }
        i = i + 1;
    }
    true
}

/// Build an mDNS A-record answer packet (header + single answer) for `name_enc`.
/// Returns the number of bytes written. `msg_id` should match the query being
/// answered, or be `0` for an unsolicited announcement/goodbye (RFC 6762 §18.1).
fn build_a_record_answer(
    resp: &mut [u8],
    msg_id: u16,
    name_enc: &[u8],
    device_ip: [u8; 4],
    ttl: u32,
) -> (n: usize)
    requires
        name_enc@.len() + 26 <= old(resp)@.len(),
    ensures
        n == a_record_answer(msg_id, name_enc@, device_ip@, ttl).len(),
        n == name_enc@.len() + 26,
        final(resp)@ == a_record_answer(msg_id, name_enc@, device_ip@, ttl) + old(resp)@.skip(
            n as int,
        ),
{
    let ghost orig = resp@;
    let resp_len = resp.len();
    let mut p: usize = 0;
    assert(resp@ =~= Seq::<u8>::empty() + orig.skip(0));

    // Header: ID, flags QR=1 AA=1, QDCOUNT=0, ANCOUNT=1, NSCOUNT=0, ARCOUNT=0.
    let header: [u8; 12] = [
        (msg_id / 256) as u8,
        (msg_id % 256) as u8,
        0x84,
        0x00,
        0,
        0,
        0,
        1,
        0,
        0,
        0,
        0,
    ];
    let ghost out0 = Seq::<u8>::empty();
    put(resp, p, &header, Ghost(orig), Ghost(out0));
    let ghost out1 = out0 + header@;
    p = p + 12;

    // Answer record: NAME.
    put(resp, p, name_enc, Ghost(orig), Ghost(out1));
    let ghost out2 = out1 + name_enc@;
    assert(p + name_enc@.len() <= resp_len);
    p = p + name_enc.len();

    // TYPE=A, CLASS=IN + cache-flush, TTL, RDLENGTH=4, RDATA = IP.
    let tail: [u8; 14] = [
        0,
        1,
        0x80,
        0x01,
        (ttl / 0x100_0000) as u8,
        ((ttl / 0x1_0000) % 256) as u8,
        ((ttl / 256) % 256) as u8,
        (ttl % 256) as u8,
        0,
        4,
        device_ip[0],
        device_ip[1],
        device_ip[2],
        device_ip[3],
    ];
    put(resp, p, &tail, Ghost(orig), Ghost(out2));
    p = p + 14;
    assert(out2 + tail@ =~= a_record_answer(msg_id, name_enc@, device_ip@, ttl));
    p
}

/// Build an unsolicited mDNS announcement or goodbye packet for `name_enc`,
/// per RFC 6762 §8.3 (announcements) and §10.1 (goodbye packets).
///
/// Use `ttl = 0` as a goodbye for a name that's no longer valid (e.g. after a
/// rename), or the normal TTL (matching [`handle_mdns_query`]'s responses, 120)
/// to announce a name so listeners' caches update without waiting for expiry.
/// Returns the number of bytes written.
pub fn build_mdns_announcement(resp: &mut [u8], name_enc: &[u8], device_ip: [u8; 4], ttl: u32) -> (n: usize)
    requires
        name_enc@.len() + 26 <= old(resp)@.len(),
    ensures
        n == a_record_answer(0, name_enc@, device_ip@, ttl).len(),
        n == name_enc@.len() + 26,
        final(resp)@ == a_record_answer(0, name_enc@, device_ip@, ttl) + old(resp)@.skip(
            n as int,
        ),
{
    build_a_record_answer(resp, 0, name_enc, device_ip, ttl)
}

/// Parse an mDNS query and build a response if it asks for one of our names.
/// Returns the response length, or None if the packet is not for us.
#[verifier::rlimit(40)]
pub fn handle_mdns_query(
    pkt: &[u8],
    resp: &mut [u8],
    device_ip: [u8; 4],
    friendly_enc: &[u8],
    unique_enc: &[u8],
) -> (r: Option<usize>)
    requires
        query_answer_name(pkt@, friendly_enc@, unique_enc@) matches Some(name) ==> name.len() + 26
            <= old(resp)@.len(),
    ensures
        match query_answer_name(pkt@, friendly_enc@, unique_enc@) {
            None => r is None && final(resp)@ == old(resp)@,
            Some(name) => {
                let answer = a_record_answer(
                    message_id(pkt@),
                    name,
                    device_ip@,
                    query_answer_ttl(),
                );
                &&& r matches Some(n) && n == answer.len()
                &&& final(resp)@ == answer + old(resp)@.skip(answer.len() as int)
            },
        },
{
    let ghost fe = friendly_enc@;
    let ghost ue = unique_enc@;
    let len = pkt.len();
    if len < 12 {
        return None;
    }
    // Only handle queries (QR bit = 0)
    let flags = pkt[2];
    assert(flags & 0x80 != 0 <==> flags >= 0x80) by (bit_vector);
    if flags & 0x80 != 0 {
        return None;
    }

    let qdcount = pkt[4] as usize * 256 + pkt[5] as usize;
    let ghost total = query_answer_name(pkt@, fe, ue);
    assert(total == answer_name(pkt@, 12, qdcount as nat, fe, ue));
    let mut pos: usize = 12;
    let mut matched: Option<&[u8]> = None;
    let mut q: usize = 0;

    while q < qdcount
        invariant_except_break
            matched is None,
            q <= qdcount,
            pos <= len,
            total == answer_name(pkt@, pos as int, (qdcount - q) as nat, fe, ue),
        invariant
            len == pkt@.len(),
            resp@ == old(resp)@,
            friendly_enc@ == fe,
            unique_enc@ == ue,
            total == query_answer_name(pkt@, fe, ue),
        ensures
            matched matches Some(m) ==> total == Some(m@),
            matched is None ==> total is None,
        decreases qdcount - q,
    {
        let name_start = pos;
        // Skip the DNS name
        loop
            invariant_except_break
                name_start <= pos,
                name_end(pkt@, name_start as int) == name_end(pkt@, pos as int),
            invariant
                len == pkt@.len(),
                resp@ == old(resp)@,
                friendly_enc@ == fe,
                unique_enc@ == ue,
                total == query_answer_name(pkt@, fe, ue),
                q < qdcount,
                name_start <= len,
                total == answer_name(pkt@, name_start as int, (qdcount - q) as nat, fe, ue),
            ensures
                name_end(pkt@, name_start as int) == Some(pos as int),
                pos <= len,
            decreases len - pos,
        {
            if pos >= len {
                assert(total is None);
                return None;
            }
            let label_len = pkt[pos];
            if label_len == 0 {
                pos = pos + 1;
                break;
            }
            assert(label_len & 0xC0 == 0xC0 <==> label_len >= 0xC0) by (bit_vector);
            if label_len & 0xC0 == 0xC0 {
                // Compression pointer; a question cut short after it is no question.
                if len - pos < 6 {
                    return None;
                }
                pos = pos + 2;
                break;
            }
            let step = 1 + label_len as usize;
            if step > len - pos {
                assert(name_end(pkt@, pos as int) is None);
                assert(total is None);
                return None;
            }
            pos = pos + step;
        }
        if len - pos < 4 {
            assert(total is None);
            return None;
        }
        let qtype = pkt[pos] as u16 * 256 + pkt[pos + 1] as u16;
        pos = pos + 4;

        // Only respond to A (1) or ANY (255) queries
        if qtype != 1 && qtype != 255 {
            q = q + 1;
            continue;
        }

        let q_name = vstd::slice::slice_subrange(pkt, name_start, len);
        assert(q_name@ =~= pkt@.skip(name_start as int));
        if names_equal_prefix(q_name, friendly_enc) {
            matched = Some(friendly_enc);
            break;
        }
        if names_equal_prefix(q_name, unique_enc) {
            matched = Some(unique_enc);
            break;
        }
        q = q + 1;
    }

    let name = match matched {
        Some(name) => name,
        None => {
            return None;
        },
    };
    let msg_id = pkt[0] as u16 * 256 + pkt[1] as u16;
    Some(build_a_record_answer(resp, msg_id, name, device_ip, 120))
}

// ── Laws ─────────────────────────────────────────────────────────────────────

/// A DNS name made of plain length-prefixed labels (no compression pointer)
/// that ends with its zero label.
pub open spec fn plain_name(name: Seq<u8>) -> bool
    decreases name.len(),
{
    if name.len() == 0 {
        false
    } else if name[0] == 0 {
        name.len() == 1
    } else {
        &&& name[0] < 0xC0
        &&& 1 + name[0] < name.len()
        &&& plain_name(name.skip(1 + name[0]))
    }
}

/// An mDNS query packet with one question for `qname` of type `qtype`,
/// class IN.
pub open spec fn single_question_query(id: u16, qname: Seq<u8>, qtype: u16) -> Seq<u8> {
    be16_bytes(id) + seq![0u8, 0u8, 0u8, 1u8, 0u8, 0u8, 0u8, 0u8, 0u8, 0u8] + qname + be16_bytes(
        qtype,
    ) + seq![0u8, 1u8]
}

/// The walk over a plain name ends right after it.
proof fn lemma_plain_name_end(pkt: Seq<u8>, start: int, name: Seq<u8>)
    requires
        plain_name(name),
        0 <= start,
        start + name.len() <= pkt.len(),
        pkt.subrange(start, start + name.len()) == name,
    ensures
        name_end(pkt, start) == Some(start + name.len()),
    decreases name.len(),
{
    assert(pkt[start] == name[0]);
    if name[0] != 0 {
        let k = 1 + name[0];
        let rest = name.skip(k);
        assert(pkt.subrange(start + k, start + k + rest.len()) =~= rest);
        lemma_plain_name_end(pkt, start + k, rest);
    }
}

/// A name encoded from two non-empty labels shorter than 0xC0 bytes is a
/// plain name.
pub proof fn lemma_mdns_name_is_plain(hostname: Seq<u8>, domain: Seq<u8>)
    requires
        0 < hostname.len() < 0xC0,
        0 < domain.len() < 0xC0,
    ensures
        plain_name(mdns_name(hostname, domain)),
{
    let n = mdns_name(hostname, domain);
    let r1 = n.skip(1 + hostname.len() as int);
    let r2 = r1.skip(1 + domain.len() as int);
    assert(r2 =~= seq![0u8]);
    assert(plain_name(r2));
    assert(r1[0] == label_len_byte(domain.len()));
    assert(plain_name(r1));
    assert(n[0] == label_len_byte(hostname.len()));
}

/// A name compares equal, without regard to case, to itself, whatever
/// follows it.
pub proof fn lemma_names_match_reflexive(encoded: Seq<u8>, tail: Seq<u8>)
    ensures
        names_match(encoded + tail, encoded),
{
    assert forall|i: int| 0 <= i < encoded.len() implies ascii_lower(
        #[trigger] (encoded + tail)[i],
    ) == ascii_lower(encoded[i]) by {}
}

/// What a one-question query is answered: an A or ANY question whose name
/// (with what follows it in the packet) matches the friendly name gets the
/// friendly name, else one that matches the unique name gets the unique name;
/// any other question gets no answer. The answer carries the query's ID.
pub proof fn lemma_single_question_answer(
    id: u16,
    qname: Seq<u8>,
    qtype: u16,
    friendly_enc: Seq<u8>,
    unique_enc: Seq<u8>,
)
    requires
        plain_name(qname),
    ensures
        ({
            let pkt = single_question_query(id, qname, qtype);
            &&& message_id(pkt) == id
            &&& query_answer_name(pkt, friendly_enc, unique_enc) == if qtype == 1 || qtype == 255 {
                if names_match(pkt.skip(12), friendly_enc) {
                    Some(friendly_enc)
                } else if names_match(pkt.skip(12), unique_enc) {
                    Some(unique_enc)
                } else {
                    None::<Seq<u8>>
                }
            } else {
                None::<Seq<u8>>
            }
        }),
{
    let pkt = single_question_query(id, qname, qtype);
    assert(pkt.len() == 12 + qname.len() + 4);
    assert(pkt[2] == 0u8);
    assert(pkt[4] == 0u8 && pkt[5] == 1u8);
    assert(pkt.subrange(12, 12 + qname.len() as int) =~= qname);
    lemma_plain_name_end(pkt, 12, qname);
    let p: int = 12 + qname.len() as int;
    assert(pkt[p] == (qtype / 256) as u8 && pkt[p + 1] == (qtype % 256) as u8);
    assert(be_u16(pkt[p], pkt[p + 1]) == qtype);
    assert(be_u16(pkt[4], pkt[5]) == 1);
    assert(answer_name(pkt, p + 4, 0, friendly_enc, unique_enc) is None);
    assert(message_id(pkt) == id);
}

/// A query for `hostname.domain` of type A or ANY is answered with the
/// friendly name when that name is `hostname.domain`.
pub proof fn lemma_query_for_friendly_name_is_answered(
    id: u16,
    hostname: Seq<u8>,
    domain: Seq<u8>,
    qtype: u16,
    unique_enc: Seq<u8>,
)
    requires
        0 < hostname.len() < 0xC0,
        0 < domain.len() < 0xC0,
        qtype == 1 || qtype == 255,
    ensures
        query_answer_name(
            single_question_query(id, mdns_name(hostname, domain), qtype),
            mdns_name(hostname, domain),
            unique_enc,
        ) == Some(mdns_name(hostname, domain)),
{
    let name = mdns_name(hostname, domain);
    let pkt = single_question_query(id, name, qtype);
    lemma_mdns_name_is_plain(hostname, domain);
    lemma_single_question_answer(id, name, qtype, name, unique_enc);
    let tail = pkt.skip(12 + name.len() as int);
    assert(pkt.skip(12) =~= name + tail);
    lemma_names_match_reflexive(name, tail);
}

/// An announcement with the normal TTL is the answer a query for the same
/// name gets, except that its message ID is zero.
pub proof fn lemma_announcement_is_unsolicited_answer(msg_id: u16, name: Seq<u8>, ip: Seq<u8>)
    ensures
        a_record_answer(0, name, ip, query_answer_ttl()).len() == a_record_answer(
            msg_id,
            name,
            ip,
            query_answer_ttl(),
        ).len(),
        a_record_answer(0, name, ip, query_answer_ttl()).take(2) == seq![0u8, 0u8],
        a_record_answer(0, name, ip, query_answer_ttl()).skip(2) == a_record_answer(
            msg_id,
            name,
            ip,
            query_answer_ttl(),
        ).skip(2),
{
    let a = a_record_answer(0, name, ip, query_answer_ttl());
    let b = a_record_answer(msg_id, name, ip, query_answer_ttl());
    assert(a.take(2) =~= seq![0u8, 0u8]);
    assert(a.skip(2) =~= b.skip(2));
}

/// The layout of an A-record answer, for every message ID, name, address
/// and TTL: 12 header bytes (ID, flags 0x8400, QDCOUNT 0, ANCOUNT 1, NSCOUNT
/// 0, ARCOUNT 0), the name, then TYPE A, CLASS IN with cache-flush, the TTL,
/// RDLENGTH 4 and the address, all big-endian.
pub proof fn lemma_a_record_layout(msg_id: u16, name: Seq<u8>, ip: Seq<u8>, ttl: u32)
    requires
        ip.len() == 4,
    ensures
        ({
            let a = a_record_answer(msg_id, name, ip, ttl);
            let l = name.len() as int;
            &&& a.len() == 26 + l
            &&& a[0] == (msg_id / 256) as u8 && a[1] == (msg_id % 256) as u8
            &&& a[16 + l] == (ttl / 0x100_0000) as u8 && a[17 + l] == ((ttl / 0x1_0000) % 256) as u8
            &&& a[18 + l] == ((ttl / 256) % 256) as u8 && a[19 + l] == (ttl % 256) as u8
            &&& a.subrange(0, 2) == be16_bytes(msg_id)
            &&& a.subrange(2, 12) == seq![0x84u8, 0u8, 0u8, 0u8, 0u8, 1u8, 0u8, 0u8, 0u8, 0u8]
            &&& a.subrange(12, 12 + l) == name
            &&& a.subrange(12 + l, 16 + l) == seq![0u8, 1u8, 0x80u8, 0x01u8]
            &&& a.subrange(16 + l, 20 + l) == be32_bytes(ttl)
            &&& a.subrange(20 + l, 22 + l) == seq![0u8, 4u8]
            &&& a.subrange(22 + l, 26 + l) == ip
        }),
{
    let a = a_record_answer(msg_id, name, ip, ttl);
    let l = name.len() as int;
    assert(a.subrange(0, 2) =~= be16_bytes(msg_id));
    assert(a.subrange(2, 12) =~= seq![0x84u8, 0u8, 0u8, 0u8, 0u8, 1u8, 0u8, 0u8, 0u8, 0u8]);
    assert(a.subrange(12, 12 + l) =~= name);
    assert(a.subrange(12 + l, 16 + l) =~= seq![0u8, 1u8, 0x80u8, 0x01u8]);
    assert(a.subrange(16 + l, 20 + l) =~= be32_bytes(ttl));
    assert(a.subrange(20 + l, 22 + l) =~= seq![0u8, 4u8]);
    assert(a.subrange(22 + l, 26 + l) =~= ip);
}

/// The encoded name is the hostname's length byte, the hostname's bytes
/// verbatim, the domain's length byte, the domain's bytes verbatim, and a
/// zero byte.
pub proof fn lemma_mdns_name_layout(hostname: Seq<u8>, domain: Seq<u8>)
    ensures
        ({
            let e = mdns_name(hostname, domain);
            let hl = hostname.len() as int;
            let dl = domain.len() as int;
            &&& e.len() == 3 + hl + dl
            &&& e[0] == (hl % 256) as u8
            &&& e.subrange(1, 1 + hl) == hostname
            &&& e[1 + hl] == (dl % 256) as u8
            &&& e.subrange(2 + hl, 2 + hl + dl) == domain
            &&& e[2 + hl + dl] == 0
        }),
{
    let e = mdns_name(hostname, domain);
    let hl = hostname.len() as int;
    let dl = domain.len() as int;
    assert(e.subrange(1, 1 + hl) =~= hostname);
    assert(e.subrange(2 + hl, 2 + hl + dl) =~= domain);
}

/// The same ASCII letter in the other case; any other byte itself.
pub open spec fn other_case(b: u8) -> u8 {
    if 65 <= b <= 90 {
        (b + 32) as u8
    } else if 97 <= b <= 122 {
        (b - 32) as u8
    } else {
        b
    }
}

/// A query starts with a name, regardless of case, exactly when it is at
/// least as long and each of its leading bytes is the name's byte or that
/// byte's other-case letter; case on either side does not matter.
pub proof fn lemma_names_match_characterised(query: Seq<u8>, encoded: Seq<u8>)
    ensures
        names_match(query, encoded) <==> (query.len() >= encoded.len() && forall|i: int|
            0 <= i < encoded.len() ==> #[trigger] query[i] == encoded[i] || query[i] == other_case(
                encoded[i],
            )),
{
    assert forall|x: u8, y: u8| #![auto] ascii_lower(x) == ascii_lower(y) <==> (x == y || x
        == other_case(y)) by {}
}

/// Switching the case of one letter of our own name changes no match.
pub proof fn lemma_names_match_ignores_case_of_encoded(query: Seq<u8>, encoded: Seq<u8>, i: int)
    requires
        0 <= i < encoded.len(),
    ensures
        names_match(query, encoded.update(i, other_case(encoded[i]))) == names_match(
            query,
            encoded,
        ),
{
    let e2 = encoded.update(i, other_case(encoded[i]));
    assert(ascii_lower(other_case(encoded[i])) == ascii_lower(encoded[i]));
    if names_match(query, encoded) {
        assert forall|j: int| 0 <= j < e2.len() implies ascii_lower(#[trigger] query[j])
            == ascii_lower(e2[j]) by {
            assert(ascii_lower(query[j]) == ascii_lower(encoded[j]));
        }
    }
    if names_match(query, e2) {
        assert forall|j: int| 0 <= j < encoded.len() implies ascii_lower(#[trigger] query[j])
            == ascii_lower(encoded[j]) by {
            assert(ascii_lower(query[j]) == ascii_lower(e2[j]));
        }
    }
}

/// Switching the case of one letter of the query changes no match.
pub proof fn lemma_names_match_ignores_case_of_query(query: Seq<u8>, encoded: Seq<u8>, i: int)
    requires
        0 <= i < query.len(),
    ensures
        names_match(query.update(i, other_case(query[i])), encoded) == names_match(
            query,
            encoded,
        ),
{
    let q2 = query.update(i, other_case(query[i]));
    assert(ascii_lower(other_case(query[i])) == ascii_lower(query[i]));
    assert forall|j: int| 0 <= j < query.len() implies ascii_lower(#[trigger] q2[j]) == ascii_lower(
        query[j],
    ) by {}
    if names_match(query, encoded) {
        assert forall|j: int| 0 <= j < encoded.len() implies ascii_lower(#[trigger] q2[j])
            == ascii_lower(encoded[j]) by {
            assert(ascii_lower(q2[j]) == ascii_lower(query[j]));
            assert(ascii_lower(query[j]) == ascii_lower(encoded[j]));
        }
    }
    if names_match(q2, encoded) {
        assert forall|j: int| 0 <= j < encoded.len() implies ascii_lower(#[trigger] query[j])
            == ascii_lower(encoded[j]) by {
            assert(ascii_lower(q2[j]) == ascii_lower(query[j]));
            assert(ascii_lower(q2[j]) == ascii_lower(encoded[j]));
        }
    }
}

/// The 12-byte header of a query with message ID `id` and `count`
/// questions (all flags clear, no other records).
pub open spec fn query_header(id: u16, count: u16) -> Seq<u8> {
    be16_bytes(id) + seq![0u8, 0u8] + be16_bytes(count) + seq![0u8, 0u8, 0u8, 0u8, 0u8, 0u8]
}

/// One question: the name, then QTYPE and QCLASS, big-endian.
pub open spec fn question(qname: Seq<u8>, qtype: u16, qclass: u16) -> Seq<u8> {
    qname + be16_bytes(qtype) + be16_bytes(qclass)
}

proof fn lemma_be16_roundtrip(v: u16)
    ensures
        be_u16(be16_bytes(v)[0], be16_bytes(v)[1]) == v,
{
}

/// Where a name ends depends only on the bytes from its start on.
proof fn lemma_name_end_shift(pre: Seq<u8>, t: Seq<u8>, p: int)
    requires
        0 <= p,
    ensures
        name_end(pre + t, pre.len() + p) == (match name_end(t, p) {
            Some(e) => Some(e + pre.len()),
            None => None,
        }),
        name_end(t, p) matches Some(e) ==> e > p,
    decreases t.len() - p,
{
    let pkt = pre + t;
    let q = pre.len() + p;
    if p < t.len() {
        assert(pkt[q] == t[p]);
        if t[p] != 0 && t[p] < 0xC0 && p + 1 + t[p] <= t.len() {
            lemma_name_end_shift(pre, t, p + 1 + t[p]);
        }
    }
}

/// The answer from some question on depends only on the bytes from that
/// question on.
proof fn lemma_answer_name_shift(
    pre: Seq<u8>,
    t: Seq<u8>,
    p: int,
    count: nat,
    friendly_enc: Seq<u8>,
    unique_enc: Seq<u8>,
)
    requires
        0 <= p,
    ensures
        answer_name(pre + t, pre.len() + p, count, friendly_enc, unique_enc) == answer_name(
            t,
            p,
            count,
            friendly_enc,
            unique_enc,
        ),
    decreases count,
{
    if count > 0 {
        let pkt = pre + t;
        lemma_name_end_shift(pre, t, p);
        if let Some(e) = name_end(t, p) {
            assert(pkt.skip(pre.len() + p) =~= t.skip(p));
            if e + 4 <= t.len() {
                assert(pkt[pre.len() + e] == t[e]);
                assert(pkt[pre.len() + e + 1] == t[e + 1]);
                lemma_answer_name_shift(pre, t, e + 4, (count - 1) as nat, friendly_enc, unique_enc);
            }
        }
    }
}

/// Only the QR bit decides whether a packet is taken for a response and
/// ignored: a response is never answered, and a query is answered as if
/// its flag bytes were clear.
pub proof fn lemma_only_qr_bit_ignores_packet(
    pkt: Seq<u8>,
    friendly_enc: Seq<u8>,
    unique_enc: Seq<u8>,
)
    requires
        pkt.len() >= 12,
    ensures
        pkt[2] >= 0x80 ==> query_answer_name(pkt, friendly_enc, unique_enc) is None,
        pkt[2] < 0x80 ==> query_answer_name(pkt, friendly_enc, unique_enc) == query_answer_name(
            pkt.update(2, 0u8).update(3, 0u8),
            friendly_enc,
            unique_enc,
        ),
{
    let pkt2 = pkt.update(2, 0u8).update(3, 0u8);
    let t = pkt.skip(12);
    assert(pkt =~= pkt.take(12) + t);
    assert(pkt2 =~= pkt2.take(12) + t);
    let k = be_u16(pkt[4], pkt[5]) as nat;
    assert(pkt2[4] == pkt[4] && pkt2[5] == pkt[5]);
    lemma_answer_name_shift(pkt.take(12), t, 0, k, friendly_enc, unique_enc);
    lemma_answer_name_shift(pkt2.take(12), t, 0, k, friendly_enc, unique_enc);
}

/// Whether a name matches depends only on as many leading bytes as the
/// name has.
proof fn lemma_names_match_prefix_only(a: Seq<u8>, b: Seq<u8>, e: Seq<u8>)
    requires
        a.len() == b.len(),
        e.len() <= a.len(),
        forall|i: int| 0 <= i < e.len() ==> #[trigger] a[i] == b[i],
    ensures
        names_match(a, e) == names_match(b, e),
{
    if names_match(a, e) {
        assert forall|i: int| 0 <= i < e.len() implies ascii_lower(#[trigger] b[i]) == ascii_lower(
            e[i],
        ) by {
            assert(a[i] == b[i]);
            assert(ascii_lower(a[i]) == ascii_lower(e[i]));
        }
    }
    if names_match(b, e) {
        assert forall|i: int| 0 <= i < e.len() implies ascii_lower(#[trigger] a[i]) == ascii_lower(
            e[i],
        ) by {
            assert(a[i] == b[i]);
            assert(ascii_lower(b[i]) == ascii_lower(e[i]));
        }
    }
}

/// The class of a question does not decide its answer: a question with any
/// QCLASS (such as IN with the unicast-response bit, 0x8001) is answered
/// as the same question of class IN, as long as our names do not reach
/// past the question's name and type.
pub proof fn lemma_question_class_is_ignored(
    id: u16,
    qname: Seq<u8>,
    qtype: u16,
    qclass: u16,
    friendly_enc: Seq<u8>,
    unique_enc: Seq<u8>,
)
    requires
        plain_name(qname),
        friendly_enc.len() <= qname.len() + 2,
        unique_enc.len() <= qname.len() + 2,
    ensures
        query_answer_name(
            query_header(id, 1) + question(qname, qtype, qclass),
            friendly_enc,
            unique_enc,
        ) == query_answer_name(
            query_header(id, 1) + question(qname, qtype, 1),
            friendly_enc,
            unique_enc,
        ),
{
    let a = query_header(id, 1) + question(qname, qtype, qclass);
    let b = query_header(id, 1) + question(qname, qtype, 1);
    let l = qname.len() as int;
    assert(a.len() == 16 + l && b.len() == 16 + l);
    assert(a[2] == 0u8 && b[2] == 0u8);
    assert(a[4] == 0u8 && a[5] == 1u8 && b[4] == 0u8 && b[5] == 1u8);
    assert(a.subrange(12, 12 + l) =~= qname);
    assert(b.subrange(12, 12 + l) =~= qname);
    lemma_plain_name_end(a, 12, qname);
    lemma_plain_name_end(b, 12, qname);
    assert(a[12 + l] == b[12 + l] && a[13 + l] == b[13 + l]);
    assert forall|i: int| 0 <= i < l + 2 implies #[trigger] a.skip(12)[i] == b.skip(12)[i] by {
        if i < l {
            assert(a[12 + i] == qname[i] && b[12 + i] == qname[i]);
        }
    }
    lemma_names_match_prefix_only(a.skip(12), b.skip(12), friendly_enc);
    lemma_names_match_prefix_only(a.skip(12), b.skip(12), unique_enc);
    assert(answer_name(a, 16 + l, 0, friendly_enc, unique_enc) is None);
    assert(answer_name(b, 16 + l, 0, friendly_enc, unique_enc) is None);
}

/// A question of a type other than A or ANY is passed over, not the end of
/// the scan: a query whose first question has another type is answered as
/// the same query without that question.
pub proof fn lemma_other_type_question_is_skipped(
    id: u16,
    count: u16,
    qname: Seq<u8>,
    qtype: u16,
    qclass: u16,
    rest: Seq<u8>,
    friendly_enc: Seq<u8>,
    unique_enc: Seq<u8>,
)
    requires
        count >= 1,
        plain_name(qname),
        qtype != 1 && qtype != 255,
    ensures
        query_answer_name(
            query_header(id, count) + question(qname, qtype, qclass) + rest,
            friendly_enc,
            unique_enc,
        ) == query_answer_name(
            query_header(id, (count - 1) as u16) + rest,
            friendly_enc,
            unique_enc,
        ),
{
    let h1 = query_header(id, count);
    let h2 = query_header(id, (count - 1) as u16);
    let q = question(qname, qtype, qclass);
    let a = h1 + q + rest;
    let b = h2 + rest;
    let l = qname.len() as int;
    lemma_be16_roundtrip(count);
    lemma_be16_roundtrip((count - 1) as u16);
    lemma_be16_roundtrip(qtype);
    assert(a[2] == 0u8 && b[2] == 0u8);
    assert(a[4] == h1[4] && a[5] == h1[5] && b[4] == h2[4] && b[5] == h2[5]);
    assert(a.subrange(12, 12 + l) =~= qname);
    lemma_plain_name_end(a, 12, qname);
    assert(a[12 + l] == be16_bytes(qtype)[0] && a[13 + l] == be16_bytes(qtype)[1]);
    assert(a =~= (h1 + q) + rest);
    lemma_answer_name_shift(h1 + q, rest, 0, (count - 1) as nat, friendly_enc, unique_enc);
    lemma_answer_name_shift(h2, rest, 0, (count - 1) as nat, friendly_enc, unique_enc);
    assert(answer_name(a, 12, count as nat, friendly_enc, unique_enc) == answer_name(
        a,
        16 + l,
        (count - 1) as nat,
        friendly_enc,
        unique_enc,
    ));
}

} // verus!
