//! Fixed-buffer formatting of the `/api/status` JSON body.

use vstd::prelude::*;
use vstd::string::StringSliceAdditionalSpecFns;
use vstd::utf8::{encode_scalar, encode_utf8, valid_utf8};

verus! {

// ── Text model ───────────────────────────────────────────────────────────────

/// ASCII decimal digits of `n`, without leading zeros.
pub open spec fn decimal(n: nat) -> Seq<u8>
    decreases n,
{
    if n < 10 {
        seq![(48 + n) as u8]
    } else {
        decimal(n / 10) + seq![(48 + n % 10) as u8]
    }
}

/// Lower-case hexadecimal digit of a value below 16.
pub open spec fn hex_digit(v: nat) -> u8 {
    if v < 10 {
        (48 + v) as u8
    } else {
        (87 + v) as u8
    }
}

/// How one byte of a string is written inside a JSON string: quote and
/// backslash are backslash-escaped, bytes below 0x20 become `\u00XX` with
/// lower-case hex digits, and every other byte (including the bytes of
/// non-ASCII UTF-8 characters) passes through unchanged.
pub open spec fn escape_byte(b: u8) -> Seq<u8> {
    if b == 0x22 {
        seq![0x5Cu8, 0x22u8]
    } else if b == 0x5C {
        seq![0x5Cu8, 0x5Cu8]
    } else if b < 0x20 {
        seq![0x5Cu8, 0x75u8, 0x30u8, 0x30u8, hex_digit(b as nat / 16), hex_digit(b as nat % 16)]
    } else {
        seq![b]
    }
}

/// The JSON-escaped form of the UTF-8 bytes `s`.
pub open spec fn json_escape(s: Seq<u8>) -> Seq<u8>
    decreases s.len(),
{
    if s.len() == 0 {
        Seq::empty()
    } else {
        json_escape(s.drop_last()) + escape_byte(s.last())
    }
}

/// The `/api/status` body:
/// `{"blink_ms":B,"uptime_secs":U,"friendly_name":"F","unique_name":"N"}`
/// with the two names JSON-escaped.
pub open spec fn status_json(
    blink_ms: u32,
    uptime_secs: u64,
    friendly_name: Seq<u8>,
    unique_name: Seq<u8>,
) -> Seq<u8> {
    "{\"blink_ms\":".spec_bytes() + decimal(blink_ms as nat) + ",\"uptime_secs\":".spec_bytes()
        + decimal(uptime_secs as nat) + ",\"friendly_name\":\"".spec_bytes() + json_escape(
        friendly_name,
    ) + "\",\"unique_name\":\"".spec_bytes() + json_escape(unique_name) + "\"}".spec_bytes()
}

// ── Pieces ───────────────────────────────────────────────────────────────────

/// The pieces of text `ps`, one after another.
pub open spec fn flatten(ps: Seq<Seq<u8>>) -> Seq<u8>
    decreases ps.len(),
{
    if ps.len() == 0 {
        Seq::empty()
    } else {
        ps[0] + flatten(ps.drop_first())
    }
}

/// What writing the pieces `ps` one by one into `room` bytes leaves
/// written: whole pieces as long as they fit, stopping at the first piece
/// that does not.
pub open spec fn fitting_prefix(ps: Seq<Seq<u8>>, room: int) -> Seq<u8>
    decreases ps.len(),
{
    if ps.len() == 0 {
        Seq::empty()
    } else if ps[0].len() <= room {
        ps[0] + fitting_prefix(ps.drop_first(), room - ps[0].len())
    } else {
        Seq::empty()
    }
}

/// The pieces of the `\uXXXX` escape of a control character `v` (below
/// 0x20): `\u`, then one `0` per padding digit, then the lower-case hex
/// digits of `v` without leading zeros, padded to four digits.
pub open spec fn control_escape_pieces(v: nat) -> Seq<Seq<u8>> {
    if v < 16 {
        seq![seq![0x5Cu8, 0x75u8], seq![0x30u8], seq![0x30u8], seq![0x30u8], seq![hex_digit(v)]]
    } else {
        seq![
            seq![0x5Cu8, 0x75u8],
            seq![0x30u8],
            seq![0x30u8],
            seq![hex_digit(v / 16), hex_digit(v % 16)],
        ]
    }
}

/// The pieces in which one character is written inside a JSON string: a
/// quote or backslash as its two-byte escape, a control character as its
/// `\u` escape, any other character as its UTF-8 encoding, whole.
pub open spec fn char_pieces(c: char) -> Seq<Seq<u8>> {
    let v = c as u32;
    if v == 0x22 {
        seq![seq![0x5Cu8, 0x22u8]]
    } else if v == 0x5C {
        seq![seq![0x5Cu8, 0x5Cu8]]
    } else if v < 0x20 {
        control_escape_pieces(v as nat)
    } else {
        seq![encode_scalar(v)]
    }
}

/// The pieces in which a string is written inside a JSON string.
pub open spec fn escape_pieces(chars: Seq<char>) -> Seq<Seq<u8>>
    decreases chars.len(),
{
    if chars.len() == 0 {
        Seq::empty()
    } else {
        char_pieces(chars[0]) + escape_pieces(chars.drop_first())
    }
}

/// The pieces in which the status body is written.
pub open spec fn status_pieces(
    blink_ms: u32,
    uptime_secs: u64,
    friendly_name: Seq<char>,
    unique_name: Seq<char>,
) -> Seq<Seq<u8>> {
    seq![
        "{\"blink_ms\":".spec_bytes(),
        decimal(blink_ms as nat),
        ",\"uptime_secs\":".spec_bytes(),
        decimal(uptime_secs as nat),
        ",\"friendly_name\":\"".spec_bytes(),
    ] + escape_pieces(friendly_name) + seq!["\",\"unique_name\":\"".spec_bytes()] + escape_pieces(
        unique_name,
    ) + seq!["\"}".spec_bytes()]
}

proof fn lemma_flatten_append(a: Seq<Seq<u8>>, b: Seq<Seq<u8>>)
    ensures
        flatten(a + b) == flatten(a) + flatten(b),
    decreases a.len(),
{
    if a.len() == 0 {
        assert(a + b =~= b);
        assert(flatten(a) + flatten(b) =~= flatten(b));
    } else {
        lemma_flatten_append(a.drop_first(), b);
        assert((a + b).drop_first() =~= a.drop_first() + b);
        assert(flatten(a + b) =~= flatten(a) + flatten(b));
    }
}

proof fn lemma_fitting_prefix_append(a: Seq<Seq<u8>>, b: Seq<Seq<u8>>, room: int)
    ensures
        flatten(a).len() <= room ==> fitting_prefix(a + b, room) == flatten(a) + fitting_prefix(
            b,
            room - flatten(a).len(),
        ),
        flatten(a).len() > room ==> fitting_prefix(a + b, room) == fitting_prefix(a, room),
    decreases a.len(),
{
    if a.len() == 0 {
        assert(a + b =~= b);
        assert(flatten(a) + fitting_prefix(b, room) =~= fitting_prefix(b, room));
    } else {
        lemma_fitting_prefix_append(a.drop_first(), b, room - a[0].len());
        assert((a + b).drop_first() =~= a.drop_first() + b);
        assert((a + b)[0] == a[0]);
        if flatten(a).len() <= room {
            assert(flatten(a) + fitting_prefix(b, room - flatten(a).len()) =~= a[0] + (flatten(
                a.drop_first(),
            ) + fitting_prefix(b, room - flatten(a).len())));
        }
    }
}

proof fn lemma_fitting_prefix_bounds(ps: Seq<Seq<u8>>, room: int)
    requires
        room >= 0,
    ensures
        fitting_prefix(ps, room).len() <= room,
        fitting_prefix(ps, room) == flatten(ps).take(fitting_prefix(ps, room).len() as int),
        flatten(ps).len() <= room ==> fitting_prefix(ps, room) == flatten(ps),
        flatten(ps).len() > room ==> fitting_prefix(ps, room).len() < flatten(ps).len(),
    decreases ps.len(),
{
    if ps.len() == 0 {
        assert(flatten(ps).take(0) =~= Seq::<u8>::empty());
    } else if ps[0].len() <= room {
        lemma_fitting_prefix_bounds(ps.drop_first(), room - ps[0].len());
        let rest = fitting_prefix(ps.drop_first(), room - ps[0].len());
        assert(ps[0] + rest =~= flatten(ps).take((ps[0].len() + rest.len()) as int));
    } else {
        assert(flatten(ps).take(0) =~= Seq::<u8>::empty());
    }
}

proof fn lemma_escape_pieces_append(a: Seq<char>, b: Seq<char>)
    ensures
        escape_pieces(a + b) == escape_pieces(a) + escape_pieces(b),
    decreases a.len(),
{
    if a.len() == 0 {
        assert(a + b =~= b);
        assert(escape_pieces(a) + escape_pieces(b) =~= escape_pieces(b));
    } else {
        lemma_escape_pieces_append(a.drop_first(), b);
        assert((a + b).drop_first() =~= a.drop_first() + b);
        assert(escape_pieces(a + b) =~= escape_pieces(a) + escape_pieces(b));
    }
}

/// Bytes from 0x80 up pass through escaping unchanged.
proof fn lemma_json_escape_high(s: Seq<u8>)
    requires
        forall|i: int| 0 <= i < s.len() ==> #[trigger] s[i] >= 0x80,
    ensures
        json_escape(s) == s,
    decreases s.len(),
{
    if s.len() > 0 {
        lemma_json_escape_high(s.drop_last());
        assert(s.drop_last() + seq![s.last()] =~= s);
    }
}

/// The UTF-8 encoding of a character from U+0080 up has only bytes from
/// 0x80 up; that of a character below U+0080 is its one byte.
proof fn lemma_encode_scalar_bytes(v: u32)
    ensures
        v < 0x80 ==> encode_scalar(v) == seq![v as u8],
        v >= 0x80 ==> forall|i: int|
            0 <= i < encode_scalar(v).len() ==> #[trigger] encode_scalar(v)[i] >= 0x80,
{
    assert(forall|x: u8| #![auto] (0xC0u8 | x) >= 0xC0) by (bit_vector);
    assert(forall|x: u8| #![auto] (0xE0u8 | x) >= 0xE0) by (bit_vector);
    assert(forall|x: u8| #![auto] (0xF0u8 | x) >= 0xF0) by (bit_vector);
    assert(forall|x: u8| #![auto] (0x80u8 | x) >= 0x80) by (bit_vector);
    assert(v < 0x80 ==> (v & 0x7F) as u8 == v as u8) by (bit_vector);
}

/// Written piece by piece, a character gives its escaped bytes.
proof fn lemma_char_pieces_flatten(c: char)
    ensures
        flatten(char_pieces(c)) == json_escape(encode_scalar(c as u32)),
{
    let v = c as u32;
    lemma_encode_scalar_bytes(v);
    reveal_with_fuel(flatten, 6);
    if v < 0x80 {
        let b = v as u8;
        assert(seq![b].drop_last() =~= Seq::<u8>::empty());
        assert(json_escape(Seq::<u8>::empty()) =~= Seq::<u8>::empty());
        assert(json_escape(seq![b]) =~= escape_byte(b));
        if v < 0x20 && v != 0x22 && v != 0x5C {
            assert(flatten(char_pieces(c)) =~= escape_byte(b));
        } else {
            assert(flatten(char_pieces(c)) =~= escape_byte(b));
        }
    } else {
        lemma_json_escape_high(encode_scalar(v));
        assert(flatten(char_pieces(c)) =~= encode_scalar(v));
    }
}

/// Written piece by piece, a string gives the escaped form of its UTF-8
/// bytes.
pub proof fn lemma_escape_pieces_flatten(chars: Seq<char>)
    ensures
        flatten(escape_pieces(chars)) == json_escape(encode_utf8(chars)),
    decreases chars.len(),
{
    if chars.len() == 0 {
        assert(json_escape(Seq::<u8>::empty()) =~= Seq::<u8>::empty());
        assert(encode_utf8(chars) =~= Seq::<u8>::empty());
    } else {
        lemma_escape_pieces_flatten(chars.drop_first());
        lemma_char_pieces_flatten(chars[0]);
        lemma_flatten_append(char_pieces(chars[0]), escape_pieces(chars.drop_first()));
        lemma_json_escape_append(encode_scalar(chars[0] as u32), encode_utf8(chars.drop_first()));
    }
}

/// Written piece by piece, the status pieces give the status body.
pub proof fn lemma_status_pieces_flatten(
    blink_ms: u32,
    uptime_secs: u64,
    friendly_name: Seq<char>,
    unique_name: Seq<char>,
)
    ensures
        flatten(status_pieces(blink_ms, uptime_secs, friendly_name, unique_name)) == status_json(
            blink_ms,
            uptime_secs,
            encode_utf8(friendly_name),
            encode_utf8(unique_name),
        ),
{
    let head = seq![
        "{\"blink_ms\":".spec_bytes(),
        decimal(blink_ms as nat),
        ",\"uptime_secs\":".spec_bytes(),
        decimal(uptime_secs as nat),
        ",\"friendly_name\":\"".spec_bytes(),
    ];
    let ef = escape_pieces(friendly_name);
    let mid = seq!["\",\"unique_name\":\"".spec_bytes()];
    let eu = escape_pieces(unique_name);
    let tail = seq!["\"}".spec_bytes()];
    lemma_escape_pieces_flatten(friendly_name);
    lemma_escape_pieces_flatten(unique_name);
    lemma_flatten_append(head, ef);
    lemma_flatten_append(head + ef, mid);
    lemma_flatten_append(head + ef + mid, eu);
    lemma_flatten_append(head + ef + mid + eu, tail);
    reveal_with_fuel(flatten, 6);
    assert(flatten(tail) =~= "\"}".spec_bytes());
    assert(flatten(mid) =~= "\",\"unique_name\":\"".spec_bytes());
    assert(flatten(head) =~= "{\"blink_ms\":".spec_bytes() + decimal(blink_ms as nat)
        + ",\"uptime_secs\":".spec_bytes() + decimal(uptime_secs as nat)
        + ",\"friendly_name\":\"".spec_bytes());
    assert(flatten(status_pieces(blink_ms, uptime_secs, friendly_name, unique_name)) =~= status_json(
        blink_ms,
        uptime_secs,
        encode_utf8(friendly_name),
        encode_utf8(unique_name),
    ));
}

// ── Buffer writing ───────────────────────────────────────────────────────────

/// The buffer had no room for the next piece of output.
struct BufferFull;

/// Writing the pieces `ps` one by one into `before` from `pos` on gave
/// `after` and the result `r`: all of them and the position after them when
/// they fit; else the pieces that fit before the first one that does not,
/// and `BufferFull`. Nothing else in the buffer changes.
#[verifier::opaque]
spec fn wrote(
    before: Seq<u8>,
    after: Seq<u8>,
    pos: int,
    r: Result<usize, BufferFull>,
    ps: Seq<Seq<u8>>,
) -> bool {
    let room = before.len() - pos;
    let done = fitting_prefix(ps, room);
    &&& after.len() == before.len()
    &&& (r is Ok <==> flatten(ps).len() <= room)
    &&& r matches Ok(p) ==> p == pos + flatten(ps).len() && after == before.take(pos) + flatten(ps)
        + before.skip(p as int)
    &&& r is Err ==> after == before.take(pos) + done + before.skip(pos + done.len())
}

/// Pieces written one after the other make one run of pieces.
proof fn lemma_wrote_then(
    b0: Seq<u8>,
    b1: Seq<u8>,
    b2: Seq<u8>,
    pos: int,
    p1: usize,
    r: Result<usize, BufferFull>,
    ps1: Seq<Seq<u8>>,
    ps2: Seq<Seq<u8>>,
)
    requires
        0 <= pos <= b0.len(),
        wrote(b0, b1, pos, Ok(p1), ps1),
        wrote(b1, b2, p1 as int, r, ps2),
    ensures
        wrote(b0, b2, pos, r, ps1 + ps2),
{
    reveal(wrote);
    let room0 = b0.len() - pos;
    let f1 = flatten(ps1);
    let room1 = b1.len() - p1;
    lemma_flatten_append(ps1, ps2);
    lemma_fitting_prefix_append(ps1, ps2, room0);
    lemma_fitting_prefix_bounds(ps2, room1);
    if let Ok(p) = r {
        assert(b2 =~= b0.take(pos) + flatten(ps1 + ps2) + b0.skip(p as int));
    } else {
        let d2 = fitting_prefix(ps2, room1);
        assert(fitting_prefix(ps1 + ps2, room0) == f1 + d2);
        assert(b2 =~= b0.take(pos) + (f1 + d2) + b0.skip(pos + (f1 + d2).len()));
    }
}

/// A run that stopped early leaves the same bytes whatever pieces were to
/// follow it.
proof fn lemma_wrote_stopped(
    b0: Seq<u8>,
    b1: Seq<u8>,
    pos: int,
    r: Result<usize, BufferFull>,
    ps1: Seq<Seq<u8>>,
    ps2: Seq<Seq<u8>>,
)
    requires
        r is Err,
        wrote(b0, b1, pos, r, ps1),
    ensures
        wrote(b0, b1, pos, r, ps1 + ps2),
{
    reveal(wrote);
    lemma_flatten_append(ps1, ps2);
    lemma_fitting_prefix_append(ps1, ps2, b0.len() - pos);
}

/// Nothing written is an empty run of pieces.
proof fn lemma_wrote_nothing(b0: Seq<u8>, pos: usize)
    requires
        pos <= b0.len(),
    ensures
        wrote(b0, b0, pos as int, Ok(pos), Seq::empty()),
{
    reveal(wrote);
    assert(flatten(Seq::<Seq<u8>>::empty()) =~= Seq::<u8>::empty());
    assert(b0 =~= b0.take(pos as int) + Seq::<u8>::empty() + b0.skip(pos as int));
}

/// What a finished run says about the position and the buffer length.
proof fn lemma_wrote_ok_bounds(b0: Seq<u8>, b1: Seq<u8>, pos: int, p: usize, ps: Seq<Seq<u8>>)
    requires
        0 <= pos <= b0.len(),
        wrote(b0, b1, pos, Ok(p), ps),
    ensures
        pos <= p <= b1.len(),
        b1.len() == b0.len(),
{
    reveal(wrote);
}

/// Writes `s` into `buf` at `pos` if it fits, and returns the position after
/// it; a piece that does not fit leaves the buffer as it was.
fn write_str(buf: &mut [u8], pos: usize, s: &[u8]) -> (r: Result<usize, BufferFull>)
    requires
        pos <= old(buf)@.len(),
    ensures
        (r is Ok <==> pos + s@.len() <= old(buf)@.len()),
        r matches Ok(q) ==> q == pos + s@.len() && final(buf)@ == old(buf)@.take(pos as int) + s@
            + old(buf)@.skip(q as int),
        r is Err ==> final(buf)@ == old(buf)@,
        wrote(old(buf)@, final(buf)@, pos as int, r, seq![s@]),
{
    proof {
        reveal(wrote);
        reveal_with_fuel(flatten, 2);
        reveal_with_fuel(fitting_prefix, 2);
        assert(flatten(seq![s@]) =~= s@);
    }
    let len = buf.len();
    if s.len() > len - pos {
        assert(fitting_prefix(seq![s@], len - pos) =~= Seq::<u8>::empty());
        assert(buf@ =~= old(buf)@.take(pos as int) + Seq::<u8>::empty() + old(buf)@.skip(pos + 0));
        return Err(BufferFull);
    }
    let n = s.len();
    let mut i: usize = 0;
    while i < n
        invariant
            n == s@.len(),
            i <= n,
            pos + n <= len,
            len == buf@.len(),
            buf@.len() == old(buf)@.len(),
            buf@ == old(buf)@.take(pos as int) + s@.take(i as int) + old(buf)@.skip(pos + i),
        decreases n - i,
    {
        buf[pos + i] = s[i];
        i = i + 1;
        assert(buf@ =~= old(buf)@.take(pos as int) + s@.take(i as int) + old(buf)@.skip(pos + i));
    }
    assert(s@.take(n as int) =~= s@);
    Ok(pos + n)
}

/// Writes the piece `s` after the run `done`, which began at `start` in the
/// buffer `b0` and ended at `p`.
fn append_piece(
    buf: &mut [u8],
    start: usize,
    p: usize,
    s: &[u8],
    Ghost(b0): Ghost<Seq<u8>>,
    Ghost(done): Ghost<Seq<Seq<u8>>>,
) -> (r: Result<usize, BufferFull>)
    requires
        start <= b0.len(),
        wrote(b0, old(buf)@, start as int, Ok(p), done),
    ensures
        wrote(b0, final(buf)@, start as int, r, done + seq![s@]),
        final(buf)@.len() == b0.len(),
        r matches Ok(q) ==> q <= final(buf)@.len(),
{
    proof {
        lemma_wrote_ok_bounds(b0, old(buf)@, start as int, p, done);
    }
    let ghost b1 = buf@;
    let r = write_str(buf, p, s);
    proof {
        lemma_wrote_then(b0, b1, buf@, start as int, p, r, done, seq![s@]);
        if let Ok(q) = r {
            lemma_wrote_ok_bounds(b0, buf@, start as int, q, done + seq![s@]);
        } else {
            reveal(wrote);
        }
    }
    r
}

/// Writes the decimal digits of `n` as one piece after the run `done`.
fn write_decimal(
    buf: &mut [u8],
    start: usize,
    p: usize,
    n: u64,
    Ghost(b0): Ghost<Seq<u8>>,
    Ghost(done): Ghost<Seq<Seq<u8>>>,
) -> (r: Result<usize, BufferFull>)
    requires
        start <= b0.len(),
        wrote(b0, old(buf)@, start as int, Ok(p), done),
    ensures
        wrote(b0, final(buf)@, start as int, r, done + seq![decimal(n as nat)]),
        final(buf)@.len() == b0.len(),
        r matches Ok(q) ==> q <= final(buf)@.len(),
{
    let mut digits: Vec<u8> = Vec::new();
    let mut m = n;
    loop
        invariant_except_break
            decimal(n as nat) == decimal(m as nat) + digits@,
        ensures
            decimal(n as nat) == digits@,
        decreases m,
    {
        let d = (m % 10) as u8;
        digits.insert(0, 48 + d);
        if m < 10 {
            assert(decimal(m as nat) == seq![(48 + m) as u8]);
            assert(decimal(n as nat) =~= digits@);
            break;
        }
        assert(decimal(m as nat) == decimal((m / 10) as nat) + seq![(48 + m % 10) as u8]);
        m = m / 10;
        assert(decimal(n as nat) =~= decimal(m as nat) + digits@);
    }
    append_piece(buf, start, p, digits.as_slice(), Ghost(b0), Ghost(done))
}

/// Escaping works byte by byte, so it distributes over concatenation.
proof fn lemma_json_escape_append(a: Seq<u8>, b: Seq<u8>)
    ensures
        json_escape(a + b) == json_escape(a) + json_escape(b),
    decreases b.len(),
{
    if b.len() == 0 {
        assert(a + b =~= a);
        assert(json_escape(a) + json_escape(b) =~= json_escape(a));
    } else {
        lemma_json_escape_append(a, b.drop_last());
        assert((a + b).drop_last() =~= a + b.drop_last());
        assert(json_escape(a) + json_escape(b) =~= json_escape(a) + json_escape(b.drop_last())
            + escape_byte(b.last()));
    }
}

/// Lower-case hexadecimal digit of a value below 16.
fn hex_digit_of(v: u8) -> (d: u8)
    requires
        v < 16,
    ensures
        d == hex_digit(v as nat),
{
    if v < 10 {
        48 + v
    } else {
        87 + v
    }
}

/// Writes the `\u` escape of the control character `v` after the run `done`,
/// in its pieces: `\u`, the padding zeros one by one, then the hex digits.
fn write_control_escape(
    buf: &mut [u8],
    start: usize,
    p: usize,
    v: u8,
    Ghost(b0): Ghost<Seq<u8>>,
    Ghost(done): Ghost<Seq<Seq<u8>>>,
) -> (r: Result<usize, BufferFull>)
    requires
        v < 0x20,
        start <= b0.len(),
        wrote(b0, old(buf)@, start as int, Ok(p), done),
    ensures
        wrote(b0, final(buf)@, start as int, r, done + control_escape_pieces(v as nat)),
        final(buf)@.len() == b0.len(),
        r matches Ok(q) ==> q <= final(buf)@.len(),
{
    let ghost all = control_escape_pieces(v as nat);
    let ghost d0 = done;
    let ghost zeros_spec: int = if v < 16 { 3 } else { 2 };
    proof {
        assert(all.len() == zeros_spec + 2);
        assert(forall|x: int| 1 <= x <= zeros_spec ==> #[trigger] all[x] == seq![0x30u8]);
    }
    let lead = [0x5Cu8, 0x75u8];
    assert(lead@ =~= all[0]);
    assert(d0 + seq![lead@] =~= d0 + all.take(1));
    let r = append_piece(buf, start, p, &lead, Ghost(b0), Ghost(d0));
    let p1 = match r {
        Ok(q) => q,
        Err(e) => {
            proof {
                lemma_wrote_stopped(b0, buf@, start as int, r, d0 + all.take(1), all.skip(1));
                assert(d0 + all.take(1) + all.skip(1) =~= d0 + all);
            }
            return Err(e);
        },
    };
    let zeros: usize = if v < 16 { 3 } else { 2 };
    let mut q = p1;
    let mut z: usize = 0;
    while z < zeros
        invariant
            zeros == zeros_spec,
            d0 == done,
            all == control_escape_pieces(v as nat),
            all.len() == zeros_spec + 2,
            forall|x: int| 1 <= x <= zeros_spec ==> #[trigger] all[x] == seq![0x30u8],
            z <= zeros,
            start <= b0.len(),
            wrote(b0, buf@, start as int, Ok(q), d0 + all.take(1 + z)),
            buf@.len() == b0.len(),
            q <= buf@.len(),
        decreases zeros - z,
    {
        let ghost dz = d0 + all.take(1 + z);
        let zero = [0x30u8];
        assert(zero@ =~= all[1 + z]);
        assert(dz + seq![zero@] =~= d0 + all.take(2 + z));
        let r = append_piece(buf, start, q, &zero, Ghost(b0), Ghost(dz));
        match r {
            Ok(q2) => {
                q = q2;
            },
            Err(e) => {
                proof {
                    lemma_wrote_stopped(
                        b0,
                        buf@,
                        start as int,
                        r,
                        d0 + all.take(2 + z),
                        all.skip(2 + z),
                    );
                    assert(d0 + all.take(2 + z) + all.skip(2 + z) =~= d0 + all);
                }
                return Err(e);
            },
        }
        z = z + 1;
    }
    let ghost dz = d0 + all.take(1 + zeros);
    if v < 16 {
        let digits = [hex_digit_of(v)];
        assert(digits@ =~= all[1 + zeros]);
        assert(dz + seq![digits@] =~= d0 + all);
        append_piece(buf, start, q, &digits, Ghost(b0), Ghost(dz))
    } else {
        let digits = [hex_digit_of(v / 16), hex_digit_of(v % 16)];
        assert(digits@ =~= all[1 + zeros]);
        assert(dz + seq![digits@] =~= d0 + all);
        append_piece(buf, start, q, &digits, Ghost(b0), Ghost(dz))
    }
}

/// The next character of a valid UTF-8 text: its encoding, whose length the
/// leading byte tells, and the rest of the text after it.
proof fn lemma_next_char(bytes: Seq<u8>, chars: Seq<char>, i: int, j: int)
    requires
        0 <= i < bytes.len(),
        0 <= j <= chars.len(),
        bytes.skip(i) == encode_utf8(chars.skip(j)),
    ensures
        j < chars.len(),
        ({
            let c = chars[j];
            let k = encode_scalar(c as u32).len() as int;
            &&& i + k <= bytes.len()
            &&& k == (if bytes[i] < 0x80 {
                1int
            } else if bytes[i] < 0xE0 {
                2int
            } else if bytes[i] < 0xF0 {
                3int
            } else {
                4int
            })
            &&& bytes.subrange(i, i + k) == encode_scalar(c as u32)
            &&& bytes.skip(i + k) == encode_utf8(chars.skip(j + 1))
            &&& bytes[i] < 0x80 ==> c as u32 == bytes[i] as u32
        }),
{
    let rest = chars.skip(j);
    if rest.len() == 0 {
        assert(encode_utf8(rest) =~= Seq::<u8>::empty());
        assert(bytes.skip(i).len() > 0);
    }
    let enc = encode_utf8(rest);
    vstd::utf8::encode_utf8_first_scalar(rest);
    let c = chars[j];
    assert(rest[0] == c);
    assert(rest.drop_first() =~= chars.skip(j + 1));
    let e = encode_scalar(c as u32);
    assert(enc == e + encode_utf8(rest.drop_first()));
    let b = bytes[i];
    assert(enc[0] == b);
    let k = e.len() as int;
    assert(bytes.subrange(i, i + k) =~= e);
    assert(enc.skip(k) =~= encode_utf8(rest.drop_first()));
    assert(bytes.skip(i + k) =~= bytes.skip(i).skip(k));
    assert(bytes.skip(i + k) =~= encode_utf8(chars.skip(j + 1)));
    assert(b <= 0x7f ==> (b & 0x7F) as u32 == b as u32) by (bit_vector);
}

/// A text with no bytes left has no characters left.
proof fn lemma_no_chars_left(chars: Seq<char>)
    requires
        encode_utf8(chars).len() == 0,
    ensures
        chars.len() == 0,
{
    if chars.len() > 0 {
        vstd::utf8::encode_utf8_first_scalar(chars);
    }
}

/// Writes `s` after the run `done`, escaping the characters that would
/// otherwise break JSON string syntax: quotes, backslashes, and ASCII
/// control characters. Every other character is written whole.
fn write_json_escaped(
    buf: &mut [u8],
    start: usize,
    p0: usize,
    s: &str,
    Ghost(b0): Ghost<Seq<u8>>,
    Ghost(done): Ghost<Seq<Seq<u8>>>,
) -> (r: Result<usize, BufferFull>)
    requires
        start <= b0.len(),
        wrote(b0, old(buf)@, start as int, Ok(p0), done),
    ensures
        wrote(b0, final(buf)@, start as int, r, done + escape_pieces(s@)),
        final(buf)@.len() == b0.len(),
        r matches Ok(q) ==> q <= final(buf)@.len(),
{
    let ghost chars = s@;
    let bytes = s.as_bytes();
    let n = bytes.len();
    let mut p = p0;
    let mut i: usize = 0;
    let ghost mut j: int = 0;
    proof {
        lemma_wrote_ok_bounds(b0, buf@, start as int, p0, done);
        assert(bytes@.skip(0) =~= bytes@);
        assert(chars.skip(0) =~= chars);
        assert(chars.take(0) =~= Seq::<char>::empty());
        assert(escape_pieces(Seq::<char>::empty()) =~= Seq::<Seq<u8>>::empty());
        assert(done + escape_pieces(chars.take(0)) =~= done);
    }
    while i < n
        invariant
            n == bytes@.len(),
            bytes@ == encode_utf8(chars),
            chars == s@,
            start <= b0.len(),
            i <= n,
            0 <= j <= chars.len(),
            bytes@.skip(i as int) == encode_utf8(chars.skip(j)),
            wrote(b0, buf@, start as int, Ok(p), done + escape_pieces(chars.take(j))),
            buf@.len() == b0.len(),
            p <= buf@.len(),
        decreases n - i,
    {
        proof {
            lemma_next_char(bytes@, chars, i as int, j);
        }
        let ghost c = chars[j];
        let ghost dj = done + escape_pieces(chars.take(j));
        let b = bytes[i];
        let k: usize = if b < 0x80 {
            1
        } else if b < 0xE0 {
            2
        } else if b < 0xF0 {
            3
        } else {
            4
        };
        let r = if b == 0x22 {
            append_piece(buf, start, p, &[0x5Cu8, 0x22u8], Ghost(b0), Ghost(dj))
        } else if b == 0x5C {
            append_piece(buf, start, p, &[0x5Cu8, 0x5Cu8], Ghost(b0), Ghost(dj))
        } else if b < 0x20 {
            write_control_escape(buf, start, p, b, Ghost(b0), Ghost(dj))
        } else {
            let piece = vstd::slice::slice_subrange(bytes, i, i + k);
            append_piece(buf, start, p, piece, Ghost(b0), Ghost(dj))
        };
        proof {
            assert(char_pieces(c) == if b == 0x22 {
                seq![seq![0x5Cu8, 0x22u8]]
            } else if b == 0x5C {
                seq![seq![0x5Cu8, 0x5Cu8]]
            } else if b < 0x20 {
                control_escape_pieces(b as nat)
            } else {
                seq![bytes@.subrange(i as int, i + k)]
            });
            assert(chars.take(j + 1) =~= chars.take(j) + seq![c]);
            lemma_escape_pieces_append(chars.take(j), seq![c]);
            assert(seq![c].drop_first() =~= Seq::<char>::empty());
            assert(escape_pieces(Seq::<char>::empty()) =~= Seq::<Seq<u8>>::empty());
            assert(seq![c][0] == c);
            assert(escape_pieces(seq![c]) =~= char_pieces(c));
            assert(dj + char_pieces(c) =~= done + escape_pieces(chars.take(j + 1)));
        }
        match r {
            Ok(q) => {
                p = q;
            },
            Err(e) => {
                proof {
                    lemma_wrote_stopped(
                        b0,
                        buf@,
                        start as int,
                        r,
                        done + escape_pieces(chars.take(j + 1)),
                        escape_pieces(chars.skip(j + 1)),
                    );
                    assert(chars =~= chars.take(j + 1) + chars.skip(j + 1));
                    lemma_escape_pieces_append(chars.take(j + 1), chars.skip(j + 1));
                    assert(done + escape_pieces(chars.take(j + 1)) + escape_pieces(chars.skip(j + 1))
                        =~= done + escape_pieces(chars));
                    reveal(wrote);
                }
                return Err(e);
            },
        }
        i = i + k;
        proof {
            j = j + 1;
        }
    }
    proof {
        assert(bytes@.skip(n as int) =~= Seq::<u8>::empty());
        lemma_no_chars_left(chars.skip(j));
        assert(chars.take(j) =~= chars);
    }
    Ok(p)
}

/// Writes the status JSON into `buf` from position 0, one piece after
/// another, stopping at the first piece that does not fit.
#[verifier::rlimit(40)]
fn write_status(
    buf: &mut [u8],
    blink_ms: u32,
    uptime_secs: u64,
    friendly_name: &str,
    unique_name: &str,
) -> (r: Result<usize, BufferFull>)
    ensures
        wrote(
            old(buf)@,
            final(buf)@,
            0,
            r,
            status_pieces(blink_ms, uptime_secs, friendly_name@, unique_name@),
        ),
{
    let ghost b0 = buf@;
    let ghost all = status_pieces(blink_ms, uptime_secs, friendly_name@, unique_name@);
    let ghost ef = escape_pieces(friendly_name@);
    let ghost eu = escape_pieces(unique_name@);
    let ghost l1 = "{\"blink_ms\":".spec_bytes();
    let ghost l2 = ",\"uptime_secs\":".spec_bytes();
    let ghost l3 = ",\"friendly_name\":\"".spec_bytes();
    let ghost l4 = "\",\"unique_name\":\"".spec_bytes();
    let ghost l5 = "\"}".spec_bytes();
    let ghost n1 = decimal(blink_ms as nat);
    let ghost n2 = decimal(uptime_secs as nat);
    // The runs written after each step, and what remains after them.
    let ghost d1 = seq![l1];
    let ghost d2 = d1 + seq![n1];
    let ghost d3 = d2 + seq![l2];
    let ghost d4 = d3 + seq![n2];
    let ghost d5 = d4 + seq![l3];
    let ghost d6 = d5 + ef;
    let ghost d7 = d6 + seq![l4];
    let ghost d8 = d7 + eu;
    proof {
        assert(all =~= d8 + seq![l5]);
        lemma_wrote_nothing(b0, 0);
        assert(Seq::<Seq<u8>>::empty() + seq![l1] =~= d1);
    }
    let r = append_piece(buf, 0, 0, "{\"blink_ms\":".as_bytes(), Ghost(b0), Ghost(Seq::empty()));
    let p = match r {
        Ok(q) => q,
        Err(e) => {
            proof {
                lemma_wrote_stopped(b0, buf@, 0, r, d1, all.skip(1));
                assert(d1 + all.skip(1) =~= all);
            }
            return Err(e);
        },
    };
    let r = write_decimal(buf, 0, p, blink_ms as u64, Ghost(b0), Ghost(d1));
    let p = match r {
        Ok(q) => q,
        Err(e) => {
            proof {
                lemma_wrote_stopped(b0, buf@, 0, r, d2, all.skip(2));
                assert(d2 + all.skip(2) =~= all);
            }
            return Err(e);
        },
    };
    let r = append_piece(buf, 0, p, ",\"uptime_secs\":".as_bytes(), Ghost(b0), Ghost(d2));
    let p = match r {
        Ok(q) => q,
        Err(e) => {
            proof {
                lemma_wrote_stopped(b0, buf@, 0, r, d3, all.skip(3));
                assert(d3 + all.skip(3) =~= all);
            }
            return Err(e);
        },
    };
    let r = write_decimal(buf, 0, p, uptime_secs, Ghost(b0), Ghost(d3));
    let p = match r {
        Ok(q) => q,
        Err(e) => {
            proof {
                lemma_wrote_stopped(b0, buf@, 0, r, d4, all.skip(4));
                assert(d4 + all.skip(4) =~= all);
            }
            return Err(e);
        },
    };
    let r = append_piece(buf, 0, p, ",\"friendly_name\":\"".as_bytes(), Ghost(b0), Ghost(d4));
    let p = match r {
        Ok(q) => q,
        Err(e) => {
            proof {
                lemma_wrote_stopped(b0, buf@, 0, r, d5, all.skip(5));
                assert(d5 + all.skip(5) =~= all);
            }
            return Err(e);
        },
    };
    let r = write_json_escaped(buf, 0, p, friendly_name, Ghost(b0), Ghost(d5));
    let p = match r {
        Ok(q) => q,
        Err(e) => {
            proof {
                let rest = seq![l4] + eu + seq![l5];
                lemma_wrote_stopped(b0, buf@, 0, r, d6, rest);
                assert(d6 + rest =~= all);
            }
            return Err(e);
        },
    };
    let r = append_piece(buf, 0, p, "\",\"unique_name\":\"".as_bytes(), Ghost(b0), Ghost(d6));
    let p = match r {
        Ok(q) => q,
        Err(e) => {
            proof {
                let rest = eu + seq![l5];
                lemma_wrote_stopped(b0, buf@, 0, r, d7, rest);
                assert(d7 + rest =~= all);
            }
            return Err(e);
        },
    };
    let r = write_json_escaped(buf, 0, p, unique_name, Ghost(b0), Ghost(d7));
    let p = match r {
        Ok(q) => q,
        Err(e) => {
            proof {
                lemma_wrote_stopped(b0, buf@, 0, r, d8, seq![l5]);
            }
            return Err(e);
        },
    };
    append_piece(buf, 0, p, "\"}".as_bytes(), Ghost(b0), Ghost(d8))
}

/// Formats the `/api/status` JSON body into `buf`, escaping `friendly_name`
/// and `unique_name` so the result is always well-formed JSON regardless of
/// their contents.
///
/// Returns the number of bytes written, or `None` if `buf` is too small;
/// then `buf` holds the pieces of the body that fitted before the first one
/// that did not, and nothing else is changed.
pub fn format_status_json(
    buf: &mut [u8],
    blink_ms: u32,
    uptime_secs: u64,
    friendly_name: &str,
    unique_name: &str,
) -> (r: Option<usize>)
    ensures
        ({
            let json = status_json(
                blink_ms,
                uptime_secs,
                friendly_name.spec_bytes(),
                unique_name.spec_bytes(),
            );
            let partial = fitting_prefix(
                status_pieces(blink_ms, uptime_secs, friendly_name@, unique_name@),
                old(buf)@.len() as int,
            );
            &&& (r is Some <==> json.len() <= old(buf)@.len())
            &&& r matches Some(n) ==> n == json.len() && final(buf)@ == json + old(buf)@.skip(
                n as int,
            )
            &&& r is None ==> final(buf)@ == partial + old(buf)@.skip(partial.len() as int)
                && partial.len() < json.len() && partial == json.take(partial.len() as int)
        }),
{
    let res = write_status(buf, blink_ms, uptime_secs, friendly_name, unique_name);
    proof {
        reveal(wrote);
        let ps = status_pieces(blink_ms, uptime_secs, friendly_name@, unique_name@);
        lemma_status_pieces_flatten(blink_ms, uptime_secs, friendly_name@, unique_name@);
        lemma_fitting_prefix_bounds(ps, old(buf)@.len() as int);
        assert(old(buf)@.take(0) =~= Seq::<u8>::empty());
        let partial = fitting_prefix(ps, old(buf)@.len() as int);
        if res is Err {
            assert(buf@ =~= partial + old(buf)@.skip(partial.len() as int));
        } else {
            assert(buf@ =~= flatten(ps) + old(buf)@.skip(flatten(ps).len() as int));
        }
    }
    match res {
        Ok(n) => Some(n),
        Err(_) => None,
    }
}

// ── Laws ─────────────────────────────────────────────────────────────────────

/// A hexadecimal digit, either case.
pub open spec fn is_hex_digit(b: u8) -> bool {
    (48 <= b <= 57) || (65 <= b <= 70) || (97 <= b <= 102)
}

/// The value of a hexadecimal digit, either case.
pub open spec fn hex_value(b: u8) -> int {
    if 48 <= b <= 57 {
        b - 48
    } else if 97 <= b <= 102 {
        b - 87
    } else if 65 <= b <= 70 {
        b - 55
    } else {
        0
    }
}

/// The text between the quotes of a JSON string (RFC 8259 §7): no raw
/// quote, backslash or control byte; every backslash starts one of the
/// escapes `\" \\ \/ \b \f \n \r \t` or `\uXXXX`.
pub open spec fn json_string_body(t: Seq<u8>) -> bool
    decreases t.len(),
{
    if t.len() == 0 {
        true
    } else if t[0] == 0x5C {
        if t.len() >= 2 && (t[1] == 0x22 || t[1] == 0x5C || t[1] == 0x2F || t[1] == 0x62 || t[1]
            == 0x66 || t[1] == 0x6E || t[1] == 0x72 || t[1] == 0x74) {
            json_string_body(t.skip(2))
        } else if t.len() >= 6 && t[1] == 0x75 && is_hex_digit(t[2]) && is_hex_digit(t[3])
            && is_hex_digit(t[4]) && is_hex_digit(t[5]) {
            json_string_body(t.skip(6))
        } else {
            false
        }
    } else {
        t[0] != 0x22 && t[0] >= 0x20 && json_string_body(t.skip(1))
    }
}

/// The byte a two-character JSON escape `\c` stands for.
pub open spec fn short_escape_value(c: u8) -> u8 {
    if c == 0x62 {
        0x08u8
    } else if c == 0x66 {
        0x0Cu8
    } else if c == 0x6E {
        0x0Au8
    } else if c == 0x72 {
        0x0Du8
    } else if c == 0x74 {
        0x09u8
    } else {
        c
    }
}

/// Decoding of a JSON string body into bytes, for a body whose `\u`
/// escapes stand for ASCII characters (`\u0000` to `\u007f`).
pub open spec fn json_unescape(t: Seq<u8>) -> Seq<u8>
    decreases t.len(),
{
    if t.len() == 0 {
        Seq::empty()
    } else if t[0] == 0x5C && t.len() >= 6 && t[1] == 0x75 && t[2] == 0x30 && t[3] == 0x30
        && hex_value(t[4]) < 8 {
        seq![(16 * hex_value(t[4]) + hex_value(t[5])) as u8] + json_unescape(t.skip(6))
    } else if t[0] == 0x5C && t.len() >= 2 {
        seq![short_escape_value(t[1])] + json_unescape(t.skip(2))
    } else {
        seq![t[0]] + json_unescape(t.skip(1))
    }
}

/// Escaping one byte and then the rest is escaping the whole.
proof fn lemma_json_escape_front(s: Seq<u8>)
    requires
        s.len() > 0,
    ensures
        json_escape(s) == escape_byte(s[0]) + json_escape(s.skip(1)),
{
    assert(s =~= seq![s[0]] + s.skip(1));
    lemma_json_escape_append(seq![s[0]], s.skip(1));
    assert(seq![s[0]].drop_last() =~= Seq::<u8>::empty());
    assert(json_escape(Seq::<u8>::empty()) =~= Seq::<u8>::empty());
    assert(json_escape(seq![s[0]]) =~= json_escape(Seq::<u8>::empty()) + escape_byte(s[0]));
}

/// Two valid string bodies in a row make a valid string body.
proof fn lemma_json_string_body_append(a: Seq<u8>, b: Seq<u8>)
    requires
        json_string_body(a),
        json_string_body(b),
    ensures
        json_string_body(a + b),
    decreases a.len(),
{
    if a.len() == 0 {
        assert(a + b =~= b);
    } else if a[0] == 0x5C {
        if a.len() >= 2 && (a[1] == 0x22 || a[1] == 0x5C || a[1] == 0x2F || a[1] == 0x62 || a[1]
            == 0x66 || a[1] == 0x6E || a[1] == 0x72 || a[1] == 0x74) {
            lemma_json_string_body_append(a.skip(2), b);
            assert((a + b).skip(2) =~= a.skip(2) + b);
        } else {
            lemma_json_string_body_append(a.skip(6), b);
            assert((a + b).skip(6) =~= a.skip(6) + b);
        }
    } else {
        lemma_json_string_body_append(a.skip(1), b);
        assert((a + b).skip(1) =~= a.skip(1) + b);
    }
}

/// The escaped form of any byte string is a valid JSON string body, so the
/// status body is well-formed JSON whatever the names hold.
pub proof fn lemma_json_escape_is_string_body(s: Seq<u8>)
    ensures
        json_string_body(json_escape(s)),
    decreases s.len(),
{
    if s.len() > 0 {
        lemma_json_escape_is_string_body(s.drop_last());
        let b = s.last();
        let e = escape_byte(b);
        assert(json_string_body(Seq::<u8>::empty()));
        if b == 0x22 || b == 0x5C {
            assert(e.skip(2) =~= Seq::<u8>::empty());
        } else if b < 0x20 {
            assert(e.skip(6) =~= Seq::<u8>::empty());
            assert(is_hex_digit(e[4]) && is_hex_digit(e[5]));
        } else {
            assert(e.skip(1) =~= Seq::<u8>::empty());
        }
        assert(json_string_body(e));
        lemma_json_string_body_append(json_escape(s.drop_last()), e);
    }
}

/// Decoding the escaped form of a name gives the name back: escaping loses
/// nothing.
pub proof fn lemma_json_escape_roundtrip(s: Seq<u8>)
    ensures
        json_unescape(json_escape(s)) == s,
    decreases s.len(),
{
    if s.len() == 0 {
        assert(json_escape(s) =~= Seq::<u8>::empty());
    } else {
        lemma_json_escape_front(s);
        lemma_json_escape_roundtrip(s.skip(1));
        let b = s[0];
        let e = escape_byte(b);
        let t = e + json_escape(s.skip(1));
        if b == 0x22 || b == 0x5C {
            assert(t.skip(2) =~= json_escape(s.skip(1)));
        } else if b < 0x20 {
            assert(t.skip(6) =~= json_escape(s.skip(1)));
            assert(hex_value(hex_digit(b as nat / 16)) == b as nat / 16);
            assert(hex_value(hex_digit(b as nat % 16)) == b as nat % 16);
        } else {
            assert(t.skip(1) =~= json_escape(s.skip(1)));
        }
        assert(s =~= seq![b] + s.skip(1));
    }
}

/// The number a string of ASCII decimal digits denotes.
pub open spec fn digits_value(s: Seq<u8>) -> int
    decreases s.len(),
{
    if s.len() == 0 {
        0
    } else {
        digits_value(s.drop_last()) * 10 + (s.last() - 48)
    }
}

/// The numbers in the status body are the plain decimal form of the values:
/// ASCII digits only, no leading zero, denoting exactly the value.
pub proof fn lemma_decimal_is_plain_decimal(n: nat)
    ensures
        digits_value(decimal(n)) == n,
        decimal(n).len() > 0,
        forall|i: int| 0 <= i < decimal(n).len() ==> 48 <= #[trigger] decimal(n)[i] <= 57,
        n > 0 ==> decimal(n)[0] != 48,
    decreases n,
{
    if n < 10 {
        assert(decimal(n).drop_last() =~= Seq::<u8>::empty());
        assert(digits_value(Seq::<u8>::empty()) == 0);
    } else {
        lemma_decimal_is_plain_decimal(n / 10);
        let d = decimal(n);
        assert(d.drop_last() =~= decimal(n / 10));
        assert(d[0] == decimal(n / 10)[0]);
        assert(d.last() == (48 + n % 10) as u8);
        assert(digits_value(d) == digits_value(decimal(n / 10)) * 10 + (d.last() - 48));
        assert((n / 10) * 10 + n % 10 == n);
        assert forall|i: int| 0 <= i < d.len() implies 48 <= #[trigger] d[i] <= 57 by {
            if i < d.len() - 1 {
                assert(d[i] == decimal(n / 10)[i]);
            }
        }
    }
}

// ── The body as JSON ─────────────────────────────────────────────────────────

/// `t` with the literal `lit` taken off its front, if it starts with it.
pub open spec fn json_expect(t: Seq<u8>, lit: Seq<u8>) -> Option<Seq<u8>> {
    if t.len() >= lit.len() && t.take(lit.len() as int) == lit {
        Some(t.skip(lit.len() as int))
    } else {
        None
    }
}

/// Length of the run of ASCII digits at the start of `t`.
pub open spec fn digit_run(t: Seq<u8>) -> nat
    decreases t.len(),
{
    if t.len() > 0 && 48 <= t[0] <= 57 {
        1 + digit_run(t.drop_first())
    } else {
        0
    }
}

/// A JSON number made of digits only, at the start of `t`: its value and
/// the text after it.
pub open spec fn json_number(t: Seq<u8>) -> Option<(int, Seq<u8>)> {
    let d = digit_run(t);
    if d == 0 || (d > 1 && t[0] == 48) {
        None
    } else {
        Some((digits_value(t.take(d as int)), t.skip(d as int)))
    }
}

/// Length of the JSON string body at the start of `t`, up to the quote that
/// closes it; `None` when `t` holds no complete, valid body.
pub open spec fn string_body_len(t: Seq<u8>) -> Option<nat>
    decreases t.len(),
{
    if t.len() == 0 {
        None
    } else if t[0] == 0x22 {
        Some(0)
    } else if t[0] == 0x5C {
        if t.len() >= 2 && (t[1] == 0x22 || t[1] == 0x5C || t[1] == 0x2F || t[1] == 0x62 || t[1]
            == 0x66 || t[1] == 0x6E || t[1] == 0x72 || t[1] == 0x74) {
            match string_body_len(t.skip(2)) {
                Some(n) => Some(n + 2),
                None => None,
            }
        } else if t.len() >= 6 && t[1] == 0x75 && is_hex_digit(t[2]) && is_hex_digit(t[3])
            && is_hex_digit(t[4]) && is_hex_digit(t[5]) {
            match string_body_len(t.skip(6)) {
                Some(n) => Some(n + 6),
                None => None,
            }
        } else {
            None
        }
    } else if t[0] < 0x20 {
        None
    } else {
        match string_body_len(t.skip(1)) {
            Some(n) => Some(n + 1),
            None => None,
        }
    }
}

/// A JSON string body at the start of `t`, decoded, and the text from its
/// closing quote on.
pub open spec fn json_string(t: Seq<u8>) -> Option<(Seq<u8>, Seq<u8>)> {
    match string_body_len(t) {
        Some(n) => Some((json_unescape(t.take(n as int)), t.skip(n as int))),
        None => None,
    }
}

/// Parses the status body: the object
/// `{"blink_ms":B,"uptime_secs":U,"friendly_name":"F","unique_name":"N"}`
/// with nothing after it, giving its four member values in order.
pub open spec fn parse_status(t: Seq<u8>) -> Option<(int, int, Seq<u8>, Seq<u8>)> {
    match json_expect(t, "{\"blink_ms\":".spec_bytes()) {
        None => None,
        Some(r1) => match json_number(r1) {
            None => None,
            Some((blink, r2)) => match json_expect(r2, ",\"uptime_secs\":".spec_bytes()) {
                None => None,
                Some(r3) => match json_number(r3) {
                    None => None,
                    Some((uptime, r4)) => match json_expect(
                        r4,
                        ",\"friendly_name\":\"".spec_bytes(),
                    ) {
                        None => None,
                        Some(r5) => match json_string(r5) {
                            None => None,
                            Some((friendly, r6)) => match json_expect(
                                r6,
                                "\",\"unique_name\":\"".spec_bytes(),
                            ) {
                                None => None,
                                Some(r7) => match json_string(r7) {
                                    None => None,
                                    Some((unique, r8)) => if r8 == "\"}".spec_bytes() {
                                        Some((blink, uptime, friendly, unique))
                                    } else {
                                        None
                                    },
                                },
                            },
                        },
                    },
                },
            },
        },
    }
}

proof fn lemma_json_expect(lit: Seq<u8>, rest: Seq<u8>)
    ensures
        json_expect(lit + rest, lit) == Some(rest),
{
    assert((lit + rest).take(lit.len() as int) =~= lit);
    assert((lit + rest).skip(lit.len() as int) =~= rest);
}

proof fn lemma_digit_run(a: Seq<u8>, rest: Seq<u8>)
    requires
        forall|i: int| 0 <= i < a.len() ==> 48 <= #[trigger] a[i] <= 57,
        rest.len() == 0 || !(48 <= rest[0] <= 57),
    ensures
        digit_run(a + rest) == a.len(),
    decreases a.len(),
{
    if a.len() == 0 {
        assert(a + rest =~= rest);
    } else {
        assert((a + rest).drop_first() =~= a.drop_first() + rest);
        lemma_digit_run(a.drop_first(), rest);
    }
}

proof fn lemma_json_number(n: nat, rest: Seq<u8>)
    requires
        rest.len() > 0,
        !(48 <= rest[0] <= 57),
    ensures
        json_number(decimal(n) + rest) == Some((n as int, rest)),
{
    lemma_decimal_is_plain_decimal(n);
    let d = decimal(n);
    lemma_digit_run(d, rest);
    assert((d + rest).take(d.len() as int) =~= d);
    assert((d + rest).skip(d.len() as int) =~= rest);
    if d.len() > 1 {
        assert(n > 0) by {
            if n == 0 {
                assert(decimal(0) == seq![48u8]);
            }
        }
    }
}

proof fn lemma_string_body_len(s: Seq<u8>, rest: Seq<u8>)
    requires
        rest.len() > 0,
        rest[0] == 0x22,
    ensures
        string_body_len(json_escape(s) + rest) == Some(json_escape(s).len()),
    decreases s.len(),
{
    if s.len() == 0 {
        assert(json_escape(s) =~= Seq::<u8>::empty());
        assert(json_escape(s) + rest =~= rest);
    } else {
        lemma_json_escape_front(s);
        lemma_string_body_len(s.skip(1), rest);
        let e = escape_byte(s[0]);
        let t = json_escape(s) + rest;
        assert(t =~= e + (json_escape(s.skip(1)) + rest));
        if s[0] == 0x22 || s[0] == 0x5C {
            assert(t.skip(2) =~= json_escape(s.skip(1)) + rest);
        } else if s[0] < 0x20 {
            assert(t.skip(6) =~= json_escape(s.skip(1)) + rest);
        } else {
            assert(t.skip(1) =~= json_escape(s.skip(1)) + rest);
        }
    }
}

proof fn lemma_json_string(s: Seq<u8>, rest: Seq<u8>)
    requires
        rest.len() > 0,
        rest[0] == 0x22,
    ensures
        json_string(json_escape(s) + rest) == Some((s, rest)),
{
    lemma_string_body_len(s, rest);
    lemma_json_escape_roundtrip(s);
    let e = json_escape(s);
    assert((e + rest).take(e.len() as int) =~= e);
    assert((e + rest).skip(e.len() as int) =~= rest);
}

/// The status body parses back, as a JSON object with its four members in
/// order, to exactly the values it was made from, whatever the names hold.
pub proof fn lemma_status_json_parses_back(
    blink_ms: u32,
    uptime_secs: u64,
    friendly_name: Seq<u8>,
    unique_name: Seq<u8>,
)
    ensures
        parse_status(status_json(blink_ms, uptime_secs, friendly_name, unique_name)) == Some(
            (blink_ms as int, uptime_secs as int, friendly_name, unique_name),
        ),
{
    reveal_strlit("{\"blink_ms\":");
    reveal_strlit(",\"uptime_secs\":");
    reveal_strlit(",\"friendly_name\":\"");
    reveal_strlit("\",\"unique_name\":\"");
    reveal_strlit("\"}");
    vstd::string::is_ascii_spec_bytes(",\"uptime_secs\":");
    vstd::string::is_ascii_spec_bytes(",\"friendly_name\":\"");
    vstd::string::is_ascii_spec_bytes("\",\"unique_name\":\"");
    vstd::string::is_ascii_spec_bytes("\"}");
    let l1 = "{\"blink_ms\":".spec_bytes();
    let l2 = ",\"uptime_secs\":".spec_bytes();
    let l3 = ",\"friendly_name\":\"".spec_bytes();
    let l4 = "\",\"unique_name\":\"".spec_bytes();
    let l5 = "\"}".spec_bytes();
    assert(vstd::string::is_ascii(",\"uptime_secs\":"));
    assert(vstd::string::is_ascii(",\"friendly_name\":\""));
    assert(vstd::string::is_ascii("\",\"unique_name\":\""));
    assert(vstd::string::is_ascii("\"}"));
    assert(l2[0] == 0x2C && l3[0] == 0x2C && l4[0] == 0x22 && l5[0] == 0x22);
    let n1 = decimal(blink_ms as nat);
    let n2 = decimal(uptime_secs as nat);
    let e1 = json_escape(friendly_name);
    let e2 = json_escape(unique_name);
    let r8 = l5;
    let r7 = e2 + r8;
    let r6 = l4 + r7;
    let r5 = e1 + r6;
    let r4 = l3 + r5;
    let r3 = n2 + r4;
    let r2 = l2 + r3;
    let r1 = n1 + r2;
    let t = status_json(blink_ms, uptime_secs, friendly_name, unique_name);
    assert(t =~= l1 + r1);
    lemma_json_expect(l1, r1);
    lemma_json_number(blink_ms as nat, r2);
    lemma_json_expect(l2, r3);
    lemma_json_number(uptime_secs as nat, r4);
    lemma_json_expect(l3, r5);
    lemma_json_string(friendly_name, r6);
    lemma_json_expect(l4, r7);
    lemma_json_string(unique_name, r8);
}

/// Bytes below 0x80 are valid UTF-8.
proof fn lemma_ascii_valid_utf8(t: Seq<u8>)
    requires
        forall|i: int| 0 <= i < t.len() ==> #[trigger] t[i] < 0x80,
    ensures
        valid_utf8(t),
{
    assert(t.subrange(0, 0) =~= Seq::<u8>::empty());
    assert(valid_utf8(Seq::<u8>::empty()));
    vstd::utf8::partial_valid_utf8_extend_ascii_block(t, 0, t.len() as int);
    assert(t.subrange(0, t.len() as int) =~= t);
}

/// Pieces that are each valid UTF-8 make valid UTF-8.
proof fn lemma_flatten_valid_utf8(ps: Seq<Seq<u8>>)
    requires
        forall|i: int| 0 <= i < ps.len() ==> valid_utf8(#[trigger] ps[i]),
    ensures
        valid_utf8(flatten(ps)),
    decreases ps.len(),
{
    if ps.len() == 0 {
        assert(flatten(ps) =~= Seq::<u8>::empty());
    } else {
        assert forall|i: int| 0 <= i < ps.drop_first().len() implies valid_utf8(
            #[trigger] ps.drop_first()[i],
        ) by {
            assert(ps.drop_first()[i] == ps[i + 1]);
        }
        lemma_flatten_valid_utf8(ps.drop_first());
        vstd::utf8::valid_utf8_concat(ps[0], flatten(ps.drop_first()));
    }
}

/// Every piece of an escaped string is valid UTF-8.
proof fn lemma_escape_pieces_valid_utf8(chars: Seq<char>)
    ensures
        forall|i: int|
            0 <= i < escape_pieces(chars).len() ==> valid_utf8(#[trigger] escape_pieces(chars)[i]),
    decreases chars.len(),
{
    if chars.len() > 0 {
        lemma_escape_pieces_valid_utf8(chars.drop_first());
        let c = chars[0];
        let cp = char_pieces(c);
        let v = c as u32;
        assert forall|i: int| 0 <= i < cp.len() implies valid_utf8(#[trigger] cp[i]) by {
            if v == 0x22 || v == 0x5C || v < 0x20 {
                assert(forall|x: int| 0 <= x < cp[i].len() ==> #[trigger] cp[i][x] < 0x80);
                lemma_ascii_valid_utf8(cp[i]);
            } else {
                vstd::utf8::encode_utf8_valid_utf8(seq![c]);
                assert(seq![c].drop_first() =~= Seq::<char>::empty());
                assert(encode_utf8(Seq::<char>::empty()) =~= Seq::<u8>::empty());
                assert(encode_utf8(seq![c]) =~= encode_scalar(v));
            }
        }
        let rest = escape_pieces(chars.drop_first());
        assert forall|i: int| 0 <= i < escape_pieces(chars).len() implies valid_utf8(
            #[trigger] escape_pieces(chars)[i],
        ) by {
            if i < cp.len() {
                assert(escape_pieces(chars)[i] == cp[i]);
            } else {
                assert(escape_pieces(chars)[i] == rest[i - cp.len()]);
            }
        }
    }
}

/// The status body made from two strings is valid UTF-8.
pub proof fn lemma_status_json_valid_utf8(
    blink_ms: u32,
    uptime_secs: u64,
    friendly_name: Seq<char>,
    unique_name: Seq<char>,
)
    ensures
        valid_utf8(
            status_json(blink_ms, uptime_secs, encode_utf8(friendly_name), encode_utf8(unique_name)),
        ),
{
    let ps = status_pieces(blink_ms, uptime_secs, friendly_name, unique_name);
    lemma_status_pieces_flatten(blink_ms, uptime_secs, friendly_name, unique_name);
    lemma_escape_pieces_valid_utf8(friendly_name);
    lemma_escape_pieces_valid_utf8(unique_name);
    lemma_decimal_is_plain_decimal(blink_ms as nat);
    lemma_decimal_is_plain_decimal(uptime_secs as nat);
    lemma_ascii_valid_utf8(decimal(blink_ms as nat));
    lemma_ascii_valid_utf8(decimal(uptime_secs as nat));
    vstd::utf8::encode_utf8_valid_utf8("{\"blink_ms\":"@);
    vstd::utf8::encode_utf8_valid_utf8(",\"uptime_secs\":"@);
    vstd::utf8::encode_utf8_valid_utf8(",\"friendly_name\":\""@);
    vstd::utf8::encode_utf8_valid_utf8("\",\"unique_name\":\""@);
    vstd::utf8::encode_utf8_valid_utf8("\"}"@);
    let ef = escape_pieces(friendly_name);
    let eu = escape_pieces(unique_name);
    assert forall|i: int| 0 <= i < ps.len() implies valid_utf8(#[trigger] ps[i]) by {
        if 5 <= i < 5 + ef.len() {
            assert(ps[i] == ef[i - 5]);
        } else if 6 + ef.len() <= i < 6 + ef.len() + eu.len() {
            assert(ps[i] == eu[i - 6 - ef.len()]);
        }
    }
    lemma_flatten_valid_utf8(ps);
}

} // verus!
