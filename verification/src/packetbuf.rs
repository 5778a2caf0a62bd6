//! The byte cursor: a fixed-capacity packet buffer with a read position,
//! bounds-checked primitive reads, and the compressed domain-name decoder.

use vstd::prelude::*;

use crate::dnserror::DnsError;
use crate::dnserror::ErrorKind;

verus! {

/// Capacity of one datagram buffer: the historical non-extended DNS UDP limit.
pub const BUF_LEN: usize = 512;

/// How many compression-pointer jumps one name may take before the decoder
/// declares a loop. Generous: a real datagram cannot need more than one jump
/// per byte of the buffer.
pub const MAX_JUMPS: usize = 512;

/// Relies on `String::push`: appends the given character to the string.
#[verifier::external_body]
fn push_char(s: &mut String, c: char)
    ensures
        final(s)@ == old(s)@ + seq![c],
{
    s.push(c);
}

/// The big-endian 16-bit value stored at offset `i` of `b`.
pub open spec fn be16(b: Seq<u8>, i: int) -> int {
    b[i] * 256 + b[i + 1]
}

/// The big-endian 32-bit value stored at offset `i` of `b`.
pub open spec fn be32(b: Seq<u8>, i: int) -> int {
    b[i] * 0x1000000 + b[i + 1] * 0x10000 + b[i + 2] * 0x100 + b[i + 3]
}

/// True when a name's length byte announces a compression pointer: the top
/// two bits are set.
pub open spec fn is_pointer_byte(b: u8) -> bool {
    b & 0xC0 == 0xC0
}

/// The 14-bit offset a compression pointer points at: the length byte with
/// its top two bits masked off, followed by the next byte, big-endian.
pub open spec fn pointer_target(b: u8, b2: u8) -> int {
    (b & 0x3F) * 256 + b2
}

/// A label byte as it appears in the decoded name: ASCII upper-case letters
/// fold to lower case, every other byte is kept as it is.
pub open spec fn lower_byte(b: u8) -> u8 {
    if 65 <= b && b <= 90 {
        (b + 32) as u8
    } else {
        b
    }
}

/// The characters one raw label contributes to the decoded name.
pub open spec fn label_chars(l: Seq<u8>) -> Seq<char> {
    l.map_values(|b: u8| lower_byte(b) as char)
}

/// The decoded text of a label sequence: labels lower-cased and joined with
/// dots, with no leading or trailing dot.
pub open spec fn qname_text(labels: Seq<Seq<u8>>) -> Seq<char>
    decreases labels.len(),
{
    if labels.len() == 0 {
        Seq::empty()
    } else if labels.len() == 1 {
        label_chars(labels[0])
    } else {
        label_chars(labels[0]) + seq!['.'] + qname_text(labels.drop_first())
    }
}

/// The label sequence a compressed-name walk yields from offset `pos` of a
/// full buffer, having already performed `jumps` pointer jumps, together
/// with the error that ends the walk, if one does. Mirrors the decoder: the
/// jump budget is checked first, then the bounds of the length byte, then
/// pointer, terminator and label cases in that order.
pub open spec fn qname_walk(buf: Seq<u8>, pos: int, jumps: int) -> (Seq<Seq<u8>>, Option<
    ErrorKind,
>)
    decreases 513 - jumps, 16448 - pos,
        when 0 <= jumps <= 513 && 0 <= pos <= 16447 && buf.len() == 512
        via qname_walk_decreases
{
    if jumps > MAX_JUMPS {
        (Seq::empty(), Some(ErrorKind::CompressionLoop))
    } else if pos >= BUF_LEN {
        (Seq::empty(), Some(ErrorKind::BufferExhausted))
    } else if is_pointer_byte(buf[pos]) {
        if pos + 1 >= BUF_LEN {
            (Seq::empty(), Some(ErrorKind::BufferExhausted))
        } else {
            qname_walk(buf, pointer_target(buf[pos], buf[pos + 1]), jumps + 1)
        }
    } else if buf[pos] == 0 {
        (Seq::empty(), None)
    } else if pos + 1 + buf[pos] > BUF_LEN {
        (Seq::empty(), Some(ErrorKind::BufferExhausted))
    } else {
        let rest = qname_walk(buf, pos + 1 + buf[pos], jumps);
        (seq![buf.subrange(pos + 1, pos + 1 + buf[pos])] + rest.0, rest.1)
    }
}

#[via_fn]
proof fn qname_walk_decreases(buf: Seq<u8>, pos: int, jumps: int) {
    if 0 <= pos < BUF_LEN && is_pointer_byte(buf[pos]) {
        let b = buf[pos];
        assert(b & 0x3F < 64) by (bit_vector);
    }
}

/// Where the shared read position lands after a name is read from `pos`:
/// one past the terminator when the walk meets it before any pointer, or
/// one past the first complete two-byte pointer. `None` when the walk fails
/// before either, in which case the position is left where it was.
pub open spec fn qname_consumed(buf: Seq<u8>, pos: int) -> Option<int>
    decreases 512 - pos,
        when 0 <= pos <= 512 && buf.len() == 512
{
    if pos >= BUF_LEN {
        None
    } else if is_pointer_byte(buf[pos]) {
        if pos + 1 >= BUF_LEN {
            None
        } else {
            Some(pos + 2)
        }
    } else if buf[pos] == 0 {
        Some(pos + 1)
    } else if pos + 1 + buf[pos] > BUF_LEN {
        None
    } else {
        qname_consumed(buf, pos + 1 + buf[pos])
    }
}

/// Joining one more label onto a name appends a dot (unless the name was
/// empty so far) and the label's lower-cased characters.
pub proof fn lemma_qname_text_push(labels: Seq<Seq<u8>>, l: Seq<u8>)
    ensures
        qname_text(labels.push(l)) == if labels.len() == 0 {
            label_chars(l)
        } else {
            qname_text(labels) + seq!['.'] + label_chars(l)
        },
    decreases labels.len(),
{
    if labels.len() == 0 {
        assert(labels.push(l) =~= seq![l]);
        assert(qname_text(labels.push(l)) =~= label_chars(l));
    } else if labels.len() == 1 {
        assert(labels.push(l).drop_first() =~= seq![l]);
        assert(labels.push(l)[0] == labels[0]);
        assert(seq![l][0] == l);
        assert(qname_text(seq![l]) == label_chars(l));
        assert(labels.push(l).len() == 2);
        assert(qname_text(labels.push(l)) == label_chars(labels.push(l)[0]) + seq!['.']
            + qname_text(labels.push(l).drop_first()));
        assert(qname_text(labels.push(l)) =~= qname_text(labels) + seq!['.'] + label_chars(l));
    } else {
        lemma_qname_text_push(labels.drop_first(), l);
        assert(labels.push(l).drop_first() =~= labels.drop_first().push(l));
        assert(qname_text(labels.push(l)) =~= qname_text(labels) + seq!['.'] + label_chars(l));
    }
}

/// True when a character can be written as one wire byte.
pub open spec fn char_fits_byte(c: char) -> bool {
    (c as u32) < 256
}

/// True when every character of the name can be written as one wire byte.
pub open spec fn name_bytes_ok(name: Seq<char>) -> bool {
    forall|i: int| 0 <= i < name.len() ==> char_fits_byte(#[trigger] name[i])
}

/// True when every label is short enough for a one-byte length prefix with
/// its top two bits clear.
pub open spec fn labels_fit(ls: Seq<Seq<char>>) -> bool {
    forall|i: int| 0 <= i < ls.len() ==> #[trigger] ls[i].len() <= 63
}

/// The labels of a dot-joined name, in order; dots themselves are kept in
/// no label, and consecutive dots yield empty labels.
pub open spec fn split_name(name: Seq<char>) -> Seq<Seq<char>>
    decreases name.len(),
        via split_name_decreases
{
    match name.index_of_first('.') {
        None => seq![name],
        Some(i) => seq![name.take(i)] + split_name(name.skip(i + 1)),
    }
}

#[via_fn]
proof fn split_name_decreases(name: Seq<char>) {
    name.index_of_first_ensures('.');
}

/// A name with no dot is one single label.
pub proof fn lemma_split_no_dot(s: Seq<char>)
    requires
        !s.contains('.'),
    ensures
        split_name(s) == seq![s],
{
    s.index_of_first_ensures('.');
}

/// Splitting at the first dot peels off one label.
pub proof fn lemma_split_first_dot(s: Seq<char>, i: int)
    requires
        0 <= i < s.len(),
        s[i] == '.',
        forall|j: int| 0 <= j < i ==> s[j] != '.',
    ensures
        split_name(s) == seq![s.take(i)] + split_name(s.skip(i + 1)),
{
    assert(s.contains('.')) by {
        assert(s[i] == '.');
    }
    s.index_of_first_ensures('.');
    let idx = s.index_of_first('.')->Some_0;
    if idx < i {
        assert(s[idx] == '.');
        assert(false);
    } else if idx > i {
        assert(s[i] != '.');
        assert(false);
    }
}

/// One label's wire form: a one-byte length prefix, then its characters as
/// bytes.
pub open spec fn wire_label(l: Seq<char>) -> Seq<u8> {
    seq![l.len() as u8] + l.map_values(|c: char| c as u8)
}

/// The wire form of a label sequence, without the terminator.
pub open spec fn wire_labels(ls: Seq<Seq<char>>) -> Seq<u8>
    decreases ls.len(),
{
    if ls.len() == 0 {
        Seq::empty()
    } else {
        wire_label(ls[0]) + wire_labels(ls.drop_first())
    }
}

/// Encoding one more label appends its wire form.
pub proof fn lemma_wire_labels_push(ls: Seq<Seq<char>>, l: Seq<char>)
    ensures
        wire_labels(ls.push(l)) == wire_labels(ls) + wire_label(l),
    decreases ls.len(),
{
    if ls.len() == 0 {
        let d = ls.push(l).drop_first();
        assert(ls.push(l).len() == 1);
        assert(ls.push(l)[0] == l);
        assert(wire_labels(ls.push(l)) == wire_label(l) + wire_labels(d));
        assert(d.len() == 0);
        assert(wire_labels(d) == Seq::<u8>::empty());
        assert(wire_labels(ls) == Seq::<u8>::empty());
        assert(wire_label(l) + Seq::<u8>::empty() =~= Seq::<u8>::empty() + wire_label(l));
    } else {
        lemma_wire_labels_push(ls.drop_first(), l);
        let a = wire_label(ls[0]);
        let b = wire_labels(ls.drop_first());
        let c = wire_label(l);
        assert(ls.push(l).drop_first() =~= ls.drop_first().push(l));
        assert(ls.push(l)[0] == ls[0]);
        assert(wire_labels(ls.push(l)) == a + wire_labels(ls.push(l).drop_first()));
        assert(wire_labels(ls.push(l).drop_first()) == b + c);
        assert(a + (b + c) =~= (a + b) + c);
        assert(wire_labels(ls) == a + b);
    }
}

/// What the name encoder produces for a dot-joined name: each label as a
/// length-prefixed group, then a single zero terminator. The empty name is
/// the DNS root and encodes as the bare terminator. A character that does
/// not fit in a byte is a `FieldConversion` error; a label longer than 63
/// bytes is a `LabelTooLong` error.
pub open spec fn encode_qname(name: Seq<char>) -> Result<Seq<u8>, ErrorKind> {
    if name.len() == 0 {
        Ok(seq![0u8])
    } else if !name_bytes_ok(name) {
        Err(ErrorKind::FieldConversion)
    } else if !labels_fit(split_name(name)) {
        Err(ErrorKind::LabelTooLong)
    } else {
        Ok(wire_labels(split_name(name)) + seq![0u8])
    }
}

/// Write a dot-joined name to `out` as length-prefixed labels followed by
/// the zero terminator. On failure `out` is left untouched.
///
/// Compression pointers are deliberately never emitted: this encoder only
/// regenerates the immediate echo of a received name, so back-references
/// would buy nothing.
pub fn write_qname(out: &mut Vec<u8>, name: &str) -> (r: Result<(), DnsError>)
    ensures
        match encode_qname(name@) {
            Ok(nb) => r == Ok::<(), DnsError>(()) && final(out)@ == old(out)@ + nb,
            Err(k) => r == Err::<(), DnsError>(DnsError::Regular(k)) && final(out)@ == old(
                out,
            )@,
        },
{
    let n = name.unicode_len();
    if n == 0 {
        out.push(0);
        proof {
            assert(out@ =~= old(out)@ + seq![0u8]);
        }
        return Ok(());
    }
    let mut i: usize = 0;
    while i < n
        invariant
            0 < n,
            i <= n,
            n == name@.len(),
            out@ == old(out)@,
            forall|j: int| 0 <= j < i ==> char_fits_byte(#[trigger] name@[j]),
        decreases n - i,
    {
        let c = name.get_char(i);
        if (c as u32) >= 256 {
            proof {
                assert(!char_fits_byte(name@[i as int]));
                assert(!name_bytes_ok(name@));
            }
            return Err(DnsError::Regular(ErrorKind::FieldConversion));
        }
        i = i + 1;
    }
    assert(name_bytes_ok(name@));
    let mut tmp: Vec<u8> = Vec::new();
    let mut label: Vec<u8> = Vec::new();
    let ghost mut done: Seq<Seq<char>> = Seq::empty();
    let ghost mut start: int = 0;
    proof {
        assert(name@.skip(0) =~= name@);
        assert(done + split_name(name@.skip(0)) =~= split_name(name@));
    }
    let mut i: usize = 0;
    while i < n
        invariant
            0 < n,
            n == name@.len(),
            out@ == old(out)@,
            name_bytes_ok(name@),
            0 <= start <= i <= n,
            forall|j: int| start <= j < i ==> name@[j] != '.',
            label@ == name@.subrange(start, i as int).map_values(|c: char| c as u8),
            split_name(name@) == done + split_name(name@.skip(start)),
            labels_fit(done),
            tmp@ == wire_labels(done),
        decreases n - i,
    {
        let c = name.get_char(i);
        if c == '.' {
            let ghost cur = name@.subrange(start, i as int);
            proof {
                assert(name@.skip(start)[i - start] == '.');
                assert(forall|j: int|
                    0 <= j < i - start ==> #[trigger] name@.skip(start)[j] != '.');
                lemma_split_first_dot(name@.skip(start), i - start);
                assert(name@.skip(start).take(i - start) =~= cur);
                assert(name@.skip(start).skip(i - start + 1) =~= name@.skip(i + 1));
                assert(split_name(name@) =~= done.push(cur) + split_name(name@.skip(i + 1)));
            }
            if label.len() > 63 {
                proof {
                    assert(split_name(name@)[done.len() as int] == cur);
                    assert(cur.len() > 63);
                    assert(!labels_fit(split_name(name@)));
                }
                return Err(DnsError::Regular(ErrorKind::LabelTooLong));
            }
            let ll: usize = label.len();
            proof {
                assert(ll as u8 as usize == ll) by (bit_vector)
                    requires
                        ll <= 63,
                ;
            }
            tmp.push(ll as u8);
            tmp.append(&mut label);
            proof {
                lemma_wire_labels_push(done, cur);
                assert(tmp@ =~= wire_labels(done.push(cur)));
                done = done.push(cur);
                start = i + 1;
            }
        } else {
            label.push(c as u8);
            proof {
                assert(name@.subrange(start, i + 1).map_values(|ch: char| ch as u8)
                    =~= name@.subrange(start, i as int).map_values(|ch: char| ch as u8).push(
                    name@[i as int] as u8,
                ));
            }
        }
        i = i + 1;
    }
    let ghost cur = name@.subrange(start, n as int);
    proof {
        assert(forall|j: int| 0 <= j < name@.skip(start).len() ==> #[trigger] name@.skip(
            start,
        )[j] != '.');
        assert(!name@.skip(start).contains('.'));
        lemma_split_no_dot(name@.skip(start));
        assert(name@.skip(start) =~= cur);
        assert(split_name(name@) =~= done.push(cur));
    }
    if label.len() > 63 {
        proof {
            assert(split_name(name@)[done.len() as int] == cur);
            assert(!labels_fit(split_name(name@)));
        }
        return Err(DnsError::Regular(ErrorKind::LabelTooLong));
    }
    let ll: usize = label.len();
    proof {
        assert(ll as u8 as usize == ll) by (bit_vector)
            requires
                ll <= 63,
        ;
    }
    tmp.push(ll as u8);
    tmp.append(&mut label);
    tmp.push(0);
    proof {
        lemma_wire_labels_push(done, cur);
        assert(labels_fit(done.push(cur))) by {
            assert(forall|k: int|
                0 <= k < done.push(cur).len() ==> #[trigger] done.push(cur)[k].len() <= 63);
        }
        assert(tmp@ =~= wire_labels(split_name(name@)) + seq![0u8]);
    }
    out.append(&mut tmp);
    Ok(())
}

/// A fixed-capacity byte buffer holding one datagram, with a read position.
#[derive(Debug)]
pub struct PacketBuf {
    /// The datagram bytes; always exactly `BUF_LEN` of them.
    pub buf: Vec<u8>,
    /// The shared read position; never exceeds `BUF_LEN`.
    pub pos: usize,
}

impl PacketBuf {
    /// The buffer invariant: full capacity, position in bounds.
    pub open spec fn wf(self) -> bool {
        self.buf@.len() == BUF_LEN && self.pos <= BUF_LEN
    }

    /// A fresh zeroed buffer with the position at the start.
    pub fn new() -> (r: PacketBuf)
        ensures
            r.wf(),
            r.pos == 0,
            r.buf@ =~= Seq::new(BUF_LEN as nat, |i: int| 0u8),
    {
        let buf: Vec<u8> = vec![0u8; BUF_LEN];
        proof {
            assert(buf@ =~= Seq::new(BUF_LEN as nat, |i: int| 0u8));
        }
        PacketBuf { buf, pos: 0 }
    }

    /// Current position within the buffer.
    pub fn pos(&self) -> (r: usize)
        ensures
            r == self.pos,
    {
        self.pos
    }

    /// Step the position forward `steps` bytes; fails rather than leaving
    /// the buffer's bounds.
    pub fn step(&mut self, steps: usize) -> (r: Result<(), DnsError>)
        requires
            old(self).wf(),
        ensures
            final(self).wf(),
            final(self).buf@ == old(self).buf@,
            if old(self).pos + steps <= BUF_LEN {
                r == Ok::<(), DnsError>(()) && final(self).pos == old(self).pos + steps
            } else {
                r == Err::<(), DnsError>(DnsError::Regular(ErrorKind::BufferExhausted))
                    && final(self).pos == old(self).pos
            },
    {
        if steps <= BUF_LEN - self.pos {
            self.pos = self.pos + steps;
            Ok(())
        } else {
            Err(DnsError::Regular(ErrorKind::BufferExhausted))
        }
    }

    /// Move the position to `pos`; fails rather than leaving the buffer's
    /// bounds.
    pub fn seek(&mut self, pos: usize) -> (r: Result<(), DnsError>)
        requires
            old(self).wf(),
        ensures
            final(self).wf(),
            final(self).buf@ == old(self).buf@,
            if pos <= BUF_LEN {
                r == Ok::<(), DnsError>(()) && final(self).pos == pos
            } else {
                r == Err::<(), DnsError>(DnsError::Regular(ErrorKind::BufferExhausted))
                    && final(self).pos == old(self).pos
            },
    {
        if pos <= BUF_LEN {
            self.pos = pos;
            Ok(())
        } else {
            Err(DnsError::Regular(ErrorKind::BufferExhausted))
        }
    }

    /// Read the byte at the position and advance by one; fails when the
    /// position has reached the end of the buffer.
    pub fn read(&mut self) -> (r: Result<u8, DnsError>)
        requires
            old(self).wf(),
        ensures
            final(self).wf(),
            final(self).buf@ == old(self).buf@,
            if old(self).pos < BUF_LEN {
                r == Ok::<u8, DnsError>(old(self).buf@[old(self).pos as int]) && final(self).pos
                    == old(self).pos + 1
            } else {
                r == Err::<u8, DnsError>(DnsError::Regular(ErrorKind::BufferExhausted)) && final(self).pos == old(self).pos
            },
    {
        if self.pos >= BUF_LEN {
            return Err(DnsError::Regular(ErrorKind::BufferExhausted));
        }
        let res = self.buf[self.pos];
        self.pos = self.pos + 1;
        Ok(res)
    }

    /// Read the byte at offset `pos` without touching the position; fails
    /// when the offset lies outside the buffer.
    pub fn get(&mut self, pos: usize) -> (r: Result<u8, DnsError>)
        requires
            old(self).wf(),
        ensures
            final(self).buf@ == old(self).buf@,
            final(self).pos == old(self).pos,
            if pos < BUF_LEN {
                r == Ok::<u8, DnsError>(old(self).buf@[pos as int])
            } else {
                r == Err::<u8, DnsError>(DnsError::Regular(ErrorKind::BufferExhausted))
            },
    {
        if pos >= BUF_LEN {
            return Err(DnsError::Regular(ErrorKind::BufferExhausted));
        }
        Ok(self.buf[pos])
    }

    /// Copy out the `len` bytes starting at offset `start`, without touching
    /// the position; fails when the range would run past the end of the
    /// buffer. The final byte of the buffer is deliberately reachable: the
    /// range is refused only when `start + len` exceeds the capacity.
    pub fn get_range(&mut self, start: usize, len: usize) -> (r: Result<Vec<u8>, DnsError>)
        requires
            old(self).wf(),
        ensures
            final(self).buf@ == old(self).buf@,
            final(self).pos == old(self).pos,
            if start + len <= BUF_LEN {
                r matches Ok(v) && v@ == old(self).buf@.subrange(
                    start as int,
                    start + len,
                )
            } else {
                r == Err::<Vec<u8>, DnsError>(DnsError::Regular(ErrorKind::BufferExhausted))
            },
    {
        if len > BUF_LEN || start > BUF_LEN - len {
            return Err(DnsError::Regular(ErrorKind::BufferExhausted));
        }
        let mut out: Vec<u8> = Vec::new();
        let mut i: usize = 0;
        while i < len
            invariant
                self.wf(),
                self.buf@ == old(self).buf@,
                self.pos == old(self).pos,
                start + len <= BUF_LEN,
                i <= len,
                out@ =~= self.buf@.subrange(start as int, start + i),
            decreases len - i,
        {
            out.push(self.buf[start + i]);
            i = i + 1;
            proof {
                assert(out@ =~= self.buf@.subrange(start as int, start + i));
            }
        }
        Ok(out)
    }

    /// Read two bytes, big-endian, stepping two forward.
    pub fn read_u16(&mut self) -> (r: Result<u16, DnsError>)
        requires
            old(self).wf(),
        ensures
            final(self).wf(),
            final(self).buf@ == old(self).buf@,
            if old(self).pos + 2 <= BUF_LEN {
                r matches Ok(v) && v == be16(old(self).buf@, old(self).pos as int) && final(self).pos == old(self).pos + 2
            } else {
                r == Err::<u16, DnsError>(DnsError::Regular(ErrorKind::BufferExhausted)) && final(self).pos == BUF_LEN
            },
    {
        let hi = match self.read() {
            Ok(v) => v,
            Err(e) => {
                return Err(e);
            },
        };
        let lo = match self.read() {
            Ok(v) => v,
            Err(e) => {
                return Err(e);
            },
        };
        Ok((hi as u16) * 256 + (lo as u16))
    }

    /// Read four bytes, big-endian, stepping four forward.
    pub fn read_u32(&mut self) -> (r: Result<u32, DnsError>)
        requires
            old(self).wf(),
        ensures
            final(self).wf(),
            final(self).buf@ == old(self).buf@,
            if old(self).pos + 4 <= BUF_LEN {
                r matches Ok(v) && v == be32(old(self).buf@, old(self).pos as int) && final(self).pos == old(self).pos + 4
            } else {
                r == Err::<u32, DnsError>(DnsError::Regular(ErrorKind::BufferExhausted)) && final(self).pos == BUF_LEN
            },
    {
        let b0 = match self.read() {
            Ok(v) => v,
            Err(e) => {
                return Err(e);
            },
        };
        let b1 = match self.read() {
            Ok(v) => v,
            Err(e) => {
                return Err(e);
            },
        };
        let b2 = match self.read() {
            Ok(v) => v,
            Err(e) => {
                return Err(e);
            },
        };
        let b3 = match self.read() {
            Ok(v) => v,
            Err(e) => {
                return Err(e);
            },
        };
        Ok((b0 as u32) * 0x1000000 + (b1 as u32) * 0x10000 + (b2 as u32) * 0x100 + (b3 as u32))
    }

    /// Read a compressed domain name starting at the current position and
    /// append its lower-cased, dot-joined text to `outstr`.
    ///
    /// The walk keeps a local offset so that compression jumps do not
    /// disturb the shared position: that moves past the first two-byte
    /// pointer, or past the terminator when no jump occurs, and stays where
    /// it was when the name is malformed before either point.
    pub fn read_qname(&mut self, outstr: &mut String) -> (r: Result<(), DnsError>)
        requires
            old(self).wf(),
        ensures
            final(self).wf(),
            final(self).buf@ == old(self).buf@,
            ({
                let (labels, err) = qname_walk(old(self).buf@, old(self).pos as int, 0);
                &&& final(outstr)@ == old(outstr)@ + qname_text(labels)
                &&& match err {
                    None => r == Ok::<(), DnsError>(()),
                    Some(k) => r == Err::<(), DnsError>(DnsError::Regular(k)),
                }
            }),
            final(self).pos as int == (match qname_consumed(
                old(self).buf@,
                old(self).pos as int,
            ) {
                Some(p) => p,
                None => old(self).pos as int,
            }),
    {
        let ghost gbuf = self.buf@;
        let ghost p0 = self.pos as int;
        let ghost out0 = outstr@;
        let mut pos: usize = self.pos();
        let mut jumped: bool = false;
        let mut jumps_performed: usize = 0;
        let mut first: bool = true;
        let ghost mut labels: Seq<Seq<u8>> = Seq::empty();
        loop
            invariant
                gbuf == old(self).buf@,
                p0 == old(self).pos as int,
                out0 == old(outstr)@,
                self.wf(),
                self.buf@ == gbuf,
                0 <= p0 <= BUF_LEN,
                pos <= 16447,
                jumps_performed <= 513,
                jumped <==> jumps_performed > 0,
                first <==> labels.len() == 0,
                outstr@ == out0 + qname_text(labels),
                qname_walk(gbuf, p0, 0).0 == labels + qname_walk(
                    gbuf,
                    pos as int,
                    jumps_performed as int,
                ).0,
                qname_walk(gbuf, p0, 0).1 == qname_walk(
                    gbuf,
                    pos as int,
                    jumps_performed as int,
                ).1,
                !jumped ==> pos <= BUF_LEN && self.pos == p0 && qname_consumed(gbuf, p0)
                    == qname_consumed(gbuf, pos as int),
                jumped ==> qname_consumed(gbuf, p0) == Some(self.pos as int),
            ensures
                self.wf(),
                self.buf@ == gbuf,
                pos < BUF_LEN,
                outstr@ == out0 + qname_text(labels),
                qname_walk(gbuf, p0, 0) == (labels, None::<ErrorKind>),
                !jumped ==> self.pos == p0 && qname_consumed(gbuf, p0) == Some(pos + 1),
                jumped ==> qname_consumed(gbuf, p0) == Some(self.pos as int),
            decreases 513 - jumps_performed as int, 16448 - pos as int,
        {
            if jumps_performed > MAX_JUMPS {
                proof {
                    assert(labels + qname_walk(gbuf, pos as int, jumps_performed as int).0
                        =~= labels);
                }
                return Err(DnsError::Regular(ErrorKind::CompressionLoop));
            }
            let len = match self.get(pos) {
                Ok(v) => v,
                Err(e) => {
                    proof {
                        assert(labels + qname_walk(gbuf, pos as int, jumps_performed as int).0
                            =~= labels);
                    }
                    return Err(e);
                },
            };
            if (len & 0xC0) == 0xC0 {
                let b2 = match self.get(pos + 1) {
                    Ok(v) => v,
                    Err(e) => {
                        proof {
                            assert(labels + qname_walk(gbuf, pos as int, jumps_performed as int).0
                                =~= labels);
                        }
                        return Err(e);
                    },
                };
                proof {
                    assert(len & 0x3F < 64) by (bit_vector);
                }
                let target: usize = ((len & 0x3F) as usize) * 256 + (b2 as usize);
                if !jumped {
                    match self.seek(pos + 2) {
                        Ok(_) => (),
                        Err(e) => {
                            return Err(e);
                        },
                    }
                }
                pos = target;
                jumped = true;
                jumps_performed = jumps_performed + 1;
            } else if len == 0 {
                proof {
                    assert(labels + qname_walk(gbuf, pos as int, jumps_performed as int).0
                        =~= labels);
                }
                break;
            } else {
                pos = pos + 1;
                let chunk = match self.get_range(pos, len as usize) {
                    Ok(v) => v,
                    Err(e) => {
                        proof {
                            assert(labels + qname_walk(
                                gbuf,
                                (pos - 1) as int,
                                jumps_performed as int,
                            ).0 =~= labels);
                        }
                        return Err(e);
                    },
                };
                if !first {
                    push_char(outstr, '.');
                }
                let ghost o_before = outstr@;
                let mut k: usize = 0;
                while k < chunk.len()
                    invariant
                        k <= chunk.len(),
                        outstr@ =~= o_before + label_chars(chunk@.subrange(0, k as int)),
                    decreases chunk.len() - k,
                {
                    let b = chunk[k];
                    let lb = if b >= 65 && b <= 90 {
                        b + 32
                    } else {
                        b
                    };
                    push_char(outstr, lb as char);
                    k = k + 1;
                    proof {
                        assert(label_chars(chunk@.subrange(0, k as int)) =~= label_chars(
                            chunk@.subrange(0, k - 1),
                        ).push(lower_byte(chunk@[k - 1]) as char));
                    }
                }
                proof {
                    assert(chunk@.subrange(0, chunk@.len() as int) =~= chunk@);
                    lemma_qname_text_push(labels, chunk@);
                    labels = labels.push(chunk@);
                    assert(qname_walk(gbuf, (pos - 1) as int, jumps_performed as int).0
                        =~= seq![chunk@] + qname_walk(
                        gbuf,
                        pos + len as int,
                        jumps_performed as int,
                    ).0);
                    assert(labels + qname_walk(gbuf, pos + len as int, jumps_performed as int).0
                        =~= qname_walk(gbuf, p0, 0).0);
                }
                first = false;
                pos = pos + len as usize;
            }
        }
        if !jumped {
            match self.seek(pos + 1) {
                Ok(_) => (),
                Err(e) => {
                    return Err(e);
                },
            }
        }
        Ok(())
    }
}

/// A successful name walk always pins the shared position: the walk reaches
/// a terminator or a complete pointer, so `qname_consumed` is `Some`.
pub proof fn lemma_walk_ok_consumed(buf: Seq<u8>, pos: int, jumps: int)
    requires
        buf.len() == 512,
        0 <= pos <= 512,
        0 <= jumps <= 513,
    ensures
        qname_walk(buf, pos, jumps).1 is None ==> qname_consumed(buf, pos) is Some,
    decreases 512 - pos,
{
    if qname_walk(buf, pos, jumps).1 is None {
        if pos < 512 && !is_pointer_byte(buf[pos]) && buf[pos] != 0 && pos + 1 + buf[pos]
            <= 512 {
            lemma_walk_ok_consumed(buf, pos + 1 + buf[pos], jumps);
        }
    }
}

/// A label's bytes after case folding.
pub open spec fn lower_label(l: Seq<u8>) -> Seq<u8> {
    l.map_values(|b: u8| lower_byte(b))
}

/// The wire form of a raw label sequence, without the terminator: each
/// label as its one-byte length followed by its bytes.
pub open spec fn raw_wire(ls: Seq<Seq<u8>>) -> Seq<u8>
    decreases ls.len(),
{
    if ls.len() == 0 {
        Seq::empty()
    } else {
        seq![ls[0].len() as u8] + ls[0] + raw_wire(ls.drop_first())
    }
}

/// Every character of a decoded name fits in one wire byte.
pub proof fn lemma_qname_text_bytes(ls: Seq<Seq<u8>>)
    ensures
        name_bytes_ok(qname_text(ls)),
    decreases ls.len(),
{
    if ls.len() == 0 {
    } else if ls.len() == 1 {
        assert forall|k: int| 0 <= k < qname_text(ls).len() implies char_fits_byte(
            #[trigger] qname_text(ls)[k],
        ) by {
            assert(qname_text(ls)[k] == lower_byte(ls[0][k]) as char);
        }
    } else {
        lemma_qname_text_bytes(ls.drop_first());
        let head = label_chars(ls[0]);
        let rest = qname_text(ls.drop_first());
        assert forall|k: int| 0 <= k < qname_text(ls).len() implies char_fits_byte(
            #[trigger] qname_text(ls)[k],
        ) by {
            if k < head.len() {
                assert(qname_text(ls)[k] == lower_byte(ls[0][k]) as char);
            } else if k == head.len() {
                assert(qname_text(ls)[k] == '.');
            } else {
                assert(qname_text(ls)[k] == rest[k - head.len() - 1]);
            }
        }
    }
}

/// Splitting the decoded text of a label sequence on dots recovers the
/// labels, provided no label byte is itself a dot.
pub proof fn lemma_split_qname_text(ls: Seq<Seq<u8>>)
    requires
        ls.len() >= 1,
        forall|i: int, j: int|
            0 <= i < ls.len() && 0 <= j < ls[i].len() ==> #[trigger] ls[i][j] != 46,
    ensures
        split_name(qname_text(ls)) == ls.map_values(|l: Seq<u8>| label_chars(l)),
    decreases ls.len(),
{
    let text = qname_text(ls);
    assert('.' as u32 == 46);
    if ls.len() == 1 {
        assert forall|k: int| 0 <= k < text.len() implies #[trigger] text[k] != '.' by {
            assert(text[k] == lower_byte(ls[0][k]) as char);
            assert(ls[0][k] != 46);
            assert(lower_byte(ls[0][k]) != 46);
        }
        assert(!text.contains('.'));
        lemma_split_no_dot(text);
        assert(seq![text] =~= ls.map_values(|l: Seq<u8>| label_chars(l)));
    } else {
        let head = label_chars(ls[0]);
        let rest = qname_text(ls.drop_first());
        assert(text == head + seq!['.'] + rest);
        assert forall|j: int| 0 <= j < head.len() implies #[trigger] text[j] != '.' by {
            assert(text[j] == lower_byte(ls[0][j]) as char);
            assert(ls[0][j] != 46);
            assert(lower_byte(ls[0][j]) != 46);
        }
        assert(text[head.len() as int] == '.');
        lemma_split_first_dot(text, head.len() as int);
        assert(text.take(head.len() as int) =~= head);
        assert(text.skip(head.len() as int + 1) =~= rest);
        assert(forall|i: int, j: int|
            0 <= i < ls.drop_first().len() && 0 <= j < ls.drop_first()[i].len()
                ==> #[trigger] ls.drop_first()[i][j] != 46);
        lemma_split_qname_text(ls.drop_first());
        assert(split_name(text) =~= ls.map_values(|l: Seq<u8>| label_chars(l)));
    }
}

/// One decoded label, written back out, is its case-folded raw form behind
/// the same length byte.
pub proof fn lemma_wire_label_chars(l: Seq<u8>)
    ensures
        wire_label(label_chars(l)) == seq![l.len() as u8] + lower_label(l),
{
    assert(label_chars(l).map_values(|c: char| c as u8) =~= lower_label(l));
    assert(wire_label(label_chars(l)) =~= seq![l.len() as u8] + lower_label(l));
}

/// The encoder's wire form of a decoded label sequence is the raw wire
/// form of the case-folded labels.
pub proof fn lemma_wire_labels_chars(ls: Seq<Seq<u8>>)
    ensures
        wire_labels(ls.map_values(|l: Seq<u8>| label_chars(l))) == raw_wire(
            ls.map_values(|l: Seq<u8>| lower_label(l)),
        ),
    decreases ls.len(),
{
    let mc = ls.map_values(|l: Seq<u8>| label_chars(l));
    let ml = ls.map_values(|l: Seq<u8>| lower_label(l));
    if ls.len() == 0 {
        assert(mc.len() == 0);
        assert(ml.len() == 0);
    } else {
        lemma_wire_labels_chars(ls.drop_first());
        lemma_wire_label_chars(ls[0]);
        assert(mc.drop_first() =~= ls.drop_first().map_values(|l: Seq<u8>| label_chars(l)));
        assert(ml.drop_first() =~= ls.drop_first().map_values(|l: Seq<u8>| lower_label(l)));
        assert(mc[0] == label_chars(ls[0]));
        assert(ml[0] == lower_label(ls[0]));
        assert(ml[0].len() == ls[0].len());
        assert(wire_labels(mc) == wire_label(mc[0]) + wire_labels(mc.drop_first()));
        assert(raw_wire(ml) == seq![ml[0].len() as u8] + ml[0] + raw_wire(ml.drop_first()));
        assert(wire_labels(mc) =~= raw_wire(ml));
    }
}

/// Round-trip law: re-encoding a decoded name reproduces an equivalent
/// label sequence on the wire, case-folded, behind the same length bytes
/// and terminator. It holds for every label sequence whose labels are 1 to
/// 63 bytes long and contain no dot byte, which covers every name the
/// decoder itself accepts from a well-formed datagram.
pub proof fn lemma_qname_round_trip(labels: Seq<Seq<u8>>)
    requires
        forall|i: int| 0 <= i < labels.len() ==> 1 <= #[trigger] labels[i].len() <= 63,
        forall|i: int, j: int|
            0 <= i < labels.len() && 0 <= j < labels[i].len() ==> #[trigger] labels[i][j] != 46,
    ensures
        encode_qname(qname_text(labels)) == Ok::<Seq<u8>, ErrorKind>(
            raw_wire(labels.map_values(|l: Seq<u8>| lower_label(l))) + seq![0u8],
        ),
{
    if labels.len() == 0 {
        assert(raw_wire(labels.map_values(|l: Seq<u8>| lower_label(l))) + seq![0u8]
            =~= seq![0u8]);
    } else {
        let text = qname_text(labels);
        lemma_qname_text_bytes(labels);
        lemma_split_qname_text(labels);
        lemma_wire_labels_chars(labels);
        assert(text.len() > 0) by {
            if labels.len() == 1 {
                assert(text == label_chars(labels[0]));
            }
        }
        let mc = labels.map_values(|l: Seq<u8>| label_chars(l));
        assert(labels_fit(mc)) by {
            assert(forall|i: int|
                0 <= i < mc.len() ==> #[trigger] mc[i].len() == labels[i].len());
        }
    }
}

/// Decode-of-encode law: a buffer that holds exactly the wire form of a
/// label sequence — each label 1 to 63 bytes behind its length byte, then
/// the terminator — decodes to those labels without error, and consumes
/// exactly the wire bytes. With `lemma_qname_round_trip` this closes the
/// circle between the name encoder and the name decoder.
pub proof fn lemma_wire_decodes(buf: Seq<u8>, pos: int, ls: Seq<Seq<u8>>)
    requires
        buf.len() == 512,
        0 <= pos,
        forall|i: int| 0 <= i < ls.len() ==> 1 <= #[trigger] ls[i].len() <= 63,
        pos + raw_wire(ls).len() + 1 <= 512,
        buf.subrange(pos, pos + raw_wire(ls).len() + 1) == raw_wire(ls) + seq![0u8],
    ensures
        qname_walk(buf, pos, 0) == (ls, None::<ErrorKind>),
        qname_consumed(buf, pos) == Some(pos + raw_wire(ls).len() + 1),
    decreases ls.len(),
{
    let w = raw_wire(ls);
    let ww = w + seq![0u8];
    if ls.len() == 0 {
        assert(w == Seq::<u8>::empty());
        assert(ww[0] == 0u8);
        assert(buf.subrange(pos, pos + w.len() + 1)[0] == buf[pos]);
        assert(buf[pos] == 0);
        assert(!(0u8 & 0xC0 == 0xC0)) by (bit_vector);
    } else {
        let l0 = ls[0];
        let n0 = l0.len() as int;
        let rest = ls.drop_first();
        let rw = raw_wire(rest);
        assert(w == seq![l0.len() as u8] + l0 + rw);
        assert(w.len() == 1 + n0 + rw.len());
        assert(ww[0] == l0.len() as u8);
        assert(buf.subrange(pos, pos + w.len() + 1)[0] == buf[pos]);
        let b = buf[pos];
        assert(b == l0.len() as u8);
        assert(b as int == n0);
        assert(!(b & 0xC0 == 0xC0)) by (bit_vector)
            requires
                b <= 63,
        ;
        assert(b != 0);
        assert forall|k: int| 0 <= k < n0 implies buf[pos + 1 + k] == #[trigger] l0[k] by {
            assert(ww[1 + k] == l0[k]);
            assert(buf.subrange(pos, pos + w.len() + 1)[1 + k] == buf[pos + 1 + k]);
        }
        assert(buf.subrange(pos + 1, pos + 1 + n0) =~= l0);
        assert(forall|i: int| 0 <= i < rest.len() ==> 1 <= #[trigger] rest[i].len() <= 63);
        let pos2 = pos + 1 + n0;
        let rww = rw + seq![0u8];
        assert forall|k: int| 0 <= k < rw.len() + 1 implies buf[pos2 + k] == #[trigger] rww[k]
        by {
            assert(ww[1 + n0 + k] == rww[k]);
            assert(buf.subrange(pos, pos + w.len() + 1)[1 + n0 + k] == buf[pos + 1 + n0 + k]);
        }
        assert forall|k: int|
            0 <= k < rw.len() + 1 implies buf.subrange(pos2, pos2 + rw.len() + 1)[k]
            == #[trigger] rww[k] by {
            assert(buf.subrange(pos2, pos2 + rw.len() + 1)[k] == buf[pos2 + k]);
        }
        assert(buf.subrange(pos2, pos2 + rw.len() + 1) =~= rww);
        lemma_wire_decodes(buf, pos2, rest);
        assert(seq![buf.subrange(pos + 1, pos + 1 + n0)] + rest =~= ls);
        assert(qname_walk(buf, pos, 0) == (ls, None::<ErrorKind>));
    }
}

} // verus!
