//! The wire cursor: a fixed 512-byte buffer with a read/write position,
//! bounds-checked primitive access and DNS name (de)compression.

use vstd::prelude::*;

use crate::DnsError;

verus! {

/// Capacity of a DNS message buffer: the classic UDP size ceiling.
pub const BUF_CAP: usize = 512;

/// Bound on compression-pointer follows while decoding one name. A chain
/// that does not revisit an offset can jump at most once per buffer offset,
/// so any chain longer than this necessarily cycles.
pub const MAX_JUMPS: usize = 512;

/// Big-endian composition of two bytes.
pub open spec fn be16(hi: u8, lo: u8) -> u16 {
    (hi * 256 + lo) as u16
}

/// Big-endian composition of four bytes.
pub open spec fn be32(b0: u8, b1: u8, b2: u8, b3: u8) -> u32 {
    (be16(b0, b1) * 65536 + be16(b2, b3)) as u32
}

/// The two big-endian bytes of a 16-bit value.
pub open spec fn be16_bytes(v: u16) -> Seq<u8> {
    seq![(v / 256) as u8, (v % 256) as u8]
}

/// The four big-endian bytes of a 32-bit value.
pub open spec fn be32_bytes(v: u32) -> Seq<u8> {
    be16_bytes((v / 65536) as u16) + be16_bytes((v % 65536) as u16)
}

/// ASCII lowercasing of one byte, as name decoding applies it.
pub open spec fn lower_byte(b: u8) -> u8 {
    if 65 <= b && b <= 90 {
        (b + 32) as u8
    } else {
        b
    }
}

/// ASCII lowercasing of a byte sequence.
pub open spec fn lower_seq(s: Seq<u8>) -> Seq<u8> {
    s.map_values(|b: u8| lower_byte(b))
}

/// Dot-joining of two decoded name parts: a dot separates them only when
/// both are non-empty.
pub open spec fn join_names(a: Seq<u8>, b: Seq<u8>) -> Seq<u8> {
    if a.len() == 0 {
        b
    } else if b.len() == 0 {
        a
    } else {
        a + seq![46u8] + b
    }
}

/// The name decoded from `bytes` starting at `off`, following at most
/// `jumps` compression pointers. Mirrors the wire rules: a zero byte ends
/// the name, a byte of 192 or more starts a two-byte pointer, any other
/// byte is a label length; labels are lowercased and joined with dots.
pub open spec fn name_at(bytes: Seq<u8>, off: int, jumps: nat) -> Result<Seq<u8>, DnsError>
    decreases jumps, BUF_CAP - off,
{
    if !(0 <= off && off < BUF_CAP) {
        Err(DnsError::BufferExhausted)
    } else {
        let len = bytes[off];
        if len == 0 {
            Ok(Seq::empty())
        } else if len >= 192 {
            if off + 1 >= BUF_CAP {
                Err(DnsError::BufferExhausted)
            } else {
                let target = (len - 192) * 256 + bytes[off + 1];
                if target >= BUF_CAP {
                    Err(DnsError::BufferExhausted)
                } else if jumps == 0 {
                    Err(DnsError::PointerLoop)
                } else {
                    name_at(bytes, target, (jumps - 1) as nat)
                }
            }
        } else {
            if off + 1 + len > BUF_CAP {
                Err(DnsError::BufferExhausted)
            } else {
                let lab = lower_seq(bytes.subrange(off + 1, off + 1 + len));
                match name_at(bytes, off + 1 + len, jumps) {
                    Ok(rest) => Ok(join_names(lab, rest)),
                    Err(e) => Err(e),
                }
            }
        }
    }
}

/// Where the cursor stands after decoding a name that starts at `off`:
/// just past the terminating zero, or just past the first pointer.
pub open spec fn name_end(bytes: Seq<u8>, off: int) -> int
    decreases BUF_CAP - off,
{
    if !(0 <= off && off < BUF_CAP) {
        off
    } else {
        let len = bytes[off];
        if len == 0 {
            off + 1
        } else if len >= 192 {
            off + 2
        } else if off + 1 + len > BUF_CAP {
            off
        } else {
            name_end(bytes, off + 1 + len)
        }
    }
}

/// Index of the first dot in `s`, or `s.len()` if there is none.
pub open spec fn first_dot(s: Seq<u8>) -> int
    decreases s.len(),
{
    if s.len() == 0 {
        0
    } else if s[0] == 46 {
        0
    } else {
        1 + first_dot(s.subrange(1, s.len() as int))
    }
}

/// `first_dot` is an index into `s` or `s.len()`; everything before it is
/// no dot, and it is a dot when inside the sequence.
pub proof fn lemma_first_dot_bounds(s: Seq<u8>)
    ensures
        0 <= first_dot(s) && first_dot(s) <= s.len(),
        first_dot(s) < s.len() ==> s[first_dot(s)] == 46,
        forall|k: int| 0 <= k < first_dot(s) ==> s[k] != 46,
    decreases s.len(),
{
    if s.len() != 0 && s[0] != 46 {
        let t = s.subrange(1, s.len() as int);
        lemma_first_dot_bounds(t);
        assert forall|k: int| 0 <= k < first_dot(s) implies s[k] != 46 by {
            if k > 0 {
                assert(s[k] == t[k - 1]);
            }
        }
    }
}

/// `first_dot` is determined by a dot-free prefix and a dot (or the end) after it.
pub proof fn lemma_first_dot_at(s: Seq<u8>, i: int)
    requires
        0 <= i && i <= s.len(),
        forall|k: int| 0 <= k < i ==> s[k] != 46,
        i == s.len() || s[i] == 46,
    ensures
        first_dot(s) == i,
    decreases s.len(),
{
    if s.len() != 0 && s[0] != 46 {
        lemma_first_dot_at(s.subrange(1, s.len() as int), i - 1);
    }
}

/// Whether a dotted name can be written to the wire: it is empty (the
/// root), or each dot-separated label has 1 to 63 bytes.
pub open spec fn encodable_name(s: Seq<u8>) -> bool
    decreases s.len(),
{
    s.len() == 0 || {
        let i = first_dot(s);
        &&& 1 <= i && i <= 63
        &&& (i == s.len() || (s.len() - i - 1 > 0 && encodable_name(
            s.subrange(i + 1, s.len() as int),
        )))
    }
}

/// The uncompressed wire form of a dotted name: each label's length byte
/// and bytes, then a terminating zero.
pub open spec fn name_wire(s: Seq<u8>) -> Seq<u8>
    decreases s.len(),
    via name_wire_decreases
{
    if s.len() == 0 {
        seq![0u8]
    } else {
        let i = first_dot(s);
        if i == s.len() {
            seq![i as u8] + s.subrange(0, i) + seq![0u8]
        } else {
            seq![i as u8] + s.subrange(0, i) + name_wire(s.subrange(i + 1, s.len() as int))
        }
    }
}

#[via_fn]
proof fn name_wire_decreases(s: Seq<u8>) {
    lemma_first_dot_bounds(s);
}

/// Length of the uncompressed wire form of an encodable name.
pub open spec fn wire_len(s: Seq<u8>) -> int {
    if s.len() == 0 {
        1
    } else {
        s.len() + 2int
    }
}

/// An encodable name's wire form has `wire_len` bytes.
pub proof fn lemma_name_wire_len(s: Seq<u8>)
    requires
        encodable_name(s),
    ensures
        name_wire(s).len() == wire_len(s),
    decreases s.len(),
{
    if s.len() != 0 {
        let i = first_dot(s);
        if i != s.len() {
            lemma_name_wire_len(s.subrange(i + 1, s.len() as int));
        }
    }
}

/// Joining is associative when the middle part is non-empty.
pub proof fn lemma_join_assoc(a: Seq<u8>, b: Seq<u8>, c: Seq<u8>)
    requires
        b.len() > 0,
    ensures
        join_names(a, join_names(b, c)) == join_names(join_names(a, b), c),
{
    if a.len() > 0 && c.len() > 0 {
        assert(join_names(a, join_names(b, c)) =~= join_names(join_names(a, b), c));
    }
}

/// A name decoded within some pointer budget decodes to the same thing
/// under any larger budget.
pub proof fn lemma_name_at_fuel(bytes: Seq<u8>, off: int, j1: nat, j2: nat)
    requires
        j1 <= j2,
        name_at(bytes, off, j1) is Ok,
    ensures
        name_at(bytes, off, j2) == name_at(bytes, off, j1),
    decreases j1, BUF_CAP - off,
{
    if 0 <= off && off < BUF_CAP {
        let len = bytes[off];
        if len == 0 {
        } else if len >= 192 {
            let target = (len - 192) * 256 + bytes[off + 1];
            if off + 1 < BUF_CAP && target < BUF_CAP && j1 > 0 {
                lemma_name_at_fuel(bytes, target, (j1 - 1) as nat, (j2 - 1) as nat);
            }
        } else {
            if off + 1 + len <= BUF_CAP {
                lemma_name_at_fuel(bytes, off + 1 + len, j1, j2);
            }
        }
    }
}

/// Decoding a name through a compression pointer that stands at `p` and
/// points to offset `o` yields exactly the name found by decoding
/// directly at `o`.
pub proof fn lemma_pointer_name(bytes: Seq<u8>, p: int, o: int, jumps: nat)
    requires
        bytes.len() == BUF_CAP,
        0 <= p && p + 1 < BUF_CAP,
        bytes[p] >= 192,
        o == (bytes[p] - 192) * 256 + bytes[p + 1],
        0 <= o && o < BUF_CAP,
        jumps >= 1,
        name_at(bytes, o, (jumps - 1) as nat) is Ok,
    ensures
        name_at(bytes, p, jumps) == name_at(bytes, o, (jumps - 1) as nat),
        name_at(bytes, p, jumps) == name_at(bytes, o, jumps),
{
    lemma_name_at_fuel(bytes, o, (jumps - 1) as nat, jumps);
}

/// A pointer that points at its own offset never decodes: every budget
/// ends in the pointer-loop error rather than in an endless chase.
pub proof fn lemma_pointer_cycle(bytes: Seq<u8>, off: int, jumps: nat)
    requires
        bytes.len() == BUF_CAP,
        0 <= off && off + 1 < BUF_CAP,
        bytes[off] >= 192,
        (bytes[off] - 192) * 256 + bytes[off + 1] == off,
    ensures
        name_at(bytes, off, jumps) == Err::<Seq<u8>, DnsError>(DnsError::PointerLoop),
    decreases jumps,
{
    if jumps > 0 {
        lemma_pointer_cycle(bytes, off, (jumps - 1) as nat);
    }
}

/// Round trip at the name level: wherever the wire form of an encodable,
/// already-lowercase name stands in a buffer, decoding at its start yields
/// that name back, whatever the pointer budget, and ends just past its
/// terminating zero.
pub proof fn lemma_name_round_trip(bytes: Seq<u8>, off: int, s: Seq<u8>, jumps: nat)
    requires
        bytes.len() == BUF_CAP,
        encodable_name(s),
        lower_seq(s) == s,
        0 <= off,
        off + wire_len(s) <= BUF_CAP,
        bytes.subrange(off, off + wire_len(s)) == name_wire(s),
    ensures
        name_at(bytes, off, jumps) == Ok::<Seq<u8>, DnsError>(s),
        name_end(bytes, off) == off + wire_len(s),
    decreases s.len(),
{
    lemma_name_wire_len(s);
    let w = name_wire(s);
    if s.len() == 0 {
        assert(bytes[off] == w[0]);
        assert(s =~= Seq::<u8>::empty());
    } else {
        let i = first_dot(s);
        lemma_first_dot_bounds(s);
        assert(bytes[off] == w[0]);
        assert(w[0] == i as u8);
        let len = bytes[off];
        assert(len == i);
        assert forall|k: int| 0 <= k < i implies bytes[off + 1 + k] == s[k] by {
            assert(bytes[off + 1 + k] == bytes.subrange(off, off + wire_len(s))[1 + k]);
            assert(w[1 + k] == s.subrange(0, i)[k]);
        }
        let lab = lower_seq(bytes.subrange(off + 1, off + 1 + i));
        assert(lab =~= s.subrange(0, i)) by {
            assert forall|k: int| 0 <= k < i implies lab[k] == s.subrange(0, i)[k] by {
                assert(lower_seq(s)[k] == lower_byte(s[k]));
            }
        }
        if i == s.len() {
            assert(bytes[off + 1 + i] == w[1 + i]);
            assert(bytes[off + 1 + i] == 0);
            assert(name_at(bytes, off + 1 + i, jumps) == Ok::<Seq<u8>, DnsError>(Seq::empty()));
            assert(join_names(lab, Seq::empty()) =~= s);
            assert(name_end(bytes, off + 1 + i) == off + i + 2);
        } else {
            let tail = s.subrange(i + 1, s.len() as int);
            lemma_name_wire_len(tail);
            assert(lower_seq(tail) =~= tail) by {
                assert forall|k: int| 0 <= k < tail.len() implies lower_seq(tail)[k] == tail[k] by {
                    assert(lower_seq(s)[i + 1 + k] == lower_byte(s[i + 1 + k]));
                }
            }
            assert(bytes.subrange(off + 1 + i, off + 1 + i + wire_len(tail)) =~= name_wire(tail))
                by {
                assert forall|k: int| 0 <= k < wire_len(tail) implies bytes[off + 1 + i + k]
                    == name_wire(tail)[k] by {
                    assert(bytes[off + 1 + i + k] == bytes.subrange(off, off + wire_len(s))[1 + i
                        + k]);
                    assert(w[1 + i + k] == name_wire(tail)[k]);
                }
            }
            lemma_name_round_trip(bytes, off + 1 + i, tail, jumps);
            assert(join_names(lab, tail) =~= s) by {
                assert(s[i] == 46);
            }
        }
    }
}

/// Splitting a 16-bit value into its two big-endian bytes and composing
/// them restores the value.
pub proof fn lemma_be16_round(v: u16)
    ensures
        be16(be16_bytes(v)[0], be16_bytes(v)[1]) == v,
{
}

/// Splitting a 32-bit value into its four big-endian bytes and composing
/// them restores the value.
pub proof fn lemma_be32_round(v: u32)
    ensures
        be32(be32_bytes(v)[0], be32_bytes(v)[1], be32_bytes(v)[2], be32_bytes(v)[3]) == v,
{
    assert(be32_bytes(v)[0] == ((v / 65536) as u16 / 256) as u8);
    assert(be32((v / 65536 / 256) as u8, (v / 65536 % 256) as u8, (v % 65536 / 256) as u8, (v
        % 65536 % 256) as u8) == v) by (bit_vector);
}

/// A subrange that equals a concatenation of two parts splits into
/// adjacent subranges that equal each part.
pub proof fn lemma_unsplice2(bts: Seq<u8>, c0: int, p1: Seq<u8>, p2: Seq<u8>)
    requires
        0 <= c0,
        c0 + p1.len() + p2.len() <= bts.len(),
        bts.subrange(c0, c0 + p1.len() + p2.len()) == p1 + p2,
    ensures
        bts.subrange(c0, c0 + p1.len()) == p1,
        bts.subrange(c0 + p1.len(), c0 + p1.len() + p2.len()) == p2,
{
    let all = bts.subrange(c0, c0 + p1.len() + p2.len());
    assert(bts.subrange(c0, c0 + p1.len()) =~= p1) by {
        assert forall|i: int| 0 <= i < p1.len() implies bts[c0 + i] == p1[i] by {
            assert(bts[c0 + i] == all[i]);
        }
    }
    assert(bts.subrange(c0 + p1.len(), c0 + p1.len() + p2.len()) =~= p2) by {
        assert forall|i: int| 0 <= i < p2.len() implies bts[c0 + p1.len() + i] == p2[i] by {
            assert(bts[c0 + p1.len() + i] == all[p1.len() + i]);
        }
    }
}

/// A subrange that equals a concatenation of three parts splits into
/// adjacent subranges that equal each part.
pub proof fn lemma_unsplice3(bts: Seq<u8>, c0: int, p1: Seq<u8>, p2: Seq<u8>, p3: Seq<u8>)
    requires
        0 <= c0,
        c0 + p1.len() + p2.len() + p3.len() <= bts.len(),
        bts.subrange(c0, c0 + p1.len() + p2.len() + p3.len()) == p1 + p2 + p3,
    ensures
        bts.subrange(c0, c0 + p1.len()) == p1,
        bts.subrange(c0 + p1.len(), c0 + p1.len() + p2.len()) == p2,
        bts.subrange(c0 + p1.len() + p2.len(), c0 + p1.len() + p2.len() + p3.len()) == p3,
{
    let all = bts.subrange(c0, c0 + p1.len() + p2.len() + p3.len());
    assert(bts.subrange(c0, c0 + p1.len()) =~= p1) by {
        assert forall|i: int| 0 <= i < p1.len() implies bts[c0 + i] == p1[i] by {
            assert(bts[c0 + i] == all[i]);
        }
    }
    assert(bts.subrange(c0 + p1.len(), c0 + p1.len() + p2.len()) =~= p2) by {
        assert forall|i: int| 0 <= i < p2.len() implies bts[c0 + p1.len() + i] == p2[i] by {
            assert(bts[c0 + p1.len() + i] == all[p1.len() + i]);
        }
    }
    assert(bts.subrange(c0 + p1.len() + p2.len(), c0 + p1.len() + p2.len() + p3.len()) =~= p3) by {
        assert forall|i: int| 0 <= i < p3.len() implies bts[c0 + p1.len() + p2.len() + i]
            == p3[i] by {
            assert(bts[c0 + p1.len() + p2.len() + i] == all[p1.len() + p2.len() + i]);
        }
    }
}

/// A subrange that equals a concatenation of four parts splits into
/// adjacent subranges that equal each part.
pub proof fn lemma_unsplice4(bts: Seq<u8>, c0: int, p1: Seq<u8>, p2: Seq<u8>, p3: Seq<u8>, p4: Seq<
    u8,
>)
    requires
        0 <= c0,
        c0 + p1.len() + p2.len() + p3.len() + p4.len() <= bts.len(),
        bts.subrange(c0, c0 + p1.len() + p2.len() + p3.len() + p4.len()) == p1 + p2 + p3 + p4,
    ensures
        bts.subrange(c0, c0 + p1.len()) == p1,
        bts.subrange(c0 + p1.len(), c0 + p1.len() + p2.len()) == p2,
        bts.subrange(c0 + p1.len() + p2.len(), c0 + p1.len() + p2.len() + p3.len()) == p3,
        bts.subrange(
            c0 + p1.len() + p2.len() + p3.len(),
            c0 + p1.len() + p2.len() + p3.len() + p4.len(),
        ) == p4,
{
    let all = bts.subrange(c0, c0 + p1.len() + p2.len() + p3.len() + p4.len());
    assert(bts.subrange(c0, c0 + p1.len() + p2.len() + p3.len()) =~= p1 + p2 + p3) by {
        assert forall|i: int| 0 <= i < p1.len() + p2.len() + p3.len() implies bts[c0 + i] == (p1
            + p2 + p3)[i] by {
            assert(bts[c0 + i] == all[i]);
        }
    }
    lemma_unsplice3(bts, c0, p1, p2, p3);
    assert(bts.subrange(
        c0 + p1.len() + p2.len() + p3.len(),
        c0 + p1.len() + p2.len() + p3.len() + p4.len(),
    ) =~= p4) by {
        assert forall|i: int| 0 <= i < p4.len() implies bts[c0 + p1.len() + p2.len() + p3.len()
            + i] == p4[i] by {
            assert(bts[c0 + p1.len() + p2.len() + p3.len() + i] == all[p1.len() + p2.len()
                + p3.len() + i]);
        }
    }
}

/// Two adjacent subranges of a buffer splice to the concatenation of
/// their contents.
pub proof fn lemma_splice2(bts: Seq<u8>, c0: int, p1: Seq<u8>, p2: Seq<u8>)
    requires
        0 <= c0,
        c0 + p1.len() + p2.len() <= bts.len(),
        bts.subrange(c0, c0 + p1.len()) == p1,
        bts.subrange(c0 + p1.len(), c0 + p1.len() + p2.len()) == p2,
    ensures
        bts.subrange(c0, c0 + p1.len() + p2.len()) == p1 + p2,
{
    assert(bts.subrange(c0, c0 + p1.len() + p2.len()) =~= p1 + p2) by {
        assert forall|i: int| 0 <= i < p1.len() + p2.len() implies bts[c0 + i] == (p1 + p2)[i] by {
            if i < p1.len() {
                assert(bts[c0 + i] == p1[i]);
            } else {
                assert(bts[c0 + i] == p2[i - p1.len()]);
            }
        }
    }
}

/// Three adjacent subranges of a buffer splice to the concatenation of
/// their contents.
pub proof fn lemma_splice3(bts: Seq<u8>, c0: int, p1: Seq<u8>, p2: Seq<u8>, p3: Seq<u8>)
    requires
        0 <= c0,
        c0 + p1.len() + p2.len() + p3.len() <= bts.len(),
        bts.subrange(c0, c0 + p1.len()) == p1,
        bts.subrange(c0 + p1.len(), c0 + p1.len() + p2.len()) == p2,
        bts.subrange(c0 + p1.len() + p2.len(), c0 + p1.len() + p2.len() + p3.len()) == p3,
    ensures
        bts.subrange(c0, c0 + p1.len() + p2.len() + p3.len()) == p1 + p2 + p3,
{
    assert(bts.subrange(c0, c0 + p1.len() + p2.len() + p3.len()) =~= p1 + p2 + p3) by {
        assert forall|i: int| 0 <= i < p1.len() + p2.len() + p3.len() implies bts[c0 + i] == (p1
            + p2 + p3)[i] by {
            if i < p1.len() {
                assert(bts[c0 + i] == p1[i]);
            } else if i < p1.len() + p2.len() {
                assert(bts[c0 + i] == p2[i - p1.len()]);
            } else {
                assert(bts[c0 + i] == p3[i - p1.len() - p2.len()]);
            }
        }
    }
}

/// Four adjacent subranges of a buffer splice to the concatenation of
/// their contents.
pub proof fn lemma_splice4(bts: Seq<u8>, c0: int, p1: Seq<u8>, p2: Seq<u8>, p3: Seq<u8>, p4: Seq<
    u8,
>)
    requires
        0 <= c0,
        c0 + p1.len() + p2.len() + p3.len() + p4.len() <= bts.len(),
        bts.subrange(c0, c0 + p1.len()) == p1,
        bts.subrange(c0 + p1.len(), c0 + p1.len() + p2.len()) == p2,
        bts.subrange(c0 + p1.len() + p2.len(), c0 + p1.len() + p2.len() + p3.len()) == p3,
        bts.subrange(
            c0 + p1.len() + p2.len() + p3.len(),
            c0 + p1.len() + p2.len() + p3.len() + p4.len(),
        ) == p4,
    ensures
        bts.subrange(c0, c0 + p1.len() + p2.len() + p3.len() + p4.len()) == p1 + p2 + p3 + p4,
{
    lemma_splice3(bts, c0, p1, p2, p3);
    let q1 = p1 + p2 + p3;
    assert(bts.subrange(c0, c0 + q1.len() + p4.len()) =~= q1 + p4) by {
        assert forall|i: int| 0 <= i < q1.len() + p4.len() implies bts[c0 + i] == (q1 + p4)[i] by {
            if i < q1.len() {
                assert(bts[c0 + i] == bts.subrange(c0, c0 + q1.len())[i]);
            } else {
                assert(bts[c0 + i] == p4[i - q1.len()]);
            }
        }
    }
    assert(p1 + p2 + p3 + p4 =~= q1 + p4);
}

/// A freshly written piece after an already written prefix extends the
/// prefix, when the bytes before it were left unchanged.
pub proof fn lemma_append_piece(
    prev: Seq<u8>,
    bts: Seq<u8>,
    c0: int,
    cur: int,
    sofar: Seq<u8>,
    piece: Seq<u8>,
)
    requires
        prev.len() == bts.len(),
        0 <= c0,
        c0 + sofar.len() == cur,
        cur + piece.len() <= bts.len(),
        prev.subrange(c0, cur) == sofar,
        bts.subrange(cur, cur + piece.len()) == piece,
        forall|k: int| 0 <= k < cur ==> bts[k] == prev[k],
    ensures
        bts.subrange(c0, cur + piece.len()) == sofar + piece,
{
    assert(bts.subrange(c0, cur + piece.len()) =~= sofar + piece) by {
        assert forall|i: int| 0 <= i < sofar.len() + piece.len() implies bts[c0 + i] == (sofar
            + piece)[i] by {
            if i < sofar.len() {
                assert(bts[c0 + i] == prev[c0 + i]);
                assert(prev[c0 + i] == sofar[i]);
            } else {
                assert(bts[c0 + i] == piece[i - sofar.len()]);
            }
        }
    }
}

/// The fixed-capacity byte buffer with an explicit cursor.
pub struct BufHandler {
    buf: Vec<u8>,
    pos: usize,
}

impl BufHandler {
    /// The buffer's contents, always exactly `BUF_CAP` bytes.
    pub closed spec fn bytes(&self) -> Seq<u8> {
        self.buf@
    }

    /// The cursor position.
    pub closed spec fn cursor(&self) -> int {
        self.pos as int
    }

    /// Well-formedness: the backing store holds exactly `BUF_CAP` bytes
    /// and the cursor is a machine index.
    pub open spec fn wf(&self) -> bool {
        self.bytes().len() == BUF_CAP && 0 <= self.cursor()
    }

    /// A zeroed buffer with the cursor at the start.
    pub fn new() -> (r: BufHandler)
        ensures
            r.wf(),
            r.cursor() == 0,
            r.bytes() =~= Seq::<u8>::new(BUF_CAP as nat, |i: int| 0u8),
    {
        let mut buf: Vec<u8> = Vec::new();
        while buf.len() < BUF_CAP
            invariant
                buf@.len() <= BUF_CAP,
                forall|i: int| 0 <= i < buf@.len() ==> buf@[i] == 0u8,
            decreases BUF_CAP - buf@.len(),
        {
            buf.push(0u8);
        }
        BufHandler { buf, pos: 0 }
    }

    /// A buffer holding the given bytes (truncated to `BUF_CAP`, padded
    /// with zeros), with the cursor at the start.
    pub fn from_bytes(data: &Vec<u8>) -> (r: BufHandler)
        ensures
            r.wf(),
            r.cursor() == 0,
            forall|i: int|
                0 <= i < BUF_CAP ==> r.bytes()[i] == (if i < data@.len() {
                    data@[i]
                } else {
                    0u8
                }),
    {
        let mut h = BufHandler::new();
        let mut i: usize = 0;
        while i < BUF_CAP && i < data.len()
            invariant
                h.wf(),
                i <= BUF_CAP,
                forall|j: int|
                    0 <= j < BUF_CAP ==> h.bytes()[j] == (if j < i && j < data@.len() {
                        data@[j]
                    } else {
                        0u8
                    }),
            decreases BUF_CAP - i,
        {
            h.buf[i] = data[i];
            i += 1;
        }
        h.pos = 0;
        h
    }

    /// The first `n` bytes of the buffer, copied out.
    pub fn prefix(&self, n: usize) -> (r: Vec<u8>)
        requires
            self.wf(),
            n <= BUF_CAP,
        ensures
            r@ == self.bytes().subrange(0, n as int),
    {
        let mut out: Vec<u8> = Vec::new();
        let mut i: usize = 0;
        while i < n
            invariant
                self.wf(),
                i <= n <= BUF_CAP,
                out@ =~= self.bytes().subrange(0, i as int),
            decreases n - i,
        {
            out.push(self.buf[i]);
            i += 1;
        }
        proof {
            assert(out@ =~= self.bytes().subrange(0, n as int));
        }
        out
    }

    /// One byte at the cursor; fails past the capacity.
    pub fn read(&mut self) -> (r: Result<u8, DnsError>)
        requires
            old(self).wf(),
        ensures
            final(self).wf(),
            final(self).bytes() == old(self).bytes(),
            match r {
                Ok(v) => old(self).cursor() < BUF_CAP
                    && v == old(self).bytes()[old(self).cursor()]
                    && final(self).cursor() == old(self).cursor() + 1,
                Err(e) => e == DnsError::BufferExhausted
                    && old(self).cursor() >= BUF_CAP
                    && final(self).cursor() == old(self).cursor(),
            },
    {
        if self.pos >= BUF_CAP {
            return Err(DnsError::BufferExhausted);
        }
        let value = self.buf[self.pos];
        self.pos = self.pos + 1;
        Ok(value)
    }

    /// A big-endian 16-bit value at the cursor.
    pub fn read_u16(&mut self) -> (r: Result<u16, DnsError>)
        requires
            old(self).wf(),
        ensures
            final(self).wf(),
            final(self).bytes() == old(self).bytes(),
            match r {
                Ok(v) => old(self).cursor() + 2 <= BUF_CAP && v == be16(
                    old(self).bytes()[old(self).cursor()],
                    old(self).bytes()[old(self).cursor() + 1],
                ) && final(self).cursor() == old(self).cursor() + 2,
                Err(e) => e == DnsError::BufferExhausted && old(self).cursor() + 2 > BUF_CAP
                    && final(self).cursor() == (if old(self).cursor() >= BUF_CAP {
                    old(self).cursor()
                } else {
                    BUF_CAP as int
                }),
            },
    {
        let hi = self.read()?;
        let lo = self.read()?;
        Ok((hi as u16) * 256 + (lo as u16))
    }

    /// A big-endian 32-bit value at the cursor.
    pub fn read_u32(&mut self) -> (r: Result<u32, DnsError>)
        requires
            old(self).wf(),
        ensures
            final(self).wf(),
            final(self).bytes() == old(self).bytes(),
            match r {
                Ok(v) => old(self).cursor() + 4 <= BUF_CAP && v == be32(
                    old(self).bytes()[old(self).cursor()],
                    old(self).bytes()[old(self).cursor() + 1],
                    old(self).bytes()[old(self).cursor() + 2],
                    old(self).bytes()[old(self).cursor() + 3],
                ) && final(self).cursor() == old(self).cursor() + 4,
                Err(e) => e == DnsError::BufferExhausted && old(self).cursor() + 4 > BUF_CAP
                    && final(self).cursor() == (if old(self).cursor() >= BUF_CAP {
                    old(self).cursor()
                } else {
                    BUF_CAP as int
                }),
            },
    {
        let hi = self.read_u16()?;
        let lo = self.read_u16()?;
        Ok((hi as u32) * 65536 + (lo as u32))
    }

    /// The cursor position.
    pub fn get_pos(&self) -> (r: usize)
        ensures
            r == self.cursor(),
    {
        self.pos
    }

    /// Decodes a DNS name at the cursor, appending the dot-joined,
    /// lowercased labels to `out`. Compression pointers are followed, at
    /// most `MAX_JUMPS` of them; the cursor ends just past the terminating
    /// zero, or just past the first pointer if any jump occurred.
    pub fn read_qname(&mut self, out: &mut Vec<u8>) -> (r: Result<(), DnsError>)
        requires
            old(self).wf(),
        ensures
            final(self).wf(),
            final(self).bytes() == old(self).bytes(),
            match r {
                Ok(()) => (name_at(old(self).bytes(), old(self).cursor(), MAX_JUMPS as nat)
                    matches Ok(n) && final(out)@ == old(out)@ + n) && final(self).cursor()
                    == name_end(old(self).bytes(), old(self).cursor()),
                Err(e) => name_at(old(self).bytes(), old(self).cursor(), MAX_JUMPS as nat)
                    == Err::<Seq<u8>, DnsError>(e),
            },
    {
        let ghost b = self.bytes();
        let ghost c0 = self.cursor();
        let ghost out0 = out@;
        let ghost mut acc: Seq<u8> = Seq::empty();
        let mut offset: usize = self.pos;
        let mut jumped = false;
        let mut first = true;
        let mut jumps_left: usize = MAX_JUMPS;
        if offset >= BUF_CAP {
            return Err(DnsError::BufferExhausted);
        }
        loop
            invariant
                self.wf(),
                self.bytes() == b,
                b == old(self).bytes(),
                c0 == old(self).cursor(),
                out0 == old(out)@,
                offset <= BUF_CAP,
                jumps_left <= MAX_JUMPS,
                out@ == out0 + acc,
                first <==> acc.len() == 0,
                match name_at(b, offset as int, jumps_left as nat) {
                    Ok(rest) => name_at(b, c0, MAX_JUMPS as nat) == Ok::<Seq<u8>, DnsError>(
                        join_names(acc, rest),
                    ),
                    Err(e) => name_at(b, c0, MAX_JUMPS as nat) == Err::<Seq<u8>, DnsError>(e),
                },
                if jumped {
                    self.cursor() == name_end(b, c0)
                } else {
                    self.cursor() == c0 && name_end(b, c0) == name_end(b, offset as int)
                },
            decreases jumps_left, BUF_CAP - offset,
        {
            if offset >= BUF_CAP {
                return Err(DnsError::BufferExhausted);
            }
            let len = self.buf[offset];
            if len == 0 {
                if !jumped {
                    self.pos = offset + 1;
                }
                return Ok(());
            }
            if len >= 192 {
                if offset + 1 >= BUF_CAP {
                    return Err(DnsError::BufferExhausted);
                }
                let b2 = self.buf[offset + 1];
                let target: usize = ((len - 192) as usize) * 256 + (b2 as usize);
                if target >= BUF_CAP {
                    return Err(DnsError::BufferExhausted);
                }
                if jumps_left == 0 {
                    return Err(DnsError::PointerLoop);
                }
                if !jumped {
                    self.pos = offset + 2;
                }
                jumped = true;
                jumps_left = jumps_left - 1;
                offset = target;
            } else {
                let lab_len = len as usize;
                if offset + 1 + lab_len > BUF_CAP {
                    return Err(DnsError::BufferExhausted);
                }
                if !first {
                    out.push(46);
                }
                let ghost base = out@;
                let ghost lab = lower_seq(b.subrange(offset + 1, offset + 1 + lab_len));
                let mut k: usize = 0;
                while k < lab_len
                    invariant
                        self.wf(),
                        self.bytes() == b,
                        k <= lab_len,
                        offset + 1 + lab_len <= BUF_CAP,
                        out@ =~= base + lower_seq(
                            b.subrange(offset as int + 1, offset + 1 + k as int),
                        ),
                    decreases lab_len - k,
                {
                    let bb = self.buf[offset + 1 + k];
                    let lb = if bb >= 65 && bb <= 90 {
                        bb + 32
                    } else {
                        bb
                    };
                    proof {
                        assert(lower_seq(b.subrange(offset as int + 1, offset + 1 + (k + 1) as int))
                            =~= lower_seq(b.subrange(offset as int + 1, offset + 1 + k as int)).push(
                            lower_byte(b[offset + 1 + k as int]),
                        ));
                    }
                    out.push(lb);
                    k = k + 1;
                }
                proof {
                    let rest_off = offset + 1 + lab_len;
                    assert(lab.len() == lab_len);
                    assert(out@ =~= out0 + join_names(acc, lab)) by {
                        if acc.len() == 0 {
                            assert(out@ =~= out0 + lab);
                        } else {
                            assert(out@ =~= out0 + (acc + seq![46u8] + lab));
                        }
                    }
                    match name_at(b, rest_off as int, jumps_left as nat) {
                        Ok(rest2) => {
                            lemma_join_assoc(acc, lab, rest2);
                        },
                        Err(_) => {},
                    }
                    acc = join_names(acc, lab);
                }
                first = false;
                offset = offset + 1 + lab_len;
            }
        }
    }

    /// Moves the cursor.
    pub fn seek(&mut self, pos: usize)
        requires
            old(self).wf(),
        ensures
            final(self).wf(),
            final(self).bytes() == old(self).bytes(),
            final(self).cursor() == pos,
    {
        self.pos = pos;
    }

    /// One byte written at the cursor; fails past the capacity.
    pub fn write(&mut self, data: u8) -> (r: Result<(), DnsError>)
        requires
            old(self).wf(),
        ensures
            final(self).wf(),
            match r {
                Ok(()) => old(self).cursor() < BUF_CAP
                    && final(self).bytes() == old(self).bytes().update(old(self).cursor(), data)
                    && final(self).cursor() == old(self).cursor() + 1,
                Err(e) => e == DnsError::BufferExhausted
                    && old(self).cursor() >= BUF_CAP
                    && final(self).bytes() == old(self).bytes()
                    && final(self).cursor() == old(self).cursor(),
            },
    {
        if self.pos >= BUF_CAP {
            return Err(DnsError::BufferExhausted);
        }
        self.buf[self.pos] = data;
        self.pos = self.pos + 1;
        Ok(())
    }

    /// Whether the tail of `q` from `start` on is an encodable name.
    pub(crate) fn check_name(q: &Vec<u8>, start: usize) -> (ok: bool)
        requires
            start <= q@.len(),
        ensures
            ok == encodable_name(q@.subrange(start as int, q@.len() as int)),
        decreases q@.len() - start,
    {
        let ghost s = q@.subrange(start as int, q@.len() as int);
        if start == q.len() {
            return true;
        }
        let mut j = start;
        while j < q.len() && *(&q[j]) != 46
            invariant
                start <= j && j <= q@.len(),
                forall|k: int| start <= k < j ==> q@[k] != 46,
            decreases q@.len() - j,
        {
            j = j + 1;
        }
        proof {
            assert forall|k: int| 0 <= k < j - start implies s[k] != 46 by {
                assert(s[k] == q@[start + k]);
            }
            if j < q@.len() {
                assert(s[j - start] == q@[j as int]);
            }
            lemma_first_dot_at(s, j - start);
        }
        let lab = j - start;
        if lab == 0 || lab > 63 {
            return false;
        }
        if j == q.len() {
            return true;
        }
        if j + 1 == q.len() {
            return false;
        }
        let r = Self::check_name(q, j + 1);
        proof {
            assert(q@.subrange(j + 1, q@.len() as int) =~= s.subrange(
                j - start + 1,
                s.len() as int,
            ));
        }
        r
    }

    /// Writes the labels of `q` from `start` on, then the terminating zero.
    /// The caller has checked the name and the space, so this cannot fail.
    fn write_labels(&mut self, q: &Vec<u8>, start: usize)
        requires
            old(self).wf(),
            start <= q@.len(),
            encodable_name(q@.subrange(start as int, q@.len() as int)),
            old(self).cursor() + wire_len(q@.subrange(start as int, q@.len() as int)) <= BUF_CAP,
            0 <= old(self).cursor(),
        ensures
            final(self).wf(),
            final(self).cursor() == old(self).cursor() + wire_len(
                q@.subrange(start as int, q@.len() as int),
            ),
            final(self).bytes().subrange(old(self).cursor(), final(self).cursor()) == name_wire(
                q@.subrange(start as int, q@.len() as int),
            ),
            forall|i: int|
                0 <= i < BUF_CAP && !(old(self).cursor() <= i < final(self).cursor())
                    ==> final(self).bytes()[i] == old(self).bytes()[i],
        decreases q@.len() - start,
    {
        let ghost s = q@.subrange(start as int, q@.len() as int);
        let ghost c0 = self.cursor();
        proof {
            lemma_name_wire_len(s);
        }
        if start == q.len() {
            let r = self.write(0);
            proof {
                assert(r is Ok);
                assert(self.bytes().subrange(c0, c0 + 1) =~= name_wire(s));
            }
            return ;
        }
        let mut j = start;
        while j < q.len() && *(&q[j]) != 46
            invariant
                start <= j && j <= q@.len(),
                forall|k: int| start <= k < j ==> q@[k] != 46,
            decreases q@.len() - j,
        {
            j = j + 1;
        }
        proof {
            assert forall|k: int| 0 <= k < j - start implies s[k] != 46 by {
                assert(s[k] == q@[start + k]);
            }
            if j < q@.len() {
                assert(s[j - start] == q@[j as int]);
            }
            lemma_first_dot_at(s, j - start);
        }
        let lab = j - start;
        let r = self.write(lab as u8);
        proof {
            assert(r is Ok);
        }
        let mut k: usize = 0;
        while k < lab
            invariant
                self.wf(),
                k <= lab,
                lab == j - start,
                start + lab <= q@.len(),
                0 <= c0,
                c0 + 1 + lab < BUF_CAP,
                self.cursor() == c0 + 1 + k,
                self.bytes()[c0] == lab as u8,
                forall|i: int|
                    0 <= i < k ==> self.bytes()[c0 + 1 + i] == #[trigger] q@[start + i],
                forall|i: int|
                    0 <= i < BUF_CAP && !(c0 <= i < c0 + 1 + k) ==> self.bytes()[i] == old(
                        self,
                    ).bytes()[i],
            decreases lab - k,
        {
            let r2 = self.write(q[start + k]);
            proof {
                assert(r2 is Ok);
            }
            k = k + 1;
        }
        if j == q.len() {
            let r3 = self.write(0);
            proof {
                assert(r3 is Ok);
                assert(first_dot(s) == s.len());
                assert(self.bytes().subrange(c0, c0 + wire_len(s)) =~= seq![lab as u8]
                    + s.subrange(0, lab as int) + seq![0u8]) by {
                    assert forall|i: int| 0 <= i < lab implies s.subrange(0, lab as int)[i]
                        == self.bytes()[c0 + 1 + i] by {
                        assert(s[i] == q@[start + i]);
                    }
                }
            }
            return ;
        }
        let ghost mid = self.bytes();
        proof {
            assert(s.subrange(j - start + 1, s.len() as int) =~= q@.subrange(
                j + 1,
                q@.len() as int,
            ));
            lemma_name_wire_len(s.subrange(j - start + 1, s.len() as int));
        }
        self.write_labels(q, j + 1);
        proof {
            let tail = q@.subrange(j + 1, q@.len() as int);
            assert(first_dot(s) == lab);
            assert(self.bytes().subrange(c0, c0 + wire_len(s)) =~= seq![lab as u8] + s.subrange(
                0,
                lab as int,
            ) + name_wire(tail)) by {
                assert(self.bytes()[c0] == mid[c0]);
                assert forall|i: int| 0 <= i < lab implies s.subrange(0, lab as int)[i]
                    == self.bytes()[c0 + 1 + i] by {
                    assert(s[i] == q@[start + i]);
                    assert(self.bytes()[c0 + 1 + i] == mid[c0 + 1 + i]);
                }
                assert(self.bytes().subrange(c0 + 1 + lab as int, c0 + wire_len(s)) =~= name_wire(
                    tail,
                ));
            }
        }
    }

    /// Encodes a dotted name at the cursor: each label's length and bytes,
    /// then a terminating zero; no compression. Rejects a name with an
    /// empty label or a label over 63 bytes, and a name that does not fit;
    /// on any failure nothing is written.
    pub fn write_qname(&mut self, qname: &Vec<u8>) -> (r: Result<(), DnsError>)
        requires
            old(self).wf(),
        ensures
            final(self).wf(),
            match r {
                Ok(()) => encodable_name(qname@) && old(self).cursor() + wire_len(qname@)
                    <= BUF_CAP && final(self).cursor() == old(self).cursor() + wire_len(qname@)
                    && final(self).bytes().subrange(old(self).cursor(), final(self).cursor())
                    == name_wire(qname@) && (forall|i: int|
                    0 <= i < BUF_CAP && !(old(self).cursor() <= i < final(self).cursor())
                        ==> final(self).bytes()[i] == old(self).bytes()[i]),
                Err(e) => *final(self) == *old(self) && ((e == DnsError::InvalidName
                    && !encodable_name(qname@)) || (e == DnsError::BufferExhausted
                    && encodable_name(qname@) && old(self).cursor() + wire_len(qname@) > BUF_CAP)),
            },
    {
        proof {
            assert(qname@.subrange(0, qname@.len() as int) =~= qname@);
        }
        if !Self::check_name(qname, 0) {
            return Err(DnsError::InvalidName);
        }
        let wl: usize = if qname.len() == 0 {
            1
        } else {
            if qname.len() > BUF_CAP {
                return Err(DnsError::BufferExhausted);
            }
            qname.len() + 2
        };
        if self.pos > BUF_CAP || BUF_CAP - self.pos < wl {
            return Err(DnsError::BufferExhausted);
        }
        self.write_labels(qname, 0);
        Ok(())
    }

    /// A big-endian 16-bit value written at the cursor.
    pub fn write_u16(&mut self, data: u16) -> (r: Result<(), DnsError>)
        requires
            old(self).wf(),
        ensures
            final(self).wf(),
            match r {
                Ok(()) => old(self).cursor() + 2 <= BUF_CAP && final(self).bytes()
                    =~= old(self).bytes().update(old(self).cursor(), (data / 256) as u8).update(
                    old(self).cursor() + 1,
                    (data % 256) as u8,
                ) && final(self).cursor() == old(self).cursor() + 2,
                Err(e) => e == DnsError::BufferExhausted && old(self).cursor() + 2 > BUF_CAP
                    && forall|i: int|
                    0 <= i < old(self).cursor() && i < BUF_CAP
                        ==> final(self).bytes()[i] == old(self).bytes()[i],
            },
    {
        self.write((data / 256) as u8)?;
        self.write((data % 256) as u8)?;
        Ok(())
    }

    /// A big-endian 32-bit value written at the cursor.
    #[verifier::rlimit(50)]
    pub fn write_u32(&mut self, data: u32) -> (r: Result<(), DnsError>)
        requires
            old(self).wf(),
        ensures
            final(self).wf(),
            match r {
                Ok(()) => old(self).cursor() + 4 <= BUF_CAP && final(self).bytes()
                    =~= old(self).bytes().update(old(self).cursor(), (data / 16777216) as u8).update(
                    old(self).cursor() + 1,
                    ((data / 65536) % 256) as u8,
                ).update(old(self).cursor() + 2, ((data / 256) % 256) as u8).update(
                    old(self).cursor() + 3,
                    (data % 256) as u8,
                ) && final(self).cursor() == old(self).cursor() + 4,
                Err(e) => e == DnsError::BufferExhausted && old(self).cursor() + 4 > BUF_CAP
                    && forall|i: int|
                    0 <= i < old(self).cursor() && i < BUF_CAP
                        ==> final(self).bytes()[i] == old(self).bytes()[i],
            },
    {
        let hi = (data / 65536) as u16;
        let lo = (data % 65536) as u16;
        self.write_u16(hi)?;
        self.write_u16(lo)?;
        Ok(())
    }
}

} // verus!
