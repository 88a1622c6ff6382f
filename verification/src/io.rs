//! The OctoMap map-file formats, as functions on bytes.
//!
//! Two formats, both a plain-text header followed by a binary payload:
//!
//! - **`.ot`**, the full tree: every node's 32-bit value verbatim (for an
//!   occupancy map, the bits of its `f32` log-odds), little-endian, then a
//!   byte saying which children follow.
//! - **`.bt`**, binary occupancy: two bits per child, so every voxel is only
//!   free or occupied.
//!
//! Reading and writing streams is the caller's business: everything here
//! takes or produces a byte buffer.

use vstd::prelude::*;
use vstd::string::StringSliceAdditionalSpecFns;
use crate::node::{Node, CHILD_COUNT};
use crate::tree::within_depth;

pub mod child_code;

verus! {

/// A payload or header that could not be decoded.
#[derive(Debug, Clone, PartialEq, Eq)]
pub enum FormatError {
    /// The first line was not the expected format marker.
    BadHeader {
        /// The marker the file should have started with.
        expected: &'static str,
    },
    /// The header ended before the `data` keyword.
    UnterminatedHeader,
    /// A required header field was missing.
    MissingField(&'static str),
    /// The file holds a tree type this crate does not implement; its id.
    UnsupportedTreeType(Vec<u8>),
    /// The node count in the header disagrees with the payload.
    SizeMismatch {
        /// Count the header declared.
        declared: usize,
        /// Count actually decoded.
        actual: usize,
    },
    /// The payload nested deeper than the tree depth allows.
    TooDeep {
        /// The depth limit that was exceeded.
        limit: u32,
    },
    /// The payload ended mid-node.
    UnexpectedEof,
}

// ---- byte cursor ------------------------------------------------------------

/// A read position in a byte buffer.
pub struct ByteReader<'a> {
    data: &'a [u8],
    pos: usize,
}

impl<'a> ByteReader<'a> {
    /// The whole buffer.
    pub closed spec fn spec_data(&self) -> Seq<u8> {
        self.data@
    }

    /// The read position.
    pub closed spec fn spec_pos(&self) -> usize {
        self.pos
    }

    /// The bytes not read yet.
    pub open spec fn rest(&self) -> Seq<u8> {
        self.spec_data().subrange(self.spec_pos() as int, self.spec_data().len() as int)
    }

    /// The position lies within the buffer.
    pub open spec fn wf(&self) -> bool {
        self.spec_pos() <= self.spec_data().len()
    }

    /// A reader at the start of `data`.
    pub fn new(data: &'a [u8]) -> (r: Self)
        ensures
            r.wf(),
            r.spec_data() == data@,
            r.spec_pos() == 0,
    {
        ByteReader { data, pos: 0 }
    }

    /// The read position.
    pub fn position(&self) -> (p: usize)
        ensures
            p == self.spec_pos(),
    {
        self.pos
    }
}

/// Reads one byte, or `None` if the buffer is already at its end.
pub fn read_optional_byte(reader: &mut ByteReader) -> (r: Option<u8>)
    requires
        old(reader).wf(),
    ensures
        final(reader).wf(),
        final(reader).spec_data() == old(reader).spec_data(),
        old(reader).rest().len() == 0 ==> r is None && final(reader).spec_pos() == old(reader).spec_pos(),
        old(reader).rest().len() > 0 ==> r == Some(old(reader).rest()[0]) && final(reader).spec_pos() == old(reader).spec_pos() + 1,
{
    if reader.pos < reader.data.len() {
        let b = reader.data[reader.pos];
        reader.pos = reader.pos + 1;
        Some(b)
    } else {
        None
    }
}

/// Reads exactly `n` bytes, or fails with [`FormatError::UnexpectedEof`]
/// without moving when fewer remain.
pub fn read_exact<'a>(reader: &mut ByteReader<'a>, n: usize) -> (r: Result<&'a [u8], FormatError>)
    requires
        old(reader).wf(),
    ensures
        final(reader).wf(),
        final(reader).spec_data() == old(reader).spec_data(),
        n <= old(reader).rest().len() ==> (r matches Ok(s) && s@ == old(reader).rest().subrange(
            0,
            n as int,
        ) && final(reader).spec_pos() == old(reader).spec_pos() + n),
        n > old(reader).rest().len() ==> r == Err::<&'a [u8], FormatError>(
            FormatError::UnexpectedEof,
        ) && final(reader).spec_pos() == old(reader).spec_pos(),
{
    if n > reader.data.len() - reader.pos {
        return Err(FormatError::UnexpectedEof);
    }
    let start = reader.pos;
    let s = vstd::slice::slice_subrange(reader.data, start, start + n);
    reader.pos = start + n;
    proof {
        assert(s@ =~= old(reader).rest().subrange(0, n as int));
    }
    Ok(s)
}

/// Index of the first `\n` in `s` at or after `from`, if any.
pub open spec fn newline_at(s: Seq<u8>, from: int) -> Option<int>
    decreases s.len() - from,
{
    if from < 0 || from >= s.len() {
        None
    } else if s[from] == 10 {
        Some(from)
    } else {
        newline_at(s, from + 1)
    }
}

/// `line` without one trailing `\r`, if it has one.
pub open spec fn strip_cr(line: Seq<u8>) -> Seq<u8> {
    if line.len() > 0 && line.last() == 13 {
        line.drop_last()
    } else {
        line
    }
}

/// Reads bytes up to the next `\n`, returning the line without it (and
/// without a `\r` before it). The last line of the buffer needs no `\n`.
///
/// Returns `None` at the end of the buffer with nothing read.
pub fn read_line(reader: &mut ByteReader) -> (r: Option<Vec<u8>>)
    requires
        old(reader).wf(),
    ensures
        final(reader).wf(),
        final(reader).spec_data() == old(reader).spec_data(),
        match newline_at(old(reader).rest(), 0) {
            Some(i) => r matches Some(line) && line@ == strip_cr(old(reader).rest().subrange(0, i))
                && final(reader).spec_pos() == old(reader).spec_pos() + i + 1,
            None => if old(reader).rest().len() == 0 {
                r is None && final(reader).spec_pos() == old(reader).spec_pos()
            } else {
                r matches Some(line) && line@ == old(reader).rest() && final(reader).spec_pos()
                    == old(reader).spec_data().len()
            },
        },
{
    let ghost rest = old(reader).rest();
    let start = reader.pos;
    let mut line: Vec<u8> = Vec::new();
    while reader.pos < reader.data.len()
        invariant
            reader.wf(),
            reader.spec_data() == old(reader).spec_data(),
            start == old(reader).spec_pos(),
            start <= reader.pos,
            rest == old(reader).rest(),
            line@ == rest.subrange(0, reader.pos - start),
            newline_at(rest, 0) == newline_at(rest, reader.pos - start),
        decreases reader.data.len() - reader.pos,
    {
        let b = reader.data[reader.pos];
        reader.pos = reader.pos + 1;
        if b == 10 {
            let n = line.len();
            if n > 0 && line[n - 1] == 13 {
                line.pop();
            }
            proof {
                assert(rest[(reader.pos - 1 - start) as int] == b);
            }
            return Some(line);
        }
        line.push(b);
        proof {
            assert(line@ =~= rest.subrange(0, reader.pos - start));
        }
    }
    proof {
        assert(line@ =~= rest);
    }
    if line.len() == 0 {
        None
    } else {
        Some(line)
    }
}

// ---- .ot, the full tree ------------------------------------------------------

/// The four little-endian bytes of `v`.
pub open spec fn le32_bytes(v: u32) -> Seq<u8> {
    seq![(v & 0xff) as u8, ((v >> 8u32) & 0xff) as u8, ((v >> 16u32) & 0xff) as u8, ((v >> 24u32) & 0xff) as u8]
}

/// The bits of the children in slots `0..n`: bit `i` set when child `i`
/// exists.
pub open spec fn mask_upto<T>(node: Node<T>, n: int) -> u8
    decreases n,
{
    if n <= 0 {
        0
    } else {
        let m = mask_upto(node, n - 1);
        if node.spec_child(n - 1) is Some {
            m | (1u8 << ((n - 1) as u8))
        } else {
            m
        }
    }
}

/// Bit `i` of `x` is set.
pub open spec fn bit_set(x: u8, i: int) -> bool {
    x & (1u8 << (i as u8)) != 0
}

/// The byte saying which of a node's eight children exist.
pub open spec fn child_mask<T>(node: Node<T>) -> u8 {
    mask_upto(node, 8)
}

/// The `.ot` encoding of the subtree of `node`: its value, its child mask,
/// then its children's encodings in slot order.
pub open spec fn full_bytes(node: Node<u32>) -> Seq<u8>
    decreases node, 9int,
{
    le32_bytes(node.spec_value()) + seq![child_mask(node)] + kids_full_bytes(node, 0)
}

/// The encodings of the children in slots `i..8`, concatenated.
pub open spec fn kids_full_bytes(node: Node<u32>, i: int) -> Seq<u8>
    decreases node, 8 - i,
{
    if 0 <= i < 8 {
        let here = match node.spec_child(i) {
            Some(c) => {
                proof {
                    node.lemma_child_decreases(i);
                }
                full_bytes(c)
            },
            None => Seq::empty(),
        };
        here + kids_full_bytes(node, i + 1)
    } else {
        Seq::empty()
    }
}

/// Where decoding a `.ot` node that starts at `pos`, on depth `depth`, ends,
/// or why it fails: nesting past `limit`, or running out of bytes.
pub open spec fn full_scan(data: Seq<u8>, pos: int, depth: nat, limit: nat) -> Result<int, FormatError>
    decreases limit + 1 - depth, 9int,
{
    if depth > limit {
        Err(FormatError::TooDeep { limit: limit as u32 })
    } else if pos < 0 || pos + 5 > data.len() {
        Err(FormatError::UnexpectedEof)
    } else {
        full_scan_kids(data, pos + 5, data[pos + 4], 0, depth, limit)
    }
}

/// Decoding the children that `mask` announces, from slot `i` on, starting
/// at `pos`.
pub open spec fn full_scan_kids(
    data: Seq<u8>,
    pos: int,
    mask: u8,
    i: int,
    depth: nat,
    limit: nat,
) -> Result<int, FormatError>
    decreases limit + 1 - depth, 8 - i,
{
    if i < 0 || i >= 8 || depth > limit {
        Ok(pos)
    } else if bit_set(mask, i) {
        match full_scan(data, pos, depth + 1, limit) {
            Err(e) => Err(e),
            Ok(p) => full_scan_kids(data, p, mask, i + 1, depth, limit),
        }
    } else {
        full_scan_kids(data, pos, mask, i + 1, depth, limit)
    }
}

proof fn lemma_le32_bytes(v: u32, b0: u8, b1: u8, b2: u8, b3: u8)
    requires
        v == (b0 as u32) | ((b1 as u32) << 8u32) | ((b2 as u32) << 16u32) | ((b3 as u32) << 24u32),
    ensures
        le32_bytes(v) == seq![b0, b1, b2, b3],
{
    assert((v & 0xff) as u8 == b0 && ((v >> 8u32) & 0xff) as u8 == b1 && ((v >> 16u32) & 0xff) as u8
        == b2 && ((v >> 24u32) & 0xff) as u8 == b3) by (bit_vector)
        requires
            v == (b0 as u32) | ((b1 as u32) << 8u32) | ((b2 as u32) << 16u32) | ((b3 as u32) << 24u32),
    ;
    assert(le32_bytes(v) =~= seq![b0, b1, b2, b3]);
}

/// Distinct values have distinct encodings.
proof fn lemma_le32_injective(a: u32, b: u32)
    requires
        le32_bytes(a) == le32_bytes(b),
    ensures
        a == b,
{
    assert(le32_bytes(a)[0] == le32_bytes(b)[0]);
    assert(le32_bytes(a)[1] == le32_bytes(b)[1]);
    assert(le32_bytes(a)[2] == le32_bytes(b)[2]);
    assert(le32_bytes(a)[3] == le32_bytes(b)[3]);
    assert(a == b) by (bit_vector)
        requires
            (a & 0xff) as u8 == (b & 0xff) as u8,
            ((a >> 8u32) & 0xff) as u8 == ((b >> 8u32) & 0xff) as u8,
            ((a >> 16u32) & 0xff) as u8 == ((b >> 16u32) & 0xff) as u8,
            ((a >> 24u32) & 0xff) as u8 == ((b >> 24u32) & 0xff) as u8,
    ;
}

/// Bit `i` of the partial mask is set exactly when child `i` exists and
/// `i < n`.
proof fn lemma_mask_upto_bit<T>(node: Node<T>, n: int, i: int)
    requires
        0 <= n <= 8,
        0 <= i < 8,
    ensures
        (mask_upto(node, n) & (1u8 << (i as u8)) != 0) == (i < n && node.spec_child(i) is Some),
    decreases n,
{
    if n > 0 {
        lemma_mask_upto_bit(node, n - 1, i);
        let m = mask_upto(node, n - 1);
        let j = (n - 1) as u8;
        let k = i as u8;
        assert(((m | (1u8 << j)) & (1u8 << k) != 0) == ((m & (1u8 << k) != 0) || k == j))
            by (bit_vector)
            requires
                j < 8,
                k < 8,
        ;
    } else {
        let k = i as u8;
        assert((0u8 & (1u8 << k)) == 0) by (bit_vector);
    }
}

/// Bit `i` of a node's child mask says whether child `i` exists.
proof fn lemma_child_mask_bit<T>(node: Node<T>, i: int)
    requires
        0 <= i < 8,
    ensures
        bit_set(child_mask(node), i) == node.spec_child(i) is Some,
{
    lemma_mask_upto_bit(node, 8, i);
}

/// Two bytes that agree on all eight bits are equal.
proof fn lemma_byte_bits_equal(x: u8, y: u8)
    requires
        forall|i: int| 0 <= i < 8 ==> bit_set(x, i) == #[trigger] bit_set(y, i),
    ensures
        x == y,
{
    assert(bit_set(x, 0) == bit_set(y, 0));
    assert(bit_set(x, 1) == bit_set(y, 1));
    assert(bit_set(x, 2) == bit_set(y, 2));
    assert(bit_set(x, 3) == bit_set(y, 3));
    assert(bit_set(x, 4) == bit_set(y, 4));
    assert(bit_set(x, 5) == bit_set(y, 5));
    assert(bit_set(x, 6) == bit_set(y, 6));
    assert(bit_set(x, 7) == bit_set(y, 7));
    assert((x & (1u8 << 0u8) != 0) == (y & (1u8 << 0u8) != 0));
    assert((x & (1u8 << 1u8) != 0) == (y & (1u8 << 1u8) != 0));
    assert((x & (1u8 << 2u8) != 0) == (y & (1u8 << 2u8) != 0));
    assert((x & (1u8 << 3u8) != 0) == (y & (1u8 << 3u8) != 0));
    assert((x & (1u8 << 4u8) != 0) == (y & (1u8 << 4u8) != 0));
    assert((x & (1u8 << 5u8) != 0) == (y & (1u8 << 5u8) != 0));
    assert((x & (1u8 << 6u8) != 0) == (y & (1u8 << 6u8) != 0));
    assert((x & (1u8 << 7u8) != 0) == (y & (1u8 << 7u8) != 0));
    assert(x == y) by (bit_vector)
        requires
            (x & (1u8 << 0u8) != 0) == (y & (1u8 << 0u8) != 0),
            (x & (1u8 << 1u8) != 0) == (y & (1u8 << 1u8) != 0),
            (x & (1u8 << 2u8) != 0) == (y & (1u8 << 2u8) != 0),
            (x & (1u8 << 3u8) != 0) == (y & (1u8 << 3u8) != 0),
            (x & (1u8 << 4u8) != 0) == (y & (1u8 << 4u8) != 0),
            (x & (1u8 << 5u8) != 0) == (y & (1u8 << 5u8) != 0),
            (x & (1u8 << 6u8) != 0) == (y & (1u8 << 6u8) != 0),
            (x & (1u8 << 7u8) != 0) == (y & (1u8 << 7u8) != 0),
    ;
}

/// Children from slot `j` on that do not exist contribute no bytes.
proof fn lemma_kids_full_bytes_empty(node: Node<u32>, j: int)
    requires
        forall|k: int| j <= k ==> #[trigger] node.spec_child(k) is None,
    ensures
        kids_full_bytes(node, j) =~= Seq::empty(),
    decreases 8 - j,
{
    if 0 <= j < 8 {
        lemma_kids_full_bytes_empty(node, j + 1);
    } else if j < 0 {
        lemma_kids_full_bytes_empty(node, j + 1);
    }
}

/// Filling the last slot of a node whose later slots are empty appends the
/// new child's bytes.
proof fn lemma_kids_full_bytes_append(a: Node<u32>, b: Node<u32>, i: int, c: Node<u32>, j: int)
    requires
        0 <= j <= i < 8,
        a.spec_child(i) is None,
        b.spec_child(i) == Some(c),
        forall|k: int| k != i ==> #[trigger] b.spec_child(k) == a.spec_child(k),
        forall|k: int| i < k ==> #[trigger] a.spec_child(k) is None,
    ensures
        kids_full_bytes(b, j) =~= kids_full_bytes(a, j) + full_bytes(c),
    decreases i - j,
{
    lemma_kids_full_bytes_empty(a, i + 1);
    assert forall|k: int| i + 1 <= k implies #[trigger] b.spec_child(k) is None by {
        assert(b.spec_child(k) == a.spec_child(k));
    }
    lemma_kids_full_bytes_empty(b, i + 1);
    if j < i {
        lemma_kids_full_bytes_append(a, b, i, c, j + 1);
        assert(b.spec_child(j) == a.spec_child(j));
    }
}

/// Appends the `.ot` encoding of the subtree of `node`.
pub fn write_full_node(node: &Node<u32>, out: &mut Vec<u8>)
    requires
        node.wf(),
    ensures
        final(out)@ == old(out)@ + full_bytes(*node),
    decreases node,
{
    let v = *node.value();
    out.push(#[verifier::truncate] ((v & 0xff) as u8));
    out.push(#[verifier::truncate] (((v >> 8u32) & 0xff) as u8));
    out.push(#[verifier::truncate] (((v >> 16u32) & 0xff) as u8));
    out.push(#[verifier::truncate] (((v >> 24u32) & 0xff) as u8));
    let mut mask: u8 = 0;
    let mut i: u8 = 0;
    while i < 8
        invariant
            i <= 8,
            node.wf(),
            mask == mask_upto(*node, i as int),
        decreases 8 - i,
    {
        if node.child_exists(i) {
            mask = mask | (1u8 << i);
        }
        i += 1;
    }
    out.push(mask);
    proof {
        assert(out@ =~= old(out)@ + le32_bytes(v) + seq![child_mask(*node)]);
    }
    let ghost head = out@;
    let mut i: u8 = 0;
    while i < 8
        invariant
            i <= 8,
            node.wf(),
            head == old(out)@ + le32_bytes(v) + seq![child_mask(*node)],
            v == node.spec_value(),
            out@ + kids_full_bytes(*node, i as int) == head + kids_full_bytes(*node, 0),
        decreases 8 - i,
    {
        let ghost before = out@;
        proof {
            node.lemma_wf_facts();
            node.lemma_child_decreases(i as int);
        }
        if let Some(child) = node.child(i) {
            write_full_node(child, out);
            proof {
                assert(out@ + kids_full_bytes(*node, i + 1) =~= before + kids_full_bytes(
                    *node,
                    i as int,
                ));
            }
        } else {
            proof {
                assert(kids_full_bytes(*node, i as int) =~= kids_full_bytes(*node, i + 1));
            }
        }
        i += 1;
    }
    proof {
        assert(kids_full_bytes(*node, 8) =~= Seq::<u8>::empty());
        assert(out@ =~= old(out)@ + full_bytes(*node));
    }
}

/// A successful decode consumes at least the value and the mask.
proof fn lemma_full_scan_advances(data: Seq<u8>, pos: int, depth: nat, limit: nat)
    ensures
        full_scan(data, pos, depth, limit) matches Ok(e) ==> pos + 5 <= e,
    decreases limit + 1 - depth, 9int,
{
    if depth <= limit && 0 <= pos && pos + 5 <= data.len() {
        lemma_full_scan_kids_advances(data, pos + 5, data[pos + 4], 0, depth, limit);
    }
}

proof fn lemma_full_scan_kids_advances(
    data: Seq<u8>,
    pos: int,
    mask: u8,
    i: int,
    depth: nat,
    limit: nat,
)
    ensures
        full_scan_kids(data, pos, mask, i, depth, limit) matches Ok(e) ==> pos <= e,
    decreases limit + 1 - depth, 8 - i,
{
    if 0 <= i < 8 && depth <= limit {
        if bit_set(mask, i) {
            lemma_full_scan_advances(data, pos, depth + 1, limit);
            if let Ok(p) = full_scan(data, pos, depth + 1, limit) {
                lemma_full_scan_kids_advances(data, p, mask, i + 1, depth, limit);
            }
        } else {
            lemma_full_scan_kids_advances(data, pos, mask, i + 1, depth, limit);
        }
    }
}

/// Decodes one `.ot` node, and everything below it, from the reader's
/// position; the node lies at depth `depth` and nothing may nest below
/// `limit`.
///
/// On success the reader has moved past exactly the bytes that encode the
/// returned subtree.
pub fn read_full_node(reader: &mut ByteReader, depth: u32, limit: u32) -> (r: Result<
    Node<u32>,
    FormatError,
>)
    requires
        old(reader).wf(),
        limit < u32::MAX,
    ensures
        final(reader).wf(),
        final(reader).spec_data() == old(reader).spec_data(),
        match full_scan(old(reader).spec_data(), old(reader).spec_pos() as int, depth as nat, limit as nat) {
            Ok(end) => r matches Ok(n) && {
                &&& n.wf()
                &&& within_depth(n, depth as nat, limit as nat)
                &&& final(reader).spec_pos() == end
                &&& old(reader).spec_data().subrange(old(reader).spec_pos() as int, end)
                    == full_bytes(n)
            },
            Err(e) => r == Err::<Node<u32>, FormatError>(e),
        },
    decreases limit + 1 - depth,
{
    let ghost data = reader.spec_data();
    let ghost start = reader.spec_pos() as int;
    if depth > limit {
        return Err(FormatError::TooDeep { limit });
    }
    let value_bytes = match read_exact(reader, 4) {
        Ok(b) => b,
        Err(e) => {
            return Err(e);
        },
    };
    let value: u32 = (value_bytes[0] as u32) | ((value_bytes[1] as u32) << 8u32) | ((
    value_bytes[2] as u32) << 16u32) | ((value_bytes[3] as u32) << 24u32);
    let mask_bytes = match read_exact(reader, 1) {
        Ok(b) => b,
        Err(e) => {
            return Err(e);
        },
    };
    let mask = mask_bytes[0];
    proof {
        lemma_le32_bytes(value, value_bytes[0], value_bytes[1], value_bytes[2], value_bytes[3]);
        assert(data[start + 4] == mask);
    }
    let mut node = Node::new(value);
    proof {
        node.lemma_wf_facts();
        lemma_kids_full_bytes_empty(node, 0);
        assert(data.subrange(start + 5, start + 5) =~= Seq::<u8>::empty());
    }
    let mut i: u8 = 0;
    while i < 8
        invariant
            i <= 8,
            depth <= limit < u32::MAX,
            data == old(reader).spec_data(),
            start == old(reader).spec_pos(),
            depth >= limit ==> forall|j: int| 0 <= j < i ==> #[trigger] node.spec_child(j) is None,
            reader.wf(),
            reader.spec_data() == data,
            0 <= start,
            start + 5 <= reader.spec_pos(),
            data[start + 4] == mask,
            full_scan(data, start, depth as nat, limit as nat) == full_scan_kids(
                data,
                reader.spec_pos() as int,
                mask,
                i as int,
                depth as nat,
                limit as nat,
            ),
            node.wf(),
            node.spec_value() == value,
            le32_bytes(value) == data.subrange(start, start + 4),
            forall|j: int| i <= j ==> #[trigger] node.spec_child(j) is None,
            forall|j: int| 0 <= j < i ==> (#[trigger] node.spec_child(j) is Some) == bit_set(mask, j),
            forall|j: int|
                0 <= j < i ==> (#[trigger] node.spec_child(j) matches Some(c) ==> within_depth(
                    c,
                    depth as nat + 1,
                    limit as nat,
                )),
            data.subrange(start + 5, reader.spec_pos() as int) == kids_full_bytes(node, 0),
        decreases 8 - i,
    {
        let ghost before = node;
        let ghost p = reader.spec_pos() as int;
        if mask & (1u8 << i) != 0 {
            let child = match read_full_node(reader, depth + 1, limit) {
                Ok(c) => c,
                Err(e) => {
                    return Err(e);
                },
            };
            let ghost q = reader.spec_pos() as int;
            proof {
                lemma_full_scan_advances(data, p, depth as nat + 1, limit as nat);
            }
            node.create_child(i, 0u32);
            match node.child_mut(i) {
                Some(c) => {
                    *c = child;
                },
                None => {},
            }
            proof {
                node.lemma_wf_facts();
                before.lemma_wf_facts();
                lemma_kids_full_bytes_append(before, node, i as int, child, 0);
                assert(data.subrange(start + 5, q) =~= data.subrange(start + 5, p) + data.subrange(p, q));
                assert forall|j: int| i + 1 <= j implies #[trigger] node.spec_child(j) is None by {
                    assert(node.spec_child(j) == before.spec_child(j));
                }
            }
        } else {
            proof {
                assert(!bit_set(mask, i as int));
            }
        }
        i += 1;
    }
    proof {
        assert(kids_full_bytes(node, 0) == data.subrange(start + 5, reader.spec_pos() as int));
        assert forall|j: int| 0 <= j < 8 implies bit_set(child_mask(node), j) == #[trigger] bit_set(mask, j) by {
            lemma_child_mask_bit(node, j);
        }
        lemma_byte_bits_equal(child_mask(node), mask);
        assert(data.subrange(start, reader.spec_pos() as int) =~= data.subrange(start, start + 4)
            + seq![mask] + data.subrange(start + 5, reader.spec_pos() as int));
        node.lemma_wf_facts();
        if depth >= limit {
            assert(!node.spec_has_children());
        }
    }
    Ok(node)
}

/// Decoding the encoding of a subtree that nests no deeper than the limit
/// succeeds and consumes exactly that encoding.
proof fn lemma_full_scan_encoding(n: Node<u32>, data: Seq<u8>, pos: int, depth: nat, limit: nat)
    requires
        n.wf(),
        within_depth(n, depth, limit),
        depth <= limit,
        0 <= pos,
        pos + full_bytes(n).len() <= data.len(),
        data.subrange(pos, pos + full_bytes(n).len()) == full_bytes(n),
    ensures
        full_scan(data, pos, depth, limit) == Ok::<int, FormatError>(pos + full_bytes(n).len()),
    decreases n, 9int,
{
    let k = kids_full_bytes(n, 0);
    assert(full_bytes(n) =~= le32_bytes(n.spec_value()) + seq![child_mask(n)] + k);
    assert(data[pos + 4] == full_bytes(n)[4]);
    assert(data.subrange(pos + 5, pos + 5 + k.len()) =~= k) by {
        assert(data.subrange(pos + 5, pos + 5 + k.len()) =~= data.subrange(pos, pos + full_bytes(n).len()).subrange(5, 5 + k.len() as int));
    }
    lemma_full_scan_kids_encoding(n, data, pos + 5, 0, depth, limit);
}

proof fn lemma_full_scan_kids_encoding(
    n: Node<u32>,
    data: Seq<u8>,
    pos: int,
    i: int,
    depth: nat,
    limit: nat,
)
    requires
        n.wf(),
        within_depth(n, depth, limit),
        depth <= limit,
        0 <= i <= 8,
        0 <= pos,
        pos + kids_full_bytes(n, i).len() <= data.len(),
        data.subrange(pos, pos + kids_full_bytes(n, i).len()) == kids_full_bytes(n, i),
    ensures
        full_scan_kids(data, pos, child_mask(n), i, depth, limit) == Ok::<int, FormatError>(
            pos + kids_full_bytes(n, i).len(),
        ),
    decreases n, 8 - i,
{
    if i < 8 {
        lemma_child_mask_bit(n, i);
        n.lemma_wf_facts();
        let rest = kids_full_bytes(n, i + 1);
        match n.spec_child(i) {
            Some(c) => {
                n.lemma_child_decreases(i);
                let f = full_bytes(c);
                assert(kids_full_bytes(n, i) =~= f + rest);
                assert(data.subrange(pos, pos + f.len()) =~= kids_full_bytes(n, i).subrange(0, f.len() as int)) by {
                    assert(data.subrange(pos, pos + f.len()) =~= data.subrange(pos, pos + kids_full_bytes(n, i).len()).subrange(0, f.len() as int));
                }
                assert(depth < limit) by {
                    if depth >= limit {
                        assert(n.spec_has_children());
                    }
                }
                assert(kids_full_bytes(n, i).subrange(0, f.len() as int) =~= f);
                assert(data.subrange(pos, pos + f.len()) == f);
                lemma_full_scan_encoding(c, data, pos, depth + 1, limit);
                assert(data.subrange(pos + f.len(), pos + f.len() + rest.len()) =~= rest) by {
                    assert(data.subrange(pos + f.len(), pos + f.len() + rest.len()) =~= data.subrange(pos, pos + kids_full_bytes(n, i).len()).subrange(f.len() as int, kids_full_bytes(n, i).len() as int));
                }
                lemma_full_scan_kids_encoding(n, data, pos + f.len(), i + 1, depth, limit);
            },
            None => {
                assert(kids_full_bytes(n, i) =~= rest);
                lemma_full_scan_kids_encoding(n, data, pos, i + 1, depth, limit);
            },
        }
    }
}

/// Two subtrees whose encodings open two equal byte strings are the same
/// subtree, and what follows the encodings is equal too.
proof fn lemma_full_bytes_injective(a: Node<u32>, b: Node<u32>, sa: Seq<u8>, sb: Seq<u8>)
    requires
        a.wf(),
        b.wf(),
        full_bytes(a) + sa == full_bytes(b) + sb,
    ensures
        a.same_tree(b),
        sa == sb,
    decreases a, 9int,
{
    let ka = kids_full_bytes(a, 0);
    let kb = kids_full_bytes(b, 0);
    let xa = full_bytes(a) + sa;
    let xb = full_bytes(b) + sb;
    assert(xa =~= le32_bytes(a.spec_value()) + (seq![child_mask(a)] + (ka + sa)));
    assert(xb =~= le32_bytes(b.spec_value()) + (seq![child_mask(b)] + (kb + sb)));
    assert(le32_bytes(a.spec_value()) =~= xa.subrange(0, 4));
    assert(le32_bytes(b.spec_value()) =~= xb.subrange(0, 4));
    lemma_le32_injective(a.spec_value(), b.spec_value());
    assert(xa[4] == child_mask(a));
    assert(xb[4] == child_mask(b));
    assert(ka + sa =~= xa.subrange(5, xa.len() as int));
    assert(kb + sb =~= xb.subrange(5, xb.len() as int));
    assert forall|i: int| 0 <= i < 8 implies (#[trigger] a.spec_child(i) is Some) == b.spec_child(
        i,
    ) is Some by {
        lemma_child_mask_bit(a, i);
        lemma_child_mask_bit(b, i);
    }
    lemma_full_kids_injective(a, b, sa, sb, 0);
}

proof fn lemma_full_kids_injective(a: Node<u32>, b: Node<u32>, sa: Seq<u8>, sb: Seq<u8>, i: int)
    requires
        a.wf(),
        b.wf(),
        0 <= i <= 8,
        forall|j: int| 0 <= j < 8 ==> (#[trigger] a.spec_child(j) is Some) == b.spec_child(j) is Some,
        kids_full_bytes(a, i) + sa == kids_full_bytes(b, i) + sb,
    ensures
        a.same_kids(b, i),
        sa == sb,
    decreases a, 8 - i,
{
    if i < 8 {
        a.lemma_wf_facts();
        b.lemma_wf_facts();
        let ra = kids_full_bytes(a, i + 1);
        let rb = kids_full_bytes(b, i + 1);
        match a.spec_child(i) {
            Some(x) => {
                let y = b.spec_child(i).unwrap();
                a.lemma_child_decreases(i);
                assert(kids_full_bytes(a, i) + sa =~= full_bytes(x) + (ra + sa));
                assert(kids_full_bytes(b, i) + sb =~= full_bytes(y) + (rb + sb));
                lemma_full_bytes_injective(x, y, ra + sa, rb + sb);
                lemma_full_kids_injective(a, b, sa, sb, i + 1);
            },
            None => {
                assert(b.spec_child(i) is None);
                assert(kids_full_bytes(a, i) =~= ra);
                assert(kids_full_bytes(b, i) =~= rb);
                lemma_full_kids_injective(a, b, sa, sb, i + 1);
            },
        }
    } else {
        assert(kids_full_bytes(a, i) =~= Seq::<u8>::empty());
        assert(kids_full_bytes(b, i) =~= Seq::<u8>::empty());
        assert(sa =~= kids_full_bytes(a, i) + sa);
        assert(sb =~= kids_full_bytes(b, i) + sb);
    }
}

/// Reading back what `write_full_node` wrote gives the same subtree: on a
/// buffer that starts with the encoding of a subtree nesting no deeper than
/// the limit, the decoder succeeds, consumes exactly the encoding, and any
/// well-formed subtree with that encoding (which is what the decoder
/// returns) is the original one.
pub proof fn law_full_round_trip(n: Node<u32>, data: Seq<u8>, limit: nat, decoded: Node<u32>)
    requires
        n.wf(),
        within_depth(n, 0, limit),
        full_bytes(n).len() <= data.len(),
        data.subrange(0, full_bytes(n).len() as int) == full_bytes(n),
        decoded.wf(),
        data.subrange(0, full_bytes(n).len() as int) == full_bytes(decoded),
    ensures
        full_scan(data, 0, 0, limit) == Ok::<int, FormatError>(full_bytes(n).len() as int),
        decoded.same_tree(n),
{
    lemma_full_scan_encoding(n, data, 0, 0, limit);
    lemma_full_bytes_injective(decoded, n, Seq::empty(), Seq::empty());
    assert(full_bytes(decoded) + Seq::<u8>::empty() =~= full_bytes(n) + Seq::<u8>::empty());
}

// ---- .bt, binary occupancy ----------------------------------------------------

/// What a decoded `.bt` node holds, in increasing order: no value at all
/// (an inner node without children), free, occupied.
///
/// An occupancy map stores these as its lowest representable log-odds, its
/// lower clamp and its upper clamp.
#[derive(Debug, Clone, Copy, PartialEq, Eq, Structural)]
pub enum CellState {
    /// An inner node whose descriptors announced no children.
    Unset,
    /// A free leaf.
    Free,
    /// An occupied leaf, or an inner node above one.
    Occupied,
}

/// The rank of a state in the order `Unset < Free < Occupied`.
pub open spec fn rank(c: CellState) -> int {
    match c {
        CellState::Unset => 0,
        CellState::Free => 1,
        CellState::Occupied => 2,
    }
}

/// The larger of two states.
pub open spec fn spec_cell_max(a: CellState, b: CellState) -> CellState {
    if rank(a) >= rank(b) {
        a
    } else {
        b
    }
}

/// The largest value among the children in slots `0..n`, `Unset` when
/// there are none.
pub open spec fn max_upto(node: Node<CellState>, n: int) -> CellState
    decreases n,
{
    if n <= 0 {
        CellState::Unset
    } else {
        let m = max_upto(node, n - 1);
        match node.spec_child(n - 1) {
            Some(c) => spec_cell_max(m, c.spec_value()),
            None => m,
        }
    }
}

/// `a` is at least `b` in the order `Unset < Free < Occupied`.
pub open spec fn covers(a: CellState, b: CellState) -> bool {
    b == CellState::Unset || a == b || a == CellState::Occupied
}

/// Combining two states gives their least upper bound in the order
/// `Unset < Free < Occupied`: one of the two, at least as high as either.
pub proof fn law_cell_max_least_upper_bound(a: CellState, b: CellState)
    ensures
        covers(spec_cell_max(a, b), a),
        covers(spec_cell_max(a, b), b),
        spec_cell_max(a, b) == a || spec_cell_max(a, b) == b,
        forall|c: CellState| covers(c, a) && covers(c, b) ==> #[trigger] covers(c, spec_cell_max(a, b)),
{
}

/// The value an inner node takes on reading, `max_upto(node, 8)`, covers
/// every child's state, and is `Unset` or the state of some child: an inner
/// node above a free leaf is never `Unset`, one above an occupied leaf is
/// `Occupied`.
pub proof fn law_inner_value_is_largest_child(node: Node<CellState>)
    ensures
        forall|i: int|
            0 <= i < 8 && #[trigger] node.spec_child(i) is Some ==> covers(
                max_upto(node, 8),
                node.spec_child(i).unwrap().spec_value(),
            ),
        max_upto(node, 8) == CellState::Unset || exists|i: int|
            0 <= i < 8 && #[trigger] node.spec_child(i) is Some && node.spec_child(i).unwrap().spec_value()
                == max_upto(node, 8),
{
    lemma_max_upto_covers(node, 8);
}

proof fn lemma_max_upto_covers(node: Node<CellState>, n: int)
    requires
        0 <= n <= 8,
    ensures
        forall|i: int|
            0 <= i < n && #[trigger] node.spec_child(i) is Some ==> covers(
                max_upto(node, n),
                node.spec_child(i).unwrap().spec_value(),
            ),
        max_upto(node, n) == CellState::Unset || exists|i: int|
            0 <= i < n && #[trigger] node.spec_child(i) is Some && node.spec_child(i).unwrap().spec_value()
                == max_upto(node, n),
    decreases n,
{
    if n > 0 {
        lemma_max_upto_covers(node, n - 1);
        let m = max_upto(node, n - 1);
        if let Some(c) = node.spec_child(n - 1) {
            law_cell_max_least_upper_bound(m, c.spec_value());
            let r = max_upto(node, n);
            assert forall|i: int|
                0 <= i < n && #[trigger] node.spec_child(i) is Some implies covers(
                r,
                node.spec_child(i).unwrap().spec_value(),
            ) by {
                if i < n - 1 {
                    assert(covers(m, node.spec_child(i).unwrap().spec_value()));
                }
            }
            if r != CellState::Unset {
                if r == c.spec_value() {
                    assert(node.spec_child(n - 1) is Some);
                } else {
                    let w = choose|i: int|
                        0 <= i < n - 1 && #[trigger] node.spec_child(i) is Some
                            && node.spec_child(i).unwrap().spec_value() == m;
                    assert(node.spec_child(w) is Some);
                }
            }
        } else {
            assert forall|i: int|
                0 <= i < n && #[trigger] node.spec_child(i) is Some implies covers(
                max_upto(node, n),
                node.spec_child(i).unwrap().spec_value(),
            ) by {
                if i < n - 1 {
                    assert(covers(m, node.spec_child(i).unwrap().spec_value()));
                }
            }
            if m != CellState::Unset {
                let w = choose|i: int|
                    0 <= i < n - 1 && #[trigger] node.spec_child(i) is Some
                        && node.spec_child(i).unwrap().spec_value() == m;
                assert(node.spec_child(w) is Some);
            }
        }
    }
}

/// `v` is the largest of the states of `n`'s children: it covers each of
/// them, and is `Unset` or the state of one of them.
pub open spec fn is_largest_child_state(n: Node<CellState>, v: CellState) -> bool {
    &&& forall|i: int|
        0 <= i < 8 && #[trigger] n.spec_child(i) is Some ==> covers(v, n.spec_child(i).unwrap().spec_value())
    &&& v == CellState::Unset || exists|i: int|
        0 <= i < 8 && #[trigger] n.spec_child(i) is Some && n.spec_child(i).unwrap().spec_value() == v
}

/// Every node strictly below `n` that has children holds the largest of
/// its children's states.
pub open spec fn inner_values_cover(n: Node<CellState>) -> bool
    decreases n, 9int,
{
    kids_inner_values_cover(n, 0)
}

/// [`inner_values_cover`] for the children in slots `i..8`.
pub open spec fn kids_inner_values_cover(n: Node<CellState>, i: int) -> bool
    decreases n, 8 - i,
{
    if 0 <= i < 8 {
        let here = match n.spec_child(i) {
            Some(c) => {
                proof {
                    n.lemma_child_decreases(i);
                }
                (c.spec_has_children() ==> is_largest_child_state(c, c.spec_value()))
                    && inner_values_cover(c)
            },
            None => true,
        };
        here && kids_inner_values_cover(n, i + 1)
    } else {
        true
    }
}

proof fn lemma_childless_covers(n: Node<CellState>, i: int)
    requires
        forall|j: int| #[trigger] n.spec_child(j) is None,
    ensures
        kids_inner_values_cover(n, i),
    decreases 8 - i,
{
    if 0 <= i < 8 {
        lemma_childless_covers(n, i + 1);
        assert(n.spec_child(i) is None);
    }
}

/// Reading a `.bt` payload gives every inner node below the root the
/// largest of its children's states, in the order `Unset < Free <
/// Occupied`: never less than any child, and never more than all of them.
pub proof fn law_decoded_inner_values(n: Node<CellState>, data: Seq<u8>, pos: int, depth: nat, limit: nat)
    requires
        bt_decoded(n, data, pos, depth, limit),
    ensures
        inner_values_cover(n),
    decreases limit + 1 - depth, 9int,
{
    lemma_decoded_kids_inner_values(n, data, pos + 2, data[pos], data[pos + 1], 0, depth, limit);
}

proof fn lemma_decoded_kids_inner_values(
    n: Node<CellState>,
    data: Seq<u8>,
    p: int,
    d0: u8,
    d1: u8,
    i: int,
    depth: nat,
    limit: nat,
)
    requires
        0 <= i <= 8,
        depth <= limit,
        bt_decoded_kids(n, data, p, d0, d1, i, depth, limit),
    ensures
        kids_inner_values_cover(n, i),
    decreases limit + 1 - depth, 8 - i,
{
    if i < 8 {
        lemma_code_in_bound(d0, d1, i);
        let code = code_in(d0, d1, i);
        if code == child_code::INNER {
            let c = n.spec_child(i).unwrap();
            let q = bt_scan(data, p, depth + 1, limit)->Ok_0;
            law_decoded_inner_values(c, data, p, depth + 1, limit);
            law_inner_value_is_largest_child(c);
            assert(c.spec_value() == max_upto(c, 8));
            assert(is_largest_child_state(c, c.spec_value()));
            lemma_decoded_kids_inner_values(n, data, q, d0, d1, i + 1, depth, limit);
        } else {
            lemma_decoded_kids_inner_values(n, data, p, d0, d1, i + 1, depth, limit);
            if code != child_code::UNKNOWN {
                let c = n.spec_child(i).unwrap();
                lemma_childless_covers(c, 0);
                assert(inner_values_cover(c));
                assert(!c.spec_has_children());
            }
        }
    }
}

/// The code child slot `c` contributes, for a tree whose values say whether
/// a leaf is occupied.
pub open spec fn child_code_of(c: Option<Node<bool>>) -> u8 {
    match c {
        None => child_code::UNKNOWN,
        Some(n) => if n.spec_has_children() {
            child_code::INNER
        } else if n.spec_value() {
            child_code::OCCUPIED
        } else {
            child_code::FREE
        },
    }
}

/// The codes of the children in slots `base..base + k`, packed two bits
/// each, the lower slot in the lower bits.
pub open spec fn desc_upto(node: Node<bool>, base: int, k: int) -> u8
    decreases k,
{
    if k <= 0 {
        0
    } else {
        desc_upto(node, base, k - 1) | (child_code_of(node.spec_child(base + k - 1)) << ((2 * (k
            - 1)) as u8))
    }
}

/// The descriptor byte of children `base..base + 4`.
pub open spec fn descriptor(node: Node<bool>, base: int) -> u8 {
    desc_upto(node, base, 4)
}

/// The code a descriptor byte holds for its `i`th child.
pub open spec fn code_at(d: u8, i: int) -> u8 {
    (d >> ((2 * i) as u8)) & 3
}

/// The code of child `i` in a pair of descriptor bytes.
pub open spec fn code_in(d0: u8, d1: u8, i: int) -> u8 {
    if i < 4 {
        code_at(d0, i)
    } else {
        code_at(d1, i - 4)
    }
}

/// The `.bt` encoding of the subtree of `node`, whose values say which
/// leaves are occupied: two descriptor bytes, then the encodings of the
/// children that have children of their own, in slot order.
pub open spec fn bt_bytes(node: Node<bool>) -> Seq<u8>
    decreases node, 9int,
{
    seq![descriptor(node, 0), descriptor(node, 4)] + kids_bt_bytes(node, 0)
}

/// The encodings of the inner children in slots `i..8`, concatenated.
pub open spec fn kids_bt_bytes(node: Node<bool>, i: int) -> Seq<u8>
    decreases node, 8 - i,
{
    if 0 <= i < 8 {
        let here = match node.spec_child(i) {
            Some(c) => {
                proof {
                    node.lemma_child_decreases(i);
                }
                if c.spec_has_children() {
                    bt_bytes(c)
                } else {
                    Seq::empty()
                }
            },
            None => Seq::empty(),
        };
        here + kids_bt_bytes(node, i + 1)
    } else {
        Seq::empty()
    }
}

/// Where decoding a `.bt` node that starts at `pos`, on depth `depth`, ends,
/// or why it fails.
pub open spec fn bt_scan(data: Seq<u8>, pos: int, depth: nat, limit: nat) -> Result<int, FormatError>
    decreases limit + 1 - depth, 9int,
{
    if depth > limit {
        Err(FormatError::TooDeep { limit: limit as u32 })
    } else if pos < 0 || pos + 2 > data.len() {
        Err(FormatError::UnexpectedEof)
    } else {
        bt_scan_kids(data, pos + 2, data[pos], data[pos + 1], 0, depth, limit)
    }
}

/// Decoding the inner children the descriptors announce, from slot `i` on,
/// starting at `pos`.
pub open spec fn bt_scan_kids(
    data: Seq<u8>,
    pos: int,
    d0: u8,
    d1: u8,
    i: int,
    depth: nat,
    limit: nat,
) -> Result<int, FormatError>
    decreases limit + 1 - depth, 8 - i,
{
    if i < 0 || i >= 8 || depth > limit {
        Ok(pos)
    } else if code_in(d0, d1, i) == child_code::INNER {
        match bt_scan(data, pos, depth + 1, limit) {
            Err(e) => Err(e),
            Ok(p) => bt_scan_kids(data, p, d0, d1, i + 1, depth, limit),
        }
    } else {
        bt_scan_kids(data, pos, d0, d1, i + 1, depth, limit)
    }
}

/// `n` is the subtree decoded from the `.bt` node at `pos` (which decodes
/// successfully): each announced leaf holds `Free` or `Occupied` as its code
/// says, and each inner child holds the largest value among its children.
pub open spec fn bt_decoded(n: Node<CellState>, data: Seq<u8>, pos: int, depth: nat, limit: nat) -> bool
    decreases limit + 1 - depth, 9int,
{
    &&& n.wf()
    &&& depth <= limit
    &&& 0 <= pos
    &&& pos + 2 <= data.len()
    &&& bt_decoded_kids(n, data, pos + 2, data[pos], data[pos + 1], 0, depth, limit)
}

/// The children in slots `i..8` of `n` are what the descriptors announce,
/// the inner ones decoded from `pos` on.
pub open spec fn bt_decoded_kids(
    n: Node<CellState>,
    data: Seq<u8>,
    pos: int,
    d0: u8,
    d1: u8,
    i: int,
    depth: nat,
    limit: nat,
) -> bool
    decreases limit + 1 - depth, 8 - i,
{
    if i < 0 || i >= 8 || depth > limit {
        true
    } else {
        let code = code_in(d0, d1, i);
        if code == child_code::UNKNOWN {
            n.spec_child(i) is None && bt_decoded_kids(n, data, pos, d0, d1, i + 1, depth, limit)
        } else if code == child_code::FREE {
            (n.spec_child(i) matches Some(c) && c.is_bare_leaf(CellState::Free)) && bt_decoded_kids(
                n,
                data,
                pos,
                d0,
                d1,
                i + 1,
                depth,
                limit,
            )
        } else if code == child_code::OCCUPIED {
            (n.spec_child(i) matches Some(c) && c.is_bare_leaf(CellState::Occupied))
                && bt_decoded_kids(n, data, pos, d0, d1, i + 1, depth, limit)
        } else {
            &&& n.spec_child(i) matches Some(c) && bt_decoded(c, data, pos, depth + 1, limit)
                && c.spec_value() == max_upto(c, 8)
            &&& bt_scan(data, pos, depth + 1, limit) matches Ok(p) && bt_decoded_kids(
                n,
                data,
                p,
                d0,
                d1,
                i + 1,
                depth,
                limit,
            )
        }
    }
}

/// The code a descriptor pair holds for child `i`.
fn code_of(d0: u8, d1: u8, i: u8) -> (c: u8)
    requires
        i < 8,
    ensures
        c == code_in(d0, d1, i as int),
        c < 4,
{
    if i < 4 {
        let sh: u8 = 2 * i;
        let r = (d0 >> sh) & 3;
        assert(r < 4) by (bit_vector)
            requires
                r == (d0 >> sh) & 3,
        ;
        r
    } else {
        let sh: u8 = 2 * (i - 4);
        let r = (d1 >> sh) & 3;
        assert(r < 4) by (bit_vector)
            requires
                r == (d1 >> sh) & 3,
        ;
        r
    }
}

/// The larger of two states, `Unset < Free < Occupied`.
pub fn cell_max(a: CellState, b: CellState) -> (r: CellState)
    ensures
        r == spec_cell_max(a, b),
        covers(r, a),
        covers(r, b),
        r == a || r == b,
{
    proof {
        law_cell_max_least_upper_bound(a, b);
    }
    let ra: u8 = match a {
        CellState::Unset => 0,
        CellState::Free => 1,
        CellState::Occupied => 2,
    };
    let rb: u8 = match b {
        CellState::Unset => 0,
        CellState::Free => 1,
        CellState::Occupied => 2,
    };
    if ra >= rb {
        a
    } else {
        b
    }
}

/// The largest value among a node's children, `Unset` for a childless node.
pub fn max_child_value(node: &Node<CellState>) -> (r: CellState)
    requires
        node.wf(),
    ensures
        r == max_upto(*node, 8),
        forall|i: int|
            0 <= i < 8 && #[trigger] node.spec_child(i) is Some ==> covers(
                r,
                node.spec_child(i).unwrap().spec_value(),
            ),
        r == CellState::Unset || exists|i: int|
            0 <= i < 8 && #[trigger] node.spec_child(i) is Some && node.spec_child(i).unwrap().spec_value()
                == r,
{
    proof {
        law_inner_value_is_largest_child(*node);
    }
    let mut max = CellState::Unset;
    let mut i: u8 = 0;
    while i < 8
        invariant
            i <= 8,
            node.wf(),
            max == max_upto(*node, i as int),
        decreases 8 - i,
    {
        if let Some(child) = node.child(i) {
            max = cell_max(max, *child.value());
        }
        i += 1;
    }
    max
}

/// Packs the codes of children `base..base + 4` into one descriptor byte,
/// the lower slot in the lower bits.
pub fn pack_descriptor(node: &Node<bool>, base: u8) -> (byte: u8)
    requires
        node.wf(),
        base == 0 || base == 4,
    ensures
        byte == descriptor(*node, base as int),
{
    let mut byte: u8 = 0;
    let mut i: u8 = 0;
    while i < 4
        invariant
            i <= 4,
            base == 0 || base == 4,
            node.wf(),
            byte == desc_upto(*node, base as int, i as int),
        decreases 4 - i,
    {
        proof {
            node.lemma_wf_facts();
        }
        let code = match node.child(base + i) {
            None => child_code::UNKNOWN,
            Some(child) => {
                if child.has_children() {
                    child_code::INNER
                } else if *child.value() {
                    child_code::OCCUPIED
                } else {
                    child_code::FREE
                }
            },
        };
        byte = byte | (code << (i * 2));
        proof {
            assert(i * 2 == 2 * i);
        }
        i += 1;
    }
    byte
}

/// Appends the `.bt` encoding of the subtree of `node`.
pub fn write_binary_node(node: &Node<bool>, out: &mut Vec<u8>)
    requires
        node.wf(),
    ensures
        final(out)@ == old(out)@ + bt_bytes(*node),
    decreases node,
{
    let d0 = pack_descriptor(node, 0);
    let d1 = pack_descriptor(node, 4);
    out.push(d0);
    out.push(d1);
    let ghost head = out@;
    proof {
        assert(head =~= old(out)@ + seq![descriptor(*node, 0), descriptor(*node, 4)]);
    }
    let mut i: u8 = 0;
    while i < 8
        invariant
            i <= 8,
            node.wf(),
            head == old(out)@ + seq![descriptor(*node, 0), descriptor(*node, 4)],
            out@ + kids_bt_bytes(*node, i as int) == head + kids_bt_bytes(*node, 0),
        decreases 8 - i,
    {
        let ghost before = out@;
        proof {
            node.lemma_wf_facts();
            node.lemma_child_decreases(i as int);
        }
        match node.child(i) {
            Some(child) => {
                if child.has_children() {
                    write_binary_node(child, out);
                    proof {
                        assert(out@ + kids_bt_bytes(*node, i + 1) =~= before + kids_bt_bytes(
                            *node,
                            i as int,
                        ));
                    }
                } else {
                    proof {
                        assert(kids_bt_bytes(*node, i as int) =~= kids_bt_bytes(*node, i + 1));
                    }
                }
            },
            None => {
                proof {
                    assert(kids_bt_bytes(*node, i as int) =~= kids_bt_bytes(*node, i + 1));
                }
            },
        }
        i += 1;
    }
    proof {
        assert(kids_bt_bytes(*node, 8) =~= Seq::<u8>::empty());
        assert(out@ =~= old(out)@ + bt_bytes(*node));
    }
}

/// Slot contents right after the descriptors are read: leaves in place, a
/// placeholder for each inner child.
pub open spec fn slot_announced(c: Option<Node<CellState>>, code: u8) -> bool {
    if code == child_code::UNKNOWN {
        c is None
    } else if code == child_code::FREE {
        c matches Some(n) && n.is_bare_leaf(CellState::Free)
    } else if code == child_code::OCCUPIED {
        c matches Some(n) && n.is_bare_leaf(CellState::Occupied)
    } else {
        c matches Some(n) && n.wf()
    }
}

/// Slot contents once decoded, the slot's bytes (if any) spanning
/// `p..q`.
pub open spec fn slot_decoded(
    c: Option<Node<CellState>>,
    code: u8,
    data: Seq<u8>,
    p: int,
    q: int,
    depth: nat,
    limit: nat,
) -> bool {
    if code == child_code::INNER {
        &&& c matches Some(n) && bt_decoded(n, data, p, depth + 1, limit) && n.spec_value()
            == max_upto(n, 8)
        &&& bt_scan(data, p, depth + 1, limit) == Ok::<int, FormatError>(q)
    } else {
        slot_announced(c, code) && q == p
    }
}

/// A code is two bits.
proof fn lemma_code_in_bound(d0: u8, d1: u8, i: int)
    requires
        0 <= i < 8,
    ensures
        code_in(d0, d1, i) < 4,
{
    if i < 4 {
        let sh = (2 * i) as u8;
        assert((d0 >> sh) & 3 < 4) by (bit_vector);
    } else {
        let sh = (2 * (i - 4)) as u8;
        assert((d1 >> sh) & 3 < 4) by (bit_vector);
    }
}

/// The largest child value depends on the children alone.
proof fn lemma_max_upto_same_children(a: Node<CellState>, b: Node<CellState>, n: int)
    requires
        forall|i: int| #[trigger] a.spec_child(i) == b.spec_child(i),
    ensures
        max_upto(a, n) == max_upto(b, n),
    decreases n,
{
    if n > 0 {
        lemma_max_upto_same_children(a, b, n - 1);
        assert(a.spec_child(n - 1) == b.spec_child(n - 1));
    }
}

/// Whether a node was decoded from given bytes depends on its children alone.
proof fn lemma_bt_decoded_kids_same_children(
    a: Node<CellState>,
    b: Node<CellState>,
    data: Seq<u8>,
    pos: int,
    d0: u8,
    d1: u8,
    i: int,
    depth: nat,
    limit: nat,
)
    requires
        forall|k: int| #[trigger] a.spec_child(k) == b.spec_child(k),
        bt_decoded_kids(a, data, pos, d0, d1, i, depth, limit),
    ensures
        bt_decoded_kids(b, data, pos, d0, d1, i, depth, limit),
    decreases 8 - i,
{
    if 0 <= i < 8 && depth <= limit {
        lemma_code_in_bound(d0, d1, i);
        assert(a.spec_child(i) == b.spec_child(i));
        if code_in(d0, d1, i) == child_code::INNER {
            let p = bt_scan(data, pos, depth + 1, limit)->Ok_0;
            lemma_bt_decoded_kids_same_children(a, b, data, p, d0, d1, i + 1, depth, limit);
        } else {
            lemma_bt_decoded_kids_same_children(a, b, data, pos, d0, d1, i + 1, depth, limit);
        }
    }
}

/// Decoded slots from `j` on make up decoded children from `j` on.
proof fn lemma_bt_kids_from_slots(
    n: Node<CellState>,
    data: Seq<u8>,
    ps: Seq<int>,
    d0: u8,
    d1: u8,
    j: int,
    depth: nat,
    limit: nat,
)
    requires
        0 <= j <= 8,
        ps.len() == 9,
        depth <= limit,
        forall|k: int|
            j <= k < 8 ==> slot_decoded(
                #[trigger] n.spec_child(k),
                code_in(d0, d1, k),
                data,
                ps[k],
                ps[k + 1],
                depth,
                limit,
            ),
    ensures
        bt_decoded_kids(n, data, ps[j], d0, d1, j, depth, limit),
        bt_scan_kids(data, ps[j], d0, d1, j, depth, limit) == Ok::<int, FormatError>(ps[8]),
    decreases 8 - j,
{
    if j < 8 {
        lemma_code_in_bound(d0, d1, j);
        lemma_bt_kids_from_slots(n, data, ps, d0, d1, j + 1, depth, limit);
        assert(slot_decoded(n.spec_child(j), code_in(d0, d1, j), data, ps[j], ps[j + 1], depth, limit));
    }
}

/// Decodes one `.bt` node, and everything below it, from the reader's
/// position; the node lies at depth `depth` and nothing may nest below
/// `limit`.
///
/// The node itself comes back `Occupied`; each inner child below it holds
/// the largest value among its own children.
pub fn read_binary_node(reader: &mut ByteReader, depth: u32, limit: u32) -> (r: Result<
    Node<CellState>,
    FormatError,
>)
    requires
        old(reader).wf(),
        limit < u32::MAX,
    ensures
        final(reader).wf(),
        final(reader).spec_data() == old(reader).spec_data(),
        match bt_scan(old(reader).spec_data(), old(reader).spec_pos() as int, depth as nat, limit as nat) {
            Ok(end) => r matches Ok(n) && {
                &&& bt_decoded(n, old(reader).spec_data(), old(reader).spec_pos() as int, depth as nat, limit as nat)
                &&& n.spec_value() == CellState::Occupied
                &&& final(reader).spec_pos() == end
            },
            Err(e) => r == Err::<Node<CellState>, FormatError>(e),
        },
    decreases limit + 1 - depth,
{
    let ghost data = reader.spec_data();
    let ghost start = reader.spec_pos() as int;
    if depth > limit {
        return Err(FormatError::TooDeep { limit });
    }
    let descriptors = match read_exact(reader, 2) {
        Ok(b) => b,
        Err(e) => {
            return Err(e);
        },
    };
    let d0 = descriptors[0];
    let d1 = descriptors[1];
    proof {
        assert(data[start] == d0 && data[start + 1] == d1);
    }
    let mut node = Node::new(CellState::Occupied);
    proof {
        node.lemma_wf_facts();
    }
    let mut i: u8 = 0;
    while i < 8
        invariant
            i <= 8,
            node.wf(),
            node.spec_value() == CellState::Occupied,
            forall|j: int| i <= j ==> #[trigger] node.spec_child(j) is None,
            forall|j: int| 0 <= j < i ==> slot_announced(#[trigger] node.spec_child(j), code_in(d0, d1, j)),
        decreases 8 - i,
    {
        let ghost before = node;
        let code = code_of(d0, d1, i);
        if code == child_code::FREE {
            node.create_child(i, CellState::Free);
        } else if code == child_code::OCCUPIED {
            node.create_child(i, CellState::Occupied);
        } else if code == child_code::INNER {
            node.create_child(i, CellState::Unset);
        }
        proof {
            node.lemma_wf_facts();
            assert forall|j: int| i + 1 <= j implies #[trigger] node.spec_child(j) is None by {
                assert(node.spec_child(j) == before.spec_child(j));
            }
            assert forall|j: int| 0 <= j < i + 1 implies slot_announced(#[trigger] node.spec_child(j), code_in(d0, d1, j)) by {
                if j < i {
                    assert(node.spec_child(j) == before.spec_child(j));
                }
            }
        }
        i += 1;
    }
    let ghost mut ps: Seq<int> = seq![start + 2];
    let mut i: u8 = 0;
    while i < 8
        invariant
            i <= 8,
            ps.len() == i + 1,
            ps[i as int] == reader.spec_pos(),
            ps[0] == start + 2,
            reader.wf(),
            reader.spec_data() == data,
            data == old(reader).spec_data(),
            start == old(reader).spec_pos(),
            0 <= start,
            start + 2 <= data.len(),
            data[start] == d0,
            data[start + 1] == d1,
            depth <= limit < u32::MAX,
            node.wf(),
            node.spec_value() == CellState::Occupied,
            bt_scan(data, start, depth as nat, limit as nat) == bt_scan_kids(
                data,
                ps[i as int],
                d0,
                d1,
                i as int,
                depth as nat,
                limit as nat,
            ),
            forall|j: int| i <= j < 8 ==> slot_announced(#[trigger] node.spec_child(j), code_in(d0, d1, j)),
            forall|j: int|
                0 <= j < i ==> slot_decoded(
                    #[trigger] node.spec_child(j),
                    code_in(d0, d1, j),
                    data,
                    ps[j],
                    ps[j + 1],
                    depth as nat,
                    limit as nat,
                ),
        decreases 8 - i,
    {
        let ghost before = node;
        let ghost p = reader.spec_pos() as int;
        let code = code_of(d0, d1, i);
        if code == child_code::INNER {
            let child = match read_binary_node(reader, depth + 1, limit) {
                Ok(c) => c,
                Err(e) => {
                    return Err(e);
                },
            };
            let value = max_child_value(&child);
            proof {
                before.lemma_wf_facts();
            }
            match node.child_mut(i) {
                Some(c) => {
                    *c = child;
                },
                None => {},
            }
            let ghost mid = node;
            proof {
                mid.lemma_wf_facts();
            }
            match node.child_mut(i) {
                Some(c) => {
                    c.set_value(value);
                },
                None => {},
            }
            proof {
                let c = node.spec_child(i as int).unwrap();
                lemma_max_upto_same_children(child, c, 8);
                lemma_bt_decoded_kids_same_children(child, c, data, p + 2, data[p], data[p + 1], 0, depth as nat + 1, limit as nat);
                ps = ps.push(reader.spec_pos() as int);
            }
        } else {
            proof {
                ps = ps.push(p);
            }
        }
        proof {
            node.lemma_wf_facts();
            assert forall|j: int| i + 1 <= j < 8 implies slot_announced(#[trigger] node.spec_child(j), code_in(d0, d1, j)) by {
                assert(node.spec_child(j) == before.spec_child(j));
            }
            assert forall|j: int|
                0 <= j < i + 1 implies slot_decoded(
                    #[trigger] node.spec_child(j),
                    code_in(d0, d1, j),
                    data,
                    ps[j],
                    ps[j + 1],
                    depth as nat,
                    limit as nat,
                ) by {
                if j < i {
                    assert(node.spec_child(j) == before.spec_child(j));
                }
            }
        }
        i += 1;
    }
    proof {
        lemma_bt_kids_from_slots(node, data, ps, d0, d1, 0, depth as nat, limit as nat);
    }
    Ok(node)
}

proof fn lemma_desc_step(m: u8, c: u8, j: u8, i: u8)
    requires
        (m as u32) < (1u32 << ((2 * j) as u32)),
        c < 4,
        j < 4,
        i < 4,
    ensures
        ((m | (c << ((2 * j) as u8))) >> ((2 * i) as u8)) & 3 == (if i == j {
            c
        } else {
            (m >> ((2 * i) as u8)) & 3
        }),
        ((m | (c << ((2 * j) as u8))) as u32) < (1u32 << ((2 * (j + 1)) as u32)),
{
    assert(((m | (c << ((2 * j) as u8))) >> ((2 * i) as u8)) & 3 == (if i == j {
        c
    } else {
        (m >> ((2 * i) as u8)) & 3
    }) && ((m | (c << ((2 * j) as u8))) as u32) < (1u32 << ((2 * (j + 1)) as u32))) by (bit_vector)
        requires
            (m as u32) < (1u32 << ((2 * j) as u32)),
            c < 4,
            j < 4,
            i < 4,
    ;
}

/// The code packed for each of the first `k` children reads back, and the
/// bits above them are clear.
proof fn lemma_desc_upto_codes(node: Node<bool>, base: int, k: int, i: int)
    requires
        0 <= k <= 4,
        0 <= i < 4,
    ensures
        code_at(desc_upto(node, base, k), i) == (if i < k {
            child_code_of(node.spec_child(base + i))
        } else {
            0u8
        }),
        (desc_upto(node, base, k) as u32) < (1u32 << ((2 * k) as u32)),
    decreases k,
{
    if k == 0 {
        let sh = (2 * i) as u8;
        assert((0u8 >> sh) & 3 == 0) by (bit_vector);
        assert((0u8 as u32) < (1u32 << 0u32)) by (bit_vector);
    } else {
        lemma_desc_upto_codes(node, base, k - 1, i);
        let m = desc_upto(node, base, k - 1);
        let c = child_code_of(node.spec_child(base + k - 1));
        lemma_desc_step(m, c, (k - 1) as u8, i as u8);
    }
}

/// The codes in a node's descriptors are its children's codes.
proof fn lemma_descriptor_codes(node: Node<bool>, i: int)
    requires
        0 <= i < 8,
    ensures
        code_in(descriptor(node, 0), descriptor(node, 4), i) == child_code_of(node.spec_child(i)),
{
    if i < 4 {
        lemma_desc_upto_codes(node, 0, 4, i);
    } else {
        lemma_desc_upto_codes(node, 4, 4, i - 4);
    }
}

/// A decoded subtree matches the occupancy tree it was encoded from: the
/// same shape, each leaf `Occupied` exactly where the original leaf was
/// occupied and `Free` elsewhere.
pub open spec fn bt_agrees(n: Node<bool>, m: Node<CellState>) -> bool
    decreases n, 9int,
{
    bt_agrees_kids(n, m, 0)
}

/// Slots `i..8` of the two nodes match.
pub open spec fn bt_agrees_kids(n: Node<bool>, m: Node<CellState>, i: int) -> bool
    decreases n, 8 - i,
{
    if 0 <= i < 8 {
        let here = match n.spec_child(i) {
            None => m.spec_child(i) is None,
            Some(c) => {
                proof {
                    n.lemma_child_decreases(i);
                }
                m.spec_child(i) matches Some(d) && if c.spec_has_children() {
                    bt_agrees(c, d)
                } else {
                    d.is_bare_leaf(if c.spec_value() {
                        CellState::Occupied
                    } else {
                        CellState::Free
                    })
                }
            },
        };
        here && bt_agrees_kids(n, m, i + 1)
    } else {
        true
    }
}

/// Decoding the `.bt` encoding of a subtree nesting no deeper than the limit
/// succeeds, consumes exactly the encoding, and a subtree decoded from it
/// matches the original.
proof fn lemma_bt_scan_encoding(
    n: Node<bool>,
    m: Node<CellState>,
    data: Seq<u8>,
    pos: int,
    depth: nat,
    limit: nat,
)
    requires
        n.wf(),
        within_depth(n, depth, limit),
        depth <= limit,
        0 <= pos,
        pos + bt_bytes(n).len() <= data.len(),
        data.subrange(pos, pos + bt_bytes(n).len()) == bt_bytes(n),
    ensures
        bt_scan(data, pos, depth, limit) == Ok::<int, FormatError>(pos + bt_bytes(n).len()),
        bt_decoded(m, data, pos, depth, limit) ==> bt_agrees(n, m),
    decreases n, 9int,
{
    let k = kids_bt_bytes(n, 0);
    let d0 = descriptor(n, 0);
    let d1 = descriptor(n, 4);
    assert(bt_bytes(n) =~= seq![d0, d1] + k);
    assert(data[pos] == bt_bytes(n)[0]);
    assert(data[pos + 1] == bt_bytes(n)[1]);
    assert(data.subrange(pos + 2, pos + 2 + k.len()) =~= k) by {
        assert(data.subrange(pos + 2, pos + 2 + k.len()) =~= data.subrange(pos, pos + bt_bytes(n).len()).subrange(2, 2 + k.len() as int));
    }
    lemma_bt_scan_kids_encoding(n, m, data, pos + 2, 0, depth, limit);
}

proof fn lemma_bt_scan_kids_encoding(
    n: Node<bool>,
    m: Node<CellState>,
    data: Seq<u8>,
    pos: int,
    i: int,
    depth: nat,
    limit: nat,
)
    requires
        n.wf(),
        within_depth(n, depth, limit),
        depth <= limit,
        0 <= i <= 8,
        0 <= pos,
        pos + kids_bt_bytes(n, i).len() <= data.len(),
        data.subrange(pos, pos + kids_bt_bytes(n, i).len()) == kids_bt_bytes(n, i),
    ensures
        bt_scan_kids(data, pos, descriptor(n, 0), descriptor(n, 4), i, depth, limit) == Ok::<
            int,
            FormatError,
        >(pos + kids_bt_bytes(n, i).len()),
        bt_decoded_kids(m, data, pos, descriptor(n, 0), descriptor(n, 4), i, depth, limit)
            ==> bt_agrees_kids(n, m, i),
    decreases n, 8 - i,
{
    if i < 8 {
        lemma_descriptor_codes(n, i);
        n.lemma_wf_facts();
        let rest = kids_bt_bytes(n, i + 1);
        match n.spec_child(i) {
            Some(c) => {
                n.lemma_child_decreases(i);
                if c.spec_has_children() {
                    let f = bt_bytes(c);
                    assert(kids_bt_bytes(n, i) =~= f + rest);
                    assert(data.subrange(pos, pos + f.len()) =~= data.subrange(pos, pos + kids_bt_bytes(n, i).len()).subrange(0, f.len() as int));
                    assert(kids_bt_bytes(n, i).subrange(0, f.len() as int) =~= f);
                    assert(depth < limit) by {
                        if depth >= limit {
                            assert(n.spec_has_children());
                        }
                    }
                    let d = m.spec_child(i);
                    match d {
                        Some(dd) => {
                            lemma_bt_scan_encoding(c, dd, data, pos, depth + 1, limit);
                        },
                        None => {
                            lemma_bt_scan_encoding(c, m, data, pos, depth + 1, limit);
                        },
                    }
                    assert(data.subrange(pos + f.len(), pos + f.len() + rest.len()) =~= rest) by {
                        assert(data.subrange(pos + f.len(), pos + f.len() + rest.len()) =~= data.subrange(pos, pos + kids_bt_bytes(n, i).len()).subrange(f.len() as int, kids_bt_bytes(n, i).len() as int));
                    }
                    lemma_bt_scan_kids_encoding(n, m, data, pos + f.len(), i + 1, depth, limit);
                } else {
                    assert(kids_bt_bytes(n, i) =~= rest);
                    lemma_bt_scan_kids_encoding(n, m, data, pos, i + 1, depth, limit);
                }
            },
            None => {
                assert(kids_bt_bytes(n, i) =~= rest);
                lemma_bt_scan_kids_encoding(n, m, data, pos, i + 1, depth, limit);
            },
        }
    }
}

/// Reading back what `write_binary_node` wrote keeps every voxel's
/// occupancy: on a buffer that starts with the `.bt` encoding of a subtree
/// nesting no deeper than the limit, the decoder succeeds, consumes exactly
/// the encoding, and what it decodes (see [`bt_decoded`]) has the original
/// shape, each leaf `Occupied` exactly where the original leaf was occupied.
pub proof fn law_binary_round_trip(n: Node<bool>, data: Seq<u8>, limit: nat, decoded: Node<CellState>)
    requires
        n.wf(),
        within_depth(n, 0, limit),
        bt_bytes(n).len() <= data.len(),
        data.subrange(0, bt_bytes(n).len() as int) == bt_bytes(n),
        bt_decoded(decoded, data, 0, 0, limit),
    ensures
        bt_scan(data, 0, 0, limit) == Ok::<int, FormatError>(bt_bytes(n).len() as int),
        bt_agrees(n, decoded),
{
    lemma_bt_scan_encoding(n, decoded, data, 0, 0, limit);
}

// ---- header --------------------------------------------------------------------

/// First line of a `.ot` file.
pub const FULL_FILE_HEADER: &'static str = "# Octomap OcTree file";

/// First line of a `.bt` file.
pub const BINARY_FILE_HEADER: &'static str = "# Octomap OcTree binary file";

/// The tree type id this crate reads and writes.
pub const TREE_TYPE: &'static str = "OcTree";

/// Length of the UTF-8 encoded white-space character starting at `i`, or 0
/// when none starts there. White space is Unicode's `White_Space`: the
/// ASCII controls 9 to 13, the space, and the encodings of U+0085, U+00A0,
/// U+1680, U+2000 to U+200A, U+2028, U+2029, U+202F, U+205F and U+3000.
pub open spec fn ws_len(s: Seq<u8>, i: int) -> int {
    if i < 0 || i >= s.len() {
        0
    } else {
        let b = s[i];
        if (9 <= b <= 13) || b == 32 {
            1
        } else if b == 0xc2 && i + 1 < s.len() && (s[i + 1] == 0x85 || s[i + 1] == 0xa0) {
            2
        } else if i + 2 < s.len() && ((b == 0xe1 && s[i + 1] == 0x9a && s[i + 2] == 0x80) || (b
            == 0xe2 && s[i + 1] == 0x80 && (s[i + 2] <= 0x8a || s[i + 2] == 0xa8 || s[i + 2]
            == 0xa9 || s[i + 2] == 0xaf) && s[i + 2] >= 0x80) || (b == 0xe2 && s[i + 1] == 0x81
            && s[i + 2] == 0x9f) || (b == 0xe3 && s[i + 1] == 0x80 && s[i + 2] == 0x80)) {
            3
        } else {
            0
        }
    }
}

/// The first position at or after `i` that does not start white space.
pub open spec fn skip_ws(s: Seq<u8>, i: int) -> int
    decreases s.len() - i,
{
    if i < 0 || i >= s.len() {
        s.len() as int
    } else if ws_len(s, i) > 0 {
        skip_ws(s, i + ws_len(s, i))
    } else {
        i
    }
}

/// The first position at or after `i` that starts white space, or the end.
pub open spec fn tok_end(s: Seq<u8>, i: int) -> int
    decreases s.len() - i,
{
    if i < 0 || i >= s.len() {
        s.len() as int
    } else if ws_len(s, i) > 0 {
        i
    } else {
        tok_end(s, i + 1)
    }
}

/// The first white-space separated token at or after `i`, if any.
pub open spec fn token_from(s: Seq<u8>, i: int) -> Option<Seq<u8>> {
    let a = skip_ws(s, i);
    if a >= s.len() {
        None
    } else {
        Some(s.subrange(a, tok_end(s, a)))
    }
}

/// The token after the first one, if any.
pub open spec fn second_token(s: Seq<u8>) -> Option<Seq<u8>> {
    let a = skip_ws(s, 0);
    token_from(s, tok_end(s, a))
}

/// Value of a string of decimal digits.
pub open spec fn decimal_value(t: Seq<u8>) -> nat
    decreases t.len(),
{
    if t.len() == 0 {
        0
    } else {
        10 * decimal_value(t.drop_last()) + (t.last() - 48) as nat
    }
}

/// Every byte is an ASCII digit.
pub open spec fn all_digits(t: Seq<u8>) -> bool {
    forall|i: int| 0 <= i < t.len() ==> 48 <= #[trigger] t[i] <= 57
}

/// What `usize`'s `from_str` makes of a token: an optional `+`, then one or
/// more digits, the value fitting in a `usize`.
pub open spec fn parse_usize_spec(t: Seq<u8>) -> Option<usize> {
    let d = if t.len() > 0 && t[0] == 43 {
        t.subrange(1, t.len() as int)
    } else {
        t
    };
    if d.len() > 0 && all_digits(d) && decimal_value(d) <= usize::MAX {
        Some(decimal_value(d) as usize)
    } else {
        None
    }
}

/// The keyword `id`.
pub open spec fn kw_id() -> Seq<u8> {
    seq![105u8, 100u8]
}

/// The keyword `size`.
pub open spec fn kw_size() -> Seq<u8> {
    seq![115u8, 105u8, 122u8, 101u8]
}

/// The keyword `res`.
pub open spec fn kw_res() -> Seq<u8> {
    seq![114u8, 101u8, 115u8]
}

/// The keyword `data`, which ends the header.
pub open spec fn kw_data() -> Seq<u8> {
    seq![100u8, 97u8, 116u8, 97u8]
}

/// The header fields gathered so far: the tree id, the node count and the
/// resolution token, each from the last line that named it.
pub type HeaderFields = (Option<Seq<u8>>, Option<usize>, Option<Seq<u8>>);

/// The fields after taking one header line into account.
pub open spec fn take_line(line: Seq<u8>, st: HeaderFields) -> HeaderFields {
    match token_from(line, 0) {
        None => st,
        Some(k) => if k == kw_id() {
            (second_token(line), st.1, st.2)
        } else if k == kw_size() {
            (
                st.0,
                match second_token(line) {
                    Some(t) => parse_usize_spec(t),
                    None => None,
                },
                st.2,
            )
        } else if k == kw_res() {
            (st.0, st.1, second_token(line))
        } else {
            st
        },
    }
}

/// A newline found lies in range and is a newline.
pub proof fn lemma_newline_at_bounds(s: Seq<u8>, from: int)
    ensures
        newline_at(s, from) matches Some(i) ==> from <= i < s.len() && s[i] == 10,
    decreases s.len() - from,
{
    if 0 <= from < s.len() && s[from] != 10 {
        lemma_newline_at_bounds(s, from + 1);
    }
}

/// The line starting at `pos` (without its `\n`, and without a `\r` before
/// it), and where the next line starts; as [`read_line`] reads it.
pub open spec fn line_at(data: Seq<u8>, pos: int) -> (Seq<u8>, int) {
    let rest = data.subrange(pos, data.len() as int);
    match newline_at(rest, 0) {
        Some(i) => (strip_cr(rest.subrange(0, i)), pos + i + 1),
        None => (rest, data.len() as int),
    }
}

/// Scanning header lines from `pos` until the `data` keyword: the fields
/// gathered and where the payload starts, or
/// [`FormatError::UnterminatedHeader`] when the buffer ends first.
/// Unrecognized lines are skipped.
pub open spec fn header_scan(data: Seq<u8>, pos: int, st: HeaderFields) -> Result<
    (HeaderFields, int),
    FormatError,
>
    decreases data.len() - pos,
{
    if pos < 0 || pos >= data.len() {
        Err(FormatError::UnterminatedHeader)
    } else {
        let (line, next) = line_at(data, pos);
        proof {
            lemma_newline_at_bounds(data.subrange(pos, data.len() as int), 0);
        }
        if token_from(line, 0) == Some(kw_data()) {
            Ok((st, next))
        } else {
            header_scan(data, next, take_line(line, st))
        }
    }
}

/// A parsed header: the tree id, the declared node count, and the
/// resolution token when there is one.
#[derive(Debug, Clone, PartialEq, Eq)]
pub struct Header {
    /// The tree type named by the `id` line.
    pub id: Vec<u8>,
    /// The node count named by the `size` line.
    pub size: usize,
    /// The token of the `res` line, left to the caller to read as a number.
    pub res: Option<Vec<u8>>,
}

/// What reading the header from `pos` yields: the id, the count, the
/// resolution token, and where the payload starts; or why it fails.
pub open spec fn header_spec(data: Seq<u8>, pos: int) -> Result<
    (Seq<u8>, usize, Option<Seq<u8>>, int),
    FormatError,
> {
    match header_scan(data, pos, (None, None, None)) {
        Err(e) => Err(e),
        Ok((st, end)) => match st.0 {
            None => Err(FormatError::MissingField("id")),
            Some(id) => match st.1 {
                None => Err(FormatError::MissingField("size")),
                Some(size) => Ok((id, size, st.2, end)),
            },
        },
    }
}

fn ws_len_at(s: &[u8], i: usize) -> (n: usize)
    ensures
        n == ws_len(s@, i as int),
        n <= 3,
{
    let len = s.len();
    if i >= len {
        return 0;
    }
    let b = s[i];
    if (9 <= b && b <= 13) || b == 32 {
        return 1;
    }
    if b == 0xc2 && i + 1 < len && (s[i + 1] == 0x85 || s[i + 1] == 0xa0) {
        return 2;
    }
    if len - i > 2 {
        let b1 = s[i + 1];
        let b2 = s[i + 2];
        if (b == 0xe1 && b1 == 0x9a && b2 == 0x80) || (b == 0xe2 && b1 == 0x80 && (b2 <= 0x8a
            || b2 == 0xa8 || b2 == 0xa9 || b2 == 0xaf) && b2 >= 0x80) || (b == 0xe2 && b1 == 0x81
            && b2 == 0x9f) || (b == 0xe3 && b1 == 0x80 && b2 == 0x80) {
            return 3;
        }
    }
    0
}

fn skip_ws_from(s: &[u8], i: usize) -> (r: usize)
    ensures
        r == skip_ws(s@, i as int),
{
    let mut j = i;
    while j < s.len()
        invariant
            i <= j,
            skip_ws(s@, i as int) == skip_ws(s@, j as int),
        decreases s.len() - j,
    {
        let n = ws_len_at(s, j);
        if n == 0 {
            return j;
        }
        j = j + n;
    }
    s.len()
}

fn tok_end_from(s: &[u8], i: usize) -> (r: usize)
    ensures
        r == tok_end(s@, i as int),
{
    let mut j = i;
    while j < s.len()
        invariant
            i <= j,
            tok_end(s@, i as int) == tok_end(s@, j as int),
        decreases s.len() - j,
    {
        if ws_len_at(s, j) > 0 {
            return j;
        }
        j = j + 1;
    }
    s.len()
}

proof fn lemma_skip_ws_bounds(s: Seq<u8>, i: int)
    ensures
        skip_ws(s, i) <= s.len(),
        0 <= i <= s.len() ==> i <= skip_ws(s, i),
    decreases s.len() - i,
{
    if 0 <= i < s.len() && ws_len(s, i) > 0 {
        lemma_skip_ws_bounds(s, i + ws_len(s, i));
    }
}

proof fn lemma_tok_end_bounds(s: Seq<u8>, i: int)
    ensures
        tok_end(s, i) <= s.len(),
        0 <= i <= s.len() ==> i <= tok_end(s, i),
    decreases s.len() - i,
{
    if 0 <= i < s.len() && ws_len(s, i) == 0 {
        lemma_tok_end_bounds(s, i + 1);
    }
}

/// The bounds of the first token at or after `i`, if any.
fn token_bounds(s: &[u8], i: usize) -> (r: Option<(usize, usize)>)
    ensures
        match token_from(s@, i as int) {
            None => r is None,
            Some(t) => r matches Some((a, b)) && a <= b <= s@.len() && s@.subrange(a as int, b as int)
                == t && b == tok_end(s@, skip_ws(s@, i as int)),
        },
{
    let a = skip_ws_from(s, i);
    proof {
        lemma_skip_ws_bounds(s@, i as int);
    }
    if a >= s.len() {
        return None;
    }
    let b = tok_end_from(s, a);
    proof {
        lemma_tok_end_bounds(s@, a as int);
    }
    Some((a, b))
}

fn bytes_equal(a: &[u8], b: &[u8]) -> (r: bool)
    ensures
        r == (a@ == b@),
{
    if a.len() != b.len() {
        return false;
    }
    let mut i: usize = 0;
    while i < a.len()
        invariant
            i <= a@.len(),
            a@.len() == b@.len(),
            forall|j: int| 0 <= j < i ==> a@[j] == b@[j],
        decreases a@.len() - i,
    {
        if a[i] != b[i] {
            return false;
        }
        i += 1;
    }
    assert(a@ =~= b@);
    true
}

proof fn lemma_decimal_prefix_grows(t: Seq<u8>, k: int, n: int)
    requires
        0 <= k <= n <= t.len(),
        all_digits(t),
    ensures
        decimal_value(t.subrange(0, k)) <= decimal_value(t.subrange(0, n)),
    decreases n - k,
{
    if k < n {
        lemma_decimal_prefix_grows(t, k, n - 1);
        assert(t.subrange(0, n).drop_last() =~= t.subrange(0, n - 1));
    }
}

/// Reads a token the way `usize`'s `from_str` does: an optional `+`, then
/// decimal digits, with no overflow.
pub fn parse_usize(t: &[u8]) -> (r: Option<usize>)
    ensures
        r == parse_usize_spec(t@),
{
    let start: usize = if t.len() > 0 && t[0] == 43 {
        1
    } else {
        0
    };
    let ghost d = if t@.len() > 0 && t@[0] == 43 {
        t@.subrange(1, t@.len() as int)
    } else {
        t@
    };
    proof {
        assert(d =~= t@.subrange(start as int, t@.len() as int));
    }
    if start >= t.len() {
        return None;
    }
    let mut value: usize = 0;
    let mut i: usize = start;
    while i < t.len()
        invariant
            start <= i <= t@.len(),
            start < t@.len(),
            d == t@.subrange(start as int, t@.len() as int),
            d == (if t@.len() > 0 && t@[0] == 43 {
                t@.subrange(1, t@.len() as int)
            } else {
                t@
            }),
            forall|j: int| 0 <= j < i - start ==> 48 <= #[trigger] d[j] <= 57,
            value == decimal_value(d.subrange(0, i - start)),
        decreases t@.len() - i,
    {
        let c = t[i];
        if c < 48 || c > 57 {
            proof {
                assert(!all_digits(d)) by {
                    assert(d[i - start] == c);
                }
            }
            return None;
        }
        proof {
            assert(d.subrange(0, i + 1 - start).drop_last() =~= d.subrange(0, i - start));
            assert(d.subrange(0, i + 1 - start).last() == c);
        }
        let ghost next_value = decimal_value(d.subrange(0, i + 1 - start));
        let m = value.checked_mul(10);
        let m = match m {
            None => {
                proof {
                    if all_digits(d) {
                        lemma_decimal_prefix_grows(d, i + 1 - start, d.len() as int);
                        assert(d.subrange(0, d.len() as int) =~= d);
                    }
                }
                return None;
            },
            Some(m) => m,
        };
        let v = m.checked_add((c - 48) as usize);
        match v {
            None => {
                proof {
                    if all_digits(d) {
                        lemma_decimal_prefix_grows(d, i + 1 - start, d.len() as int);
                        assert(d.subrange(0, d.len() as int) =~= d);
                    }
                }
                return None;
            },
            Some(v) => {
                value = v;
            },
        }
        i += 1;
    }
    proof {
        assert(d.subrange(0, d.len() as int) =~= d);
    }
    Some(value)
}

/// The bytes of an optional buffer.
pub open spec fn opt_bytes(o: Option<Vec<u8>>) -> Option<Seq<u8>> {
    match o {
        Some(v) => Some(v@),
        None => None,
    }
}

proof fn lemma_line_at_advances(data: Seq<u8>, pos: int)
    requires
        0 <= pos < data.len(),
    ensures
        pos < line_at(data, pos).1 <= data.len(),
{
    lemma_newline_at_bounds(data.subrange(pos, data.len() as int), 0);
}

/// Reads the header lines up to and including the `data` line: the last
/// `id`, `size` and `res` lines give the fields; other lines are skipped.
pub fn read_header(reader: &mut ByteReader) -> (r: Result<Header, FormatError>)
    requires
        old(reader).wf(),
    ensures
        final(reader).wf(),
        final(reader).spec_data() == old(reader).spec_data(),
        match header_spec(old(reader).spec_data(), old(reader).spec_pos() as int) {
            Err(e) => r == Err::<Header, FormatError>(e),
            Ok((id, size, res, end)) => r matches Ok(h) && h.id@ == id && h.size == size
                && opt_bytes(h.res) == res && final(reader).spec_pos() == end,
        },
{
    let ghost data = reader.spec_data();
    let ghost start = reader.spec_pos() as int;
    let mut id: Option<Vec<u8>> = None;
    let mut size: Option<usize> = None;
    let mut res: Option<Vec<u8>> = None;
    let data_kw: Vec<u8> = vec![100u8, 97u8, 116u8, 97u8];
    let id_kw: Vec<u8> = vec![105u8, 100u8];
    let size_kw: Vec<u8> = vec![115u8, 105u8, 122u8, 101u8];
    let res_kw: Vec<u8> = vec![114u8, 101u8, 115u8];
    loop
        invariant_except_break
            header_scan(data, start, (None, None, None)) == header_scan(
                data,
                reader.spec_pos() as int,
                (opt_bytes(id), size, opt_bytes(res)),
            ),
        invariant
            reader.wf(),
            reader.spec_data() == data,
            data == old(reader).spec_data(),
            start == old(reader).spec_pos(),
            data_kw@ == kw_data(),
            id_kw@ == kw_id(),
            size_kw@ == kw_size(),
            res_kw@ == kw_res(),
        ensures
            header_scan(data, start, (None, None, None)) == Ok::<(HeaderFields, int), FormatError>(
                ((opt_bytes(id), size, opt_bytes(res)), reader.spec_pos() as int),
            ),
        decreases data.len() - reader.spec_pos(),
    {
        let ghost pos = reader.spec_pos() as int;
        let ghost st = (opt_bytes(id), size, opt_bytes(res));
        let line = match read_line(reader) {
            None => {
                return Err(FormatError::UnterminatedHeader);
            },
            Some(l) => l,
        };
        proof {
            lemma_line_at_advances(data, pos);
            assert(data.subrange(pos, data.len() as int) =~= old(reader).rest().subrange(0, 0) + data.subrange(pos, data.len() as int));
            assert(line_at(data, pos) == (line@, reader.spec_pos() as int));
        }
        let l = line.as_slice();
        let (a, b) = match token_bounds(l, 0) {
            None => {
                proof {
                    assert(take_line(line@, st) == st);
                }
                continue;
            },
            Some(ab) => ab,
        };
        let keyword = vstd::slice::slice_subrange(l, a, b);
        if bytes_equal(keyword, data_kw.as_slice()) {
            break;
        }
        let second = token_bounds(l, b);
        let value: Option<Vec<u8>> = match second {
            None => None,
            Some((c, e)) => Some(vstd::slice::slice_to_vec(vstd::slice::slice_subrange(l, c, e))),
        };
        if bytes_equal(keyword, id_kw.as_slice()) {
            id = value;
        } else if bytes_equal(keyword, size_kw.as_slice()) {
            size = match &value {
                None => None,
                Some(t) => parse_usize(t.as_slice()),
            };
        } else if bytes_equal(keyword, res_kw.as_slice()) {
            res = value;
        }
        proof {
            assert(opt_bytes(value) == second_token(line@));
        }
    }
    let id = match id {
        None => {
            return Err(FormatError::MissingField("id"));
        },
        Some(v) => v,
    };
    let size = match size {
        None => {
            return Err(FormatError::MissingField("size"));
        },
        Some(s) => s,
    };
    Ok(Header { id, size, res })
}

/// The first line of a map file starts with its format marker.
pub open spec fn marker_ok(data: Seq<u8>, pos: int, marker: Seq<u8>) -> bool {
    &&& 0 <= pos < data.len()
    &&& line_at(data, pos).0.len() >= marker.len()
    &&& line_at(data, pos).0.subrange(0, marker.len() as int) == marker
}

/// Reads the first line and checks that it starts with `marker`.
pub fn read_marker(reader: &mut ByteReader, marker: &'static str) -> (r: Result<(), FormatError>)
    requires
        old(reader).wf(),
    ensures
        final(reader).wf(),
        final(reader).spec_data() == old(reader).spec_data(),
        r is Ok <==> marker_ok(old(reader).spec_data(), old(reader).spec_pos() as int, marker.spec_bytes()),
        r is Ok ==> final(reader).spec_pos() == line_at(old(reader).spec_data(), old(reader).spec_pos() as int).1,
        r matches Err(e) ==> e == (FormatError::BadHeader { expected: marker }),
{
    let ghost data = reader.spec_data();
    let ghost pos = reader.spec_pos() as int;
    let line = match read_line(reader) {
        None => {
            return Err(FormatError::BadHeader { expected: marker });
        },
        Some(l) => l,
    };
    proof {
        lemma_line_at_advances(data, pos);
        assert(line_at(data, pos) == (line@, reader.spec_pos() as int));
    }
    let m = marker.as_bytes();
    if line.len() < m.len() {
        return Err(FormatError::BadHeader { expected: marker });
    }
    let mut i: usize = 0;
    while i < m.len()
        invariant
            i <= m@.len() <= line@.len(),
            m@ == marker.spec_bytes(),
            reader.wf(),
            reader.spec_data() == old(reader).spec_data(),
            data == old(reader).spec_data(),
            pos == old(reader).spec_pos(),
            0 <= pos < data.len(),
            line_at(data, pos).0 == line@,
            forall|j: int| 0 <= j < i ==> line@[j] == m@[j],
        decreases m@.len() - i,
    {
        if line[i] != m[i] {
            proof {
                assert(line@.subrange(0, m@.len() as int)[i as int] != m@[i as int]);
            }
            return Err(FormatError::BadHeader { expected: marker });
        }
        i += 1;
    }
    proof {
        assert(line@.subrange(0, m@.len() as int) =~= m@);
    }
    Ok(())
}

/// The header's tree type is the one this crate implements.
pub fn check_tree_type(id: &[u8]) -> (r: Result<(), FormatError>)
    ensures
        r is Ok <==> id@ == TREE_TYPE.spec_bytes(),
        r matches Err(e) ==> e matches FormatError::UnsupportedTreeType(v) && v@ == id@,
{
    if bytes_equal(id, TREE_TYPE.as_bytes()) {
        Ok(())
    } else {
        Err(FormatError::UnsupportedTreeType(vstd::slice::slice_to_vec(id)))
    }
}

/// A subtree's `.ot` encoding has at least five bytes per node.
proof fn lemma_full_bytes_len(n: Node<u32>)
    ensures
        full_bytes(n).len() >= 5 * n.spec_size(),
    decreases n, 9int,
{
    lemma_kids_full_bytes_len(n, 0);
}

proof fn lemma_kids_full_bytes_len(n: Node<u32>, i: int)
    ensures
        kids_full_bytes(n, i).len() >= 5 * n.kids_size(i),
    decreases n, 8 - i,
{
    if 0 <= i < 8 {
        lemma_kids_full_bytes_len(n, i + 1);
        if let Some(c) = n.spec_child(i) {
            n.lemma_child_decreases(i);
            lemma_full_bytes_len(c);
        }
    }
}

/// `n` is a subtree whose `.ot` encoding is exactly the bytes `pos..end`.
pub open spec fn full_decodes_to(n: Node<u32>, data: Seq<u8>, pos: int, end: int) -> bool {
    n.wf() && data.subrange(pos, end) == full_bytes(n)
}

/// The verdict on a payload of `count` nodes after a header that declared
/// `size`: accepted when the two agree, refused with both counts otherwise.
pub open spec fn size_verdict<T>(r: Result<Option<Node<T>>, FormatError>, size: usize, count: nat) -> bool {
    if count == size {
        r is Ok
    } else {
        r matches Err(FormatError::SizeMismatch { declared, actual }) && declared == size && actual == count
    }
}

/// What reading a `.ot` body whose header declared `size` nodes yields:
/// nothing for a declared size of zero, the decoded root otherwise, failing
/// as the decoder fails or when the count disagrees with `size`.
pub open spec fn full_body_ok(data: Seq<u8>, pos: int, size: usize, limit: nat, root: Option<Node<u32>>, end: int) -> bool {
    if size == 0 {
        root is None && end == pos
    } else {
        &&& full_scan(data, pos, 0, limit) == Ok::<int, FormatError>(end)
        &&& root matches Some(n) && {
            &&& n.wf()
            &&& within_depth(n, 0, limit)
            &&& data.subrange(pos, end) == full_bytes(n)
            &&& n.spec_size() == size
        }
    }
}

/// Reads the `.ot` payload after a header that declared `size` nodes.
///
/// A declared size of zero reads nothing. Otherwise the root is decoded,
/// and its node count must match the declaration.
pub fn read_full_body(reader: &mut ByteReader, size: usize, limit: u32) -> (r: Result<
    Option<Node<u32>>,
    FormatError,
>)
    requires
        old(reader).wf(),
        limit < u32::MAX,
    ensures
        final(reader).wf(),
        final(reader).spec_data() == old(reader).spec_data(),
        r matches Ok(root) ==> full_body_ok(old(reader).spec_data(), old(reader).spec_pos() as int, size, limit as nat, root, final(reader).spec_pos() as int),
        size > 0 ==> match full_scan(old(reader).spec_data(), old(reader).spec_pos() as int, 0, limit as nat) {
            Err(e) => r == Err::<Option<Node<u32>>, FormatError>(e),
            Ok(end) => {
                &&& exists|n: Node<u32>| #[trigger] full_decodes_to(n, old(reader).spec_data(), old(reader).spec_pos() as int, end)
                &&& forall|n: Node<u32>| #[trigger] full_decodes_to(n, old(reader).spec_data(), old(reader).spec_pos() as int, end)
                    ==> size_verdict(r, size, n.spec_size())
            },
        },
        size == 0 ==> r is Ok,
{
    if size == 0 {
        return Ok(None);
    }
    let ghost data = reader.spec_data();
    let ghost pos = reader.spec_pos() as int;
    let root = match read_full_node(reader, 0, limit) {
        Ok(n) => n,
        Err(e) => {
            return Err(e);
        },
    };
    let ghost end = reader.spec_pos() as int;
    proof {
        lemma_full_bytes_len(root);
        lemma_full_scan_advances(data, pos, 0, limit as nat);
        assert(reader.data@.len() == reader.data.len());
        assert(data.subrange(pos, end).len() <= data.len());
        assert(full_decodes_to(root, data, pos, end));
        assert forall|n: Node<u32>| #[trigger] full_decodes_to(n, data, pos, end) implies n.spec_size()
            == root.spec_size() by {
            assert(full_bytes(n) + Seq::<u8>::empty() =~= full_bytes(root) + Seq::<u8>::empty());
            lemma_full_bytes_injective(n, root, Seq::empty(), Seq::empty());
            n.lemma_same_tree_size(root);
        }
    }
    let count = root.subtree_size();
    if count != size {
        return Err(FormatError::SizeMismatch { declared: size, actual: count });
    }
    Ok(Some(root))
}

/// Reads a headerless `.ot` payload: empty data is an empty map, anything
/// else one root node and its subtree (trailing bytes are ignored).
pub fn read_full_data(data: &[u8], limit: u32) -> (r: Result<Option<Node<u32>>, FormatError>)
    requires
        limit < u32::MAX,
    ensures
        data@.len() == 0 ==> r == Ok::<Option<Node<u32>>, FormatError>(None),
        data@.len() > 0 ==> match full_scan(data@, 0, 0, limit as nat) {
            Err(e) => r == Err::<Option<Node<u32>>, FormatError>(e),
            Ok(end) => (r matches Ok(Some(n)) && n.wf() && within_depth(n, 0, limit as nat)
                && data@.subrange(0, end) == full_bytes(n)),
        },
{
    let mut reader = ByteReader::new(data);
    if data.len() == 0 {
        return Ok(None);
    }
    match read_full_node(&mut reader, 0, limit) {
        Ok(n) => Ok(Some(n)),
        Err(e) => Err(e),
    }
}

/// Appends the decimal digits of `n`.
pub open spec fn decimal_bytes(n: nat) -> Seq<u8>
    decreases n,
{
    if n < 10 {
        seq![(48 + n) as u8]
    } else {
        decimal_bytes(n / 10) + seq![(48 + n % 10) as u8]
    }
}

/// Appends the decimal digits of `n`, most significant first.
pub fn push_decimal(out: &mut Vec<u8>, n: usize)
    ensures
        final(out)@ == old(out)@ + decimal_bytes(n as nat),
    decreases n,
{
    if n >= 10 {
        push_decimal(out, n / 10);
    }
    let d = (n % 10) as u8;
    out.push(48 + d);
    proof {
        assert(final(out)@ =~= old(out)@ + decimal_bytes(n as nat));
    }
}

fn push_str(out: &mut Vec<u8>, s: &str)
    ensures
        final(out)@ == old(out)@ + s.spec_bytes(),
{
    let b = s.as_bytes();
    let mut i: usize = 0;
    while i < b.len()
        invariant
            i <= b@.len(),
            b@ == s.spec_bytes(),
            out@ == old(out)@ + b@.subrange(0, i as int),
        decreases b@.len() - i,
    {
        out.push(b[i]);
        i += 1;
        proof {
            assert(out@ =~= old(out)@ + b@.subrange(0, i as int));
        }
    }
    proof {
        assert(b@.subrange(0, b@.len() as int) =~= b@);
    }
}

/// The comment lines written under the format marker.
pub const HEADER_COMMENT: &'static str = "# (feel free to add / change comments, but leave the first line as it is!)\n#\n";

/// The header bytes: the marker line, the comment lines, then `id`, `size`,
/// `res` and `data` lines. `res` is the resolution already formatted.
pub open spec fn header_bytes(marker: Seq<u8>, size: usize, res: Seq<u8>) -> Seq<u8> {
    marker + seq![10u8] + HEADER_COMMENT.spec_bytes() + kw_id() + seq![32u8] + TREE_TYPE.spec_bytes()
        + seq![10u8] + kw_size() + seq![32u8] + decimal_bytes(size as nat) + seq![10u8] + kw_res()
        + seq![32u8] + res + seq![10u8] + kw_data() + seq![10u8]
}

/// Appends a map-file header.
pub fn write_header(out: &mut Vec<u8>, marker: &str, size: usize, res: &str)
    ensures
        final(out)@ == old(out)@ + header_bytes(marker.spec_bytes(), size, res.spec_bytes()),
{
    push_str(out, marker);
    out.push(10);
    push_str(out, HEADER_COMMENT);
    out.push(105);
    out.push(100);
    out.push(32);
    push_str(out, TREE_TYPE);
    out.push(10);
    out.push(115);
    out.push(105);
    out.push(122);
    out.push(101);
    out.push(32);
    push_decimal(out, size);
    out.push(10);
    out.push(114);
    out.push(101);
    out.push(115);
    out.push(32);
    push_str(out, res);
    out.push(10);
    out.push(100);
    out.push(97);
    out.push(116);
    out.push(97);
    out.push(10);
    proof {
        assert(final(out)@ =~= old(out)@ + header_bytes(marker.spec_bytes(), size, res.spec_bytes()));
    }
}

/// Appends the `.ot` payload of a map: nothing for an empty map.
pub fn write_full_data(root: Option<&Node<u32>>, out: &mut Vec<u8>)
    requires
        root matches Some(n) ==> n.wf(),
    ensures
        final(out)@ == old(out)@ + match root {
            Some(n) => full_bytes(*n),
            None => Seq::empty(),
        },
{
    match root {
        Some(n) => write_full_node(n, out),
        None => {
            proof {
                assert(out@ =~= old(out)@ + Seq::<u8>::empty());
            }
        },
    }
}

/// Appends the `.bt` payload of a map: nothing for an empty map.
pub fn write_binary_data(root: Option<&Node<bool>>, out: &mut Vec<u8>)
    requires
        root matches Some(n) ==> n.wf(),
    ensures
        final(out)@ == old(out)@ + match root {
            Some(n) => bt_bytes(*n),
            None => Seq::empty(),
        },
{
    match root {
        Some(n) => write_binary_node(n, out),
        None => {
            proof {
                assert(out@ =~= old(out)@ + Seq::<u8>::empty());
            }
        },
    }
}

/// A decoded `.bt` subtree has at most four nodes per byte it was decoded
/// from, plus one.
proof fn lemma_bt_decoded_size(n: Node<CellState>, data: Seq<u8>, pos: int, depth: nat, limit: nat)
    requires
        bt_decoded(n, data, pos, depth, limit),
        bt_scan(data, pos, depth, limit) is Ok,
    ensures
        n.spec_size() <= 4 * (bt_scan(data, pos, depth, limit)->Ok_0 - pos) + 1,
    decreases limit + 1 - depth, 9int,
{
    lemma_bt_decoded_kids_size(n, data, pos + 2, data[pos], data[pos + 1], 0, depth, limit);
}

proof fn lemma_bt_decoded_kids_size(
    n: Node<CellState>,
    data: Seq<u8>,
    p: int,
    d0: u8,
    d1: u8,
    i: int,
    depth: nat,
    limit: nat,
)
    requires
        0 <= i <= 8,
        depth <= limit,
        bt_decoded_kids(n, data, p, d0, d1, i, depth, limit),
        bt_scan_kids(data, p, d0, d1, i, depth, limit) is Ok,
    ensures
        n.kids_size(i) <= 4 * (bt_scan_kids(data, p, d0, d1, i, depth, limit)->Ok_0 - p) + (8 - i),
    decreases limit + 1 - depth, 8 - i,
{
    if i < 8 {
        lemma_code_in_bound(d0, d1, i);
        let code = code_in(d0, d1, i);
        if code == child_code::INNER {
            let c = n.spec_child(i).unwrap();
            let q = bt_scan(data, p, depth + 1, limit)->Ok_0;
            lemma_bt_decoded_size(c, data, p, depth + 1, limit);
            lemma_bt_decoded_kids_size(n, data, q, d0, d1, i + 1, depth, limit);
            lemma_bt_kids_scan_advances(data, q, d0, d1, i + 1, depth, limit);
        } else {
            lemma_bt_decoded_kids_size(n, data, p, d0, d1, i + 1, depth, limit);
            if code != child_code::UNKNOWN {
                let c = n.spec_child(i).unwrap();
                c.lemma_wf_facts();
                c.lemma_childless_size();
            }
        }
    }
}

/// Two subtrees decoded from the same `.bt` bytes have the same number of
/// nodes.
proof fn lemma_bt_decoded_same_size(
    a: Node<CellState>,
    b: Node<CellState>,
    data: Seq<u8>,
    pos: int,
    depth: nat,
    limit: nat,
)
    requires
        bt_decoded(a, data, pos, depth, limit),
        bt_decoded(b, data, pos, depth, limit),
    ensures
        a.spec_size() == b.spec_size(),
    decreases limit + 1 - depth, 9int,
{
    lemma_bt_decoded_kids_same_size(a, b, data, pos + 2, data[pos], data[pos + 1], 0, depth, limit);
}

proof fn lemma_bt_decoded_kids_same_size(
    a: Node<CellState>,
    b: Node<CellState>,
    data: Seq<u8>,
    p: int,
    d0: u8,
    d1: u8,
    i: int,
    depth: nat,
    limit: nat,
)
    requires
        0 <= i <= 8,
        depth <= limit,
        bt_decoded_kids(a, data, p, d0, d1, i, depth, limit),
        bt_decoded_kids(b, data, p, d0, d1, i, depth, limit),
    ensures
        a.kids_size(i) == b.kids_size(i),
    decreases limit + 1 - depth, 8 - i,
{
    if i < 8 {
        lemma_code_in_bound(d0, d1, i);
        let code = code_in(d0, d1, i);
        if code == child_code::INNER {
            let ca = a.spec_child(i).unwrap();
            let cb = b.spec_child(i).unwrap();
            let q = bt_scan(data, p, depth + 1, limit)->Ok_0;
            lemma_bt_decoded_same_size(ca, cb, data, p, depth + 1, limit);
            lemma_bt_decoded_kids_same_size(a, b, data, q, d0, d1, i + 1, depth, limit);
        } else {
            lemma_bt_decoded_kids_same_size(a, b, data, p, d0, d1, i + 1, depth, limit);
            if code != child_code::UNKNOWN {
                let ca = a.spec_child(i).unwrap();
                let cb = b.spec_child(i).unwrap();
                ca.lemma_wf_facts();
                ca.lemma_childless_size();
                cb.lemma_wf_facts();
                cb.lemma_childless_size();
            }
        }
    }
}

proof fn lemma_bt_scan_advances(data: Seq<u8>, pos: int, depth: nat, limit: nat)
    ensures
        bt_scan(data, pos, depth, limit) matches Ok(e) ==> pos + 2 <= e,
    decreases limit + 1 - depth, 9int,
{
    if depth <= limit && 0 <= pos && pos + 2 <= data.len() {
        lemma_bt_kids_scan_advances(data, pos + 2, data[pos], data[pos + 1], 0, depth, limit);
    }
}

proof fn lemma_bt_kids_scan_advances(
    data: Seq<u8>,
    pos: int,
    d0: u8,
    d1: u8,
    i: int,
    depth: nat,
    limit: nat,
)
    ensures
        bt_scan_kids(data, pos, d0, d1, i, depth, limit) matches Ok(e) ==> pos <= e,
    decreases limit + 1 - depth, 8 - i,
{
    if 0 <= i < 8 && depth <= limit {
        if code_in(d0, d1, i) == child_code::INNER {
            lemma_bt_scan_advances(data, pos, depth + 1, limit);
            if let Ok(q) = bt_scan(data, pos, depth + 1, limit) {
                lemma_bt_kids_scan_advances(data, q, d0, d1, i + 1, depth, limit);
            }
        } else {
            lemma_bt_kids_scan_advances(data, pos, d0, d1, i + 1, depth, limit);
        }
    }
}

/// What reading a `.bt` body whose header declared `size` nodes yields.
pub open spec fn binary_body_ok(data: Seq<u8>, pos: int, size: usize, limit: nat, root: Option<Node<CellState>>, end: int) -> bool {
    if size == 0 {
        root is None && end == pos
    } else {
        &&& bt_scan(data, pos, 0, limit) == Ok::<int, FormatError>(end)
        &&& root matches Some(n) && {
            &&& bt_decoded(n, data, pos, 0, limit)
            &&& n.spec_value() == CellState::Occupied
            &&& n.spec_size() == size
        }
    }
}

/// Reads the `.bt` payload after a header that declared `size` nodes.
///
/// A declared size of zero reads nothing. Otherwise the root is decoded,
/// and its node count must match the declaration. The buffer must be small
/// enough that four nodes per byte still count in a `usize`.
pub fn read_binary_body(reader: &mut ByteReader, size: usize, limit: u32) -> (r: Result<
    Option<Node<CellState>>,
    FormatError,
>)
    requires
        old(reader).wf(),
        limit < u32::MAX,
        4 * old(reader).spec_data().len() + 1 <= usize::MAX,
    ensures
        final(reader).wf(),
        final(reader).spec_data() == old(reader).spec_data(),
        r matches Ok(root) ==> binary_body_ok(old(reader).spec_data(), old(reader).spec_pos() as int, size, limit as nat, root, final(reader).spec_pos() as int),
        size > 0 ==> match bt_scan(old(reader).spec_data(), old(reader).spec_pos() as int, 0, limit as nat) {
            Err(e) => r == Err::<Option<Node<CellState>>, FormatError>(e),
            Ok(end) => {
                &&& exists|n: Node<CellState>| #[trigger] bt_decoded(n, old(reader).spec_data(), old(reader).spec_pos() as int, 0, limit as nat)
                &&& forall|n: Node<CellState>| #[trigger] bt_decoded(n, old(reader).spec_data(), old(reader).spec_pos() as int, 0, limit as nat)
                    ==> size_verdict(r, size, n.spec_size())
            },
        },
        size == 0 ==> r is Ok,
        r matches Ok(Some(n)) ==> inner_values_cover(n),
{
    if size == 0 {
        return Ok(None);
    }
    let ghost data = reader.spec_data();
    let ghost pos = reader.spec_pos() as int;
    let root = match read_binary_node(reader, 0, limit) {
        Ok(n) => n,
        Err(e) => {
            return Err(e);
        },
    };
    proof {
        lemma_bt_decoded_size(root, data, pos, 0, limit as nat);
        lemma_bt_scan_advances(data, pos, 0, limit as nat);
        assert forall|n: Node<CellState>| #[trigger] bt_decoded(n, data, pos, 0, limit as nat) implies n.spec_size()
            == root.spec_size() by {
            lemma_bt_decoded_same_size(n, root, data, pos, 0, limit as nat);
        }
        law_decoded_inner_values(root, data, pos, 0, limit as nat);
    }
    let count = root.subtree_size();
    if count != size {
        return Err(FormatError::SizeMismatch { declared: size, actual: count });
    }
    Ok(Some(root))
}

/// Reads a headerless `.bt` payload: empty data is an empty map, anything
/// else one root node and its subtree (trailing bytes are ignored).
pub fn read_binary_data(data: &[u8], limit: u32) -> (r: Result<Option<Node<CellState>>, FormatError>)
    requires
        limit < u32::MAX,
    ensures
        data@.len() == 0 ==> r == Ok::<Option<Node<CellState>>, FormatError>(None),
        data@.len() > 0 ==> match bt_scan(data@, 0, 0, limit as nat) {
            Err(e) => r == Err::<Option<Node<CellState>>, FormatError>(e),
            Ok(end) => (r matches Ok(Some(n)) && bt_decoded(n, data@, 0, 0, limit as nat)
                && n.spec_value() == CellState::Occupied),
        },
        r matches Ok(Some(n)) ==> inner_values_cover(n),
{
    let mut reader = ByteReader::new(data);
    if data.len() == 0 {
        return Ok(None);
    }
    match read_binary_node(&mut reader, 0, limit) {
        Ok(n) => {
            proof {
                law_decoded_inner_values(n, data@, 0, 0, limit as nat);
            }
            Ok(Some(n))
        },
        Err(e) => Err(e),
    }
}

} // verus!
