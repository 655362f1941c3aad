//! The byte layout of a bytecode image: the fixed header, the global table,
//! the string entries of the data table, and the five-byte instruction
//! encoding, together with verified decoders for each of them.

use vstd::prelude::*;
use vstd::bytes::{spec_u32_from_le_bytes, spec_u32_to_le_bytes, u32_from_le_bytes};
use vstd::slice::{slice_subrange, slice_to_vec};

verus! {

/// A structural fault found while decoding an image.
#[derive(Debug, Clone, Copy, PartialEq, Eq, Structural)]
pub enum ByteCodeError {
    /// The buffer ends before the record being read does.
    Truncated,
    /// An instruction byte holds no known opcode.
    BadOpcode,
    /// A string reference does not name a well-formed entry of the data table.
    BadString,
}

/// The fixed sixteen-byte header at the start of every image: a format tag,
/// the byte offset (from the end of the header) of the global table, the
/// number of its eight-byte entries, and a reserved word carried unchanged.
#[derive(Debug, Clone, Copy, PartialEq, Eq, Structural)]
pub struct Header {
    pub writer_version: u32,
    pub globals_tab_off: u32,
    pub globals_tab_num: u32,
    pub reserved: u32,
}

/// One decoded instruction. Every instruction occupies exactly five bytes:
/// an opcode byte followed by a four-byte little-endian operand, so a
/// symbolic reference can be rewritten in place into a direct one.
#[derive(Debug, Clone, Copy, PartialEq, Eq, Structural)]
pub enum Op {
    /// Ends the contiguous instruction run it stands in.
    End,
    /// A symbolic reference to the string-table entry `id`, pending linking.
    Unresolved { id: u32 },
    /// A direct reference to the absolute byte offset `idx`.
    Const { idx: u32 },
    /// Any other operation; the linker passes it through untouched.
    Other { arg: u32 },
}

/// The header read from the first sixteen bytes of `b`.
pub open spec fn spec_header(b: Seq<u8>) -> Header {
    Header {
        writer_version: spec_u32_from_le_bytes(b.subrange(0, 4)),
        globals_tab_off: spec_u32_from_le_bytes(b.subrange(4, 8)),
        globals_tab_num: spec_u32_from_le_bytes(b.subrange(8, 12)),
        reserved: spec_u32_from_le_bytes(b.subrange(12, 16)),
    }
}

/// The sixteen bytes that encode `h`.
pub open spec fn spec_encode_header(h: Header) -> Seq<u8> {
    spec_u32_to_le_bytes(h.writer_version) + spec_u32_to_le_bytes(h.globals_tab_off)
        + spec_u32_to_le_bytes(h.globals_tab_num) + spec_u32_to_le_bytes(h.reserved)
}

/// The absolute offset at which the global table starts.
pub open spec fn spec_globals_start(b: Seq<u8>) -> int {
    16 + spec_header(b).globals_tab_off
}

/// The absolute offset at which the main instruction area starts: right
/// after the last global-table entry.
pub open spec fn spec_main_off(b: Seq<u8>) -> int {
    spec_globals_start(b) + 8 * spec_header(b).globals_tab_num
}

/// The header and the table structure fit inside the buffer.
pub open spec fn spec_image_ok(b: Seq<u8>) -> bool {
    b.len() >= 16 && spec_main_off(b) <= b.len()
}

/// The instruction decoded at byte offset `p`, if the five bytes there hold
/// a known opcode.
pub open spec fn spec_op_at(b: Seq<u8>, p: int) -> Option<Op> {
    if 0 <= p && p + 5 <= b.len() {
        let arg = spec_u32_from_le_bytes(b.subrange(p + 1, p + 5));
        if b[p] == 0 {
            Some(Op::End)
        } else if b[p] == 1 {
            Some(Op::Unresolved { id: arg })
        } else if b[p] == 2 {
            Some(Op::Const { idx: arg })
        } else if b[p] == 3 {
            Some(Op::Other { arg })
        } else {
            None
        }
    } else {
        None
    }
}

/// The five bytes that encode `op`.
pub open spec fn spec_encode_op(op: Op) -> Seq<u8> {
    match op {
        Op::End => seq![0u8] + spec_u32_to_le_bytes(0),
        Op::Unresolved { id } => seq![1u8] + spec_u32_to_le_bytes(id),
        Op::Const { idx } => seq![2u8] + spec_u32_to_le_bytes(idx),
        Op::Other { arg } => seq![3u8] + spec_u32_to_le_bytes(arg),
    }
}

/// Decoding an encoded instruction gives the instruction back, wherever its
/// five bytes sit in a buffer.
pub proof fn lemma_encode_op_decodes(b: Seq<u8>, p: int, op: Op)
    requires
        0 <= p,
        p + 5 <= b.len(),
        b.subrange(p, p + 5) == spec_encode_op(op),
    ensures
        spec_op_at(b, p) == Some(op),
{
    vstd::bytes::lemma_auto_spec_u32_to_from_le_bytes();
    let e = spec_encode_op(op);
    assert(b[p] == e[0]);
    assert(b.subrange(p + 1, p + 5) =~= e.subrange(1, 5));
    match op {
        Op::End => {
            assert(e.subrange(1, 5) =~= spec_u32_to_le_bytes(0));
        }
        Op::Unresolved { id } => {
            assert(e.subrange(1, 5) =~= spec_u32_to_le_bytes(id));
        }
        Op::Const { idx } => {
            assert(e.subrange(1, 5) =~= spec_u32_to_le_bytes(idx));
        }
        Op::Other { arg } => {
            assert(e.subrange(1, 5) =~= spec_u32_to_le_bytes(arg));
        }
    }
}

/// Reads the header and checks that the global table it announces lies
/// inside the buffer.
pub fn parse_header(b: &Vec<u8>) -> (r: Result<Header, ByteCodeError>)
    ensures
        r is Ok <==> spec_image_ok(b@),
        r matches Ok(h) ==> h == spec_header(b@),
{
    if b.len() < 16 {
        return Err(ByteCodeError::Truncated);
    }
    let s = b.as_slice();
    let h = Header {
        writer_version: u32_from_le_bytes(slice_subrange(s, 0, 4)),
        globals_tab_off: u32_from_le_bytes(slice_subrange(s, 4, 8)),
        globals_tab_num: u32_from_le_bytes(slice_subrange(s, 8, 12)),
        reserved: u32_from_le_bytes(slice_subrange(s, 12, 16)),
    };
    let off = h.globals_tab_off as usize;
    let num = h.globals_tab_num as usize;
    if off > b.len() - 16 {
        return Err(ByteCodeError::Truncated);
    }
    let rem = b.len() - 16 - off;
    if num > rem / 8 {
        proof {
            assert(8 * num > rem) by (nonlinear_arith)
                requires num > rem / 8, rem >= 0, num >= 0;
        }
        return Err(ByteCodeError::Truncated);
    }
    proof {
        assert(8 * num <= rem) by (nonlinear_arith)
            requires num <= rem / 8, rem >= 0, num >= 0;
    }
    Ok(h)
}

/// The contiguous instruction run starting at byte offset `off`: the
/// decoded `(position, instruction)` pairs up to and including the first
/// `End`, or `None` if a five-byte frame fails to decode first.
pub open spec fn spec_run(b: Seq<u8>, off: int) -> Option<Seq<(int, Op)>>
    decreases b.len() - off,
{
    match spec_op_at(b, off) {
        None => None,
        Some(op) => if op is End {
            Some(seq![(off, op)])
        } else {
            match spec_run(b, off + 5) {
                None => None,
                Some(rest) => Some(seq![(off, op)] + rest),
            }
        },
    }
}

/// Every entry of a decoded run sits five bytes after the one before it,
/// decodes at its own position, and only the last entry is an `End`.
pub proof fn lemma_run_entries(b: Seq<u8>, off: int)
    requires
        spec_run(b, off) is Some,
    ensures
        ({
            let run = spec_run(b, off).unwrap();
            run.len() >= 1 && run[0].0 == off && forall|i: int|
                0 <= i < run.len() ==> (#[trigger] run[i]).0 == off + 5 * i
                    && spec_op_at(b, run[i].0) == Some(run[i].1)
        }),
    decreases b.len() - off,
{
    let run = spec_run(b, off).unwrap();
    let op = spec_op_at(b, off).unwrap();
    if !(op is End) {
        lemma_run_entries(b, off + 5);
        let rest = spec_run(b, off + 5).unwrap();
        assert forall|i: int| 0 <= i < run.len() implies (#[trigger] run[i]).0 == off + 5 * i
            && spec_op_at(b, run[i].0) == Some(run[i].1) by {
            if i >= 1 {
                assert(run[i] == rest[i - 1]);
            }
        }
    }
}

/// A run decodes again from any of its own positions, as its suffix: the
/// entries from that position on.
pub proof fn lemma_run_suffix(b: Seq<u8>, off: int, i: int)
    requires
        spec_run(b, off) is Some,
        0 <= i < spec_run(b, off).unwrap().len(),
    ensures
        spec_run(b, spec_run(b, off).unwrap()[i].0) == Some(spec_run(b, off).unwrap().skip(i)),
    decreases i,
{
    let sr = spec_run(b, off).unwrap();
    let op = spec_op_at(b, off).unwrap();
    if i == 0 {
        assert(sr[0].0 == off);
        assert(sr.skip(0) =~= sr);
    } else {
        let rest = spec_run(b, off + 5).unwrap();
        lemma_run_suffix(b, off + 5, i - 1);
        assert(sr[i] == rest[i - 1]);
        assert(rest.skip(i - 1) =~= sr.skip(i));
    }
}

/// The string named by reference `id`: at offset `16 + id` of the image a
/// length byte, then that many bytes of name, all inside the data table.
pub open spec fn spec_string_at(b: Seq<u8>, id: u32) -> Option<Seq<u8>> {
    let s = 16 + id as int;
    if s < spec_globals_start(b) && s + 1 + b[s] <= spec_globals_start(b) {
        Some(b.subrange(s + 1, s + 1 + b[s]))
    } else {
        None
    }
}

/// The `(name reference, body offset)` pair of global-table entry `i`.
pub open spec fn spec_global_entry(b: Seq<u8>, i: int) -> (u32, u32) {
    let g = spec_globals_start(b) + 8 * i;
    (
        spec_u32_from_le_bytes(b.subrange(g, g + 4)),
        spec_u32_from_le_bytes(b.subrange(g + 4, g + 8)),
    )
}

/// All global-table entries, in table order.
pub open spec fn spec_globals(b: Seq<u8>) -> Seq<(u32, u32)> {
    Seq::new(spec_header(b).globals_tab_num as nat, |i: int| spec_global_entry(b, i))
}

/// Every global's name reference resolves to a string-table entry.
pub open spec fn spec_names_ok(b: Seq<u8>) -> bool {
    forall|i: int| 0 <= i < spec_globals(b).len() ==> (#[trigger] spec_string_at(
        b,
        spec_globals(b)[i].0,
    )) is Some
}

/// The symbol table declared by the image: each global's name, resolved
/// through the string table, beside its body offset, in table order.
pub open spec fn spec_symtab(b: Seq<u8>) -> Seq<(Seq<u8>, u32)> {
    Seq::new(
        spec_globals(b).len(),
        |i: int| (spec_string_at(b, spec_globals(b)[i].0).unwrap(), spec_globals(b)[i].1),
    )
}

/// Entry `j` of the symbol table repeats the name of an earlier entry.
pub open spec fn spec_dup_at(tab: Seq<(Seq<u8>, u32)>, j: int) -> bool {
    exists|i: int| 0 <= i < j && (#[trigger] tab[i]).0 == tab[j].0
}

/// Some symbol-table entry repeats the name of an earlier one.
pub open spec fn spec_has_dup(tab: Seq<(Seq<u8>, u32)>) -> bool {
    exists|j: int| 0 <= j < tab.len() && #[trigger] spec_dup_at(tab, j)
}

/// The symbol table declares the name `n`.
pub open spec fn spec_declares(tab: Seq<(Seq<u8>, u32)>, n: Seq<u8>) -> bool {
    exists|i: int| 0 <= i < tab.len() && (#[trigger] tab[i]).0 == n
}

/// Reads the string named by reference `id`, as the owned bytes of its name.
pub fn read_string(b: &Vec<u8>, id: u32) -> (r: Result<Vec<u8>, ByteCodeError>)
    requires
        spec_image_ok(b@),
    ensures
        r is Ok <==> spec_string_at(b@, id) is Some,
        r matches Ok(n) ==> spec_string_at(b@, id) == Some(n@),
{
    let total = b.len();
    proof {
        assert(8 * spec_header(b@).globals_tab_num >= 0);
        assert(16 + spec_header(b@).globals_tab_off <= total);
    }
    let gs = 16 + (globals_off_of(b) as usize);
    let s = id as usize;
    if s >= gs - 16 {
        return Err(ByteCodeError::BadString);
    }
    let start = 16 + s;
    let len = b[start] as usize;
    if len > gs - start - 1 {
        return Err(ByteCodeError::BadString);
    }
    let name = slice_to_vec(slice_subrange(b.as_slice(), start + 1, start + 1 + len));
    proof {
        assert(b@.subrange(start + 1, start + 1 + len) =~= b@.subrange(
            16 + id as int + 1,
            16 + id as int + 1 + b@[16 + id as int],
        ));
    }
    Ok(name)
}

/// Reads field `globals_tab_off` of an image already checked well formed.
fn globals_off_of(b: &Vec<u8>) -> (r: u32)
    requires
        spec_image_ok(b@),
    ensures
        r == spec_header(b@).globals_tab_off,
{
    u32_from_le_bytes(slice_subrange(b.as_slice(), 4, 8))
}

/// Reads global-table entry `i` of an image already checked well formed.
pub fn global_entry(b: &Vec<u8>, i: usize) -> (r: (u32, u32))
    requires
        spec_image_ok(b@),
        i < spec_globals(b@).len(),
    ensures
        r == spec_globals(b@)[i as int],
{
    let total = b.len();
    let off = globals_off_of(b) as usize;
    proof {
        assert(8 * i + 8 <= 8 * spec_header(b@).globals_tab_num) by (nonlinear_arith)
            requires i < spec_header(b@).globals_tab_num;
        assert(16 + off + 8 * i + 8 <= total);
    }
    let g = 16 + off + 8 * i;
    let name_id = u32_from_le_bytes(slice_subrange(b.as_slice(), g, g + 4));
    let body = u32_from_le_bytes(slice_subrange(b.as_slice(), g + 4, g + 8));
    proof {
        let gg = spec_globals_start(b@) + 8 * (i as int);
        assert(b@.subrange(g as int, g + 4) =~= b@.subrange(gg, gg + 4));
        assert(b@.subrange(g + 4, g + 8) =~= b@.subrange(gg + 4, gg + 8));
    }
    (name_id, body)
}

/// Decodes the contiguous instruction run starting at byte offset `off`.
pub fn decode_run(b: &Vec<u8>, off: usize) -> (r: Result<Vec<(usize, Op)>, ByteCodeError>)
    ensures
        r is Ok <==> spec_run(b@, off as int) is Some,
        r matches Ok(v) ==> ({
            let run = spec_run(b@, off as int).unwrap();
            v@.len() == run.len() && forall|i: int|
                0 <= i < v@.len() ==> (#[trigger] v@[i]).0 == run[i].0 && v@[i].1 == run[i].1
        }),
{
    let mut v: Vec<(usize, Op)> = Vec::new();
    let mut p = off;
    loop
        invariant
            off <= p,
            spec_run(b@, off as int) is Some <==> spec_run(b@, p as int) is Some,
            spec_run(b@, p as int) matches Some(rest) ==> ({
                let run = spec_run(b@, off as int).unwrap();
                run =~= v@.map_values(|e: (usize, Op)| (e.0 as int, e.1)) + rest
            }),
            forall|i: int| 0 <= i < v@.len() ==> !((#[trigger] v@[i]).1 is End),
            v@.len() * 5 == p - off,
        decreases b@.len() + 1 - p,
    {
        if p >= b.len() || b.len() - p < 5 {
            assert(spec_op_at(b@, p as int) is None);
            return Err(ByteCodeError::Truncated);
        }
        let op = match op_at(b, p) {
            Ok(op) => op,
            Err(e) => {
                return Err(e);
            },
        };
        let ghost old_v = v@;
        v.push((p, op));
        proof {
            assert(v@.map_values(|e: (usize, Op)| (e.0 as int, e.1)) =~= old_v.map_values(
                |e: (usize, Op)| (e.0 as int, e.1),
            ) + seq![(p as int, op)]);
        }
        match op {
            Op::End => {
                proof {
                    let run = spec_run(b@, off as int).unwrap();
                    assert(run =~= v@.map_values(|e: (usize, Op)| (e.0 as int, e.1)));
                }
                return Ok(v);
            },
            _ => {
                p = p + 5;
            },
        }
    }
}

/// Decodes the instruction at byte offset `p`.
pub fn op_at(b: &Vec<u8>, p: usize) -> (r: Result<Op, ByteCodeError>)
    ensures
        r is Ok <==> spec_op_at(b@, p as int) is Some,
        r matches Ok(op) ==> spec_op_at(b@, p as int) == Some(op),
{
    if p >= b.len() || b.len() - p < 5 {
        return Err(ByteCodeError::Truncated);
    }
    let code = b[p];
    let arg = u32_from_le_bytes(slice_subrange(b.as_slice(), p + 1, p + 5));
    proof {
        assert(b@.subrange(p + 1, p + 5) =~= b@.subrange(p as int + 1, p as int + 5));
    }
    match code {
        0 => Ok(Op::End),
        1 => Ok(Op::Unresolved { id: arg }),
        2 => Ok(Op::Const { idx: arg }),
        3 => Ok(Op::Other { arg }),
        _ => Err(ByteCodeError::BadOpcode),
    }
}

} // verus!
