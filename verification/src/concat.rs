//! Concatenation of two bytecode images into one. It runs before symbol
//! resolution, so every reference is still symbolic and whole sections can
//! move without an offset fix-up pass.

use vstd::prelude::*;
use vstd::bytes::{spec_u32_to_le_bytes, u32_to_le_bytes};
use crate::codec::{
    spec_encode_header, spec_globals_start, spec_header, spec_image_ok, spec_main_off, Header,
    parse_header,
};
use crate::linker::LinkError;

verus! {

/// The header of the combined image: the shared format tag, the two data
/// tables' lengths summed as the new global-table offset, the two entry
/// counts summed, and the first image's reserved word.
pub open spec fn spec_concat_header(a: Seq<u8>, b: Seq<u8>) -> Header {
    Header {
        writer_version: spec_header(a).writer_version,
        globals_tab_off: (spec_header(a).globals_tab_off + spec_header(b).globals_tab_off) as u32,
        globals_tab_num: (spec_header(a).globals_tab_num + spec_header(b).globals_tab_num) as u32,
        reserved: spec_header(a).reserved,
    }
}

/// The combined image: the rewritten header, then both data tables, then
/// both global tables, then both main instruction areas, each pair in
/// first-then-appended order and each section byte-for-byte unchanged.
pub open spec fn spec_concat(a: Seq<u8>, b: Seq<u8>) -> Seq<u8> {
    spec_encode_header(spec_concat_header(a, b)) + a.subrange(16, spec_globals_start(a))
        + b.subrange(16, spec_globals_start(b)) + a.subrange(
        spec_globals_start(a),
        spec_main_off(a),
    ) + b.subrange(spec_globals_start(b), spec_main_off(b)) + a.subrange(
        spec_main_off(a),
        a.len() as int,
    ) + b.subrange(spec_main_off(b), b.len() as int)
}

/// Appends the little-endian bytes of `x`.
fn push_u32(dst: &mut Vec<u8>, x: u32)
    ensures
        final(dst)@ == old(dst)@ + spec_u32_to_le_bytes(x),
{
    let bs = u32_to_le_bytes(x);
    dst.push(bs[0]);
    dst.push(bs[1]);
    dst.push(bs[2]);
    dst.push(bs[3]);
    proof {
        assert(dst@ =~= old(dst)@ + spec_u32_to_le_bytes(x));
    }
}

/// Appends the bytes `src[from..to]`.
fn push_range(dst: &mut Vec<u8>, src: &Vec<u8>, from: usize, to: usize)
    requires
        from <= to <= src@.len(),
    ensures
        final(dst)@ == old(dst)@ + src@.subrange(from as int, to as int),
{
    let mut i = from;
    while i < to
        invariant
            from <= i <= to <= src@.len(),
            dst@ == old(dst)@ + src@.subrange(from as int, i as int),
        decreases to - i,
    {
        dst.push(src[i]);
        proof {
            assert(old(dst)@ + src@.subrange(from as int, i as int) + seq![src@[i as int]] =~= old(
                dst,
            )@ + src@.subrange(from as int, i as int + 1));
        }
        i = i + 1;
    }
}

/// Merges the image `input` onto the image `out_img`, producing the single
/// combined image: both data tables, then both global tables, then both
/// main instruction areas, under a header whose entry count and table
/// offset are the sums of the two. Fails with a version mismatch when the
/// two format tags differ, and with a decode error when either image's
/// structure does not fit its buffer.
pub fn concat_images(out_img: &Vec<u8>, input: &Vec<u8>) -> (r: Result<Vec<u8>, LinkError>)
    requires
        spec_image_ok(out_img@) && spec_image_ok(input@) ==> spec_header(
            out_img@,
        ).globals_tab_off + spec_header(input@).globals_tab_off <= u32::MAX && spec_header(
            out_img@,
        ).globals_tab_num + spec_header(input@).globals_tab_num <= u32::MAX,
    ensures
        r is Ok <==> (spec_image_ok(out_img@) && spec_image_ok(input@) && spec_header(
            out_img@,
        ).writer_version == spec_header(input@).writer_version),
        r matches Ok(v) ==> v@ == spec_concat(out_img@, input@),
        r matches Ok(v) ==> spec_image_ok(v@) && spec_header(v@) == spec_concat_header(
            out_img@,
            input@,
        ),
        r matches Err(e) ==> (e matches LinkError::VersionMismatch <==> (spec_image_ok(out_img@)
            && spec_image_ok(input@))),
        r matches Err(e) ==> (e matches LinkError::VersionMismatch || e matches LinkError::ByteCode(
            _,
        )),
        r matches Err(LinkError::VersionMismatch) ==> spec_header(out_img@).writer_version
            != spec_header(input@).writer_version,
{
    let ha = match parse_header(out_img) {
        Ok(h) => h,
        Err(e) => {
            return Err(LinkError::ByteCode(e));
        },
    };
    let hb = match parse_header(input) {
        Ok(h) => h,
        Err(e) => {
            return Err(LinkError::ByteCode(e));
        },
    };
    if ha.writer_version != hb.writer_version {
        return Err(LinkError::VersionMismatch);
    }
    let a_len = out_img.len();
    let b_len = input.len();
    proof {
        assert(8 * spec_header(out_img@).globals_tab_num >= 0);
        assert(8 * spec_header(input@).globals_tab_num >= 0);
    }
    let gs_a = 16 + ha.globals_tab_off as usize;
    let mo_a = gs_a + 8 * (ha.globals_tab_num as usize);
    let gs_b = 16 + hb.globals_tab_off as usize;
    let mo_b = gs_b + 8 * (hb.globals_tab_num as usize);
    let nh = Header {
        writer_version: ha.writer_version,
        globals_tab_off: ha.globals_tab_off + hb.globals_tab_off,
        globals_tab_num: ha.globals_tab_num + hb.globals_tab_num,
        reserved: ha.reserved,
    };
    let mut v: Vec<u8> = Vec::new();
    push_u32(&mut v, nh.writer_version);
    push_u32(&mut v, nh.globals_tab_off);
    push_u32(&mut v, nh.globals_tab_num);
    push_u32(&mut v, nh.reserved);
    proof {
        assert(v@ =~= spec_encode_header(spec_concat_header(out_img@, input@)));
    }
    push_range(&mut v, out_img, 16, gs_a);
    push_range(&mut v, input, 16, gs_b);
    push_range(&mut v, out_img, gs_a, mo_a);
    push_range(&mut v, input, gs_b, mo_b);
    push_range(&mut v, out_img, mo_a, a_len);
    push_range(&mut v, input, mo_b, b_len);
    proof {
        assert(v@ =~= spec_concat(out_img@, input@));
        lemma_concat_header(out_img@, input@, v@);
    }
    Ok(v)
}

/// The combined image decodes back to the combined header, and its table
/// structure fits its buffer.
proof fn lemma_concat_header(a: Seq<u8>, b: Seq<u8>, v: Seq<u8>)
    requires
        spec_image_ok(a),
        spec_image_ok(b),
        spec_header(a).globals_tab_off + spec_header(b).globals_tab_off <= u32::MAX,
        spec_header(a).globals_tab_num + spec_header(b).globals_tab_num <= u32::MAX,
        v == spec_concat(a, b),
    ensures
        spec_header(v) == spec_concat_header(a, b),
        spec_image_ok(v),
{
    vstd::bytes::lemma_auto_spec_u32_to_from_le_bytes();
    let nh = spec_concat_header(a, b);
    assert(v.subrange(0, 4) =~= spec_u32_to_le_bytes(nh.writer_version));
    assert(v.subrange(4, 8) =~= spec_u32_to_le_bytes(nh.globals_tab_off));
    assert(v.subrange(8, 12) =~= spec_u32_to_le_bytes(nh.globals_tab_num));
    assert(v.subrange(12, 16) =~= spec_u32_to_le_bytes(nh.reserved));
    assert(spec_header(v) == nh);
    assert(v.len() == 16 + (spec_globals_start(a) - 16) + (spec_globals_start(b) - 16) + (
    spec_main_off(a) - spec_globals_start(a)) + (spec_main_off(b) - spec_globals_start(b)) + (
    a.len() - spec_main_off(a)) + (b.len() - spec_main_off(b)));
    assert(8 * nh.globals_tab_num == 8 * spec_header(a).globals_tab_num + 8 * spec_header(
        b,
    ).globals_tab_num);
}

} // verus!
