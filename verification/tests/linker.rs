use bytecode::codec::{decode_run, op_at};
use bytecode::{
    concat_images, parse_header, self_link, AllowNames, ByteCodeError, DenyUndeclared, LinkError,
    Op, Target,
};

fn allow_none() -> DenyUndeclared {
    DenyUndeclared
}

fn allow(name: &[u8]) -> AllowNames {
    AllowNames { names: vec![name.to_vec()] }
}

fn push_u32(v: &mut Vec<u8>, x: u32) {
    v.extend_from_slice(&x.to_le_bytes());
}

fn push_op(v: &mut Vec<u8>, code: u8, arg: u32) {
    v.push(code);
    push_u32(v, arg);
}

/// Builds an image: `strings` become the data table as length-prefixed
/// entries, `globals` holds `(name id, body offset)` pairs, `ops` the
/// bytes after the global table.
fn image(version: u32, strings: &[&[u8]], globals: &[(u32, u32)], ops: &[u8]) -> Vec<u8> {
    let mut data = Vec::new();
    for s in strings {
        data.push(s.len() as u8);
        data.extend_from_slice(s);
    }
    let mut v = Vec::new();
    push_u32(&mut v, version);
    push_u32(&mut v, data.len() as u32);
    push_u32(&mut v, globals.len() as u32);
    push_u32(&mut v, 0);
    v.extend_from_slice(&data);
    for (name_id, body) in globals {
        push_u32(&mut v, *name_id);
        push_u32(&mut v, *body);
    }
    v.extend_from_slice(ops);
    v
}

#[test]
fn header_round_trip() {
    let img = image(7, &[b"x"], &[(0, 0)], &[0, 0, 0, 0, 0]);
    let h = parse_header(&img).unwrap();
    assert_eq!(h.writer_version, 7);
    assert_eq!(h.globals_tab_off, 2);
    assert_eq!(h.globals_tab_num, 1);
}

#[test]
fn header_truncated() {
    let img = vec![1u8, 2, 3];
    assert!(matches!(parse_header(&img), Err(ByteCodeError::Truncated)));
}

#[test]
fn header_table_does_not_fit() {
    let mut img = Vec::new();
    push_u32(&mut img, 1);
    push_u32(&mut img, 0);
    push_u32(&mut img, 100);
    push_u32(&mut img, 0);
    assert!(matches!(parse_header(&img), Err(ByteCodeError::Truncated)));
}

#[test]
fn op_decoding() {
    let img = image(1, &[], &[], &[2, 9, 0, 0, 0, 1, 3, 0, 0, 0, 0, 0, 0, 0, 0]);
    assert_eq!(op_at(&img, 16).unwrap(), Op::Const { idx: 9 });
    assert_eq!(op_at(&img, 21).unwrap(), Op::Unresolved { id: 3 });
    assert_eq!(op_at(&img, 26).unwrap(), Op::End);
    let run = decode_run(&img, 16).unwrap();
    assert_eq!(run.len(), 3);
    assert_eq!(run[0], (16, Op::Const { idx: 9 }));
    assert_eq!(run[2], (26, Op::End));
}

#[test]
fn bad_opcode_rejected() {
    let img = image(1, &[], &[], &[9, 0, 0, 0, 0]);
    assert!(matches!(op_at(&img, 16), Err(ByteCodeError::BadOpcode)));
    assert!(matches!(decode_run(&img, 16), Err(ByteCodeError::BadOpcode)));
}

#[test]
fn link_resolves_declared_symbol() {
    // layout: header 16, data "foo" 16..20, one global 20..28, main 28
    // main run: Unresolved "foo" at 28, End at 33; body of "foo" at 38
    let mut ops = Vec::new();
    push_op(&mut ops, 1, 0);
    push_op(&mut ops, 0, 0);
    push_op(&mut ops, 0, 0);
    let mut img = image(1, &[b"foo"], &[(0, 38)], &ops);
    let r = self_link(&mut img, &allow_none());
    assert!(r.is_ok(), "{:?}", r);
    assert_eq!(op_at(&img, 28).unwrap(), Op::Const { idx: 38 });
    assert_eq!(op_at(&img, 33).unwrap(), Op::End);
}

#[test]
fn link_without_symbolic_references_is_identity() {
    // layout: header 16, data "g" 16..18, one global 18..26, main 26
    // main run: Const 31 at 26, End at 31; the body of "g" is the End run at 31
    let mut ops = Vec::new();
    push_op(&mut ops, 2, 31);
    push_op(&mut ops, 0, 0);
    push_op(&mut ops, 0, 0);
    let mut img = image(1, &[b"g"], &[(0, 31)], &ops);
    let before = img.clone();
    let r = self_link(&mut img, &allow_none());
    assert!(r.is_ok(), "{:?}", r);
    assert_eq!(img, before);
}

#[test]
fn duplicate_symbol_rejected() {
    // layout: header 16, data "foo" 16..20, two globals 20..36, main 36
    let mut ops = Vec::new();
    push_op(&mut ops, 0, 0);
    let mut img = image(1, &[b"foo"], &[(0, 36), (0, 36)], &ops);
    let before = img.clone();
    match self_link(&mut img, &allow_none()) {
        Err(LinkError::SymbolDefinedTwice(n)) => assert_eq!(n, b"foo".to_vec()),
        r => panic!("expected a duplicate-symbol error, got {:?}", r),
    }
    assert_eq!(img, before);
}

#[test]
fn other_ops_pass_through() {
    // an opaque operation is decoded and left untouched by linking
    let mut ops = Vec::new();
    push_op(&mut ops, 3, 123);
    push_op(&mut ops, 0, 0);
    let mut img = image(1, &[], &[], &ops);
    assert_eq!(op_at(&img, 16).unwrap(), Op::Other { arg: 123 });
    let before = img.clone();
    assert!(self_link(&mut img, &allow_none()).is_ok());
    assert_eq!(img, before);
}

#[test]
fn truncated_run_rejected() {
    // the main run ends in an opcode whose operand is cut off
    let mut ops = Vec::new();
    push_op(&mut ops, 3, 0);
    ops.push(2);
    let mut img = image(1, &[], &[], &ops);
    assert!(matches!(
        self_link(&mut img, &allow_none()),
        Err(LinkError::ByteCode(ByteCodeError::Truncated))
    ));
}

#[test]
fn dangling_direct_reference_rejected() {
    // a direct reference to an offset past the end of the image
    let mut ops = Vec::new();
    push_op(&mut ops, 2, 9999);
    push_op(&mut ops, 0, 0);
    let mut img = image(1, &[], &[], &ops);
    assert!(matches!(
        self_link(&mut img, &allow_none()),
        Err(LinkError::ByteCode(ByteCodeError::Truncated))
    ));
}

#[test]
fn undeclared_symbol_rejected_when_not_permitted() {
    // layout: header 16, data "bar" 16..20, no globals, main 20
    let mut ops = Vec::new();
    push_op(&mut ops, 1, 0);
    push_op(&mut ops, 0, 0);
    let mut img = image(1, &[b"bar"], &[], &ops);
    match self_link(&mut img, &allow_none()) {
        Err(LinkError::SymbolNotFound(n)) => assert_eq!(n, b"bar".to_vec()),
        r => panic!("expected a symbol-not-found error, got {:?}", r),
    }
}

#[test]
fn policy_answers() {
    let deny = DenyUndeclared;
    assert!(!deny.allow_undeclared_symbol(b"x"));
    let list = AllowNames { names: vec![b"bar".to_vec()] };
    assert!(list.allow_undeclared_symbol(b"bar"));
    assert!(!list.allow_undeclared_symbol(b"baz"));
    assert!(!list.allow_undeclared_symbol(b"ba"));
}

#[test]
fn mixed_declared_and_permitted_references() {
    // layout: header 16, data "f","ext" 16..22, one global 22..30, main 30
    // main run: Unresolved "f" at 30, Unresolved "ext" at 35, End at 40;
    // body of "f" is the End at 45
    let mut ops = Vec::new();
    push_op(&mut ops, 1, 0);
    push_op(&mut ops, 1, 2);
    push_op(&mut ops, 0, 0);
    push_op(&mut ops, 0, 0);
    let mut img = image(1, &[b"f", b"ext"], &[(0, 45)], &ops);
    let r = self_link(&mut img, &allow(b"ext"));
    assert!(r.is_ok(), "{:?}", r);
    // the declared reference is resolved, the permitted one stays symbolic
    assert_eq!(op_at(&img, 30).unwrap(), Op::Const { idx: 45 });
    assert_eq!(op_at(&img, 35).unwrap(), Op::Unresolved { id: 2 });
}

#[test]
fn undeclared_symbol_kept_when_permitted() {
    let mut ops = Vec::new();
    push_op(&mut ops, 1, 0);
    push_op(&mut ops, 0, 0);
    let mut img = image(1, &[b"bar"], &[], &ops);
    let before = img.clone();
    let r = self_link(&mut img, &allow(b"bar"));
    assert!(r.is_ok(), "{:?}", r);
    // the reference stays symbolic, and nothing else moved
    assert_eq!(img, before);
    assert_eq!(op_at(&img, 20).unwrap(), Op::Unresolved { id: 0 });
}

#[test]
fn mutually_recursive_globals_terminate() {
    // layout: header 16, data "a","b" 16..20, two globals 20..36, main 36
    // main run: End at 36; body of "a" at 41: Const 51, End;
    // body of "b" at 51: Const 41, End -- a cycle of direct references
    let mut ops = Vec::new();
    push_op(&mut ops, 0, 0);
    push_op(&mut ops, 2, 51);
    push_op(&mut ops, 0, 0);
    push_op(&mut ops, 2, 41);
    push_op(&mut ops, 0, 0);
    let mut img = image(1, &[b"a", b"b"], &[(0, 41), (2, 51)], &ops);
    let before = img.clone();
    let r = self_link(&mut img, &allow_none());
    assert!(r.is_ok(), "{:?}", r);
    assert_eq!(img, before);
}

#[test]
fn bad_string_reference_rejected() {
    // a global whose name id points past the data table
    let mut ops = Vec::new();
    push_op(&mut ops, 0, 0);
    let mut img = image(1, &[b"a"], &[(0, 26), (65535, 26)], &ops);
    assert!(matches!(
        self_link(&mut img, &allow_none()),
        Err(LinkError::ByteCode(ByteCodeError::BadString))
    ));
}

#[test]
fn link_patches_reachable_body_run() {
    // layout: header 16, data "f","g" 16..20, two globals 20..36, main 36
    // main run: Unresolved "f" at 36, End at 41; body of "f" at 46 holds
    // another symbolic reference, to "g", whose body is the End at 56
    let mut ops = Vec::new();
    push_op(&mut ops, 1, 0);
    push_op(&mut ops, 0, 0);
    push_op(&mut ops, 1, 2);
    push_op(&mut ops, 0, 0);
    push_op(&mut ops, 0, 0);
    let mut img = image(1, &[b"f", b"g"], &[(0, 46), (2, 56)], &ops);
    let r = self_link(&mut img, &allow_none());
    assert!(r.is_ok(), "{:?}", r);
    assert_eq!(op_at(&img, 36).unwrap(), Op::Const { idx: 46 });
    assert_eq!(op_at(&img, 46).unwrap(), Op::Const { idx: 56 });
    assert_eq!(op_at(&img, 56).unwrap(), Op::End);
}

#[test]
fn concat_counts_and_keeps_sections() {
    let ops_a: Vec<u8> = {
        let mut o = Vec::new();
        push_op(&mut o, 3, 11);
        push_op(&mut o, 0, 0);
        o
    };
    let ops_b: Vec<u8> = {
        let mut o = Vec::new();
        push_op(&mut o, 3, 22);
        push_op(&mut o, 0, 0);
        o
    };
    // a: data 4 bytes, 2 globals; b: data 6 bytes, 3 globals
    let a = image(1, &[b"p", b"q"], &[(0, 0), (2, 0)], &ops_a);
    let b = image(1, &[b"r", b"s", b"t"], &[(0, 0), (2, 0), (4, 0)], &ops_b);
    let v = concat_images(&a, &b).unwrap();
    let h = parse_header(&v).unwrap();
    assert_eq!(h.globals_tab_num, 5);
    assert_eq!(h.writer_version, 1);
    assert_eq!(h.globals_tab_off, 10);
    // data tables, in order
    assert_eq!(&v[16..20], &a[16..20]);
    assert_eq!(&v[20..26], &b[16..22]);
    // global tables, in order
    assert_eq!(&v[26..42], &a[20..36]);
    assert_eq!(&v[42..66], &b[22..46]);
    // main instruction areas, unmodified and contiguous, in order
    assert_eq!(&v[66..76], ops_a.as_slice());
    assert_eq!(&v[76..86], ops_b.as_slice());
    assert_eq!(v.len(), 86);
}

#[test]
fn concat_rejects_version_mismatch() {
    let a = image(1, &[], &[], &[0, 0, 0, 0, 0]);
    let b = image(2, &[], &[], &[0, 0, 0, 0, 0]);
    assert!(matches!(concat_images(&a, &b), Err(LinkError::VersionMismatch)));
}

#[test]
fn concat_rejects_malformed_image() {
    let a = image(1, &[], &[], &[0, 0, 0, 0, 0]);
    let b = vec![1u8, 0, 0];
    assert!(matches!(
        concat_images(&a, &b),
        Err(LinkError::ByteCode(ByteCodeError::Truncated))
    ));
}

#[test]
fn concat_then_link() {
    // first image: declares "f" with its body at the End run at 31, and its
    // main run holds a direct reference to offset 38, where the second
    // image's main run will sit once the two are concatenated. the second
    // image references "f" symbolically in its main run.
    let ops_a: Vec<u8> = {
        let mut o = Vec::new();
        push_op(&mut o, 2, 38);
        push_op(&mut o, 0, 0);
        o
    };
    // a: header 16, data "f" 16..18, one global 18..26, main 26..36
    let a = image(1, &[b"f"], &[(0, 31)], &ops_a);
    let ops_b: Vec<u8> = {
        let mut o = Vec::new();
        push_op(&mut o, 1, 0);
        push_op(&mut o, 0, 0);
        o
    };
    // b: header 16, data "f" 16..18, no globals, main 18..28
    let b = image(1, &[b"f"], &[], &ops_b);
    let mut v = concat_images(&a, &b).unwrap();
    // combined: data 16..20, one global 20..28, main 28..48 with the first
    // image's ops at 28..38 and the second's at 38..48
    let r = self_link(&mut v, &allow_none());
    assert!(r.is_ok(), "{:?}", r);
    assert_eq!(op_at(&v, 38).unwrap(), Op::Const { idx: 31 });
}
