//! Self-linking: building the symbol table an image declares, walking every
//! reachable instruction run from its roots, and rewriting symbolic
//! references into direct ones in place.

use vstd::prelude::*;
use vstd::bytes::u32_to_le_bytes;
use vstd::set_lib::{lemma_int_range, lemma_len_subset, set_int_range};
use crate::codec::{
    decode_run, global_entry, lemma_encode_op_decodes, lemma_run_entries, lemma_run_suffix,
    parse_header, read_string, spec_declares,
    spec_dup_at, spec_encode_op, spec_globals, spec_has_dup, spec_header, spec_image_ok,
    spec_main_off, spec_names_ok, spec_op_at, spec_run, spec_string_at, spec_symtab,
    ByteCodeError, Op,
};
use crate::pending::{pending_into_vec, pending_new, pending_of, pending_push};
use crate::visited::{visited_contains, visited_insert, visited_new, visited_of};

verus! {

/// `std::io::Error`, declared so a linking error can carry the stream fault
/// that caused it. Relied on only as an opaque value: nothing is assumed of
/// what it holds.
#[verifier::external_type_specification]
#[verifier::external_body]
pub struct ExIoError(std::io::Error);

/// Why a link failed. Each error carries what is needed to name the fault.
#[derive(Debug)]
pub enum LinkError {
    /// The stream failed while a concatenated image was read or written.
    Io(std::io::Error),
    /// The image's structure could not be decoded.
    ByteCode(ByteCodeError),
    /// Two images with different `writer_version` tags were concatenated.
    VersionMismatch,
    /// Two globals declare the name held here.
    SymbolDefinedTwice(Vec<u8>),
    /// An instruction references the undeclared name held here, and the
    /// target policy does not permit it to stay unresolved.
    SymbolNotFound(Vec<u8>),
}

impl From<std::io::Error> for LinkError {
    fn from(e: std::io::Error) -> (r: Self) {
        LinkError::Io(e)
    }
}

impl vstd::std_specs::convert::FromSpecImpl<std::io::Error> for LinkError {
    open spec fn obeys_from_spec() -> bool {
        true
    }

    open spec fn from_spec(e: std::io::Error) -> LinkError {
        LinkError::Io(e)
    }
}

impl From<ByteCodeError> for LinkError {
    fn from(e: ByteCodeError) -> (r: Self) {
        LinkError::ByteCode(e)
    }
}

impl vstd::std_specs::convert::FromSpecImpl<ByteCodeError> for LinkError {
    open spec fn obeys_from_spec() -> bool {
        true
    }

    open spec fn from_spec(e: ByteCodeError) -> LinkError {
        LinkError::ByteCode(e)
    }
}

/// The host's single customization point: whether the undeclared symbol
/// `sym` is permitted to remain unresolved, to be satisfied by a later
/// dynamic resolution step outside this crate.
pub trait Target {
    /// What the policy answers for the undeclared symbol `name`.
    spec fn allows(&self, name: Seq<u8>) -> bool;

    fn allow_undeclared_symbol(&self, sym: &[u8]) -> (r: bool)
        ensures
            r == self.allows(sym@),
    ;
}

/// Whether a borrowed name equals an owned one.
fn slice_equal(a: &[u8], b: &Vec<u8>) -> (r: bool)
    ensures
        r == (a@ == b@),
{
    if a.len() != b.len() {
        return false;
    }
    let mut i: usize = 0;
    while i < b.len()
        invariant
            i <= a@.len(),
            a@.len() == b@.len(),
            forall|j: int| 0 <= j < i ==> a@[j] == b@[j],
        decreases a@.len() - i,
    {
        if a[i] != b[i] {
            return false;
        }
        i = i + 1;
    }
    proof {
        assert(a@ =~= b@);
    }
    true
}

/// The policy that permits no undeclared symbol.
pub struct DenyUndeclared;

impl Target for DenyUndeclared {
    open spec fn allows(&self, name: Seq<u8>) -> bool {
        false
    }

    fn allow_undeclared_symbol(&self, sym: &[u8]) -> (r: bool) {
        false
    }
}

/// The policy that permits exactly the undeclared symbols on its list.
pub struct AllowNames {
    pub names: Vec<Vec<u8>>,
}

impl Target for AllowNames {
    open spec fn allows(&self, name: Seq<u8>) -> bool {
        exists|i: int| 0 <= i < self.names@.len() && ((#[trigger] self.names@[i])@) == name
    }

    fn allow_undeclared_symbol(&self, sym: &[u8]) -> (r: bool) {
        let mut i: usize = 0;
        while i < self.names.len()
            invariant
                i <= self.names@.len(),
                forall|j: int| 0 <= j < i ==> ((#[trigger] self.names@[j])@) != sym@,
            decreases self.names@.len() - i,
        {
            if slice_equal(sym, &self.names[i]) {
                return true;
            }
            i = i + 1;
        }
        false
    }
}

/// The mathematical view of an owned symbol table: each name as the byte
/// sequence it holds.
pub open spec fn view_tab(tab: Seq<(Vec<u8>, u32)>) -> Seq<(Seq<u8>, u32)> {
    tab.map_values(|e: (Vec<u8>, u32)| (e.0@, e.1))
}

/// The symbol table maps the name `n` to the body offset `v`.
pub open spec fn spec_resolves(tab: Seq<(Seq<u8>, u32)>, n: Seq<u8>, v: u32) -> bool {
    exists|i: int| 0 <= i < tab.len() && #[trigger] tab[i] == (n, v)
}

/// Whether two byte names are equal.
fn names_equal(a: &Vec<u8>, b: &Vec<u8>) -> (r: bool)
    ensures
        r == (a@ == b@),
{
    if a.len() != b.len() {
        return false;
    }
    let mut i: usize = 0;
    while i < a.len()
        invariant
            i <= a@.len(),
            a@.len() == b@.len(),
            forall|j: int| 0 <= j < i ==> a@[j] == b@[j],
        decreases a@.len() - i,
    {
        if a[i] != b[i] {
            return false;
        }
        i = i + 1;
    }
    proof {
        assert(a@ =~= b@);
    }
    true
}

/// Looks the name up in the symbol table, scanning in declaration order.
fn symtab_lookup(tab: &Vec<(Vec<u8>, u32)>, name: &Vec<u8>) -> (r: Option<u32>)
    ensures
        r matches Some(v) ==> spec_resolves(view_tab(tab@), name@, v),
        r is None ==> !spec_declares(view_tab(tab@), name@),
{
    let mut i: usize = 0;
    while i < tab.len()
        invariant
            i <= tab@.len(),
            forall|j: int| 0 <= j < i ==> (#[trigger] view_tab(tab@)[j]).0 != name@,
        decreases tab@.len() - i,
    {
        if names_equal(&tab[i].0, name) {
            proof {
                assert(view_tab(tab@)[i as int] == (name@, tab@[i as int].1));
            }
            return Some(tab[i].1);
        }
        i = i + 1;
    }
    None
}

/// Decodes the global table into the symbol table it declares, each name
/// copied into an owned key. A name repeating an earlier one aborts with a
/// duplicate-symbol error carrying the first repeated name; a name that
/// does not resolve through the string table aborts with its decode error.
pub fn build_symtab(b: &Vec<u8>) -> (r: Result<Vec<(Vec<u8>, u32)>, LinkError>)
    requires
        spec_image_ok(b@),
    ensures
        r matches Ok(tab) ==> view_tab(tab@) == spec_symtab(b@) && spec_names_ok(b@)
            && !spec_has_dup(spec_symtab(b@)),
        r matches Err(e) ==> (e matches LinkError::ByteCode(_) || e
            matches LinkError::SymbolDefinedTwice(_)),
        r matches Err(LinkError::ByteCode(_)) ==> !spec_names_ok(b@),
        spec_names_ok(b@) ==> (r matches Err(LinkError::SymbolDefinedTwice(_)) <==> spec_has_dup(
            spec_symtab(b@),
        )),
        r matches Err(LinkError::SymbolDefinedTwice(n)) ==> exists|j: int|
            0 <= j < spec_symtab(b@).len() && #[trigger] spec_dup_at(spec_symtab(b@), j) && n@
                == spec_symtab(b@)[j].0 && (forall|k: int| 0 <= k < j ==> !spec_dup_at(
                spec_symtab(b@),
                k,
            )),
{
    let h = match parse_header(b) {
        Ok(h) => h,
        Err(e) => {
            proof {
                assert(false);
            }
            return Err(LinkError::ByteCode(e));
        },
    };
    let num = h.globals_tab_num as usize;
    let mut tab: Vec<(Vec<u8>, u32)> = Vec::new();
    let mut i: usize = 0;
    while i < num
        invariant
            spec_image_ok(b@),
            num == spec_globals(b@).len(),
            i <= num,
            forall|k: int| 0 <= k < i ==> (#[trigger] spec_string_at(
                b@,
                spec_globals(b@)[k].0,
            )) is Some,
            view_tab(tab@) == spec_symtab(b@).subrange(0, i as int),
            tab@.len() == i,
            forall|j: int| 0 <= j < i ==> !spec_dup_at(spec_symtab(b@), j),
        decreases num - i,
    {
        let (name_id, body) = global_entry(b, i);
        let name = match read_string(b, name_id) {
            Ok(n) => n,
            Err(e) => {
                proof {
                    assert(spec_string_at(b@, spec_globals(b@)[i as int].0) is None);
                }
                return Err(LinkError::ByteCode(e));
            },
        };
        match symtab_lookup(&tab, &name) {
            Some(v) => {
                proof {
                    let stab = spec_symtab(b@);
                    assert(stab[i as int].0 == name@);
                    let w = choose|w: int|
                        0 <= w < view_tab(tab@).len() && #[trigger] view_tab(tab@)[w] == (name@, v);
                    assert(view_tab(tab@)[w] == stab.subrange(0, i as int)[w]);
                    assert((#[trigger] stab[w]).0 == stab[i as int].0);
                    assert(spec_dup_at(stab, i as int));
                }
                return Err(LinkError::SymbolDefinedTwice(name));
            },
            None => {},
        }
        let ghost old_tab = tab@;
        tab.push((name, body));
        proof {
            assert(view_tab(tab@) =~~= spec_symtab(b@).subrange(0, i as int + 1));
            assert forall|j: int| 0 <= j < i + 1 implies !spec_dup_at(spec_symtab(b@), j) by {
                if j == i {
                    let stab = spec_symtab(b@);
                    assert forall|w: int| 0 <= w < j implies (#[trigger] stab[w]).0 != stab[j].0
                        by {
                        assert(view_tab(old_tab)[w] == stab[w]);
                        assert(!spec_declares(view_tab(old_tab), stab[j].0));
                    }
                }
            }
        }
        i = i + 1;
    }
    proof {
        assert(view_tab(tab@) =~~= spec_symtab(b@));
        assert(!spec_has_dup(spec_symtab(b@)));
    }
    Ok(tab)
}

/// One recorded patch is sound: its position decodes as a symbolic
/// reference whose name the symbol table maps to its value.
pub open spec fn spec_patch_ok(b: Seq<u8>, tab: Seq<(Seq<u8>, u32)>, p: usize, v: u32) -> bool {
    match spec_op_at(b, p as int) {
        Some(op) => match op {
            Op::Unresolved { id } => match spec_string_at(b, id) {
                Some(n) => spec_resolves(tab, n, v),
                None => false,
            },
            _ => false,
        },
        None => false,
    }
}

/// `b` with the five bytes at `p` replaced by `c`, when they fit.
pub open spec fn spec_write5(b: Seq<u8>, p: usize, c: Seq<u8>) -> Seq<u8> {
    if p + 5 <= b.len() {
        Seq::new(
            b.len(),
            |i: int| if p <= i < p + 5 {
                c[i - p]
            } else {
                b[i]
            },
        )
    } else {
        b
    }
}

/// The buffer after every patch is written, first to last: each patch
/// overwrites the five bytes at its position with the direct reference of
/// identical width that resolves it.
pub open spec fn spec_apply(b: Seq<u8>, ps: Seq<(usize, u32)>) -> Seq<u8>
    decreases ps.len(),
{
    if ps.len() == 0 {
        b
    } else {
        spec_apply(
            spec_write5(b, ps[0].0, spec_encode_op(Op::Const { idx: ps[0].1 })),
            ps.drop_first(),
        )
    }
}

/// Writing one more patch after a list is writing it onto the applied list.
proof fn lemma_apply_snoc(b: Seq<u8>, ps: Seq<(usize, u32)>, e: (usize, u32))
    ensures
        spec_apply(b, ps.push(e)) == spec_write5(
            spec_apply(b, ps),
            e.0,
            spec_encode_op(Op::Const { idx: e.1 }),
        ),
    decreases ps.len(),
{
    let q = ps.push(e);
    if ps.len() == 0 {
        assert(q[0] == e);
        assert(q.drop_first() =~= Seq::<(usize, u32)>::empty());
        let w = spec_write5(b, e.0, spec_encode_op(Op::Const { idx: e.1 }));
        assert(spec_apply(b, q) == spec_apply(w, q.drop_first()));
        assert(spec_apply(w, q.drop_first()) == w);
        assert(spec_apply(b, ps) == b);
    } else {
        assert(q[0] == ps[0]);
        assert(q.drop_first() =~= ps.drop_first().push(e));
        let w = spec_write5(b, ps[0].0, spec_encode_op(Op::Const { idx: ps[0].1 }));
        lemma_apply_snoc(w, ps.drop_first(), e);
        assert(spec_apply(b, q) == spec_apply(w, ps.drop_first().push(e)));
        assert(spec_apply(b, ps) == spec_apply(w, ps.drop_first()));
    }
}

/// Applying patches keeps the buffer's length.
pub proof fn lemma_apply_len(b: Seq<u8>, ps: Seq<(usize, u32)>)
    ensures
        spec_apply(b, ps).len() == b.len(),
    decreases ps.len(),
{
    if ps.len() > 0 {
        lemma_apply_len(
            spec_write5(b, ps[0].0, spec_encode_op(Op::Const { idx: ps[0].1 })),
            ps.drop_first(),
        );
    }
}

/// Patches that keep clear of the five bytes at `p`, or rewrite exactly
/// them with the same direct reference, leave them holding that reference.
proof fn lemma_apply_keeps_const(b: Seq<u8>, ps: Seq<(usize, u32)>, p: usize, v: u32)
    requires
        p + 5 <= b.len(),
        b.subrange(p as int, p + 5) == spec_encode_op(Op::Const { idx: v }),
        forall|j: int|
            0 <= j < ps.len() ==> ((#[trigger] ps[j]).0 + 5 <= p || ps[j].0 >= p + 5 || (ps[j].0
                == p && ps[j].1 == v)),
    ensures
        spec_apply(b, ps).subrange(p as int, p + 5) == spec_encode_op(Op::Const { idx: v }),
    decreases ps.len(),
{
    if ps.len() > 0 {
        let w = spec_write5(b, ps[0].0, spec_encode_op(Op::Const { idx: ps[0].1 }));
        assert(w.len() == b.len());
        if ps[0].0 == p && ps[0].1 == v {
            assert(w.subrange(p as int, p + 5) =~= spec_encode_op(Op::Const { idx: v }));
        } else {
            assert(w.subrange(p as int, p + 5) =~= b.subrange(p as int, p + 5));
        }
        assert forall|j: int|
            0 <= j < ps.drop_first().len() implies ((#[trigger] ps.drop_first()[j]).0 + 5 <= p
            || ps.drop_first()[j].0 >= p + 5 || (ps.drop_first()[j].0 == p
                && ps.drop_first()[j].1 == v)) by {
            assert(ps.drop_first()[j] == ps[j + 1]);
        }
        lemma_apply_keeps_const(w, ps.drop_first(), p, v);
    }
}

/// The modifies clause of patching: a byte outside every patch's five-byte
/// extent comes through the whole application unchanged.
pub proof fn lemma_apply_frame(b: Seq<u8>, ps: Seq<(usize, u32)>, i: int)
    requires
        0 <= i < b.len(),
        forall|k: int| 0 <= k < ps.len() ==> !((#[trigger] ps[k]).0 <= i < ps[k].0 + 5),
    ensures
        spec_apply(b, ps)[i] == b[i],
    decreases ps.len(),
{
    if ps.len() > 0 {
        let w = spec_write5(b, ps[0].0, spec_encode_op(Op::Const { idx: ps[0].1 }));
        assert(w.len() == b.len());
        assert(w[i] == b[i]);
        assert forall|k: int|
            0 <= k < ps.drop_first().len() implies !((#[trigger] ps.drop_first()[k]).0 <= i
            < ps.drop_first()[k].0 + 5) by {
            assert(ps.drop_first()[k] == ps[k + 1]);
        }
        lemma_apply_frame(w, ps.drop_first(), i);
    }
}

/// Two sound patches at one position carry one value: the name decoded
/// there resolves to a single body offset when no name is declared twice.
proof fn lemma_patch_value_unique(
    b: Seq<u8>,
    tab: Seq<(Seq<u8>, u32)>,
    p: usize,
    v1: u32,
    v2: u32,
)
    requires
        !spec_has_dup(tab),
        spec_patch_ok(b, tab, p, v1),
        spec_patch_ok(b, tab, p, v2),
    ensures
        v1 == v2,
{
    match spec_op_at(b, p as int) {
        Some(op) => match op {
            Op::Unresolved { id } => match spec_string_at(b, id) {
                Some(n) => {
                    let i1 = choose|i: int| 0 <= i < tab.len() && #[trigger] tab[i] == (n, v1);
                    let i2 = choose|i: int| 0 <= i < tab.len() && #[trigger] tab[i] == (n, v2);
                    if i1 != i2 {
                        let lo = if i1 < i2 {
                            i1
                        } else {
                            i2
                        };
                        let hi = if i1 < i2 {
                            i2
                        } else {
                            i1
                        };
                        assert((#[trigger] tab[lo]).0 == tab[hi].0);
                        assert(spec_dup_at(tab, hi));
                    }
                },
                None => {
                    assert(false);
                },
            },
            _ => {
                assert(false);
            },
        },
        None => {
            assert(false);
        },
    }
}

/// A written patch stays readable: when every later patch in the list
/// either keeps clear of its five bytes or rewrites the same position with
/// the same value, the patched position decodes, in the buffer after every
/// patch is applied, as the direct reference the patch wrote.
pub proof fn lemma_apply_patch_decodes(b: Seq<u8>, ps: Seq<(usize, u32)>, k: int)
    requires
        0 <= k < ps.len(),
        ps[k].0 + 5 <= b.len(),
        forall|j: int|
            k < j < ps.len() ==> ((#[trigger] ps[j]).0 + 5 <= ps[k].0 || ps[j].0 >= ps[k].0 + 5
                || (ps[j].0 == ps[k].0 && ps[j].1 == ps[k].1)),
    ensures
        spec_op_at(spec_apply(b, ps), ps[k].0 as int) == Some(Op::Const { idx: ps[k].1 }),
    decreases ps.len(),
{
    vstd::bytes::lemma_auto_spec_u32_to_from_le_bytes();
    lemma_apply_len(b, ps);
    let w = spec_write5(b, ps[0].0, spec_encode_op(Op::Const { idx: ps[0].1 }));
    if k == 0 {
        let p = ps[0].0;
        assert(w.len() == b.len());
        assert(w.subrange(p as int, p + 5) =~= spec_encode_op(Op::Const { idx: ps[0].1 }));
        assert forall|j: int|
            0 <= j < ps.drop_first().len() implies ((#[trigger] ps.drop_first()[j]).0 + 5 <= p
            || ps.drop_first()[j].0 >= p + 5 || (ps.drop_first()[j].0 == p
                && ps.drop_first()[j].1 == ps[0].1)) by {
            assert(ps.drop_first()[j] == ps[j + 1]);
        }
        lemma_apply_keeps_const(w, ps.drop_first(), p, ps[0].1);
        lemma_encode_op_decodes(spec_apply(b, ps), p as int, Op::Const { idx: ps[0].1 });
    } else {
        assert(w.len() == b.len());
        assert(ps.drop_first()[k - 1] == ps[k]);
        assert forall|j: int|
            k - 1 < j < ps.drop_first().len() implies ((#[trigger] ps.drop_first()[j]).0 + 5
            <= ps.drop_first()[k - 1].0 || ps.drop_first()[j].0 >= ps.drop_first()[k - 1].0 + 5
            || (ps.drop_first()[j].0 == ps.drop_first()[k - 1].0 && ps.drop_first()[j].1
                == ps.drop_first()[k - 1].1)) by {
            assert(ps.drop_first()[j] == ps[j + 1]);
        }
        lemma_apply_patch_decodes(w, ps.drop_first(), k - 1);
    }
}

/// Idempotence of linking: a buffer in which no position decodes as a
/// symbolic reference admits only the empty sound patch list, so applying
/// the patches of a link gives the buffer back byte-identical.
pub proof fn lemma_no_unresolved_identity(
    b: Seq<u8>,
    tab: Seq<(Seq<u8>, u32)>,
    ps: Seq<(usize, u32)>,
)
    requires
        forall|k: int| 0 <= k < ps.len() ==> spec_patch_ok(b, tab, (#[trigger] ps[k]).0, ps[k].1),
        forall|p: int| !((#[trigger] spec_op_at(b, p)) matches Some(Op::Unresolved { .. })),
    ensures
        spec_apply(b, ps) == b,
{
    if ps.len() > 0 {
        assert(spec_patch_ok(b, tab, ps[0].0, ps[0].1));
        assert(false);
    }
}

/// The worklist still holds the offset `x`.
spec fn spec_in_todo(td: Seq<usize>, x: int) -> bool {
    exists|j: int| 0 <= j < td.len() && ((#[trigger] td[j]) as int) == x
}

/// The run starting at `off`, if one decodes there, is absorbed by `vs`:
/// every entry's position is in `vs`, and so is the target of every direct
/// reference among its entries.
pub open spec fn spec_run_covered(b: Seq<u8>, vs: Set<int>, off: int) -> bool {
    spec_run(b, off) is Some ==> (forall|i: int|
        0 <= i < spec_run(b, off).unwrap().len() ==> vs.contains(
            (#[trigger] spec_run(b, off).unwrap()[i]).0,
        ) && (match spec_run(b, off).unwrap()[i].1 {
            Op::Const { idx } => vs.contains(idx as int),
            _ => true,
        }))
}

/// Some entry of the decoded run `sr` sits at position `x`.
spec fn spec_pos_of_run(sr: Seq<(int, Op)>, x: int) -> bool {
    exists|j: int| 0 <= j < sr.len() && (#[trigger] sr[j]).0 == x
}

/// The set `vs` covers the traversal run by run: it holds the roots,
/// every position of a decodable run starting at an offset it holds, and
/// every direct reference's target found in such a run. Any offset the
/// traversal can touch lies in every such set.
pub open spec fn spec_covers_plus(b: Seq<u8>, tab: Seq<(Seq<u8>, u32)>, vs: Set<int>) -> bool {
    vs.contains(spec_main_off(b)) && (forall|i: int|
        0 <= i < tab.len() ==> vs.contains((((#[trigger] tab[i]).1)) as int)) && (forall|off: int|
        #[trigger] vs.contains(off) ==> spec_run_covered(b, vs, off))
}

/// The offset `x` is reachable: every run-by-run covering set holds it.
pub open spec fn spec_reaches_all(b: Seq<u8>, tab: Seq<(Seq<u8>, u32)>, x: int) -> bool {
    forall|vs: Set<int>| #[trigger] spec_covers_plus(b, tab, vs) ==> vs.contains(x)
}

/// The offset `x` lies inside the five-byte extent of an instruction whose
/// start `vs` holds.
pub open spec fn spec_in_extent(vs: Set<int>, x: int) -> bool {
    exists|s: int| #[trigger] vs.contains(s) && s <= x < s + 5
}

/// The run starting at `off`, if one decodes there, is absorbed up to
/// extents: every entry's start is in `vs`, and every direct reference's
/// target is in `vs` or inside an extent of `vs`.
pub open spec fn spec_run_absorbed(b: Seq<u8>, vs: Set<int>, off: int) -> bool {
    spec_run(b, off) is Some ==> (forall|i: int|
        0 <= i < spec_run(b, off).unwrap().len() ==> vs.contains(
            (#[trigger] spec_run(b, off).unwrap()[i]).0,
        ) && (match spec_run(b, off).unwrap()[i].1 {
            Op::Const { idx } => vs.contains(idx as int) || spec_in_extent(vs, idx as int),
            _ => true,
        }))
}

/// The set `vs` of instruction starts covers the traversal up to extents:
/// each root and each direct reference's target is either one of the
/// starts or lies inside the extent of one, and runs decoding at the
/// starts are absorbed. The set of starts the traversal decoded is such a
/// set; an already-covered extent byte is skipped, never re-decoded.
pub open spec fn spec_covers_ext(b: Seq<u8>, tab: Seq<(Seq<u8>, u32)>, vs: Set<int>) -> bool {
    (vs.contains(spec_main_off(b)) || spec_in_extent(vs, spec_main_off(b))) && (forall|i: int|
        0 <= i < tab.len() ==> vs.contains((((#[trigger] tab[i]).1)) as int) || spec_in_extent(
            vs,
            (tab[i].1) as int,
        )) && (forall|off: int| #[trigger] vs.contains(off) ==> spec_run_absorbed(b, vs, off))
}

/// A covering set that follows every target as a fresh start is in
/// particular one that absorbs targets into extents.
pub proof fn lemma_covers_plus_ext(b: Seq<u8>, tab: Seq<(Seq<u8>, u32)>, vs: Set<int>)
    requires
        spec_covers_plus(b, tab, vs),
    ensures
        spec_covers_ext(b, tab, vs),
{
    assert forall|off: int| #[trigger] vs.contains(off) implies spec_run_absorbed(
        b,
        vs,
        off,
    ) by {
        assert(spec_run_covered(b, vs, off));
    }
}

/// The offset `x` is reachable up to extents: every extent-covering set
/// holds it or holds it inside an extent.
pub open spec fn spec_reaches_ext(b: Seq<u8>, tab: Seq<(Seq<u8>, u32)>, x: int) -> bool {
    forall|vs: Set<int>| #[trigger] spec_covers_ext(b, tab, vs) ==> (vs.contains(x)
        || spec_in_extent(vs, x))
}

/// The set `vs` witnesses that nothing the traversal touches fails to
/// decode: it covers the traversal run by run, a run decodes at each of
/// its offsets, and every symbolic reference at one of its offsets names a
/// string-table entry.
pub open spec fn spec_decodable(b: Seq<u8>, tab: Seq<(Seq<u8>, u32)>, vs: Set<int>) -> bool {
    spec_covers_plus(b, tab, vs) && (forall|x: int|
        #[trigger] vs.contains(x) ==> spec_run(b, x) is Some) && (forall|p: int|
        #[trigger] vs.contains(p) ==> match spec_op_at(b, p) {
            Some(op) => match op {
                Op::Unresolved { id } => spec_string_at(b, id) is Some,
                _ => true,
            },
            None => true,
        })
}

/// The symbolic reference at `p`, if there is one, is satisfied: its name
/// resolves through the string table and is either declared by the symbol
/// table or permitted by the target policy to stay unresolved.
pub open spec fn spec_permitted_at<T: Target>(
    b: Seq<u8>,
    tab: Seq<(Seq<u8>, u32)>,
    t: &T,
    p: int,
) -> bool {
    match spec_op_at(b, p) {
        Some(op) => match op {
            Op::Unresolved { id } => match spec_string_at(b, id) {
                Some(n) => spec_declares(tab, n) || t.allows(n),
                None => false,
            },
            _ => true,
        },
        None => true,
    }
}

/// Every symbolic reference at an offset of `vs` is satisfied.
pub open spec fn spec_all_permitted<T: Target>(
    b: Seq<u8>,
    tab: Seq<(Seq<u8>, u32)>,
    t: &T,
    vs: Set<int>,
) -> bool {
    forall|p: int| #[trigger] vs.contains(p) ==> spec_permitted_at(b, tab, t, p)
}

/// The set `vs` witnesses that linking cannot fault: everything the
/// traversal touches decodes, and every symbolic reference it can reach is
/// either declared or permitted by the target policy.
pub open spec fn spec_resolvable<T: Target>(
    b: Seq<u8>,
    tab: Seq<(Seq<u8>, u32)>,
    t: &T,
    vs: Set<int>,
) -> bool {
    spec_decodable(b, tab, vs) && spec_all_permitted(b, tab, t, vs)
}

/// If the instruction at `p` is a symbolic reference whose name the symbol
/// table declares, then some recorded patch rewrites `p`.
pub open spec fn spec_patched_at(
    b: Seq<u8>,
    tab: Seq<(Seq<u8>, u32)>,
    ps: Seq<(usize, u32)>,
    p: int,
) -> bool {
    match spec_op_at(b, p) {
        Some(op) => match op {
            Op::Unresolved { id } => match spec_string_at(b, id) {
                Some(n) => spec_declares(tab, n) ==> exists|k: int|
                    0 <= k < ps.len() && ((#[trigger] ps[k]).0) as int == p,
                None => true,
            },
            _ => true,
        },
        None => true,
    }
}

/// Every declared symbolic reference at an offset of `vs` is patched.
pub open spec fn spec_all_patched(
    b: Seq<u8>,
    tab: Seq<(Seq<u8>, u32)>,
    vs: Set<int>,
    ps: Seq<(usize, u32)>,
) -> bool {
    forall|p: int| #[trigger] vs.contains(p) ==> spec_patched_at(b, tab, ps, p)
}

/// How a linked buffer relates to the buffer it was linked from: it is
/// that buffer with a list of sound patches applied, each patch at a
/// reachable position, patches at one position agreeing on their value,
/// every byte outside the patched extents unchanged, and a patched
/// position that no distinct patch overlaps decoding as the direct
/// reference that resolves it. A covering set witnesses that every
/// reachable declared symbolic reference was patched and every reachable
/// undeclared one permitted by the target policy.
pub open spec fn spec_linked<T: Target>(
    b0: Seq<u8>,
    b1: Seq<u8>,
    tab: Seq<(Seq<u8>, u32)>,
    t: &T,
) -> bool {
    exists|ps: Seq<(usize, u32)>, vs: Set<int>|
        #![trigger spec_apply(b0, ps), spec_covers_ext(b0, tab, vs)]
        b1 == spec_apply(b0, ps) && (forall|k: int|
            0 <= k < ps.len() ==> spec_patch_ok(b0, tab, (#[trigger] ps[k]).0, ps[k].1)
                && spec_reaches_all(b0, tab, ((ps[k]).0) as int)) && (forall|k1: int, k2: int|
            0 <= k1 < ps.len() && 0 <= k2 < ps.len() && (#[trigger] ps[k1]).0 == (
            #[trigger] ps[k2]).0 ==> ps[k1].1 == ps[k2].1) && (forall|i: int|
            0 <= i < b0.len() && (forall|k: int|
                0 <= k < ps.len() ==> !((#[trigger] ps[k]).0 <= i < ps[k].0 + 5)) ==> (
            #[trigger] b1[i]) == b0[i]) && (forall|k: int|
            0 <= k < ps.len() && (forall|j: int|
                0 <= j < ps.len() ==> ((#[trigger] ps[j]).0 == ps[k].0 || ps[j].0 + 5 <= ps[k].0
                    || ps[j].0 >= ps[k].0 + 5)) ==> spec_op_at(b1, ((#[trigger] ps[k]).0) as int)
            == Some(Op::Const { idx: ps[k].1 })) && spec_covers_ext(b0, tab, vs)
            && spec_all_patched(b0, tab, vs, ps) && spec_all_permitted(b0, tab, t, vs) && (forall|
            s: int,
        |
            #[trigger] vs.contains(s) ==> spec_reaches_all(b0, tab, s))
}

/// Completeness of linking: when a buffer is linked, every reachable
/// offset is either one of the decoded starts of the witnessing covering
/// set -- and then a symbolic reference there with a declared name carries
/// a patch in the sound patch list whose application is the linked buffer,
/// and one with an undeclared name was permitted by the policy -- or lies
/// inside the five-byte extent of such a start, whose instruction was
/// already handled.
pub proof fn lemma_linked_patches_reachable<T: Target>(
    b0: Seq<u8>,
    b1: Seq<u8>,
    tab: Seq<(Seq<u8>, u32)>,
    t: &T,
    p: int,
)
    requires
        spec_linked(b0, b1, tab, t),
        spec_reaches_ext(b0, tab, p),
    ensures
        exists|ps: Seq<(usize, u32)>, vs: Set<int>|
            #![trigger spec_apply(b0, ps), spec_covers_ext(b0, tab, vs)]
            spec_apply(b0, ps) == b1 && (forall|k: int|
                0 <= k < ps.len() ==> spec_patch_ok(b0, tab, (#[trigger] ps[k]).0, ps[k].1))
                && (vs.contains(p) || spec_in_extent(vs, p)) && (vs.contains(p)
                ==> spec_patched_at(b0, tab, ps, p) && spec_permitted_at(b0, tab, t, p)),
{
    let (ps, vs) = choose|ps: Seq<(usize, u32)>, vs: Set<int>|
        #![trigger spec_apply(b0, ps), spec_covers_ext(b0, tab, vs)]
        b1 == spec_apply(b0, ps) && (forall|k: int|
            0 <= k < ps.len() ==> spec_patch_ok(b0, tab, (#[trigger] ps[k]).0, ps[k].1)
                && spec_reaches_all(b0, tab, ((ps[k]).0) as int)) && spec_covers_ext(b0, tab, vs)
            && spec_all_patched(b0, tab, vs, ps) && spec_all_permitted(b0, tab, t, vs);
    assert(vs.contains(p) || spec_in_extent(vs, p));
    if vs.contains(p) {
        assert(spec_patched_at(b0, tab, ps, p));
        assert(spec_permitted_at(b0, tab, t, p));
    }
    assert(spec_apply(b0, ps) == b1);
}

/// The worklist-driven reachability traversal: pops an offset, skips it if
/// already visited, else decodes the contiguous run there, marks every
/// decoded position visited, records a pending patch for each declared
/// symbolic reference, follows each direct reference by pushing its target,
/// and asks the target policy about undeclared names. The buffer is only
/// read; the patches come back for a separate write pass.
fn collect_patches<T: Target>(bin: &Vec<u8>, tab: &Vec<(Vec<u8>, u32)>, target: &T) -> (r: Result<
    Vec<(usize, u32)>,
    LinkError,
>)
    requires
        spec_image_ok(bin@),
    ensures
        r matches Ok(ps) ==> (forall|k: int|
            0 <= k < ps@.len() ==> spec_patch_ok(
                bin@,
                view_tab(tab@),
                (#[trigger] ps@[k]).0,
                ps@[k].1,
            ) && (ps@[k].0) + 5 <= bin@.len()),
        r matches Ok(ps) ==> (forall|k: int|
            0 <= k < ps@.len() ==> spec_reaches_all(
                bin@,
                view_tab(tab@),
                (((#[trigger] ps@[k]).0)) as int,
            )),
        r matches Ok(ps) ==> exists|vs: Set<int>|
            #[trigger] spec_covers_ext(bin@, view_tab(tab@), vs) && spec_all_patched(
                bin@,
                view_tab(tab@),
                vs,
                ps@,
            ) && spec_all_permitted(bin@, view_tab(tab@), target, vs) && (forall|s: int|
                #[trigger] vs.contains(s) ==> spec_reaches_all(bin@, view_tab(tab@), s)),
        r matches Err(e) ==> (e matches LinkError::ByteCode(_) || e
            matches LinkError::SymbolNotFound(_)),
        r matches Err(LinkError::SymbolNotFound(n)) ==> !spec_declares(view_tab(tab@), n@)
            && !target.allows(n@) && (exists|p: int|
            #[trigger] spec_reaches_all(bin@, view_tab(tab@), p) && match spec_op_at(bin@, p) {
                Some(op) => match op {
                    Op::Unresolved { id } => spec_string_at(bin@, id) == Some(n@),
                    _ => false,
                },
                None => false,
            }),
        r matches Err(LinkError::ByteCode(_)) ==> (forall|vs: Set<int>|
            !#[trigger] spec_decodable(bin@, view_tab(tab@), vs)),
        r is Err ==> (forall|vs: Set<int>|
            !#[trigger] spec_resolvable(bin@, view_tab(tab@), target, vs)),
{
    let len = bin.len();
    let ghost tabv = view_tab(tab@);
    let h = match parse_header(bin) {
        Ok(h) => h,
        Err(e) => {
            proof {
                assert(false);
            }
            return Err(LinkError::ByteCode(e));
        },
    };
    proof {
        assert(8 * spec_header(bin@).globals_tab_num >= 0);
    }
    let main_off = 16 + h.globals_tab_off as usize + 8 * (h.globals_tab_num as usize);
    let mut todo: Vec<usize> = Vec::new();
    todo.push(main_off);
    proof {
        assert(main_off as int == spec_main_off(bin@));
        assert(((todo@[0]) as int) == spec_main_off(bin@));
        assert forall|vs: Set<int>| #[trigger] spec_covers_plus(bin@, tabv, vs) implies vs.contains(
            main_off as int,
        ) by {}
        assert(spec_reaches_all(bin@, tabv, main_off as int));
    }
    let mut gi: usize = 0;
    while gi < tab.len()
        invariant
            gi <= tab@.len(),
            tabv == view_tab(tab@),
            spec_in_todo(todo@, spec_main_off(bin@)),
            forall|i: int|
                0 <= i < gi ==> spec_in_todo(todo@, (((#[trigger] view_tab(tab@)[i]).1)) as int),
            forall|j: int|
                0 <= j < todo@.len() ==> spec_reaches_all(
                    bin@,
                    tabv,
                    ((#[trigger] todo@[j]) as int),
                ),
        decreases tab@.len() - gi,
    {
        let ghost old_todo = todo@;
        todo.push(tab[gi].1 as usize);
        proof {
            assert(todo@[todo@.len() - 1] == tab@[gi as int].1 as usize);
            assert forall|x: int| spec_in_todo(old_todo, x) implies spec_in_todo(todo@, x) by {
                let j = choose|j: int| 0 <= j < old_todo.len() && ((#[trigger] old_todo[j]) as int)
                    == x;
                assert(todo@[j] == old_todo[j]);
            }
            assert forall|vs: Set<int>| #[trigger] spec_covers_plus(bin@, tabv, vs)
                implies vs.contains((tabv[gi as int].1) as int) by {
                assert(vs.contains((((tabv[gi as int]).1)) as int));
            }
            assert(spec_reaches_all(bin@, tabv, (tabv[gi as int].1) as int));
            assert forall|j: int| 0 <= j < todo@.len() implies spec_reaches_all(
                bin@,
                tabv,
                ((#[trigger] todo@[j]) as int),
            ) by {
                if j < todo@.len() - 1 {
                    assert(todo@[j] == old_todo[j]);
                }
            }
        }
        gi = gi + 1;
    }
    let mut patches: Vec<(usize, u32)> = Vec::new();
    let mut done = visited_new();
    let ghost mut starts: Set<int> = Set::empty();
    while todo.len() > 0
        invariant
            spec_image_ok(bin@),
            len == bin@.len(),
            tabv == view_tab(tab@),
            forall|d: int| #[trigger]
                visited_of(done).contains(d) ==> spec_in_extent(starts, d),
            forall|p: int| #[trigger]
                starts.contains(p) ==> 0 <= p && p + 5 <= bin@.len() && spec_op_at(
                    bin@,
                    p,
                ) is Some,
            forall|p: int| #[trigger]
                starts.contains(p) ==> match spec_op_at(bin@, p) {
                    Some(op) => match op {
                        Op::Const { idx } => visited_of(done).contains(idx as int) || spec_in_todo(
                            todo@,
                            idx as int,
                        ),
                        _ => true,
                    },
                    None => true,
                },
            visited_of(done).contains(spec_main_off(bin@)) || spec_in_todo(
                todo@,
                spec_main_off(bin@),
            ),
            forall|i: int|
                0 <= i < tabv.len() ==> visited_of(done).contains((((#[trigger] tabv[i]).1)) as int)
                    || spec_in_todo(todo@, (tabv[i].1) as int),
            forall|p: int| #[trigger]
                starts.contains(p) ==> spec_patched_at(bin@, tabv, patches@, p),
            forall|k: int|
                0 <= k < patches@.len() ==> spec_patch_ok(
                    bin@,
                    tabv,
                    (#[trigger] patches@[k]).0,
                    patches@[k].1,
                ) && (patches@[k].0) + 5 <= bin@.len() && starts.contains(
                    (patches@[k].0) as int,
                ),
            forall|j: int|
                0 <= j < todo@.len() ==> spec_reaches_all(
                    bin@,
                    tabv,
                    ((#[trigger] todo@[j]) as int),
                ),
            forall|q: int| #[trigger]
                starts.contains(q) ==> spec_reaches_all(bin@, tabv, q),
            forall|q: int| #[trigger]
                starts.contains(q) ==> spec_permitted_at(bin@, tabv, target, q),
            forall|q: int| #[trigger]
                starts.contains(q) ==> (spec_run(bin@, q) is Some && (forall|i: int|
                    0 <= i < spec_run(bin@, q).unwrap().len() ==> starts.contains(
                        (#[trigger] spec_run(bin@, q).unwrap()[i]).0,
                    ))),
        decreases set_int_range(0, len as int).difference(visited_of(done)).len(), todo@.len(),
    {
        let ghost todo0 = todo@;
        let off = match todo.pop() {
            Some(off) => off,
            None => {
                proof {
                    assert(false);
                }
                return Err(LinkError::ByteCode(ByteCodeError::Truncated));
            },
        };
        proof {
            assert forall|x: int|
                spec_in_todo(todo0, x) implies spec_in_todo(todo@, x) || x == off as int by {
                let j = choose|j: int| 0 <= j < todo0.len() && ((#[trigger] todo0[j]) as int) == x;
                if j < todo0.len() - 1 {
                    assert(todo@[j] == todo0[j]);
                }
            }
            assert(((todo0[todo0.len() - 1]) as int) == off as int);
            assert(spec_reaches_all(bin@, tabv, off as int));
        }
        if !visited_contains(&done, off) {
            let run = match decode_run(bin, off) {
                Ok(run) => run,
                Err(e) => {
                    proof {
                        assert forall|vs: Set<int>| !#[trigger] spec_decodable(
                            bin@,
                            tabv,
                            vs,
                        ) by {
                            if spec_decodable(bin@, tabv, vs) {
                                assert(spec_covers_plus(bin@, tabv, vs));
                                assert(vs.contains(off as int));
                                assert(spec_run(bin@, off as int) is None);
                            }
                        }
                        assert forall|vs: Set<int>| !#[trigger] spec_resolvable(
                            bin@,
                            tabv,
                            target,
                            vs,
                        ) by {
                            if spec_resolvable(bin@, tabv, target, vs) {
                                assert(spec_decodable(bin@, tabv, vs));
                            }
                        }
                    }
                    return Err(LinkError::ByteCode(e));
                },
            };
            let ghost vs0 = visited_of(done);
            let ghost sr = spec_run(bin@, off as int).unwrap();
            proof {
                lemma_run_entries(bin@, off as int);
            }
            let mut to_write = pending_new();
            let mut k: usize = 0;
            while k < run.len()
                invariant
                    spec_image_ok(bin@),
                    len == bin@.len(),
                    tabv == view_tab(tab@),
                    k <= run@.len(),
                    spec_run(bin@, off as int) == Some(sr),
                    run@.len() == sr.len(),
                    forall|i: int|
                        0 <= i < run@.len() ==> ((#[trigger] run@[i]).0) as int == sr[i].0
                            && run@[i].1 == sr[i].1,
                    forall|i: int|
                        0 <= i < sr.len() ==> (#[trigger] sr[i]).0 == off + 5 * i && spec_op_at(
                            bin@,
                            sr[i].0,
                        ) == Some(sr[i].1),
                    vs0.subset_of(visited_of(done)),
                    k >= 1 ==> visited_of(done).contains(off as int),
                    forall|d: int| #[trigger]
                        visited_of(done).contains(d) ==> spec_in_extent(starts, d),
                    forall|p: int| #[trigger]
                        starts.contains(p) ==> 0 <= p && p + 5 <= bin@.len()
                            && spec_op_at(bin@, p) is Some,
                    forall|p: int| #[trigger]
                        starts.contains(p) ==> match spec_op_at(bin@, p) {
                            Some(op) => match op {
                                Op::Const { idx } => visited_of(done).contains(idx as int)
                                    || spec_in_todo(todo@, idx as int) || idx as int == off as int,
                                _ => true,
                            },
                            None => true,
                        },
                    visited_of(done).contains(spec_main_off(bin@)) || spec_in_todo(
                        todo@,
                        spec_main_off(bin@),
                    ) || spec_main_off(bin@) == off as int,
                    forall|i: int|
                        0 <= i < tabv.len() ==> visited_of(done).contains(
                            (((#[trigger] tabv[i]).1)) as int,
                        ) || spec_in_todo(todo@, (tabv[i].1) as int) || (tabv[i].1) as int
                            == off as int,
                    forall|p: int| #[trigger]
                        starts.contains(p) ==> spec_patched_at(
                            bin@,
                            tabv,
                            patches@ + pending_of(to_write),
                            p,
                        ),
                    forall|k2: int|
                        0 <= k2 < (patches@ + pending_of(to_write)).len() ==> spec_patch_ok(
                            bin@,
                            tabv,
                            (#[trigger] (patches@ + pending_of(to_write))[k2]).0,
                            (patches@ + pending_of(to_write))[k2].1,
                        ) && ((patches@ + pending_of(to_write))[k2].0) + 5 <= bin@.len()
                            && starts.contains(
                            ((patches@ + pending_of(to_write))[k2].0) as int,
                        ),
                    spec_reaches_all(bin@, tabv, off as int),
                    forall|j: int|
                        0 <= j < todo@.len() ==> spec_reaches_all(
                            bin@,
                            tabv,
                            ((#[trigger] todo@[j]) as int),
                        ),
                    forall|q: int| #[trigger]
                        starts.contains(q) ==> spec_reaches_all(bin@, tabv, q),
                    forall|q: int| #[trigger]
                        starts.contains(q) ==> spec_permitted_at(bin@, tabv, target, q),
                    forall|j: int| 0 <= j < k ==> starts.contains((#[trigger] sr[j]).0),
                    forall|q: int| #[trigger]
                        starts.contains(q) ==> (spec_run(bin@, q) is Some && (forall|
                            i: int,
                        |
                            0 <= i < spec_run(bin@, q).unwrap().len() ==> starts.contains(
                                (#[trigger] spec_run(bin@, q).unwrap()[i]).0,
                            ) || spec_pos_of_run(sr, spec_run(bin@, q).unwrap()[i].0))),
                decreases run@.len() - k,
            {
                let (p, op) = run[k];
                let ghost sprev = starts;
                let ghost eprev = visited_of(done);
                let ghost combined0 = patches@ + pending_of(to_write);
                proof {
                    assert(spec_op_at(bin@, p as int) == Some(op));
                    starts = starts.insert(p as int);
                }
                visited_insert(&mut done, p);
                visited_insert(&mut done, p + 1);
                visited_insert(&mut done, p + 2);
                visited_insert(&mut done, p + 3);
                visited_insert(&mut done, p + 4);
                proof {
                    assert forall|q: int| #[trigger]
                        starts.contains(q) implies sprev.contains(q) || q == p as int by {}
                    assert forall|d: int| #[trigger]
                        visited_of(done).contains(d) implies spec_in_extent(starts, d) by {
                        if eprev.contains(d) {
                            let s0 = choose|s0: int| #[trigger]
                                sprev.contains(s0) && s0 <= d < s0 + 5;
                            assert(starts.contains(s0) && s0 <= d < s0 + 5);
                        } else {
                            assert(p as int <= d < p as int + 5);
                            assert(starts.contains(p as int) && p as int <= d < p as int + 5);
                        }
                    }
                    assert forall|vs: Set<int>| #[trigger] spec_covers_plus(bin@, tabv, vs)
                        implies vs.contains(p as int) by {
                        assert(vs.contains(off as int));
                        assert(spec_run_covered(bin@, vs, off as int));
                        assert(((spec_run(bin@, off as int).unwrap()[k as int]).0) == p as int);
                    }
                    assert(spec_reaches_all(bin@, tabv, p as int));
                    lemma_run_suffix(bin@, off as int, k as int);
                    assert(spec_run(bin@, p as int) == Some(sr.skip(k as int)));
                    assert forall|q: int| #[trigger]
                        starts.contains(q) implies (spec_run(bin@, q) is Some && (forall|
                        i: int,
                    |
                        0 <= i < spec_run(bin@, q).unwrap().len() ==> starts.contains(
                            (#[trigger] spec_run(bin@, q).unwrap()[i]).0,
                        ) || spec_pos_of_run(sr, spec_run(bin@, q).unwrap()[i].0))) by {
                        if sprev.contains(q) {
                            assert(spec_run(bin@, q) is Some);
                            assert forall|i: int|
                                0 <= i < spec_run(bin@, q).unwrap().len() implies starts.contains(
                                (#[trigger] spec_run(bin@, q).unwrap()[i]).0,
                            ) || spec_pos_of_run(sr, spec_run(bin@, q).unwrap()[i].0) by {
                                assert(sprev.contains((spec_run(bin@, q).unwrap()[i]).0)
                                    || spec_pos_of_run(sr, spec_run(bin@, q).unwrap()[i].0));
                            }
                        } else {
                            assert(q == p as int);
                            let sfx = sr.skip(k as int);
                            assert forall|i: int|
                                0 <= i < sfx.len() implies spec_pos_of_run(
                                sr,
                                (#[trigger] sfx[i]).0,
                            ) by {
                                assert(sfx[i] == sr[k + i]);
                            }
                        }
                    }
                }
                match op {
                    Op::Unresolved { id } => {
                        let name = match read_string(bin, id) {
                            Ok(n) => n,
                            Err(e) => {
                                proof {
                                    assert forall|vs: Set<int>| !#[trigger] spec_decodable(
                                        bin@,
                                        tabv,
                                        vs,
                                    ) by {
                                        if spec_decodable(bin@, tabv, vs) {
                                            assert(spec_covers_plus(bin@, tabv, vs));
                                            assert(vs.contains(p as int));
                                            assert(spec_op_at(bin@, p as int) == Some(op));
                                            assert(spec_string_at(bin@, id) is None);
                                        }
                                    }
                                    assert forall|vs: Set<int>| !#[trigger] spec_resolvable(
                                        bin@,
                                        tabv,
                                        target,
                                        vs,
                                    ) by {
                                        if spec_resolvable(bin@, tabv, target, vs) {
                                            assert(spec_decodable(bin@, tabv, vs));
                                        }
                                    }
                                }
                                return Err(LinkError::ByteCode(e));
                            },
                        };
                        match symtab_lookup(tab, &name) {
                            Some(v) => {
                                pending_push(&mut to_write, (p, v));
                                proof {
                                    assert(patches@ + pending_of(to_write) =~= combined0.push(
                                        (p, v),
                                    ));
                                    assert(spec_patch_ok(bin@, tabv, p, v));
                                    assert(spec_declares(tabv, name@));
                                    assert(spec_permitted_at(bin@, tabv, target, p as int));
                                    assert(spec_patched_at(
                                        bin@,
                                        tabv,
                                        patches@ + pending_of(to_write),
                                        p as int,
                                    )) by {
                                        let c = patches@ + pending_of(to_write);
                                        assert(0 <= c.len() - 1 < c.len() && ((#[trigger] c[c.len()
                                            - 1]).0) as int == p as int);
                                    }
                                }
                            },
                            None => {
                                if !target.allow_undeclared_symbol(name.as_slice()) {
                                    proof {
                                        assert(!target.allows(name@));
                                        assert(spec_reaches_all(bin@, tabv, p as int)
                                            && spec_op_at(bin@, p as int) == Some(op)
                                            && spec_string_at(bin@, id) == Some(name@));
                                        assert forall|vs: Set<int>| !#[trigger] spec_resolvable(
                                            bin@,
                                            tabv,
                                            target,
                                            vs,
                                        ) by {
                                            if spec_resolvable(bin@, tabv, target, vs) {
                                                assert(spec_covers_plus(bin@, tabv, vs));
                                                assert(vs.contains(p as int));
                                                assert(spec_permitted_at(bin@, tabv, target,
                                                    p as int));
                                                assert(false);
                                            }
                                        }
                                    }
                                    return Err(LinkError::SymbolNotFound(name));
                                }
                                proof {
                                    assert(target.allows(name@));
                                    assert(spec_permitted_at(bin@, tabv, target, p as int));
                                }
                            },
                        }
                    },
                    Op::Const { idx } => {
                        let idxu = idx as usize;
                        if !visited_contains(&done, idxu) {
                            let ghost todo1 = todo@;
                            todo.push(idxu);
                            proof {
                                assert(todo@[todo@.len() - 1] == idxu);
                                assert forall|x: int|
                                    spec_in_todo(todo1, x) implies spec_in_todo(todo@, x) by {
                                    let j = choose|j: int| 0 <= j < todo1.len() && ((
                                    #[trigger] todo1[j]) as int) == x;
                                    assert(todo@[j] == todo1[j]);
                                }
                                assert forall|vs: Set<int>| #[trigger] spec_covers_plus(
                                    bin@,
                                    tabv,
                                    vs,
                                ) implies vs.contains(idx as int) by {
                                    assert(vs.contains(off as int));
                                    assert(spec_run_covered(bin@, vs, off as int));
                                    assert(((spec_run(bin@, off as int).unwrap()[k as int]).0)
                                        == p as int);
                                    assert(spec_run(bin@, off as int).unwrap()[k as int].1 == op);
                                }
                                assert(spec_reaches_all(bin@, tabv, idx as int));
                                assert(((idxu as int)) == idx as int);
                                assert forall|j: int| 0 <= j < todo@.len() implies spec_reaches_all(
                                    bin@,
                                    tabv,
                                    ((#[trigger] todo@[j]) as int),
                                ) by {
                                    if j < todo@.len() - 1 {
                                        assert(todo@[j] == todo1[j]);
                                    }
                                }
                            }
                        }
                    },
                    _ => {},
                }
                proof {
                    let c = patches@ + pending_of(to_write);
                    assert(forall|j: int| 0 <= j < combined0.len() ==> c[j] == combined0[j]);
                    assert forall|q: int| #[trigger]
                        starts.contains(q) implies spec_patched_at(
                        bin@,
                        tabv,
                        c,
                        q,
                    ) by {
                        if sprev.contains(q) {
                            assert(spec_patched_at(bin@, tabv, combined0, q));
                            match spec_op_at(bin@, q) {
                                Some(op2) => match op2 {
                                    Op::Unresolved { id } => match spec_string_at(bin@, id) {
                                        Some(n2) => {
                                            if spec_declares(tabv, n2) {
                                                let k0 = choose|k0: int|
                                                    0 <= k0 < combined0.len() && ((
                                                    #[trigger] combined0[k0]).0) as int == q;
                                                assert(c[k0] == combined0[k0]);
                                            }
                                        },
                                        None => {},
                                    },
                                    _ => {},
                                },
                                None => {},
                            }
                        } else {
                            assert(q == p as int);
                            assert(spec_op_at(bin@, q) == Some(op));
                        }
                    }
                }
                k = k + 1;
            }
            let pv = pending_into_vec(to_write);
            let ghost patches0 = patches@;
            let mut m: usize = 0;
            while m < pv.len()
                invariant
                    m <= pv@.len(),
                    patches@ =~= patches0 + pv@.take(m as int),
                decreases pv@.len() - m,
            {
                patches.push(pv[m]);
                proof {
                    assert(patches@ =~= patches0 + pv@.take(m as int + 1));
                }
                m = m + 1;
            }
            proof {
                assert(patches@ =~= patches0 + pv@);
                assert(patches@ == patches0 + pending_of(to_write)) by {
                    assert(patches0 + pv@ =~= patches@);
                }
                let range = set_int_range(0, len as int);
                lemma_int_range(0, len as int);
                assert(range.contains(off as int));
                assert(!vs0.contains(off as int));
                range.lemma_set_insert_diff_decreases(vs0, off as int);
                assert(range.difference(visited_of(done)).subset_of(
                    range.difference(vs0.insert(off as int)),
                )) by {
                    assert(vs0.insert(off as int).subset_of(visited_of(done)));
                }
                broadcast use vstd::set_lib::lemma_set_subset_finite;

                assert(range.difference(vs0.insert(off as int)).subset_of(range));
                lemma_len_subset(
                    range.difference(visited_of(done)),
                    range.difference(vs0.insert(off as int)),
                );
                assert forall|q: int| #[trigger]
                    starts.contains(q) implies (spec_run(bin@, q) is Some && (forall|
                    i: int,
                |
                    0 <= i < spec_run(bin@, q).unwrap().len() ==> starts.contains(
                        (#[trigger] spec_run(bin@, q).unwrap()[i]).0,
                    ))) by {
                    assert(spec_run(bin@, q) is Some);
                    assert forall|i: int|
                        0 <= i < spec_run(bin@, q).unwrap().len() implies starts.contains(
                        (#[trigger] spec_run(bin@, q).unwrap()[i]).0,
                    ) by {
                        let pos = (spec_run(bin@, q).unwrap()[i]).0;
                        if spec_pos_of_run(sr, pos) {
                            let j = choose|j: int| 0 <= j < sr.len() && (#[trigger] sr[j]).0
                                == pos;
                            assert(starts.contains(sr[j].0));
                        }
                    }
                }
            }
        }
    }
    proof {
        let vsw = starts;
        assert(spec_covers_ext(bin@, tabv, vsw)) by {
            assert(!spec_in_todo(todo@, spec_main_off(bin@)));
            assert(visited_of(done).contains(spec_main_off(bin@)));
            assert(spec_in_extent(vsw, spec_main_off(bin@)));
            assert forall|i: int| 0 <= i < tabv.len() implies vsw.contains(
                (((#[trigger] tabv[i]).1)) as int,
            ) || spec_in_extent(vsw, (tabv[i].1) as int) by {
                assert(!spec_in_todo(todo@, (tabv[i].1) as int));
                assert(visited_of(done).contains((tabv[i].1) as int));
            }
            assert forall|q: int| #[trigger] vsw.contains(q) implies spec_run_absorbed(
                bin@,
                vsw,
                q,
            ) by {
                assert(spec_run(bin@, q) is Some);
                lemma_run_entries(bin@, q);
                assert forall|i: int| 0 <= i < spec_run(bin@, q).unwrap().len() implies vsw
                    .contains((#[trigger] spec_run(bin@, q).unwrap()[i]).0) && (
                match spec_run(bin@, q).unwrap()[i].1 {
                    Op::Const { idx } => vsw.contains(idx as int) || spec_in_extent(
                        vsw,
                        idx as int,
                    ),
                    _ => true,
                }) by {
                    let entry = spec_run(bin@, q).unwrap()[i];
                    assert(vsw.contains(entry.0));
                    assert(spec_op_at(bin@, entry.0) == Some(entry.1));
                    match entry.1 {
                        Op::Const { idx } => {
                            assert(!spec_in_todo(todo@, idx as int));
                            assert(visited_of(done).contains(idx as int));
                        },
                        _ => {},
                    }
                }
            }
        }
        assert(spec_all_patched(bin@, tabv, vsw, patches@));
        assert(spec_all_permitted(bin@, tabv, target, vsw));
        assert(forall|s: int| #[trigger] vsw.contains(s) ==> spec_reaches_all(bin@, tabv, s));
    }
    Ok(patches)
}

/// Writes every recorded patch over the buffer, in order, each a
/// fixed-width in-place rewrite.
fn apply_patches(bin: &mut Vec<u8>, ps: &Vec<(usize, u32)>)
    requires
        forall|k: int| 0 <= k < ps@.len() ==> (#[trigger] ps@[k]).0 + 5 <= old(bin)@.len(),
    ensures
        final(bin)@ == spec_apply(old(bin)@, ps@),
        final(bin)@.len() == old(bin)@.len(),
{
    let mut k: usize = 0;
    while k < ps.len()
        invariant
            k <= ps@.len(),
            forall|j: int| 0 <= j < ps@.len() ==> (#[trigger] ps@[j]).0 + 5 <= old(bin)@.len(),
            bin@ == spec_apply(old(bin)@, ps@.take(k as int)),
            bin@.len() == old(bin)@.len(),
        decreases ps@.len() - k,
    {
        let (p, v) = ps[k];
        let hi = bin.len();
        proof {
            assert(p + 5 <= hi);
        }
        let enc = u32_to_le_bytes(v);
        let ghost prev = bin@;
        bin[p] = 2u8;
        bin[p + 1] = enc[0];
        bin[p + 2] = enc[1];
        bin[p + 3] = enc[2];
        bin[p + 4] = enc[3];
        proof {
            assert(bin@ =~= spec_write5(prev, p, spec_encode_op(Op::Const { idx: v })));
            lemma_apply_snoc(old(bin)@, ps@.take(k as int), (p, v));
            assert(ps@.take(k as int).push((p, v)) =~= ps@.take(k as int + 1));
        }
        k = k + 1;
    }
    proof {
        assert(ps@.take(ps@.len() as int) =~= ps@);
    }
}

/// Self-links one combined, still-symbolic image in place: builds the
/// symbol table its globals declare, walks every instruction run reachable
/// from the main area and the declared bodies, and rewrites each symbolic
/// reference whose name is declared into the direct reference that
/// resolves it, at identical width. A reference to an undeclared name is
/// left in place when the target policy permits it and aborts the link
/// otherwise. On any error the buffer comes back unchanged.
pub fn self_link<T: Target>(bin: &mut Vec<u8>, target: &T) -> (r: Result<(), LinkError>)
    ensures
        final(bin)@.len() == old(bin)@.len(),
        !spec_image_ok(old(bin)@) ==> r matches Err(LinkError::ByteCode(_)),
        r matches Err(e) ==> final(bin)@ == old(bin)@ && (e matches LinkError::ByteCode(_) || e
            matches LinkError::SymbolDefinedTwice(_) || e matches LinkError::SymbolNotFound(_)),
        spec_image_ok(old(bin)@) && spec_names_ok(old(bin)@) ==> (r matches Err(
            LinkError::SymbolDefinedTwice(_),
        ) <==> spec_has_dup(spec_symtab(old(bin)@))),
        r matches Err(LinkError::SymbolDefinedTwice(n)) ==> exists|j: int|
            0 <= j < spec_symtab(old(bin)@).len() && #[trigger] spec_dup_at(
                spec_symtab(old(bin)@),
                j,
            ) && n@ == spec_symtab(old(bin)@)[j].0 && (forall|k: int|
                0 <= k < j ==> !spec_dup_at(spec_symtab(old(bin)@), k)),
        r matches Err(LinkError::SymbolNotFound(n)) ==> !spec_declares(
            spec_symtab(old(bin)@),
            n@,
        ) && !target.allows(n@) && (exists|p: int|
            #[trigger] spec_reaches_all(old(bin)@, spec_symtab(old(bin)@), p) && match spec_op_at(
                old(bin)@,
                p,
            ) {
                Some(op) => match op {
                    Op::Unresolved { id } => spec_string_at(old(bin)@, id) == Some(n@),
                    _ => false,
                },
                None => false,
            }),
        r matches Err(LinkError::ByteCode(_)) ==> !spec_image_ok(old(bin)@) || !spec_names_ok(
            old(bin)@,
        ) || (forall|vs: Set<int>|
            !#[trigger] spec_decodable(old(bin)@, spec_symtab(old(bin)@), vs)),
        r is Ok ==> spec_image_ok(old(bin)@) && spec_names_ok(old(bin)@) && !spec_has_dup(
            spec_symtab(old(bin)@),
        ) && spec_linked(old(bin)@, final(bin)@, spec_symtab(old(bin)@), target),
        (r is Ok && (forall|p: int|
            !((#[trigger] spec_op_at(old(bin)@, p)) matches Some(Op::Unresolved { .. }))))
            ==> final(bin)@ == old(bin)@,
        (r is Ok && (forall|p: int| #[trigger]
            spec_reaches_all(old(bin)@, spec_symtab(old(bin)@), p) ==> !(spec_op_at(
                old(bin)@,
                p,
            ) matches Some(Op::Unresolved { .. })))) ==> final(bin)@ == old(bin)@,
        (spec_image_ok(old(bin)@) && spec_names_ok(old(bin)@) && !spec_has_dup(
            spec_symtab(old(bin)@),
        ) && (exists|vs: Set<int>|
            #[trigger] spec_resolvable(old(bin)@, spec_symtab(old(bin)@), target, vs))) ==> r
            is Ok,
{
    match parse_header(&*bin) {
        Ok(_) => {},
        Err(e) => {
            return Err(LinkError::ByteCode(e));
        },
    }
    let tab = match build_symtab(&*bin) {
        Ok(t) => t,
        Err(e) => {
            return Err(e);
        },
    };
    let patches = match collect_patches(&*bin, &tab, target) {
        Ok(ps) => ps,
        Err(e) => {
            return Err(e);
        },
    };
    apply_patches(bin, &patches);
    proof {
        let b0 = old(bin)@;
        let tabv = spec_symtab(b0);
        assert(view_tab(tab@) == tabv);
        let vsw = choose|vs: Set<int>|
            #[trigger] spec_covers_ext(b0, tabv, vs) && spec_all_patched(b0, tabv, vs, patches@)
                && spec_all_permitted(b0, tabv, target, vs) && (forall|s: int|
                #[trigger] vs.contains(s) ==> spec_reaches_all(b0, tabv, s));
        assert(spec_apply(b0, patches@) == bin@);
        assert(spec_covers_ext(b0, tabv, vsw));
        assert forall|k1: int, k2: int|
            0 <= k1 < patches@.len() && 0 <= k2 < patches@.len() && (#[trigger] patches@[k1]).0
                == (#[trigger] patches@[k2]).0 implies patches@[k1].1 == patches@[k2].1 by {
            lemma_patch_value_unique(b0, tabv, patches@[k1].0, patches@[k1].1, patches@[k2].1);
        }
        assert forall|i: int|
            0 <= i < b0.len() && (forall|k: int|
                0 <= k < patches@.len() ==> !((#[trigger] patches@[k]).0 <= i < patches@[k].0
                    + 5)) implies (#[trigger] bin@[i]) == b0[i] by {
            lemma_apply_frame(b0, patches@, i);
        }
        assert forall|k: int|
            0 <= k < patches@.len() && (forall|j: int|
                0 <= j < patches@.len() ==> ((#[trigger] patches@[j]).0 == patches@[k].0
                    || patches@[j].0 + 5 <= patches@[k].0 || patches@[j].0 >= patches@[k].0
                    + 5)) implies spec_op_at(bin@, ((#[trigger] patches@[k]).0) as int) == Some(
            Op::Const { idx: patches@[k].1 },
        ) by {
            assert forall|j: int|
                k < j < patches@.len() implies ((#[trigger] patches@[j]).0 + 5 <= patches@[k].0
                || patches@[j].0 >= patches@[k].0 + 5 || (patches@[j].0 == patches@[k].0
                    && patches@[j].1 == patches@[k].1)) by {
                if patches@[j].0 == patches@[k].0 {
                    lemma_patch_value_unique(
                        b0,
                        tabv,
                        patches@[k].0,
                        patches@[j].1,
                        patches@[k].1,
                    );
                }
            }
            lemma_apply_patch_decodes(b0, patches@, k);
        }
        assert(spec_linked(b0, bin@, tabv, target));
        if forall|p: int|
            !((#[trigger] spec_op_at(b0, p)) matches Some(Op::Unresolved { .. })) {
            lemma_no_unresolved_identity(b0, tabv, patches@);
        }
        if forall|p: int| #[trigger]
            spec_reaches_all(b0, tabv, p) ==> !(spec_op_at(b0, p) matches Some(
                Op::Unresolved { .. },
            )) {
            if patches@.len() > 0 {
                assert(spec_patch_ok(b0, tabv, patches@[0].0, patches@[0].1));
                assert(spec_reaches_all(b0, tabv, (patches@[0].0) as int));
                assert(false);
            }
            assert(spec_apply(b0, patches@) == b0);
        }
    }
    Ok(())
}

} // verus!
