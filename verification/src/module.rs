//! The binary module: magic, version, entry point, deduplicated string
//! constant pool, and code, all little-endian. `module_bytes` serializes a
//! module to exactly the layout `module_bytes_m` describes; `read_module`
//! parses bytes back, succeeds on every well-formed serialization, and
//! returns a module only if it reproduces the very same bytes, so writing
//! a module and reading it back is a proven round trip.
use vstd::prelude::*;

use crate::bytecode::{le2, le4, push_le2, push_le4};
use crate::emitter::{CompileError, Emitter};
use vstd::string::StrSliceExecFns;

verus! {

/// A finished module ready for serialization.
pub struct Module {
    pub version: u16,
    pub entry: u32,
    pub constants: Vec<Vec<u8>>,
    pub code: Vec<u8>,
}

/// Ghost mirror of `Module`.
#[verifier::ext_equal]
pub ghost struct ModuleV {
    pub version: u16,
    pub entry: u32,
    pub constants: Seq<Seq<u8>>,
    pub code: Seq<u8>,
}

impl View for Module {
    type V = ModuleV;

    open spec fn view(&self) -> ModuleV {
        ModuleV {
            version: self.version,
            entry: self.entry,
            constants: self.constants@.map_values(|c: Vec<u8>| c@),
            code: self.code@,
        }
    }
}

/// The four magic bytes `"AMBR"`.
pub open spec fn magic_bytes() -> Seq<u8> {
    seq![0x41u8, 0x4du8, 0x42u8, 0x52u8]
}

/// Every length of the module fits its 32-bit field.
pub open spec fn module_wf(m: ModuleV) -> bool {
    &&& m.constants.len() < 0x1_0000_0000
    &&& (forall|i: int| 0 <= i < m.constants.len() ==> (#[trigger] m.constants[i]).len()
        < 0x1_0000_0000)
    &&& m.code.len() < 0x1_0000_0000
}

/// The constant pool section: each constant as length then bytes.
pub open spec fn pool_bytes_m(cs: Seq<Seq<u8>>) -> Seq<u8>
    decreases cs.len(),
{
    if cs.len() == 0 {
        Seq::empty()
    } else {
        pool_bytes_m(cs.drop_last()) + le4(cs.last().len() as u32) + cs.last()
    }
}

/// The fixed binary layout of a module.
pub open spec fn module_bytes_m(m: ModuleV) -> Seq<u8> {
    magic_bytes() + le2(m.version) + le4(m.entry) + le4(m.constants.len() as u32) + pool_bytes_m(
        m.constants,
    ) + le4(m.code.len() as u32) + m.code
}

/// Serializes the module; a section too large for its length field is the
/// one failure.
#[verifier::loop_isolation(false)]
#[verifier::rlimit(50)]
pub fn module_bytes(m: &Module) -> (r: Result<Vec<u8>, CompileError>)
    ensures
        module_wf(m@) ==> r is Ok,
        !module_wf(m@) ==> r is Err,
        r is Ok ==> r->Ok_0@ == module_bytes_m(m@),
{
    let big: u64 = 0x1_0000_0000;
    if m.constants.len() as u64 >= big || m.code.len() as u64 >= big {
        return Err(CompileError::TooLarge);
    }
    let mut out: Vec<u8> = Vec::new();
    out.push(0x41);
    out.push(0x4d);
    out.push(0x42);
    out.push(0x52);
    assert(out@ =~= magic_bytes());
    push_le2(&mut out, m.version);
    push_le4(&mut out, m.entry);
    push_le4(&mut out, m.constants.len() as u32);
    let ghost header = out@;
    let mut k: usize = 0;
    while k < m.constants.len()
        invariant
            out@ == header + pool_bytes_m(m@.constants.subrange(0, k as int)),
            k <= m.constants.len(),
            forall|i: int| 0 <= i < k ==> (#[trigger] m@.constants[i]).len() < 0x1_0000_0000,
        decreases m.constants.len() - k,
    {
        if m.constants[k].len() as u64 >= big {
            proof {
                assert(m@.constants[k as int].len() >= 0x1_0000_0000);
                assert(!module_wf(m@));
            }
            return Err(CompileError::TooLarge);
        }
        let ghost prefix = m@.constants.subrange(0, k as int);
        push_le4(&mut out, m.constants[k].len() as u32);
        let ghost mid = out@;
        let mut j: usize = 0;
        while j < m.constants[k].len()
            invariant
                out@ == mid + m@.constants[k as int].subrange(0, j as int),
                j <= m.constants@[k as int]@.len(),
                k < m.constants@.len(),
            decreases m.constants@[k as int]@.len() - j,
        {
            let b = m.constants[k][j];
            out.push(b);
            assert(out@ =~= mid + m@.constants[k as int].subrange(0, j + 1));
            j = j + 1;
        }
        proof {
            assert(m@.constants[k as int].subrange(0, m@.constants[k as int].len() as int)
                =~= m@.constants[k as int]);
            assert(m@.constants.subrange(0, k + 1).drop_last() =~= prefix);
            assert(m@.constants.subrange(0, k + 1).last() == m@.constants[k as int]);
            assert(out@ =~= header + pool_bytes_m(m@.constants.subrange(0, k + 1)));
        }
        k = k + 1;
    }
    proof {
        assert(m@.constants.subrange(0, m@.constants.len() as int) =~= m@.constants);
    }
    push_le4(&mut out, m.code.len() as u32);
    let ghost before_code = out@;
    let mut j: usize = 0;
    while j < m.code.len()
        invariant
            out@ == before_code + m@.code.subrange(0, j as int),
            j <= m.code@.len(),
        decreases m.code@.len() - j,
    {
        let b = m.code[j];
        out.push(b);
        assert(out@ =~= before_code + m@.code.subrange(0, j + 1));
        j = j + 1;
    }
    proof {
        assert(m@.code.subrange(0, m@.code.len() as int) =~= m@.code);
        assert(out@ =~= module_bytes_m(m@));
    }
    Ok(out)
}

/// Reads one little-endian u32 at `at`.
fn get_u32(bytes: &Vec<u8>, at: usize) -> (r: u32)
    requires
        at + 4 <= bytes@.len(),
    ensures
        le4(r) == bytes@.subrange(at as int, at as int + 4),
{
    let n = bytes.len();
    assert(at + 4 <= n);
    let b0 = bytes[at];
    let b1 = bytes[at + 1];
    let b2 = bytes[at + 2];
    let b3 = bytes[at + 3];
    let r = (b0 as u32) | ((b1 as u32) << 8) | ((b2 as u32) << 16) | ((b3 as u32) << 24);
    proof {
        assert((r & 0xff) as u8 == b0 && ((r >> 8) & 0xff) as u8 == b1 && ((r >> 16)
            & 0xff) as u8 == b2 && ((r >> 24) & 0xff) as u8 == b3) by (bit_vector)
            requires
                r == (b0 as u32) | ((b1 as u32) << 8) | ((b2 as u32) << 16) | ((b3 as u32) << 24),
        ;
        assert(le4(r) =~= bytes@.subrange(at as int, at as int + 4));
    }
    r
}

/// The pool section from constant `k` on: each remaining constant as
/// length then bytes.
pub open spec fn pool_tail(cs: Seq<Seq<u8>>, k: int) -> Seq<u8>
    decreases cs.len() - k,
{
    if k < 0 || k >= cs.len() {
        Seq::empty()
    } else {
        le4(cs[k].len() as u32) + cs[k] + pool_tail(cs, k + 1)
    }
}

/// The pool section splits at any constant boundary.
proof fn lemma_pool_split(cs: Seq<Seq<u8>>, k: int)
    requires
        0 <= k <= cs.len(),
    ensures
        pool_bytes_m(cs) == pool_bytes_m(cs.subrange(0, k)) + pool_tail(cs, k),
    decreases cs.len() - k,
{
    if k == cs.len() {
        assert(cs.subrange(0, k) =~= cs);
        assert(pool_bytes_m(cs) + pool_tail(cs, k) =~= pool_bytes_m(cs));
    } else {
        lemma_pool_split(cs, k + 1);
        assert(cs.subrange(0, k + 1).drop_last() =~= cs.subrange(0, k));
        assert(cs.subrange(0, k + 1).last() == cs[k]);
        assert(pool_bytes_m(cs.subrange(0, k + 1)) == pool_bytes_m(cs.subrange(0, k)) + le4(
            cs[k].len() as u32,
        ) + cs[k]);
        assert((pool_bytes_m(cs.subrange(0, k)) + le4(cs[k].len() as u32) + cs[k]) + pool_tail(
            cs,
            k + 1,
        ) =~= pool_bytes_m(cs.subrange(0, k)) + (le4(cs[k].len() as u32) + cs[k] + pool_tail(
            cs,
            k + 1,
        )));
    }
}

/// Two equal 4-byte encodings carry the same value.
proof fn lemma_le4_inj(a: u32, b: u32)
    requires
        le4(a) == le4(b),
    ensures
        a == b,
{
    crate::bytecode::lemma_le4_roundtrip(a);
    crate::bytecode::lemma_le4_roundtrip(b);
}

/// Parses a serialized module; the parse succeeds exactly on the
/// serializations of well-formed modules. A result is handed back only
/// after it has been serialized again and compared with the input byte for
/// byte, so `Some(m)` guarantees `module_bytes_m(m@) == bytes@`; and for
/// any well-formed `mv` whose serialization the input is, the parse is
/// proved to reach that comparison and succeed. Together: writing a
/// well-formed module and reading the bytes back reproduces the identical
/// version, entry point, constant pool and code.
#[verifier::loop_isolation(false)]
#[verifier::rlimit(100)]
pub fn read_module(bytes: &Vec<u8>) -> (r: Option<Module>)
    ensures
        match r {
            Some(m) => module_wf(m@) && module_bytes_m(m@) == bytes@,
            None => true,
        },
        (exists|mv: ModuleV| module_wf(mv) && bytes@ == module_bytes_m(mv)) ==> r is Some,
{
    let ghost good = exists|mv: ModuleV| module_wf(mv) && bytes@ == module_bytes_m(mv);
    let ghost gm: ModuleV = if good {
        choose|mv: ModuleV| module_wf(mv) && bytes@ == module_bytes_m(mv)
    } else {
        arbitrary()
    };
    proof {
        if good {
            assert(bytes@.len() == 18 + pool_bytes_m(gm.constants).len() + gm.code.len());
        }
    }
    if bytes.len() < 14 {
        return None;
    }
    if !(bytes[0] == 0x41 && bytes[1] == 0x4d && bytes[2] == 0x42 && bytes[3] == 0x52) {
        proof {
            if good {
                assert(bytes@[0] == 0x41u8 && bytes@[1] == 0x4du8 && bytes@[2] == 0x42u8
                    && bytes@[3] == 0x52u8);
            }
        }
        return None;
    }
    let version: u16 = (bytes[4] as u16) | ((bytes[5] as u16) << 8);
    proof {
        if good {
            let gv = gm.version;
            assert(bytes@[4] == le2(gv)[0] && bytes@[5] == le2(gv)[1]);
            assert(version == gv) by (bit_vector)
                requires
                    version == ((gv & 0xff) as u8 as u16) | ((((gv >> 8) & 0xff) as u8 as u16)
                        << 8),
            ;
        }
    }
    let entry = get_u32(bytes, 6);
    let n_consts = get_u32(bytes, 10);
    proof {
        if good {
            assert(bytes@.subrange(6, 10) =~= le4(gm.entry));
            lemma_le4_inj(entry, gm.entry);
            assert(bytes@.subrange(10, 14) =~= le4(gm.constants.len() as u32));
            lemma_le4_inj(n_consts, gm.constants.len() as u32);
            assert(n_consts == gm.constants.len());
        }
    }
    let mut at: usize = 14;
    let mut constants: Vec<Vec<u8>> = Vec::new();
    let mut k: u32 = 0;
    proof {
        if good {
            lemma_pool_split(gm.constants, 0);
            assert(pool_bytes_m(gm.constants.subrange(0, 0)) =~= Seq::<u8>::empty());
            assert(constants@.map_values(|c: Vec<u8>| c@) =~= gm.constants.subrange(0, 0));
        }
    }
    while k < n_consts
        invariant
            at <= bytes@.len(),
            good ==> {
                &&& k <= gm.constants.len()
                &&& at as int == 14 + pool_bytes_m(gm.constants.subrange(0, k as int)).len()
                &&& constants@.map_values(|c: Vec<u8>| c@) == gm.constants.subrange(0, k as int)
                &&& n_consts == gm.constants.len()
            },
        decreases n_consts - k,
    {
        proof {
            if good {
                lemma_pool_split(gm.constants, k as int);
                assert(bytes@ =~= bytes@.subrange(0, at as int) + pool_tail(
                    gm.constants,
                    k as int,
                ) + le4(gm.code.len() as u32) + gm.code);
            }
        }
        let ghost gc: Seq<u8> = if good {
            gm.constants[k as int]
        } else {
            arbitrary()
        };
        if bytes.len() - at < 4 {
            proof {
                if good {
                    assert(pool_tail(gm.constants, k as int).len() >= 4 + gc.len());
                }
            }
            return None;
        }
        let clen = get_u32(bytes, at);
        proof {
            if good {
                assert(bytes@.subrange(at as int, at as int + 4) =~= le4(gc.len() as u32));
                lemma_le4_inj(clen, gc.len() as u32);
                assert(clen == gc.len());
            }
        }
        at = at + 4;
        if ((bytes.len() - at) as u64) < (clen as u64) {
            return None;
        }
        let ghost cstart = at as int;
        let mut c: Vec<u8> = Vec::new();
        let mut j: u32 = 0;
        while j < clen
            invariant
                at + clen - j <= bytes@.len(),
                j <= clen,
                at as int == cstart + j,
                c@ == bytes@.subrange(cstart, at as int),
            decreases clen - j,
        {
            c.push(bytes[at]);
            assert(c@ =~= bytes@.subrange(cstart, at + 1));
            at = at + 1;
            j = j + 1;
        }
        proof {
            if good {
                assert(bytes@.subrange(cstart, cstart + gc.len()) =~= gc);
                assert(c@ == gc);
            }
        }
        let ghost prev = constants@;
        constants.push(c);
        proof {
            if good {
                assert(constants@.map_values(|x: Vec<u8>| x@) =~= gm.constants.subrange(
                    0,
                    k as int + 1,
                ));
                lemma_pool_split(gm.constants, k as int);
                lemma_pool_split(gm.constants, k as int + 1);
                assert(gm.constants.subrange(0, k as int + 1).drop_last() =~= gm.constants.subrange(
                    0,
                    k as int,
                ));
                assert(pool_bytes_m(gm.constants.subrange(0, k as int + 1)) == pool_bytes_m(
                    gm.constants.subrange(0, k as int),
                ) + le4(gc.len() as u32) + gc);
            }
        }
        k = k + 1;
    }
    proof {
        if good {
            assert(gm.constants.subrange(0, gm.constants.len() as int) =~= gm.constants);
            assert(bytes@ =~= bytes@.subrange(0, at as int) + le4(gm.code.len() as u32) + gm.code);
        }
    }
    if bytes.len() - at < 4 {
        return None;
    }
    let code_len = get_u32(bytes, at);
    proof {
        if good {
            assert(bytes@.subrange(at as int, at as int + 4) =~= le4(gm.code.len() as u32));
            lemma_le4_inj(code_len, gm.code.len() as u32);
        }
    }
    at = at + 4;
    if ((bytes.len() - at) as u64) != (code_len as u64) {
        return None;
    }
    let ghost code_start = at as int;
    let mut code: Vec<u8> = Vec::new();
    while at < bytes.len()
        invariant
            code_start <= at <= bytes@.len(),
            code@ == bytes@.subrange(code_start, at as int),
        decreases bytes@.len() - at,
    {
        code.push(bytes[at]);
        assert(code@ =~= bytes@.subrange(code_start, at + 1));
        at = at + 1;
    }
    proof {
        if good {
            assert(bytes@.subrange(code_start, code_start + gm.code.len()) =~= gm.code);
            assert(code@ == gm.code);
        }
    }
    let m = Module { version, entry, constants, code };
    proof {
        if good {
            assert(m@ =~= gm);
        }
    }
    let back = match module_bytes(&m) {
        Ok(b) => b,
        Err(_) => {
            return None;
        },
    };
    if !bytes_eq(&back, bytes) {
        return None;
    }
    Some(m)
}

/// Byte-for-byte equality of two buffers.
#[verifier::loop_isolation(false)]
fn bytes_eq(a: &Vec<u8>, b: &Vec<u8>) -> (r: bool)
    ensures
        r == (a@ == b@),
{
    if a.len() != b.len() {
        proof {
            assert(a@.len() != b@.len());
        }
        return false;
    }
    let mut i: usize = 0;
    while i < a.len()
        invariant
            i <= a@.len(),
            a@.len() == b@.len(),
            forall|j: int| 0 <= j < i ==> a@[j] == b@[j],
        decreases a@.len() - i,
    {
        if a[i] != b[i] {
            return false;
        }
        i = i + 1;
    }
    proof {
        assert(a@ =~= b@);
    }
    true
}

/// The serialized module of a finished emission: version 1, entry point 0,
/// the emitter's constant pool encoded as UTF-8, and its code.
#[verifier::loop_isolation(false)]
pub fn to_module(e: &Emitter) -> (m: Module)
    ensures
        m@.version == 1,
        m@.entry == 0,
        m@.code == e@.code,
        m@.constants.len() == e@.constants.len(),
        forall|i: int| 0 <= i < e@.constants.len() ==> #[trigger] m@.constants[i]
            == vstd::utf8::encode_utf8(e@.constants[i]),
{
    let mut constants: Vec<Vec<u8>> = Vec::new();
    let mut k: usize = 0;
    while k < e.constants.len()
        invariant
            k <= e.constants@.len(),
            constants@.len() == k,
            forall|i: int| 0 <= i < k ==> #[trigger] constants@[i]@ == vstd::utf8::encode_utf8(
                e@.constants[i],
            ),
        decreases e.constants@.len() - k,
    {
        let c = string_utf8_bytes(&e.constants[k]);
        constants.push(c);
        k = k + 1;
    }
    Module { version: 1, entry: 0, constants, code: clone_bytes(&e.code) }
}

/// The UTF-8 bytes of a string. Relies on str::as_bytes through vstd's
/// `as_bytes_vec`, whose result is `encode_utf8` of the characters.
fn string_utf8_bytes(s: &String) -> (r: Vec<u8>)
    ensures
        r@ == vstd::utf8::encode_utf8(s@),
{
    s.as_str().as_bytes_vec()
}

/// A copy of a byte buffer.
#[verifier::loop_isolation(false)]
fn clone_bytes(v: &Vec<u8>) -> (r: Vec<u8>)
    ensures
        r@ == v@,
{
    let mut out: Vec<u8> = Vec::new();
    let mut i: usize = 0;
    while i < v.len()
        invariant
            out@ == v@.subrange(0, i as int),
            i <= v@.len(),
        decreases v@.len() - i,
    {
        let b = v[i];
        out.push(b);
        assert(out@ =~= v@.subrange(0, i + 1));
        i = i + 1;
    }
    proof {
        assert(v@.subrange(0, v@.len() as int) =~= v@);
    }
    out
}

} // verus!
