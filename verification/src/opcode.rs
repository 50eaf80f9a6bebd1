//! A small opcode-table function backend: the simplest instance of the
//! external-function boundary, kept in the library so that the
//! compiled-function codec has a fully checked packer and compiler to run
//! against.
//!
//! A raw function is a list of opcode bytes. Its packed form is a format
//! tag byte followed by the opcodes, expanded to bits. The unpacker
//! demands the tag; the compiler demands at least one opcode, only known
//! opcodes, and a bounded body, and its success is the only way a compiled
//! function comes to be.

use bit_vec::BitVec;
use vstd::prelude::*;

use crate::bits::{
    bit_vec_bits, bits_of_bytes, bits_to_bytes, bytes_of_bits, bytes_to_bits,
    lemma_bytes_bits_round_trip,
};
use crate::funcs::DiskFunc;

verus! {

/// The tag byte that opens every packed opcode function.
pub const FUNC_TAG: u8 = 0xC3;

/// Opcodes are the bytes below this bound.
pub const OP_BOUND: u8 = 16;

/// The largest number of opcodes the compiler accepts in one function.
pub const MAX_FUNC_OPS: usize = 0x1000_0000;

/// An uncompiled function: a bare list of opcode bytes, not yet checked.
pub struct RawOps {
    /// The opcode bytes, in execution order.
    pub ops: Vec<u8>,
}

impl DeepView for RawOps {
    type V = Seq<u8>;

    open spec fn deep_view(&self) -> Seq<u8> {
        self.ops@
    }
}

/// A function body the compiler accepts: nonempty, bounded, and made of
/// known opcodes only.
pub open spec fn valid_ops(ops: Seq<u8>) -> bool {
    &&& 1 <= ops.len() <= MAX_FUNC_OPS
    &&& forall|i: int| 0 <= i < ops.len() ==> ops[i] < OP_BOUND
}

/// A compiled opcode function: produced only by a successful run of
/// `DiskFunc::compile`, never constructed any other way.
pub struct OpFunc {
    ops: Vec<u8>,
}

impl DeepView for OpFunc {
    type V = Seq<u8>;

    closed spec fn deep_view(&self) -> Seq<u8> {
        self.ops@
    }
}

impl OpFunc {
    /// The compiled function's opcodes.
    pub fn ops(&self) -> (r: &Vec<u8>)
        ensures
            r@ == self.deep_view(),
    {
        &self.ops
    }
}

impl DiskFunc for OpFunc {
    type Raw = RawOps;

    closed spec fn wf(&self) -> bool {
        valid_ops(self.ops@)
    }

    closed spec fn packed_bits(&self) -> Seq<bool> {
        bits_of_bytes(seq![FUNC_TAG] + self.ops@)
    }

    open spec fn spec_unpack(bits: Seq<bool>) -> Option<Seq<u8>> {
        let bytes = bytes_of_bits(bits);
        if bytes.len() >= 1 && bytes[0] == FUNC_TAG {
            Some(bytes.skip(1))
        } else {
            None
        }
    }

    open spec fn spec_compile(raw: Seq<u8>) -> Option<Seq<u8>> {
        if valid_ops(raw) {
            Some(raw)
        } else {
            None
        }
    }

    fn pack(&self) -> (b: BitVec) {
        let mut bytes: Vec<u8> = Vec::new();
        bytes.push(FUNC_TAG);
        let mut i: usize = 0;
        while i < self.ops.len()
            invariant
                self.wf(),
                i <= self.ops@.len(),
                bytes@ == seq![FUNC_TAG] + self.ops@.take(i as int),
            decreases self.ops@.len() - i,
        {
            bytes.push(self.ops[i]);
            proof {
                assert(bytes@ =~= seq![FUNC_TAG] + self.ops@.take(i + 1));
            }
            i = i + 1;
        }
        proof {
            assert(bytes@ =~= seq![FUNC_TAG] + self.ops@);
        }
        bytes_to_bits(&bytes)
    }

    fn unpack(bits: &BitVec) -> (r: Option<RawOps>) {
        let mut bytes = bits_to_bytes(bits);
        if bytes.len() >= 1 && bytes[0] == FUNC_TAG {
            bytes.remove(0);
            proof {
                assert(bytes.deep_view() =~= bytes@);
            }
            Some(RawOps { ops: bytes })
        } else {
            None
        }
    }

    fn compile(raw: &RawOps) -> (r: Option<OpFunc>) {
        if raw.ops.len() == 0 || raw.ops.len() > MAX_FUNC_OPS {
            return None;
        }
        let mut ops: Vec<u8> = Vec::new();
        let mut i: usize = 0;
        while i < raw.ops.len()
            invariant
                i <= raw.ops@.len(),
                ops@ == raw.ops@.take(i as int),
                forall|j: int| 0 <= j < i ==> raw.ops@[j] < OP_BOUND,
            decreases raw.ops@.len() - i,
        {
            let op = raw.ops[i];
            if op >= OP_BOUND {
                return None;
            }
            ops.push(op);
            proof {
                assert(ops@ =~= raw.ops@.take(i + 1));
            }
            i = i + 1;
        }
        proof {
            assert(ops@ =~= raw.ops@);
        }
        Some(OpFunc { ops })
    }

    proof fn lemma_pack_faithful(&self) {
        let tagged = seq![FUNC_TAG] + self.ops@;
        lemma_bytes_bits_round_trip(tagged);
        assert(tagged.skip(1) =~= self.ops@);
    }

    proof fn lemma_packed_bounded(&self) {
        assert(self.packed_bits().len() == (1 + self.ops@.len()) * 8);
        assert((1 + self.ops@.len()) * 8 <= (1 + MAX_FUNC_OPS as int) * 8) by (nonlinear_arith)
            requires
                self.ops@.len() <= MAX_FUNC_OPS as int,
        ;
    }
}

} // verus!
