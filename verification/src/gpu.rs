//! What a graphics device is told to evaluate a stencil table: sizes, kernel
//! parameters and the number of workgroups.

use crate::error::{joined, KernelError};
use vstd::prelude::*;

verus! {

/// Most components that a value can have in the compute kernel.
pub const MAX_COMPONENTS: u32 = 32;

/// Invocations per workgroup, unless the caller picks another number.
pub const DEFAULT_WORKGROUP_SIZE: u32 = 64;

// ---------------------------------------------------------------------------
// Texts
// ---------------------------------------------------------------------------
/// A decimal digit.
pub open spec fn digit(d: nat) -> char {
    seq!['0', '1', '2', '3', '4', '5', '6', '7', '8', '9'][d as int]
}

/// A number in decimal digits, without leading zeros.
pub open spec fn decimal(n: nat) -> Seq<char>
    decreases n,
{
    if n < 10 {
        seq![digit(n)]
    } else {
        decimal(n / 10).push(digit(n % 10))
    }
}

fn digit_text(d: u64) -> (r: &'static str)
    requires
        d < 10,
    ensures
        r@ == seq![digit(d as nat)],
{
    proof {
        reveal_strlit("0");
        reveal_strlit("1");
        reveal_strlit("2");
        reveal_strlit("3");
        reveal_strlit("4");
        reveal_strlit("5");
        reveal_strlit("6");
        reveal_strlit("7");
        reveal_strlit("8");
        reveal_strlit("9");
    }
    match d {
        0 => "0",
        1 => "1",
        2 => "2",
        3 => "3",
        4 => "4",
        5 => "5",
        6 => "6",
        7 => "7",
        8 => "8",
        _ => "9",
    }
}

fn decimal_text(number: u64) -> (r: String)
    ensures
        r@ == decimal(number as nat),
    decreases number,
{
    if number < 10 {
        proof {
            reveal_strlit("");
        }
        let r: String = joined("", digit_text(number));
        assert(r@ =~= decimal(number as nat));
        r
    } else {
        let front: String = decimal_text(number / 10);
        let r: String = joined(front.as_str(), digit_text(number % 10));
        assert(r@ =~= decimal(number as nat));
        r
    }
}

pub open spec fn components_text(components: u32) -> Seq<char> {
    "components "@ + decimal(components as nat) + " out of range 1..="@ + decimal(MAX_COMPONENTS as nat)
}

pub open spec fn length_text(length: u32) -> Seq<char> {
    "primvar length "@ + decimal(length as nat) + " exceeds kernel capacity "@ + decimal(MAX_COMPONENTS as nat)
}

pub open spec fn prior_text(len: u64, wanted: u64) -> Seq<char> {
    "prior_output length "@ + decimal(len as nat) + " != output_count*components "@ + decimal(wanted as nat)
}

fn two_numbers(before: &str, first: u64, between: &str, second: u64) -> (r: String)
    ensures
        r@ == before@ + decimal(first as nat) + between@ + decimal(second as nat),
{
    let start: String = joined(before, decimal_text(first).as_str());
    let middle: String = joined(start.as_str(), between);
    joined(middle.as_str(), decimal_text(second).as_str())
}

// ---------------------------------------------------------------------------
// Buffers
// ---------------------------------------------------------------------------
/// How values lie in a buffer of numbers.
#[derive(Debug, Clone, Copy)]
pub struct BufferDescriptor {
    /// Number of the first value's first component.
    pub offset: u32,
    /// From one value to the next.
    pub stride: u32,
    /// Components of a value.
    pub length: u32,
}

impl BufferDescriptor {
    /// Values that lie one after the other.
    pub fn packed(components: u32) -> (r: Self)
        ensures
            r.offset == 0,
            r.stride == components,
            r.length == components,
    {
        BufferDescriptor { offset: 0, stride: components, length: components }
    }
}

/// What goes into a storage buffer: a device has no empty ones, so four zero
/// bytes stand for nothing.
pub fn storage_contents(bytes: Vec<u8>) -> (r: Vec<u8>)
    ensures
        r@ == (if bytes@.len() == 0 {
            seq![0u8, 0u8, 0u8, 0u8]
        } else {
            bytes@
        }),
{
    if bytes.len() == 0 {
        let out: Vec<u8> = vec![0u8, 0u8, 0u8, 0u8];
        assert(out@ =~= seq![0u8, 0u8, 0u8, 0u8]);
        out
    } else {
        bytes
    }
}

/// The buffers of an evaluation.
#[derive(Debug, Clone, Copy)]
pub struct EvalPlan {
    /// How values lie in the input and in the output.
    pub desc: BufferDescriptor,
    /// Numbers in the output.
    pub dst_len: u64,
    /// Bytes of the output buffer.
    pub dst_size: u64,
}

pub open spec fn is_plan(plan: EvalPlan, output_count: nat, components: u32) -> bool {
    &&& plan.desc.offset == 0
    &&& plan.desc.stride == components
    &&& plan.desc.length == components
    &&& plan.dst_len == output_count * components
    &&& plan.dst_size == (if plan.dst_len == 0 {
        4
    } else {
        4 * plan.dst_len
    })
}

pub open spec fn components_ok(components: u32) -> bool {
    0 < components <= MAX_COMPONENTS
}

/// The buffers for evaluating a table with `output_count` outputs over values of
/// so many components.
pub fn plan_evaluation(output_count: u32, components: u32) -> (r: Result<EvalPlan, KernelError>)
    ensures
        match r {
            Ok(plan) => components_ok(components) && is_plan(plan, output_count as nat, components),
            Err(error) => !components_ok(components) && error is Gpu && error->Gpu_0@ == components_text(components),
        },
{
    if components == 0 || components > MAX_COMPONENTS {
        return Err(
            KernelError::Gpu(
                two_numbers("components ", components as u64, " out of range 1..=", MAX_COMPONENTS as u64),
            ),
        );
    }
    assert(output_count * components <= 0xffff_ffff * 32) by (nonlinear_arith)
        requires
            0 <= output_count <= 0xffff_ffff,
            0 <= components <= 32,
    ;
    let dst_len: u64 = output_count as u64 * components as u64;
    let dst_size: u64 = if dst_len == 0 {
        4
    } else {
        dst_len * 4
    };
    Ok(EvalPlan { desc: BufferDescriptor::packed(components), dst_len, dst_size })
}

/// The buffers for evaluating some outputs of a table anew, given how many
/// numbers the output had before.
pub fn plan_sparse_evaluation(output_count: u32, components: u32, prior_len: u64) -> (r: Result<EvalPlan, KernelError>)
    ensures
        match r {
            Ok(plan) => components_ok(components) && is_plan(plan, output_count as nat, components) && prior_len
                == plan.dst_len,
            Err(error) => error is Gpu && if !components_ok(components) {
                error->Gpu_0@ == components_text(components)
            } else {
                prior_len != output_count * components && error->Gpu_0@ == prior_text(
                    prior_len,
                    (output_count * components) as u64,
                )
            },
        },
{
    let plan: EvalPlan = match plan_evaluation(output_count, components) {
        Ok(plan) => plan,
        Err(error) => {
            return Err(error);
        },
    };
    if prior_len != plan.dst_len {
        return Err(
            KernelError::Gpu(
                two_numbers("prior_output length ", prior_len, " != output_count*components ", plan.dst_len),
            ),
        );
    }
    Ok(plan)
}

// ---------------------------------------------------------------------------
// Dispatch
// ---------------------------------------------------------------------------
/// The parameters of the compute kernel.
#[derive(Debug, Clone, Copy)]
pub struct ShaderParams {
    pub src_offset: u32,
    pub dst_offset: u32,
    pub src_stride: u32,
    pub dst_stride: u32,
    pub length: u32,
    pub batch_start: u32,
    pub batch_end: u32,
}

/// A run of the compute kernel.
#[derive(Debug, Clone, Copy)]
pub struct Dispatch {
    pub params: ShaderParams,
    /// Number of workgroups; none are started for an empty batch.
    pub groups: u32,
}

/// Number of outputs in a batch.
pub open spec fn batch_len(start: u32, end: u32) -> int {
    if start < end {
        end - start
    } else {
        0
    }
}

/// So many groups of `size` hold `count` invocations, and one fewer would not.
pub open spec fn covers(groups: u32, size: u32, count: int) -> bool {
    &&& groups * size >= count
    &&& groups > 0 ==> (groups - 1) * size < count
}

/// What evaluates the outputs from `batch_start` up to `batch_end`.
pub fn plan_dispatch(
    src_desc: BufferDescriptor,
    dst_desc: BufferDescriptor,
    batch_start: u32,
    batch_end: u32,
    workgroup_size: u32,
) -> (r: Result<Dispatch, KernelError>)
    requires
        workgroup_size > 0,
    ensures
        match r {
            Ok(dispatch) => dst_desc.length <= MAX_COMPONENTS && dispatch.params == (ShaderParams {
                src_offset: src_desc.offset,
                dst_offset: dst_desc.offset,
                src_stride: src_desc.stride,
                dst_stride: dst_desc.stride,
                length: dst_desc.length,
                batch_start,
                batch_end,
            }) && covers(dispatch.groups, workgroup_size, batch_len(batch_start, batch_end)),
            Err(error) => dst_desc.length > MAX_COMPONENTS && error is Gpu && error->Gpu_0@ == length_text(
                dst_desc.length,
            ),
        },
{
    if dst_desc.length > MAX_COMPONENTS {
        return Err(
            KernelError::Gpu(
                two_numbers(
                    "primvar length ",
                    dst_desc.length as u64,
                    " exceeds kernel capacity ",
                    MAX_COMPONENTS as u64,
                ),
            ),
        );
    }
    let params = ShaderParams {
        src_offset: src_desc.offset,
        dst_offset: dst_desc.offset,
        src_stride: src_desc.stride,
        dst_stride: dst_desc.stride,
        length: dst_desc.length,
        batch_start,
        batch_end,
    };
    let invocations: u32 = if batch_start < batch_end {
        batch_end - batch_start
    } else {
        0
    };
    let whole: u32 = invocations / workgroup_size;
    let rest: u32 = invocations % workgroup_size;
    proof {
        vstd::arithmetic::div_mod::lemma_fundamental_div_mod(invocations as int, workgroup_size as int);
        vstd::arithmetic::mul::lemma_mul_is_commutative(workgroup_size as int, whole as int);
        assert(invocations == whole * workgroup_size + rest);
        assert((whole + 1) * workgroup_size == whole * workgroup_size + workgroup_size) by (nonlinear_arith);
        assert((whole - 1) * workgroup_size == whole * workgroup_size - workgroup_size) by (nonlinear_arith);
        assert(rest > 0 ==> whole < u32::MAX) by (nonlinear_arith)
            requires
                invocations == whole * workgroup_size + rest,
                invocations <= u32::MAX,
                workgroup_size >= 1,
                whole >= 0,
        ;
    }
    let groups: u32 = if rest > 0 {
        whole + 1
    } else {
        whole
    };
    Ok(Dispatch { params, groups })
}

/// What evaluates `count` outputs out of a list of them.
pub fn plan_indexed_dispatch(
    src_desc: BufferDescriptor,
    dst_desc: BufferDescriptor,
    count: u32,
    workgroup_size: u32,
) -> (r: Result<Dispatch, KernelError>)
    requires
        workgroup_size > 0,
    ensures
        match r {
            Ok(dispatch) => dst_desc.length <= MAX_COMPONENTS && dispatch.params == (ShaderParams {
                src_offset: src_desc.offset,
                dst_offset: dst_desc.offset,
                src_stride: src_desc.stride,
                dst_stride: dst_desc.stride,
                length: dst_desc.length,
                batch_start: 0,
                batch_end: count,
            }) && covers(dispatch.groups, workgroup_size, count as int),
            Err(error) => dst_desc.length > MAX_COMPONENTS && error is Gpu && error->Gpu_0@ == length_text(
                dst_desc.length,
            ),
        },
{
    plan_dispatch(src_desc, dst_desc, 0, count, workgroup_size)
}

} // verus!
