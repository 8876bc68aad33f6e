//! What a graphics device is told.

use subdiv_kernels::gpu::{
    plan_dispatch, plan_evaluation, plan_indexed_dispatch, plan_sparse_evaluation, storage_contents, BufferDescriptor,
    DEFAULT_WORKGROUP_SIZE, MAX_COMPONENTS,
};
use subdiv_kernels::KernelError;

#[test]
fn packed_values_lie_one_after_the_other() {
    let desc = BufferDescriptor::packed(3);
    assert_eq!((desc.offset, desc.stride, desc.length), (0, 3, 3));
}

#[test]
fn evaluations_are_sized_by_outputs_and_components() {
    let plan = plan_evaluation(10, 3).unwrap();
    assert_eq!((plan.dst_len, plan.dst_size), (30, 120));
    assert_eq!(plan.desc.stride, 3);
    let empty = plan_evaluation(0, 3).unwrap();
    assert_eq!((empty.dst_len, empty.dst_size), (0, 4));
    let large = plan_evaluation(u32::MAX, MAX_COMPONENTS).unwrap();
    assert_eq!(large.dst_size, u32::MAX as u64 * 32 * 4);
}

#[test]
fn component_counts_out_of_range_are_refused() {
    assert_eq!(
        plan_evaluation(10, 0).err(),
        Some(KernelError::Gpu("components 0 out of range 1..=32".to_string())),
    );
    assert_eq!(
        plan_sparse_evaluation(10, 33, 330).err(),
        Some(KernelError::Gpu("components 33 out of range 1..=32".to_string())),
    );
    assert!(plan_evaluation(10, 32).is_ok());
}

#[test]
fn prior_outputs_must_have_the_right_length() {
    assert!(plan_sparse_evaluation(10, 3, 30).is_ok());
    assert_eq!(
        plan_sparse_evaluation(10, 3, 1207).err(),
        Some(KernelError::Gpu("prior_output length 1207 != output_count*components 30".to_string())),
    );
}

#[test]
fn batches_are_cut_into_workgroups() {
    let desc = BufferDescriptor::packed(3);
    let groups = |start, end| plan_dispatch(desc, desc, start, end, DEFAULT_WORKGROUP_SIZE).unwrap().groups;
    assert_eq!(groups(0, 0), 0);
    assert_eq!(groups(0, 1), 1);
    assert_eq!(groups(0, 64), 1);
    assert_eq!(groups(0, 65), 2);
    assert_eq!(groups(10, 74), 1);
    assert_eq!(groups(5, 3), 0);
    assert_eq!(groups(0, u32::MAX), 67108864);
    assert_eq!(plan_dispatch(desc, desc, 0, u32::MAX, 1).unwrap().groups, u32::MAX);
    let run = plan_dispatch(BufferDescriptor { offset: 7, stride: 5, length: 2 }, desc, 4, 9, 2).unwrap();
    assert_eq!((run.params.src_offset, run.params.src_stride), (7, 5));
    assert_eq!((run.params.dst_offset, run.params.dst_stride, run.params.length), (0, 3, 3));
    assert_eq!((run.params.batch_start, run.params.batch_end, run.groups), (4, 9, 3));
    let listed = plan_indexed_dispatch(desc, desc, 65, DEFAULT_WORKGROUP_SIZE).unwrap();
    assert_eq!((listed.params.batch_start, listed.params.batch_end, listed.groups), (0, 65, 2));
}

#[test]
fn values_that_are_too_long_are_refused() {
    let desc = BufferDescriptor::packed(40);
    assert_eq!(
        plan_dispatch(desc, desc, 0, 1, 64).err(),
        Some(KernelError::Gpu("primvar length 40 exceeds kernel capacity 32".to_string())),
    );
    assert!(plan_indexed_dispatch(desc, desc, 1, 64).is_err());
}

#[test]
fn empty_buffers_are_filled() {
    assert_eq!(storage_contents(Vec::new()), vec![0, 0, 0, 0]);
    assert_eq!(storage_contents(vec![1, 2, 3]), vec![1, 2, 3]);
}
