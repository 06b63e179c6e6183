use marigold::vulkan::{surface_error_recovery, wide_child_is_leaf, SurfaceErrorKind, SurfaceRecovery};
use marigold::geometry::{
    append_offset_triangles, flatten_instance_triangles, pack_instance_meshes, serialize_mesh,
    triangles_from_indices, GeometryId, MeshSlots, MeshTriangle, MeshTriangles,
};
use marigold::geometry_u16::GeometryId as ShortGeometryId;
use marigold::gpu_vec::{
    buffer_capacity, padded_buffer_size, BufferAllocation, BufferSync, GpuVecSizing, COPY_BUFFER_ALIGNMENT,
    MIN_GPU_VEC_CAPACITY,
};
use marigold::post::{PostTexture, PostTextures};
use marigold::scene::{initial_active_marks, CurrentUploadedScene, ModelInfo};
use marigold::util::{get_workgroup_count_from_size, UVec3};
use marigold::vulkan::{
    minimum_plus_one_image_count, next_frame_in_flight, object_type_to_str, swapchain_image_count,
};

fn tri(a: u32, b: u32, c: u32) -> MeshTriangle {
    MeshTriangle { indices: [a, b, c] }
}

#[test]
fn geometry_codes() {
    assert_eq!(GeometryId::Sphere.encode(), u32::MAX);
    assert_eq!(GeometryId::Aabb.encode(), u32::MAX - 1);
    assert_eq!(GeometryId::Quad.encode(), u32::MAX - 2);
    assert_eq!(GeometryId::Mesh(17).encode(), 17);
    assert_eq!(GeometryId::default(), GeometryId::Mesh(0));
    assert_eq!(ShortGeometryId::Sphere.encode(), u16::MAX);
    assert_eq!(ShortGeometryId::Quad.encode(), u16::MAX - 2);
    assert_eq!(ShortGeometryId::Mesh(0x1_0005).encode(), 5);
    assert_eq!(MeshTriangle::default().indices, [0, 0, 0]);
}

#[test]
fn indices_group_into_triangles() {
    let triangles = triangles_from_indices(&[0, 1, 2, 2, 1, 3, 9]);
    assert_eq!(triangles.len(), 2);
    assert_eq!(triangles[0].indices, [0, 1, 2]);
    assert_eq!(triangles[1].indices, [2, 1, 3]);
    assert!(triangles_from_indices(&[4, 5]).is_empty());
}

#[test]
fn instances_get_dense_mesh_indices() {
    let keys = [(3, 0), (0, 1), (0, 0)];
    let packed = pack_instance_meshes(&keys, &[(0, 0), (3, 0), (0, 0), (0, 1)]);
    assert_eq!(packed, vec![2, 0, 2, 1]);
    assert!(pack_instance_meshes(&keys, &[]).is_empty());
}

#[test]
fn offset_triangles_are_appended() {
    let mut out = vec![tri(0, 1, 2)];
    append_offset_triangles(&mut out, &[tri(0, 1, 2), tri(2, 1, 0)], 10);
    assert_eq!(out.len(), 3);
    assert_eq!(out[0].indices, [0, 1, 2]);
    assert_eq!(out[1].indices, [10, 11, 12]);
    assert_eq!(out[2].indices, [12, 11, 10]);
}

#[test]
fn serialized_meshes_record_where_they_start() {
    let mut vertices: Vec<u8> = vec![1, 2];
    let mut triangles = MeshTriangles(vec![tri(0, 0, 0)]);
    let mut nodes: Vec<u16> = Vec::new();
    let slots = serialize_mesh(&mut vertices, &mut triangles.0, &mut nodes, &[3, 4, 5], &[tri(0, 1, 2), tri(1, 2, 0)], &[7]);
    assert_eq!(slots, MeshSlots { vertex_offset: 2, triangle_offset: 1, triangle_count: 2, blas_root: 0 });
    assert_eq!(vertices, vec![1, 2, 3, 4, 5]);
    assert_eq!(triangles.0.len(), 3);
    assert_eq!(triangles.0[2].indices, [1, 2, 0]);
    assert_eq!(nodes, vec![7]);
    let slots = serialize_mesh(&mut vertices, &mut triangles.0, &mut nodes, &[6], &[], &[8, 9]);
    assert_eq!(slots, MeshSlots { vertex_offset: 5, triangle_offset: 3, triangle_count: 0, blas_root: 1 });
}

#[test]
fn instances_flatten_into_one_mesh() {
    let meshes = vec![vec![tri(0, 1, 2)], vec![tri(0, 1, 2), tri(1, 2, 3)]];
    let vertex_counts = [3usize, 4];
    let out = flatten_instance_triangles(&[1, 0, 1], &meshes, &vertex_counts);
    let got: Vec<[u32; 3]> = out.iter().map(|t| t.indices).collect();
    assert_eq!(got, vec![[0, 1, 2], [1, 2, 3], [4, 5, 6], [7, 8, 9], [8, 9, 10]]);
}

#[test]
fn buffers_round_up_to_the_alignment() {
    assert_eq!(MIN_GPU_VEC_CAPACITY, 1);
    assert_eq!(COPY_BUFFER_ALIGNMENT, 4);
    assert_eq!(buffer_capacity(0), 1);
    assert_eq!(buffer_capacity(9), 9);
    assert_eq!(padded_buffer_size(0), 0);
    assert_eq!(padded_buffer_size(5), 8);
    assert_eq!(padded_buffer_size(8), 8);
    assert_eq!(padded_buffer_size(u64::MAX - 3), u64::MAX - 3);
}

#[test]
fn gpu_vector_sizing_follows_the_vector() {
    let (mut sizing, first) = GpuVecSizing::new(6, 3, 2);
    assert_eq!(first, BufferAllocation { capacity: 3, size: 20, padding: 2, write_len: 12 });
    assert_eq!(sizing.buffer_size(), 20);
    assert_eq!(sizing.binding_size(), 18);
    assert!(!sizing.should_reallocate(3));
    assert_eq!(sizing.update_write_size(3, 3), Some(18));
    assert_eq!(sizing.update_write_size(0, 0), None);
    assert!(sizing.should_reallocate(4));
    let grown = sizing.reallocate(4, 4);
    assert_eq!(grown, BufferAllocation { capacity: 4, size: 24, padding: 0, write_len: 24 });
    assert_eq!(sizing.uploaded_capacity, 4);
    assert_eq!(sizing.binding_size(), 24);
}

#[test]
fn empty_vector_gets_the_minimum_buffer() {
    let (sizing, first) = GpuVecSizing::new(3, 0, 0);
    assert_eq!(first, BufferAllocation { capacity: 1, size: 4, padding: 1, write_len: 0 });
    assert_eq!(sizing.padding, 1);
    assert_eq!(sizing.binding_size(), 3);
}

#[test]
fn sync_picks_the_step_for_the_frame() {
    let (mut sizing, _) = GpuVecSizing::new(4, 2, 1);
    assert_eq!(sizing.sync(false, 10, 10), BufferSync::Unchanged);
    assert_eq!(sizing.uploaded_capacity, 2);
    assert_eq!(sizing.sync(true, 2, 2), BufferSync::Write(Some(8)));
    assert_eq!(sizing.sync(true, 2, 0), BufferSync::Write(None));
    assert_eq!(
        sizing.sync(true, 5, 3),
        BufferSync::Reallocate(BufferAllocation { capacity: 5, size: 20, padding: 0, write_len: 12 })
    );
    assert_eq!(sizing.uploaded_capacity, 5);
}

#[test]
fn workgroups_cover_the_dimensions() {
    let r = get_workgroup_count_from_size(UVec3 { x: 8, y: 8, z: 1 }, UVec3 { x: 1920, y: 1081, z: 1 });
    assert_eq!(r, UVec3 { x: 240, y: 136, z: 1 });
    let r = get_workgroup_count_from_size(UVec3 { x: 16, y: 1, z: 4 }, UVec3 { x: 0, y: 7, z: 5 });
    assert_eq!(r, UVec3 { x: 0, y: 7, z: 2 });
}

#[test]
fn vulkan_decisions() {
    assert_eq!(object_type_to_str(0), "UNKNOWN");
    assert_eq!(object_type_to_str(9), "BUFFER");
    assert_eq!(object_type_to_str(25), "COMMAND_POOL");
    assert_eq!(object_type_to_str(26), "<unknown>");
    assert_eq!(object_type_to_str(-1), "<unknown>");
    assert_eq!(swapchain_image_count(2, Some(8)), 4);
    assert_eq!(swapchain_image_count(5, None), 5);
    assert_eq!(swapchain_image_count(1, Some(3)), 3);
    assert_eq!(minimum_plus_one_image_count(2, Some(8)), 3);
    assert_eq!(minimum_plus_one_image_count(3, Some(3)), 3);
    assert_eq!(minimum_plus_one_image_count(3, None), 4);
    assert_eq!(next_frame_in_flight(0), 1);
    assert_eq!(next_frame_in_flight(2), 0);
}

#[test]
fn post_textures_alternate() {
    let mut textures = PostTextures::new();
    assert_eq!(textures.current_input(), PostTexture::Main);
    assert_eq!(textures.current_output(), PostTexture::Alt);
    let first = textures.write();
    assert_eq!((first.input, first.output, first.state()), (PostTexture::Main, PostTexture::Alt, "main_to_alt"));
    assert_eq!(textures.current_input(), PostTexture::Alt);
    let second = textures.write();
    assert_eq!((second.input, second.output, second.state()), (PostTexture::Alt, PostTexture::Main, "alt_to_main"));
    assert!(!textures.swapped);
}

#[test]
fn reupload_follows_the_active_scene() {
    let current = CurrentUploadedScene::uploaded(7, 1);
    assert!(current.needs_reupload(true, 7, 1));
    assert!(!current.needs_reupload(false, 7, 1));
    assert!(current.needs_reupload(false, 8, 1));
    assert!(current.needs_reupload(false, 7, 0));
    assert_eq!(initial_active_marks(3), vec![true, false, false]);
    assert!(initial_active_marks(0).is_empty());
    let info = ModelInfo { name: "sponza".to_string(), path: "assets/models/sponza".to_string(), active_scene: 0 };
    assert_eq!(info.active_scene, 0);
}

#[test]
fn surface_errors_and_wide_leaves() {
    assert_eq!(surface_error_recovery(SurfaceErrorKind::Lost), SurfaceRecovery::Reconfigure);
    assert_eq!(surface_error_recovery(SurfaceErrorKind::Outdated), SurfaceRecovery::Reconfigure);
    assert_eq!(surface_error_recovery(SurfaceErrorKind::Other), SurfaceRecovery::Reconfigure);
    assert_eq!(surface_error_recovery(SurfaceErrorKind::Timeout), SurfaceRecovery::SkipFrame);
    assert_eq!(surface_error_recovery(SurfaceErrorKind::OutOfMemory), SurfaceRecovery::Exit);
    let meta = [0u8, 23, 24, 0b1110_0101, 0b0001_1000, 31, 0xff, 0xe0];
    let leaves: Vec<bool> = (0..8).map(|i| wide_child_is_leaf(&meta, i)).collect();
    assert_eq!(leaves, vec![true, true, false, true, false, false, false, true]);
}
