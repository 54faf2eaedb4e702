use pathtracer::{
    load_byte_usizes, load_indices, triangle_indices, vertex_span, Accessor, AccessorType, BufferView, SceneError,
};

fn accessor(view: usize, count: usize, offset: usize, component_type: u64, t: AccessorType) -> Accessor {
    Accessor { buffer_view: view, count, byte_offset: offset, component_type, accessor_type: t }
}

#[test]
fn reads_u16_indices() {
    let bytes = [0x01u8, 0x00, 0x34, 0x12, 0xff, 0xff];
    assert_eq!(load_byte_usizes(&bytes, 0, 3, true), vec![1, 0x1234, 0xffff]);
    assert_eq!(load_byte_usizes(&bytes, 2, 2, true), vec![0x1234, 0xffff]);
}

#[test]
fn reads_u32_indices() {
    let bytes = [9u8, 0x78, 0x56, 0x34, 0x12, 0xff, 0xff, 0xff, 0xff];
    assert_eq!(load_byte_usizes(&bytes, 1, 2, false), vec![0x1234_5678, 0xffff_ffff]);
    assert_eq!(load_byte_usizes(&bytes, 0, 0, false), Vec::<usize>::new());
}

#[test]
fn loads_indices_through_views() {
    let buffers = vec![vec![0u8; 4], vec![0xaa, 0xbb, 2, 0, 1, 0, 0, 0]];
    let views = vec![BufferView { idx: 0, offset: 0, length: 4 }, BufferView { idx: 1, offset: 2, length: 6 }];
    let a16 = accessor(1, 3, 0, 5123, AccessorType::Scalar);
    assert_eq!(load_indices(&a16, &views, &buffers), Ok(vec![2, 1, 0]));
    let a32 = accessor(1, 1, 2, 5125, AccessorType::Scalar);
    assert_eq!(load_indices(&a32, &views, &buffers), Ok(vec![1]));
}

#[test]
fn index_errors() {
    let buffers = vec![vec![0u8; 8]];
    let views = vec![BufferView { idx: 0, offset: 0, length: 8 }, BufferView { idx: 3, offset: 0, length: 8 }];
    assert_eq!(
        load_indices(&accessor(0, 1, 0, 5123, AccessorType::Vec3), &views, &buffers),
        Err(SceneError::UnexpectedAccessorType)
    );
    assert_eq!(
        load_indices(&accessor(0, 1, 0, 5126, AccessorType::Scalar), &views, &buffers),
        Err(SceneError::UnsupportedComponentType)
    );
    assert_eq!(
        load_indices(&accessor(5, 1, 0, 5123, AccessorType::Scalar), &views, &buffers),
        Err(SceneError::MissingBufferView)
    );
    assert_eq!(
        load_indices(&accessor(1, 1, 0, 5123, AccessorType::Scalar), &views, &buffers),
        Err(SceneError::MissingBuffer)
    );
    assert_eq!(
        load_indices(&accessor(0, 3, 0, 5125, AccessorType::Scalar), &views, &buffers),
        Err(SceneError::DataOutOfBounds)
    );
    assert_eq!(load_indices(&accessor(0, 4, 0, 5123, AccessorType::Scalar), &views, &buffers), Ok(vec![0; 4]));
    assert_eq!(
        load_indices(&accessor(0, 0, usize::MAX, 5123, AccessorType::Scalar), &views, &buffers),
        Err(SceneError::DataOutOfBounds)
    );
}

#[test]
fn vertex_spans() {
    let buffers = vec![vec![0u8; 40]];
    let views = vec![BufferView { idx: 0, offset: 4, length: 36 }];
    assert_eq!(vertex_span(&accessor(0, 3, 0, 5126, AccessorType::Vec3), &views, &buffers), Ok((0, 4)));
    assert_eq!(
        vertex_span(&accessor(0, 3, 1, 5126, AccessorType::Vec3), &views, &buffers),
        Err(SceneError::DataOutOfBounds)
    );
    assert_eq!(
        vertex_span(&accessor(0, 1, 0, 5125, AccessorType::Vec3), &views, &buffers),
        Err(SceneError::UnsupportedComponentType)
    );
    assert_eq!(
        vertex_span(&accessor(0, 1, 0, 5126, AccessorType::Scalar), &views, &buffers),
        Err(SceneError::UnexpectedAccessorType)
    );
}

#[test]
fn groups_triangles() {
    assert_eq!(triangle_indices(&vec![0, 1, 2, 2, 1, 3], 4), Ok(vec![(0, 1, 2), (2, 1, 3)]));
    assert_eq!(triangle_indices(&vec![], 0), Ok(vec![]));
    assert_eq!(triangle_indices(&vec![0, 1], 4), Err(SceneError::IndexCountNotMultipleOfThree));
    assert_eq!(triangle_indices(&vec![0, 1, 4], 4), Err(SceneError::VertexIndexOutOfRange));
}

#[test]
fn roots_are_nodes_without_parents() {
    let children = vec![vec![1, 2], vec![], vec![3], vec![], vec![]];
    assert_eq!(pathtracer::scene_roots(&children), Ok(vec![0, 4]));
    assert_eq!(pathtracer::scene_roots(&vec![]), Ok(vec![]));
    assert_eq!(pathtracer::scene_roots(&vec![vec![], vec![]]), Ok(vec![0, 1]));
}

#[test]
fn dangling_child_is_an_error() {
    let children = vec![vec![1], vec![2]];
    assert_eq!(pathtracer::scene_roots(&children), Err(SceneError::NodeIndexOutOfRange));
}
