use vstd::prelude::*;

verus! {

/// glTF component type of unsigned 16-bit integers.
pub const COMPONENT_U16: u64 = 5123;

/// glTF component type of unsigned 32-bit integers.
pub const COMPONENT_U32: u64 = 5125;

/// glTF component type of 32-bit floats.
pub const COMPONENT_F32: u64 = 5126;

/// The element shape of an accessor, from its `type` field.
#[derive(Clone, Copy, Debug, PartialEq, Eq, Structural)]
pub enum AccessorType {
    Scalar,
    Vec3,
    Other,
}

/// A glTF accessor: `count` elements read from a buffer view, starting
/// `byte_offset` bytes into it.
#[derive(Clone, Copy, Debug)]
pub struct Accessor {
    pub buffer_view: usize,
    pub count: usize,
    pub byte_offset: usize,
    pub component_type: u64,
    pub accessor_type: AccessorType,
}

/// A glTF buffer view: a window starting `offset` bytes into buffer `idx`.
#[derive(Clone, Copy, Debug)]
pub struct BufferView {
    pub idx: usize,
    pub offset: usize,
    pub length: usize,
}

/// Why mesh data could not be read.
#[derive(Clone, Copy, Debug, PartialEq, Eq, Structural)]
pub enum SceneError {
    UnexpectedAccessorType,
    UnsupportedComponentType,
    MissingBufferView,
    MissingBuffer,
    DataOutOfBounds,
    IndexCountNotMultipleOfThree,
    VertexIndexOutOfRange,
    NodeIndexOutOfRange,
}

/// The little-endian 16-bit integer at `j`.
pub open spec fn le_u16(b: Seq<u8>, j: int) -> int {
    b[j] + 256 * b[j + 1]
}

/// The little-endian 32-bit integer at `j`.
pub open spec fn le_u32(b: Seq<u8>, j: int) -> int {
    b[j] + 256 * b[j + 1] + 65536 * b[j + 2] + 16777216 * b[j + 3]
}

/// Bytes taken by one index.
pub open spec fn index_width(is_16: bool) -> int {
    if is_16 { 2 } else { 4 }
}

/// The `i`-th index of a run starting at `start`.
pub open spec fn decode_index(b: Seq<u8>, start: int, i: int, is_16: bool) -> int {
    if is_16 { le_u16(b, start + 2 * i) } else { le_u32(b, start + 4 * i) }
}

/// Reads `count` little-endian indices of 16 or 32 bits from `start`.
pub fn load_byte_usizes(bytes: &[u8], start: usize, count: usize, is_16: bool) -> (r: Vec<usize>)
    requires
        start + count * index_width(is_16) <= bytes@.len(),
    ensures
        r@.len() == count,
        forall|i: int| 0 <= i < count ==> #[trigger] r@[i] == decode_index(bytes@, start as int, i, is_16),
{
    let n = bytes.len();
    let mut r: Vec<usize> = Vec::new();
    let mut i: usize = 0;
    while i < count
        invariant
            n == bytes@.len(),
            is_16 ==> start + 2 * count <= n,
            !is_16 ==> start + 4 * count <= n,
            i <= count,
            r@.len() == i,
            forall|k: int| 0 <= k < i ==> #[trigger] r@[k] == decode_index(bytes@, start as int, k, is_16),
        decreases count - i,
    {
        let v: usize = if is_16 {
            let j = start + i * 2;
            (bytes[j] as usize) + 256 * (bytes[j + 1] as usize)
        } else {
            let j = start + i * 4;
            let b0 = bytes[j] as usize;
            let b1 = bytes[j + 1] as usize;
            let b2 = bytes[j + 2] as usize;
            let b3 = bytes[j + 3] as usize;
            assert(b0 + 256 * b1 + 65536 * b2 + 16777216 * b3 <= 0xffff_ffff);
            b0 + 256 * b1 + 65536 * b2 + 16777216 * b3
        };
        r.push(v);
        i = i + 1;
    }
    r
}

/// Where the data of an accessor starts in its buffer, or the first thing
/// that stops it being found: a missing buffer view or buffer, or a start
/// past what a `usize` holds.
pub open spec fn accessor_start(accessor: Accessor, views: Seq<BufferView>, n_buffers: int) -> Result<(int, int), SceneError> {
    if accessor.buffer_view >= views.len() {
        Err(SceneError::MissingBufferView)
    } else if views[accessor.buffer_view as int].idx >= n_buffers {
        Err(SceneError::MissingBuffer)
    } else if accessor.byte_offset + views[accessor.buffer_view as int].offset > usize::MAX {
        Err(SceneError::DataOutOfBounds)
    } else {
        Ok((views[accessor.buffer_view as int].idx as int, accessor.byte_offset + views[accessor.buffer_view as int].offset))
    }
}

fn find_start(accessor: &Accessor, views: &Vec<BufferView>, n_buffers: usize) -> (r: Result<(usize, usize), SceneError>)
    ensures
        r is Ok <==> accessor_start(*accessor, views@, n_buffers as int) is Ok,
        r is Ok ==> accessor_start(*accessor, views@, n_buffers as int) == Ok::<(int, int), SceneError>(
            (r->Ok_0.0 as int, r->Ok_0.1 as int),
        ),
        r is Err ==> accessor_start(*accessor, views@, n_buffers as int) == Err::<(int, int), SceneError>(r->Err_0),
{
    if accessor.buffer_view >= views.len() {
        return Err(SceneError::MissingBufferView);
    }
    let view = views[accessor.buffer_view];
    if view.idx >= n_buffers {
        return Err(SceneError::MissingBuffer);
    }
    if accessor.byte_offset > usize::MAX - view.offset {
        return Err(SceneError::DataOutOfBounds);
    }
    Ok((view.idx, accessor.byte_offset + view.offset))
}

/// What reading the indices of an accessor gives: the checks run in the
/// order type, component type, buffer view, buffer, then bounds.
pub open spec fn indices_result(accessor: Accessor, views: Seq<BufferView>, buffers: Seq<Seq<u8>>) -> Result<Seq<int>, SceneError> {
    if accessor.accessor_type != AccessorType::Scalar {
        Err(SceneError::UnexpectedAccessorType)
    } else if accessor.component_type != COMPONENT_U16 && accessor.component_type != COMPONENT_U32 {
        Err(SceneError::UnsupportedComponentType)
    } else {
        let is_16 = accessor.component_type == COMPONENT_U16;
        match accessor_start(accessor, views, buffers.len() as int) {
            Err(e) => Err(e),
            Ok((b, start)) => if start + accessor.count * index_width(is_16) > buffers[b].len() {
                Err(SceneError::DataOutOfBounds)
            } else {
                Ok(Seq::new(accessor.count as nat, |i: int| decode_index(buffers[b], start, i, is_16)))
            },
        }
    }
}

/// Reads the vertex indices an accessor points at.
pub fn load_indices(accessor: &Accessor, buffer_views: &Vec<BufferView>, buffers: &Vec<Vec<u8>>) -> (r: Result<Vec<usize>, SceneError>)
    ensures
        r is Ok <==> indices_result(*accessor, buffer_views@, buffers@.map_values(|b: Vec<u8>| b@)) is Ok,
        r is Ok ==> indices_result(*accessor, buffer_views@, buffers@.map_values(|b: Vec<u8>| b@))
            == Ok::<Seq<int>, SceneError>(r->Ok_0@.map_values(|v: usize| v as int)),
        r is Err ==> indices_result(*accessor, buffer_views@, buffers@.map_values(|b: Vec<u8>| b@))
            == Err::<Seq<int>, SceneError>(r->Err_0),
{
    let ghost bufs = buffers@.map_values(|b: Vec<u8>| b@);
    if accessor.accessor_type != AccessorType::Scalar {
        return Err(SceneError::UnexpectedAccessorType);
    }
    let is_16 = if accessor.component_type == COMPONENT_U16 {
        true
    } else if accessor.component_type == COMPONENT_U32 {
        false
    } else {
        return Err(SceneError::UnsupportedComponentType);
    };
    let (b, start) = match find_start(accessor, buffer_views, buffers.len()) {
        Ok(p) => p,
        Err(e) => {
            return Err(e);
        },
    };
    let bytes = &buffers[b];
    assert(bufs[b as int] == bytes@);
    let width: usize = if is_16 { 2 } else { 4 };
    if accessor.count > (bytes.len() - start.min(bytes.len())) / width || start > bytes.len() {
        return Err(SceneError::DataOutOfBounds);
    }
    let v = load_byte_usizes(bytes.as_slice(), start, accessor.count, is_16);
    assert(v@.map_values(|v: usize| v as int) =~= Seq::new(
        accessor.count as nat,
        |i: int| decode_index(bufs[b as int], start as int, i, is_16),
    ));
    Ok(v)
}

/// Where the vertex positions of an accessor lie, or the first thing wrong
/// with it: the checks run in the order component type, type, buffer view,
/// buffer, then bounds (twelve bytes per vertex).
pub open spec fn vertex_span_result(accessor: Accessor, views: Seq<BufferView>, buffers: Seq<Seq<u8>>) -> Result<(int, int), SceneError> {
    if accessor.component_type != COMPONENT_F32 {
        Err(SceneError::UnsupportedComponentType)
    } else if accessor.accessor_type != AccessorType::Vec3 {
        Err(SceneError::UnexpectedAccessorType)
    } else {
        match accessor_start(accessor, views, buffers.len() as int) {
            Err(e) => Err(e),
            Ok((b, start)) => if start + accessor.count * 12 > buffers[b].len() {
                Err(SceneError::DataOutOfBounds)
            } else {
                Ok((b, start))
            },
        }
    }
}

/// Finds the buffer and the byte where the vertex positions of an accessor
/// start, having checked that they are three 32-bit floats each and lie
/// inside the buffer.
pub fn vertex_span(accessor: &Accessor, buffer_views: &Vec<BufferView>, buffers: &Vec<Vec<u8>>) -> (r: Result<(usize, usize), SceneError>)
    ensures
        r is Ok <==> vertex_span_result(*accessor, buffer_views@, buffers@.map_values(|b: Vec<u8>| b@)) is Ok,
        r is Ok ==> vertex_span_result(*accessor, buffer_views@, buffers@.map_values(|b: Vec<u8>| b@))
            == Ok::<(int, int), SceneError>((r->Ok_0.0 as int, r->Ok_0.1 as int)),
        r is Err ==> vertex_span_result(*accessor, buffer_views@, buffers@.map_values(|b: Vec<u8>| b@))
            == Err::<(int, int), SceneError>(r->Err_0),
{
    let ghost bufs = buffers@.map_values(|b: Vec<u8>| b@);
    if accessor.component_type != COMPONENT_F32 {
        return Err(SceneError::UnsupportedComponentType);
    }
    if accessor.accessor_type != AccessorType::Vec3 {
        return Err(SceneError::UnexpectedAccessorType);
    }
    let (b, start) = match find_start(accessor, buffer_views, buffers.len()) {
        Ok(p) => p,
        Err(e) => {
            return Err(e);
        },
    };
    let len = buffers[b].len();
    assert(bufs[b as int].len() == len);
    if start > len || accessor.count > (len - start) / 12 {
        return Err(SceneError::DataOutOfBounds);
    }
    Ok((b, start))
}

/// Groups mesh indices into triangles: the number of indices must be a
/// multiple of three and every index must name one of the `n_vertices`
/// vertices.
pub fn triangle_indices(indices: &Vec<usize>, n_vertices: usize) -> (r: Result<Vec<(usize, usize, usize)>, SceneError>)
    ensures
        indices@.len() % 3 != 0 ==> r == Err::<Vec<(usize, usize, usize)>, SceneError>(SceneError::IndexCountNotMultipleOfThree),
        indices@.len() % 3 == 0 && (exists|i: int| 0 <= i < indices@.len() && #[trigger] indices@[i] >= n_vertices)
            ==> r == Err::<Vec<(usize, usize, usize)>, SceneError>(SceneError::VertexIndexOutOfRange),
        r is Ok ==> {
            &&& r->Ok_0@.len() * 3 == indices@.len()
            &&& forall|t: int| 0 <= t < r->Ok_0@.len() ==> #[trigger] r->Ok_0@[t] == (
                indices@[3 * t],
                indices@[3 * t + 1],
                indices@[3 * t + 2],
            )
            &&& forall|i: int| 0 <= i < indices@.len() ==> #[trigger] indices@[i] < n_vertices
        },
        indices@.len() % 3 == 0 && (forall|i: int| 0 <= i < indices@.len() ==> #[trigger] indices@[i] < n_vertices)
            ==> r is Ok,
{
    if indices.len() % 3 != 0 {
        return Err(SceneError::IndexCountNotMultipleOfThree);
    }
    let mut k: usize = 0;
    while k < indices.len()
        invariant
            k <= indices@.len(),
            indices@.len() % 3 == 0,
            forall|i: int| 0 <= i < k ==> #[trigger] indices@[i] < n_vertices,
        decreases indices@.len() - k,
    {
        if indices[k] >= n_vertices {
            return Err(SceneError::VertexIndexOutOfRange);
        }
        k = k + 1;
    }
    let len = indices.len();
    let n = len / 3;
    let mut r: Vec<(usize, usize, usize)> = Vec::new();
    let mut t: usize = 0;
    while t < n
        invariant
            n * 3 == indices@.len(),
            len == indices@.len(),
            t <= n,
            r@.len() == t,
            forall|s: int| 0 <= s < t ==> #[trigger] r@[s] == (indices@[3 * s], indices@[3 * s + 1], indices@[3 * s + 2]),
        decreases n - t,
    {
        r.push((indices[3 * t], indices[3 * t + 1], indices[3 * t + 2]));
        t = t + 1;
    }
    Ok(r)
}

/// Node `i` is listed as the child of some node.
pub open spec fn has_parent(children: Seq<Seq<usize>>, i: int) -> bool {
    exists|j: int, c: int| 0 <= j < children.len() && 0 <= c < children[j].len() && #[trigger] children[j][c] == i
}

/// Some child index names no node.
pub open spec fn has_dangling_child(children: Seq<Seq<usize>>) -> bool {
    exists|j: int, c: int| 0 <= j < children.len() && 0 <= c < children[j].len() && #[trigger] children[j][c] >= children.len()
}

/// The roots of a node hierarchy given by each node's child list: the nodes
/// no node lists as a child, in increasing order. Fails when a child index
/// names no node.
pub fn scene_roots(children: &Vec<Vec<usize>>) -> (r: Result<Vec<usize>, SceneError>)
    ensures
        r is Err <==> has_dangling_child(children@.map_values(|v: Vec<usize>| v@)),
        r is Err ==> r->Err_0 == SceneError::NodeIndexOutOfRange,
        r is Ok ==> {
            let roots = r->Ok_0@;
            let ch = children@.map_values(|v: Vec<usize>| v@);
            &&& forall|k: int| 0 <= k < roots.len() ==> #[trigger] roots[k] < children@.len() && !has_parent(ch, roots[k] as int)
            &&& forall|k1: int, k2: int| 0 <= k1 < k2 < roots.len() ==> #[trigger] roots[k1] < #[trigger] roots[k2]
            &&& forall|i: int| 0 <= i < children@.len() && !has_parent(ch, i) ==> roots.contains(i as usize)
        },
{
    let ghost ch = children@.map_values(|v: Vec<usize>| v@);
    let n = children.len();
    let mut parented: Vec<bool> = Vec::new();
    let mut m: usize = 0;
    while m < n
        invariant
            m <= n,
            parented@.len() == m,
            forall|i: int| 0 <= i < m ==> !(#[trigger] parented@[i]),
        decreases n - m,
    {
        parented.push(false);
        m = m + 1;
    }
    let mut j: usize = 0;
    while j < n
        invariant
            n == children@.len(),
            ch == children@.map_values(|v: Vec<usize>| v@),
            j <= n,
            parented@.len() == n,
            forall|jj: int, c: int| 0 <= jj < j && 0 <= c < ch[jj].len() ==> #[trigger] ch[jj][c] < n,
            forall|i: int| 0 <= i < n ==> (#[trigger] parented@[i] <==> exists|jj: int, c: int|
                0 <= jj < j && 0 <= c < ch[jj].len() && #[trigger] ch[jj][c] == i),
        decreases n - j,
    {
        let list = &children[j];
        assert(ch[j as int] == list@);
        let mut c: usize = 0;
        while c < list.len()
            invariant
                n == children@.len(),
                ch == children@.map_values(|v: Vec<usize>| v@),
                j < n,
                ch[j as int] == list@,
                c <= list@.len(),
                parented@.len() == n,
                forall|jj: int, cc: int| 0 <= jj < j && 0 <= cc < ch[jj].len() ==> #[trigger] ch[jj][cc] < n,
                forall|cc: int| 0 <= cc < c ==> #[trigger] list@[cc] < n,
                forall|i: int| 0 <= i < n ==> (#[trigger] parented@[i] <==> (exists|jj: int, cc: int|
                    0 <= jj < j && 0 <= cc < ch[jj].len() && #[trigger] ch[jj][cc] == i) || (exists|cc: int|
                    0 <= cc < c && #[trigger] list@[cc] == i)),
            decreases list@.len() - c,
        {
            let child = list[c];
            if child >= n {
                assert(ch[j as int][c as int] >= ch.len());
                return Err(SceneError::NodeIndexOutOfRange);
            }
            parented[child] = true;
            proof {
                assert forall|i: int| 0 <= i < n implies (#[trigger] parented@[i] <==> (exists|jj: int, cc: int|
                    0 <= jj < j && 0 <= cc < ch[jj].len() && #[trigger] ch[jj][cc] == i) || (exists|cc: int|
                    0 <= cc < c + 1 && #[trigger] list@[cc] == i)) by {
                    if i == child {
                        assert(list@[c as int] == i);
                    }
                }
            }
            c = c + 1;
        }
        proof {
            assert forall|i: int| 0 <= i < n implies (#[trigger] parented@[i] <==> exists|jj: int, cc: int|
                0 <= jj < j + 1 && 0 <= cc < ch[jj].len() && #[trigger] ch[jj][cc] == i) by {
                if parented@[i] {
                    if !(exists|jj: int, cc: int| 0 <= jj < j && 0 <= cc < ch[jj].len() && #[trigger] ch[jj][cc] == i) {
                        let cc = choose|cc: int| 0 <= cc < c && #[trigger] list@[cc] == i;
                        assert(ch[j as int][cc] == i);
                    }
                } else {
                    assert forall|jj: int, cc: int| 0 <= jj < j + 1 && 0 <= cc < ch[jj].len() implies #[trigger] ch[jj][cc] != i by {
                        if jj == j {
                            assert(list@[cc] == ch[jj][cc]);
                        }
                    }
                }
            }
            assert forall|jj: int, cc: int| 0 <= jj < j + 1 && 0 <= cc < ch[jj].len() implies #[trigger] ch[jj][cc] < n by {
                if jj == j {
                    assert(list@[cc] == ch[jj][cc]);
                }
            }
        }
        j = j + 1;
    }
    proof {
        assert(!has_dangling_child(ch));
    }
    let mut roots: Vec<usize> = Vec::new();
    let mut i: usize = 0;
    while i < n
        invariant
            n == children@.len(),
            ch == children@.map_values(|v: Vec<usize>| v@),
            i <= n,
            parented@.len() == n,
            forall|k: int| 0 <= k < n ==> (#[trigger] parented@[k] <==> has_parent(ch, k)),
            forall|k: int| 0 <= k < roots@.len() ==> #[trigger] roots@[k] < i && !has_parent(ch, roots@[k] as int),
            forall|k1: int, k2: int| 0 <= k1 < k2 < roots@.len() ==> #[trigger] roots@[k1] < #[trigger] roots@[k2],
            forall|k: int| 0 <= k < i && !has_parent(ch, k) ==> roots@.contains(k as usize),
        decreases n - i,
    {
        let ghost old_roots = roots@;
        if !parented[i] {
            roots.push(i);
            assert(roots@[roots@.len() - 1] == i);
        }
        proof {
            assert forall|k: int| 0 <= k < i + 1 && !has_parent(ch, k) implies roots@.contains(k as usize) by {
                if k < i {
                    assert(old_roots.contains(k as usize));
                    let kk = choose|kk: int| 0 <= kk < old_roots.len() && old_roots[kk] == k as usize;
                    assert(roots@[kk] == k as usize);
                } else {
                    assert(roots@[roots@.len() - 1] == i);
                }
            }
        }
        i = i + 1;
    }
    Ok(roots)
}

} // verus!
