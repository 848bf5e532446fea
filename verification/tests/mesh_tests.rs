use meshr::mesh::half_edge::{HeMesh, HeMeshError};
use meshr::mesh::polygon_soup::PolygonSoup;
use meshr::mesh::wavefront::{ObjDoc, ObjReader};
use meshr::geometry::Vector3;

const BOX_OBJ: &str = "v 0 0 0\nv 1 0 0\nv 1 1 0\nv 0 1 0\nv 0 0 1\nv 1 0 1\nv 1 1 1\nv 0 1 1\nf 1 2 3\nf 2 4 3\nf 5 7 6\nf 6 7 8\nf 1 5 2\nf 5 8 2\nf 4 7 3\nf 8 7 4\nf 1 3 5\nf 3 7 5\nf 5 6 8\nf 8 4 2\n";

const BOX_GROUPS_OBJ: &str = "v 0 0 0\nv 1 0 0\nv 1 1 0\nv 0 1 0\nv 0 0 1\nv 1 0 1\nv 1 1 1\nv 0 1 1\ng bottom\nf 1 4 3 2\ng front\nf 1 2 6\nf 1 6 5\ng top\nf 5 6 7 8\ng right\nf 2 3 7 6\ng back\nf 3 4 8 7\ng left\nf 4 1 5 8\n";

const BOX_NONMANIFOLD_OBJ: &str = "v 0 0 0\nv 1 0 0\nv 0 1 0\nv 0 0 1\nv 1 1 1\nf 1 2 3\nf 1 2 4\nf 2 1 5\n";

fn parse(data: &str) -> ObjDoc {
    let reader = ObjReader::new("test.obj");
    reader.parse(data.as_bytes()).unwrap()
}

fn soup_of(doc: &ObjDoc) -> PolygonSoup {
    let mut soup = PolygonSoup::new();
    for name in doc.patches.iter() {
        soup.insert_patch(name.clone());
    }
    for v in doc.vertices.iter() {
        let x: f64 = std::str::from_utf8(&v.x).unwrap().parse().unwrap();
        let y: f64 = std::str::from_utf8(&v.y).unwrap().parse().unwrap();
        let z: f64 = std::str::from_utf8(&v.z).unwrap().parse().unwrap();
        soup.insert_vertex(Vector3 { x: x.to_bits(), y: y.to_bits(), z: z.to_bits() });
    }
    for (f, vs) in doc.face_vertices.iter().enumerate() {
        soup.insert_face(vs, doc.face_patches[f]);
    }
    soup
}

fn mesh_of(data: &str) -> Result<HeMesh, HeMeshError> {
    HeMesh::new(&soup_of(&parse(data)))
}

#[test]
fn import_obj() {
    let mesh = mesh_of(BOX_OBJ).unwrap();
    assert_eq!(mesh.n_vertices(), 8);
    assert_eq!(mesh.n_faces(), 12);
    assert_eq!(mesh.n_half_edges(), 36);
    assert_eq!(mesh.n_patches(), 0);
}

#[test]
fn import_obj_patches() {
    let mesh = mesh_of(BOX_GROUPS_OBJ).unwrap();
    assert_eq!(mesh.n_patches(), 6);
    assert_eq!(mesh.face(0).patch(), Some(0));
    assert_eq!(mesh.face(1).patch(), Some(1));
    assert_eq!(mesh.face(2).patch(), Some(1));
    assert_eq!(mesh.face(3).patch(), Some(2));
    assert_eq!(mesh.face(4).patch(), Some(3));
    assert_eq!(mesh.face(5).patch(), Some(4));
    assert_eq!(mesh.face(6).patch(), Some(5));
}

#[test]
fn import_obj_nonmanifold() {
    let result = mesh_of(BOX_NONMANIFOLD_OBJ);
    assert_eq!(result.unwrap_err(), HeMeshError::NonManifold);
}

#[test]
fn read() {
    let soup = soup_of(&parse(BOX_OBJ));
    assert_eq!(8, soup.n_vertices());
    assert_eq!(12, soup.n_faces());
    assert_eq!(0, soup.n_patches());
}

#[test]
fn read_groups() {
    let soup = soup_of(&parse(BOX_GROUPS_OBJ));
    assert_eq!(8, soup.n_vertices());
    assert_eq!(7, soup.n_faces());
    assert_eq!(6, soup.n_patches());
}

#[test]
fn face_half_edge_iter() {
    let mesh = mesh_of(BOX_OBJ).unwrap();
    assert_eq!(mesh.face_half_edges(0), vec![0, 1, 2]);
}

#[test]
fn face_vertex_iter() {
    let mesh = mesh_of(BOX_OBJ).unwrap();
    assert_eq!(mesh.face_vertices(0), vec![0, 1, 2]);
}

#[test]
fn flip_face() {
    let mut mesh = mesh_of(BOX_OBJ).unwrap();
    assert!(mesh.is_closed());
    assert!(mesh.is_consistent());
    assert_eq!(mesh.face_vertices(0), vec![0, 1, 2]);
    mesh.flip_face(0);
    assert!(mesh.is_closed());
    assert!(!mesh.is_consistent());
    assert_eq!(mesh.face_vertices(0), vec![1, 0, 2]);
}

#[test]
fn is_triangles_box() {
    let mesh = mesh_of(BOX_OBJ).unwrap();
    assert!(mesh.is_triangles());
    let quads = mesh_of(BOX_GROUPS_OBJ).unwrap();
    assert!(!quads.is_triangles());
}

#[test]
fn euler_characteristic_box() {
    // V - E + F == 2 for the closed genus-zero box
    let mesh = mesh_of(BOX_OBJ).unwrap();
    let v = mesh.n_vertices() as i64;
    let e = (mesh.n_half_edges() / 2) as i64;
    let f = mesh.n_faces() as i64;
    assert_eq!(v - e + f, 2);
}

#[test]
fn parse_vertex_errors() {
    let reader = ObjReader::new("bad.obj");
    assert!(reader.parse(b"v 1 2 3 4\n").is_err());
    assert!(reader.parse(b"v a b c\n").is_err());
    assert!(reader.parse(b"v 1.5e3 .5 -2.\n").is_ok());
    assert!(reader.parse(b"v inf -inf nan\n").is_ok());
}

#[test]
fn parse_face_errors() {
    let reader = ObjReader::new("bad.obj");
    assert!(reader.parse(b"f 1 2\n").is_err());
    assert!(reader.parse(b"f 0 1 2\n").is_err());
    assert!(reader.parse(b"f -1 2 3\n").is_err());
    let doc = reader.parse(b"f 1/4 2/5 3/6\n").unwrap();
    assert_eq!(doc.face_vertices[0], vec![0, 1, 2]);
}

#[test]
fn patch_names_carry_over() {
    let mesh = mesh_of(BOX_GROUPS_OBJ).unwrap();
    assert_eq!(mesh.patch(0).name(), &b"bottom".to_vec());
    assert_eq!(mesh.patch(5).name(), &b"left".to_vec());
}

#[test]
fn test_merge() {
    let mut mesh = mesh_of(BOX_OBJ).unwrap();
    let other = mesh_of(BOX_OBJ).unwrap();
    mesh.merge(&other);
    assert_eq!(mesh.n_vertices(), 16);
    assert_eq!(mesh.n_faces(), 24);
    assert_eq!(mesh.n_half_edges(), 72);
    assert!(mesh.is_closed());
    assert!(mesh.is_consistent());
    // the appended faces reference the appended vertices
    assert_eq!(mesh.face_vertices(12), vec![8, 9, 10]);
}

#[test]
fn test_merge_patches_by_name() {
    let mut mesh = mesh_of(BOX_GROUPS_OBJ).unwrap();
    let other = mesh_of(BOX_GROUPS_OBJ).unwrap();
    mesh.merge(&other);
    // every patch name already existed, so none is appended
    assert_eq!(mesh.n_patches(), 6);
    assert_eq!(mesh.face(7).patch(), Some(0));
    assert_eq!(mesh.face(8).patch(), Some(1));
}

#[test]
fn test_extract_faces() {
    let mesh = mesh_of(BOX_OBJ).unwrap();
    let subset = mesh.extract_faces(&[3, 5, 6]).unwrap();
    assert_eq!(subset.n_vertices(), 7);
    assert_eq!(subset.n_faces(), 3);
    assert_eq!(subset.n_half_edges(), 9);
}

#[test]
fn test_extract_faces_all_reversed() {
    let mesh = mesh_of(BOX_OBJ).unwrap();
    let faces: Vec<usize> = (0..mesh.n_faces()).rev().collect();
    let subset = mesh.extract_faces(&faces).unwrap();
    assert_eq!(subset.n_vertices(), mesh.n_vertices());
    assert_eq!(subset.n_faces(), mesh.n_faces());
    assert_eq!(subset.n_half_edges(), mesh.n_half_edges());
    assert!(subset.is_closed());
    assert!(subset.is_consistent());
}

#[test]
fn test_extract_patch_names() {
    let mesh = mesh_of(BOX_GROUPS_OBJ).unwrap();
    let names = vec![mesh.patch(1).name().clone()];
    let subset = mesh.extract_patch_names(&names).unwrap();
    assert_eq!(subset.n_vertices(), 4);
    assert_eq!(subset.n_faces(), 2);
    assert_eq!(subset.n_half_edges(), 6);
    assert_eq!(subset.n_patches(), 1);
}

#[test]
fn parse_vertex_exactly_three() {
    let reader = ObjReader::new("strict.obj");
    assert!(reader.parse(b"v 1 2\n").is_err());
    assert!(reader.parse(b"v\n").is_err());
    assert!(reader.parse(b"v 1 2 3\n").is_ok());
}
