use collada::combinators::Parser;
use collada::document::{collada_p, Collada, TagParameter};
use collada::geometry::{
    extract_indices, extract_normals, extract_positions, extract_texture_coordinates, extract_transform_mat,
    group_to_positions, group_to_tex_coords, pack_indexed_verts, pack_verts, to_index, to_indices, to_matrix,
    Normal, Position, TextureCoordinates, Vertex,
};
use collada::numeric::Number;
use collada::query::{find_floats, find_tag_name};

fn num(whole: &'static str) -> Number<'static> {
    Number { negative: false, whole, frac: "", exponent: 0 }
}

#[test]
fn model_loading_tag_name_extraction_test() {
    assert_eq!(
        find_tag_name(
            &Collada::ColladaTag(
                "x",
                Vec::new(),
                Box::new(vec![
                    Collada::ColladaTag("source", Vec::new(), Box::new(Vec::new())),
                    Collada::ColladaTag("source", Vec::new(), Box::new(Vec::new())),
                    Collada::ColladaTag("hello", Vec::new(), Box::new(Vec::new())),
                ])
            ),
            "hello"
        ),
        Some(&Collada::ColladaTag("hello", Vec::new(), Box::new(Vec::new())))
    )
}

#[test]
fn find_child_returns_the_last_match() {
    let tree = Collada::ColladaTag(
        "x",
        Vec::new(),
        Box::new(vec![
            Collada::ColladaTag("s", vec![TagParameter::ParameterInt("n", 1)], Box::new(Vec::new())),
            Collada::ColladaTag("s", vec![TagParameter::ParameterInt("n", 2)], Box::new(Vec::new())),
            Collada::ColladaTag("s", vec![TagParameter::ParameterInt("n", 3)], Box::new(Vec::new())),
            Collada::ColladaTagClosed("s", Vec::new()),
        ]),
    );
    assert_eq!(
        find_tag_name(&tree, "s"),
        Some(&Collada::ColladaTag("s", vec![TagParameter::ParameterInt("n", 3)], Box::new(Vec::new())))
    );
    assert_eq!(find_tag_name(&tree, "t"), None);
    assert_eq!(find_tag_name(&Collada::ColladaString("s"), "s"), None);
}

#[test]
fn floats_of_first_child() {
    let (_, tree) = collada_p().parse("<p>1 2 3</p>").unwrap();
    assert_eq!(find_floats(&tree), Some(vec![num("1"), num("2"), num("3")]));
    let (_, tree) = collada_p().parse("<p>text</p>").unwrap();
    assert_eq!(find_floats(&tree), None);
}

#[test]
fn grouping_drops_incomplete_groups() {
    let ps = group_to_positions(vec![num("1"), num("2"), num("3"), num("4"), num("5")]);
    assert_eq!(ps, vec![Position { position: (num("1"), num("2"), num("3")) }]);
    let ts = group_to_tex_coords(vec![num("1"), num("2"), num("3")]);
    assert_eq!(ts, vec![TextureCoordinates { coordinates: (num("1"), num("2")) }]);
}

#[test]
fn indices_truncate_and_saturate() {
    let f = |negative: bool, whole: &'static str, frac: &'static str, exponent: i32| Number { negative, whole, frac, exponent };
    assert_eq!(to_index(&f(false, "7", "", 0)), 7);
    assert_eq!(to_index(&f(false, "7", "9", 0)), 7);
    assert_eq!(to_index(&f(true, "7", "", 0)), 0);
    assert_eq!(to_index(&f(false, "1", "5", 2)), 150);
    assert_eq!(to_index(&f(false, "12", "", -1)), 1);
    assert_eq!(to_index(&f(false, "70000", "", 0)), 65535);
    assert_eq!(to_index(&f(false, "0", "", 2000000000)), 0);
    assert_eq!(to_indices(vec![f(false, "3", "", 0), f(false, "65535", "", 0)]), vec![3, 65535]);
}

#[test]
fn matrix_is_transposed() {
    let digits = ["0", "1", "2", "3", "4", "5", "6", "7", "8", "9", "10", "11", "12", "13", "14", "15"];
    let fs: Vec<Number> = digits.iter().map(|d| num(d)).collect();
    let m = to_matrix(fs).unwrap();
    assert_eq!(m[0][1], num("4"));
    assert_eq!(m[1][0], num("1"));
    assert_eq!(m[3][2], num("11"));
    assert_eq!(to_matrix(vec![num("1")]), None);
}

const DOC: &str = "<?xml version=\"1.0\"?>\n<COLLADA>\n <library_geometries>\n  <geometry id=\"g\">\n   <mesh>\n    <source id=\"Cube-mesh-positions\">\n     <float_array id=\"p\" count=\"6\">0 0 0 1 1 1</float_array>\n    </source>\n    <source id=\"Cube-mesh-normals\">\n     <float_array id=\"n\" count=\"3\">0 0 1</float_array>\n    </source>\n    <source id=\"Cube-mesh-map-0\">\n     <float_array id=\"t\" count=\"2\">0.5 0.25</float_array>\n    </source>\n    <triangles count=\"1\"><p>1 0 0 0 0 0</p></triangles>\n   </mesh>\n  </geometry>\n </library_geometries>\n <library_visual_scenes><visual_scene id=\"s\"><node id=\"c\"><matrix sid=\"transform\">1 0 0 5 0 1 0 6 0 0 1 7 0 0 0 1</matrix></node></visual_scene></library_visual_scenes>\n</COLLADA>";

#[test]
fn extraction_from_a_document() {
    let (rest, tree) = collada_p().parse(DOC).unwrap();
    assert_eq!(rest, "");
    let pos = extract_positions(&tree).unwrap();
    assert_eq!(pos.len(), 2);
    assert_eq!(pos[1], Position { position: (num("1"), num("1"), num("1")) });
    let norm = extract_normals(&tree).unwrap();
    assert_eq!(norm, vec![Normal { normal: (num("0"), num("0"), num("1")) }]);
    let tex = extract_texture_coordinates(&tree).unwrap();
    assert_eq!(tex.len(), 1);
    assert_eq!(tex[0].coordinates.0, Number { negative: false, whole: "0", frac: "5", exponent: 0 });
    let idx = extract_indices(&tree).unwrap();
    assert_eq!(idx, vec![1, 0, 0, 0, 0, 0]);
    let m = extract_transform_mat(&tree).unwrap();
    assert_eq!(m[0][3], num("0"));
    assert_eq!(m[3][0], num("5"));
    assert_eq!(m[3][1], num("6"));
    let verts = pack_verts(pos, norm, tex, idx).unwrap();
    assert_eq!(verts.len(), 2);
    assert_eq!(verts[0].position, (num("1"), num("1"), num("1")));
    assert_eq!(verts[1].position, (num("0"), num("0"), num("0")));
}

#[test]
fn extraction_needs_a_header() {
    let (_, tree) = collada_p().parse("<COLLADA><library_geometries></library_geometries></COLLADA>").unwrap();
    assert!(extract_positions(&tree).is_none());
    assert!(extract_indices(&tree).is_none());
    assert!(extract_transform_mat(&tree).is_none());
}

#[test]
fn packing_fails_on_an_index_out_of_range() {
    let p = Position { position: (num("0"), num("0"), num("0")) };
    let n = Normal { normal: (num("0"), num("0"), num("1")) };
    let t = TextureCoordinates { coordinates: (num("0"), num("0")) };
    assert_eq!(pack_verts(vec![p, p, p], vec![n], vec![t], vec![5, 0, 0]), None);
    assert_eq!(pack_verts(vec![p, p, p], vec![n], vec![t], vec![0, 0, 0, 2, 1, 0]), None);
    let ok = pack_verts(vec![p, p, p], vec![n], vec![t], vec![2, 0, 0, 9]).unwrap();
    assert_eq!(ok, vec![Vertex { position: p.position, normal: n.normal, tex_coords: t.coordinates }]);
    assert_eq!(pack_indexed_verts(vec![p], vec![n], vec![t], vec![0, 0, 0]), None);
}
