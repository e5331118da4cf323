use bevy_dcc::usd_loader::lexer::{float_literal, tokenize, Token};
use bevy_dcc::usd_loader::parser::{parse_int_array, XformOps};
use bevy_dcc::usd_loader::{parse_usda_meshes, triangulate, UsdError};

fn chars(s: &str) -> Vec<char> {
    s.chars().collect()
}

#[test]
fn tokens_of_a_small_document() {
    let toks = tokenize("def Mesh \"Cube\" { # note\n int[] a = [3, -1.5e2] }");
    let words: Vec<String> = toks
        .iter()
        .map(|t| match t {
            Token::Word(w) => format!("W:{}", w),
            Token::Str(s) => format!("S:{}", s),
            Token::Num(n) => format!("N:{}", n),
            Token::LBrace => "{".to_string(),
            Token::RBrace => "}".to_string(),
            Token::LBracket => "[".to_string(),
            Token::RBracket => "]".to_string(),
            Token::LParen => "(".to_string(),
            Token::RParen => ")".to_string(),
            Token::Comma => ",".to_string(),
            Token::Eq => "=".to_string(),
        })
        .collect();
    assert_eq!(
        words,
        vec!["W:def", "W:Mesh", "S:Cube", "{", "W:int", "[", "]", "W:a", "=", "[", "N:3", ",", "N:-1.5e2", "]", "}"]
    );
}

#[test]
fn float_literals_follow_std() {
    for ok in ["1", "-2.5", "1e10", ".5", "5.", "inf", "-NaN", "+3E-2", "infinity"] {
        assert!(float_literal(&chars(ok)), "{}", ok);
        assert!(ok.parse::<f64>().is_ok());
    }
    for bad in ["", "-", "1e", "e5", "1.2.3", "abc", "--1"] {
        assert!(!float_literal(&chars(bad)), "{}", bad);
        assert!(bad.parse::<f64>().is_err());
    }
}

#[test]
fn fan_triangulation() {
    assert_eq!(triangulate(&vec![4], &vec![0, 1, 2, 3]), vec![0, 1, 2, 0, 2, 3]);
    assert_eq!(triangulate(&vec![3, 2, 5], &vec![0, 1, 2, 3, 4, 5, 6, 7, 8, 9]), vec![0, 1, 2, 5, 6, 7, 5, 7, 8, 5, 8, 9]);
    assert_eq!(triangulate(&vec![4], &vec![0, 1, 2]), Vec::<usize>::new());
}

#[test]
fn meshes_are_found_with_their_paths_and_data() {
    let src = r#"#usda 1.0
def Xform "World" {
    double3 xformOp:translate = (1, 2, 3)
    uniform token[] xformOpOrder = ["xformOp:translate"]
    def Mesh "Tri" {
        point3f[] points = [(0, 0, 0), (1, 0, 0), (0, 1, 0)]
        int[] faceVertexCounts = [3]
        int[] faceVertexIndices = [0, 1, 2]
    }
}
"#;
    let meshes = parse_usda_meshes(src).unwrap();
    assert_eq!(meshes.len(), 1);
    let m = &meshes[0];
    assert_eq!(m.path, "/World/Tri");
    assert_eq!(m.points.len(), 3);
    assert_eq!(m.points[1], vec![Some("1".to_string()), Some("0".to_string()), Some("0".to_string())]);
    assert_eq!(m.face_vertex_counts, vec!["3".to_string()]);
    assert_eq!(m.face_vertex_indices, vec!["0", "1", "2"]);
    assert_eq!(m.ancestors.len(), 1);
    let t = m.ancestors[0].translate.as_ref().unwrap();
    assert_eq!(t, &vec![Some("1".to_string()), Some("2".to_string()), Some("3".to_string())]);
}

#[test]
fn a_stalled_points_array_is_a_parse_error() {
    let src = "def Mesh \"M\" { point3f[] points = [(0, 0, 0), oops] }";
    match parse_usda_meshes(src) {
        Err(UsdError::Parse(_)) => {},
        _ => panic!("expected a parse error"),
    }
}

#[test]
fn error_messages() {
    assert_eq!(UsdError::Parse("bad".to_string()).message(), "Parse error: bad");
    let io = UsdError::from(std::io::Error::new(std::io::ErrorKind::NotFound, "gone"));
    assert!(io.message().starts_with("IO error: "));
}

#[test]
fn integer_arrays_keep_their_literals() {
    let toks = tokenize("[1, 2, 30]");
    let mut pos = 0usize;
    let v = parse_int_array(&toks, &mut pos);
    assert_eq!(v, vec!["1", "2", "30"]);
    assert_eq!(pos, toks.len());
}

#[test]
fn a_mesh_follows_the_meshes_defined_inside_it() {
    let src = r#"def Mesh "Outer" {
    point3f[] points = [(0, 0, 0)]
    int[] faceVertexCounts = []
    int[] faceVertexIndices = []
    double3 xformOp:scale = (2, 2, 2)
    def Mesh "Inner" {
        point3f[] points = [(1, 1, 1)]
        int[] faceVertexCounts = []
        int[] faceVertexIndices = []
    }
}
"#;
    let meshes = parse_usda_meshes(src).unwrap();
    assert_eq!(meshes.len(), 2);
    assert_eq!(meshes[0].path, "/Outer/Inner");
    assert_eq!(meshes[1].path, "/Outer");
    assert_eq!(meshes[0].ancestors.len(), 0);
    assert_eq!(meshes[0].local.scale, None);
    let s = Some("2".to_string());
    assert_eq!(meshes[1].local.scale, Some(vec![s.clone(), s.clone(), s]));
}

#[test]
fn a_mesh_without_points_is_left_out() {
    let src = r#"def Xform "A" { def Mesh "Empty" { point3f[] points = [] int[] faceVertexCounts = [] int[] faceVertexIndices = [] } }"#;
    assert_eq!(parse_usda_meshes(src).unwrap().len(), 0);
}

#[test]
fn copied_operations_keep_their_slots() {
    let mut ops = XformOps::none();
    ops.translate = Some(vec![Some("1".to_string()), None, Some("3".to_string())]);
    ops.matrix = Some(vec![None; 16]);
    let c = ops.copy();
    assert_eq!(c.translate, ops.translate);
    assert_eq!(c.matrix, ops.matrix);
    assert_eq!(c.scale, None);
    assert_eq!(c.orient, None);
    assert_eq!(c.rotate_xyz, None);
}

#[test]
fn a_parent_does_not_take_the_operations_of_its_children() {
    let src = r#"def Xform "X" {
    def Mesh "M" {
        double3 xformOp:translate = (1, 0, 0)
        point3f[] points = [(0, 0, 0)]
        int[] faceVertexCounts = []
        int[] faceVertexIndices = []
    }
}
"#;
    let meshes = parse_usda_meshes(src).unwrap();
    assert_eq!(meshes.len(), 1);
    assert_eq!(meshes[0].path, "/X/M");
    assert_eq!(meshes[0].ancestors.len(), 1);
    assert_eq!(meshes[0].ancestors[0].translate, None);
    let one = Some("1".to_string());
    let zero = Some("0".to_string());
    assert_eq!(meshes[0].local.translate, Some(vec![one, zero.clone(), zero]));
}

#[test]
fn characters_of_a_string() {
    assert_eq!(bevy_dcc::text::chars_of("añb"), vec!['a', 'ñ', 'b']);
}
