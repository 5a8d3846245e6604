use rvm_parser::error::RvmError;
use rvm_parser::tree::ModelTree;
use rvm_parser::names::{Group, CNTE};
use rvm_parser::parse_binary::{
    be_floats, byte, is_not_zero, is_zero, parse_3float_binary, parse_M3x4_binary,
    parse_bboxLocal_binary, parse_box_binary, parse_circularTorus_binary, parse_cntb_binary,
    parse_cnte_binary, parse_cnte_version, parse_cylinder_binary, parse_ellipticalDish_binary,
    parse_f32, parse_facetgroup_binary, parse_head_binary, parse_head_date, parse_head_name,
    parse_head_note, parse_head_unicode, parse_head_user, parse_head_version, parse_kind_binary,
    parse_line_binary, parse_modl_binary, parse_prim_binayy, parse_pyramid_binary,
    parse_rectangularTorus_binary, parse_snout_binary, parse_sphere_binary,
    parse_sphericalDish_binary, parse_string, read_binary_model, take_nonzeros, take_zero_out,
    take_zeros, zbyte,
};
use rvm_parser::shapes::PrimShapes;
use slab_tree::{NodeId, Tree};

fn f(bits: u32) -> f32 {
    f32::from_bits(bits)
}

fn fs(bits: &[u32]) -> Vec<f32> {
    bits.iter().map(|b| f32::from_bits(*b)).collect()
}

/// A keyword: each letter in a 4-byte word.
fn keyword(w: &[u8; 4]) -> Vec<u8> {
    let mut v = Vec::new();
    for b in w {
        v.extend_from_slice(&[0, 0, 0, *b]);
    }
    v
}

fn word(b: u8) -> Vec<u8> {
    vec![0, 0, 0, b]
}

/// A text field: its length word, then the text padded to a multiple of 4 bytes.
fn field(t: &str) -> Vec<u8> {
    let mut v = word(((t.len() + 3) / 4) as u8);
    v.extend_from_slice(t.as_bytes());
    while v.len() % 4 != 0 {
        v.push(0);
    }
    v
}

fn floats_be(xs: &[f32]) -> Vec<u8> {
    let mut v = Vec::new();
    for x in xs {
        v.extend_from_slice(&x.to_be_bytes());
    }
    v
}

/// What follows a block's keyword before its contents: the offset word and the
/// version words.
fn block_head() -> Vec<u8> {
    [word(9), word(1), word(2)].concat()
}

fn head_block() -> Vec<u8> {
    [
        keyword(b"HEAD"),
        word(1),
        word(1),
        word(2),
        field("AVEVA PDMS Design"),
        field("Mon Jun 28 11:16:24 2021"),
        field("someone@host"),
        field("Unicode UTF-8"),
    ]
    .concat()
}

fn modl_block() -> Vec<u8> {
    [keyword(b"MODL"), word(1), word(1), word(1), field("SAM"), field("/SAMPLE")].concat()
}

fn cntb_block(name: &str) -> Vec<u8> {
    let mut padded = name.as_bytes().to_vec();
    while padded.len() % 4 != 0 {
        padded.push(0);
    }
    [
        keyword(b"CNTB"),
        block_head(),
        word((padded.len() / 4) as u8),
        padded,
        floats_be(&[1.0, 2.0, 3.0]),
        word(5),
    ]
    .concat()
}

fn cnte_block() -> Vec<u8> {
    [keyword(b"CNTE"), block_head()].concat()
}

fn prim_block(kind: u8, shape: &[f32]) -> Vec<u8> {
    [
        keyword(b"PRIM"),
        block_head(),
        word(kind),
        floats_be(&[1.0, 0.0, 0.0, 10.0, 0.0, 1.0, 0.0, 20.0, 0.0, 0.0, 1.0, 30.0]),
        floats_be(&[-1.0, -1.0, -1.0, 1.0, 1.0, 1.0]),
        floats_be(shape),
    ]
    .concat()
}

fn end_block() -> Vec<u8> {
    keyword(b"END:")
}

fn children(tree: &Tree<Group>, id: NodeId) -> Vec<NodeId> {
    tree.get(id).unwrap().children().map(|c| c.node_id()).collect()
}

#[test]
fn test_parse_f32() {
    let input = &[2, 0, 0, 0];
    let (input, out) = parse_f32(input).unwrap();
    println!("out={:?}", f(out));
    assert_eq!(out, 0x0200_0000);
    assert_eq!(f(out), f32::from_be_bytes([2, 0, 0, 0]));
    assert!(input.is_empty());
    assert_eq!(parse_f32(&[1, 2, 3]), Err(RvmError::Eof));
}

#[test]
fn test_str() {
    let data = &[47, 83, 84, 65, 66, 73, 76, 73, 90, 69, 82, 0][..];
    let (input, out) = parse_string(data).unwrap();
    println!("out={:?}", out);
    println!("input={:?}", input);
    assert_eq!(std::str::from_utf8(out), Ok("/STABILIZER"));
    assert!(input.is_empty());
}

#[test]
fn string_padding() {
    let data = &[65, 66, 67, 68, 0, 0, 0, 7][..];
    assert_eq!(parse_string(data), Ok((&[0u8, 0, 0, 7][..], &[65u8, 66, 67, 68][..])));
    let data = &[65, 66, 0, 0, 9][..];
    assert_eq!(parse_string(data), Ok((&[9u8][..], &[65u8, 66][..])));
    assert_eq!(parse_string(&[65, 66, 0][..]), Err(RvmError::Eof));
}

#[test]
fn test_parse_binary() {
    let file = [
        head_block(),
        modl_block(),
        cntb_block("/PIPE-100"),
        prim_block(8, &[5.0, 6.0]),
        cnte_block(),
        prim_block(9, &[7.0]),
        end_block(),
        vec![1, 2, 3],
    ]
    .concat();
    let model = read_binary_model(&file).unwrap();
    let tree = model.tree();
    let root = tree.root().unwrap();
    match root.data() {
        Group::Head(h) => {
            assert_eq!(h.info, "HEAD");
            assert_eq!(h.note, "AVEVA PDMS Design");
            assert_eq!(h.data, "Mon Jun 28 11:16:24 2021");
            assert_eq!(h.user, "someone@host");
            assert_eq!(h.encoding, "Unicode UTF-8");
        },
        other => panic!("root is {:?}", other),
    }
    let top = children(&tree, root.node_id());
    assert_eq!(top.len(), 3);
    match tree.get(top[0]).unwrap().data() {
        Group::MODL(m) => {
            assert_eq!(m.project, "SAM");
            assert_eq!(m.name, "/SAMPLE");
        },
        other => panic!("first child is {:?}", other),
    }
    match tree.get(top[1]).unwrap().data() {
        Group::CNTB(c) => {
            assert_eq!(c.name, "/PIPE-100\0\0\0");
            assert_eq!(fs(&c.translation), vec![1.0, 2.0, 3.0]);
            assert_eq!(f(c.material), 5.0);
        },
        other => panic!("second child is {:?}", other),
    }
    match tree.get(top[2]).unwrap().data() {
        Group::PRIM(p) => {
            assert_eq!(p.kind, "Sphere");
            assert_eq!(p.group, PrimShapes::SphereShape(rvm_parser::shapes::Sphere { diameter: 7.0f32.to_bits() }));
        },
        other => panic!("third child is {:?}", other),
    }
    let inner = children(&tree, top[1]);
    assert_eq!(inner.len(), 2);
    match tree.get(inner[0]).unwrap().data() {
        Group::PRIM(p) => {
            assert_eq!(p.kind, "Cylinder");
            assert_eq!(
                fs(&p.M_3x4),
                vec![1.0, 0.0, 0.0, 10.0, 0.0, 1.0, 0.0, 20.0, 0.0, 0.0, 1.0, 30.0]
            );
            assert_eq!(fs(&p.bboxLocal), vec![-1.0, -1.0, -1.0, 1.0, 1.0, 1.0]);
        },
        other => panic!("group holds {:?}", other),
    }
    assert_eq!(tree.get(inner[1]).unwrap().data(), &Group::CNTE(CNTE));
    let mut s = String::new();
    tree.write_formatted(&mut s).unwrap();
    println!("s={}", s);
}

#[test]
fn binary_model_errors() {
    let file = [head_block(), modl_block(), cnte_block(), end_block()].concat();
    assert_eq!(read_binary_model(&file).unwrap_err(), RvmError::CountUnderflow);
    let file = [head_block(), modl_block(), prim_block(12, &[1.0]), end_block()].concat();
    assert_eq!(read_binary_model(&file).unwrap_err(), RvmError::UnknownPrimitive);
    let file = [head_block(), modl_block(), prim_block(8, &[1.0])].concat();
    assert_eq!(read_binary_model(&file).unwrap_err(), RvmError::Eof);
    let mut bad = head_block();
    let at = bad.len() - 4;
    bad[at] = 0xff;
    assert_eq!(read_binary_model(&bad).unwrap_err(), RvmError::Utf8);
    assert_eq!(read_binary_model(&[]).unwrap_err(), RvmError::Eof);
}

#[test]
fn binary_group_end_at_the_root_has_no_parent() {
    let (mut tree, root) = ModelTree::with_root(Group::CNTE(CNTE));
    let input = [cnte_block(), end_block()].concat();
    assert_eq!(parse_kind_binary(&input, &mut tree, root, 1), Err(RvmError::NoParent));
    assert_eq!(children(tree.tree(), root).len(), 1);
}

#[test]
fn binary_group_start_beyond_the_count_limit_is_refused() {
    let (mut tree, root) = ModelTree::with_root(Group::CNTE(CNTE));
    let input = [cntb_block("/P"), end_block()].concat();
    assert_eq!(parse_kind_binary(&input, &mut tree, root, 255), Err(RvmError::CountOverflow));
    let (mut tree, root) = ModelTree::with_root(Group::CNTE(CNTE));
    let (rest, sum) = parse_kind_binary(&input, &mut tree, root, 3).unwrap();
    assert!(rest.is_empty());
    assert_eq!(sum, 4);
}

#[test]
fn group_start_name_length_limit() {
    let mut input = [block_head(), word(64)].concat();
    input.extend(vec![65u8; 256]);
    input.extend(floats_be(&[1.0, 2.0, 3.0]));
    input.extend(word(1));
    assert_eq!(parse_cntb_binary(&input).unwrap_err(), RvmError::NameTooLong);
    let input = [block_head(), word(2), vec![65u8; 5]].concat();
    assert_eq!(parse_cntb_binary(&input).unwrap_err(), RvmError::Eof);
    let input = [block_head(), word(1), b"/AB\0".to_vec(), floats_be(&[1.5, 2.5, 3.5]), word(7), vec![9]].concat();
    let (rest, c) = parse_cntb_binary(&input).unwrap();
    assert_eq!(rest, &[9u8][..]);
    assert_eq!(c.name, "/AB\0");
    assert_eq!(fs(&c.translation), vec![1.5, 2.5, 3.5]);
    assert_eq!(f(c.material), 7.0);
}

#[test]
fn keyword_and_version_words() {
    let input = [keyword(b"CNTB"), vec![1]].concat();
    assert_eq!(parse_head_name(&input), Ok((&[1u8][..], *b"CNTB")));
    assert_eq!(parse_head_name(&[0, 0, 67]), Err(RvmError::Eof));
    let input = [word(3), word(4), word(5), vec![0]].concat();
    assert_eq!(parse_head_version(&input), Ok((&[0u8][..], 1)));
    let input = [word(3), word(4), vec![8]].concat();
    assert_eq!(parse_cnte_version(&input), Ok((&[8u8][..], 1)));
    assert_eq!(parse_cnte_version(&[0, 0, 3]), Err(RvmError::Eof));
    let cnte = [block_head(), vec![4]].concat();
    let (rest, _) = parse_cnte_binary(&cnte).unwrap();
    assert_eq!(rest, &[4u8][..]);
}

#[test]
fn header_fields() {
    let input = [word(2), b"ab".to_vec(), vec![0, 0, 7]].concat();
    let expected: (&[u8], &[u8]) = (&[0, 0, 7], b"ab");
    assert_eq!(parse_head_note(&input), Ok(expected));
    assert_eq!(parse_head_date(&input), Ok(expected));
    assert_eq!(parse_head_user(&input), Ok(expected));
    assert_eq!(parse_head_unicode(&input), Ok(expected));
    assert_eq!(parse_head_note(&[0, 0]), Err(RvmError::Eof));
    let head_bytes = [head_block(), vec![0, 0, 0, 3]].concat();
    let (rest, head) = parse_head_binary(&head_bytes).unwrap();
    // The rest starts at the padding after the last field.
    assert_eq!(rest, &[0u8, 0, 0, 0, 0, 0, 3][..]);
    assert_eq!(head.info, "HEAD");
    assert_eq!(head.encoding, "Unicode UTF-8");
    let modl_bytes = modl_block();
    let (rest, modl) = parse_modl_binary(&modl_bytes).unwrap();
    assert_eq!(rest, &[0u8][..]);
    assert_eq!(modl.project, "SAM");
    assert_eq!(modl.name, "/SAMPLE");
}

#[test]
fn byte_readers() {
    assert_eq!(byte(&[5, 6]), Ok((&[6u8][..], 5)));
    assert_eq!(byte(&[]), Err(RvmError::Eof));
    assert_eq!(zbyte(&[0, 0, 5, 6]), Ok((&[6u8][..], 5)));
    assert_eq!(zbyte(&[0, 0]), Err(RvmError::Eof));
    assert_eq!(take_zeros(&[0, 0, 5, 0]), (&[5u8, 0][..], &[0u8, 0][..]));
    assert_eq!(take_nonzeros(&[5, 6, 0, 7]), (&[0u8, 7][..], &[5u8, 6][..]));
    let three = floats_be(&[1.0, -2.0, 0.5]);
    let (rest, v) = be_floats(&three, 2).unwrap();
    assert_eq!(rest, &floats_be(&[0.5])[..]);
    assert_eq!(fs(&v), vec![1.0, -2.0]);
    assert_eq!(be_floats(&[0; 7], 2), Err(RvmError::Eof));
}

#[test]
fn zero_tests_and_zero_removal() {
    assert!(is_zero(0));
    assert!(!is_zero(7));
    assert!(is_not_zero(7));
    assert!(!is_not_zero(0));
    assert_eq!(take_zero_out([0, 67, 0, 66], vec![1]), vec![1, 67, 66]);
    assert_eq!(take_zero_out([0, 0, 0, 0], vec![]), Vec::<u8>::new());
    assert_eq!(take_zero_out([1, 2, 3, 4], vec![9]), vec![9, 1, 2, 3, 4]);
}

#[test]
fn float_groups_binary() {
    let nums: Vec<f32> = (1..=20).map(|i| i as f32).collect();
    let bytes = floats_be(&nums);
    let (_, t) = parse_3float_binary(&bytes).unwrap();
    assert_eq!(fs(&t), vec![1.0, 2.0, 3.0]);
    let (_, b) = parse_bboxLocal_binary(&bytes).unwrap();
    assert_eq!(fs(&b), vec![1.0, 2.0, 3.0, 4.0, 5.0, 6.0]);
    let (rest, m) = parse_M3x4_binary(&bytes).unwrap();
    assert_eq!(rest.len(), 32);
    assert_eq!(fs(&m), nums[..12].to_vec());
    assert_eq!(parse_M3x4_binary(&bytes[..44]), Err(RvmError::Eof));
}

#[test]
fn each_binary_shape_reads_its_numbers_in_order() {
    let nums: Vec<f32> = (1..=10).map(|i| i as f32).collect();
    let bytes = floats_be(&nums);
    let (_, p) = parse_pyramid_binary(&bytes).unwrap();
    assert_eq!((fs(&p.bottom), fs(&p.top), fs(&p.offset), f(p.height)), (vec![1.0, 2.0], vec![3.0, 4.0], vec![5.0, 6.0], 7.0));
    let (_, b) = parse_box_binary(&bytes).unwrap();
    assert_eq!(fs(&b.lengths), vec![1.0, 2.0, 3.0]);
    let (_, r) = parse_rectangularTorus_binary(&bytes).unwrap();
    assert_eq!((f(r.inner_radius), f(r.outer_radius), f(r.height), f(r.angle)), (1.0, 2.0, 3.0, 4.0));
    let (_, c) = parse_circularTorus_binary(&bytes).unwrap();
    assert_eq!((f(c.offset), f(c.radius), f(c.angle)), (1.0, 2.0, 3.0));
    let (_, e) = parse_ellipticalDish_binary(&bytes).unwrap();
    assert_eq!((f(e.baseRadius), f(e.height)), (1.0, 2.0));
    let (_, s) = parse_sphericalDish_binary(&bytes).unwrap();
    assert_eq!((f(s.baseRadius), f(s.height)), (1.0, 2.0));
    let (rest, sn) = parse_snout_binary(&bytes).unwrap();
    assert_eq!(rest.len(), 4);
    assert_eq!((fs(&sn.offset), fs(&sn.bshear), fs(&sn.tshear)), (vec![1.0, 2.0], vec![3.0, 4.0], vec![5.0, 6.0]));
    assert_eq!((f(sn.radius_b), f(sn.radius_t), f(sn.height)), (7.0, 8.0, 9.0));
    let (_, cy) = parse_cylinder_binary(&bytes).unwrap();
    assert_eq!((f(cy.radius), f(cy.height)), (1.0, 2.0));
    let (_, sp) = parse_sphere_binary(&bytes).unwrap();
    assert_eq!(f(sp.diameter), 1.0);
    let (_, l) = parse_line_binary(&bytes).unwrap();
    assert_eq!((f(l.a), f(l.b)), (1.0, 2.0));
    assert_eq!(parse_snout_binary(&bytes[..32]), Err(RvmError::Eof));
}

#[test]
fn facet_group_records_in_file_order() {
    let rec = |k: f32| floats_be(&[k, k + 1.0, k + 2.0, k + 3.0, k + 4.0, k + 5.0]);
    // Two polygons: the first with one contour of two records, the second with two
    // contours of one record each.
    let input = [
        word(2),
        word(1),
        word(2),
        rec(10.0),
        rec(20.0),
        word(2),
        word(1),
        rec(30.0),
        word(1),
        rec(40.0),
        vec![0xaa],
    ]
    .concat();
    let start = vec![[1u32, 2, 3, 4, 5, 6]];
    let (rest, g) = parse_facetgroup_binary(&input, start).unwrap();
    assert_eq!(rest, &[0xaau8][..]);
    assert_eq!(g.data.len(), 5);
    assert_eq!(g.data[0], [1, 2, 3, 4, 5, 6]);
    assert_eq!(fs(&g.data[1]), vec![10.0, 11.0, 12.0, 13.0, 14.0, 15.0]);
    assert_eq!(f(g.data[2][0]), 20.0);
    assert_eq!(f(g.data[3][0]), 30.0);
    assert_eq!(f(g.data[4][5]), 45.0);
    assert_eq!(parse_facetgroup_binary(&input[..40], vec![]).unwrap_err(), RvmError::Eof);
    let prim = [block_head(), word(11), floats_be(&[0.0; 18]), word(1), word(1), word(1), rec(1.0)].concat();
    let (rest, p) = parse_prim_binayy(&prim).unwrap();
    assert!(rest.is_empty());
    assert_eq!(p.kind, "FacetGroup");
    match p.group {
        PrimShapes::FacetGroupShape(g) => assert_eq!(fs(&g.data[0]), vec![1.0, 2.0, 3.0, 4.0, 5.0, 6.0]),
        other => panic!("not a facet group: {:?}", other),
    }
}

#[test]
fn text_and_binary_primitives_agree() {
    let text = "1 1 4 1 0 0 10 0 1 0 20 0 0 1 30 -1 -1 -1 1 1 1 0.5 2 90";
    let (text_rest, from_text) = rvm_parser::parse_rvm::parse_prim(text).unwrap();
    assert_eq!(text_rest, "");
    let bytes = [
        block_head(),
        word(4),
        floats_be(&[1.0, 0.0, 0.0, 10.0, 0.0, 1.0, 0.0, 20.0, 0.0, 0.0, 1.0, 30.0]),
        floats_be(&[-1.0, -1.0, -1.0, 1.0, 1.0, 1.0]),
        floats_be(&[0.5, 2.0, 90.0]),
    ]
    .concat();
    let (rest, from_bytes) = parse_prim_binayy(&bytes).unwrap();
    assert!(rest.is_empty());
    assert_eq!(from_text.kind, "CircularTorus");
    assert_eq!(from_text, from_bytes);
}

#[test]
fn a_run_keeps_the_nodes_already_there() {
    let (mut tree, root) = ModelTree::with_root(Group::CNTE(CNTE));
    let first = [cntb_block("/A"), prim_block(9, &[1.0]), end_block()].concat();
    parse_kind_binary(&first, &mut tree, root, 0).unwrap();
    let group = children(tree.tree(), root)[0];
    let sphere = children(tree.tree(), group)[0];
    let second = [prim_block(10, &[1.0, 2.0]), end_block()].concat();
    parse_kind_binary(&second, &mut tree, group, 1).unwrap();
    assert!(matches!(tree.tree().get(group).unwrap().data(), Group::CNTB(c) if c.name == "/A\0\0"));
    assert!(matches!(tree.tree().get(sphere).unwrap().data(), Group::PRIM(p) if p.kind == "Sphere"));
    let inside = children(tree.tree(), group);
    assert_eq!(inside.len(), 2);
    assert_eq!(inside[0], sphere);
    assert!(matches!(tree.tree().get(inside[1]).unwrap().data(), Group::PRIM(p) if p.kind == "Line"));
}
