use rvm_parser::document::read_text_model;
use rvm_parser::names::{Group, HEAD};
use rvm_parser::numbers::u8_float_bits;
use rvm_parser::parse_binary::read_binary_model;
use rvm_parser::shapes::{kind_string, shape_of, PrimShape, PrimShapes};
use slab::Slab;
use slab_tree::Tree;

#[test]
fn whole_numbers_as_single_precision_bits() {
    for n in 0..=255u8 {
        assert_eq!(u8_float_bits(n), (n as f32).to_bits(), "n = {}", n);
    }
    assert_eq!(u8_float_bits(1), 0x3F80_0000);
    assert_eq!(u8_float_bits(200), 0x4348_0000);
}

#[test]
fn kind_names() {
    assert_eq!(kind_string(PrimShape::PyramidShape), "Pyramid");
    assert_eq!(kind_string(PrimShape::SnoutShape), "Snout");
    assert_eq!(kind_string(PrimShape::FacetGroupShape), "FacetGroup");
}

#[test]
fn shape_from_numbers_in_file_order() {
    let v: Vec<u32> = (1..=9).collect();
    match shape_of(PrimShape::SnoutShape, &v) {
        PrimShapes::SnoutShape(s) => {
            assert_eq!(s.offset, [1, 2]);
            assert_eq!(s.bshear, [3, 4]);
            assert_eq!(s.tshear, [5, 6]);
            assert_eq!((s.radius_b, s.radius_t, s.height), (7, 8, 9));
        },
        other => panic!("not a snout: {:?}", other),
    }
    match shape_of(PrimShape::BoxShape, &vec![4, 5, 6]) {
        PrimShapes::BoxShape(b) => assert_eq!(b.lengths, [4, 5, 6]),
        other => panic!("not a box: {:?}", other),
    }
}

#[test]
fn models_start_with_header_then_model_block() {
    let text = "HEAD 1 2\nn\nd\nu\ne\nMODL 1 1\nP\nN\nEND\n";
    let model = read_text_model(text).unwrap();
    let tree = model.tree();
    let root = tree.root().unwrap();
    assert!(matches!(root.data(), Group::Head(_)));
    let first = root.first_child().unwrap();
    assert!(matches!(first.data(), Group::MODL(m) if m.project == "P" && m.name == "N"));
    assert_eq!(root.children().count(), 1);
    // A run that ends before every open group is closed still gives the tree.
    let text = "HEAD 1 2\nn\nd\nu\ne\nMODL 1 1\nP\nN\nCNTB 1 2\n/G\r 0 0 0 1\nEND\n";
    let model = read_text_model(text).unwrap();
    let tree = model.tree();
    let root = tree.root().unwrap();
    assert_eq!(root.children().count(), 2);
    let group = root.last_child().unwrap();
    assert!(matches!(group.data(), Group::CNTB(c) if c.name == "/G"));
    assert_eq!(group.children().count(), 0);
}

#[test]
fn binary_model_of_header_and_model_block_only() {
    let mut file = Vec::new();
    for b in b"HEAD\x01\x01\x01" {
        file.extend_from_slice(&[0, 0, 0, *b]);
    }
    for t in ["n", "d", "u", "e"] {
        file.extend_from_slice(&[0, 0, 0, 1]);
        file.extend_from_slice(t.as_bytes());
        file.extend_from_slice(&[0, 0, 0]);
    }
    for b in b"MODL\x01\x01\x01" {
        file.extend_from_slice(&[0, 0, 0, *b]);
    }
    for t in ["P", "N"] {
        file.extend_from_slice(&[0, 0, 0, 1]);
        file.extend_from_slice(t.as_bytes());
        file.extend_from_slice(&[0, 0, 0]);
    }
    for b in b"END:" {
        file.extend_from_slice(&[0, 0, 0, *b]);
    }
    let model = read_binary_model(&file).unwrap();
    let tree = model.tree();
    let root = tree.root().unwrap();
    assert!(matches!(root.data(), Group::Head(h) if h.note == "n" && h.encoding == "e"));
    assert_eq!(root.children().count(), 1);
    assert!(matches!(root.first_child().unwrap().data(), Group::MODL(m) if m.name == "N"));
}

#[test]
fn test_slab() {
    let mut slab = Slab::new();
    let hello = {
        let entry = slab.vacant_entry();
        let key = entry.key();
        entry.insert((
            key,
            HEAD {
                info: "".to_string(),
                note: "".to_string(),
                data: "".to_string(),
                user: "".to_string(),
                encoding: "".to_string(),
            },
        ));
        key
    };
    let mut slab2 = Slab::new();
    let data = slab2.insert("HEAD");
    println!("hello={:?}", slab[hello].1);
    println!("data={}", slab2[data]);
    assert_eq!(slab[hello].0, hello);
    assert_eq!(slab2[data], "HEAD");
}

#[test]
fn test_slab_tree() {
    let mut tree = Tree::new();
    tree.set_root(1);

    let mut root = tree.root_mut().expect("root doesn't exist");
    root.append(2);
    root.append(3);
    root.append(4);
    root.append(5);
    root.append(6);
    let values = [2, 3, 4, 5, 6];
    let root = root.as_ref();

    for (i, node_ref) in root.children().enumerate() {
        println!("node_ref={:?}", node_ref.data());
        assert_eq!(node_ref.data(), &values[i]);
    }
}

#[test]
fn test_slab_tree_2() {
    let mut tree = Tree::new();
    tree.set_root("hello");
    let mut root = tree.root_mut().expect("root doesn't exist");
    root.append("world");
    root.append("slab");
    root.append("tree");
    let mut root2 = root.append("a");
    root2.append("b");
    let mut s = String::new();
    tree.write_formatted(&mut s).unwrap();
    println!("s={}", s);
    assert!(s.contains("world"));
    assert!(s.contains("b"));
}
