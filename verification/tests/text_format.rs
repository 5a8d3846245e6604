use rvm_parser::document::{parse_head, parse_kinds, parse_modl, read_text_model};
use rvm_parser::error::RvmError;
use rvm_parser::lex::{alpha1, float, floats, multispace0, take_until, ws_float};
use rvm_parser::tree::ModelTree;
use rvm_parser::names::{Group, CNTB, CNTE};
use rvm_parser::parse_rvm::{
    parse_4float, parse_M3x4, parse_bboxLocal, parse_cntb, parse_cnte, parse_prim,
    parse_separated, parse_translation, parse_version,
};
use rvm_parser::shapes::{
    tuple_CircularTorus, tuple_Cylinder, tuple_EllipticalDish, tuple_Line, tuple_Snout,
    tuple_SphericalDish, tuple_Sphere, tuple_box, tuple_pyramid, tuple_rectangularTorus,
    PrimShapes,
};
use slab_tree::Tree;

fn f(bits: u32) -> f32 {
    f32::from_bits(bits)
}

fn fs(bits: &[u32]) -> Vec<f32> {
    bits.iter().map(|b| f32::from_bits(*b)).collect()
}

#[test]
fn test_join() {
    let arr = [1f32];
    let brr = [2f32];
    let crr = [arr, brr].concat();
    println!("crr={:?}", crr);
    assert_eq!(crr, vec![1f32, 2f32]);
}

#[test]
fn test_parse_prim() {
    let data = "1     1
     7
    -0.0010000     0.0000000     0.0000000    12.4900000
     0.0000000    -0.0010000     0.0000000    12.2800000
     0.0000000     0.0000000     0.0010000     2.1974250
        -42.00        -42.00        -23.93
         42.00         42.00         23.93
    42.0000000    30.0000000    47.8500000     0.0000000     0.0000000
     0.0000000     0.0000000     0.0000000     0.0000000";
    let (input, prim) = parse_prim(data).unwrap();
    assert_eq!(input, "");
    assert_eq!(prim.kind, "Snout");
    assert_eq!(
        fs(&prim.M_3x4),
        vec![-0.001, 0.0, 0.0, 12.49, 0.0, -0.001, 0.0, 12.28, 0.0, 0.0, 0.001, 2.197425]
    );
    assert_eq!(fs(&prim.bboxLocal), vec![-42.0, -42.0, -23.93, 42.0, 42.0, 23.93]);
    match prim.group {
        PrimShapes::SnoutShape(s) => {
            assert_eq!(fs(&s.offset), vec![42.0, 30.0]);
            assert_eq!(fs(&s.bshear), vec![47.85, 0.0]);
            assert_eq!(fs(&s.tshear), vec![0.0, 0.0]);
            assert_eq!(f(s.radius_b), 0.0);
            assert_eq!(f(s.radius_t), 0.0);
            assert_eq!(f(s.height), 0.0);
        },
        other => panic!("not a snout: {:?}", other),
    }
}

#[test]
fn test_parse_M3x4() {
    let data = "-0.0010000     0.0000000     0.0000000    12.4900000
                     0.0000000    -0.0010000     0.0000000    12.2800000
                     0.0000000     0.0000000     0.0010000     2.1625000";
    let (input, out) = parse_M3x4(data).unwrap();
    println!("out={:?}", fs(&out));
    assert_eq!(input, "");
    assert_eq!(
        fs(&out),
        vec![-0.001, 0.0, 0.0, 12.49, 0.0, -0.001, 0.0, 12.28, 0.0, 0.0, 0.001, 2.1625]
    );
}

#[test]
fn test_parse_bboxLocal() {
    let data = "-57.00        -57.00        -68.58
                     57.00         57.00         68.58";
    let (input, out) = parse_bboxLocal(data).unwrap();
    println!("out={:?}", fs(&out));
    assert_eq!(input, "");
    assert_eq!(fs(&out), vec![-57.0, -57.0, -68.58, 57.0, 57.0, 68.58]);
}

#[test]
fn test_separated() {
    // The separator may match nothing at the end of the text, which the list
    // combinator refuses.
    let data = "0.0000000     0.0000000     0.0010000     2.1625000";
    let r = parse_separated(data);
    if let Ok((_, arr)) = &r {
        println!("arr={:?}", fs(arr));
    }
    assert_eq!(r, Err(RvmError::SeparatedList));
}

#[test]
fn test_separated_stops_before_a_word() {
    let (rest, arr) = parse_separated("1 2 3 x").unwrap();
    assert_eq!(rest, " x");
    assert_eq!(fs(&arr), vec![1.0, 2.0, 3.0]);
    let (rest, arr) = parse_separated("abc").unwrap();
    assert_eq!(rest, "abc");
    assert!(arr.is_empty());
    assert_eq!(parse_separated("1 2e"), Err(RvmError::FloatCut));
}

#[test]
fn test_parse_head() {
    let head = "HEAD
                     1     2
                AVEVA PDMS Design Mk12.1.SP4.0[4074]  (WINDOWS-NT 6.1)  (25 Jun 2013 : 20:47)

                Mon Jun 28 11:16:24 2021
                happyrust@LAPTOP-9LBAKCHI
                Unicode UTF-8
                MODL";
    let (input, head) = parse_head(head).unwrap();
    assert_eq!(head.info, "HEAD");
    assert_eq!(head.note, "AVEVA PDMS Design Mk12.1.SP4.0[4074]  (WINDOWS-NT 6.1)  (25 Jun 2013 : 20:47)");
    assert_eq!(head.data, "Mon Jun 28 11:16:24 2021");
    assert_eq!(head.user, "happyrust@LAPTOP-9LBAKCHI");
    assert_eq!(head.encoding, "Unicode UTF-8");
    assert_eq!(input, "\n                MODL");
}

#[test]
fn test_parse_modl() {
    let data = "MODL
                     1     1
                    SAM
                    /SAMPLE
                    CNTB";
    let (input, modl) = parse_modl(data).unwrap();
    println!("MODL={:?}", modl);
    assert_eq!(modl.project, "SAM");
    assert_eq!(modl.name, "/SAMPLE");
    assert_eq!(input, "\n                    CNTB");
}

#[test]
fn head_skips_text_before_the_first_capital_h() {
    let (_, head) = parse_head("xx HEAD 1 2\nn\nd\nu\ne\n").unwrap();
    assert_eq!(head.info, "HEAD");
    assert_eq!(head.note, "n");
    assert_eq!(head.encoding, "e");
    assert_eq!(parse_head("no capital here").unwrap_err(), RvmError::TakeUntil);
    assert_eq!(parse_head("HEAD one\n").unwrap_err(), RvmError::Float);
    assert_eq!(parse_head("HEAD 1 2\nnote without end").unwrap_err(), RvmError::TakeUntil);
}

#[test]
fn lexers_give_back_what_they_read() {
    assert_eq!(multispace0(" \t\r\n x "), ("x ", " \t\r\n "));
    assert_eq!(multispace0("x"), ("x", ""));
    assert_eq!(alpha1("CNTB\r\n"), Ok(("\r\n", "CNTB")));
    assert_eq!(alpha1("1CNTB"), Err(RvmError::Alpha));
    assert_eq!(take_until("/PIPE\r\n", 13), Ok(("\r\n", "/PIPE")));
    assert_eq!(take_until("/PIPE", 13), Err(RvmError::TakeUntil));
}

#[test]
fn float_reads_what_nom_reads() {
    let (rest, bits) = float("1.5 rest").unwrap();
    assert_eq!(rest, " rest");
    assert_eq!(f(bits), 1.5);
    let (rest, bits) = float("-12.4900000").unwrap();
    assert_eq!(rest, "");
    assert_eq!(f(bits), -12.49);
    let (_, bits) = float("2.5e2").unwrap();
    assert_eq!(f(bits), 250.0);
    assert_eq!(float(" 1.5"), Err(RvmError::Float));
    assert_eq!(float("x"), Err(RvmError::Float));
    assert_eq!(float("1e"), Err(RvmError::FloatCut));
    let (rest, bits) = ws_float("   3.25x").unwrap();
    assert_eq!(rest, "x");
    assert_eq!(f(bits), 3.25);
    let (rest, v) = floats(" 1 2 3 4", 3).unwrap();
    assert_eq!(rest, " 4");
    assert_eq!(fs(&v), vec![1.0, 2.0, 3.0]);
    assert_eq!(floats(" 1 2", 3), Err(RvmError::Float));
}

#[test]
fn fixed_float_groups() {
    let (rest, v) = parse_version("  1     2\n").unwrap();
    assert_eq!(rest, "\n");
    assert_eq!(fs(&v), vec![1.0, 2.0]);
    let (_, t) = parse_translation(" 1.5 -2 3").unwrap();
    assert_eq!(fs(&t), vec![1.5, -2.0, 3.0]);
    let (_, q) = parse_4float(" 1 2 3 4").unwrap();
    assert_eq!(fs(&q), vec![1.0, 2.0, 3.0, 4.0]);
    assert_eq!(parse_4float(" 1 2 3"), Err(RvmError::Float));
}

#[test]
fn group_start_counts_one_more_open_group() {
    let data = "\r\n     1     2\r\n     /PIPE-100\r\n  1.5  2.5  3.5\r\n     4\r\nPRIM";
    let (rest, (sum, c)) = parse_cntb(data, 3).unwrap();
    assert_eq!(rest, "\r\nPRIM");
    assert_eq!(sum, 4);
    assert_eq!(c.name, "/PIPE-100");
    assert_eq!(fs(&c.translation), vec![1.5, 2.5, 3.5]);
    assert_eq!(f(c.material), 4.0);
    assert_eq!(parse_cntb(data, 255).unwrap_err(), RvmError::CountOverflow);
    assert_eq!(parse_cntb("\r\n 1 2 /PIPE no return", 0).unwrap_err(), RvmError::TakeUntil);
}

#[test]
fn group_end_counts_one_open_group_less() {
    let (rest, (sum, c)) = parse_cnte("\r\n     1     2\r\nEND", 2).unwrap();
    assert_eq!(rest, "\r\nEND");
    assert_eq!(sum, 1);
    assert_eq!(c, CNTE);
    assert_eq!(parse_cnte("\r\n 1 2", 0).unwrap_err(), RvmError::CountUnderflow);
}

#[test]
fn each_text_shape_reads_its_numbers_in_order() {
    let nums = " 1 2 3 4 5 6 7 8 9 10";
    let (_, p) = tuple_pyramid(nums).unwrap();
    assert_eq!(fs(&p.bottom), vec![1.0, 2.0]);
    assert_eq!(fs(&p.top), vec![3.0, 4.0]);
    assert_eq!(fs(&p.offset), vec![5.0, 6.0]);
    assert_eq!(f(p.height), 7.0);
    let (rest, b) = tuple_box(nums).unwrap();
    assert_eq!(rest, " 4 5 6 7 8 9 10");
    assert_eq!(fs(&b.lengths), vec![1.0, 2.0, 3.0]);
    let (_, r) = tuple_rectangularTorus(nums).unwrap();
    assert_eq!(
        (f(r.inner_radius), f(r.outer_radius), f(r.height), f(r.angle)),
        (1.0, 2.0, 3.0, 4.0)
    );
    let (_, c) = tuple_CircularTorus(nums).unwrap();
    assert_eq!((f(c.offset), f(c.radius), f(c.angle)), (1.0, 2.0, 3.0));
    let (_, e) = tuple_EllipticalDish(nums).unwrap();
    assert_eq!((f(e.baseRadius), f(e.height)), (1.0, 2.0));
    let (_, s) = tuple_SphericalDish(nums).unwrap();
    assert_eq!((f(s.baseRadius), f(s.height)), (1.0, 2.0));
    let (rest, sn) = tuple_Snout(nums).unwrap();
    assert_eq!(rest, " 10");
    assert_eq!(fs(&sn.offset), vec![1.0, 2.0]);
    assert_eq!(fs(&sn.bshear), vec![3.0, 4.0]);
    assert_eq!(fs(&sn.tshear), vec![5.0, 6.0]);
    assert_eq!((f(sn.radius_b), f(sn.radius_t), f(sn.height)), (7.0, 8.0, 9.0));
    let (_, cy) = tuple_Cylinder(nums).unwrap();
    assert_eq!((f(cy.radius), f(cy.height)), (1.0, 2.0));
    let (_, sp) = tuple_Sphere(nums).unwrap();
    assert_eq!(f(sp.diameter), 1.0);
    let (_, l) = tuple_Line(nums).unwrap();
    assert_eq!((f(l.a), f(l.b)), (1.0, 2.0));
    assert_eq!(tuple_Snout(" 1 2 3"), Err(RvmError::Float));
}

#[test]
fn prim_with_an_unknown_type_is_refused() {
    let data = "1 1 12 1 0 0 0 0 1 0 0 0 0 1 0 1 1 1 2 2 2 5 5";
    assert_eq!(parse_prim(data).unwrap_err(), RvmError::UnknownPrimitive);
    let data = "1 1 8 1 0 0 0 0 1 0 0 0 0 1 0 1 1 1 2 2 2 5 6";
    let (_, p) = parse_prim(data).unwrap();
    assert_eq!(p.kind, "Cylinder");
    match p.group {
        PrimShapes::CylinderShape(c) => assert_eq!((f(c.radius), f(c.height)), (5.0, 6.0)),
        other => panic!("not a cylinder: {:?}", other),
    }
}

const DOCUMENT: &str = "HEAD
     1     2
AVEVA PDMS Design
Mon Jun 28 11:16:24 2021
someone@host
Unicode UTF-8
MODL
     1     1
SAM
/SAMPLE
CNTB
     1     2
/PIPE-100\r
  1.0  2.0  3.0
     4
PRIM
     1     1
     8
  1 0 0 0
  0 1 0 0
  0 0 1 0
  -1 -1 -1
  1 1 1
  5 6
CNTE
     1     2
PRIM
     1     1
     9
  1 0 0 0
  0 1 0 0
  0 0 1 0
  -1 -1 -1
  1 1 1
  7
END
";

fn children(tree: &Tree<Group>, id: slab_tree::NodeId) -> Vec<slab_tree::NodeId> {
    tree.get(id).unwrap().children().map(|c| c.node_id()).collect()
}

#[test]
fn text_model_fills_the_tree() {
    let model = read_text_model(DOCUMENT).unwrap();
    let tree = model.tree();
    let root = tree.root().unwrap();
    match root.data() {
        Group::Head(h) => {
            assert_eq!(h.info, "HEAD");
            assert_eq!(h.user, "someone@host");
        },
        other => panic!("root is {:?}", other),
    }
    let top = children(&tree, root.node_id());
    assert_eq!(top.len(), 3);
    match tree.get(top[0]).unwrap().data() {
        Group::MODL(m) => {
            assert_eq!(m.project, "SAM");
            assert_eq!(m.name, "/SAMPLE");
        },
        other => panic!("first child is {:?}", other),
    }
    match tree.get(top[1]).unwrap().data() {
        Group::CNTB(c) => {
            assert_eq!(c.name, "/PIPE-100");
            assert_eq!(fs(&c.translation), vec![1.0, 2.0, 3.0]);
        },
        other => panic!("second child is {:?}", other),
    }
    match tree.get(top[2]).unwrap().data() {
        Group::PRIM(p) => assert_eq!(p.kind, "Sphere"),
        other => panic!("third child is {:?}", other),
    }
    let inner = children(&tree, top[1]);
    assert_eq!(inner.len(), 2);
    match tree.get(inner[0]).unwrap().data() {
        Group::PRIM(p) => assert_eq!(p.kind, "Cylinder"),
        other => panic!("group holds {:?}", other),
    }
    assert_eq!(tree.get(inner[1]).unwrap().data(), &Group::CNTE(CNTE));
    let mut s = String::new();
    tree.write_formatted(&mut s).unwrap();
    println!("s={}", s);
}

#[test]
fn text_model_errors() {
    // A group end with no group open.
    let doc = DOCUMENT.replacen("CNTB\n     1     2\n/PIPE-100\r\n  1.0  2.0  3.0\n     4\n", "", 1);
    assert_eq!(read_text_model(&doc).unwrap_err(), RvmError::CountUnderflow);
    let doc = DOCUMENT.replacen("     9\n", "     12\n", 1);
    assert_eq!(read_text_model(&doc).unwrap_err(), RvmError::UnknownPrimitive);
    assert_eq!(read_text_model("").unwrap_err(), RvmError::TakeUntil);
}

#[test]
fn group_end_at_the_root_has_no_parent() {
    let (mut tree, root) = ModelTree::with_root(Group::CNTE(CNTE));
    let r = parse_kinds("CNTE\n 1 2\nEND", &mut tree, root, 1);
    assert_eq!(r, Err(RvmError::NoParent));
    assert_eq!(children(tree.tree(), root).len(), 1);
}

#[test]
fn run_ends_after_the_first_other_word() {
    let (mut tree, root) = ModelTree::with_root(Group::CNTE(CNTE));
    let (rest, sum) = parse_kinds("\n END more", &mut tree, root, 0).unwrap();
    assert_eq!(rest, " more");
    assert_eq!(sum, 0);
    assert!(children(tree.tree(), root).is_empty());
}

#[test]
fn group_start_beyond_the_count_limit_is_refused() {
    let (mut tree, root) = ModelTree::with_root(Group::CNTE(CNTE));
    let r = parse_kinds("CNTB\n 1 2\n/P\r\n 1 2 3\n 4\nEND", &mut tree, root, 255);
    assert_eq!(r, Err(RvmError::CountOverflow));
    let (mut tree, root) = ModelTree::with_root(Group::CNTE(CNTE));
    let (_, sum) = parse_kinds("CNTB\n 1 2\n/P\r\n 1 2 3\n 4\nEND", &mut tree, root, 7).unwrap();
    assert_eq!(sum, 8);
    match tree.tree().get(children(tree.tree(), root)[0]).unwrap().data() {
        Group::CNTB(c) => assert_eq!(c.name, "/P"),
        other => panic!("child is {:?}", other),
    }
}
