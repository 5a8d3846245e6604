//! A whole model in the text format: the header, the model block, and the run of group
//! and primitive blocks that fills the model tree.
use vstd::prelude::*;
use vstd::string::*;

use slab_tree::NodeId;

use crate::error::RvmError;
use crate::lex::{
    alpha1, multispace0, spec_alpha1, spec_floats, spec_take_until, take_until, text, text_view,
    ws, lemma_alpha1_len, lemma_floats_err, lemma_ws_len,
};
use crate::names::{CNTB, CNTE, Group, GroupView, HEAD, HeadView, MODL, ModlView, PRIM};
use crate::parse_rvm::{
    parse_cntb, parse_cnte, parse_prim, parse_version, spec_parse_cntb, spec_parse_cnte,
    spec_parse_prim, lemma_block_errors, lemma_cntb_len, lemma_cnte_len, lemma_prim_len,
};
use crate::tree::{
    KindsRun, ModelTree, lemma_open_groups_first, keeps_nodes, lemma_append_keeps, lemma_keeps_trans, depth_step, depths_wf, lemma_after_append, lemma_append_wf, lemma_first_at_most_none,
    lemma_last_at_depth, lemma_last_exists, lemma_last_path_child, lemma_last_path_parent,
    lemma_open_groups_insert, on_last_path, open_groups, lemma_parent_found, parent_pos, pos_of, subtree_end, tree_append,
    tree_ids, tree_nodes, tree_ok, tree_parent, with_child,
};

verus! {

broadcast use {vstd::utf8::encode_utf8_valid_utf8, vstd::utf8::encode_utf8_decode_utf8};

/// The header: skip to the first `H`, read the block's keyword and version, then the
/// four lines that follow (note, date, user, encoding), each after optional blanks and
/// up to its line feed.
pub open spec fn spec_parse_head(s: Seq<u8>) -> Result<(Seq<u8>, HeadView), RvmError> {
    match spec_take_until(s, 72u8) {
        Err(e) => Err(e),
        Ok((s1, _)) => match spec_alpha1(s1) {
            Err(e) => Err(e),
            Ok((s2, info)) => match spec_floats(s2, 2) {
                Err(e) => Err(e),
                Ok((s3, _)) => match spec_take_until(ws(s3), 10u8) {
                    Err(e) => Err(e),
                    Ok((s4, note)) => match spec_take_until(ws(s4), 10u8) {
                        Err(e) => Err(e),
                        Ok((s5, data)) => match spec_take_until(ws(s5), 10u8) {
                            Err(e) => Err(e),
                            Ok((s6, user)) => match spec_take_until(ws(s6), 10u8) {
                                Err(e) => Err(e),
                                Ok((s7, encoding)) => Ok(
                                    (
                                        s7,
                                        HeadView {
                                            info: text(info),
                                            note: text(note),
                                            data: text(data),
                                            user: text(user),
                                            encoding: text(encoding),
                                        },
                                    ),
                                ),
                            },
                        },
                    },
                },
            },
        },
    }
}

/// Reads the header of a text model.
pub fn parse_head(input: &str) -> (r: Result<(&str, HEAD), RvmError>)
    ensures
        text_view(r) == spec_parse_head(input.spec_bytes()),
{
    let (rest, _) = take_until(input, 72)?;
    let (rest, info) = alpha1(rest)?;
    let (rest, _) = parse_version(rest)?;
    let (rest, _) = multispace0(rest);
    let (rest, note) = take_until(rest, 10)?;
    let (rest, _) = multispace0(rest);
    let (rest, data) = take_until(rest, 10)?;
    let (rest, _) = multispace0(rest);
    let (rest, user) = take_until(rest, 10)?;
    let (rest, _) = multispace0(rest);
    let (rest, encoding) = take_until(rest, 10)?;
    Ok(
        (
            rest,
            HEAD {
                info: info.to_owned(),
                note: note.to_owned(),
                data: data.to_owned(),
                user: user.to_owned(),
                encoding: encoding.to_owned(),
            },
        ),
    )
}

/// The model block: after optional blanks, its keyword and version, then the project
/// and the name, each after optional blanks and up to its line feed.
pub open spec fn spec_parse_modl(s: Seq<u8>) -> Result<(Seq<u8>, ModlView), RvmError> {
    match spec_alpha1(ws(s)) {
        Err(e) => Err(e),
        Ok((s1, _)) => match spec_floats(s1, 2) {
            Err(e) => Err(e),
            Ok((s2, _)) => match spec_take_until(ws(s2), 10u8) {
                Err(e) => Err(e),
                Ok((s3, project)) => match spec_take_until(ws(s3), 10u8) {
                    Err(e) => Err(e),
                    Ok((s4, name)) => Ok((s4, ModlView { project: text(project), name: text(name) })),
                },
            },
        },
    }
}

/// Reads the model block of a text model.
pub fn parse_modl(input: &str) -> (r: Result<(&str, MODL), RvmError>)
    ensures
        text_view(r) == spec_parse_modl(input.spec_bytes()),
{
    let (rest, _) = multispace0(input);
    let (rest, _) = alpha1(rest)?;
    let (rest, _) = parse_version(rest)?;
    let (rest, _) = multispace0(rest);
    let (rest, project) = take_until(rest, 10)?;
    let (rest, _) = multispace0(rest);
    let (rest, name) = take_until(rest, 10)?;
    Ok((rest, MODL { project: project.to_owned(), name: name.to_owned() }))
}

/// The keyword of a group start.
pub open spec fn cntb_word() -> Seq<u8> {
    seq![67u8, 78u8, 84u8, 66u8]
}

/// The keyword of a primitive.
pub open spec fn prim_word() -> Seq<u8> {
    seq![80u8, 82u8, 73u8, 77u8]
}

/// The keyword of a group end.
pub open spec fn cnte_word() -> Seq<u8> {
    seq![67u8, 78u8, 84u8, 69u8]
}

/// Whether `w` is the four bytes `a b c d`.
pub fn is_word(w: &[u8], a: u8, b: u8, c: u8, d: u8) -> (r: bool)
    ensures
        r == (w@ == seq![a, b, c, d]),
{
    if w.len() == 4 && w[0] == a && w[1] == b && w[2] == c && w[3] == d {
        assert(w@ =~= seq![a, b, c, d]);
        true
    } else {
        false
    }
}

/// Reading blocks into the tree whose nodes are `nodes`, the current node being the
/// one at `cur`: each block is a keyword after optional blanks. A group start becomes
/// a new last child of the current node, which it then replaces; a primitive becomes
/// a new last child; a group end becomes a new last child, and the current node's
/// parent becomes current. Any other word (such as `END`) ends the run after that word.
pub open spec fn kinds_text(nodes: Seq<(nat, GroupView)>, cur: int, s: Seq<u8>, sum: u8) -> KindsRun
    decreases s.len(),
{
    match spec_alpha1(ws(s)) {
        Err(e) => KindsRun { nodes, result: Err(e) },
        Ok((r, w)) => {
            proof {
                lemma_ws_len(s);
                lemma_alpha1_len(ws(s));
                lemma_cntb_len(r, sum);
                lemma_cnte_len(r, sum);
                lemma_prim_len(r);
            }
            if w == cntb_word() {
                match spec_parse_cntb(r, sum) {
                    Err(e) => KindsRun { nodes, result: Err(e) },
                    Ok((r2, (sum2, c))) => kinds_text(
                        with_child(nodes, cur, GroupView::CNTB(c)),
                        subtree_end(nodes, cur),
                        r2,
                        sum2,
                    ),
                }
            } else if w == prim_word() {
                match spec_parse_prim(r) {
                    Err(e) => KindsRun { nodes, result: Err(e) },
                    Ok((r2, p)) => kinds_text(with_child(nodes, cur, GroupView::PRIM(p)), cur, r2, sum),
                }
            } else if w == cnte_word() {
                match spec_parse_cnte(r, sum) {
                    Err(e) => KindsRun { nodes, result: Err(e) },
                    Ok((r2, (sum2, _))) => {
                        let n2 = with_child(nodes, cur, GroupView::CNTE);
                        if nodes[cur].0 == 0 {
                            KindsRun { nodes: n2, result: Err(RvmError::NoParent) }
                        } else {
                            kinds_text(n2, parent_pos(n2, cur), r2, sum2)
                        }
                    },
                }
            } else {
                KindsRun { nodes, result: Ok((r, sum)) }
            }
        },
    }
}

/// One block read into a tree: go on from the given input, current node and count;
/// or the run has ended with the given input and count; or it has failed.
pub enum KindsStep<'a> {
    Next(&'a str, NodeId, u8),
    Done(&'a str, u8),
    Fail(RvmError),
}

/// What reading the rest from the tree `t` after one block comes to, given the
/// outcome of that block.
pub open spec fn after_step(t: ModelTree, step: KindsStep) -> KindsRun {
    match step {
        KindsStep::Next(rest, cur, sum) => kinds_text(tree_nodes(t), pos_of(t, cur), rest.spec_bytes(), sum),
        KindsStep::Done(rest, sum) => KindsRun { nodes: tree_nodes(t), result: Ok((rest.spec_bytes(), sum)) },
        KindsStep::Fail(e) => KindsRun { nodes: tree_nodes(t), result: Err(e) },
    }
}

/// Reads one block from `input` into `tree` at the node `cur`.
fn kinds_text_step<'a>(input: &'a str, tree: &mut ModelTree, cur: NodeId, sum: u8) -> (r: KindsStep<'a>)
    requires
        tree_ok(*old(tree)),
        tree_ids(*old(tree)).contains(cur),
    ensures
        tree_ok(*final(tree)),
        keeps_nodes(*old(tree), *final(tree)),
        kinds_text(tree_nodes(*old(tree)), pos_of(*old(tree), cur), input.spec_bytes(), sum)
            == after_step(*final(tree), r),
        r matches KindsStep::Next(rest, c, _) ==> {
            &&& tree_ids(*final(tree)).contains(c)
            &&& rest.spec_bytes().len() < input.spec_bytes().len()
        },
{
    let ghost t0 = *tree;
    let (r1, _) = multispace0(input);
    let (r2, word) = match alpha1(r1) {
        Ok(x) => x,
        Err(e) => return KindsStep::Fail(e),
    };
    proof {
        lemma_ws_len(input.spec_bytes());
        lemma_alpha1_len(ws(input.spec_bytes()));
        lemma_cntb_len(r2.spec_bytes(), sum);
        lemma_cnte_len(r2.spec_bytes(), sum);
        lemma_prim_len(r2.spec_bytes());
    }
    let w = word.as_bytes();
    if is_word(w, 67, 78, 84, 66) {
        let (r3, (sum2, c)) = match parse_cntb(r2, sum) {
            Ok(x) => x,
            Err(e) => return KindsStep::Fail(e),
        };
        let ghost g = Group::CNTB(c)@;
        let id = tree_append(tree, cur, Group::CNTB(c));
        proof {
            lemma_after_append(t0, *tree, cur, id, g);
            lemma_append_keeps(t0, *tree, cur, id, g);
        }
        KindsStep::Next(r3, id, sum2)
    } else if is_word(w, 80, 82, 73, 77) {
        let (r3, p) = match parse_prim(r2) {
            Ok(x) => x,
            Err(e) => return KindsStep::Fail(e),
        };
        let ghost g = Group::PRIM(p)@;
        let id = tree_append(tree, cur, Group::PRIM(p));
        proof {
            lemma_after_append(t0, *tree, cur, id, g);
            lemma_append_keeps(t0, *tree, cur, id, g);
        }
        KindsStep::Next(r3, cur, sum)
    } else if is_word(w, 67, 78, 84, 69) {
        let (r3, (sum2, c)) = match parse_cnte(r2, sum) {
            Ok(x) => x,
            Err(e) => return KindsStep::Fail(e),
        };
        let id = tree_append(tree, cur, Group::CNTE(c));
        proof {
            lemma_after_append(t0, *tree, cur, id, GroupView::CNTE);
            lemma_append_keeps(t0, *tree, cur, id, GroupView::CNTE);
        }
        match tree_parent(tree, cur) {
            None => KindsStep::Fail(RvmError::NoParent),
            Some(p) => {
                proof {
                    lemma_parent_found(*tree, cur);
                }
                KindsStep::Next(r3, p, sum2)
            },
        }
    } else {
        KindsStep::Done(r2, sum)
    }
}

/// Reads blocks from `input` into `tree`, starting at the node `root`, with `sum`
/// groups counted open; gives back the rest of the input after the word that ends the
/// run, and the count of open groups then. Every node the tree had stays, under its
/// id. A group end with no group counted open gives `CountUnderflow`, a group start
/// past 255 open groups `CountOverflow`, a group end at the root `NoParent`, and a block
/// that cannot be read its error: the run stops with an error, never with a panic, and
/// the nodes added until then stay in the tree.
pub fn parse_kinds<'a>(input: &'a str, tree: &mut ModelTree, root: NodeId, sum: u8) -> (r: Result<
    (&'a str, u8),
    RvmError,
>)
    requires
        tree_ok(*old(tree)),
        tree_ids(*old(tree)).contains(root),
    ensures
        tree_ok(*final(tree)),
        keeps_nodes(*old(tree), *final(tree)),
        tree_nodes(*final(tree)) == kinds_text(
            tree_nodes(*old(tree)),
            pos_of(*old(tree), root),
            input.spec_bytes(),
            sum,
        ).nodes,
        text_view(r) == kinds_text(
            tree_nodes(*old(tree)),
            pos_of(*old(tree), root),
            input.spec_bytes(),
            sum,
        ).result,
{
    let ghost run = kinds_text(tree_nodes(*tree), pos_of(*tree, root), input.spec_bytes(), sum);
    let mut cur = root;
    let mut rest = input;
    let ghost old_sum = sum;
    let mut sum = sum;
    #[verifier::loop_isolation(false)]
    loop
        invariant
            tree_ok(*tree),
            keeps_nodes(*old(tree), *tree),
            tree_ids(*tree).contains(cur),
            run == kinds_text(tree_nodes(*tree), pos_of(*tree, cur), rest.spec_bytes(), sum),
            run == kinds_text(tree_nodes(*old(tree)), pos_of(*old(tree), root), input.spec_bytes(), old_sum),
        decreases rest.spec_bytes().len(),
    {
        let ghost before = *tree;
        let step = kinds_text_step(rest, tree, cur, sum);
        proof {
            lemma_keeps_trans(*old(tree), before, *tree);
        }
        match step {
            KindsStep::Next(r, c, s) => {
                rest = r;
                cur = c;
                sum = s;
            },
            KindsStep::Done(r, s) => return Ok((r, s)),
            KindsStep::Fail(e) => return Err(e),
        }
    }
}

/// A whole text model: the header, the model block, then the blocks that fill the
/// tree whose root holds the header and whose first child holds the model block,
/// starting at the root with no group open. The tree's nodes, or why the model could
/// not be read.
pub open spec fn spec_read_text_model(s: Seq<u8>) -> Result<Seq<(nat, GroupView)>, RvmError> {
    match spec_parse_head(s) {
        Err(e) => Err(e),
        Ok((s1, h)) => match spec_parse_modl(s1) {
            Err(e) => Err(e),
            Ok((s2, m)) => {
                let run = kinds_text(seq![(0nat, GroupView::Head(h)), (1nat, GroupView::MODL(m))], 0, s2, 0);
                match run.result {
                    Ok(_) => Ok(run.nodes),
                    Err(e) => Err(e),
                }
            },
        },
    }
}

/// Reads a whole text model into a tree.
pub fn read_text_model(file: &str) -> (r: Result<ModelTree, RvmError>)
    ensures
        match r {
            Ok(t) => tree_ok(t) && spec_read_text_model(file.spec_bytes()) == Ok::<
                Seq<(nat, GroupView)>,
                RvmError,
            >(tree_nodes(t)),
            Err(e) => spec_read_text_model(file.spec_bytes()) == Err::<Seq<(nat, GroupView)>, RvmError>(e),
        },
{
    let (input, head) = parse_head(file)?;
    let (input, modl) = parse_modl(input)?;
    let ghost hv = head@;
    let ghost mv = modl@;
    let (mut tree, root) = ModelTree::with_root(Group::Head(head));
    assert(tree_ids(tree)[0] == root);
    let ghost t1 = tree;
    let id = tree_append(&mut tree, root, Group::MODL(modl));
    proof {
        lemma_after_append(t1, tree, root, id, GroupView::MODL(mv));
        assert(tree_nodes(tree) =~= seq![(0nat, GroupView::Head(hv)), (1nat, GroupView::MODL(mv))]);
    }
    let (_, _) = parse_kinds(input, &mut tree, root, 0)?;
    Ok(tree)
}

/// A run of text blocks that starts at a node on the last path of the tree only adds
/// nodes at the end: the nodes it started with stay in front, in order.
pub proof fn law_text_run_grows_at_end(nodes: Seq<(nat, GroupView)>, cur: int, s: Seq<u8>, sum: u8)
    requires
        depths_wf(nodes),
        0 <= cur < nodes.len(),
        on_last_path(nodes, cur),
    ensures
        kinds_text(nodes, cur, s, sum).nodes.len() >= nodes.len(),
        kinds_text(nodes, cur, s, sum).nodes.take(nodes.len() as int) == nodes,
    decreases s.len(),
{
    let fin = kinds_text(nodes, cur, s, sum).nodes;
    match spec_alpha1(ws(s)) {
        Err(_) => {
            assert(fin.take(nodes.len() as int) =~= nodes);
        },
        Ok((r, w)) => {
            lemma_ws_len(s);
            lemma_alpha1_len(ws(s));
            lemma_cntb_len(r, sum);
            lemma_cnte_len(r, sum);
            lemma_prim_len(r);
            if w == cntb_word() {
                match spec_parse_cntb(r, sum) {
                    Err(_) => {
                        assert(fin.take(nodes.len() as int) =~= nodes);
                    },
                    Ok((r2, (sum2, c))) => {
                        let g = GroupView::CNTB(c);
                        lemma_last_path_child(nodes, cur, g);
                        let n2 = with_child(nodes, cur, g);
                        law_text_run_grows_at_end(n2, nodes.len() as int, r2, sum2);
                        assert(fin.take(nodes.len() as int) =~= fin.take(n2.len() as int).take(
                            nodes.len() as int,
                        ));
                        assert(n2.take(nodes.len() as int) =~= nodes);
                    },
                }
            } else if w == prim_word() {
                match spec_parse_prim(r) {
                    Err(_) => {
                        assert(fin.take(nodes.len() as int) =~= nodes);
                    },
                    Ok((r2, p)) => {
                        let g = GroupView::PRIM(p);
                        lemma_last_path_child(nodes, cur, g);
                        let n2 = with_child(nodes, cur, g);
                        law_text_run_grows_at_end(n2, cur, r2, sum);
                        assert(fin.take(nodes.len() as int) =~= fin.take(n2.len() as int).take(
                            nodes.len() as int,
                        ));
                        assert(n2.take(nodes.len() as int) =~= nodes);
                    },
                }
            } else if w == cnte_word() {
                match spec_parse_cnte(r, sum) {
                    Err(_) => {
                        assert(fin.take(nodes.len() as int) =~= nodes);
                    },
                    Ok((r2, (sum2, _))) => {
                        let g = GroupView::CNTE;
                        lemma_last_path_child(nodes, cur, g);
                        let n2 = with_child(nodes, cur, g);
                        assert(n2.take(nodes.len() as int) =~= nodes);
                        if nodes[cur].0 != 0 {
                            assert(n2[cur] == nodes[cur]);
                            lemma_last_path_parent(n2, cur);
                            law_text_run_grows_at_end(n2, parent_pos(n2, cur), r2, sum2);
                            assert(fin.take(nodes.len() as int) =~= fin.take(n2.len() as int).take(
                                nodes.len() as int,
                            ));
                        }
                    },
                }
            } else {
                assert(fin.take(nodes.len() as int) =~= nodes);
            }
        },
    }
}

/// The count of open groups tracks the nesting: a run of text blocks that starts with
/// no more groups counted open than the current node's depth never reaches a group end
/// at the root, and when it ends normally, its count is the starting count plus the
/// group starts it added minus the group ends it added.
pub proof fn law_text_run_balance(nodes: Seq<(nat, GroupView)>, cur: int, s: Seq<u8>, sum: u8)
    requires
        depths_wf(nodes),
        0 <= cur < nodes.len(),
        sum <= nodes[cur].0,
    ensures
        !(kinds_text(nodes, cur, s, sum).result matches Err(RvmError::NoParent)),
        kinds_text(nodes, cur, s, sum).result matches Ok((_, s2)) ==> s2 == sum + open_groups(
            kinds_text(nodes, cur, s, sum).nodes,
        ) - open_groups(nodes),
    decreases s.len(),
{
    reveal(spec_parse_cntb);
    reveal(spec_parse_cnte);
    match spec_alpha1(ws(s)) {
        Err(_) => {},
        Ok((r, w)) => {
            lemma_ws_len(s);
            lemma_alpha1_len(ws(s));
            lemma_cntb_len(r, sum);
            lemma_cnte_len(r, sum);
            lemma_block_errors(r, sum);
            lemma_prim_len(r);
            if w == cntb_word() {
                match spec_parse_cntb(r, sum) {
                    Err(_) => {},
                    Ok((r2, (sum2, c))) => {
                        reveal(spec_parse_cntb);
                        let g = GroupView::CNTB(c);
                        lemma_append_wf(nodes, cur, g);
                        let e = subtree_end(nodes, cur);
                        let n2 = with_child(nodes, cur, g);
                        nodes.insert_ensures(e, ((nodes[cur].0 + 1) as nat, g));
                        lemma_open_groups_insert(nodes, e, ((nodes[cur].0 + 1) as nat, g));
                        law_text_run_balance(n2, e, r2, sum2);
                    },
                }
            } else if w == prim_word() {
                match spec_parse_prim(r) {
                    Err(_) => {},
                    Ok((r2, p)) => {
                        let g = GroupView::PRIM(p);
                        lemma_append_wf(nodes, cur, g);
                        let e = subtree_end(nodes, cur);
                        let n2 = with_child(nodes, cur, g);
                        nodes.insert_ensures(e, ((nodes[cur].0 + 1) as nat, g));
                        lemma_open_groups_insert(nodes, e, ((nodes[cur].0 + 1) as nat, g));
                        law_text_run_balance(n2, cur, r2, sum);
                    },
                }
            } else if w == cnte_word() {
                match spec_parse_cnte(r, sum) {
                    Err(_) => {},
                    Ok((r2, (sum2, _))) => {
                        reveal(spec_parse_cnte);
                        let g = GroupView::CNTE;
                        lemma_append_wf(nodes, cur, g);
                        let e = subtree_end(nodes, cur);
                        let n2 = with_child(nodes, cur, g);
                        nodes.insert_ensures(e, ((nodes[cur].0 + 1) as nat, g));
                        lemma_open_groups_insert(nodes, e, ((nodes[cur].0 + 1) as nat, g));
                        assert(n2[cur] == nodes[cur]);
                        let t = (nodes[cur].0 - 1) as nat;
                        lemma_last_exists(n2, cur, t);
                        lemma_last_at_depth(n2, cur, t);
                        assert(sum >= 1 && nodes[cur].0 >= 1);
                        law_text_run_balance(n2, parent_pos(n2, cur), r2, sum2);
                    },
                }
            } else {
            }
        },
    }
}

/// A model read from text has its header at the root and its model block as the root's
/// first child, ahead of every node the blocks added; and reading it never reaches a
/// group end at the root, since the count of open groups starts at 0 there.
pub proof fn law_text_model_shape(s: Seq<u8>)
    ensures
        spec_read_text_model(s) matches Ok(nodes) ==> {
            &&& spec_parse_head(s) matches Ok((s1, h))
            &&& spec_parse_modl(s1) matches Ok((_, m))
            &&& nodes.len() >= 2
            &&& nodes[0] == (0nat, GroupView::Head(h))
            &&& nodes[1] == (1nat, GroupView::MODL(m))
        },
        !(spec_read_text_model(s) matches Err(RvmError::NoParent)),
{
    if let Ok((s1, _)) = spec_take_until(s, 72u8) {
        if let Ok((s2, _)) = spec_alpha1(s1) {
            lemma_floats_err(s2, 2);
        }
    }
    if let Ok((s1, h)) = spec_parse_head(s) {
        if let Ok((r, _)) = spec_alpha1(ws(s1)) {
            lemma_floats_err(r, 2);
        }
        if let Ok((s2, m)) = spec_parse_modl(s1) {
            let nodes = seq![(0nat, GroupView::Head(h)), (1nat, GroupView::MODL(m))];
            assert(depth_step(nodes, 1));
            assert(depths_wf(nodes));
            lemma_first_at_most_none(nodes, 1, 0);
            law_text_run_grows_at_end(nodes, 0, s2, 0);
            law_text_run_balance(nodes, 0, s2, 0);
            let fin = kinds_text(nodes, 0, s2, 0).nodes;
            assert(fin.take(2)[0] == fin[0]);
            assert(fin.take(2)[1] == fin[1]);
        }
    }
}

/// Where a run of text blocks puts each node: every node it adds is a child of the
/// group still open when it is read, so a node added after the start node (at depth
/// `d`) stands at depth `d + 1` plus the group starts minus the group ends added before
/// it. After a group end the next block goes to the closed group's parent, at every
/// depth.
pub proof fn law_text_run_depths(nodes: Seq<(nat, GroupView)>, cur: int, s: Seq<u8>, sum: u8)
    requires
        depths_wf(nodes),
        0 <= cur < nodes.len(),
        on_last_path(nodes, cur),
    ensures
        forall|k: int|
            nodes.len() <= k < kinds_text(nodes, cur, s, sum).nodes.len() ==> #[trigger] kinds_text(
                nodes,
                cur,
                s,
                sum,
            ).nodes[k].0 == nodes[cur].0 + 1 + open_groups(
                kinds_text(nodes, cur, s, sum).nodes.subrange(nodes.len() as int, k),
            ),
    decreases s.len(),
{
    let fin = kinds_text(nodes, cur, s, sum).nodes;
    let len = nodes.len() as int;
    let d = nodes[cur].0;
    law_text_run_grows_at_end(nodes, cur, s, sum);
    match spec_alpha1(ws(s)) {
        Err(_) => {},
        Ok((r, w)) => {
            lemma_ws_len(s);
            lemma_alpha1_len(ws(s));
            lemma_cntb_len(r, sum);
            lemma_cnte_len(r, sum);
            lemma_prim_len(r);
            if w == cntb_word() {
                match spec_parse_cntb(r, sum) {
                    Err(_) => {},
                    Ok((r2, (sum2, c))) => {
                        let g = GroupView::CNTB(c);
                        lemma_last_path_child(nodes, cur, g);
                        let n2 = with_child(nodes, cur, g);
                        law_text_run_grows_at_end(n2, len, r2, sum2);
                        law_text_run_depths(n2, len, r2, sum2);
                        assert(fin[len] == fin.take(n2.len() as int)[len]);
                        assert forall|k: int| len <= k < fin.len() implies #[trigger] fin[k].0 == d + 1
                            + open_groups(fin.subrange(len, k)) by {
                            if k > len {
                                lemma_open_groups_first(fin, len, k);
                            } else {
                                assert(fin.subrange(len, k) =~= Seq::<(nat, GroupView)>::empty());
                            }
                        }
                    },
                }
            } else if w == prim_word() {
                match spec_parse_prim(r) {
                    Err(_) => {},
                    Ok((r2, p)) => {
                        let g = GroupView::PRIM(p);
                        lemma_last_path_child(nodes, cur, g);
                        let n2 = with_child(nodes, cur, g);
                        law_text_run_grows_at_end(n2, cur, r2, sum);
                        law_text_run_depths(n2, cur, r2, sum);
                        assert(n2[cur] == nodes[cur]);
                        assert(fin[len] == fin.take(n2.len() as int)[len]);
                        assert forall|k: int| len <= k < fin.len() implies #[trigger] fin[k].0 == d + 1
                            + open_groups(fin.subrange(len, k)) by {
                            if k > len {
                                lemma_open_groups_first(fin, len, k);
                            } else {
                                assert(fin.subrange(len, k) =~= Seq::<(nat, GroupView)>::empty());
                            }
                        }
                    },
                }
            } else if w == cnte_word() {
                match spec_parse_cnte(r, sum) {
                    Err(_) => {},
                    Ok((r2, (sum2, _))) => {
                        let g = GroupView::CNTE;
                        lemma_last_path_child(nodes, cur, g);
                        let n2 = with_child(nodes, cur, g);
                        if d == 0 {
                            assert forall|k: int| len <= k < fin.len() implies #[trigger] fin[k].0 == d + 1
                                + open_groups(fin.subrange(len, k)) by {
                                assert(fin.subrange(len, k) =~= Seq::<(nat, GroupView)>::empty());
                            }
                        } else {
                            assert(n2[cur] == nodes[cur]);
                            lemma_last_path_parent(n2, cur);
                            let pp = parent_pos(n2, cur);
                            law_text_run_grows_at_end(n2, pp, r2, sum2);
                            law_text_run_depths(n2, pp, r2, sum2);
                            assert(fin[len] == fin.take(n2.len() as int)[len]);
                            assert forall|k: int| len <= k < fin.len() implies #[trigger] fin[k].0 == d + 1
                                + open_groups(fin.subrange(len, k)) by {
                                if k > len {
                                    lemma_open_groups_first(fin, len, k);
                                } else {
                                    assert(fin.subrange(len, k) =~= Seq::<(nat, GroupView)>::empty());
                                }
                            }
                        }
                    },
                }
            } else {
            }
        },
    }
}

} // verus!
