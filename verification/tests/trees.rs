use sch_engine::tree::{collect, prune, replace_leaf, take_leaf, tree_ids, Tree};

fn part(id: &str) -> Tree {
    Tree::leaf(id)
}

fn row(v: Vec<Tree>) -> Tree {
    Tree::row_of(v, 0, "center")
}

fn col(v: Vec<Tree>) -> Tree {
    Tree::col_of(v, 0, "center")
}

/// The shape of a tree in brackets.
fn shape(t: &Tree) -> String {
    let mut s = t.style.part.clone().unwrap_or_default();
    if t.is_row {
        s += &format!("[{}]", t.row.iter().map(shape).collect::<Vec<_>>().join(" "));
    }
    if t.is_col {
        s += &format!("({})", t.col.iter().map(shape).collect::<Vec<_>>().join(" "));
    }
    s
}

#[test]
fn tree_ids_walks_rows_and_cols_in_order() {
    assert_eq!(
        tree_ids(&row(vec![part("J1"), col(vec![part("C1"), part("C2")]), part("U2")])),
        ["J1", "C1", "C2", "U2"]
    );
    assert_eq!(tree_ids(&part("5")), ["5"]);
    let mut empty = part("x");
    empty.style.part = None;
    assert_eq!(tree_ids(&empty), Vec::<String>::new());
    let mut both = row(vec![part("R2")]);
    both.style.part = Some("R1".to_string());
    assert_eq!(tree_ids(&both), ["R1", "R2"]);
}

#[test]
fn take_and_prune_remove_the_leaf_and_empty_containers() {
    let tree = row(vec![part("U1"), col(vec![part("U1#2")])]);
    let (tree, got) = take_leaf(&tree, "U1#2");
    assert_eq!(shape(&got.unwrap()), "U1#2");
    let (tree, _) = prune(&tree);
    assert_eq!(shape(&tree), "[U1]");
    assert!(take_leaf(&tree, "nope").1.is_none());
}

#[test]
fn replace_leaf_swaps_in_place() {
    let tree = col(vec![row(vec![part("A"), part("B")])]);
    let (tree, done) = replace_leaf(&tree, "B", &row(vec![part("B"), part("X")]));
    assert!(done);
    assert_eq!(shape(&tree), "([A [B X]])");
    assert!(!replace_leaf(&tree, "Z", &part("Z")).1);
}

#[test]
fn collect_canonicalises_unit_keys() {
    let unit = |id: &str, n: i32| {
        let mut t = part(id);
        t.style.unit = n;
        t
    };
    let tree = row(vec![unit("U1", 2), part("U1"), unit("U2", 1)]);
    let (tree, ids) = collect(&tree);
    assert_eq!(ids, ["U1#2", "U1", "U2"]);
    assert_eq!(tree.row[0].style.part.as_deref(), Some("U1#2"));
}
