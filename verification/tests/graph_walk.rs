use tektite::graph::node_tags;
use tektite::neighborhood::{graph_edges, NeighborhoodWalk};

fn s(x: &str) -> String {
    x.to_string()
}

fn e(a: &str, b: &str) -> (String, String) {
    (a.to_string(), b.to_string())
}

#[test]
fn walk_expands_breadth_first_within_depth() {
    // center -> a -> b, depth 1: only a is admitted.
    let mut w = NeighborhoodWalk::new("center", 1);
    assert_eq!(w.next_node(), Some(s("center")));
    assert!(w.needs_verdict("a"));
    assert!(w.consider_target("a", true));
    assert!(!w.needs_verdict("a"));
    // `a` was queued at depth 1 == limit: it is never expanded.
    assert_eq!(w.next_node(), None);
    assert_eq!(w.admitted_notes(), vec![s("center"), s("a")]);
    let kept = w.admitted_notes();
    assert_eq!(w.edges_within(&kept), vec![e("center", "a")]);
}

#[test]
fn walk_depth_is_clamped() {
    let mut w = NeighborhoodWalk::new("c", 0);
    assert_eq!(w.next_node(), Some(s("c")));
    assert!(w.consider_target("x", true));
    assert_eq!(w.next_node(), None);

    let mut deep = NeighborhoodWalk::new("c", 9);
    assert_eq!(deep.next_node(), Some(s("c")));
    assert!(deep.consider_target("x", true));
    assert_eq!(deep.next_node(), Some(s("x")));
    assert!(deep.consider_target("y", true));
    assert_eq!(deep.next_node(), Some(s("y")));
    assert!(deep.consider_target("z", true));
    // z is queued at depth 3, the limit, so it is never expanded.
    assert_eq!(deep.next_node(), None);
    assert_eq!(deep.admitted_notes(), vec![s("c"), s("x"), s("y"), s("z")]);
}

#[test]
fn excluded_notes_stay_excluded_and_record_no_edge() {
    let mut w = NeighborhoodWalk::new("c", 2);
    assert_eq!(w.next_node(), Some(s("c")));
    assert!(!w.consider_target("skip", false));
    // A later verdict is ignored once a note is excluded.
    assert!(!w.needs_verdict("skip"));
    assert!(!w.consider_source("skip", true));
    assert!(w.consider_source("in", true));
    // Self-links are skipped.
    assert!(!w.consider_target("c", true));
    let kept = w.admitted_notes();
    assert_eq!(kept, vec![s("c"), s("in")]);
    assert_eq!(w.edges_within(&kept), vec![e("in", "c")]);
}

#[test]
fn edges_are_recorded_once() {
    let mut w = NeighborhoodWalk::new("c", 2);
    assert_eq!(w.next_node(), Some(s("c")));
    assert!(w.consider_target("a", true));
    assert!(w.consider_target("a", false));
    assert_eq!(w.next_node(), Some(s("a")));
    // a -> c is a different edge from c -> a.
    assert!(w.consider_target("c", true));
    assert!(w.consider_source("c", true));
    let kept = w.admitted_notes();
    assert_eq!(w.edges_within(&kept), vec![e("a", "c"), e("c", "a")]);
    // Pruned nodes take their edges with them.
    assert_eq!(w.edges_within(&vec![s("c")]), Vec::<(String, String)>::new());
}

#[test]
fn graph_edges_filter_dedup_and_sort() {
    let rows = vec![e("b", "a"), e("a", "b"), e("a", "a"), e("b", "a"), e("a", "z"), e("a", "c")];
    let kept = vec![s("a"), s("b"), s("c")];
    assert_eq!(graph_edges(&rows, &kept), vec![e("a", "b"), e("a", "c"), e("b", "a")]);
    let mut reversed = rows.clone();
    reversed.reverse();
    assert_eq!(graph_edges(&reversed, &kept), graph_edges(&rows, &kept));
}

#[test]
fn node_tags_are_sorted_and_unique() {
    let tags = vec![s("work"), s("alpha"), s("work"), s("Alpha"), s("alpha")];
    assert_eq!(node_tags(tags), vec![s("Alpha"), s("alpha"), s("work")]);
    assert_eq!(node_tags(Vec::new()), Vec::<String>::new());
}

fn run_chain(depth: u8) -> Vec<String> {
    // The chain c -> x -> y -> z -> w, driven the same way whatever the depth.
    let chain = ["c", "x", "y", "z", "w"];
    let mut walk = NeighborhoodWalk::new("c", depth);
    while let Some(node) = walk.next_node() {
        if let Some(i) = chain.iter().position(|n| *n == node) {
            if i + 1 < chain.len() {
                walk.consider_target(chain[i + 1], true);
            }
        }
    }
    walk.admitted_notes()
}

#[test]
fn a_depth_walks_as_its_clamp() {
    assert_eq!(run_chain(99), run_chain(3));
    assert_eq!(run_chain(0), run_chain(1));
    assert_eq!(run_chain(99), vec![s("c"), s("x"), s("y"), s("z")]);
    assert_eq!(run_chain(0), vec![s("c"), s("x")]);
}
