use train_core::map::{Node, NodeKind, TrackMap};
use train_core::GameConfig;

fn map(level: u32) -> TrackMap {
    TrackMap::generate(&GameConfig::new(0xABCD, level))
}

#[test]
fn deterministic() {
    assert_eq!(map(5), map(5));
    assert_eq!(TrackMap::generate(&GameConfig::new(1, 3)), TrackMap::generate(&GameConfig::new(1, 3)));
}

#[test]
fn different_seeds_usually_differ() {
    let a = TrackMap::generate(&GameConfig::new(1, 4));
    let b = TrackMap::generate(&GameConfig::new(2, 4));
    assert_ne!(a, b);
}

#[test]
fn is_a_valid_tree() {
    let m = map(6);
    assert_eq!(m.nodes[m.root].parent, None);
    assert_eq!(m.nodes.iter().filter(|n| n.parent.is_none()).count(), 1);
    for (i, n) in m.nodes.iter().enumerate() {
        for &c in &n.children {
            assert_eq!(m.nodes[c].parent, Some(i));
        }
    }
}

#[test]
fn all_nodes_reachable_from_root() {
    let m = map(6);
    let mut seen = vec![false; m.nodes.len()];
    let mut stack = vec![m.root];
    while let Some(i) = stack.pop() {
        if seen[i] {
            continue;
        }
        seen[i] = true;
        stack.extend(m.nodes[i].children.iter().copied());
    }
    assert!(seen.iter().all(|&s| s), "some nodes unreachable from root");
}

#[test]
fn stations_have_unique_sequential_labels() {
    let m = map(6);
    assert!(!m.stations.is_empty());
    assert_eq!(m.labels.len(), m.stations.len());
    let expected: Vec<u32> = (1..=m.stations.len() as u32).collect();
    assert_eq!(m.labels, expected);
    for &s in &m.stations {
        assert!(matches!(m.nodes[s].kind, NodeKind::Station { .. }));
    }
}

#[test]
fn dead_ends_respect_the_cap() {
    for level in 1..30 {
        let cfg = GameConfig::new(777, level);
        let m = TrackMap::generate(&cfg);
        let de = m.nodes.iter().filter(|n| n.kind == NodeKind::DeadEnd).count() as u32;
        assert!(de <= cfg.max_dead_ends, "level {level}: {de} dead-ends");
        assert!(!m.stations.is_empty(), "level {level} has no stations");
    }
}

#[test]
fn next_follows_switch_state() {
    let m = map(5);
    let sw = m.nodes.iter().position(|n| n.is_switch()).unwrap();
    assert_eq!(m.next(sw, false), Some(m.nodes[sw].children[0]));
    assert_eq!(m.next(sw, true), Some(m.nodes[sw].children[1]));
    let st = m.stations[0];
    assert_eq!(m.next(st, false), None);
}

#[test]
fn leaves_are_stations_or_dead_ends_and_inner_nodes_are_track() {
    for level in 1..12 {
        let m = map(level);
        for n in &m.nodes {
            if n.is_terminal() {
                assert!(matches!(n.kind, NodeKind::Station { .. } | NodeKind::DeadEnd));
            } else {
                assert_eq!(n.kind, NodeKind::Track);
                assert!(n.children.len() <= 2);
            }
        }
        let leaves = m.nodes.iter().filter(|n| n.is_terminal()).count();
        let dead = m.nodes.iter().filter(|n| n.kind == NodeKind::DeadEnd).count();
        assert_eq!(m.stations.len() + dead, leaves);
    }
}

#[test]
fn bounds_cover_every_node() {
    let m = map(7);
    assert_eq!(m.width, m.nodes.iter().map(|n| n.pos.x).max().unwrap() + 1);
    assert_eq!(m.height, m.nodes.iter().map(|n| n.pos.y).max().unwrap() + 1);
    assert_eq!(m.root, 0);
    assert_eq!(m.nodes[0].pos.x, 0);
    for n in &m.nodes {
        if n.is_terminal() {
            assert_eq!(n.pos.y % 2, 0);
        }
        for &c in &n.children {
            assert_eq!(m.nodes[c].pos.x, n.pos.x + 1);
        }
    }
}

#[test]
fn straight_track_goes_to_its_only_child() {
    let m = map(8);
    if let Some(i) = m.nodes.iter().position(|n| n.children.len() == 1) {
        assert_eq!(m.next(i, false), Some(m.nodes[i].children[0]));
        assert_eq!(m.next(i, true), Some(m.nodes[i].children[0]));
        assert!(!m.nodes[i].is_switch());
    }
    let leaf = Node { pos: train_core::Pos::new(0, 0), parent: None, children: Vec::new(), kind: NodeKind::DeadEnd };
    assert!(leaf.is_terminal());
    assert!(!leaf.is_switch());
}
