use hackerman::feat_graph::FeatGraph2;
use hackerman::ident::Fid;
use hackerman::ident::Link;
use hackerman::ident::Pid;
use hackerman::metadata::Metadata;
use hackerman::metadata::Node;
use hackerman::metadata::Package;

struct Dice(u64);

impl Dice {
    fn roll(&mut self, sides: u64) -> u64 {
        self.0 = self.0.wrapping_mul(6364136223846793005).wrapping_add(1442695040888963407);
        (self.0 >> 33) % sides
    }
}

fn plain_snapshot(packages: usize, members: usize) -> Metadata {
    Metadata {
        packages: (0..packages)
            .map(|i| Package {
                name: format!("p{i}"),
                version: "1.0.0".to_string(),
                id: format!("p{i} 1.0.0"),
                dependencies: vec![],
                features: vec![],
                targets: vec![],
            })
            .collect(),
        workspace_members: (0..members).map(|i| format!("p{i} 1.0.0")).collect(),
        resolve: Some((0..packages).map(|i| Node { id: format!("p{i} 1.0.0"), deps: vec![] }).collect()),
    }
}

fn random_edges(dice: &mut Dice, nodes: usize, count: usize, forward: bool) -> Vec<(usize, usize)> {
    let mut edges = Vec::new();
    let mut made = 0;
    while made < count {
        let a = dice.roll(nodes as u64) as usize;
        let b = dice.roll(nodes as u64) as usize;
        if a == b {
            continue;
        }
        if forward {
            edges.push((a.min(b), a.max(b)));
        } else {
            edges.push((a, b));
        }
        made += 1;
    }
    edges
}

fn build<'a>(meta: &'a Metadata, edges: &[(usize, usize)]) -> (FeatGraph2<'a>, Vec<usize>) {
    let mut graph = FeatGraph2::new(meta);
    let mut ids = Vec::new();
    for ix in 0..meta.packages.len() {
        ids.push(graph.fid_index(Fid(Pid::new(ix, meta).unwrap(), None)).unwrap());
    }
    for (a, b) in edges {
        graph.add_edge(ids[*a], ids[*b], Link::unconditional()).unwrap();
    }
    (graph, ids)
}

fn pairs(graph: &FeatGraph2) -> Vec<(usize, usize)> {
    let mut pairs: Vec<(usize, usize)> = graph.edges().into_iter().map(|e| (e.0, e.1)).collect();
    pairs.sort();
    pairs
}

fn closure(nodes: usize, edges: &[(usize, usize)]) -> Vec<Vec<bool>> {
    let mut reach = vec![vec![false; nodes]; nodes];
    for (a, b) in edges {
        reach[*a][*b] = true;
    }
    for k in 0..nodes {
        for i in 0..nodes {
            for j in 0..nodes {
                if reach[i][k] && reach[k][j] {
                    reach[i][j] = true;
                }
            }
        }
    }
    reach
}

#[test]
fn reduction_keeps_exactly_the_edges_without_detour() {
    let mut dice = Dice(7);
    for round in 0..60 {
        let nodes = 2 + round % 9;
        let meta = plain_snapshot(nodes, 0);
        let edges = random_edges(&mut dice, nodes, round % 17, true);
        let (mut graph, ids) = build(&meta, &edges);
        assert_eq!(graph.transitive_reduction(), Ok(()));
        let reach = closure(nodes, &edges);
        let mut want: Vec<(usize, usize)> = edges
            .iter()
            .filter(|(a, b)| !(0..nodes).any(|k| reach[*a][k] && reach[k][*b]))
            .map(|(a, b)| (ids[*a], ids[*b]))
            .collect();
        want.sort();
        assert_eq!(pairs(&graph), want);
        let mut left: Vec<(usize, usize)> = Vec::new();
        for (s, t) in pairs(&graph) {
            let a = ids.iter().position(|id| *id == s).unwrap();
            let b = ids.iter().position(|id| *id == t).unwrap();
            left.push((a, b));
        }
        assert_eq!(closure(nodes, &left), reach);
        assert_eq!(graph.node_ids().len(), nodes + 1);
    }
}

#[test]
fn cycles_are_found_wherever_they_are() {
    let mut dice = Dice(11);
    for round in 0..60 {
        let nodes = 2 + round % 7;
        let meta = plain_snapshot(nodes, 0);
        let edges = random_edges(&mut dice, nodes, 1 + round % 9, false);
        let (mut graph, _) = build(&meta, &edges);
        let reach = closure(nodes, &edges);
        let cyclic = (0..nodes).any(|i| reach[i][i]);
        let before = pairs(&graph);
        let outcome = graph.transitive_reduction();
        assert_eq!(outcome.is_err(), cyclic);
        if cyclic {
            assert_eq!(pairs(&graph), before);
        }
    }
}

#[test]
fn trimming_features_leaves_what_is_required() {
    let mut dice = Dice(23);
    for round in 0..80 {
        let nodes = 2 + round % 9;
        let members = round % 3;
        let meta = plain_snapshot(nodes, members);
        let edges = random_edges(&mut dice, nodes, round % 13, round % 2 == 0);
        let (mut graph, ids) = build(&meta, &edges);
        let mut kept = vec![true; nodes];
        loop {
            let doomed: Vec<usize> = (0..nodes)
                .filter(|n| kept[*n] && *n >= members && !edges.iter().any(|(a, b)| b == n && kept[*a]))
                .collect();
            if doomed.is_empty() {
                break;
            }
            for n in doomed {
                kept[n] = false;
            }
        }
        graph.trim_unused_features();
        let mut want_nodes: Vec<usize> = (0..nodes).filter(|n| kept[*n]).map(|n| ids[n]).collect();
        want_nodes.push(graph.root);
        want_nodes.sort();
        let mut nodes_left = graph.node_ids();
        nodes_left.sort();
        assert_eq!(nodes_left, want_nodes);
        let mut want_edges: Vec<(usize, usize)> = edges
            .iter()
            .filter(|(a, b)| kept[*a] && kept[*b])
            .map(|(a, b)| (ids[*a], ids[*b]))
            .collect();
        want_edges.sort();
        assert_eq!(pairs(&graph), want_edges);
        for n in 0..nodes {
            assert_eq!(graph.contains(ids[n]), kept[n]);
        }
    }
}

#[test]
fn trimming_platforms_removes_the_starved_nodes_and_their_edges() {
    let mut dice = Dice(31);
    for round in 0..80 {
        let nodes = 2 + round % 9;
        let meta = plain_snapshot(nodes, 0);
        let edges = random_edges(&mut dice, nodes, round % 13, false);
        let (mut graph, ids) = build(&meta, &edges);
        let mut starved = vec![false; nodes];
        for n in 0..nodes {
            match dice.roll(3) {
                0 => {
                    starved[n] = true;
                    graph.platforms[ids[n]] = Some(vec![]);
                }
                1 => graph.platforms[ids[n]] = Some(vec!["x86_64-unknown-linux-gnu"]),
                _ => {}
            }
        }
        graph.trim_unused_platforms();
        let mut want_nodes: Vec<usize> = (0..nodes).filter(|n| !starved[*n]).map(|n| ids[n]).collect();
        want_nodes.push(graph.root);
        want_nodes.sort();
        let mut nodes_left = graph.node_ids();
        nodes_left.sort();
        assert_eq!(nodes_left, want_nodes);
        let mut want_edges: Vec<(usize, usize)> = edges
            .iter()
            .filter(|(a, b)| !starved[*a] && !starved[*b])
            .map(|(a, b)| (ids[*a], ids[*b]))
            .collect();
        want_edges.sort();
        assert_eq!(pairs(&graph), want_edges);
    }
}

#[test]
fn search_finds_what_is_reachable() {
    let mut dice = Dice(43);
    for round in 0..60 {
        let nodes = 2 + round % 9;
        let meta = plain_snapshot(nodes, 0);
        let edges = random_edges(&mut dice, nodes, round % 15, false);
        let (mut graph, ids) = build(&meta, &edges);
        let gone = dice.roll(nodes as u64) as usize;
        graph.platforms[ids[gone]] = Some(vec![]);
        graph.trim_unused_platforms();
        let left: Vec<(usize, usize)> =
            edges.iter().filter(|(a, b)| *a != gone && *b != gone).copied().collect();
        let reach = closure(nodes, &left);
        for from in 0..nodes {
            let mut found = graph.reachable(ids[from]);
            found.sort();
            let mut want: Vec<usize> = (0..nodes)
                .filter(|to| from != gone && (*to == from || reach[from][*to]))
                .map(|to| ids[to])
                .collect();
            want.sort();
            assert_eq!(found, want);
        }
    }
}

#[test]
fn platforms_reach_what_the_root_reaches() {
    let mut dice = Dice(59);
    for round in 0..60 {
        let nodes = 2 + round % 9;
        let meta = plain_snapshot(nodes, 0);
        let edges = random_edges(&mut dice, nodes, round % 15, false);
        let (mut graph, ids) = build(&meta, &edges);
        let start = dice.roll(nodes as u64) as usize;
        graph.add_edge(graph.root, ids[start], Link::unconditional()).unwrap();
        let requested = vec!["x86_64-unknown-linux-gnu", "x86_64-pc-windows-msvc"];
        assert_eq!(graph.fill_in_platforms(requested.clone()), Ok(()));
        let reach = closure(nodes, &edges);
        for n in 0..nodes {
            let reached = n == start || reach[start][n];
            let given = graph.platforms[ids[n]].clone();
            assert_eq!(given, if reached { Some(requested.clone()) } else { None });
        }
        assert_eq!(graph.platforms[graph.root], None);
    }
}
