use std::cmp::Reverse;
use std::collections::BinaryHeap;

use streamchat::hexpath::{generate_map_seeded, parse_map, parse_map_rows, Grid};
use streamchat::pathfind::{dijkstra_max, dijkstra_min};

/// Dijkstra over a binary heap, parents by strict improvement: the search
/// the library's scan-based queue is meant to reproduce.
fn heap_search(cells: &[Vec<u8>]) -> (Vec<(usize, usize)>, u32) {
    let h = cells.len();
    let w = cells[0].len();
    let mut dist = vec![vec![u32::MAX; w]; h];
    let mut parent: Vec<Vec<Option<(usize, usize)>>> = vec![vec![None; w]; h];
    let mut heap = BinaryHeap::new();
    heap.push(Reverse((0u32, 0usize, 0usize)));
    dist[0][0] = 0;
    while let Some(Reverse((cost, x, y))) = heap.pop() {
        if (x, y) == (w - 1, h - 1) {
            break;
        }
        if cost > dist[y][x] {
            continue;
        }
        let mut ns = Vec::new();
        if x > 0 {
            ns.push((x - 1, y));
        }
        if x < w - 1 {
            ns.push((x + 1, y));
        }
        if y > 0 {
            ns.push((x, y - 1));
        }
        if y < h - 1 {
            ns.push((x, y + 1));
        }
        for (nx, ny) in ns {
            let c = cost + cells[ny][nx] as u32;
            if c < dist[ny][nx] {
                dist[ny][nx] = c;
                parent[ny][nx] = Some((x, y));
                heap.push(Reverse((c, nx, ny)));
            }
        }
    }
    let mut path = vec![(w - 1, h - 1)];
    let mut cur = (w - 1, h - 1);
    while cur != (0, 0) {
        cur = parent[cur.1][cur.0].unwrap();
        path.push(cur);
    }
    path.reverse();
    (path, dist[h - 1][w - 1])
}

fn cost_of(cells: &[Vec<u8>], path: &[(usize, usize)]) -> u32 {
    path.iter().skip(1).map(|&(x, y)| cells[y][x] as u32).sum()
}

#[test]
fn min_path_small_grid() {
    let cells = vec![vec![0x00, 0x01, 0x09], vec![0x09, 0x01, 0x09], vec![0x09, 0x01, 0xFF]];
    let r = dijkstra_min(&Grid::new(cells.clone())).unwrap();
    assert_eq!(r.path, vec![(0, 0), (1, 0), (1, 1), (1, 2), (2, 2)]);
    assert_eq!(r.total_cost, 1 + 1 + 1 + 0xFF);
    assert_eq!(cost_of(&cells, &r.path), r.total_cost);
}

#[test]
fn min_path_single_cell() {
    let r = dijkstra_min(&Grid::new(vec![vec![0xFF]])).unwrap();
    assert_eq!(r.path, vec![(0, 0)]);
    assert_eq!(r.total_cost, 0);
}

#[test]
fn min_path_single_row() {
    let cells = vec![vec![0, 5, 7, 0xFF]];
    let r = dijkstra_min(&Grid::new(cells)).unwrap();
    assert_eq!(r.path, vec![(0, 0), (1, 0), (2, 0), (3, 0)]);
    assert_eq!(r.total_cost, 5 + 7 + 0xFF);
}

#[test]
fn min_path_detours_around_walls() {
    let cells = vec![
        vec![0x00, 0xF0, 0x01, 0x01],
        vec![0x01, 0xF0, 0x01, 0xF0],
        vec![0x01, 0x01, 0x01, 0xF0],
        vec![0xF0, 0xF0, 0x01, 0xFF],
    ];
    let r = dijkstra_min(&Grid::new(cells.clone())).unwrap();
    assert_eq!(r.total_cost, 1 + 1 + 1 + 1 + 1 + 0xFF);
    assert_eq!(cost_of(&cells, &r.path), r.total_cost);
    assert_eq!(r.path.first(), Some(&(0, 0)));
    assert_eq!(r.path.last(), Some(&(3, 3)));
}

#[test]
fn min_path_matches_heap_search() {
    for seed in 1..40u64 {
        let w = (seed % 7 + 1) as usize;
        let h = (seed % 5 + 1) as usize;
        let g = generate_map_seeded(w, h, seed * 7919);
        let cells = g.cells.clone();
        let r = dijkstra_min(&g).unwrap();
        let (path, cost) = heap_search(&cells);
        assert_eq!(r.total_cost, cost);
        assert_eq!(r.path, path);
        assert_eq!(cost_of(&cells, &r.path), r.total_cost);
        for pair in r.path.windows(2) {
            let (a, b) = (pair[0], pair[1]);
            assert_eq!(a.0.abs_diff(b.0) + a.1.abs_diff(b.1), 1);
        }
    }
}

#[test]
fn min_path_equal_costs_tie_break() {
    let cells = vec![vec![0, 1], vec![1, 1]];
    let r = dijkstra_min(&Grid::new(cells.clone())).unwrap();
    let (path, cost) = heap_search(&cells);
    assert_eq!(r.path, path);
    assert_eq!(r.total_cost, cost);
    assert_eq!(r.total_cost, 2);
}

/// The greedy expensive-walk search over a max-heap with visited flags.
fn heap_greedy(cells: &[Vec<u8>]) -> Option<(Vec<(usize, usize)>, u32)> {
    let h = cells.len();
    let w = cells[0].len();
    let mut dist = vec![vec![0u32; w]; h];
    let mut parent: Vec<Vec<Option<(usize, usize)>>> = vec![vec![None; w]; h];
    let mut visited = vec![vec![false; w]; h];
    let mut heap = BinaryHeap::new();
    heap.push((0u32, 0usize, 0usize));
    while let Some((cost, x, y)) = heap.pop() {
        if visited[y][x] {
            continue;
        }
        visited[y][x] = true;
        if (x, y) == (w - 1, h - 1) {
            let mut path = vec![(x, y)];
            let mut cur = (x, y);
            while cur != (0, 0) {
                cur = parent[cur.1][cur.0].unwrap();
                path.push(cur);
            }
            path.reverse();
            return Some((path, dist[h - 1][w - 1]));
        }
        let mut ns = Vec::new();
        if x > 0 {
            ns.push((x - 1, y));
        }
        if x < w - 1 {
            ns.push((x + 1, y));
        }
        if y > 0 {
            ns.push((x, y - 1));
        }
        if y < h - 1 {
            ns.push((x, y + 1));
        }
        for (nx, ny) in ns {
            if !visited[ny][nx] {
                let c = cost + cells[ny][nx] as u32;
                if c > dist[ny][nx] {
                    dist[ny][nx] = c;
                    parent[ny][nx] = Some((x, y));
                    heap.push((c, nx, ny));
                }
            }
        }
    }
    None
}

#[test]
fn max_path_small_grid() {
    let cells = vec![vec![0x00, 0x01, 0x09], vec![0x09, 0x01, 0x09], vec![0x09, 0x01, 0xFF]];
    let r = dijkstra_max(&Grid::new(cells.clone())).unwrap();
    let (path, cost) = heap_greedy(&cells).unwrap();
    assert_eq!(r.path, path);
    assert_eq!(r.total_cost, cost);
    assert_eq!(cost_of(&cells, &r.path), r.total_cost);
    let min = dijkstra_min(&Grid::new(cells)).unwrap();
    assert!(r.total_cost >= min.total_cost);
}

#[test]
fn max_path_gives_up_without_gain() {
    let cells = vec![vec![0, 0], vec![0, 0]];
    assert!(dijkstra_max(&Grid::new(cells.clone())).is_none());
    assert!(heap_greedy(&cells).is_none());
}

#[test]
fn max_path_single_cell() {
    let r = dijkstra_max(&Grid::new(vec![vec![0xFF]])).unwrap();
    assert_eq!(r.path, vec![(0, 0)]);
    assert_eq!(r.total_cost, 0);
}

#[test]
fn max_path_matches_heap_search() {
    for seed in 1..40u64 {
        let w = (seed % 6 + 1) as usize;
        let h = (seed % 4 + 2) as usize;
        let g = generate_map_seeded(w, h, seed * 104729);
        let cells = g.cells.clone();
        let r = dijkstra_max(&g).unwrap();
        let (path, cost) = heap_greedy(&cells).unwrap();
        assert_eq!(r.path, path);
        assert_eq!(r.total_cost, cost);
        assert_eq!(cost_of(&cells, &r.path), r.total_cost);
        let mut seen = r.path.clone();
        seen.sort();
        seen.dedup();
        assert_eq!(seen.len(), r.path.len());
    }
}

/// The map-file reading the library must agree with, written with std.
fn std_parse(content: &str) -> Result<Vec<Vec<u8>>, String> {
    let mut cells = Vec::new();
    for line in content.lines() {
        let line = line.trim();
        if line.is_empty() {
            continue;
        }
        let row: Result<Vec<u8>, _> =
            line.split_whitespace().map(|s| u8::from_str_radix(s, 16)).collect();
        cells.push(row.map_err(|e| format!("Invalid hex value: {}", e))?);
    }
    if cells.is_empty() {
        return Err("Empty map".to_string());
    }
    let width = cells[0].len();
    for row in &cells {
        if row.len() != width {
            return Err("Inconsistent row lengths".to_string());
        }
    }
    Ok(cells)
}

#[test]
fn parse_map_reads_rows() {
    let text = "00 1A 2b\n\n  FF 0 +7  \r\n10 20 FF\n";
    let g = parse_map(text).unwrap();
    assert_eq!(g.cells, vec![vec![0x00, 0x1A, 0x2B], vec![0xFF, 0x00, 0x07], vec![0x10, 0x20, 0xFF]]);
    assert_eq!((g.width, g.height), (3, 3));
    assert_eq!(Ok(g.cells), std_parse(text));
}

#[test]
fn parse_map_errors() {
    assert_eq!(parse_map("").unwrap_err(), "Empty map");
    assert_eq!(parse_map("  \n\t\n").unwrap_err(), "Empty map");
    assert_eq!(parse_map("00 11\n22\n").unwrap_err(), "Inconsistent row lengths");
    assert_eq!(parse_map("00 1G\n").unwrap_err(), "Invalid hex value: invalid digit found in string");
    assert_eq!(parse_map("00 100\n").unwrap_err(), "Invalid hex value: number too large to fit in target type");
    assert_eq!(parse_map("00 11\n22 zz 33\n").unwrap_err(), "Invalid hex value: invalid digit found in string");
}

#[test]
fn parse_map_agrees_with_std() {
    let cases = [
        "00 01\n02 FF",
        "0 1 2\n3 4 5\n6 7 8\n",
        "00\u{a0}01\n",
        "1FFx 00\n",
        "x1FF 00\n",
        "-1 00\n",
        "+ 00\n",
        "00 01\n02\n03 04\n",
        "\r\n00\r\n",
        "aa bb\n\n\ncc dd\n",
    ];
    for c in cases {
        let ours = parse_map(c).map(|g| g.cells);
        assert_eq!(ours, std_parse(c), "{:?}", c);
    }
}

#[test]
fn parse_map_rows_from_tokens() {
    let rows = vec![vec!["00", "7f"], vec!["80", "FF"]];
    let g = parse_map_rows(&rows).unwrap();
    assert_eq!(g.cells, vec![vec![0x00, 0x7F], vec![0x80, 0xFF]]);
    let empty: Vec<Vec<&str>> = vec![];
    assert_eq!(parse_map_rows(&empty).unwrap_err(), "Empty map");
}

#[test]
fn parsed_map_searches() {
    let g = parse_map("00 05 01\n01 09 01\n01 01 FF\n").unwrap();
    let r = dijkstra_min(&g).unwrap();
    assert_eq!(r.total_cost, 1 + 1 + 1 + 0xFF);
    assert_eq!(r.path, vec![(0, 0), (0, 1), (0, 2), (1, 2), (2, 2)]);
}
