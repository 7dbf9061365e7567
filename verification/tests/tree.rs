use iitree::interval::Interval;
use iitree::layout::{bit_set, pow2_usize, tree_height};
use iitree::tree::IITree;

fn tree_of(ranges: &[(i32, i32)]) -> IITree {
    let mut t = IITree::new();
    for &(st, en) in ranges {
        t.add(st, en, en);
    }
    t.index();
    t
}

/// A fixed pseudo-random sequence, so that every run sees the same intervals.
struct Lcg(u64);

impl Lcg {
    fn next(&mut self, bound: i32) -> i32 {
        self.0 = self.0.wrapping_mul(6364136223846793005).wrapping_add(1442695040888963407);
        ((self.0 >> 33) % (bound as u64)) as i32
    }
}

fn random_ranges(seed: u64, n: usize, span: i32, width: i32) -> Vec<(i32, i32)> {
    let mut g = Lcg(seed);
    let mut v = Vec::new();
    for _ in 0..n {
        let st = g.next(span) - span / 2;
        let en = st + g.next(width);
        v.push((st, en));
    }
    v
}

fn level_of(p: usize) -> u32 {
    (!p).trailing_zeros()
}

fn brute_hits(t: &IITree, st: i32, en: i32) -> Vec<Interval> {
    let mut v = Vec::new();
    for i in 0..t.len() {
        let iv = t.get(i);
        if iv.st < en && st < iv.en {
            v.push(iv);
        }
    }
    v
}

fn brute_cover(t: &IITree, st: i32, en: i32) -> i32 {
    let mut c = 0;
    let mut p = st;
    while p < en {
        let mut hit = false;
        for i in 0..t.len() {
            let iv = t.get(i);
            if iv.st <= p && p < iv.en {
                hit = true;
            }
        }
        if hit {
            c += 1;
        }
        p += 1;
    }
    c
}

#[test]
fn new_tree_is_empty_and_unbuilt() {
    let t = IITree::new();
    assert_eq!(t.len(), 0);
    assert!(!t.built());
}

#[test]
fn add_appends_in_order() {
    let mut t = IITree::new();
    t.add(5, 9, 9);
    t.add(1, 3, 7);
    assert_eq!(t.len(), 2);
    assert_eq!(t.get(0), Interval { st: 5, en: 9, max: 9 });
    assert_eq!(t.get(1), Interval { st: 1, en: 3, max: 7 });
    assert!(!t.built());
}

#[test]
fn index_sorts_by_start() {
    let t = tree_of(&[(30, 40), (10, 20), (15, 25), (5, 50), (12, 13)]);
    assert!(t.built());
    let starts: Vec<i32> = (0..t.len()).map(|i| t.get(i).st).collect();
    assert_eq!(starts, vec![5, 10, 12, 15, 30]);
}

#[test]
fn index_keeps_the_same_ranges() {
    let ranges = random_ranges(7, 200, 1000, 50);
    let t = tree_of(&ranges);
    let mut before = ranges.clone();
    before.sort();
    let mut after: Vec<(i32, i32)> = (0..t.len()).map(|i| (t.get(i).st, t.get(i).en)).collect();
    after.sort();
    assert_eq!(before, after);
}

#[test]
fn index_returns_height() {
    let expect = [(0usize, 0usize), (1, 0), (2, 1), (3, 1), (4, 2), (7, 2), (8, 3), (15, 3), (16, 4), (100, 6)];
    for &(n, h) in expect.iter() {
        let mut t = IITree::new();
        for i in 0..n {
            t.add(i as i32, i as i32 + 1, 0);
        }
        assert_eq!(t.index(), h, "height over {} intervals", n);
    }
}

#[test]
fn empty_tree_has_height_zero_and_no_hits() {
    let mut t = IITree::new();
    assert_eq!(t.index(), 0);
    assert_eq!(t.search(0, 100), vec![]);
    assert_eq!(t.overlap(0, 100), (0, 100, 0, 0));
    assert_eq!(t.overlap(-5, 5), (-5, 5, 0, 0));
}

#[test]
fn single_interval_is_its_own_max() {
    let t = tree_of(&[(3, 8)]);
    assert_eq!(t.get(0), Interval { st: 3, en: 8, max: 8 });
}

#[test]
fn max_end_of_small_tree() {
    let t = tree_of(&[(0, 10), (1, 3), (2, 20), (3, 4), (4, 5)]);
    let maxes: Vec<i32> = (0..t.len()).map(|i| t.get(i).max).collect();
    assert_eq!(maxes, vec![10, 20, 20, 20, 5]);
}

#[test]
fn max_end_matches_brute_force() {
    for n in 0..70usize {
        let ranges = random_ranges(n as u64 + 1, n, 500, 80);
        let t = tree_of(&ranges);
        for p in 0..n {
            let span = 1usize << level_of(p);
            let lo = p + 1 - span;
            let hi = std::cmp::min(p + span, n);
            let m = (lo..hi).map(|j| t.get(j).en).max().unwrap();
            assert_eq!(t.get(p).max, m, "n = {}, position {}", n, p);
        }
    }
}

#[test]
fn max_end_is_no_less_than_own_end_and_children() {
    let ranges = random_ranges(77, 1500, 5000, 400);
    let t = tree_of(&ranges);
    let n = t.len();
    for p in 0..n {
        let iv = t.get(p);
        assert!(iv.max >= iv.en);
        let k = level_of(p);
        if k >= 1 {
            let half = 1usize << (k - 1);
            assert!(iv.max >= t.get(p - half).max);
            if p + half < n {
                assert!(iv.max >= t.get(p + half).max);
            }
        }
    }
}

#[test]
fn max_end_ignores_the_slot_given_to_add() {
    let mut t = IITree::new();
    t.add(0, 5, 1000);
    t.add(1, 6, -1000);
    t.add(2, 7, 0);
    t.index();
    let maxes: Vec<i32> = (0..t.len()).map(|i| t.get(i).max).collect();
    assert_eq!(maxes, vec![5, 7, 7]);
}

#[test]
fn search_finds_the_overlapping_intervals() {
    let mut t = tree_of(&[(10, 20), (15, 25), (30, 40)]);
    let hits: Vec<(i32, i32)> = t.search(12, 22).iter().map(|iv| (iv.st, iv.en)).collect();
    assert_eq!(hits, vec![(10, 20), (15, 25)]);
}

#[test]
fn search_treats_ranges_as_half_open() {
    let mut t = tree_of(&[(10, 20)]);
    assert_eq!(t.search(20, 30).len(), 0);
    assert_eq!(t.search(0, 10).len(), 0);
    assert_eq!(t.search(19, 30).len(), 1);
    assert_eq!(t.search(0, 11).len(), 1);
}

#[test]
fn search_matches_linear_scan() {
    for &n in [0usize, 1, 2, 3, 15, 16, 17, 31, 32, 33, 100, 1000, 5000].iter() {
        let ranges = random_ranges(n as u64 * 31 + 5, n, 10_000, 300);
        let mut t = tree_of(&ranges);
        let mut g = Lcg(n as u64 + 99);
        for _ in 0..200 {
            let st = g.next(11_000) - 5_500;
            let en = st + g.next(600);
            let want = brute_hits(&t, st, en);
            assert_eq!(t.search(st, en), want, "n = {}, window ({}, {})", n, st, en);
        }
    }
}

#[test]
fn search_with_many_equal_starts() {
    let mut ranges = Vec::new();
    for i in 0..300 {
        ranges.push((7, 7 + (i % 13)));
    }
    let mut t = tree_of(&ranges);
    for st in 0..25 {
        for en in st..25 {
            assert_eq!(t.search(st, en), brute_hits(&t, st, en));
        }
    }
}

#[test]
fn overlap_counts_hits_and_coverage() {
    let mut t = tree_of(&[(10, 20), (15, 25), (30, 40)]);
    assert_eq!(t.overlap(12, 22), (12, 22, 2, 10));
    assert_eq!(t.overlap(0, 100), (0, 100, 3, 25));
    assert_eq!(t.overlap(25, 30), (25, 30, 0, 0));
}

#[test]
fn overlap_leaves_gaps_out() {
    let mut t = tree_of(&[(0, 5), (8, 10)]);
    assert_eq!(t.overlap(0, 10), (0, 10, 2, 7));
}

#[test]
fn overlap_with_negative_coordinates() {
    let mut t = tree_of(&[(-10, -5), (-7, -2), (-1, 3)]);
    assert_eq!(t.overlap(-10, -5), (-10, -5, 2, 5));
    assert_eq!(t.overlap(-20, 20), (-20, 20, 3, 12));
    assert_eq!(t.overlap(-3, 0), (-3, 0, 2, 2));
}

#[test]
fn overlap_of_an_empty_window() {
    let mut t = tree_of(&[(0, 10)]);
    assert_eq!(t.overlap(5, 5), (5, 5, 1, 0));
}

#[test]
fn overlap_of_an_inverted_window() {
    let mut t = tree_of(&[(0, 100)]);
    assert_eq!(t.overlap(60, 40), (60, 40, 1, 0));
}

#[test]
fn overlap_with_an_inverted_interval() {
    let mut t = tree_of(&[(50, 10), (0, 3)]);
    assert_eq!(t.overlap(0, 100), (0, 100, 2, 3));
}

#[test]
fn overlap_matches_brute_force() {
    for &n in [0usize, 1, 5, 16, 40, 300].iter() {
        let ranges = random_ranges(n as u64 * 17 + 3, n, 400, 30);
        let mut t = tree_of(&ranges);
        let mut g = Lcg(n as u64 + 12345);
        for _ in 0..100 {
            let st = g.next(500) - 250;
            let en = st + g.next(60);
            let hits = brute_hits(&t, st, en).len() as i32;
            let cov = brute_cover(&t, st, en);
            assert_eq!(t.overlap(st, en), (st, en, hits, cov));
        }
    }
}

#[test]
fn coverage_stays_within_the_window() {
    let ranges = random_ranges(42, 500, 2000, 100);
    let mut t = tree_of(&ranges);
    let mut g = Lcg(4242);
    for _ in 0..300 {
        let st = g.next(2400) - 1200;
        let en = st + g.next(150);
        let (_, _, hits, cov) = t.overlap(st, en);
        assert!(0 <= cov && cov <= en - st);
        if hits == 0 {
            assert_eq!(cov, 0);
        }
    }
}

#[test]
fn repeated_query_gives_the_same_answer() {
    let ranges = random_ranges(9, 777, 3000, 120);
    let mut t = tree_of(&ranges);
    let stored: Vec<Interval> = (0..t.len()).map(|i| t.get(i)).collect();
    let first = t.overlap(-100, 250);
    let hits = t.search(-100, 250);
    t.overlap(700, 900);
    assert_eq!(t.overlap(-100, 250), first);
    assert_eq!(t.search(-100, 250), hits);
    let after: Vec<Interval> = (0..t.len()).map(|i| t.get(i)).collect();
    assert_eq!(stored, after);
}

#[test]
fn overlap_at_the_ends_of_the_range() {
    let mut t = tree_of(&[(i32::MIN, i32::MIN + 10), (i32::MAX - 10, i32::MAX)]);
    assert_eq!(t.overlap(i32::MIN, i32::MIN + 5), (i32::MIN, i32::MIN + 5, 1, 5));
    assert_eq!(t.overlap(i32::MAX - 3, i32::MAX), (i32::MAX - 3, i32::MAX, 1, 3));
    assert_eq!(t.overlap(0, i32::MAX), (0, i32::MAX, 1, 10));
}

#[test]
fn height_of_some_sizes() {
    assert_eq!(tree_height(0), 0);
    assert_eq!(tree_height(1), 0);
    assert_eq!(tree_height(2), 1);
    assert_eq!(tree_height(1023), 9);
    assert_eq!(tree_height(1024), 10);
    assert_eq!(tree_height(0x7fff_ffff), 30);
}

#[test]
fn powers_and_bits() {
    assert_eq!(pow2_usize(0), 1);
    assert_eq!(pow2_usize(10), 1024);
    assert_eq!(pow2_usize(31), 0x8000_0000);
    assert!(bit_set(0b1010, 1));
    assert!(!bit_set(0b1010, 2));
    assert!(bit_set(0b1010, 3));
    assert!(!bit_set(5, 31));
}
