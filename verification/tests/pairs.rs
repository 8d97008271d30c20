use circle_pairs::pairs::PairsIter;

fn collect_pairs<'a, T>(slice: &'a [T]) -> Vec<(&'a T, &'a T)> {
    let mut it = PairsIter::new(slice);
    let mut out = Vec::new();
    while let Some(p) = it.next() {
        out.push(p);
    }
    out
}

#[test]
fn test_pairs_none() {
    let arr = vec![1];
    let prs = collect_pairs(&arr);

    assert_eq!(prs.len(), 0);
}

#[test]
fn test_pairs_one() {
    let arr = vec![1, 2];
    let prs = collect_pairs(&arr);

    assert_eq!(prs, [(&1, &2)]);
}

#[test]
fn test_pairs() {
    let arr = vec![1, 2, 3, 4];
    let prs = collect_pairs(&arr);

    assert_eq!(
        prs,
        [(&1, &2), (&1, &3), (&1, &4), (&2, &3), (&2, &4), (&3, &4)]
    );
}

#[test]
fn test_pairs_empty() {
    let arr: Vec<u8> = vec![];
    let prs = collect_pairs(&arr);

    assert_eq!(prs.len(), 0);
}

#[test]
fn test_pairs_count_formula() {
    // n * (n - 1) / 2 pairs for every n up to 20
    for n in 0usize..20 {
        let arr: Vec<usize> = (0..n).collect();
        let prs = collect_pairs(&arr);
        assert_eq!(prs.len(), n * n.saturating_sub(1) / 2);
    }
}

#[test]
fn test_pairs_lexicographic_no_duplicates() {
    let arr: Vec<usize> = (0..7).collect();
    let prs = collect_pairs(&arr);
    // each yielded pair is (i, j) with i < j, and the index pairs
    // strictly increase lexicographically, so none repeats
    let idx: Vec<(usize, usize)> = prs.iter().map(|p| (*p.0, *p.1)).collect();
    for w in idx.windows(2) {
        assert!(w[0] < w[1]);
    }
    for &(i, j) in &idx {
        assert!(i < j && j < 7);
    }
    assert_eq!(idx.len(), 21);
}

#[test]
fn test_pairs_exhausted_stays_exhausted() {
    let arr = vec![1, 2];
    let mut it = PairsIter::new(&arr);
    assert_eq!(it.next(), Some((&1, &2)));
    assert_eq!(it.next(), None);
    assert_eq!(it.next(), None);
}
