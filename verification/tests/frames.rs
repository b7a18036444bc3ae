use ric3::cube::Lemma;
use ric3::frame::Frames;
use ric3::lit::Lit;

fn lits(codes: &[u32]) -> Vec<Lit> {
    codes.iter().map(|c| Lit(*c)).collect()
}

fn frame_lits(f: &Frames, i: usize) -> Vec<Vec<u32>> {
    f.frames[i].iter().map(|x| x.lemma.cube.iter().map(|l| l.0).collect()).collect()
}

fn three_frames() -> Frames {
    let mut f = Frames::new();
    f.new_frame();
    f.new_frame();
    f.new_frame();
    f
}

#[test]
fn add_lemma_to_frame_zero() {
    let mut f = Frames::new();
    f.new_frame();
    let r = f.add_lemma(0, lits(&[6, 2]), true, Some(7));
    assert!(r.added);
    assert!(!r.result);
    assert_eq!(r.begin, 0);
    assert_eq!(frame_lits(&f, 0), vec![vec![2, 6]]);
    assert_eq!(f.frames[0][0].po, Some(7));
}

#[test]
fn add_lemma_sorts_and_sets_early() {
    let mut f = three_frames();
    f.early = 5;
    let r = f.add_lemma(2, lits(&[8, 4, 6]), true, None);
    assert!(r.added);
    assert!(!r.moved);
    assert_eq!(r.begin, 1);
    assert_eq!(f.early, 1);
    assert_eq!(frame_lits(&f, 2), vec![vec![4, 6, 8]]);
    // frame 1 is empty but was only passed, and it is below frame 2
    assert!(r.result);
}

#[test]
fn add_lemma_removes_subsumed_lemmas() {
    let mut f = three_frames();
    f.add_lemma(1, lits(&[2, 4, 6]), true, None);
    f.add_lemma(2, lits(&[2, 4, 8]), true, None);
    let r = f.add_lemma(2, lits(&[2, 4]), true, None);
    assert!(r.added);
    assert_eq!(frame_lits(&f, 1), Vec::<Vec<u32>>::new());
    assert_eq!(frame_lits(&f, 2), vec![vec![2, 4]]);
    let mut removed: Vec<(usize, Vec<u32>)> =
        r.removed.iter().map(|(i, l)| (*i, l.cube.iter().map(|x| x.0).collect())).collect();
    removed.sort();
    assert_eq!(removed, vec![(1, vec![2, 4, 6]), (2, vec![2, 4, 8])]);
    assert!(r.result);
}

#[test]
fn add_lemma_trivially_contained() {
    let mut f = three_frames();
    f.add_lemma(2, lits(&[2]), true, None);
    let r = f.add_lemma(1, lits(&[2, 4]), true, None);
    assert!(!r.added);
    assert_eq!(r.begin, 2);
    assert_eq!(frame_lits(&f, 1), Vec::<Vec<u32>>::new());
    // without the check the lemma is added above the stronger one's frame
    let r = f.add_lemma(1, lits(&[2, 4]), false, None);
    assert!(r.added);
    assert_eq!(frame_lits(&f, 1), vec![vec![2, 4]]);
}

#[test]
fn add_lemma_stops_at_stronger_lemma() {
    let mut f = three_frames();
    f.add_lemma(1, lits(&[2]), true, None);
    let r = f.add_lemma(2, lits(&[2, 4]), false, None);
    assert!(r.added);
    assert!(!r.moved);
    assert_eq!(r.begin, 2);
    assert_eq!(frame_lits(&f, 1), vec![vec![2]]);
    assert_eq!(frame_lits(&f, 2), vec![vec![2, 4]]);
}

#[test]
fn add_lemma_moves_equal_lemma_up() {
    let mut f = three_frames();
    f.add_lemma(1, lits(&[2, 4]), true, None);
    let r = f.add_lemma(2, lits(&[4, 2]), false, Some(3));
    assert!(r.added);
    assert!(r.moved);
    assert_eq!(r.begin, 2);
    assert!(r.result);
    assert_eq!(frame_lits(&f, 1), Vec::<Vec<u32>>::new());
    assert_eq!(frame_lits(&f, 2), vec![vec![2, 4]]);
    assert_eq!(f.frames[2][0].po, Some(3));
}

#[test]
fn trivial_contained_finds_first() {
    let mut f = three_frames();
    f.add_lemma(2, lits(&[4]), true, None);
    f.add_lemma(1, lits(&[2, 6]), true, None);
    let l = Lemma::new(lits(&[6, 4, 2]));
    assert_eq!(f.trivial_contained(1, &l), Some((1, 0)));
    assert_eq!(f.trivial_contained(2, &l), Some((2, 0)));
    let m = Lemma::new(lits(&[8]));
    assert_eq!(f.trivial_contained(0, &m), None);
}

#[test]
fn parent_lemmas_of_frame() {
    let mut f = three_frames();
    f.add_lemma(1, lits(&[2, 4]), true, None);
    f.add_lemma(1, lits(&[6]), true, None);
    let l = Lemma::new(lits(&[2, 4, 6]));
    assert!(f._parent_lemma(&l, 1).is_none());
    let p = f._parent_lemma(&l, 2).unwrap();
    assert_eq!(p.cube, lits(&[2, 4]));
    let ps = f._parent_lemmas(&l, 2);
    let ps: Vec<Vec<Lit>> = ps.into_iter().map(|p| p.cube).collect();
    assert_eq!(ps, vec![lits(&[2, 4]), lits(&[6])]);
    assert!(f._parent_lemmas(&l, 1).is_empty());
}

#[test]
fn remove_lemma_takes_listed_lemmas_out() {
    let mut f = three_frames();
    f.add_lemma(1, lits(&[2, 4]), true, Some(5));
    f.add_lemma(2, lits(&[6]), true, Some(8));
    f.add_lemma(2, lits(&[10, 12]), true, None);
    let (marked, removed) = f.remove_lemma(2, vec![lits(&[4, 2]), lits(&[6])]);
    assert_eq!(frame_lits(&f, 1), Vec::<Vec<u32>>::new());
    assert_eq!(frame_lits(&f, 2), vec![vec![10, 12]]);
    let mut marked = marked;
    marked.sort();
    assert_eq!(marked, vec![5, 8]);
    let mut removed: Vec<(usize, Vec<u32>)> =
        removed.iter().map(|(i, l)| (*i, l.cube.iter().map(|x| x.0).collect())).collect();
    removed.sort();
    assert_eq!(removed, vec![(1, vec![2, 4]), (2, vec![6])]);
}

#[test]
fn remove_lemma_keeps_frame_zero() {
    let mut f = Frames::new();
    f.new_frame();
    f.add_lemma(0, lits(&[2]), true, None);
    f.new_frame();
    let (marked, removed) = f.remove_lemma(1, vec![lits(&[2])]);
    assert!(marked.is_empty());
    assert!(removed.is_empty());
    assert_eq!(frame_lits(&f, 0), vec![vec![2]]);
}
