use astarpa2::aligners::Pos;
use astarpa2::diagonal_map::{DiagonalMap, DiagonalMapTrait, InsertIfSmallerResult};
use astarpa2::profile::{BitProfile, Bits, Profile, ScatterProfile, CC};
use astarpa2::visualizer::{make_label, NoVisualizer, VisualizerStyle, VisualizerT, When};

#[test]
fn diagonal_map_stores_values() {
    let mut m: DiagonalMap<u32> = DiagonalMap::new(Pos(1000, 1200));
    m.insert(Pos(3, 3), 7);
    m.insert(Pos(10, 500), 9);
    m.insert(Pos(999, 0), 11);
    assert_eq!(m.get(Pos(3, 3)), 7);
    assert_eq!(m.get(Pos(10, 500)), 9);
    assert_eq!(m.get(Pos(999, 0)), 11);
    // A new slot holds the default value.
    assert_eq!(m.get(Pos(4, 3)), 0);
    m.insert(Pos(3, 3), 8);
    assert_eq!(m.get(Pos(3, 3)), 8);
    assert_eq!(m.get(Pos(10, 500)), 9);
    assert!(InsertIfSmallerResult::New != InsertIfSmallerResult::Larger);
}

#[test]
fn scatter_profile_matches_characters() {
    let a = b"ACGTacgt";
    let b = b"ACGTNYR*acgtnyr";
    let (pa, pb) = ScatterProfile::build(a, b);
    assert_eq!(pa.len(), a.len());
    assert_eq!(pb.len(), 1);
    assert_eq!(pa[0], CC(0));
    let compatible = |x: u8, y: u8| -> bool {
        let x = x.to_ascii_uppercase();
        match y.to_ascii_uppercase() {
            b'N' | b'*' => true,
            b'Y' => x == b'C' || x == b'T',
            b'R' => x == b'A' || x == b'G',
            y => x == y,
        }
    };
    for i in 0..a.len() {
        for j in 0..b.len() {
            assert_eq!(ScatterProfile::is_match(&pa, &pb, i, j), compatible(a[i], b[j]));
        }
        // Rows past the end of `b` match every base.
        for j in b.len()..64 {
            assert!(ScatterProfile::is_match(&pa, &pb, i, j));
        }
    }
    assert_eq!(ScatterProfile::eq(&CC(1), &[1, 2, 3, 4]), 2);
}

#[test]
fn bit_profile_matches_equal_bases() {
    let a = b"ACGTTGCA";
    let b: Vec<u8> = b"GATTACA".iter().cycle().take(100).copied().collect();
    let (pa, pb) = BitProfile::build(a, &b);
    assert_eq!(pb.len(), 2);
    for i in 0..a.len() {
        for j in 0..b.len() {
            assert_eq!(BitProfile::is_match(&pa, &pb, i, j), a[i] == b[j]);
        }
    }
    let x = Bits(u64::MAX, 0);
    let y = Bits(0b1010, 0b0110);
    assert_eq!(BitProfile::eq(&x, &y), (u64::MAX ^ 0b1010) & 0b0110);
}

#[test]
fn eq_simd_per_lane() {
    let a0 = [u64::MAX, 0, u64::MAX, 0];
    let a1 = [0, 0, u64::MAX, u64::MAX];
    let b0 = [1, 2, 3, 4];
    let b1 = [5, 6, 7, 8];
    let r = BitProfile::eq_simd((&a0, &a1), (&b0, &b1));
    for l in 0..4 {
        assert_eq!(r[l], (a0[l] ^ b0[l]) & (a1[l] ^ b1[l]));
    }
}

#[test]
fn when_is_active() {
    assert!(!When::Never.is_active(0, 0, true, true));
    assert!(When::Last.is_active(3, 0, true, false));
    assert!(!When::Last.is_active(3, 0, false, false));
    assert!(When::All.is_active(3, 0, false, false));
    assert!(!When::All.is_active(3, 0, false, true));
    assert!(When::Layers.is_active(3, 0, false, true));
    assert!(When::StepBy(3).is_active(6, 0, false, false));
    assert!(!When::StepBy(3).is_active(7, 0, false, false));
    assert!(When::LayersStepBy(2).is_active(7, 4, false, true));
    assert!(!When::LayersStepBy(2).is_active(7, 3, false, true));
    assert!(When::Frames(vec![1, 5]).is_active(5, 0, false, false));
    assert!(!When::Frames(vec![1, 5]).is_active(4, 0, false, false));
    assert!(When::Frames(vec![usize::MAX]).is_active(4, 0, true, false));
}

#[test]
fn labels_and_styles() {
    assert_eq!(make_label("cost: ", 42), "cost: 42");
    assert_eq!(make_label("", 0), "0");
    assert_eq!(VisualizerStyle::default(), VisualizerStyle::Default);
    let mut v = NoVisualizer;
    v.new_layer();
    v.explore(Pos(0, 0), 0, 0);
    v.last_frame(None);
}

#[test]
fn labels_take_any_text() {
    assert_eq!(make_label("größe ", 7), "größe 7");
}

#[test]
fn profile_trait_matches_inherent_profiles() {
    let a = b"ACGT";
    let b = b"TGCA";
    let (pa, pb) = <ScatterProfile as Profile>::build(a, b);
    let (qa, qb) = <BitProfile as Profile>::build(a, b);
    for i in 0..4 {
        for j in 0..4 {
            assert_eq!(<ScatterProfile as Profile>::is_match(&pa, &pb, i, j), a[i] == b[j]);
            assert_eq!(<BitProfile as Profile>::is_match(&qa, &qb, i, j), a[i] == b[j]);
        }
    }
}
