use pokergoat_solver::blob::{
    dequantize_ev, dequantize_strategy, quantize_ev, quantize_strategy, Blob, BlobAction, BlobHeader,
    BlobNode, ACTION_BET, ACTION_CHECK, CHANCE_CHILDREN, CHILD_IMPOSSIBLE, CHILD_NOT_STORED,
    FLAG_HAS_EV, KIND_CHANCE, KIND_PLAYER, KIND_TERMINAL, PLAYER_NONE,
};
use pokergoat_solver::error::Error;
use pokergoat_solver::ieee::Single;

fn single(v: f32) -> Single {
    Single { bits: v.to_bits() }
}

fn singles(values: &[f32]) -> Vec<Single> {
    values.iter().map(|v| single(*v)).collect()
}

fn floats(values: &[Single]) -> Vec<f32> {
    values.iter().map(|v| f32::from_bits(v.bits)).collect()
}

fn sample_blob() -> Blob {
    let header = BlobHeader {
        scenario_id: 7,
        template_id: 1,
        solver_version: 0,
        board: vec![48, 22, 3],
        street: 0,
        starting_pot: single(5.5),
        effective_stack: single(97.5),
        rake_percent: single(5.0),
        rake_cap: single(3.0),
        exploitability_pct: single(0.27),
        iterations: 1000,
    };
    let mut blob = Blob::new(header, [vec![0, 5, 1325], vec![10, 20]]);

    let strategy_probs = singles(&[0.7, 0.25, 0.1, 0.3, 0.75, 0.9]);
    let strategy = quantize_strategy(&strategy_probs, 2, 3);
    let (ev, ev_scale) = quantize_ev(&singles(&[1.5, -2.25, 0.0, 3.75, 4.0, -1.0]));
    blob.nodes.push(BlobNode {
        id: 0,
        kind: KIND_PLAYER,
        player: 0,
        flags: FLAG_HAS_EV,
        actions: vec![
            BlobAction { kind: ACTION_CHECK, amount: single(0.0) },
            BlobAction { kind: ACTION_BET, amount: single(1.83) },
        ],
        children: vec![1, 2],
        invest: [single(0.0), single(0.0)],
        strategy,
        ev,
        ev_scale,
    });
    blob.nodes.push(BlobNode {
        id: 1,
        kind: KIND_CHANCE,
        player: PLAYER_NONE,
        flags: 0,
        actions: Vec::new(),
        children: {
            let mut c = vec![CHILD_IMPOSSIBLE; CHANCE_CHILDREN];
            c[7] = 4;
            c[8] = CHILD_NOT_STORED;
            c
        },
        invest: [single(1.83), single(1.83)],
        strategy: Vec::new(),
        ev: Vec::new(),
        ev_scale: single(1.0),
    });
    blob.nodes.push(BlobNode {
        id: 2,
        kind: KIND_TERMINAL,
        player: PLAYER_NONE,
        flags: 0,
        actions: Vec::new(),
        children: Vec::new(),
        invest: [single(1.83), single(0.0)],
        strategy: Vec::new(),
        ev: Vec::new(),
        ev_scale: single(1.0),
    });
    blob
}

#[test]
fn round_trip() {
    let blob = sample_blob();
    let bytes = blob.to_bytes().unwrap();
    assert_eq!(&bytes[..4], b"GTOB");
    let parsed = Blob::parse(&bytes).unwrap();
    assert_eq!(parsed, blob);
}

#[test]
fn strategy_within_quantization_error() {
    let probs: Vec<f32> = vec![0.7, 0.25, 0.1, 0.3, 0.75, 0.9];
    let bytes = quantize_strategy(&singles(&probs), 2, 3);
    let back = floats(&dequantize_strategy(&bytes, 2, 3));
    for (a, b) in probs.iter().zip(back.iter()) {
        assert!((a - b).abs() <= 1.0 / 255.0, "{a} vs {b}");
    }
    for hand in 0..3 {
        let sum: f32 = (0..2).map(|a| back[a * 3 + hand]).sum();
        assert!((sum - 1.0).abs() < 1e-6);
    }
}

#[test]
fn strategy_three_actions() {
    let probs: Vec<f32> = vec![0.2, 0.0, 0.5, 1.0, 0.3, 0.0];
    let bytes = quantize_strategy(&singles(&probs), 3, 2);
    assert_eq!(bytes.len(), 4);
    let back = floats(&dequantize_strategy(&bytes, 3, 2));
    for (a, b) in probs.iter().zip(back.iter()) {
        assert!((a - b).abs() <= 1.0 / 255.0, "{a} vs {b}");
    }
}

#[test]
fn zero_strategy_becomes_uniform() {
    let probs: Vec<f32> = vec![0.0, 0.0, 0.0];
    let bytes = quantize_strategy(&singles(&probs), 3, 1);
    let back = floats(&dequantize_strategy(&bytes, 3, 1));
    for value in back {
        assert!((value - 1.0 / 3.0).abs() < 0.01);
    }
}

#[test]
fn ev_within_scale() {
    let values = vec![1.5f32, -2.25, 0.0, 3.75, 120.0, -0.001];
    let (encoded, scale) = quantize_ev(&singles(&values));
    let back = floats(&dequantize_ev(&encoded, scale));
    let scale = f32::from_bits(scale.bits);
    for (a, b) in values.iter().zip(back.iter()) {
        assert!((a - b).abs() <= scale, "{a} vs {b} (scale {scale})");
    }
}

#[test]
fn rejects_truncated_bytes() {
    let bytes = sample_blob().to_bytes().unwrap();
    assert!(Blob::parse(&bytes[..10]).is_err());
}

#[test]
fn rejects_bad_magic() {
    let mut bytes = sample_blob().to_bytes().unwrap();
    bytes[0] = b'X';
    assert!(Blob::parse(&bytes).is_err());
}

#[test]
fn every_cut_is_refused_and_more_bytes_are_ignored() {
    let blob = sample_blob();
    let bytes = blob.to_bytes().unwrap();
    for n in 0..bytes.len() {
        assert!(Blob::parse(&bytes[..n]).is_err(), "{n} bytes");
    }
    let mut longer = bytes.clone();
    longer.extend_from_slice(&[1, 2, 3]);
    assert_eq!(Blob::parse(&longer).unwrap(), blob);
}

#[test]
fn blob_bytes_are_laid_out_as_documented() {
    let blob = sample_blob();
    let bytes = blob.to_bytes().unwrap();
    assert_eq!(bytes[4], 0);
    assert_eq!(&bytes[5..9], &7u32.to_le_bytes());
    assert_eq!(&bytes[9..11], &1u16.to_le_bytes());
    assert_eq!(bytes[13], 3);
    assert_eq!(&bytes[14..17], &[48, 22, 3]);
    assert_eq!(&bytes[18..22], &5.5f32.to_le_bytes());
    assert_eq!(&bytes[38..42], &1000u32.to_le_bytes());
    // The hand lists take 8 and 6 bytes, the node count 4.
    assert_eq!(&bytes[42..50], &[3, 0, 0, 0, 5, 0, 0x2D, 0x05]);
    assert_eq!(&bytes[56..60], &3u32.to_le_bytes());
    // The records take 36 bytes, five for each action and four for each child.
    let records = (36 + 10 + 8) + (36 + 208) + 36;
    assert_eq!(bytes.len(), 60 + records + 3 + 12);
    let strategy_at = 60 + records;
    let ev_at = strategy_at + 3;
    let first_end = 60 + 8 + 10 + 8 + 8;
    assert_eq!(&bytes[first_end..first_end + 8], &(strategy_at as u64).to_le_bytes());
    assert_eq!(&bytes[first_end + 8..first_end + 16], &(ev_at as u64).to_le_bytes());
    assert_eq!(&bytes[strategy_at..ev_at], &blob.nodes[0].strategy[..]);
    assert_eq!(&bytes[ev_at..ev_at + 2], &blob.nodes[0].ev[0].to_le_bytes());
}

#[test]
fn unwritable_blobs_are_refused() {
    let mut blob = sample_blob();
    blob.header.board = vec![48, 22];
    assert_eq!(blob.to_bytes(), Err(Error::BoardLength(2)));

    let mut blob = sample_blob();
    blob.nodes[0].children = vec![1];
    assert_eq!(blob.to_bytes(), Err(Error::ChildCount { node: 0, found: 1, expected: 2 }));

    let mut blob = sample_blob();
    blob.nodes[0].actions = vec![BlobAction { kind: ACTION_BET, amount: single(1.0) }; 256];
    blob.nodes[0].children = vec![0; 256];
    assert_eq!(blob.to_bytes(), Err(Error::TooManyActions(0)));

    let mut blob = sample_blob();
    blob.hands[1] = vec![0; 65536];
    assert_eq!(blob.to_bytes(), Err(Error::TooManyHands));
}

#[test]
fn unreadable_blobs_are_refused() {
    let bytes = sample_blob().to_bytes().unwrap();
    let mut bad = bytes.clone();
    bad[0] = b'X';
    assert_eq!(Blob::parse(&bad), Err(Error::BadMagic));
    let mut bad = bytes.clone();
    bad[4] = 9;
    assert_eq!(Blob::parse(&bad), Err(Error::UnsupportedVersion(9)));
    let mut bad = bytes.clone();
    bad[13] = 2;
    assert_eq!(Blob::parse(&bad), Err(Error::BoardLength(2)));
    assert_eq!(Blob::parse(&bytes[..3]), Err(Error::Truncated));
    let n = bytes.len();
    assert_eq!(Blob::parse(&bytes[..n - 1]), Err(Error::EvOutOfBlob));
    assert_eq!(Blob::parse(&bytes[..n - 13]), Err(Error::StrategyOutOfBlob));
}

#[test]
fn child_slots_go_by_kind() {
    assert_eq!(BlobNode::expected_children(KIND_PLAYER, 4), 4);
    assert_eq!(BlobNode::expected_children(KIND_CHANCE, 4), 52);
    assert_eq!(BlobNode::expected_children(KIND_TERMINAL, 4), 0);
}
