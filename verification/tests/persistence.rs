//! The persistence round trip: saving and reloading reproduces the
//! durable state exactly, with the session-local windows empty, and
//! malformed blobs are refused.
use fractal_mind::mind::FractalMind;

#[test]
fn save_load_round_trip_preserves_collections() {
    let mut mind = FractalMind::new();
    mind.scale = 256;
    mind.process_input("remember me.");
    mind.process_input("and this too!");
    mind.learn_concept_with_image("a scene", 900_000, "img/scene.png".to_string());
    let _ = mind.generate_response("warm up inhibitions");
    let bytes = mind.to_bytes().expect("state fits the framing");
    let loaded = FractalMind::from_bytes(&bytes).expect("the blob decodes");

    assert_eq!(loaded.symbols.len(), mind.symbols.len());
    for (a, b) in loaded.symbols.iter().zip(mind.symbols.iter()) {
        assert_eq!(a.coord, b.coord);
        assert_eq!(a.pattern, b.pattern);
        assert_eq!(a.count, b.count);
        assert_eq!(a.label, b.label);
        assert_eq!(a.confidence, b.confidence);
        assert_eq!(a.stability, b.stability);
    }
    assert_eq!(loaded.trajectories.len(), mind.trajectories.len());
    for (a, b) in loaded.trajectories.iter().zip(mind.trajectories.iter()) {
        assert_eq!(a.path, b.path);
        assert_eq!(a.strength, b.strength);
        assert_eq!(a.symbols, b.symbols);
        assert_eq!(a.image_path, b.image_path);
    }
    assert_eq!(loaded.associative_fields.len(), mind.associative_fields.len());
    for (a, b) in loaded
        .associative_fields
        .iter()
        .zip(mind.associative_fields.iter())
    {
        assert_eq!(a.center, b.center);
        assert_eq!(a.radius, b.radius);
        assert_eq!(a.strength, b.strength);
    }
    assert_eq!(loaded.current_coord, mind.current_coord);
    assert_eq!(loaded.contextual_coord, mind.contextual_coord);
    assert_eq!(loaded.background_thought_coord, mind.background_thought_coord);
    assert_eq!(loaded.inhibited_symbols, mind.inhibited_symbols);
    assert_eq!(loaded.inhibited_trajectories, mind.inhibited_trajectories);
    assert_eq!(loaded.scale, mind.scale);
    assert_eq!(loaded.exploration_radius, mind.exploration_radius);
    // The session-local windows describe a conversation, not the durable
    // memory: they come back empty.
    assert!(loaded.context_history.is_empty());
    assert!(loaded.symbol_history.is_empty());
    assert!(loaded.last_output.is_empty());
}

#[test]
fn malformed_blobs_are_refused() {
    assert!(FractalMind::from_bytes(&vec![]).is_none());
    assert!(FractalMind::from_bytes(&vec![0u8; 7]).is_none());
    assert!(FractalMind::from_bytes(&vec![0xFF; 64]).is_none());
    let mut mind = FractalMind::new();
    mind.scale = 256;
    mind.process_input("truncate me");
    let mut bytes = mind.to_bytes().expect("state fits the framing");
    bytes.truncate(bytes.len() - 1);
    assert!(FractalMind::from_bytes(&bytes).is_none());
}

#[test]
fn fresh_mind_round_trips() {
    let mind = FractalMind::new();
    let bytes = mind.to_bytes().expect("state fits the framing");
    let loaded = FractalMind::from_bytes(&bytes).expect("the blob decodes");
    assert_eq!(loaded.symbols.len(), 0);
    assert_eq!(loaded.trajectories.len(), 0);
    assert_eq!(loaded.associative_fields.len(), 0);
    assert_eq!(loaded.scale, 4096);
    assert_eq!(loaded.exploration_radius, 200_000);
}
