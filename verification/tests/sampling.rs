use zombie_agent::sampler::{palette, ActionGen};

// Each of the nine palette directions (the zero vector included) comes up
// with frequency close to 1/9 over many draws. 2500 plans of 8 draws give
// 20000 samples, expected 2222 per direction; the window below is about ten
// standard deviations wide on each side.
#[test]
fn test_sampling_uniform() {
    let dirs = palette();
    assert_eq!(dirs.len(), 9);
    let mut counts = [0usize; 9];
    let mut action_gen = ActionGen::new();
    for _ in 0..2500 {
        action_gen.gen();
        assert_eq!(action_gen.actions.len(), 8);
        for d in &action_gen.actions {
            let mut found = false;
            for (k, pd) in dirs.iter().enumerate() {
                if d == pd {
                    counts[k] += 1;
                    found = true;
                    break;
                }
            }
            assert!(found);
        }
    }
    for &c in counts.iter() {
        assert!(c > 1770, "direction drawn too rarely: {}", c);
        assert!(c < 2680, "direction drawn too often: {}", c);
    }
}

// The palette holds nine pairwise distinct directions.
#[test]
fn test_palette_distinct() {
    let dirs = palette();
    for i in 0..dirs.len() {
        for j in (i + 1)..dirs.len() {
            assert_ne!(dirs[i], dirs[j]);
        }
    }
}
