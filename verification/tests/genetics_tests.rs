use rand::rngs::StdRng;
use rand::SeedableRng;
use substrate_evolver::genetics::{
    crossover_at, input_weight_index, output_weight_index, two_point_crossover, B_H_OFFSET,
    B_O_OFFSET, GENOME_LEN, W_HO_OFFSET, W_IH_OFFSET,
};
use substrate_evolver::i18n::{I18n, Language};

#[test]
fn genome_layout() {
    assert_eq!(GENOME_LEN, 83);
    assert_eq!(W_IH_OFFSET, 3);
    assert_eq!(B_H_OFFSET, 63);
    assert_eq!(W_HO_OFFSET, 69);
    assert_eq!(B_O_OFFSET, 81);
    assert_eq!(input_weight_index(0, 0), 3);
    assert_eq!(input_weight_index(9, 5), 62);
    assert_eq!(input_weight_index(2, 1), 16);
    assert_eq!(output_weight_index(0, 0), 69);
    assert_eq!(output_weight_index(5, 1), 80);
}

#[test]
fn crossover_at_takes_middle_from_b() {
    let a = [1u8; GENOME_LEN];
    let b = [2u8; GENOME_LEN];
    let c = crossover_at(&a, &b, 10, 20);
    for k in 0..GENOME_LEN {
        assert_eq!(c[k], if (10..20).contains(&k) { 2 } else { 1 });
    }
    assert_eq!(crossover_at(&a, &b, 5, 5), a);
    assert_eq!(crossover_at(&a, &b, 0, GENOME_LEN), b);
}

#[test]
fn two_point_crossover_preserves_blocks() {
    let a = [0.5f32; GENOME_LEN];
    let mut b = [0.0f32; GENOME_LEN];
    for (k, g) in b.iter_mut().enumerate() {
        *g = -(k as f32) / 100.0 - 0.01;
    }
    let mut rng = StdRng::seed_from_u64(2);
    let mut saw_b = false;
    for _ in 0..20 {
        let c = two_point_crossover(&a, &b, &mut rng);
        // one contiguous block from b, the rest from a
        let from_b: Vec<usize> = (0..GENOME_LEN).filter(|&k| c[k] == b[k]).collect();
        for k in 0..GENOME_LEN {
            assert!(c[k] == a[k] || c[k] == b[k]);
        }
        if let (Some(&lo), Some(&hi)) = (from_b.first(), from_b.last()) {
            assert_eq!(from_b.len(), hi - lo + 1);
            saw_b = true;
        }
    }
    assert!(saw_b);
}

#[test]
fn labels_in_both_languages() {
    let mut t = I18n::new(Language::En);
    assert_eq!(t.label_tick(), "Tick");
    assert_eq!(t.label_agents(), "Agents");
    assert_eq!(t.label_phase(), "Phase");
    assert_eq!(t.label_avg_speed(), "Avg Spd");
    assert_eq!(t.label_avg_vision(), "Avg Vis");
    assert_eq!(t.label_food(), "Food");
    assert_eq!(t.ice_age_active_text(), "[!! ICE AGE ACTIVE !!]");
    assert_eq!(t.simulation_ended(), "All agents died. Simulation ended.");
    t.set_language(Language::Tr);
    assert_eq!(t.lang, Language::Tr);
    assert_eq!(t.label_tick(), "Tur");
    assert_eq!(t.label_agents(), "Ajan");
    assert_eq!(t.label_phase(), "Faz");
    assert_eq!(t.label_avg_speed(), "Ort Hız");
    assert_eq!(t.label_avg_vision(), "Ort Gör");
    assert_eq!(t.label_food(), "Yem");
    assert_eq!(t.ice_age_active_text(), "[!! BUZ ÇAĞI AKTİF !!]");
    assert_eq!(t.simulation_ended(), "Tüm ajanlar öldü. Simülasyon sona erdi.");
}
