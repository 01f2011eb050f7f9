use std::collections::HashMap;

use buff_reroll::{
    all_buffs, choose_buff, reroll_until_all_found, Buff, Simulation, SlotState,
};

fn counts_of(samples: Vec<Buff>) -> HashMap<Buff, usize> {
    let mut counts: HashMap<Buff, usize> = HashMap::new();
    for b in samples {
        *counts.entry(b).or_insert(0) += 1;
    }
    counts
}

#[test]
fn check_distribution_10000() {
    let mut samples = vec![];
    let buffs: Vec<Buff> = all_buffs();
    for _ in 0..10000 {
        let buff = choose_buff(&buffs);
        samples.push(buff);
    }

    let counts = counts_of(samples);
    let range_for_10_percent = 500..1500;

    assert!(range_for_10_percent.contains(&counts[&Buff::Elemental]));
    assert!(range_for_10_percent.contains(&counts[&Buff::Attack]));
    assert!(range_for_10_percent.contains(&counts[&Buff::CritDamage]));
    assert!(range_for_10_percent.contains(&counts[&Buff::Defense]));

    let range_for_12_percent = 600..2000;
    assert!(range_for_12_percent.contains(&counts[&Buff::HitRate]));
    assert!(range_for_12_percent.contains(&counts[&Buff::MaxAmmo]));
    assert!(range_for_12_percent.contains(&counts[&Buff::ChargeDamage]));
    assert!(range_for_12_percent.contains(&counts[&Buff::ChargeSpeed]));
    assert!(range_for_12_percent.contains(&counts[&Buff::CritRate]));
}

#[test]
fn check_partial_choices() {
    let choices = [Buff::Attack, Buff::Elemental];
    let samples: Vec<Buff> = (0..10000).map(|_| choose_buff(&choices)).collect();

    let counts = counts_of(samples);
    assert_eq!(counts.len(), 2);
    assert!(counts.contains_key(&Buff::Attack));
    assert!(counts.contains_key(&Buff::Elemental));
}

#[test]
fn simulation_reroll_init() {
    let mut sim = Simulation::new();
    sim.reroll();

    assert_eq!(sim.attempts, 1);
    assert_eq!(sim.custom_modules, 1);
    assert_eq!(sim.buffs().len(), 3);

    assert!(matches!(
        sim.buffs[0],
        SlotState::Locked(_) | SlotState::Free(_)
    ));
}

#[test]
fn simulation_reroll_multiiple() {
    let mut sim = Simulation::new();
    let mut all_buffs = vec![];
    for _ in 0..10000 {
        sim.reroll();
        let buffs: Vec<_> = sim
            .buffs()
            .iter()
            .filter_map(|item| match item {
                SlotState::Free(b) => Some(b.clone()),
                SlotState::Locked(b) => Some(b.clone()),
                SlotState::Empty => None,
            })
            .collect();

        all_buffs.extend(buffs);
    }

    let all_buffs_len = all_buffs.len();

    let counts = counts_of(all_buffs);
    println!("counts: {:?}", counts);

    // For 10% buffs, assume they occur about 7%-13% of all buffs.
    let seven_percent = (0.07 * all_buffs_len as f64) as usize;
    let thirteen_percent = (0.13 * all_buffs_len as f64) as usize;

    assert!(counts[&Buff::Elemental] >= seven_percent);
    assert!(counts[&Buff::Elemental] <= thirteen_percent);
    assert!(counts[&Buff::Attack] >= seven_percent);
    assert!(counts[&Buff::Attack] <= thirteen_percent);
    assert!(counts[&Buff::CritDamage] >= seven_percent);
    assert!(counts[&Buff::CritDamage] <= thirteen_percent);
    assert!(counts[&Buff::Defense] >= seven_percent);
    assert!(counts[&Buff::Defense] <= thirteen_percent);

    // For 12% buffs, assume they occur about 9%-15% of all buffs.
    let nine_percent = (0.09 * all_buffs_len as f64) as usize;
    let fifteen_percent = (0.15 * all_buffs_len as f64) as usize;

    assert!(counts[&Buff::HitRate] >= nine_percent);
    assert!(counts[&Buff::HitRate] <= fifteen_percent);
    assert!(counts[&Buff::MaxAmmo] >= nine_percent);
    assert!(counts[&Buff::MaxAmmo] <= fifteen_percent);
    assert!(counts[&Buff::ChargeDamage] >= nine_percent);
    assert!(counts[&Buff::ChargeDamage] <= fifteen_percent);
    assert!(counts[&Buff::ChargeSpeed] >= nine_percent);
    assert!(counts[&Buff::ChargeSpeed] <= fifteen_percent);
    assert!(counts[&Buff::CritRate] >= nine_percent);
    assert!(counts[&Buff::CritRate] <= fifteen_percent);
}

#[test]
fn simulation_reroll_custom_module_count() {
    let mut sim = Simulation::new();
    for _ in 0..1000 {
        sim.reroll();
    }

    assert_eq!(sim.attempts, 1000);
    assert_eq!(sim.custom_modules, 1000);
}

#[test]
fn has_buff() {
    let mut sim = Simulation::new();
    sim.reroll();

    let SlotState::Free(buff) = &sim.buffs()[0] else {
        panic!("First slot on first roll must be free state.");
    };

    assert!(sim.has_buff(buff));
}

#[test]
fn locking_should_use_more_custom_modules() {
    let mut sim = Simulation::new();
    sim.reroll();

    assert_eq!(sim.custom_modules, 1);

    sim.lock_first();
    assert_eq!(sim.custom_modules, 3);
    sim.reroll();

    assert_eq!(sim.custom_modules, 5);
}

#[test]
fn locking_should_use_more_custom_modules_locking_two_slots() {
    let mut sim = Simulation::new();
    sim.reroll();

    assert_eq!(sim.custom_modules, 1);
    sim.lock_first();
    assert_eq!(sim.custom_modules, 3);

    // Make the second slot hold a buff that differs from the first one.
    if let SlotState::Locked(Buff::Attack) = sim.buffs[0] {
        sim.set_buff(1, &Buff::MaxAmmo);
    } else {
        sim.set_buff(1, &Buff::Attack);
    }
    sim.lock_second();
    assert_eq!(sim.custom_modules, 6);

    sim.reroll();

    assert_eq!(sim.custom_modules, 9);
}

#[test]
fn reroll_until_found_check_is_superset() {
    let mut pass = false;

    for _ in 0..10000 {
        let mut sim = Simulation::new();
        let want = vec![Buff::Attack];
        reroll_until_all_found(&mut sim, &want);

        let buffs: Vec<_> = sim
            .buffs()
            .iter()
            .filter_map(|item| match item {
                SlotState::Free(buff) | SlotState::Locked(buff) => Some(buff),
                _ => None,
            })
            .collect();

        // Look for a panel that shows more buffs than wanted.
        if buffs.len() <= want.len() {
            continue;
        }

        assert!(buffs.len() > want.len());

        for buff in want.iter() {
            assert!(buffs.contains(&buff));
        }
        pass = true;
        break;
    }

    assert!(pass);
}
