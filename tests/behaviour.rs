use buff_reroll::{
    count_hits, roll_fresh_panels,
    additional_slots, additional_slots_from_rolls, all_buffs, choose_buff, choose_index,
    has_all_buffs, pick_index, reroll_until_all_found, reroll_until_all_found_with_locking,
    run_trials, run_trials_with_locked_buff, sim_want_buffs, simulation_num_cus_mods_with_locking,
    slots_shown_tally, weight_sum, AdditionalSlots, Buff, LockPolicy, Simulation,
    SimulationResult, SlotState, DEFAULT_ATTEMPTS,
};

fn mean_of(modules: &[u64]) -> f64 {
    modules.iter().sum::<u64>() as f64 / modules.len() as f64
}

#[test]
fn percent_of_each_kind() {
    assert_eq!(Buff::Attack.percent(), 10);
    assert_eq!(Buff::Elemental.percent(), 10);
    assert_eq!(Buff::CritDamage.percent(), 10);
    assert_eq!(Buff::Defense.percent(), 10);
    assert_eq!(Buff::HitRate.percent(), 12);
    assert_eq!(Buff::MaxAmmo.percent(), 12);
    assert_eq!(Buff::ChargeDamage.percent(), 12);
    assert_eq!(Buff::ChargeSpeed.percent(), 12);
    assert_eq!(Buff::CritRate.percent(), 12);
}

#[test]
fn catalog_has_nine_distinct_buffs() {
    let all = all_buffs();
    assert_eq!(all.len(), 9);
    for i in 0..all.len() {
        for j in 0..all.len() {
            if i != j {
                assert_ne!(all[i], all[j]);
            }
        }
    }
    assert_eq!(weight_sum(&all), 100);
}

#[test]
fn weight_sum_of_empty_and_pair() {
    assert_eq!(weight_sum(&[]), 0);
    assert_eq!(weight_sum(&[Buff::Attack, Buff::MaxAmmo]), 22);
}

#[test]
fn pick_index_thresholds() {
    let buffs = [Buff::Attack, Buff::HitRate, Buff::Elemental];
    assert_eq!(pick_index(&buffs, 0), 0);
    assert_eq!(pick_index(&buffs, 9), 0);
    assert_eq!(pick_index(&buffs, 10), 1);
    assert_eq!(pick_index(&buffs, 21), 1);
    assert_eq!(pick_index(&buffs, 22), 2);
    assert_eq!(pick_index(&buffs, 31), 2);
}

#[test]
fn choose_from_single_candidate() {
    for b in all_buffs() {
        for _ in 0..100 {
            assert_eq!(choose_buff(&[b]), b);
        }
    }
}

#[test]
fn choose_index_stays_in_range_and_reaches_all() {
    let buffs = all_buffs();
    let mut seen = [false; 9];
    for _ in 0..5000 {
        let i = choose_index(&buffs);
        assert!(i < buffs.len());
        seen[i] = true;
    }
    assert!(seen.iter().all(|s| *s));
}

#[test]
fn extra_slots_from_rolls() {
    assert_eq!(additional_slots_from_rolls(49, 29), AdditionalSlots::SecondAndThird);
    assert_eq!(additional_slots_from_rolls(0, 0), AdditionalSlots::SecondAndThird);
    assert_eq!(additional_slots_from_rolls(50, 29), AdditionalSlots::ThirdOnly);
    assert_eq!(additional_slots_from_rolls(49, 30), AdditionalSlots::SecondOnly);
    assert_eq!(additional_slots_from_rolls(50, 30), AdditionalSlots::Neither);
    assert_eq!(additional_slots_from_rolls(99, 99), AdditionalSlots::Neither);
}

#[test]
fn extra_slots_roll_frequencies() {
    let mut counts = [0u32; 4];
    for _ in 0..20000 {
        let i = match additional_slots() {
            AdditionalSlots::Neither => 0,
            AdditionalSlots::SecondOnly => 1,
            AdditionalSlots::ThirdOnly => 2,
            AdditionalSlots::SecondAndThird => 3,
        };
        counts[i] += 1;
    }
    // Expected shares: 35%, 35%, 15%, 15%.
    assert!((6000..8000).contains(&counts[0]));
    assert!((6000..8000).contains(&counts[1]));
    assert!((2400..3600).contains(&counts[2]));
    assert!((2400..3600).contains(&counts[3]));
}

#[test]
fn fresh_panel_is_empty() {
    let sim = Simulation::new();
    assert_eq!(sim.attempts, 0);
    assert_eq!(sim.custom_modules, 0);
    assert_eq!(sim.buffs(), &[SlotState::Empty, SlotState::Empty, SlotState::Empty]);
    assert_eq!(sim.locked_count(), 0);
    assert_eq!(sim.shown_count(), 0);
}

#[test]
fn one_reroll_on_fresh_panel() {
    for _ in 0..1000 {
        let mut sim = Simulation::new();
        sim.reroll();
        assert_eq!(sim.attempts, 1);
        assert_eq!(sim.custom_modules, 1);
        assert!(matches!(sim.buffs[0], SlotState::Free(_)));
        assert!(matches!(sim.buffs[1], SlotState::Empty | SlotState::Free(_)));
        assert!(matches!(sim.buffs[2], SlotState::Empty | SlotState::Free(_)));
    }
}

#[test]
fn first_slot_never_empty_after_reroll() {
    let mut sim = Simulation::new();
    for _ in 0..2000 {
        sim.reroll();
        assert_ne!(sim.buffs[0], SlotState::Empty);
    }
}

#[test]
fn reroll_draws_distinct_buffs_and_keeps_locks() {
    for _ in 0..2000 {
        let mut sim = Simulation::new();
        sim.set_buff(1, &Buff::Attack);
        sim.lock(1);
        sim.reroll();
        assert_eq!(sim.buffs[1], SlotState::Locked(Buff::Attack));
        let first = match sim.buffs[0] {
            SlotState::Free(b) => b,
            other => panic!("unexpected first slot {:?}", other),
        };
        assert_ne!(first, Buff::Attack);
        if let SlotState::Free(third) = sim.buffs[2] {
            assert_ne!(third, Buff::Attack);
            assert_ne!(third, first);
        }
    }
}

#[test]
fn reroll_with_lock_then_reroll_costs_five() {
    let mut sim = Simulation::new();
    sim.reroll();
    sim.lock(0);
    sim.reroll();
    assert_eq!(sim.custom_modules, 1 + 2 + 2);
    assert_eq!(sim.attempts, 2);
    assert!(matches!(sim.buffs[0], SlotState::Locked(_)));
}

#[test]
fn lock_costs_escalate_and_stop_at_cap() {
    let mut sim = Simulation::new();
    sim.set_buff(0, &Buff::Attack);
    sim.set_buff(1, &Buff::Defense);
    sim.set_buff(2, &Buff::CritRate);
    sim.lock(0);
    assert_eq!(sim.custom_modules, 2);
    assert_eq!(sim.locked_count(), 1);
    sim.lock(1);
    assert_eq!(sim.custom_modules, 5);
    assert_eq!(sim.locked_count(), 2);
    sim.lock(2);
    assert_eq!(sim.custom_modules, 5);
    assert_eq!(sim.locked_count(), 2);
    assert_eq!(sim.buffs[2], SlotState::Free(Buff::CritRate));
}

#[test]
fn lock_on_empty_or_locked_slot_does_nothing() {
    let mut sim = Simulation::new();
    sim.lock(1);
    assert_eq!(sim.custom_modules, 0);
    assert_eq!(sim.buffs[1], SlotState::Empty);
    sim.set_buff(0, &Buff::HitRate);
    sim.lock(0);
    sim.lock(0);
    assert_eq!(sim.custom_modules, 2);
    assert_eq!(sim.buffs[0], SlotState::Locked(Buff::HitRate));
}

#[test]
fn lock_by_slot_name() {
    let mut sim = Simulation::new();
    sim.set_buff(0, &Buff::Attack);
    sim.set_buff(1, &Buff::Defense);
    sim.set_buff(2, &Buff::CritRate);
    sim.lock_third();
    assert_eq!(sim.buffs[2], SlotState::Locked(Buff::CritRate));
    assert_eq!(sim.custom_modules, 2);
    sim.lock_second();
    assert_eq!(sim.buffs[1], SlotState::Locked(Buff::Defense));
    assert_eq!(sim.custom_modules, 5);
    sim.lock_first();
    assert_eq!(sim.buffs[0], SlotState::Free(Buff::Attack));
    assert_eq!(sim.custom_modules, 5);
}

#[test]
fn set_buff_overwrites_without_cost() {
    let mut sim = Simulation::new();
    sim.set_buff(2, &Buff::MaxAmmo);
    sim.lock(2);
    sim.set_buff(2, &Buff::Defense);
    assert_eq!(sim.buffs[2], SlotState::Free(Buff::Defense));
    assert_eq!(sim.custom_modules, 2);
    assert_eq!(sim.attempts, 0);
    assert_eq!(sim.locked_count(), 0);
}

#[test]
fn queries_find_first_position() {
    let mut sim = Simulation::new();
    sim.set_buff(1, &Buff::Attack);
    sim.set_buff(2, &Buff::Attack);
    assert!(sim.has_buff(&Buff::Attack));
    assert_eq!(sim.position_of(&Buff::Attack), Some(1));
    assert!(!sim.has_buff(&Buff::Defense));
    assert_eq!(sim.position_of(&Buff::Defense), None);
    sim.lock(1);
    assert_eq!(sim.position_of(&Buff::Attack), Some(1));
}

#[test]
fn queries_repeat_the_same_answer() {
    let mut sim = Simulation::new();
    sim.reroll();
    for b in all_buffs() {
        let first = (sim.has_buff(&b), sim.position_of(&b));
        for _ in 0..5 {
            assert_eq!((sim.has_buff(&b), sim.position_of(&b)), first);
        }
        assert_eq!(first.0, first.1.is_some());
    }
}

#[test]
fn has_all_buffs_checks_every_wanted_buff() {
    let mut sim = Simulation::new();
    sim.set_buff(0, &Buff::Attack);
    sim.set_buff(2, &Buff::MaxAmmo);
    assert!(has_all_buffs(&sim, &[]));
    assert!(has_all_buffs(&sim, &[Buff::Attack, Buff::MaxAmmo]));
    assert!(!has_all_buffs(&sim, &[Buff::Attack, Buff::Defense]));
}

#[test]
fn no_lock_run_costs_one_module_per_reroll() {
    for _ in 0..200 {
        let mut sim = Simulation::new();
        let want = [Buff::ChargeDamage, Buff::ChargeSpeed];
        assert!(reroll_until_all_found(&mut sim, &want));
        assert!(sim.has_buff(&Buff::ChargeDamage));
        assert!(sim.has_buff(&Buff::ChargeSpeed));
        assert_eq!(sim.custom_modules, sim.attempts);
        assert_eq!(sim.locked_count(), 0);
    }
}

#[test]
fn locking_run_locks_wanted_buffs() {
    for _ in 0..200 {
        let mut sim = Simulation::new();
        let want = [Buff::Attack, Buff::MaxAmmo];
        assert!(reroll_until_all_found_with_locking(&mut sim, &want));
        for b in want.iter() {
            let pos = sim.position_of(b).unwrap();
            assert!(matches!(sim.buffs[pos], SlotState::Locked(_)));
        }
        assert_eq!(sim.locked_count(), 2);
        assert!(sim.custom_modules >= 1 + 2 + 3);
    }
}

#[test]
fn run_at_counter_limit_gives_up() {
    let mut sim = Simulation::new();
    sim.custom_modules = u32::MAX - 3;
    assert!(!reroll_until_all_found(&mut sim, &[Buff::Attack]));
    assert_eq!(sim.attempts, 0);
    assert!(!reroll_until_all_found_with_locking(&mut sim, &[Buff::Attack]));
    assert_eq!(sim.attempts, 0);
}

#[test]
fn single_rolls_that_show_nothing_wanted_all_hit() {
    assert_eq!(sim_want_buffs(&[], 500), 500);
    let hits = sim_want_buffs(&[Buff::Attack, Buff::Elemental], 2000);
    assert!(hits < 2000);
}

#[test]
fn slots_shown_distribution() {
    let tally = slots_shown_tally(20000);
    assert_eq!(tally.iter().sum::<u32>(), 20000);
    // Expected shares: 35% one slot, 50% two, 15% three.
    assert!((6200..7800).contains(&tally[0]));
    assert!((9000..11000).contains(&tally[1]));
    assert!((2400..3600).contains(&tally[2]));
}

#[test]
fn result_records_in_order() {
    let mut result = SimulationResult::new();
    assert!(result.modules.is_empty());
    result.record(7);
    result.record(3);
    assert_eq!(result.modules, vec![7u64, 3u64]);
    assert_eq!(result.locked_buff, None);
}

#[test]
fn run_trials_records_each_trial() {
    let r = run_trials(&[Buff::Attack], LockPolicy::NoLock, 300);
    assert_eq!(r.modules.len(), 300);
    assert_eq!(r.buffs, vec![Buff::Attack]);
    assert!(r.modules.iter().all(|m| *m >= 1));
}

#[test]
fn locked_buff_trials_cost_at_least_five() {
    let r = run_trials_with_locked_buff(Buff::Attack, 2, &[Buff::Elemental], 300);
    assert_eq!(r.locked_buff, Some(Buff::Attack));
    assert_eq!(r.modules.len(), 300);
    assert!(r.modules.iter().all(|m| *m >= 5));
}

#[test]
fn locking_experiment_mean_is_finite() {
    let locking = simulation_num_cus_mods_with_locking(&[Buff::Attack, Buff::MaxAmmo]);
    assert_eq!(locking.modules.len(), DEFAULT_ATTEMPTS as usize);
    let locking_mean = mean_of(&locking.modules);
    assert!(locking_mean.is_finite());
    assert!(locking_mean >= 6.0);

    let plain = run_trials(&[Buff::Attack, Buff::MaxAmmo], LockPolicy::NoLock, 2000);
    let plain_mean = mean_of(&plain.modules);
    assert!(plain_mean.is_finite());
    assert!(plain_mean >= 1.0);
}

#[test]
fn count_hits_counts_panels_showing_all() {
    let mut a = Simulation::new();
    a.set_buff(0, &Buff::Attack);
    a.set_buff(1, &Buff::MaxAmmo);
    let mut b = Simulation::new();
    b.set_buff(0, &Buff::Attack);
    let mut c = Simulation::new();
    c.set_buff(2, &Buff::MaxAmmo);
    c.set_buff(1, &Buff::Attack);
    let panels = vec![a, b, c];
    assert_eq!(count_hits(&panels, &[Buff::Attack, Buff::MaxAmmo]), 2);
    assert_eq!(count_hits(&panels, &[Buff::Attack]), 3);
    assert_eq!(count_hits(&panels, &[Buff::Defense]), 0);
    assert_eq!(count_hits(&panels, &[]), 3);
    assert_eq!(count_hits(&[], &[Buff::Attack]), 0);
}

#[test]
fn fresh_panels_are_rolled_once() {
    let panels = roll_fresh_panels(200);
    assert_eq!(panels.len(), 200);
    for p in panels.iter() {
        assert_eq!(p.attempts, 1);
        assert_eq!(p.custom_modules, 1);
        assert_eq!(p.locked_count(), 0);
        assert!(matches!(p.buffs[0], SlotState::Free(_)));
    }
}

#[test]
fn four_different_wanted_buffs_never_hit() {
    let want = [Buff::Attack, Buff::MaxAmmo, Buff::Defense, Buff::CritRate];
    assert_eq!(sim_want_buffs(&want, 3000), 0);
}

#[test]
fn locking_trials_for_two_buffs_cost_at_least_six() {
    let r = run_trials(&[Buff::Attack, Buff::MaxAmmo], LockPolicy::LockOnAcquire, 500);
    assert_eq!(r.modules.len(), 500);
    assert!(r.modules.iter().all(|m| *m >= 6));
}

#[test]
fn reroll_with_draws_picks_by_weight_band() {
    let mut sim = Simulation::new();
    sim.reroll_with_draws(AdditionalSlots::SecondAndThird, [0, 0, 0]);
    assert_eq!(sim.buffs[0], SlotState::Free(Buff::Elemental));
    assert_eq!(sim.buffs[1], SlotState::Free(Buff::HitRate));
    assert_eq!(sim.buffs[2], SlotState::Free(Buff::MaxAmmo));
    assert_eq!(sim.attempts, 1);
    assert_eq!(sim.custom_modules, 1);

    let mut sim = Simulation::new();
    sim.reroll_with_draws(AdditionalSlots::ThirdOnly, [10, 99, 9]);
    assert_eq!(sim.buffs[0], SlotState::Free(Buff::HitRate));
    assert_eq!(sim.buffs[1], SlotState::Empty);
    assert_eq!(sim.buffs[2], SlotState::Free(Buff::Elemental));
}

#[test]
fn reroll_with_draws_skips_locked_buffs() {
    let mut sim = Simulation::new();
    sim.set_buff(0, &Buff::Elemental);
    sim.lock(0);
    // Candidates: HitRate(12), MaxAmmo(12), Attack(10), ...
    sim.reroll_with_draws(AdditionalSlots::SecondAndThird, [0, 12, 12]);
    assert_eq!(sim.buffs[0], SlotState::Locked(Buff::Elemental));
    assert_eq!(sim.buffs[1], SlotState::Free(Buff::MaxAmmo));
    // With MaxAmmo taken out, 12 falls in Attack's band (12..22).
    assert_eq!(sim.buffs[2], SlotState::Free(Buff::Attack));
    assert_eq!(sim.custom_modules, 2 + 2);
}
