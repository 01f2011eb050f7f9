//! A model of a three-slot buff panel that is rerolled at a cost, with
//! weighted draws without replacement, optional extra slots and slot locking,
//! together with the trial runner that measures how many custom modules it
//! takes to obtain a set of wanted buffs.
pub mod buff;
pub mod experiment;
pub mod panel;
pub mod sampler;

pub use buff::{all_buffs, Buff, BUFF_COUNT};
pub use experiment::{
    count_hits, has_all_buffs, reroll_until_all_found, roll_fresh_panels, reroll_until_all_found_with_locking, run_trials,
    run_trials_with_locked_buff, sim_want_buffs, simulation_first_desired_buff_locked,
    simulation_num_cus_mods_with_locking, simulation_num_custom_modules_for_specific_buffs,
    simulation_second_desired_buff_locked, simulation_with_locked_buff, slots_shown_tally,
    LockPolicy, SimulationResult, DEFAULT_ATTEMPTS,
};
pub use panel::{Simulation, SlotState, MAX_LOCK_COUNT, SLOT_COUNT};
pub use sampler::{
    additional_slots, additional_slots_from_rolls, choose_buff, choose_index, pick_index,
    weight_sum, AdditionalSlots,
};
