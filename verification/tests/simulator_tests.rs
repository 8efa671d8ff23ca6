use modbridge::client::number_registers;
use modbridge::sim_config::{default_delta, default_period, default_step, Behavior, RegisterConfig};
use modbridge::simulator::{
    config_plan, config_tick, counter_value, make_registers, make_registers_with_config,
    modbus_response, next_tick, next_value, random_walk_tick, read_request, request_fits_bank,
    seed_registers, walk_value, RandomSource, NUM_REGISTERS,
};

fn cfg(address: u16, initial: u16, behavior: Behavior) -> RegisterConfig {
    RegisterConfig {
        address,
        initial,
        behavior,
        delta: default_delta(),
        step: default_step(),
        min: None,
        max: None,
        period: default_period(),
    }
}

#[test]
fn config_defaults() {
    assert_eq!(default_delta(), 50);
    assert_eq!(default_step(), 1);
    assert_eq!(default_period(), 60);
    assert_eq!(Behavior::default(), Behavior::Walk);
}

#[test]
fn fresh_bank_has_100_values_in_range() {
    let regs = make_registers(&mut RandomSource::new());
    assert_eq!(regs.len(), NUM_REGISTERS);
    assert!(regs.iter().all(|v| (1000..5000).contains(v)));
}

#[test]
fn seeding_uses_the_last_config_and_ignores_outside_addresses() {
    let configs = vec![
        cfg(40001, 7, Behavior::Static),
        cfg(40100, 9, Behavior::Counter),
        cfg(40001, 11, Behavior::Walk),
        cfg(40101, 13, Behavior::Static),
        cfg(40000, 15, Behavior::Static),
    ];
    let regs = make_registers_with_config(&configs, &mut RandomSource::new());
    assert_eq!(regs.len(), 100);
    assert_eq!(regs[0], 11);
    assert_eq!(regs[99], 9);
    assert!(regs[1..99].iter().all(|v| (1000..5000).contains(v)));

    let mut fixed = vec![3u16; 100];
    seed_registers(&mut fixed, &configs);
    assert_eq!(fixed[0], 11);
    assert_eq!(fixed[99], 9);
    assert!(fixed[1..99].iter().all(|v| *v == 3));

    let plan = config_plan(&configs);
    assert_eq!(plan.len(), 100);
    assert_eq!(plan[0].map(|c| c.initial), Some(11));
    assert_eq!(plan[99].map(|c| c.behavior), Some(Behavior::Counter));
    assert!(plan[1..99].iter().all(|c| c.is_none()));
}

#[test]
fn walk_clamps_to_register_range() {
    assert_eq!(walk_value(0, -50), 0);
    assert_eq!(walk_value(65535, 50), 65535);
    assert_eq!(walk_value(100, -7), 93);
    assert_eq!(walk_value(65500, 50), 65535);
}

#[test]
fn counter_wraps_modulo_65536() {
    assert_eq!(counter_value(65535, 1), 0);
    assert_eq!(counter_value(0, -1), 65535);
    assert_eq!(counter_value(10, -70000), 61082);
    assert_eq!(counter_value(10, 5), 15);
    assert_eq!(counter_value(0, i32::MIN), 0);
    assert_eq!(counter_value(65535, i32::MAX), 65534);
    let mut v = 65530u16;
    for _ in 0..10 {
        v = counter_value(v, 1);
    }
    assert_eq!(v, 4);
}

#[test]
fn next_value_follows_behavior() {
    assert_eq!(next_value(None, 100, -3, 0), 97);
    assert_eq!(next_value(Some(cfg(40001, 0, Behavior::Static)), 100, -3, 7), 100);
    assert_eq!(next_value(Some(cfg(40001, 0, Behavior::Walk)), 100, 4, 7), 104);
    assert_eq!(next_value(Some(cfg(40001, 0, Behavior::Counter)), 100, 4, 7), 101);
    assert_eq!(next_value(Some(cfg(40001, 0, Behavior::Sine)), 100, 4, 7), 7);
}

#[test]
fn ticks_keep_values_within_their_steps() {
    let mut source = RandomSource::new();
    let mut regs = make_registers(&mut source);
    let before = regs.clone();
    random_walk_tick(&mut regs, &mut source);
    assert_eq!(regs.len(), 100);
    for (a, b) in before.iter().zip(regs.iter()) {
        assert!((*a as i32 - *b as i32).abs() <= 50);
    }

    let mut walker = cfg(40004, 0, Behavior::Walk);
    walker.delta = 0;
    let configs = vec![
        cfg(40001, 500, Behavior::Static),
        cfg(40002, 65535, Behavior::Counter),
        cfg(40003, 0, Behavior::Sine),
        walker,
    ];
    let plan = config_plan(&configs);
    let mut regs = make_registers_with_config(&configs, &mut source);
    let before = regs.clone();
    let mut sine = vec![0u16; 100];
    sine[2] = 1234;
    config_tick(&mut regs, &plan, &sine, &mut source);
    assert_eq!(regs[0], 500);
    assert_eq!(regs[1], 0);
    assert_eq!(regs[2], 1234);
    assert_eq!(regs[3], before[3]);
    for i in 4..100 {
        assert!((before[i] as i32 - regs[i] as i32).abs() <= 50);
    }
}

#[test]
fn tick_counter_wraps() {
    assert_eq!(next_tick(0), 1);
    assert_eq!(next_tick(u64::MAX), 0);
}

fn request(fc: u8, start: u16, qty: u16) -> Vec<u8> {
    let mut f = vec![0x12, 0x34, 0, 0, 0, 6, 1, fc];
    f.extend_from_slice(&start.to_be_bytes());
    f.extend_from_slice(&qty.to_be_bytes());
    f
}

#[test]
fn answers_read_holding_registers() {
    let regs: Vec<u16> = (0..100).map(|i| 1000 + i).collect();
    let f = request(3, 2, 2);
    assert!(read_request(&f));
    assert!(request_fits_bank(&f));
    let r = modbus_response(&f, &regs).unwrap();
    assert_eq!(r, vec![0x12, 0x34, 0, 0, 0, 7, 1, 3, 4, 0x03, 0xEA, 0x03, 0xEB]);
}

#[test]
fn answers_read_input_registers_from_the_same_bank() {
    let regs: Vec<u16> = (0..100).map(|i| 0x0100 * i).collect();
    let r = modbus_response(&request(4, 1, 1), &regs).unwrap();
    assert_eq!(r, vec![0x12, 0x34, 0, 0, 0, 5, 1, 4, 2, 0x01, 0x00]);
}

#[test]
fn cuts_reads_at_the_end_of_the_bank() {
    let regs = vec![5u16; 100];
    let r = modbus_response(&request(3, 98, 10), &regs).unwrap();
    assert_eq!(r, vec![0x12, 0x34, 0, 0, 0, 7, 1, 3, 4, 0, 5, 0, 5]);
    let r = modbus_response(&request(3, 100, 3), &regs).unwrap();
    assert_eq!(r, vec![0x12, 0x34, 0, 0, 0, 3, 1, 3, 0]);
}

#[test]
fn ignores_other_and_incomplete_frames() {
    let regs = vec![5u16; 100];
    assert_eq!(modbus_response(&request(6, 0, 1), &regs), None);
    assert_eq!(modbus_response(&[0, 1, 0, 0, 0, 6, 1], &regs), None);
    let mut long = request(3, 0, 1);
    long[5] = 20;
    assert_eq!(modbus_response(&long, &regs), None);
    assert_eq!(modbus_response(&request(3, 0, 1)[..11], &regs), None);
}

#[test]
fn flags_reads_beyond_the_bank() {
    assert!(!request_fits_bank(&request(3, 101, 1)));
    assert!(request_fits_bank(&request(6, 101, 1)));
    assert!(request_fits_bank(&request(4, 100, 1)));
}

#[test]
fn a_client_reading_the_reply_gets_the_bank() {
    let regs: Vec<u16> = (0..100).map(|i| 3 * i + 7).collect();
    let r = modbus_response(&request(3, 10, 4), &regs).unwrap();
    let words: Vec<u16> = r[9..]
        .chunks(2)
        .map(|p| u16::from_be_bytes([p[0], p[1]]))
        .collect();
    assert_eq!(
        number_registers(40011, &words),
        vec![(40011, regs[10]), (40012, regs[11]), (40013, regs[12]), (40014, regs[13])]
    );
}
