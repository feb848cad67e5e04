use movespan::{
    default_weight, plan_calls, plan_init, ArgSpec, CallSpec, Lcg, PlanError, PlannedArg,
    WorkloadSpec,
};

const MUL: u64 = 6_364_136_223_846_793_005;
const INC: u64 = 1_442_695_040_888_963_407;

fn step(s: u64) -> u64 {
    s.wrapping_mul(MUL).wrapping_add(INC)
}

fn call(function: &str, weight: u32, args: Vec<ArgSpec>) -> CallSpec {
    CallSpec {
        function: function.to_string(),
        weight,
        args,
    }
}

fn spec(accounts: usize, txns: usize, seed: u64, calls: Vec<CallSpec>) -> WorkloadSpec {
    WorkloadSpec {
        accounts,
        txns,
        seed,
        init: Vec::new(),
        calls,
    }
}

#[test]
fn generator_steps() {
    let mut rng = Lcg::new(0);
    assert_eq!(rng.next(), INC);
    assert_eq!(rng.next(), step(INC));
    let mut rng = Lcg::new(7);
    assert_eq!(rng.range(5, 5), 5);
    assert_eq!(rng.range(9, 3), 9);
    // an empty range does not advance the generator
    assert_eq!(rng.next(), step(7));
    let mut rng = Lcg::new(7);
    let x = rng.range(10, 20);
    assert_eq!(x, 10 + step(7) % 10);
    assert!((10..20).contains(&x));
}

#[test]
fn default_weight_is_one() {
    assert_eq!(default_weight(), 1);
}

#[test]
fn planning_errors() {
    let s = spec(5, 10, 1, vec![call("0x1::m::f", 1, vec![])]);
    assert_eq!(
        plan_calls(&s, 3).unwrap_err(),
        PlanError::NotEnoughAccounts { needed: 5, created: 3 }
    );
    let s = spec(0, 10, 1, vec![call("0x1::m::f", 1, vec![])]);
    assert_eq!(plan_calls(&s, 3).unwrap_err(), PlanError::NoAccounts);
    let s = spec(2, 10, 1, vec![]);
    assert_eq!(plan_calls(&s, 3).unwrap_err(), PlanError::NoCalls);
}

#[test]
fn plan_matches_the_seeded_generator() {
    let s = spec(
        3,
        4,
        42,
        vec![
            call("0xA::m::a", 1, vec![ArgSpec::ConstU64 { value: 0x0102 }]),
            call(
                "0xA::m::b",
                3,
                vec![ArgSpec::RandU64 { min: 1, max: 1000 }, ArgSpec::RandAccount],
            ),
        ],
    );
    let plan = plan_calls(&s, 5).unwrap();
    assert_eq!(plan.len(), 4);
    let mut state = 42 ^ 0x9E37_79B9_7F4A_7C15;
    let mut seqs = [0u64; 3];
    for p in &plan {
        state = step(state);
        let pick = state % 4;
        let template = if pick < 1 { 0 } else { 1 };
        assert_eq!(p.template, template);
        state = step(state);
        let sender = (state as usize) % 3;
        assert_eq!(p.sender, sender);
        assert_eq!(p.sequence_number, seqs[sender]);
        seqs[sender] += 1;
        if template == 0 {
            assert_eq!(p.args.len(), 1);
            match &p.args[0] {
                PlannedArg::Bytes(b) => assert_eq!(b, &vec![2, 1, 0, 0, 0, 0, 0, 0]),
                other => panic!("unexpected {other:?}"),
            }
        } else {
            assert_eq!(p.args.len(), 2);
            state = step(state);
            let v = 1 + state % 999;
            match &p.args[0] {
                PlannedArg::Bytes(b) => assert_eq!(b, &v.to_le_bytes().to_vec()),
                other => panic!("unexpected {other:?}"),
            }
            state = step(state);
            match &p.args[1] {
                PlannedArg::Account(i) => assert_eq!(*i, (state as usize) % 5),
                other => panic!("unexpected {other:?}"),
            }
        }
    }
}

#[test]
fn same_seed_same_plan() {
    let make = || {
        spec(
            4,
            50,
            9,
            vec![
                call("0xA::m::a", 2, vec![ArgSpec::RandU64 { min: 0, max: 10 }]),
                call("0xA::m::b", 0, vec![ArgSpec::RandAccount]),
            ],
        )
    };
    let a = plan_calls(&make(), 4).unwrap();
    let b = plan_calls(&make(), 4).unwrap();
    assert_eq!(format!("{a:?}"), format!("{b:?}"));
}

#[test]
fn sequence_numbers_count_up_per_sender() {
    let s = spec(
        3,
        30,
        5,
        vec![call(
            "0xA::m::a",
            1,
            vec![ArgSpec::ConstAddress {
                value: "0xBEEF".into(),
            }],
        )],
    );
    let plan = plan_calls(&s, 3).unwrap();
    let mut next = [0u64; 3];
    for p in &plan {
        assert!(p.sender < 3);
        assert_eq!(p.template, 0);
        assert_eq!(p.sequence_number, next[p.sender]);
        next[p.sender] += 1;
        match &p.args[0] {
            PlannedArg::Address(a) => assert_eq!(a, "0xBEEF"),
            other => panic!("unexpected {other:?}"),
        }
    }
    assert_eq!(next.iter().sum::<u64>(), 30);
}

#[test]
fn init_arguments_use_their_own_seed() {
    let s = WorkloadSpec {
        accounts: 2,
        txns: 0,
        seed: 3,
        init: vec![
            call("0xA::m::init", 1, vec![ArgSpec::ConstU64 { value: 7 }]),
            call("0xA::m::seed", 1, vec![ArgSpec::RandU64 { min: 100, max: 200 }]),
        ],
        calls: vec![],
    };
    let args = plan_init(&s, 2);
    assert_eq!(args.len(), 2);
    match &args[0][0] {
        PlannedArg::Bytes(b) => assert_eq!(b, &7u64.to_le_bytes().to_vec()),
        other => panic!("unexpected {other:?}"),
    }
    let v = 100 + step(3 ^ 0xD1B5_4A32_D192_ED03) % 100;
    match &args[1][0] {
        PlannedArg::Bytes(b) => assert_eq!(b, &v.to_le_bytes().to_vec()),
        other => panic!("unexpected {other:?}"),
    }
}
