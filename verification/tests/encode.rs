use convolutional_stack::{encode, encode_, encode_step, getx, Gens};

#[test]
fn test_encode1() {
    let xs = vec![1, 0, 1, 1];
    let gs1 = Gens::new(vec![vec![1, 1, 1], vec![1, 0, 1]]);
    assert_eq!(encode_(&xs, &gs1), vec![1, 1, 1, 0, 0, 0, 0, 1]);

    let gs2 = Gens::new(vec![vec![1, 1, 1], vec![1, 1, 0]]);
    assert_eq!(encode_(&xs, &gs2), vec![1, 1, 1, 1, 0, 1, 0, 0]);
}

#[test]
fn test_encode2() {
    let gs = Gens::new(vec![vec![1, 1, 1], vec![1, 1, 0], vec![1, 0, 1]]);
    let xs1 = vec![1, 1, 1, 0];
    assert_eq!(
        encode(&xs1, &gs),
        vec![1, 1, 1, 0, 0, 1, 1, 0, 0, 0, 1, 1, 1, 0, 1, 0, 0, 0]
    );

    let xs2 = vec![1, 0, 1, 0];
    assert_eq!(
        encode(&xs2, &gs),
        vec![1, 1, 1, 1, 1, 0, 0, 1, 0, 1, 1, 0, 1, 0, 1, 0, 0, 0]
    );
}

#[test]
fn encode_appends_the_tail() {
    let xs = vec![1, 0, 1, 1];
    let gs = Gens::new(vec![vec![1, 1, 1], vec![1, 0, 1]]);
    let ys = encode(&xs, &gs);
    assert_eq!(ys, vec![1, 1, 1, 0, 0, 0, 0, 1, 0, 1, 1, 1]);
    assert_eq!(&ys[..8], &encode_(&xs, &gs)[..]);
}

#[test]
fn encode_length_is_exact() {
    let gs = Gens::new(vec![vec![1, 0, 1, 1], vec![1, 1, 0, 1], vec![1, 1, 1, 1]]);
    assert_eq!(gs.n, 3);
    assert_eq!(gs.m, 3);
    for len in 0..20usize {
        let xs: Vec<u8> = (0..len).map(|i| (i % 3 == 0) as u8).collect();
        assert_eq!(encode(&xs, &gs).len(), 3 * (len + 3));
        assert_eq!(encode_(&xs, &gs).len(), 3 * len);
    }
}

#[test]
fn encode_is_a_function_of_its_inputs() {
    let xs = vec![0, 1, 1, 0, 1];
    let a = Gens::new(vec![vec![1, 1, 1], vec![1, 0, 1]]);
    let b = Gens::new(vec![vec![1, 1, 1], vec![1, 0, 1]]);
    assert_eq!(encode(&xs, &a), encode(&xs.clone(), &b));
    assert_eq!(encode(&xs, &a), encode(&xs, &a));
}

#[test]
fn encode_of_nothing_is_the_tail_alone() {
    let gs = Gens::new(vec![vec![1, 1, 1], vec![1, 0, 1]]);
    assert_eq!(encode(&vec![], &gs), vec![0, 0, 0, 0]);
    assert_eq!(encode_(&vec![], &gs), Vec::<u8>::new());
}

#[test]
fn encode_with_memory_zero() {
    let gs = Gens::new(vec![vec![1], vec![1]]);
    assert_eq!(gs.m, 0);
    assert_eq!(encode(&vec![1, 0, 1], &gs), vec![1, 1, 0, 0, 1, 1]);
}

#[test]
fn encode_step_gives_one_block() {
    let gs = Gens::new(vec![vec![1, 1, 1], vec![1, 1, 0], vec![1, 0, 1]]);
    let xs = vec![1, 1, 1, 0, 0, 0];
    assert_eq!(encode_step(&xs, &gs, 0), vec![1, 1, 1]);
    assert_eq!(encode_step(&xs, &gs, 1), vec![0, 0, 1]);
    assert_eq!(encode_step(&xs, &gs, 2), vec![1, 0, 0]);
    assert_eq!(encode_step(&xs, &gs, 3), vec![0, 1, 1]);
    assert_eq!(encode_step(&xs, &gs, 4), vec![1, 0, 1]);
    assert_eq!(encode_step(&xs, &gs, 5), vec![0, 0, 0]);
}

#[test]
fn encode_step_reads_the_prefix_only() {
    let gs = Gens::new(vec![vec![1, 1, 1], vec![1, 0, 1]]);
    let long = vec![1, 0, 1, 1, 0, 1];
    for i in 0..long.len() {
        let prefix: Vec<u8> = long[..i + 1].to_vec();
        assert_eq!(encode_step(&prefix, &gs, i), encode_step(&long, &gs, i));
    }
}

#[test]
fn register_is_zero_outside_the_input() {
    let xs = vec![1, 0, 1];
    assert_eq!(getx(&xs, 0, 0), 1);
    assert_eq!(getx(&xs, 2, 0), 1);
    assert_eq!(getx(&xs, 2, 1), 0);
    assert_eq!(getx(&xs, 2, 2), 1);
    assert_eq!(getx(&xs, 2, 3), 0);
    assert_eq!(getx(&xs, 0, 5), 0);
    assert_eq!(getx(&xs, 3, 0), 0);
    assert_eq!(getx(&xs, 4, 2), 1);
    assert_eq!(getx(&vec![], 0, 0), 0);
}

#[test]
fn gens_new_reads_m_and_n() {
    let gs = Gens::new(vec![vec![1, 0, 1, 1], vec![1, 1, 1, 1]]);
    assert_eq!(gs.n, 2);
    assert_eq!(gs.m, 3);
    assert_eq!(gs.gs, vec![vec![1, 0, 1, 1], vec![1, 1, 1, 1]]);
}
