use convolutional_stack::{
    create_noise, decode, decode_, encode, end_node, remove_final_m, CodePath, FanoWeights, Gens,
    SCALE, WEIGHT_LIMIT,
};

fn f64_eq(a: &f64, b: &f64, eps: &f64) -> bool {
    (a - b).abs() < *eps
}

/// The weights of a binary symmetric channel with crossover probability `p`,
/// rounded apart, so that agreeing earns more than differing wherever the
/// two logarithms differ.
fn weights(p: f64) -> FanoWeights {
    let py = 0.5f64;
    FanoWeights {
        agree: (((1f64 - p) / py).log2() * SCALE as f64).ceil() as i64,
        differ: ((p / py).log2() * SCALE as f64).floor() as i64,
    }
}

fn bits(mu: i128) -> f64 {
    mu as f64 / SCALE as f64
}

fn threshold(p: f64) -> u32 {
    (p * u32::MAX as f64) as u32
}

#[test]
fn test_decode_and_fano() {
    let obs = vec![0, 0, 1, 0, 0, 1, 0, 1, 1, 1, 0, 1];
    let gs = Gens::new(vec![vec![1, 1, 1], vec![1, 1, 0], vec![1, 0, 1]]);
    let p = 1f64 / 16f64;
    assert_eq!(vec![1, 1], decode(&obs, &gs, &weights(p)));

    // using the same params we can test the fano metric too
    let best = decode_(&obs, &gs, &weights(p)).1.pop().unwrap();
    assert!(f64_eq(&-0.9310940439148156, &bits(best.mu), &1e-6));
}

#[test]
fn test_system() {
    let orig = vec![0, 1, 0, 1];
    let gs = Gens::new(vec![vec![1, 1, 1], vec![1, 1, 0], vec![1, 0, 1]]);
    let p = 1f64 / 10f64;

    // the channel is random: a run in which it flips too much is run again
    let mut recovered = false;
    for _ in 0..200 {
        let ys = create_noise(&encode(&orig, &gs), threshold(p));
        let xs = decode(&ys, &gs, &weights(p));
        assert_eq!(xs.len(), orig.len());
        if xs == orig {
            recovered = true;
            break;
        }
    }
    assert!(recovered);
}

#[test]
fn fano_along_the_zero_path() {
    let obs = vec![0, 0, 1, 0, 0, 1, 0, 1, 1, 1, 0, 1];
    let gs = Gens::new(vec![vec![1, 1, 1], vec![1, 1, 0], vec![1, 0, 1]]);
    let w = weights(1f64 / 16f64);
    let mut node = CodePath::root();
    assert_eq!(node.mu, 0);
    for _ in 0..3 {
        node.fano(0, &obs, &gs, &w);
    }
    assert_eq!(node.path, vec![0, 0, 0]);
    node.fano(0, &obs, &gs, &w);
    assert_eq!(node.path, vec![0, 0, 0, 0]);
    assert_eq!(node.code, vec![0, 0, 0]);
    assert!(f64_eq(&-16.55865642634889, &bits(node.mu), &1e-6));
}

#[test]
fn fano_step_is_exact() {
    let obs = vec![0, 0, 1, 0, 0, 1];
    let gs = Gens::new(vec![vec![1, 1, 1], vec![1, 1, 0], vec![1, 0, 1]]);
    let w = FanoWeights { agree: 7, differ: -100 };
    let mut node = CodePath::root();
    // the block of input 1 is 1 1 1: two bits differ, one agrees
    node.fano(1, &obs, &gs, &w);
    assert_eq!(node.path, vec![1]);
    assert_eq!(node.code, vec![1, 1, 1]);
    assert_eq!(node.mu, 7 - 200 - SCALE as i128);
    // the block of input 1 after 1 is 0 0 1: all three agree
    node.fano(1, &obs, &gs, &w);
    assert_eq!(node.path, vec![1, 1]);
    assert_eq!(node.code, vec![0, 0, 1]);
    assert_eq!(node.mu, 7 - 200 + 21 - 2 * SCALE as i128);
}

#[test]
fn fano_is_additive() {
    let obs = vec![1, 0, 0, 1, 1, 1, 0, 0, 1, 0];
    let gs = Gens::new(vec![vec![1, 0, 1], vec![1, 1, 1]]);
    let w = weights(0.2);
    let path = [1u8, 0, 1, 1, 0];
    let mut node = CodePath::root();
    let mut sum: i128 = 0;
    for (k, x) in path.iter().enumerate() {
        let before = node.mu;
        node.fano(*x, &obs, &gs, &w);
        let block = node.code.clone();
        let mut delta: i128 = -(SCALE as i128);
        for j in 0..2 {
            if block[j] == obs[2 * k + j] {
                delta += w.agree as i128;
            } else {
                delta += w.differ as i128;
            }
        }
        assert_eq!(node.mu - before, delta);
        sum += delta;
        assert_eq!(node.mu, sum);
    }
}

#[test]
fn extend_branches_in_two_then_in_one() {
    let obs = vec![0, 0, 1, 0, 0, 1, 0, 1, 1, 1, 0, 1];
    let gs = Gens::new(vec![vec![1, 1, 1], vec![1, 1, 0], vec![1, 0, 1]]);
    let w = FanoWeights { agree: 10, differ: -10 };
    let kids = CodePath::root().extend(2, &obs, &gs, &w);
    assert_eq!(kids.len(), 2);
    assert_eq!(kids[0].path, vec![0]);
    assert_eq!(kids[0].code, vec![0, 0, 0]);
    assert_eq!(kids[0].mu, 10 - SCALE as i128);
    assert_eq!(kids[1].path, vec![1]);
    assert_eq!(kids[1].code, vec![1, 1, 1]);
    assert_eq!(kids[1].mu, -10 - SCALE as i128);

    let mut deep = CodePath::root();
    deep.fano(1, &obs, &gs, &w);
    deep.fano(1, &obs, &gs, &w);
    let before = deep.mu;
    let kids = deep.extend(2, &obs, &gs, &w);
    assert_eq!(kids.len(), 1);
    assert_eq!(kids[0].path, vec![1, 1, 0]);
    assert_eq!(kids[0].code, vec![0, 1, 1]);
    assert_eq!(kids[0].mu, before + 30 - SCALE as i128);
}

#[test]
fn decode_record_is_in_order_of_creation() {
    let obs = vec![0, 0, 1, 0, 0, 1, 0, 1, 1, 1, 0, 1];
    let gs = Gens::new(vec![vec![1, 1, 1], vec![1, 1, 0], vec![1, 0, 1]]);
    let w = weights(1f64 / 16f64);
    let (xs, paths) = decode_(&obs, &gs, &w);
    assert_eq!(xs, vec![1, 1]);
    let seen: Vec<Vec<u8>> = paths.iter().map(|p| p.path.clone()).collect();
    assert_eq!(
        seen,
        vec![
            vec![0],
            vec![1],
            vec![0, 0],
            vec![0, 1],
            vec![0, 0, 0],
            vec![1, 0],
            vec![1, 1],
            vec![1, 1, 0],
            vec![1, 1, 0, 0],
        ]
    );
    assert_eq!(end_node(&paths, &xs, gs.m), Some(8));
    let last = &paths[8];
    assert_eq!(last.code, vec![1, 0, 1]);
    assert!(f64_eq(&-0.9310940439148156, &bits(last.mu), &1e-6));
    // the node of the least metric is the one-zero branch, two steps of which
    // one agrees with nothing received
    assert!(f64_eq(&-16.093109404391484, &bits(paths[5].mu), &1e-6));
}

#[test]
fn decode_round_trip_without_noise() {
    let gs = Gens::new(vec![vec![1, 1, 1], vec![1, 1, 0], vec![1, 0, 1]]);
    for p in [0.01, 0.1, 0.25, 0.49] {
        for value in 0..64u32 {
            let xs: Vec<u8> = (0..6).map(|i| ((value >> i) & 1) as u8).collect();
            assert_eq!(decode(&encode(&xs, &gs), &gs, &weights(p)), xs);
        }
    }
}

#[test]
fn decode_round_trip_at_rate_one() {
    let gs = Gens::new(vec![vec![1, 0, 1]]);
    for value in 0..32u32 {
        let xs: Vec<u8> = (0..5).map(|i| ((value >> i) & 1) as u8).collect();
        assert_eq!(decode(&encode(&xs, &gs), &gs, &weights(0.1)), xs);
    }
}

#[test]
fn decode_corrects_one_flipped_bit() {
    let gs = Gens::new(vec![vec![1, 1, 1], vec![1, 1, 0], vec![1, 0, 1]]);
    let xs = vec![0, 1, 0, 1];
    let sent = encode(&xs, &gs);
    for i in 0..sent.len() {
        let mut got = sent.clone();
        got[i] = 1 - got[i];
        assert_eq!(decode(&got, &gs, &weights(0.1)), xs);
    }
}

#[test]
fn decode_of_the_tail_alone_is_empty() {
    let gs = Gens::new(vec![vec![1, 1, 1], vec![1, 0, 1]]);
    let (xs, paths) = decode_(&vec![0, 0, 0, 0], &gs, &weights(0.1));
    assert_eq!(xs, Vec::<u8>::new());
    let seen: Vec<Vec<u8>> = paths.iter().map(|p| p.path.clone()).collect();
    assert_eq!(seen, vec![vec![0], vec![0, 0]]);
    assert_eq!(end_node(&paths, &xs, gs.m), Some(1));
}

#[test]
fn decode_takes_the_older_of_two_equal_nodes() {
    // one generator that is all zero: every block agrees with zeros received
    let gs = Gens::new(vec![vec![0, 0]]);
    let w = FanoWeights { agree: SCALE, differ: 0 };
    let (xs, paths) = decode_(&vec![0, 0, 0], &gs, &w);
    assert_eq!(xs, vec![0, 0]);
    assert!(paths.iter().all(|p| p.mu == 0));
}

#[test]
fn decode_takes_extreme_weights() {
    let gs = Gens::new(vec![vec![1, 1, 1], vec![1, 0, 1]]);
    let w = FanoWeights { agree: WEIGHT_LIMIT, differ: -WEIGHT_LIMIT };
    let xs = vec![1, 0, 0, 1, 1];
    assert_eq!(decode(&encode(&xs, &gs), &gs, &w), xs);
}

#[test]
fn remove_final_m_strips_the_tail() {
    assert_eq!(remove_final_m(vec![1, 0, 1, 0, 0], 2), vec![1, 0, 1]);
    assert_eq!(remove_final_m(vec![1, 0], 0), vec![1, 0]);
    assert_eq!(remove_final_m(vec![0, 0], 2), Vec::<u8>::new());
}

#[test]
fn decode_round_trip_needs_a_generator_without_delay() {
    // every generator delays by seven steps, and a clean step earns
    // something: the search follows the zero branch, whose blocks agree
    // with what was received down to the last step
    let gs = Gens::new(vec![
        vec![0, 0, 0, 0, 0, 0, 0, 1],
        vec![0, 0, 0, 0, 0, 0, 0, 1],
        vec![0, 0, 0, 0, 0, 0, 0, 1],
    ]);
    let w = weights(1f64 / 16f64);
    assert!(3 * w.agree > SCALE);
    let xs = vec![1];
    let sent = encode(&xs, &gs);
    assert_eq!(sent.len(), 24);
    assert_eq!(&sent[21..], &[1, 1, 1]);
    assert_eq!(decode(&sent, &gs, &w), vec![0]);
}

#[test]
fn decode_round_trip_with_delay_where_a_clean_step_earns_nothing() {
    // the same delay at rate one, where every step costs: the search comes
    // back to the path that was sent
    let gs = Gens::new(vec![vec![0, 0, 0, 1]]);
    let w = weights(0.1);
    assert!(w.agree <= SCALE);
    for value in 0..16u32 {
        let xs: Vec<u8> = (0..4).map(|i| ((value >> i) & 1) as u8).collect();
        assert_eq!(decode(&encode(&xs, &gs), &gs, &w), xs);
    }
}

#[test]
fn decode_gives_the_input_length_whatever_is_received() {
    let gs = Gens::new(vec![vec![1, 1, 1], vec![1, 0, 1]]);
    let w = weights(0.3);
    for value in 0..1024u32 {
        let obs: Vec<u8> = (0..10).map(|i| ((value >> i) & 1) as u8).collect();
        let (xs, paths) = decode_(&obs, &gs, &w);
        assert_eq!(xs.len(), 3);
        assert!(xs.iter().all(|&x| x <= 1));
        // the tree of three free steps and two forced ones has 31 nodes,
        // and the root is not made
        assert!(paths.len() <= 30);
        let last = &paths[end_node(&paths, &xs, gs.m).unwrap()];
        assert_eq!(last.path.len(), 5);
        assert_eq!(&last.path[..3], &xs[..]);
        assert_eq!(&last.path[3..], &[0, 0]);
    }
}

#[test]
fn decode_ignores_bits_beyond_the_last_whole_block() {
    let gs = Gens::new(vec![vec![1, 1, 1], vec![1, 1, 0], vec![1, 0, 1]]);
    let w = weights(1f64 / 16f64);
    let obs = vec![0, 0, 1, 0, 0, 1, 0, 1, 1, 1, 0, 1, 1, 1];
    assert_eq!(decode(&obs, &gs, &w), vec![1, 1]);
}

#[test]
fn decode_result_is_beaten_by_no_path_all_the_way() {
    let gs = Gens::new(vec![vec![1, 1, 1], vec![1, 1, 0], vec![1, 0, 1]]);
    let w = weights(0.2);
    for value in 0..4096u32 {
        let obs: Vec<u8> = (0..12).map(|i| ((value >> i) & 1) as u8).collect();
        let (xs, paths) = decode_(&obs, &gs, &w);
        let end = paths[end_node(&paths, &xs, gs.m).unwrap()].mu;
        // each of the four whole paths has a beginning of one step at least
        // that earns no more
        for first in 0..2u8 {
            for second in 0..2u8 {
                let mut node = CodePath::root();
                node.fano(first, &obs, &gs, &w);
                let mut least = node.mu;
                for x in [second, 0, 0] {
                    node.fano(x, &obs, &gs, &w);
                    least = least.min(node.mu);
                }
                assert!(least <= end);
            }
        }
    }
}

#[test]
fn decode_record_may_go_on_after_the_end_node_is_made() {
    let gs = Gens::new(vec![vec![1, 1, 1], vec![1, 1, 0], vec![1, 0, 1]]);
    let obs = vec![1, 0, 0, 1, 1, 1, 0, 0, 0, 0, 0, 0];
    let (xs, paths) = decode_(&obs, &gs, &weights(0.2));
    assert_eq!(xs, vec![0, 1]);
    let seen: Vec<Vec<u8>> = paths.iter().map(|p| p.path.clone()).collect();
    assert_eq!(
        seen,
        vec![
            vec![0],
            vec![1],
            vec![0, 0],
            vec![0, 1],
            vec![0, 1, 0],
            vec![0, 1, 0, 0],
            vec![1, 0],
            vec![1, 1],
            vec![1, 0, 0],
        ]
    );
    assert_eq!(end_node(&paths, &xs, gs.m), Some(5));
}

#[test]
fn decode_record_of_the_root_alone_is_empty() {
    let gs = Gens::new(vec![vec![1], vec![1]]);
    let (xs, paths) = decode_(&vec![], &gs, &weights(0.1));
    assert_eq!(xs, Vec::<u8>::new());
    assert_eq!(paths.len(), 0);
    assert_eq!(end_node(&paths, &xs, gs.m), None);
    // one bit short of a block is no block
    let (xs, paths) = decode_(&vec![1], &gs, &weights(0.1));
    assert_eq!(xs, Vec::<u8>::new());
    assert_eq!(paths.len(), 0);
}

#[test]
fn end_node_is_the_first_of_the_path_asked_for() {
    let a = CodePath { path: vec![1, 0, 0], code: vec![], mu: 1 };
    let b = CodePath { path: vec![1, 1, 0], code: vec![], mu: 2 };
    let c = CodePath { path: vec![1, 0, 0], code: vec![], mu: 3 };
    let paths = vec![a, b, c];
    assert_eq!(end_node(&paths, &vec![1], 2), Some(0));
    assert_eq!(end_node(&paths, &vec![1, 0], 1), Some(0));
    assert_eq!(end_node(&paths, &vec![1, 1], 1), Some(1));
    assert_eq!(end_node(&paths, &vec![1, 1, 0], 0), Some(1));
    assert_eq!(end_node(&paths, &vec![1, 1], 2), None);
    assert_eq!(end_node(&paths, &vec![], 3), None);
    assert_eq!(end_node(&paths, &vec![1, 0, 0, 0], 0), None);
    assert_eq!(end_node(&paths, &vec![1], usize::MAX), None);
}

#[test]
fn weights_near_one_half_still_tell_agreeing_from_differing() {
    let gs = Gens::new(vec![vec![1, 1, 1], vec![1, 0, 1]]);
    let w = weights(0.5 - 1e-12);
    assert!(w.differ < w.agree);
    for value in 0..32u32 {
        let xs: Vec<u8> = (0..5).map(|i| ((value >> i) & 1) as u8).collect();
        assert_eq!(decode(&encode(&xs, &gs), &gs, &w), xs);
    }
}
