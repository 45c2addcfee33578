use kmeans_color_gpu::batches::{centroid_batches, Batch};
use kmeans_color_gpu::error::{Error, ErrorKind};
use kmeans_color_gpu::lloyd::{
    convergence_words, ConvergenceVector, IterationOutcome, IterationPlan, LloydLoop,
    UpdateKernel, UpdatePlan,
};
use kmeans_color_gpu::options::ColorSpace;
use kmeans_color_gpu::seeding::{SeedingDispatch, SeedingKernel, SeedingPlan};

#[test]
fn batches_cut_the_centroids_in_runs() {
    assert_eq!(centroid_batches(0, 32), vec![]);
    assert_eq!(centroid_batches(1, 32), vec![Batch { start: 0, end: 1 }]);
    assert_eq!(centroid_batches(32, 32), vec![Batch { start: 0, end: 32 }]);
    assert_eq!(
        centroid_batches(70, 32),
        vec![
            Batch { start: 0, end: 32 },
            Batch { start: 32, end: 64 },
            Batch { start: 64, end: 70 }
        ]
    );
    assert_eq!(
        centroid_batches(128, 64),
        vec![Batch { start: 0, end: 64 }, Batch { start: 64, end: 128 }]
    );
    let last = centroid_batches(u32::MAX, 1 << 31);
    assert_eq!(last.len(), 2);
    assert_eq!(last[1], Batch { start: 1 << 31, end: u32::MAX });
}

#[test]
fn batches_cover_every_centroid_once() {
    for k in [0u32, 1, 31, 32, 33, 63, 64, 65, 200, 1000] {
        for chain in [1u32, 2, 32, 64] {
            let batches = centroid_batches(k, chain);
            let mut next = 0;
            for batch in &batches {
                assert_eq!(batch.start, next);
                assert!(batch.end > batch.start);
                assert!(batch.end - batch.start <= chain);
                next = batch.end;
            }
            assert_eq!(next, k);
        }
    }
}

#[test]
fn seeding_plan_sizes_the_scratch_buffers() {
    let plan = SeedingPlan::new((256, 256), 8).unwrap();
    assert_eq!(plan.k, 8);
    assert_eq!(plan.scan_groups, 16);
    assert_eq!(plan.distance_groups, (16, 16));
    assert_eq!(plan.prefix_buffer_size, 256);
    assert_eq!(plan.flag_buffer_size, 64);
    assert_eq!(plan.part_id_buffer_size, 4);
    assert_eq!(plan.staging_buffer_size, 144);
    let plan = SeedingPlan::new((130, 1), 1).unwrap();
    assert_eq!(plan.scan_groups, 1);
    assert_eq!(plan.distance_groups, (9, 1));
    assert_eq!(SeedingPlan::new((65536, 65536), 2), Err(Error::ImageTooLarge));
    assert!(SeedingPlan::new((65535, 65537), 2).is_ok());
}

#[test]
fn seeding_takes_the_first_centroid_and_picks_the_others() {
    let plan = SeedingPlan::new((100, 50), 40).unwrap();
    assert_eq!(
        plan.dispatches(0),
        vec![SeedingDispatch { kernel: SeedingKernel::Initial, groups: (1, 1, 1) }]
    );
    assert_eq!(
        plan.dispatches(7),
        vec![
            SeedingDispatch { kernel: SeedingKernel::CalcDiff, groups: (7, 4, 1) },
            SeedingDispatch { kernel: SeedingKernel::Scan, groups: (2, 1, 1) },
            SeedingDispatch { kernel: SeedingKernel::Pick, groups: (1, 1, 1) },
        ]
    );
    assert_eq!(
        plan.batches(),
        vec![Batch { start: 0, end: 32 }, Batch { start: 32, end: 40 }]
    );
}

#[test]
fn update_plan_sizes_the_scratch_buffers() {
    let plan = UpdatePlan::new((256, 256), 8, &ColorSpace::Lab).unwrap();
    assert_eq!(plan.reduce_groups, 13);
    assert_eq!(plan.color_buffer_size, 13 * 32);
    assert_eq!(plan.flag_buffer_size, 52);
    assert_eq!(plan.convergence_buffer_size, 36);
    assert_eq!(plan.n_seq, 20);
    assert_eq!(plan.epsilon, (1, 1));
    let plan = UpdatePlan::new((10, 10), 100, &ColorSpace::Rgb).unwrap();
    assert_eq!(plan.reduce_groups, 1);
    assert_eq!(plan.epsilon, (1, 100));
    assert_eq!(
        plan.batches(),
        vec![Batch { start: 0, end: 64 }, Batch { start: 64, end: 100 }]
    );
    let dispatches = plan.dispatches();
    assert_eq!(dispatches.len(), 2);
    assert_eq!(dispatches[0].kernel, UpdateKernel::Reduce);
    assert_eq!(dispatches[0].groups, (1, 1, 1));
    assert_eq!(dispatches[1].kernel, UpdateKernel::Pick);
    assert_eq!(UpdatePlan::new((1 << 20, 1 << 12), 2, &ColorSpace::Lab), Err(Error::ImageTooLarge));
}

#[test]
fn convergence_vector_holds_flags_and_their_sum() {
    let vector = ConvergenceVector::from_words(vec![1, 0, 1, 2], 3).unwrap();
    assert!(!vector.converged());
    let vector = ConvergenceVector::from_words(vec![1, 1, 1, 3], 3).unwrap();
    assert!(vector.converged());
    let vector = ConvergenceVector::from_words(vec![0], 0).unwrap();
    assert!(vector.converged());
    for (words, k) in [
        (vec![1, 1, 1, 2], 3),
        (vec![1, 1, 1, 4], 3),
        (vec![2, 0, 0, 2], 3),
        (vec![1, 1, 1], 3),
        (vec![1, 1, 1, 3, 0], 3),
        (vec![], 0),
    ] {
        assert_eq!(
            ConvergenceVector::from_words(words, k).err(),
            Some(Error::LayoutMismatch)
        );
    }
}

#[test]
fn all_flags_set_means_the_sum_is_k() {
    for k in 0u32..40 {
        let mut words = vec![1u32; k as usize];
        words.push(k);
        assert!(ConvergenceVector::from_words(words, k).unwrap().converged());
        if k > 0 {
            let mut words = vec![1u32; k as usize];
            words[0] = 0;
            words.push(k - 1);
            assert!(!ConvergenceVector::from_words(words, k).unwrap().converged());
        }
    }
}

#[test]
fn convergence_words_decode_the_buffer() {
    let mut bytes = vec![];
    for word in [1u32, 0, 1, 2] {
        bytes.extend_from_slice(&word.to_ne_bytes());
    }
    assert_eq!(convergence_words(&bytes), Ok(vec![1, 0, 1, 2]));
    assert_eq!(convergence_words(&0x0a0b_0c0du32.to_ne_bytes()), Ok(vec![0x0a0b_0c0d]));
    assert_eq!(convergence_words(&bytes[..15]), Err(Error::LayoutMismatch));
    assert_eq!(convergence_words(&[]), Ok(vec![]));
}

fn vector(settled: u32, k: u32) -> ConvergenceVector {
    let mut words = vec![0u32; k as usize];
    for flag in words.iter_mut().take(settled as usize) {
        *flag = 1;
    }
    words.push(settled);
    ConvergenceVector::from_words(words, k).unwrap()
}

#[test]
fn the_loop_checks_convergence_every_eighth_iteration() {
    let mut state = LloydLoop::new();
    let mut checked = vec![];
    while let Some(plan) = state.next() {
        assert_eq!(plan.iteration, state.iterations());
        let outcome = if plan.check_convergence {
            checked.push(plan.iteration);
            IterationOutcome::Checked(vector(1, 4))
        } else {
            IterationOutcome::Submitted
        };
        state.record(&outcome);
    }
    assert_eq!(state.iterations(), 128);
    assert!(state.is_finished());
    assert_eq!(checked, (1..16).map(|i| i * 8).collect::<Vec<u32>>());
}

#[test]
fn the_loop_stops_when_the_centroids_have_settled() {
    let mut state = LloydLoop::new();
    assert_eq!(
        state.next(),
        Some(IterationPlan { iteration: 0, check_convergence: false })
    );
    for _ in 0..8 {
        state.record(&IterationOutcome::Submitted);
    }
    assert_eq!(
        state.next(),
        Some(IterationPlan { iteration: 8, check_convergence: true })
    );
    state.record(&IterationOutcome::Checked(vector(3, 4)));
    assert!(!state.is_finished());
    for _ in 9..16 {
        state.record(&IterationOutcome::Submitted);
    }
    assert_eq!(
        state.next(),
        Some(IterationPlan { iteration: 16, check_convergence: true })
    );
    state.record(&IterationOutcome::Checked(vector(4, 4)));
    assert!(state.is_finished());
    assert_eq!(state.iterations(), 17);
    assert_eq!(state.next(), None);
}

#[test]
fn the_loop_stops_when_the_vector_cannot_be_mapped() {
    let mut state = LloydLoop::new();
    for _ in 0..8 {
        state.record(&IterationOutcome::Submitted);
    }
    state.record(&IterationOutcome::MapFailed);
    assert!(state.is_finished());
    assert_eq!(state.iterations(), 9);
    assert_eq!(Error::MapFailed.kind(), ErrorKind::BufferMap);
}
