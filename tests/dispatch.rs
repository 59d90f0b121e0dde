use matmul_pool::{
    collect, dot_product, make_task, plan_queue, run_pool, run_queue, run_task, worker_of, Matrix,
    MatrixError, MsgInput, MsgOutput, WORKERS,
};

#[test]
fn dot_product_sums_products() {
    assert_eq!(dot_product(vec![1, 2, 3], vec![4, 5, 6]), Ok(32));
    assert_eq!(dot_product(Vec::<i64>::new(), Vec::new()), Ok(0));
}

#[test]
fn dot_product_unequal_lengths() {
    assert_eq!(dot_product(vec![1, 2, 3], vec![4, 5]), Err(MatrixError::ShapeMismatch));
}

#[test]
fn routing_is_index_modulo_pool_size() {
    assert_eq!(WORKERS, 4);
    assert_eq!(worker_of(0), 0);
    assert_eq!(worker_of(5), 1);
    assert_eq!(worker_of(11), 3);
}

#[test]
fn task_holds_row_and_column() {
    let a = Matrix::new(vec![1, 2, 3, 4, 5, 6], 2, 3);
    let b = Matrix::new(vec![7, 8, 9, 10, 11, 12], 3, 2);
    let task = make_task(&a, &b, 3);
    assert_eq!(task.idx(), 3);
    let reply = run_task(task).unwrap();
    assert_eq!(reply.idx(), 3);
    // row 1 of a is [4, 5, 6], column 1 of b is [8, 10, 12]
    assert_eq!(reply.value(), 4 * 8 + 5 * 10 + 6 * 12);
}

#[test]
fn task_with_unequal_vectors_fails() {
    let task = MsgInput::new(0, vec![1, 2], vec![3]);
    assert!(matches!(run_task(task), Err(MatrixError::ShapeMismatch)));
}

#[test]
fn queues_partition_the_cells() {
    let a = Matrix::new(vec![1; 9], 3, 3);
    let b = Matrix::new(vec![1; 9], 3, 3);
    let mut seen = vec![0; 9];
    for w in 0..WORKERS {
        let q = plan_queue(&a, &b, w);
        let mut last = None;
        for task in q.iter() {
            assert_eq!(worker_of(task.idx()), w);
            if let Some(l) = last {
                assert_eq!(task.idx(), l + WORKERS);
            }
            last = Some(task.idx());
            seen[task.idx()] += 1;
        }
    }
    assert_eq!(seen, vec![1; 9]);
}

#[test]
fn worker_stops_at_a_bad_task() {
    let q = vec![
        MsgInput::new(0, vec![2], vec![3]),
        MsgInput::new(4, vec![1, 2], vec![3]),
        MsgInput::new(8, vec![5], vec![5]),
    ];
    let r = run_queue(q);
    assert_eq!(r.len(), 1);
    assert_eq!(r[0].idx(), 0);
    assert_eq!(r[0].value(), 6);
}

#[test]
fn collect_in_any_order() {
    let forward = vec![MsgOutput::new(0, 10), MsgOutput::new(1, 20), MsgOutput::new(2, 30)];
    let shuffled = vec![MsgOutput::new(2, 30), MsgOutput::new(0, 10), MsgOutput::new(1, 20)];
    assert_eq!(collect(&forward, 3), Ok(vec![10, 20, 30]));
    assert_eq!(collect(&shuffled, 3), collect(&forward, 3));
}

#[test]
fn collect_missing_reply() {
    let replies = vec![MsgOutput::new(0, 1), MsgOutput::new(2, 3)];
    assert_eq!(collect(&replies, 3), Err(MatrixError::WorkerUnavailable));
}

#[test]
fn collect_duplicate_reply() {
    let replies = vec![MsgOutput::new(0, 1), MsgOutput::new(1, 2), MsgOutput::new(1, 2)];
    assert_eq!(collect(&replies, 2), Err(MatrixError::WorkerUnavailable));
}

#[test]
fn collect_out_of_range_reply() {
    let replies = vec![MsgOutput::new(0, 1), MsgOutput::new(5, 2)];
    assert_eq!(collect(&replies, 2), Err(MatrixError::WorkerUnavailable));
}

#[test]
fn collect_nothing_for_no_cells() {
    let replies: Vec<MsgOutput<i32>> = vec![];
    assert_eq!(collect(&replies, 0), Ok(vec![]));
}

#[test]
fn pool_replies_once_per_cell() {
    let a = Matrix::new(vec![2, 0, 1, 3, 0, 0, 5, 1, 1], 3, 3);
    let b = Matrix::new(vec![1, 0, 1, 1, 2, 1, 1, 1, 0], 3, 3);
    let replies = run_pool(&a, &b);
    assert_eq!(replies.len(), 9);
    let mut cells = vec![None; 9];
    for r in replies.iter() {
        assert!(cells[r.idx()].is_none());
        cells[r.idx()] = Some(r.value());
    }
    let want = [3, 1, 2, 3, 0, 3, 7, 3, 6];
    for i in 0..9 {
        assert_eq!(cells[i], Some(want[i]));
    }
    assert_eq!(collect(&replies, 9), Ok(want.to_vec()));
}
