//! Dense matrix multiplication split into per-cell dot-product tasks that are
//! routed to a fixed pool of workers, with the replies assembled by index.
pub mod dispatch;
pub mod matrix;
pub mod metrics;
pub mod scalar;
pub mod task;

pub use dispatch::{
    collect, make_task, multiply, plan_queue, run_pool, run_queue, worker_of, WORKERS,
};
pub use matrix::Matrix;
pub use metrics::Metrics;
pub use scalar::Scalar;
pub use task::{dot_product, run_task, MatrixError, MsgInput, MsgOutput};
