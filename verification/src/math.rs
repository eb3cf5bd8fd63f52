pub mod linalg;
pub mod normalize;
pub mod topk;
