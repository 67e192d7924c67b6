pub mod epistemic;
