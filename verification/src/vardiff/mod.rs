pub mod classic;
pub mod decision_laws;
pub mod detector_laws;
pub mod filter_laws;
pub mod kf_vardiff;
pub mod laws;
pub mod update_laws;
pub mod wait_laws;
