use plasma::engine::{
    basis_label, counts, repetitions, select_engine, total_shots, Engine, Notice, Precision, Refusal,
    Request,
};

fn request() -> Request {
    Request {
        gpu: false,
        fuse: false,
        stabilizer: false,
        mps: None,
        precision: Precision::F32,
        noise: false,
        over_tolerance: false,
        clifford: true,
        mps_suitable: true,
    }
}

#[test]
fn plain_requests() {
    assert_eq!(select_engine(request()), (vec![], Ok(Engine::Statevector)));
    assert_eq!(
        select_engine(Request { gpu: true, ..request() }),
        (vec![], Ok(Engine::Gpu))
    );
    assert_eq!(
        select_engine(Request { fuse: true, ..request() }),
        (vec![], Ok(Engine::Fused))
    );
    assert_eq!(
        select_engine(Request { gpu: true, fuse: true, ..request() }),
        (vec![], Ok(Engine::Gpu))
    );
    assert_eq!(
        select_engine(Request { stabilizer: true, ..request() }),
        (vec![], Ok(Engine::Stabilizer))
    );
    assert_eq!(
        select_engine(Request { mps: Some(16), ..request() }),
        (vec![], Ok(Engine::Mps(16)))
    );
}

#[test]
fn precision_decides_about_the_accelerator() {
    let gpu = Request { gpu: true, ..request() };
    assert_eq!(
        select_engine(Request { precision: Precision::F64, ..gpu }),
        (vec![Notice::PrecisionForcesCpu], Ok(Engine::Statevector))
    );
    assert_eq!(
        select_engine(Request { precision: Precision::Auto, ..gpu }),
        (vec![], Ok(Engine::Gpu))
    );
    assert_eq!(
        select_engine(Request { precision: Precision::Auto, over_tolerance: true, ..gpu }),
        (vec![Notice::ToleranceForcesCpu], Ok(Engine::Statevector))
    );
    assert_eq!(
        select_engine(Request { over_tolerance: true, ..gpu }),
        (vec![], Ok(Engine::Gpu))
    );
}

#[test]
fn noise_runs_on_the_plain_state_vector() {
    assert_eq!(
        select_engine(Request { gpu: true, fuse: true, noise: true, ..request() }),
        (
            vec![Notice::NoiseForcesCpu, Notice::NoiseForcesUnfused],
            Ok(Engine::Statevector)
        )
    );
}

#[test]
fn the_matrix_product_engine_goes_first() {
    let all = Request { gpu: true, fuse: true, stabilizer: true, mps: Some(4), ..request() };
    let said = vec![Notice::MpsForcesCpu, Notice::MpsIgnoresFuse, Notice::MpsOverStabilizer];
    assert_eq!(select_engine(all), (said.clone(), Ok(Engine::Mps(4))));
    assert_eq!(
        select_engine(Request { mps: Some(0), ..all }),
        (said.clone(), Err(Refusal::BondTooSmall))
    );
    let mut more = said.clone();
    more.push(Notice::MpsUnsuitable);
    assert_eq!(
        select_engine(Request { mps_suitable: false, ..all }),
        (more, Ok(Engine::Statevector))
    );
    assert_eq!(
        select_engine(Request { mps: Some(4), noise: true, ..request() }),
        (vec![], Err(Refusal::MpsWithNoise))
    );
}

#[test]
fn the_tableau_engine() {
    let all = Request { gpu: true, fuse: true, stabilizer: true, ..request() };
    let said = vec![Notice::StabilizerForcesCpu, Notice::StabilizerForcesUnfused];
    assert_eq!(select_engine(all), (said.clone(), Ok(Engine::Stabilizer)));
    let mut more = said.clone();
    more.push(Notice::NotClifford);
    assert_eq!(
        select_engine(Request { clifford: false, ..all }),
        (more, Ok(Engine::Statevector))
    );
    assert_eq!(
        select_engine(Request { stabilizer: true, noise: true, ..request() }),
        (vec![], Err(Refusal::StabilizerWithNoise))
    );
}

#[test]
fn repetitions_of_a_program() {
    assert_eq!(repetitions(Some(7), false), Some(7));
    assert_eq!(repetitions(Some(7), true), None);
    assert_eq!(repetitions(None, false), None);
}

#[test]
fn totals_and_labels() {
    assert_eq!(total_shots(&[]), 0);
    assert_eq!(total_shots(&[u32::MAX, 1, 5]), 4294967301);
    assert_eq!(basis_label(5, 4), "0101");
    assert_eq!(basis_label(0, 1), "0");
    assert_eq!(basis_label(1, 1), "1");
    assert_eq!(basis_label(7, 0), "");
    assert_eq!(
        counts(&[3, 0, 0, 7], 2),
        vec![("00".to_string(), 3), ("11".to_string(), 7)]
    );
    assert!(counts(&[0, 0], 1).is_empty());
}
