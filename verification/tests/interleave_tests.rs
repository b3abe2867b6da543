use durapack::interleave::{deinterleave_bytes, interleave_bytes, InterleaveParams};
use rand::{RngCore, SeedableRng};

#[test]
fn round_trip_interleave_deinterleave() {
    let mut rng = rand::rngs::StdRng::seed_from_u64(123);
    let mut data = vec![0u8; 10_000];
    rng.fill_bytes(&mut data);

    let params = InterleaveParams::new(5, 257);
    let stripes = interleave_bytes(&data, params);
    assert_eq!(stripes.len(), 5);
    let reconstructed = deinterleave_bytes(&stripes, params);
    assert_eq!(reconstructed.len(), data.len());
    assert_eq!(&reconstructed[..], &data[..]);
}
