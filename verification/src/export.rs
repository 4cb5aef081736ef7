use vstd::prelude::*;

verus! {

/// The sample rate that the impulse response is written for.
pub const SAMPLE_RATE: u32 = 44100;

/// The metadata of an impulse-response export.
pub struct OutputMetadata {
    pub sample_rate: u32,
    pub rays_cast: u32,
    pub rays_received: u32,
    pub room_name: String,
}

/// The metadata for `hits_received` hits out of `rays_cast` rays. The count
/// of hits is stored as a `u32`, wrapping as `as` does.
pub fn output_metadata(rays_cast: u32, hits_received: usize) -> (res: OutputMetadata)
    ensures
        res.sample_rate == SAMPLE_RATE,
        res.rays_cast == rays_cast,
        res.rays_received == hits_received as u32,
        res.room_name@ == "MVP_Test_Room_3D"@,
{
    OutputMetadata {
        sample_rate: SAMPLE_RATE,
        rays_cast,
        rays_received: hits_received as u32,
        room_name: "MVP_Test_Room_3D".to_owned(),
    }
}

} // verus!
