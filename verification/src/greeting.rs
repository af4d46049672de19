use vstd::prelude::*;

verus! {

/// The greeting for the local hour: morning from 5 to 11, afternoon from 12 to 17,
/// evening from 18 to 21, night otherwise or where the hour is unknown.
pub open spec fn greeting_spec(hour: Option<i32>) -> Seq<char> {
    match hour {
        Some(h) => if 5 <= h <= 11 {
            "Good_Morning.wav"@
        } else if 12 <= h <= 17 {
            "Good_Afternoon.wav"@
        } else if 18 <= h <= 21 {
            "Good_Evening.wav"@
        } else {
            "Good_Night.wav"@
        },
        None => "Good_Night.wav"@,
    }
}

/// The greeting clip for the local hour.
pub fn greeting_clip(hour: Option<i32>) -> (r: &'static str)
    ensures
        r@ == greeting_spec(hour),
{
    match hour {
        Some(h) => if 5 <= h && h <= 11 {
            "Good_Morning.wav"
        } else if 12 <= h && h <= 17 {
            "Good_Afternoon.wav"
        } else if 18 <= h && h <= 21 {
            "Good_Evening.wav"
        } else {
            "Good_Night.wav"
        },
        None => "Good_Night.wav",
    }
}

} // verus!
