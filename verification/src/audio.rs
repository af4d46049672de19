use vstd::prelude::*;
use crate::text::{append_chars, chars_of, string_of, string_views, text};

verus! {

/// The spoken acknowledgements.
#[derive(Clone, Copy, Debug, PartialEq, Eq, Structural)]
pub enum VoiceClip {
    Done,
    Sorry,
    Understood,
    TimerSet,
    TimerRemoved,
}

/// The file of each clip.
pub open spec fn clip_file(c: VoiceClip) -> Seq<char> {
    match c {
        VoiceClip::Done => "Done.wav"@,
        VoiceClip::Sorry => "Sorry.wav"@,
        VoiceClip::Understood => "Understood.wav"@,
        VoiceClip::TimerSet => "Timer_Set.wav"@,
        VoiceClip::TimerRemoved => "Timer_Removed.wav"@,
    }
}

impl VoiceClip {
    /// The file name of the clip.
    pub fn filename(self) -> (r: &'static str)
        ensures
            r@ == clip_file(self),
    {
        match self {
            VoiceClip::Done => "Done.wav",
            VoiceClip::Sorry => "Sorry.wav",
            VoiceClip::Understood => "Understood.wav",
            VoiceClip::TimerSet => "Timer_Set.wav",
            VoiceClip::TimerRemoved => "Timer_Removed.wav",
        }
    }
}

/// The audio players to look for, in order.
pub open spec fn players() -> Seq<Seq<char>> {
    seq!["pw-play"@, "paplay"@, "aplay"@]
}

/// The players tried in turn where none is configured.
pub fn player_candidates() -> (r: Vec<String>)
    ensures
        string_views(r@) == players(),
{
    let mut r: Vec<String> = Vec::new();
    r.push(text("pw-play"));
    r.push(text("paplay"));
    r.push(text("aplay"));
    assert(string_views(r@) =~= players());
    r
}

/// Where the voice clips are, and the audio player found, if any.
#[derive(Clone)]
pub struct VoicePlayer {
    directory: String,
    player: Option<String>,
}

impl VoicePlayer {
    /// A player of the clips in `directory`, with the configured player program, if any.
    pub fn new(directory: String, player: Option<String>) -> (r: Self)
        ensures
            r.directory() == directory@,
            r.player() == match player {
                Some(p) => Some(p@),
                None => None::<Seq<char>>,
            },
    {
        VoicePlayer { directory, player }
    }

    /// The directory of the clips.
    pub closed spec fn directory(&self) -> Seq<char> {
        self.directory@
    }

    /// The configured player program, if any.
    pub closed spec fn player(&self) -> Option<Seq<char>> {
        match self.player {
            Some(p) => Some(p@),
            None => None,
        }
    }

    /// The directory of the clips.
    pub fn directory_str(&self) -> (r: &str)
        ensures
            r@ == self.directory(),
    {
        self.directory.as_str()
    }

    /// The program that plays a clip, given where the clip is and whether it exists:
    /// refused where the clip is missing, then where no player was found.
    pub fn program_for(&self, clip_path: &str, clip_exists: bool) -> (r: Result<String, String>)
        ensures
            !clip_exists ==> (r matches Err(e) && e@ == "voice clip not found: "@ + clip_path@),
            clip_exists && self.player() is None ==> (r matches Err(e) && e@
                == "no supported audio player found (pw-play, paplay, or aplay)"@),
            clip_exists && self.player() is Some ==> (r matches Ok(p) && Some(p@) == self.player()),
    {
        if !clip_exists {
            let mut m = chars_of("voice clip not found: ");
            append_chars(&mut m, chars_of(clip_path).as_slice());
            return Err(string_of(m.as_slice()));
        }
        match &self.player {
            None => Err(text("no supported audio player found (pw-play, paplay, or aplay)")),
            Some(p) => Ok(p.clone()),
        }
    }
}

} // verus!
