//! What the media pipeline reads of an edit: media, tracks and clips.

use vstd::prelude::*;

use crate::double::Real;

verus! {

/// What a track carries.
#[derive(Clone, Copy, Debug, PartialEq, Eq, Structural)]
pub enum TrackKind {
    Video,
    Audio,
    Text,
}

/// What a media file is.
#[derive(Clone, Copy, Debug, PartialEq, Eq, Structural)]
pub enum MediaKind {
    Video,
    Audio,
    Image,
    Gif,
}

/// How a layer combines with what lies below.
#[derive(Clone, Copy, Debug, PartialEq, Eq, Structural)]
pub enum BlendMode {
    Normal,
    Multiply,
    Screen,
    Overlay,
    Add,
}

/// A media file of the project.
#[derive(Debug)]
pub struct Media {
    pub id: u64,
    pub path: String,
    pub kind: MediaKind,
    pub has_video: bool,
    pub has_audio: bool,
    pub has_alpha: bool,
}

/// A clip: a window of a source placed on the timeline. Text clips have no
/// media.
#[derive(Clone, Copy, Debug)]
pub struct Clip {
    pub id: u64,
    pub media_id: Option<u64>,
    pub timeline_in: Real,
    pub timeline_out: Real,
    pub source_in: Real,
    pub source_out: Real,
    pub speed: Real,
    pub volume: Real,
    pub opacity: Real,
    /// The transform neither moves, scales nor turns the picture.
    pub identity_transform: bool,
    pub blend_mode: BlendMode,
    /// A transition sits on the clip's out cut.
    pub transition_out: bool,
}

/// A track and its clips in timeline order.
#[derive(Debug)]
pub struct Track {
    pub id: u64,
    pub kind: TrackKind,
    pub hidden: bool,
    pub muted: bool,
    pub clips: Vec<Clip>,
}

/// A project snapshot.
#[derive(Debug)]
pub struct Project {
    pub media: Vec<Media>,
    pub tracks: Vec<Track>,
}

/// Where the media with `id` stands in the pool; its length if it is absent.
pub open spec fn media_pos(media: Seq<Media>, id: u64) -> int
    decreases media.len(),
{
    if media.len() == 0 {
        0
    } else if media[0].id == id {
        0
    } else {
        1 + media_pos(media.drop_first(), id)
    }
}

/// The position holds the first media with `id`, where there is one.
pub proof fn lemma_media_pos(media: Seq<Media>, id: u64)
    ensures
        0 <= media_pos(media, id) <= media.len(),
        forall|k: int| 0 <= k < media_pos(media, id) ==> (#[trigger] media[k]).id != id,
        media_pos(media, id) < media.len() ==> media[media_pos(media, id)].id == id,
    decreases media.len(),
{
    if media.len() > 0 && media[0].id != id {
        lemma_media_pos(media.drop_first(), id);
        assert forall|k: int| 0 <= k < media_pos(media, id) implies (#[trigger] media[k]).id
            != id by {
            if k > 0 {
                assert(media.drop_first()[k - 1] == media[k]);
            }
        }
    }
}

/// The media a clip shows, if it has one and the pool holds it.
pub open spec fn clip_media(project: Project, clip: Clip) -> Option<Media> {
    match clip.media_id {
        Some(id) => {
            let k = media_pos(project.media@, id);
            if k < project.media@.len() {
                Some(project.media@[k])
            } else {
                None
            }
        },
        None => None,
    }
}

impl Project {
    /// The media with `id`.
    pub fn media_by_id(&self, id: u64) -> (out: Option<&Media>)
        ensures
            match out {
                Some(m) => media_pos(self.media@, id) < self.media@.len() && *m
                    == self.media@[media_pos(self.media@, id)],
                None => media_pos(self.media@, id) == self.media@.len(),
            },
    {
        proof {
            lemma_media_pos(self.media@, id);
        }
        for i in 0..self.media.len()
            invariant
                forall|k: int| 0 <= k < i ==> (#[trigger] self.media@[k]).id != id,
                0 <= media_pos(self.media@, id) <= self.media@.len(),
                forall|k: int|
                    0 <= k < media_pos(self.media@, id) ==> (#[trigger] self.media@[k]).id != id,
                media_pos(self.media@, id) < self.media@.len() ==> self.media@[media_pos(
                    self.media@,
                    id,
                )].id == id,
        {
            if self.media[i].id == id {
                proof {
                    assert(self.media@[i as int].id == id);
                    assert(media_pos(self.media@, id) == i);
                }
                return Some(&self.media[i]);
            }
        }
        None
    }

    /// The media a clip shows.
    pub fn media_of(&self, clip: &Clip) -> (out: Option<&Media>)
        ensures
            match (out, clip_media(*self, *clip)) {
                (Some(m), Some(expected)) => *m == expected,
                (None, None) => true,
                _ => false,
            },
    {
        match clip.media_id {
            Some(id) => self.media_by_id(id),
            None => None,
        }
    }
}

/// Whether a list of ids holds one.
pub fn holds_id(list: &Vec<u64>, id: u64) -> (out: bool)
    ensures
        out == list@.contains(id),
{
    for i in 0..list.len()
        invariant
            forall|k: int| 0 <= k < i ==> list@[k] != id,
    {
        if list[i] == id {
            return true;
        }
    }
    false
}

/// A clip shows the media that carries its id: the first such one of the pool.
/// It shows none exactly if it names none or the pool does not hold it.
pub proof fn law_clips_show_the_media_they_name(project: Project, clip: Clip)
    ensures
        clip_media(project, clip) matches Some(m) ==> clip.media_id == Some(m.id) && exists|k: int|
            #![trigger project.media@[k]]
            0 <= k < project.media@.len() && project.media@[k] == m && forall|j: int|
                0 <= j < k ==> (#[trigger] project.media@[j]).id != m.id,
        clip_media(project, clip) is None ==> clip.media_id is None || forall|k: int|
            0 <= k < project.media@.len() ==> clip.media_id != Some((#[trigger] project.media@[k]).id),
{
    if let Some(id) = clip.media_id {
        lemma_media_pos(project.media@, id);
    }
}

} // verus!
