//! The container-muxing collaborator: a placeholder that accepts format
//! configuration and encoded chunks and, on finalization, emits an empty
//! payload. It performs no container or codec work; it only collects.

use vstd::prelude::*;

verus! {

/// The mathematical image of a configured video track.
pub struct VideoSettings {
    pub width: int,
    pub height: int,
    pub codec: Seq<char>,
}

/// The mathematical image of a configured audio track.
pub struct AudioSettings {
    pub sample_rate: int,
    pub channels: int,
    pub codec: Seq<char>,
}

/// The mathematical image of a muxer: the chunk payloads collected so
/// far, in arrival order, and the configured formats.
pub struct MuxerModel {
    pub video_chunks: Seq<Seq<u8>>,
    pub audio_chunks: Seq<Seq<u8>>,
    pub video_config: Option<VideoSettings>,
    pub audio_config: Option<AudioSettings>,
}

struct VideoConfig {
    width: u32,
    height: u32,
    codec: String,
}

struct AudioConfig {
    sample_rate: u32,
    channels: u32,
    codec: String,
}

/// Collects encoded video and audio chunks for a container payload.
pub struct Muxer {
    video_chunks: Vec<Vec<u8>>,
    audio_chunks: Vec<Vec<u8>>,
    video_config: Option<VideoConfig>,
    audio_config: Option<AudioConfig>,
}

impl View for Muxer {
    type V = MuxerModel;

    closed spec fn view(&self) -> MuxerModel {
        MuxerModel {
            video_chunks: self.video_chunks.deep_view(),
            audio_chunks: self.audio_chunks.deep_view(),
            video_config: match self.video_config {
                Option::Some(c) => Option::Some(
                    VideoSettings { width: c.width as int, height: c.height as int, codec: c.codec@ },
                ),
                Option::None => Option::None,
            },
            audio_config: match self.audio_config {
                Option::Some(c) => Option::Some(
                    AudioSettings {
                        sample_rate: c.sample_rate as int,
                        channels: c.channels as int,
                        codec: c.codec@,
                    },
                ),
                Option::None => Option::None,
            },
        }
    }
}

/// Appending to a vector of byte buffers appends the buffer's bytes to
/// its deep view.
proof fn lemma_deep_view_push(pre: Vec<Vec<u8>>, post: Vec<Vec<u8>>, data: Vec<u8>)
    requires
        post@ == pre@.push(data),
    ensures
        post.deep_view() == pre.deep_view().push(data@),
{
    assert forall|i: int| 0 <= i < post@.len() implies #[trigger] post.deep_view()[i]
        == pre.deep_view().push(data@)[i] by {
        if i < pre@.len() {
            assert(post@[i] == pre@[i]);
        } else {
            assert(post@[i] == data);
            assert(data.deep_view() =~= data@);
        }
    }
    assert(post.deep_view() =~= pre.deep_view().push(data@));
}

impl Muxer {
    /// A fresh muxer: no chunks, no configuration.
    pub fn new() -> (mx: Self)
        ensures
            mx@.video_chunks.len() == 0,
            mx@.audio_chunks.len() == 0,
            mx@.video_config is None,
            mx@.audio_config is None,
    {
        let mx = Muxer {
            video_chunks: Vec::new(),
            audio_chunks: Vec::new(),
            video_config: None,
            audio_config: None,
        };
        proof {
            assert(mx@.video_chunks =~= Seq::<Seq<u8>>::empty());
            assert(mx@.audio_chunks =~= Seq::<Seq<u8>>::empty());
        }
        mx
    }

    /// Records the video track parameters; chunks already collected and
    /// the audio configuration are untouched.
    pub fn configure_video(&mut self, width: u32, height: u32, codec: &str)
        ensures
            final(self)@.video_config == Option::Some(
                VideoSettings { width: width as int, height: height as int, codec: codec@ },
            ),
            final(self)@.audio_config == old(self)@.audio_config,
            final(self)@.video_chunks == old(self)@.video_chunks,
            final(self)@.audio_chunks == old(self)@.audio_chunks,
    {
        self.video_config = Some(VideoConfig { width, height, codec: codec.to_string() });
    }

    /// Records the audio track parameters; chunks already collected and
    /// the video configuration are untouched.
    pub fn configure_audio(&mut self, sample_rate: u32, channels: u32, codec: &str)
        ensures
            final(self)@.audio_config == Option::Some(
                AudioSettings {
                    sample_rate: sample_rate as int,
                    channels: channels as int,
                    codec: codec@,
                },
            ),
            final(self)@.video_config == old(self)@.video_config,
            final(self)@.video_chunks == old(self)@.video_chunks,
            final(self)@.audio_chunks == old(self)@.audio_chunks,
    {
        self.audio_config = Some(AudioConfig { sample_rate, channels, codec: codec.to_string() });
    }

    /// Appends an encoded video chunk's payload. The timestamp and the
    /// key-frame flag accompany the chunk at the boundary; the
    /// placeholder retains only the payload bytes.
    pub fn add_video_chunk(&mut self, data: Vec<u8>, _timestamp_us: u64, _is_key: bool)
        ensures
            final(self)@.video_chunks == old(self)@.video_chunks.push(data@),
            final(self)@.audio_chunks == old(self)@.audio_chunks,
            final(self)@.video_config == old(self)@.video_config,
            final(self)@.audio_config == old(self)@.audio_config,
    {
        let ghost pre = self.video_chunks;
        let ghost dv = data@;
        self.video_chunks.push(data);
        proof {
            lemma_deep_view_push(pre, self.video_chunks, self.video_chunks@.last());
            assert(self.video_chunks@.last()@ == dv);
        }
    }

    /// Appends an encoded audio chunk's payload; the timestamp is
    /// accepted at the boundary and not retained.
    pub fn add_audio_chunk(&mut self, data: Vec<u8>, _timestamp_us: u64)
        ensures
            final(self)@.audio_chunks == old(self)@.audio_chunks.push(data@),
            final(self)@.video_chunks == old(self)@.video_chunks,
            final(self)@.video_config == old(self)@.video_config,
            final(self)@.audio_config == old(self)@.audio_config,
    {
        let ghost pre = self.audio_chunks;
        let ghost dv = data@;
        self.audio_chunks.push(data);
        proof {
            lemma_deep_view_push(pre, self.audio_chunks, self.audio_chunks@.last());
            assert(self.audio_chunks@.last()@ == dv);
        }
    }

    /// Produces the container payload. The muxing itself is not
    /// implemented: the payload is empty and the collected state is left
    /// as it was.
    pub fn finalize(&mut self) -> (out: Vec<u8>)
        ensures
            out@.len() == 0,
            final(self)@ == old(self)@,
    {
        let output: Vec<u8> = Vec::new();
        output
    }

    /// Clears the collected chunks for reuse; the configured formats are
    /// kept.
    pub fn reset(&mut self)
        ensures
            final(self)@.video_chunks.len() == 0,
            final(self)@.audio_chunks.len() == 0,
            final(self)@.video_config == old(self)@.video_config,
            final(self)@.audio_config == old(self)@.audio_config,
    {
        self.video_chunks.clear();
        self.audio_chunks.clear();
        proof {
            assert(self@.video_chunks =~= Seq::<Seq<u8>>::empty());
            assert(self@.audio_chunks =~= Seq::<Seq<u8>>::empty());
        }
    }
}

impl Default for Muxer {
    /// The same state [`Muxer::new`] builds.
    fn default() -> (mx: Self)
        ensures
            mx@.video_chunks.len() == 0,
            mx@.audio_chunks.len() == 0,
            mx@.video_config is None,
            mx@.audio_config is None,
    {
        Muxer::new()
    }
}

} // verus!
