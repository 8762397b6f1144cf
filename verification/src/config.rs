//! What the server is configured to broadcast.

use vstd::prelude::*;

verus! {

/// The container format of a stream.
#[derive(Clone, Copy, Debug, PartialEq, Eq, Structural)]
pub enum Container {
    Ogg,
    MP3,
    FLAC,
    AAC,
}

/// The codec of a stream, as far as clients are told about it.
#[derive(Clone, Copy, Debug, PartialEq, Eq, Structural)]
pub enum Codec {
    Opus,
    Other,
}

/// A stream that clients can listen to.
#[derive(Debug)]
pub struct StreamConfig {
    /// The end of the request paths that lead to the stream.
    pub mount: String,
    pub container: Container,
    pub codec: Codec,
    pub bitrate: Option<u64>,
}

#[verifier::ext_equal]
pub struct StreamConfigView {
    pub mount: Seq<char>,
    pub container: Container,
    pub codec: Codec,
    pub bitrate: Option<u64>,
}

impl View for StreamConfig {
    type V = StreamConfigView;

    open spec fn view(&self) -> StreamConfigView {
        StreamConfigView {
            mount: self.mount@,
            container: self.container,
            codec: self.codec,
            bitrate: self.bitrate,
        }
    }
}

impl Clone for StreamConfig {
    fn clone(&self) -> (r: StreamConfig)
        ensures
            r@ == self@,
    {
        StreamConfig {
            mount: self.mount.clone(),
            container: self.container,
            codec: self.codec,
            bitrate: self.bitrate,
        }
    }
}

/// The station.
#[derive(Debug)]
pub struct RadioConfig {
    /// The port that clients connect to.
    pub port: u16,
    pub name: String,
}

#[derive(Debug)]
pub struct Config {
    pub radio: RadioConfig,
    pub streams: Vec<StreamConfig>,
}

} // verus!
